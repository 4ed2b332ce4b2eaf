use remarkable::geom::Rect;
use remarkable::ink::{Owner, Page, Pt, Stroke};
use remarkable::select::{select_strokes, Lasso};

fn stroke(pts: &[(i32, i32)]) -> Stroke {
    Stroke { id: 0, pts: pts.iter().map(|&(x, y)| Pt { x, y, r: 10 }).collect(), gray: 0 }
}

fn square() -> Vec<(i32, i32)> {
    vec![(0, 0), (10000, 0), (10000, 10000), (0, 10000)]
}

#[test]
fn the_loop_takes_strokes_wholly_inside() {
    let mut p = Page::default();
    let a = p.push_stroke(stroke(&[(1000, 1000), (2000, 2000)]));
    p.push_stroke(stroke(&[(5000, 5000), (12000, 5000)]));
    let pid = p.add_patch(vec![stroke(&[(8000, 8000)])], Vec::new());
    let b = p.patches[0].strokes[0].id;
    let (refs, bbox) = select_strokes(&p, &square());
    assert_eq!(refs, vec![(Owner::User, a), (Owner::Patch(pid), b)]);
    assert_eq!(bbox, Some(Rect { x0: 99, y0: 99, x1: 801, y1: 801 }));
}

#[test]
fn a_concave_loop_leaves_its_notch_out() {
    // a U shape: the notch between the arms is outside
    let u = vec![(0, 0), (3000, 0), (3000, 9000), (2000, 9000), (2000, 3000), (1000, 3000), (1000, 9000), (0, 9000)];
    let mut p = Page::default();
    p.push_stroke(stroke(&[(1500, 6000)]));
    let arm = p.push_stroke(stroke(&[(500, 6000)]));
    let (refs, _) = select_strokes(&p, &u);
    assert_eq!(refs, vec![(Owner::User, arm)]);
}

#[test]
fn capture_decimates_and_judges_the_loop() {
    let mut l = Lasso::new(0, 0);
    assert_eq!(l.extend(30, 30), None);
    assert_eq!(l.extend(50, 0), Some((0, 0)));
    assert_eq!(l.pts.len(), 2);
    assert!(!l.viable());
    for i in 1..=8 {
        l.extend(50 + i * 100, 0);
    }
    assert_eq!(l.bbox(), Rect { x0: 0, y0: 0, x1: 85, y1: 0 });
    assert!(l.viable());
}
