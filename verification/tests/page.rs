use remarkable::geom::Rect;
use remarkable::hints::patch_summary;
use remarkable::ink::{stroke_bbox, OwnedStroke, Owner, Page, Pt, Stroke, TextRun};

fn pt(x: i32, y: i32, r: i32) -> Pt {
    Pt { x, y, r }
}

fn stroke(pts: Vec<Pt>) -> Stroke {
    Stroke { id: 0, pts, gray: 0 }
}

fn ids(v: &[Stroke]) -> Vec<u64> {
    v.iter().map(|s| s.id).collect()
}

#[test]
fn bbox_rounds_outwards_in_pixels() {
    let s = stroke(vec![pt(1005, 2003, 17), pt(1205, 1900, 17)]);
    // x: (1005-17)/10 = 98 (toward zero), ceil((1205+17)/10) = 123
    assert_eq!(stroke_bbox(&s), Some(Rect { x0: 98, y0: 188, x1: 123, y1: 202 }));
    assert_eq!(stroke_bbox(&stroke(vec![])), None);
}

#[test]
fn bbox_of_negative_coordinates_truncates_toward_zero() {
    let s = stroke(vec![pt(-15, -25, 0)]);
    assert_eq!(stroke_bbox(&s), Some(Rect { x0: -1, y0: -2, x1: -1, y1: -2 }));
}

#[test]
fn push_stroke_hands_out_ids_from_one() {
    let mut p = Page::default();
    assert!(p.is_empty());
    let a = p.push_stroke(stroke(vec![pt(10, 10, 5)]));
    let b = p.push_stroke(stroke(vec![pt(20, 20, 5)]));
    assert_eq!((a, b), (1, 2));
    assert_eq!(p.next_stroke, 3);
    assert!(p.dirty);
    assert_eq!(ids(&p.strokes), vec![1, 2]);
}

#[test]
fn push_then_remove_gives_the_stroke_back() {
    let mut p = Page::default();
    p.push_stroke(stroke(vec![pt(10, 10, 5)]));
    let id = p.push_stroke(stroke(vec![pt(100, 100, 10)]));
    let (s, b) = p.remove_stroke_by_id(id).unwrap();
    assert_eq!(s.id, id);
    assert_eq!(b, Rect { x0: 9, y0: 9, x1: 11, y1: 11 });
    assert_eq!(ids(&p.strokes), vec![1]);
    assert!(p.remove_stroke_by_id(77).is_none());
}

#[test]
fn removing_an_empty_stroke_drops_it_without_a_box() {
    let mut p = Page::default();
    let id = p.push_stroke(stroke(vec![]));
    p.dirty = false;
    assert!(p.remove_stroke_by_id(id).is_none());
    assert!(p.strokes.is_empty());
    assert!(!p.dirty);
}

#[test]
fn add_patch_numbers_patches_and_strokes() {
    let mut p = Page::default();
    p.push_stroke(stroke(vec![pt(0, 0, 5)]));
    let pid = p.add_patch(vec![stroke(vec![pt(50, 50, 5)]), stroke(vec![pt(60, 60, 5)])], Vec::new());
    assert_eq!(pid, 0);
    assert_eq!(ids(&p.patches[0].strokes), vec![2, 3]);
    assert_eq!(p.next_stroke, 4);
    assert_eq!(p.next_patch, 1);
    let pid2 = p.add_patch(Vec::new(), Vec::new());
    assert_eq!(pid2, 1);
    assert_eq!(p.next_stroke, 4);
}

#[test]
fn lasso_delete_then_restore_puts_strokes_back_in_their_layers() {
    let mut p = Page::default();
    let u1 = p.push_stroke(stroke(vec![pt(100, 100, 10)]));
    let u2 = p.push_stroke(stroke(vec![pt(300, 300, 10)]));
    let pid = p.add_patch(vec![stroke(vec![pt(500, 500, 10)])], Vec::new());
    let pstroke = p.patches[0].strokes[0].id;
    let refs = vec![(Owner::User, u1), (Owner::Patch(pid), pstroke)];
    let (lifted, gone) = p.remove_strokes_by_ids(&refs);
    assert_eq!(lifted.len(), 2);
    assert_eq!(gone, Some(Rect { x0: 9, y0: 9, x1: 51, y1: 51 }));
    assert_eq!(ids(&p.strokes), vec![u2]);
    assert!(p.patches.is_empty(), "an emptied patch without text is dropped");
    let back = p.insert_owned(lifted);
    assert_eq!(back, Some(Rect { x0: 9, y0: 9, x1: 51, y1: 51 }));
    assert_eq!(ids(&p.strokes), vec![u2, u1]);
    assert_eq!(p.patches.len(), 1);
    assert_eq!(p.patches[0].id, pid);
    assert_eq!(ids(&p.patches[0].strokes), vec![pstroke]);
}

#[test]
fn a_patch_keeping_text_survives_losing_its_strokes() {
    let mut p = Page::default();
    let text = TextRun { x: 0, y: 0, size: 400, gray: 0, text: "hi".to_string(), bbox: Some(Rect { x0: 0, y0: 0, x1: 10, y1: 10 }) };
    let pid = p.add_patch(vec![stroke(vec![pt(500, 500, 10)])], vec![text]);
    let sid = p.patches[0].strokes[0].id;
    let (lifted, _) = p.remove_strokes_by_ids(&vec![(Owner::Patch(pid), sid)]);
    assert_eq!(lifted.len(), 1);
    assert_eq!(p.patches.len(), 1);
    assert!(p.patches[0].strokes.is_empty());
}

#[test]
fn translate_moves_named_strokes_and_reports_both_boxes() {
    let mut p = Page::default();
    let a = p.push_stroke(stroke(vec![pt(100, 100, 0)]));
    p.push_stroke(stroke(vec![pt(900, 900, 0)]));
    let r = p.translate_strokes(&vec![(Owner::User, a)], 200, -50);
    assert_eq!(p.strokes[0].pts[0], pt(300, 50, 0));
    assert_eq!(p.strokes[1].pts[0], pt(900, 900, 0));
    assert_eq!(r, Some(Rect { x0: 10, y0: 5, x1: 30, y1: 10 }));
    assert_eq!(p.translate_strokes(&vec![(Owner::User, 99)], 5, 5), None);
}

#[test]
fn take_patch_and_re_add_under_the_same_id() {
    let mut p = Page::default();
    let pid = p.add_patch(vec![stroke(vec![pt(100, 100, 10)])], Vec::new());
    let (body, b) = p.take_patch(pid).unwrap();
    assert_eq!(b, Rect { x0: 9, y0: 9, x1: 11, y1: 11 });
    assert!(p.patches.is_empty());
    p.next_patch = 0;
    p.add_patch_with_id(pid, body);
    assert_eq!(p.patches[0].id, pid);
    assert_eq!(p.next_patch, pid + 1);
    assert!(p.remove_patch(42).is_none());
    assert_eq!(p.remove_patch(pid), Some(b));
}

#[test]
fn ink_bands_merge_close_rows_and_split_far_ones() {
    let mut p = Page::default();
    p.push_stroke(stroke(vec![pt(1000, 1000, 0), pt(2000, 1200, 0)]));
    p.push_stroke(stroke(vec![pt(1500, 1300, 0)]));
    p.add_patch(vec![stroke(vec![pt(500, 5000, 0)])], Vec::new());
    let bands = p.ink_bands();
    assert_eq!(bands.len(), 2);
    assert_eq!((bands[0].y0, bands[0].y1, bands[0].x0, bands[0].x1, bands[0].user), (100, 130, 100, 200, true));
    assert_eq!((bands[1].y0, bands[1].y1, bands[1].user), (500, 500, false));
}

#[test]
fn user_line_height_is_the_median_clamped_row_height() {
    let mut p = Page::default();
    assert_eq!(p.user_line_height(), None);
    p.push_stroke(stroke(vec![pt(1000, 1000, 0), pt(1000, 1500, 0)]));
    p.push_stroke(stroke(vec![pt(1000, 3000, 0), pt(1000, 3100, 0)]));
    p.push_stroke(stroke(vec![pt(1000, 6000, 0), pt(1000, 9000, 0)]));
    assert_eq!(p.user_line_height(), Some(50));
}

#[test]
fn insert_owned_recreates_a_vanished_patch() {
    let mut p = Page::default();
    let os = OwnedStroke { owner: Owner::Patch(7), stroke: Stroke { id: 40, pts: vec![pt(0, 0, 10)], gray: 110 } };
    let r = p.insert_owned(vec![os]);
    assert_eq!(r, Some(Rect { x0: -1, y0: -1, x1: 1, y1: 1 }));
    assert_eq!(p.patches[0].id, 7);
    assert_eq!(p.next_patch, 8);
    assert_eq!(p.next_stroke, 41);
}

#[test]
fn the_rubber_takes_strokes_within_reach() {
    let mut p = Page::default();
    let near = p.push_stroke(stroke(vec![pt(1000, 1000, 20), pt(3000, 1000, 20)]));
    let far = p.push_stroke(stroke(vec![pt(1000, 5000, 20)]));
    // 2.5 px above the middle of the segment, rubber radius 1 px: within 2 + 1 px? no.
    assert!(p.erase_at(2000, 1035, 10).is_none());
    let (gone, lifted) = p.erase_at(2000, 1025, 10).unwrap();
    assert_eq!(lifted.len(), 1);
    assert_eq!(lifted[0].stroke.id, near);
    assert_eq!(lifted[0].owner, Owner::User);
    assert_eq!(gone, Rect { x0: 98, y0: 98, x1: 302, y1: 102 });
    assert_eq!(ids(&p.strokes), vec![far]);
}

#[test]
fn the_rubber_drops_emptied_patches_even_with_text() {
    let mut p = Page::default();
    let text = TextRun { x: 0, y: 0, size: 400, gray: 0, text: "hi".to_string(), bbox: None };
    p.add_patch(vec![stroke(vec![pt(500, 500, 10)])], vec![text]);
    let (_, lifted) = p.erase_at(500, 500, 0).unwrap();
    assert_eq!(lifted.len(), 1);
    assert!(p.patches.is_empty());
}

#[test]
fn the_rubber_measures_to_the_segment_ends() {
    let mut p = Page::default();
    p.push_stroke(stroke(vec![pt(0, 0, 10), pt(1000, 0, 10)]));
    // beyond the end: distance to (1000, 0) is 30 tenths, reach is 10 + 15
    assert!(p.erase_at(1030, 0, 15).is_none());
    assert!(p.erase_at(1030, 0, 20).is_some());
}

#[test]
fn healing_gives_id_less_strokes_fresh_ids() {
    let mut p = Page::default();
    p.strokes.push(Stroke { id: 0, pts: vec![pt(0, 0, 1)], gray: 0 });
    p.strokes.push(Stroke { id: 7, pts: vec![pt(0, 0, 1)], gray: 0 });
    p.patches.push(remarkable::ink::Patch { id: 0, strokes: vec![Stroke { id: 0, pts: vec![], gray: 110 }], texts: vec![] });
    p.next_stroke = 3;
    p.heal_ids();
    assert_eq!(ids(&p.strokes), vec![8, 7]);
    assert_eq!(p.patches[0].strokes[0].id, 9);
    assert_eq!(p.next_stroke, 10);
}

#[test]
fn range_checks() {
    let mut p = Page::default();
    p.push_stroke(stroke(vec![pt(100, 100, 10)]));
    assert!(p.in_range());
    assert!(p.shift_in_range(1000, -1000));
    assert!(!p.shift_in_range(remarkable::ink::COORD_LIM, 0));
    p.push_stroke(stroke(vec![pt(remarkable::ink::COORD_LIM + 1, 0, 0)]));
    assert!(!p.in_range());
}

#[test]
fn the_rubber_finds_the_first_patch_whose_text_it_reaches() {
    let mut p = Page::default();
    let run = |x0: i32, bbox: Option<Rect>| TextRun { x: x0, y: 0, size: 400, gray: 0, text: "hi".to_string(), bbox };
    let a = p.add_patch(vec![], vec![run(0, None), run(0, Some(Rect { x0: 100, y0: 100, x1: 200, y1: 120 }))]);
    let b = p.add_patch(vec![], vec![run(0, Some(Rect { x0: 150, y0: 110, x1: 300, y1: 130 }))]);
    // (tenths) 1500,1150 lies in both boxes: the first patch wins
    assert_eq!(p.text_patch_at(1500, 1150, 0), Some(a));
    assert_eq!(p.text_patch_at(2500, 1250, 0), Some(b));
    // the rubber's radius widens the reach: 2 px left of the box
    assert_eq!(p.text_patch_at(980, 1100, 20), Some(a));
    assert_eq!(p.text_patch_at(979, 1100, 20), None);
    assert_eq!(p.text_patch_at(5000, 5000, 30), None);
}

#[test]
fn the_snapshot_plots_a_lone_sample_as_a_small_disc() {
    let mut p = Page::default();
    p.push_stroke(Stroke { id: 0, pts: vec![pt(1000, 1000, 0)], gray: 0 });
    let (w, h, buf) = p.snapshot(2);
    assert_eq!((w, h), (702, 936));
    let at = |x: usize, y: usize| buf[y * 702 + x];
    // 1000 tenths = 100 px = 50 buffer px; radius rounds up to 1
    for (x, y) in [(50, 50), (49, 50), (51, 50), (50, 49), (50, 51)] {
        assert_eq!(at(x, y), 0);
    }
    assert_eq!(at(49, 49), 255);
    assert_eq!(at(52, 50), 255);
    assert_eq!(buf.iter().filter(|&&g| g != 255).count(), 5);
}

#[test]
fn the_snapshot_walks_segments_and_keeps_the_darkest_tone() {
    let mut p = Page::default();
    p.push_stroke(Stroke { id: 0, pts: vec![pt(0, 0, 0), pt(400, 0, 0)], gray: 0 });
    p.add_patch(vec![Stroke { id: 0, pts: vec![pt(200, 0, 0), pt(200, 400, 0)], gray: 110 }], vec![]);
    let (_, _, buf) = p.snapshot(2);
    let at = |x: usize, y: usize| buf[y * 702 + x];
    for x in 0..=21 {
        assert_eq!(at(x, 0), 0);
    }
    assert_eq!(at(22, 0), 255);
    assert_eq!(at(5, 1), 0);
    assert_eq!(at(5, 2), 255);
    // the patch's gray line crosses the user's black one: black stays
    assert_eq!(at(10, 0), 0);
    assert_eq!(at(10, 1), 0);
    assert_eq!(at(10, 10), 110);
    assert_eq!(at(10, 21), 110);
    assert_eq!(at(10, 22), 255);
}

#[test]
fn the_snapshot_draws_over_what_the_buffer_holds() {
    let mut p = Page::default();
    p.push_stroke(Stroke { id: 0, pts: vec![pt(60, 60, 0)], gray: 200 });
    let mut buf = vec![100u8; 702 * 936];
    p.snapshot_into(&mut buf, 2);
    // gray 200 is lighter than the 100 already there
    assert!(buf.iter().all(|&g| g == 100));
    let mut small = vec![7u8; 3];
    p.snapshot_into(&mut small, -1);
    assert_eq!(small, vec![7, 7, 7]);
}

#[test]
fn the_patch_summary_lists_ids_and_boxes() {
    let mut p = Page::default();
    assert_eq!(patch_summary(&p), "none");
    let a = p.add_patch(vec![stroke(vec![pt(1000, 2000, 0), pt(1200, 2105, 0)])], vec![]);
    let b = p.add_patch(vec![], vec![]);
    let c = p.add_patch(vec![stroke(vec![pt(-15, -25, 0)])], vec![]);
    assert_eq!(
        patch_summary(&p),
        format!("#{a} at (100,200)-(120,211), #{b}, #{c} at (-1,-2)-(-1,-2)")
    );
}
