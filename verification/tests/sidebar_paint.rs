use remarkable::sidebar::{paint_sidebar, DrawOp, SbState};

fn state() -> SbState {
    SbState {
        current: 0,
        count: 12,
        active: 4,
        agent_open: false,
        library_open: false,
        library_len: 3,
        live: false,
        quiet: true,
        face_name: "SCRIPT".into(),
        scale_pct: 90,
    }
}

fn texts(ops: &[DrawOp]) -> Vec<(i32, i32, String, u16)> {
    ops.iter()
        .filter_map(|o| match o {
            DrawOp::Text(x, y, t, _, c) => Some((*x, *y, t.clone(), *c)),
            _ => None,
        })
        .collect()
}

#[test]
fn the_rows_show_their_labels_and_the_current_view() {
    let ops = paint_sidebar(&state(), None);
    let t = texts(&ops);
    assert_eq!(t[0].2, "NOTEBOOK");
    assert_eq!(t[1].2, "page 1 of 12");
    let labels: Vec<&str> = t[2..].iter().map(|x| x.2.as_str()).collect();
    assert_eq!(
        labels,
        vec![
            "FIRST PAGE", "LAST PAGE (12)", "ACTIVE PAGE (5)", "GO TO PAGE...", "INSTRUCTIONS", "LIBRARY (3)",
            "LIVE STREAM: OFF", "PI: QUIET", "PI FONT: SCRIPT", "-   PI TEXT  90%   +", "REFRESH SCREEN", "X CLOSE",
        ]
    );
    // the current page's row and quiet mode are drawn white on black
    assert_eq!((t[2].0, t[2].1, t[2].3), (36, 149, 0xFFFF));
    assert_eq!(t[9].3, 0xFFFF);
    assert_eq!(t[3].3, 0x0000);
    // head 5, rows 11, the instructions separator, two highlight bars, close bar 2
    assert_eq!(ops.len(), 5 + 11 + 1 + 2 + 2);
}

#[test]
fn the_number_pad_shows_what_is_typed_and_its_keys() {
    let entry = vec!['4', '2'];
    let ops = paint_sidebar(&state(), Some(&entry));
    let t = texts(&ops);
    assert_eq!(t[2].2, "GO TO: 42_");
    let keys: Vec<&str> = t[3..15].iter().map(|x| x.2.as_str()).collect();
    assert_eq!(keys, vec!["1", "2", "3", "4", "5", "6", "7", "8", "9", "<", "0", "OK"]);
    // a one-character key is centred: 24 + (104 - 24) / 2
    assert_eq!((t[3].0, t[3].1), (64, 242));
    assert_eq!((t[14].0, t[14].1), (24 + 228 + 28, 214 + 282 + 28));
    assert_eq!(t[15].2, "CANCEL");
}
