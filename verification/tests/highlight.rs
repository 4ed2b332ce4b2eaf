use remarkable::highlight::{band_for, cell, fits, hit, is_highlight, snap, Nib, Word, HL_GRAY};
use remarkable::ink::{AI_GRAY, USER_GRAY};
use remarkable::geom::Rect;

fn word(y0: i32, y1: i32) -> Word {
    Word { x0: 100, y0, x1: 200, y1, text: "x".to_string() }
}

/// The band a press at `y` lays, in pixels (the library gives halves).
fn band(words: &[Word], y: i32) -> (f32, f32) {
    let (c2, h2) = band_for(words, y);
    (c2 as f32 / 2.0, h2 as f32 / 2.0)
}

#[test]
fn no_words_keeps_the_nib_height() {
    assert_eq!(band(&[], 500), (500.0, 13.0));
    assert_eq!(snap(&[], 500), None);
}

#[test]
fn snaps_to_the_line_under_the_nib() {
    let words = vec![word(400, 440), word(600, 640)];
    let (cy, r) = band(&words, 615);
    assert_eq!(cy, 620.0);
    assert_eq!(r, 23.0);
}

#[test]
fn a_line_is_the_union_of_its_words() {
    let words = vec![word(600, 640), word(604, 652)];
    let (cy, r) = band(&words, 620);
    assert_eq!(cy, 626.0);
    assert_eq!(r, 26.0);
}

#[test]
fn far_from_any_line_does_not_snap() {
    let words = vec![word(400, 440)];
    assert_eq!(band(&words, 1200), (1200.0, 13.0));
}

#[test]
fn highlight_grey_is_clear_of_ink_and_pi() {
    assert!(is_highlight(HL_GRAY));
    assert!(!is_highlight(AI_GRAY));
    assert!(!is_highlight(USER_GRAY));
}

#[test]
fn nib_keys_round_trip() {
    assert_eq!(Nib::from_key(Nib::Pen.key()), Nib::Pen);
    assert_eq!(Nib::from_key(Nib::Highlighter.key()), Nib::Highlighter);
    assert_eq!(Nib::Highlighter.key(), "highlighter");
    assert_eq!(Nib::from_key("marker"), Nib::Pen);
    assert_eq!(Nib::Pen.toggled(), Nib::Highlighter);
    assert_eq!(Nib::Pen.toggled().toggled(), Nib::Pen);
}

#[test]
fn highlighter_cell_sits_under_the_strip() {
    let strip = Rect { x0: 1300, y0: 0, x1: 1403, y1: 1000 };
    let c = cell(strip);
    assert_eq!((c.x0, c.y0, c.x1, c.y1), (1300, 1001, 1403, 1104));
    assert!(fits(strip));
    assert!(!fits(Rect { x0: 1300, y0: 0, x1: 1403, y1: 1800 }));
    assert!(hit(strip, 1350, 1050));
    assert!(!hit(strip, 1350, 1000));
}

#[test]
fn snap_ignores_boxes_without_height() {
    let words = vec![word(600, 600), word(400, 440)];
    assert_eq!(snap(&words, 610), None);
    assert_eq!(snap(&words, 430), Some((400, 440)));
}
