use remarkable::kb::{Kb, KbAction};

fn key_center(row: usize, col: usize) -> (i32, i32) {
    let n = [10, 10, 9, 7][row];
    let kw = (1404 - 48 - 10 * (n - 1)) / n;
    let x0 = (1404 - (kw * n + 10 * (n - 1))) / 2;
    (x0 + col as i32 * (kw + 10) + kw / 2, 1182 + 110 + row as i32 * 106 + 48)
}

#[test]
fn keys_type_their_characters() {
    let mut k = Kb::new("Rename", String::from("ab"));
    let (x, y) = key_center(1, 0);
    assert!(matches!(k.press(x, y), KbAction::Edited));
    assert_eq!(k.text, "abq");
    let (x, y) = key_center(0, 9);
    k.press(x, y);
    assert_eq!(k.text, "abq0");
    let (x, y) = key_center(3, 6);
    k.press(x, y);
    assert_eq!(k.text, "abq0m");
}

#[test]
fn bottom_row_space_del_ok_cancel() {
    let mut k = Kb::new("Folder", String::from("  notes"));
    let y = 1716 + 40;
    assert!(matches!(k.press(320, y), KbAction::Edited));
    assert_eq!(k.text, "  notes ");
    assert!(matches!(k.press(900, y), KbAction::Edited));
    assert_eq!(k.text, "  notes");
    match k.press(1200, y) {
        KbAction::Accept(t) => assert_eq!(t, "notes"),
        _ => panic!("expected OK"),
    }
    assert!(matches!(k.press(30, y), KbAction::Cancel));
    assert!(matches!(k.press(310, y), KbAction::Edited));
    assert_eq!(k.text, "  notes");
}

#[test]
fn a_full_field_takes_no_more() {
    let mut k = Kb::new("Rename", "x".repeat(60));
    let (x, y) = key_center(1, 1);
    k.press(x, y);
    assert_eq!(k.text.len(), 60);
    let mut e = Kb::new("Rename", String::new());
    e.press(320, 1756);
    assert_eq!(e.text, "");
    e.press(900, 1756);
    assert_eq!(e.text, "");
}

#[test]
fn stray_taps_keep_the_keyboard_up() {
    let mut k = Kb::new("Rename", String::from("z"));
    assert!(matches!(k.press(5, 5), KbAction::Edited));
    assert_eq!(k.text, "z");
}
