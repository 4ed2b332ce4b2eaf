use remarkable::dialog::{dialog_press, Dialog, Effect, GotoStep};
use remarkable::kb::Kb;

// a five-row dialog: rows start at y = 642 + 84, 96 px each
fn row5(i: i32) -> (i32, i32) {
    (700, 642 + 84 + 96 * i + 10)
}

const OK_Y: i32 = 1756;

#[test]
fn the_document_menu_opens_the_next_dialog() {
    let (x, y) = row5(0);
    match dialog_press(Dialog::DocMenu(4), x, y, "Walden".into(), 0) {
        (Some(Dialog::Rename(4, kb)), Effect::Repaint) => assert_eq!(kb.text, "Walden"),
        _ => panic!("expected the rename keyboard"),
    }
    let (x, y) = row5(1);
    assert!(matches!(dialog_press(Dialog::DocMenu(4), x, y, String::new(), 0), (Some(Dialog::MoveTo(4)), Effect::Repaint)));
    let (x, y) = row5(2);
    assert!(matches!(dialog_press(Dialog::DocMenu(4), x, y, String::new(), 0), (None, Effect::Duplicate(4))));
    let (x, y) = row5(3);
    assert!(matches!(dialog_press(Dialog::DocMenu(4), x, y, String::new(), 0), (Some(Dialog::ConfirmDelete(4)), Effect::Repaint)));
    let (x, y) = row5(4);
    assert!(matches!(dialog_press(Dialog::DocMenu(4), x, y, String::new(), 0), (None, Effect::Repaint)));
    assert!(matches!(dialog_press(Dialog::DocMenu(4), 10, 10, String::new(), 0), (None, Effect::Repaint)));
}

#[test]
fn confirming_deletes_and_anything_else_declines() {
    // two rows: the dialog starts at y = 786, its first row at 870
    assert!(matches!(dialog_press(Dialog::ConfirmDelete(2), 700, 880, String::new(), 0), (None, Effect::Delete(2))));
    assert!(matches!(dialog_press(Dialog::ConfirmDelete(2), 700, 980, String::new(), 0), (None, Effect::Rebuild)));
    assert!(matches!(dialog_press(Dialog::ConfirmDelete(2), 5, 5, String::new(), 0), (None, Effect::Rebuild)));
}

#[test]
fn renaming_accepts_a_trimmed_name_and_ignores_an_empty_one() {
    let kb = Kb::new("Rename", "  Notes ".into());
    match dialog_press(Dialog::Rename(1, kb), 1200, OK_Y, String::new(), 0) {
        (None, Effect::Rename(1, t)) => assert_eq!(t, "Notes"),
        _ => panic!("expected a rename"),
    }
    let kb = Kb::new("Rename", "   ".into());
    assert!(matches!(dialog_press(Dialog::Rename(1, kb), 1200, OK_Y, String::new(), 0), (None, Effect::Rebuild)));
    let kb = Kb::new("Rename", "x".into());
    assert!(matches!(dialog_press(Dialog::Rename(1, kb), 30, OK_Y, String::new(), 0), (None, Effect::Repaint)));
    let kb = Kb::new("Rename", "x".into());
    match dialog_press(Dialog::Rename(1, kb), 10, 10, String::new(), 0) {
        (Some(Dialog::Rename(1, kb)), Effect::Repaint) => assert_eq!(kb.text, "x"),
        _ => panic!("a stray tap keeps the keyboard up"),
    }
}

#[test]
fn moving_picks_the_root_a_folder_or_a_new_one() {
    // two folders: rows are root, folder 0, folder 1, new folder, cancel
    let (x, y) = row5(0);
    assert!(matches!(dialog_press(Dialog::MoveTo(3), x, y, String::new(), 2), (None, Effect::MoveTo(3, None))));
    let (x, y) = row5(2);
    assert!(matches!(dialog_press(Dialog::MoveTo(3), x, y, String::new(), 2), (None, Effect::MoveTo(3, Some(1)))));
    let (x, y) = row5(3);
    match dialog_press(Dialog::MoveTo(3), x, y, String::new(), 2) {
        (Some(Dialog::NewFolder(3, kb)), Effect::Repaint) => assert_eq!(kb.text, ""),
        _ => panic!("expected the new-folder keyboard"),
    }
    let (x, y) = row5(4);
    assert!(matches!(dialog_press(Dialog::MoveTo(3), x, y, String::new(), 2), (None, Effect::Repaint)));
    let kb = Kb::new("New folder", "Poems".into());
    match dialog_press(Dialog::NewFolder(3, kb), 1200, OK_Y, String::new(), 2) {
        (None, Effect::NewFolder(3, t)) => assert_eq!(t, "Poems"),
        _ => panic!("expected a new folder"),
    }
}

#[test]
fn the_goto_numpad_and_the_face_picker() {
    assert!(matches!(dialog_press(Dialog::GoTo(vec!['1', '2']), 5, 5, String::new(), 0), (None, Effect::GoTo(GotoStep::Dismiss))));
    assert!(matches!(dialog_press(Dialog::FontPick, 5, 5, String::new(), 0), (None, Effect::FontPick)));
}
