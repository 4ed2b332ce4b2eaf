use remarkable::sidebar::{pad_key, pad_step, sb_action, sb_press, size_step, PadKey, PadStep, SbAction, SbPress, SbRow, SizeStep};

#[test]
fn a_press_right_of_the_panel_hides_it() {
    assert_eq!(sb_press(400, 500, false), SbPress::Hide);
    assert_eq!(sb_press(400, 500, true), SbPress::Hide);
}

#[test]
fn with_the_pad_up_every_panel_press_is_the_pads() {
    assert_eq!(sb_press(100, 500, true), SbPress::Pad);
    assert_eq!(sb_press(100, 1800, true), SbPress::Pad);
}

#[test]
fn the_close_bar_sits_at_the_bottom() {
    assert_eq!(sb_press(100, 1800, false), SbPress::Close);
    assert_eq!(sb_press(24, 1784, false), SbPress::Close);
    // the margins beside the bar are dead space
    assert_eq!(sb_press(10, 1800, false), SbPress::Nothing);
    assert_eq!(sb_press(360, 1800, false), SbPress::Nothing);
}

#[test]
fn rows_are_found_by_their_band() {
    assert_eq!(sb_press(100, 130, false), SbPress::Row(SbRow::First));
    assert_eq!(sb_press(100, 130 + 68, false), SbPress::Row(SbRow::Last));
    assert_eq!(sb_press(100, 130 + 3 * 68 + 30, false), SbPress::Row(SbRow::GoTo));
    assert_eq!(sb_press(100, 130 + 9 * 68 + 1, false), SbPress::Row(SbRow::FontSize));
    assert_eq!(sb_press(100, 130 + 10 * 68 + 5, false), SbPress::Row(SbRow::Refresh));
    assert_eq!(sb_press(100, 130 + 11 * 68, false), SbPress::Nothing);
}

#[test]
fn just_above_the_list_still_counts_as_the_first_row() {
    // division toward zero folds the band above the list into row 0
    assert_eq!(sb_press(100, 100, false), SbPress::Row(SbRow::First));
    assert_eq!(sb_press(100, 50, false), SbPress::Nothing);
}

#[test]
fn the_font_size_row_splits_in_thirds() {
    assert_eq!(size_step(10), SizeStep::Smaller);
    assert_eq!(size_step(200), SizeStep::Reset);
    assert_eq!(size_step(300), SizeStep::Bigger);
}

#[test]
fn pad_keys_follow_the_phone_grid() {
    assert_eq!(pad_key(24, 214), PadKey::Digit('1'));
    assert_eq!(pad_key(24 + 114, 214), PadKey::Digit('2'));
    assert_eq!(pad_key(24 + 228 + 5, 214 + 94 + 5), PadKey::Digit('6'));
    assert_eq!(pad_key(30, 214 + 2 * 94 + 1), PadKey::Digit('7'));
    assert_eq!(pad_key(30, 214 + 3 * 94 + 1), PadKey::Back);
    assert_eq!(pad_key(140, 214 + 3 * 94 + 1), PadKey::Digit('0'));
    assert_eq!(pad_key(252, 214 + 3 * 94 + 1), PadKey::Go);
}

#[test]
fn pad_gaps_and_margins_hit_nothing_and_the_bar_cancels() {
    assert_eq!(pad_key(130, 220), PadKey::Nothing);
    assert_eq!(pad_key(10, 220), PadKey::Nothing);
    assert_eq!(pad_key(100, 214 + 84 + 3), PadKey::Nothing);
    assert_eq!(pad_key(100, 600), PadKey::Cancel);
    assert_eq!(pad_key(100, 660), PadKey::Nothing);
}

#[test]
fn typing_a_page_and_going_there() {
    let mut e: Vec<char> = Vec::new();
    assert_eq!(pad_step(&mut e, PadKey::Digit('1')), PadStep::Edited);
    assert_eq!(pad_step(&mut e, PadKey::Digit('2')), PadStep::Edited);
    assert_eq!(e, vec!['1', '2']);
    assert_eq!(pad_step(&mut e, PadKey::Go), PadStep::Jump(11));
    assert_eq!(e, vec!['1', '2']);
    assert_eq!(pad_step(&mut e, PadKey::Back), PadStep::Edited);
    assert_eq!(e, vec!['1']);
    assert_eq!(pad_step(&mut e, PadKey::Go), PadStep::Jump(0));
    assert_eq!(pad_step(&mut e, PadKey::Cancel), PadStep::Closed);
    assert!(e.is_empty());
}

#[test]
fn the_pad_keeps_four_digits_and_refuses_page_zero() {
    let mut e: Vec<char> = Vec::new();
    assert_eq!(pad_step(&mut e, PadKey::Go), PadStep::Stay);
    assert_eq!(pad_step(&mut e, PadKey::Back), PadStep::Edited);
    assert!(e.is_empty());
    for d in ['9', '8', '7', '6', '5'] {
        pad_step(&mut e, PadKey::Digit(d));
    }
    assert_eq!(e, vec!['9', '8', '7', '6']);
    assert_eq!(pad_step(&mut e, PadKey::Go), PadStep::Jump(9875));
    let mut z = vec!['0'];
    assert_eq!(pad_step(&mut z, PadKey::Go), PadStep::Stay);
    assert_eq!(pad_step(&mut z, PadKey::Nothing), PadStep::Stay);
    assert_eq!(z, vec!['0']);
}

#[test]
fn rows_turn_into_actions() {
    let act = |p: SbPress, x: i32| sb_action(p, x, 12, 7, false, true, true, 2, 3, 10);
    assert_eq!(act(SbPress::Row(SbRow::First), 100), SbAction::Jump(0));
    assert_eq!(act(SbPress::Row(SbRow::Last), 100), SbAction::Jump(11));
    assert_eq!(act(SbPress::Row(SbRow::Active), 100), SbAction::Jump(7));
    assert_eq!(act(SbPress::Row(SbRow::GoTo), 100), SbAction::OpenPad);
    assert_eq!(act(SbPress::Row(SbRow::Agent), 100), SbAction::Agent(true));
    assert_eq!(act(SbPress::Row(SbRow::PiFont), 100), SbAction::Face(0));
    assert_eq!(act(SbPress::Row(SbRow::Quiet), 100), SbAction::Quiet(false, true));
    assert_eq!(act(SbPress::Row(SbRow::FontSize), 10), SbAction::Scale(9));
    assert_eq!(act(SbPress::Row(SbRow::FontSize), 300), SbAction::Scale(11));
    assert_eq!(act(SbPress::Row(SbRow::FontSize), 200), SbAction::Scale(10));
    assert_eq!(sb_action(SbPress::Row(SbRow::FontSize), 300, 1, 0, true, false, false, 0, 1, 18), SbAction::Scale(18));
    assert_eq!(sb_action(SbPress::Row(SbRow::FontSize), 10, 1, 0, true, false, true, 0, 1, 6), SbAction::Scale(6));
    assert_eq!(sb_action(SbPress::Row(SbRow::Quiet), 10, 1, 0, true, false, true, 0, 1, 6), SbAction::Quiet(true, false));
    assert_eq!(act(SbPress::Close, 100), SbAction::Quit);
    assert_eq!(act(SbPress::Hide, 100), SbAction::Hide);
    assert_eq!(act(SbPress::Nothing, 100), SbAction::Stay);
}
