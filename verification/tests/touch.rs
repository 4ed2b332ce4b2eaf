use remarkable::dialog::{goto_press, goto_target, GotoStep, NpAction};
use remarkable::qtfb::Phase;
use remarkable::touch::{route_touch, TouchAction, TouchCtx, TouchState};

fn home() -> TouchCtx {
    TouchCtx { pen_recent: false, dialog_open: false, bar_shown: false, on_doc: false, tb_open: false }
}

#[test]
fn a_short_press_on_home_is_a_tap_and_a_long_one_a_hold() {
    let mut s = TouchState::new();
    assert_eq!(route_touch(&mut s, home(), Phase::Press, 500, 800, 1000), TouchAction::Nothing);
    assert_eq!(route_touch(&mut s, home(), Phase::Release, 505, 803, 1100), TouchAction::HomeTap { x: 500, y: 800 });
    route_touch(&mut s, home(), Phase::Press, 500, 800, 2000);
    assert_eq!(route_touch(&mut s, home(), Phase::Release, 500, 800, 2650), TouchAction::HomeHold { x: 500, y: 800 });
}

#[test]
fn vertical_swipes_scroll_home_and_sideways_swipes_flip_pages() {
    let mut s = TouchState::new();
    route_touch(&mut s, home(), Phase::Press, 500, 1500, 0);
    route_touch(&mut s, home(), Phase::Move, 520, 1000, 10);
    assert_eq!(route_touch(&mut s, home(), Phase::Release, 0, 0, 20), TouchAction::Scroll { down: true });
    let doc = TouchCtx { on_doc: true, ..home() };
    route_touch(&mut s, doc, Phase::Press, 900, 1000, 0);
    route_touch(&mut s, doc, Phase::Move, 500, 1010, 10);
    assert_eq!(route_touch(&mut s, doc, Phase::Release, 0, 0, 20), TouchAction::Flip(1));
    route_touch(&mut s, doc, Phase::Press, 500, 1000, 0);
    route_touch(&mut s, doc, Phase::Move, 900, 1010, 10);
    assert_eq!(route_touch(&mut s, doc, Phase::Release, 0, 0, 20), TouchAction::Flip(-1));
}

#[test]
fn the_top_edge_swipe_shows_the_bar() {
    let mut s = TouchState::new();
    assert_eq!(route_touch(&mut s, home(), Phase::Press, 700, 5, 0), TouchAction::Nothing);
    assert_eq!(route_touch(&mut s, home(), Phase::Move, 700, 60, 5), TouchAction::Nothing);
    assert_eq!(route_touch(&mut s, home(), Phase::Move, 700, 95, 10), TouchAction::ShowTopBar);
    assert_eq!(route_touch(&mut s, home(), Phase::Release, 700, 95, 20), TouchAction::Nothing);
}

#[test]
fn palms_dialogs_and_the_bar_take_precedence() {
    let mut s = TouchState::new();
    let palm = TouchCtx { pen_recent: true, ..home() };
    assert_eq!(route_touch(&mut s, palm, Phase::Press, 1, 500, 0), TouchAction::Nothing);
    let dlg = TouchCtx { dialog_open: true, ..home() };
    assert_eq!(route_touch(&mut s, dlg, Phase::Press, 3, 500, 0), TouchAction::DialogPress { x: 3, y: 500 });
    assert_eq!(route_touch(&mut s, dlg, Phase::Release, 3, 500, 0), TouchAction::Nothing);
    let bar = TouchCtx { bar_shown: true, ..home() };
    assert_eq!(route_touch(&mut s, bar, Phase::Press, 40, 50, 0), TouchAction::TopBarPress { x: 40, y: 50 });
}

#[test]
fn the_goto_numpad_builds_a_page_number() {
    let mut e: Vec<char> = Vec::new();
    assert_eq!(goto_press(&mut e, NpAction::Go), GotoStep::Dismiss);
    for c in ['0', '1', '2', '3', '4'] {
        assert_eq!(goto_press(&mut e, NpAction::Digit(c)), GotoStep::Edited);
    }
    assert_eq!(e, vec!['0', '1', '2', '3']);
    assert_eq!(goto_press(&mut e, NpAction::Del), GotoStep::Edited);
    assert_eq!(goto_press(&mut e, NpAction::Swallow), GotoStep::Keep);
    assert_eq!(goto_press(&mut e, NpAction::Go), GotoStep::Jump(12));
    let mut z = vec!['0'];
    assert_eq!(goto_press(&mut z, NpAction::Go), GotoStep::Dismiss);
    assert_eq!(goto_press(&mut z, NpAction::Outside), GotoStep::Dismiss);
    assert_eq!(goto_target(12, 30), 11);
    assert_eq!(goto_target(99, 30), 29);
    assert_eq!(goto_target(0, 0), 0);
}
