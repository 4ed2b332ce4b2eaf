//! Finger gestures on the reader: palm rejection while the pen is near,
//! taps routed to an open dialog or the top bar, the top-edge swipe that
//! reveals the bar, page-flip swipes in a document, scroll swipes, taps
//! and holds on the home grid. The app feeds each touch sample in and
//! performs the action that comes back.

use vstd::prelude::*;
use crate::qtfb::Phase;
use crate::toolbar::{TbAction, hit, hit_spec};

verus! {

/// A touch in the top band this tall starts the bar swipe.
pub const EDGE_Y: i32 = 16;

/// How far down the bar swipe must travel.
pub const SWIPE_DIST: i32 = 90;

/// Height of the top bar.
pub const BAR_H: i32 = 90;

/// A page-flip swipe travels at least this far sideways...
pub const FLIP_DX: i32 = 260;

/// ...and at most this far across.
pub const FLIP_DY_MAX: i32 = 240;

/// A press held this long (ms) on the home grid is a hold.
pub const HOLD_MS: u64 = 650;

/// A tap moves less than this in each direction.
pub const TAP_SLOP: i64 = 40;

/// The gesture in progress.
#[derive(Clone, Copy, Debug)]
pub struct TouchState {
    /// Where the finger went down (when a gesture is being tracked).
    pub start: Option<(i32, i32)>,
    /// When it went down, in ms.
    pub t0: Option<u64>,
    /// Where it was last seen.
    pub last: (i32, i32),
    /// Where a bar swipe started (its y).
    pub swipe_from: Option<i32>,
}

/// What the screen is showing when the touch arrives.
#[derive(Clone, Copy, PartialEq, Eq, Structural, Debug)]
pub struct TouchCtx {
    /// The pen was used too recently (palm rejection).
    pub pen_recent: bool,
    pub dialog_open: bool,
    pub bar_shown: bool,
    /// A document is open (else the home grid).
    pub on_doc: bool,
    /// The document's toolbar is expanded.
    pub tb_open: bool,
}

/// What the app should do.
#[derive(Clone, Copy, PartialEq, Eq, Structural, Debug)]
pub enum TouchAction {
    Nothing,
    DialogPress { x: i32, y: i32 },
    TopBarPress { x: i32, y: i32 },
    Toolbar(TbAction),
    ShowTopBar,
    /// Turn by one page (+1 forward).
    Flip(i32),
    /// Scroll the home grid (`down` towards later rows).
    Scroll { down: bool },
    HomeHold { x: i32, y: i32 },
    HomeTap { x: i32, y: i32 },
}

impl TouchState {
    pub fn new() -> (s: TouchState)
        ensures
            s.start is None && s.t0 is None && s.swipe_from is None && s.last == (0i32, 0i32),
    {
        TouchState { start: None, t0: None, last: (0, 0), swipe_from: None }
    }
}

pub open spec fn abs(v: int) -> int {
    if v < 0 {
        -v
    } else {
        v
    }
}

/// The end of a gesture: what the release means.
pub open spec fn release_spec(s: TouchState, on_doc: bool, now: u64) -> TouchAction {
    match s.start {
        None => TouchAction::Nothing,
        Some((sx, sy)) => {
            let held: int = match s.t0 {
                Some(t) => if now >= t {
                    now - t
                } else {
                    0
                },
                None => 0,
            };
            let dx = s.last.0 - sx;
            let dy = s.last.1 - sy;
            if on_doc {
                if abs(dx) >= FLIP_DX && abs(dy) <= FLIP_DY_MAX {
                    TouchAction::Flip(if dx < 0 { 1i32 } else { -1i32 })
                } else {
                    TouchAction::Nothing
                }
            } else if abs(dy) >= FLIP_DX && abs(dx) <= FLIP_DY_MAX {
                TouchAction::Scroll { down: dy < 0 }
            } else if abs(dx) < TAP_SLOP && abs(dy) < TAP_SLOP {
                if held >= HOLD_MS {
                    TouchAction::HomeHold { x: sx, y: sy }
                } else {
                    TouchAction::HomeTap { x: sx, y: sy }
                }
            } else {
                TouchAction::Nothing
            }
        },
    }
}

/// One touch sample: the action, and the gesture state after it.
pub open spec fn route_spec(s: TouchState, c: TouchCtx, phase: Phase, x: i32, y: i32, now: u64) -> (TouchAction, TouchState) {
    if c.pen_recent {
        (TouchAction::Nothing, s)
    } else if c.dialog_open {
        (if phase == Phase::Press { TouchAction::DialogPress { x, y } } else { TouchAction::Nothing }, s)
    } else {
        match phase {
            Phase::Press => if c.bar_shown && y < BAR_H {
                (TouchAction::TopBarPress { x, y }, s)
            } else if y <= EDGE_Y {
                (TouchAction::Nothing, TouchState { swipe_from: Some(y), ..s })
            } else if c.on_doc && hit_spec(x as int, y as int, c.tb_open) is Some {
                (TouchAction::Toolbar(hit_spec(x as int, y as int, c.tb_open).unwrap()), s)
            } else {
                (TouchAction::Nothing, TouchState { start: Some((x, y)), t0: Some(now), last: (x, y), ..s })
            },
            Phase::Move => match s.swipe_from {
                Some(sy) => if y - sy >= SWIPE_DIST {
                    (TouchAction::ShowTopBar, TouchState { swipe_from: None, ..s })
                } else {
                    (TouchAction::Nothing, s)
                },
                None => (TouchAction::Nothing, if s.start is Some { TouchState { last: (x, y), ..s } } else { s }),
            },
            Phase::Release => (
                release_spec(s, c.on_doc, now),
                TouchState { swipe_from: None, start: None, t0: if s.start is Some { None } else { s.t0 }, ..s },
            ),
        }
    }
}

fn abs64(v: i64) -> (r: i64)
    requires
        v > i64::MIN,
    ensures
        r == abs(v as int),
{
    if v < 0 {
        -v
    } else {
        v
    }
}

/// Route one touch sample (`now` in ms); updates the gesture in progress.
pub fn route_touch(s: &mut TouchState, c: TouchCtx, phase: Phase, x: i32, y: i32, now: u64) -> (a: TouchAction)
    ensures
        (a, *final(s)) == route_spec(*old(s), c, phase, x, y, now),
{
    if c.pen_recent {
        return TouchAction::Nothing;
    }
    if c.dialog_open {
        return if phase == Phase::Press { TouchAction::DialogPress { x, y } } else { TouchAction::Nothing };
    }
    match phase {
        Phase::Press => {
            if c.bar_shown && y < BAR_H {
                return TouchAction::TopBarPress { x, y };
            }
            if y <= EDGE_Y {
                s.swipe_from = Some(y);
                return TouchAction::Nothing;
            }
            if c.on_doc {
                if let Some(a) = hit(x, y, c.tb_open) {
                    return TouchAction::Toolbar(a);
                }
            }
            s.start = Some((x, y));
            s.t0 = Some(now);
            s.last = (x, y);
            TouchAction::Nothing
        },
        Phase::Move => {
            if let Some(sy) = s.swipe_from {
                if y as i64 - sy as i64 >= SWIPE_DIST as i64 {
                    s.swipe_from = None;
                    return TouchAction::ShowTopBar;
                }
                return TouchAction::Nothing;
            }
            if s.start.is_some() {
                s.last = (x, y);
            }
            TouchAction::Nothing
        },
        Phase::Release => {
            s.swipe_from = None;
            let st = s.start;
            match st {
                None => TouchAction::Nothing,
                Some((sx, sy)) => {
                    s.start = None;
                    let held: u64 = match s.t0 {
                        Some(t) => if now >= t {
                            now - t
                        } else {
                            0
                        },
                        None => 0,
                    };
                    s.t0 = None;
                    let dx = s.last.0 as i64 - sx as i64;
                    let dy = s.last.1 as i64 - sy as i64;
                    let (adx, ady) = (abs64(dx), abs64(dy));
                    if c.on_doc {
                        if adx >= FLIP_DX as i64 && ady <= FLIP_DY_MAX as i64 {
                            TouchAction::Flip(if dx < 0 { 1 } else { -1 })
                        } else {
                            TouchAction::Nothing
                        }
                    } else if ady >= FLIP_DX as i64 && adx <= FLIP_DY_MAX as i64 {
                        TouchAction::Scroll { down: dy < 0 }
                    } else if adx < TAP_SLOP && ady < TAP_SLOP {
                        if held >= HOLD_MS {
                            TouchAction::HomeHold { x: sx, y: sy }
                        } else {
                            TouchAction::HomeTap { x: sx, y: sy }
                        }
                    } else {
                        TouchAction::Nothing
                    }
                },
            }
        },
    }
}

/// A bar swipe, once started, is never confused with a tap: a release
/// after a swipe from the top edge (with no tap in progress) does nothing.
pub proof fn lemma_edge_press_is_no_tap(s: TouchState, c: TouchCtx, x: i32, y: i32, now: u64, x2: i32, y2: i32, now2: u64)
    requires
        !c.pen_recent,
        !c.dialog_open,
        !(c.bar_shown && y < BAR_H),
        y <= EDGE_Y,
        s.start is None,
    ensures
        ({
            let (a1, s1) = route_spec(s, c, Phase::Press, x, y, now);
            let (a2, s2) = route_spec(s1, c, Phase::Release, x2, y2, now2);
            a1 == TouchAction::Nothing && a2 == TouchAction::Nothing && s2.swipe_from is None
        }),
{
}

/// Pressing and releasing in place on the home grid is a tap at the
/// press, or a hold when the finger stayed down long enough.
pub proof fn lemma_home_tap(s: TouchState, c: TouchCtx, x: i32, y: i32, t0: u64, t1: u64)
    requires
        !c.pen_recent,
        !c.dialog_open,
        !c.on_doc,
        !(c.bar_shown && y < BAR_H),
        y > EDGE_Y,
        t0 <= t1,
    ensures
        ({
            let (a1, s1) = route_spec(s, c, Phase::Press, x, y, t0);
            let (a2, s2) = route_spec(s1, c, Phase::Release, x, y, t1);
            &&& a1 == TouchAction::Nothing
            &&& a2 == if t1 - t0 >= HOLD_MS { TouchAction::HomeHold { x, y } } else { TouchAction::HomeTap { x, y } }
            &&& s2.start is None
        }),
{
}

} // verus!
