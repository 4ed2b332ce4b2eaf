//! The right-edge toolbar: a collapse circle at the top right and, when
//! expanded, a vertical strip of buttons (tools, undo / redo, page
//! navigation, font, home) separated by divider slots. All of its
//! geometry lives here, so painting and hit-testing agree by
//! construction.

use vstd::prelude::*;
use crate::geom::{Rect, SCREEN_W};
use crate::fb::{Framebuffer, BLACK, WHITE, on_screen, pix, in_disc};

verus! {

#[derive(Clone, Copy, PartialEq, Eq, Structural, Debug)]
pub enum Tool {
    Pen,
    Eraser,
    Lasso,
}

#[derive(Clone, Copy, PartialEq, Eq, Structural, Debug)]
pub enum TbAction {
    Toggle,
    Tool(Tool),
    Undo,
    Redo,
    PagePrev,
    PageNext,
    /// The page indicator: opens the numpad.
    GoTo,
    /// Picks the assistant's handwriting face.
    Font,
    Home,
    /// Inside the strip between buttons: the press is eaten.
    Swallow,
}

pub const TB_W: i32 = 104;

pub const TB_X0: i32 = SCREEN_W - TB_W;

pub const TB_BTN_H: i32 = 96;

/// Top of the first button, below the toggle circle.
pub const TB_TOP: i32 = 132;

/// Height of a divider slot.
pub const DIV_H: i32 = 25;

pub const TOGGLE_CX: i32 = SCREEN_W - 60;

pub const TOGGLE_CY: i32 = 60;

pub const TOGGLE_R: i32 = 36;

/// Number of slots in the strip.
pub const N_SLOTS: usize = 14;

/// Slot `i` of the strip, top to bottom (None is a divider).
pub open spec fn slot_spec(i: int) -> Option<TbAction> {
    if i == 0 {
        Some(TbAction::Tool(Tool::Pen))
    } else if i == 1 {
        Some(TbAction::Tool(Tool::Eraser))
    } else if i == 2 {
        Some(TbAction::Tool(Tool::Lasso))
    } else if i == 4 {
        Some(TbAction::Undo)
    } else if i == 5 {
        Some(TbAction::Redo)
    } else if i == 7 {
        Some(TbAction::PagePrev)
    } else if i == 8 {
        Some(TbAction::GoTo)
    } else if i == 9 {
        Some(TbAction::PageNext)
    } else if i == 11 {
        Some(TbAction::Font)
    } else if i == 12 {
        Some(TbAction::Home)
    } else {
        None
    }
}

/// Top of slot `i`: the heights of the slots above it stacked from
/// `TB_TOP`.
pub open spec fn slot_y_spec(i: int) -> int
    decreases i,
{
    if i <= 0 {
        TB_TOP as int
    } else {
        slot_y_spec(i - 1) + if slot_spec(i - 1) is Some {
            TB_BTN_H as int
        } else {
            DIV_H as int
        }
    }
}

/// Bottom of the strip's last slot.
pub open spec fn strip_h_spec() -> int {
    slot_y_spec(N_SLOTS as int)
}

/// The first button at or after slot `i` whose band holds `y`.
pub open spec fn button_from(y: int, i: int) -> Option<TbAction>
    decreases N_SLOTS - i,
{
    if i >= N_SLOTS || i < 0 {
        None
    } else if slot_spec(i) is Some && slot_y_spec(i) <= y < slot_y_spec(i) + TB_BTN_H {
        slot_spec(i)
    } else {
        button_from(y, i + 1)
    }
}

/// Is (x, y) on the toggle circle (with an 8 px margin)?
pub open spec fn on_toggle(x: int, y: int) -> bool {
    (x - TOGGLE_CX) * (x - TOGGLE_CX) + (y - TOGGLE_CY) * (y - TOGGLE_CY) <= (TOGGLE_R + 8) * (
    TOGGLE_R + 8)
}

/// What a press at (x, y) does; None when it is not toolbar territory.
pub open spec fn hit_spec(x: int, y: int, open: bool) -> Option<TbAction> {
    if on_toggle(x, y) {
        Some(TbAction::Toggle)
    } else if !open || x < TB_X0 || y > strip_h_spec() {
        None
    } else {
        match button_from(y, 0) {
            Some(a) => Some(a),
            None => Some(TbAction::Swallow),
        }
    }
}

fn slot(i: usize) -> (s: Option<TbAction>)
    ensures
        s == slot_spec(i as int),
{
    if i == 0 {
        Some(TbAction::Tool(Tool::Pen))
    } else if i == 1 {
        Some(TbAction::Tool(Tool::Eraser))
    } else if i == 2 {
        Some(TbAction::Tool(Tool::Lasso))
    } else if i == 4 {
        Some(TbAction::Undo)
    } else if i == 5 {
        Some(TbAction::Redo)
    } else if i == 7 {
        Some(TbAction::PagePrev)
    } else if i == 8 {
        Some(TbAction::GoTo)
    } else if i == 9 {
        Some(TbAction::PageNext)
    } else if i == 11 {
        Some(TbAction::Font)
    } else if i == 12 {
        Some(TbAction::Home)
    } else {
        None
    }
}

proof fn lemma_slot_y_bounds(i: int)
    requires
        0 <= i <= N_SLOTS,
    ensures
        TB_TOP <= slot_y_spec(i) <= TB_TOP + i * TB_BTN_H,
    decreases i,
{
    if i > 0 {
        lemma_slot_y_bounds(i - 1);
    }
}

/// Top of slot `i`.
fn slot_y(i: usize) -> (y: i32)
    requires
        i <= N_SLOTS,
    ensures
        y == slot_y_spec(i as int),
{
    let mut y = TB_TOP;
    let mut k: usize = 0;
    while k < i
        invariant
            k <= i <= N_SLOTS,
            y == slot_y_spec(k as int),
        decreases i - k,
    {
        proof {
            lemma_slot_y_bounds(k + 1);
        }
        y = y + if slot(k).is_some() {
            TB_BTN_H
        } else {
            DIV_H
        };
        k += 1;
    }
    y
}

/// Height of the expanded strip.
fn strip_h() -> (h: i32)
    ensures
        h == strip_h_spec(),
{
    slot_y(N_SLOTS)
}

/// The chrome rectangle (for swallowing input and restoring what lies
/// under it).
pub fn tb_rect(open: bool) -> (r: Rect)
    ensures
        open ==> r.x0 == TB_X0 && r.y0 == 0 && r.x1 == SCREEN_W - 1 && r.y1 == strip_h_spec()
            + 16,
        !open ==> r.x0 == TOGGLE_CX - TOGGLE_R - 4 && r.y0 == TOGGLE_CY - TOGGLE_R - 4 && r.x1
            == SCREEN_W - 1 && r.y1 == TOGGLE_CY + TOGGLE_R + 4,
{
    if open {
        let h = strip_h();
        proof {
            lemma_slot_y_bounds(N_SLOTS as int);
        }
        Rect { x0: TB_X0, y0: 0, x1: SCREEN_W - 1, y1: h + 16 }
    } else {
        Rect {
            x0: TOGGLE_CX - TOGGLE_R - 4,
            y0: TOGGLE_CY - TOGGLE_R - 4,
            x1: SCREEN_W - 1,
            y1: TOGGLE_CY + TOGGLE_R + 4,
        }
    }
}

/// What a press at (x, y) does. None = not toolbar territory.
pub fn hit(x: i32, y: i32, open: bool) -> (a: Option<TbAction>)
    ensures
        a == hit_spec(x as int, y as int, open),
{
    let dx = x as i64 - TOGGLE_CX as i64;
    let dy = y as i64 - TOGGLE_CY as i64;
    if -44 <= dx && dx <= 44 && -44 <= dy && dy <= 44 {
        assert(0 <= dx * dx <= 44 * 44 && 0 <= dy * dy <= 44 * 44) by (nonlinear_arith)
            requires
                -44 <= dx <= 44,
                -44 <= dy <= 44,
        ;
        if dx * dx + dy * dy <= 44 * 44 {
            return Some(TbAction::Toggle);
        }
    } else {
        assert(!on_toggle(x as int, y as int)) by (nonlinear_arith)
            requires
                dx == x - TOGGLE_CX,
                dy == y - TOGGLE_CY,
                dx < -44 || dx > 44 || dy < -44 || dy > 44,
        ;
    }
    assert(!on_toggle(x as int, y as int));
    if !open || x < TB_X0 || y > strip_h() {
        return None;
    }
    let mut i: usize = 0;
    assert(hit_spec(x as int, y as int, open) == match button_from(y as int, 0) {
        Some(a) => Some(a),
        None => Some(TbAction::Swallow),
    });
    while i < N_SLOTS
        invariant
            i <= N_SLOTS,
            button_from(y as int, 0) == button_from(y as int, i as int),
            hit_spec(x as int, y as int, open) == match button_from(y as int, 0) {
                Some(a) => Some(a),
                None => Some(TbAction::Swallow),
            },
        decreases N_SLOTS - i,
    {
        let s = slot(i);
        if s.is_some() {
            let sy = slot_y(i);
            proof {
                lemma_slot_y_bounds(i as int);
            }
            if y >= sy && y < sy + TB_BTN_H {
                return s;
            }
        }
        i += 1;
    }
    Some(TbAction::Swallow)
}

/// The toggle button: a white disc in a black ring 3 px wide.
pub fn ring(fb: &mut Framebuffer, cx: i32, cy: i32, r: i32)
    requires
        old(fb).wf(),
        3 <= r < 32768,
        i32::MIN <= cx - r && cx + r <= i32::MAX && i32::MIN <= cy - r && cy + r <= i32::MAX,
    ensures
        final(fb).wf(),
        final(fb).clip0() == old(fb).clip0(),
        final(fb).clip1() == old(fb).clip1(),
        forall|cc: int, rr: int|
            on_screen(cc, rr) ==> #[trigger] pix(final(fb).view_px(), cc, rr) == if old(fb).visible(
                cc,
                rr,
            ) && in_disc(cc, rr, cx as int, cy as int, r - 3) {
                WHITE
            } else if old(fb).visible(cc, rr) && in_disc(cc, rr, cx as int, cy as int, r as int) {
                BLACK
            } else {
                pix(old(fb).view_px(), cc, rr)
            },
{
    fb.disc(cx, cy, r, BLACK);
    fb.disc(cx, cy, r - 3, WHITE);
}

} // verus!
