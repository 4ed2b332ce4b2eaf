//! Modal dialogs of the reader: the go-to-page numpad and the list
//! dialogs (document menu, confirm delete, move to folder): their
//! geometry and hit-testing, both centred on the panel, and what a press
//! on the numpad does to the typed page number.

use vstd::prelude::*;
use crate::geom::{Rect, SCREEN_W, SCREEN_H, in_rect};
use crate::num::digits_value;
use crate::kb::{Kb, KbAction, KbActionV, press_spec};

verus! {

pub const NP_BTN_W: i32 = 170;

pub const NP_BTN_H: i32 = 110;

pub const NP_GAP: i32 = 12;

pub const DLG_W: i32 = 760;

pub const DLG_ROW_H: i32 = 96;

/// Space for the title above a dialog's first row.
pub const TITLE_PAD: i32 = 84;

/// Width of the numpad panel.
pub open spec fn np_w() -> int {
    3 * NP_BTN_W + 2 * NP_GAP + 56
}

/// Height of the numpad panel.
pub open spec fn np_h() -> int {
    90 + 4 * (NP_BTN_H + NP_GAP) + 28
}

pub open spec fn np_x0() -> int {
    (SCREEN_W - np_w()) / 2
}

pub open spec fn np_y0() -> int {
    (SCREEN_H - np_h()) / 2
}

/// What a numpad key does.
#[derive(Clone, Copy, PartialEq, Eq, Structural, Debug)]
pub enum NpAction {
    Digit(char),
    Del,
    /// GO: jump to the typed page.
    Go,
    /// On the panel but not on a key.
    Swallow,
    /// Off the panel: the dialog closes.
    Outside,
}

/// Key `i` of the 3 x 4 numpad, row by row: 1-9, then DEL, 0, GO.
pub open spec fn np_key(i: int) -> NpAction {
    if 0 <= i < 9 {
        NpAction::Digit((('1' as int) + i) as char)
    } else if i == 9 {
        NpAction::Del
    } else if i == 10 {
        NpAction::Digit('0')
    } else {
        NpAction::Go
    }
}

/// Top-left corner of key `i`.
pub open spec fn np_btn_spec(i: int) -> (int, int) {
    (np_x0() + 28 + (i % 3) * (NP_BTN_W + NP_GAP), np_y0() + 90 + (i / 3) * (NP_BTN_H + NP_GAP))
}

pub open spec fn on_np_btn(i: int, x: int, y: int) -> bool {
    let (bx, by) = np_btn_spec(i);
    bx <= x < bx + NP_BTN_W && by <= y < by + NP_BTN_H
}

/// The first key at or after `i` under (x, y).
pub open spec fn np_key_from(i: int, x: int, y: int) -> Option<NpAction>
    decreases 12 - i,
{
    if i >= 12 || i < 0 {
        None
    } else if on_np_btn(i, x, y) {
        Some(np_key(i))
    } else {
        np_key_from(i + 1, x, y)
    }
}

/// What a press at (x, y) does while the numpad is up.
pub open spec fn np_press_spec(x: int, y: int) -> NpAction {
    if !(np_x0() <= x < np_x0() + np_w() && np_y0() <= y < np_y0() + np_h()) {
        NpAction::Outside
    } else {
        match np_key_from(0, x, y) {
            Some(a) => a,
            None => NpAction::Swallow,
        }
    }
}

/// The numpad panel (corners inclusive).
pub fn np_rect() -> (r: Rect)
    ensures
        r.x0 == np_x0(),
        r.y0 == np_y0(),
        r.x1 == np_x0() + np_w() - 1,
        r.y1 == np_y0() + np_h() - 1,
{
    let w = 3 * NP_BTN_W + 2 * NP_GAP + 56;
    let h = 90 + 4 * (NP_BTN_H + NP_GAP) + 28;
    let x0 = (SCREEN_W - w) / 2;
    let y0 = (SCREEN_H - h) / 2;
    Rect { x0, y0, x1: x0 + w - 1, y1: y0 + h - 1 }
}

/// Top-left corner of key `i`.
pub fn np_btn_xy(i: usize) -> (p: (i32, i32))
    requires
        i < 12,
    ensures
        (p.0 as int, p.1 as int) == np_btn_spec(i as int),
{
    let r = np_rect();
    let col = (i % 3) as i32;
    let row = (i / 3) as i32;
    (r.x0 + 28 + col * (NP_BTN_W + NP_GAP), r.y0 + 90 + row * (NP_BTN_H + NP_GAP))
}

fn np_key_at(i: usize) -> (a: NpAction)
    requires
        i < 12,
    ensures
        a == np_key(i as int),
{
    if i < 9 {
        NpAction::Digit(((i as u8) + ('1' as u8)) as char)
    } else if i == 9 {
        NpAction::Del
    } else if i == 10 {
        NpAction::Digit('0')
    } else {
        NpAction::Go
    }
}

/// What a press at (x, y) does while the numpad is up.
pub fn np_press(x: i32, y: i32) -> (a: NpAction)
    ensures
        a == np_press_spec(x as int, y as int),
{
    let r = np_rect();
    if !in_rect(x, y, r.x0, r.y0, r.w(), r.h()) {
        return NpAction::Outside;
    }
    let mut i: usize = 0;
    while i < 12
        invariant
            i <= 12,
            np_key_from(0, x as int, y as int) == np_key_from(i as int, x as int, y as int),
            np_press_spec(x as int, y as int) == match np_key_from(0, x as int, y as int) {
                Some(a) => a,
                None => NpAction::Swallow,
            },
        decreases 12 - i,
    {
        let (bx, by) = np_btn_xy(i);
        if in_rect(x, y, bx, by, NP_BTN_W, NP_BTN_H) {
            return np_key_at(i);
        }
        i += 1;
    }
    NpAction::Swallow
}

/// Height of a list dialog of `nrows` rows.
pub open spec fn dialog_h(nrows: int) -> int {
    TITLE_PAD + nrows * DLG_ROW_H + 24
}

/// A list dialog of `nrows` rows, centred (corners inclusive).
pub fn dialog_rect(nrows: usize) -> (r: Rect)
    requires
        nrows <= 10_000_000,
    ensures
        r.x0 == (SCREEN_W - DLG_W) / 2,
        r.y0 == trunc_half(SCREEN_H - dialog_h(nrows as int)),
        r.x1 == (SCREEN_W - DLG_W) / 2 + DLG_W - 1,
        r.y1 == trunc_half(SCREEN_H - dialog_h(nrows as int)) + dialog_h(nrows as int) - 1,
{
    let h = TITLE_PAD + (nrows as i32) * DLG_ROW_H + 24;
    let x0 = (SCREEN_W - DLG_W) / 2;
    let y0 = (SCREEN_H - h) / 2;
    Rect { x0, y0, x1: x0 + DLG_W - 1, y1: y0 + h - 1 }
}

/// Halving rounded toward zero.
pub open spec fn trunc_half(v: int) -> int {
    crate::geom::trunc_div(v, 2)
}

/// The row of a list dialog under (x, y); None off the rows (a press off
/// the dialog dismisses it).
pub open spec fn dialog_row_spec(nrows: int, x: int, y: int) -> Option<int> {
    let x0 = (SCREEN_W - DLG_W) / 2;
    let y0 = trunc_half(SCREEN_H - dialog_h(nrows));
    if !(x0 <= x < x0 + DLG_W && y0 <= y < y0 + dialog_h(nrows)) {
        None
    } else {
        let i = crate::geom::trunc_div(y - y0 - TITLE_PAD, DLG_ROW_H as int);
        if 0 <= i < nrows {
            Some(i)
        } else {
            None
        }
    }
}

/// The row of a list dialog under a tap.
pub fn dialog_row_at(nrows: usize, x: i32, y: i32) -> (r: Option<usize>)
    requires
        nrows <= 10_000_000,
    ensures
        match r {
            None => dialog_row_spec(nrows as int, x as int, y as int) is None,
            Some(i) => dialog_row_spec(nrows as int, x as int, y as int) == Some(i as int),
        },
{
    let r = dialog_rect(nrows);
    if !in_rect(x, y, r.x0, r.y0, r.w(), r.h()) {
        return None;
    }
    let i = (y - r.y0 - TITLE_PAD) / DLG_ROW_H;
    if i >= 0 && (i as usize) < nrows {
        Some(i as usize)
    } else {
        None
    }
}

/// What a numpad press does to the go-to dialog.
#[derive(Clone, Copy, PartialEq, Eq, Structural, Debug)]
pub enum GotoStep {
    /// The typed number changed (or a DEL on nothing): redraw the dialog.
    Edited,
    /// A press on the panel that is not a key: nothing changes.
    Keep,
    /// GO with a page number from 1: jump there.
    Jump(u64),
    /// GO without a usable number, or a press off the panel: close.
    Dismiss,
}

/// The typed text is a page number: digits only, at least one.
pub open spec fn all_digits(s: Seq<char>) -> bool {
    s.len() > 0 && forall|i: int| 0 <= i < s.len() ==> '0' <= #[trigger] s[i] <= '9'
}

/// A numpad press on the go-to dialog: digits append (at most four),
/// DEL removes the last, GO jumps to a typed page from 1.
pub open spec fn goto_spec(entry: Seq<char>, a: NpAction) -> (Seq<char>, GotoStep) {
    match a {
        NpAction::Digit(d) => (if entry.len() < 4 { entry.push(d) } else { entry }, GotoStep::Edited),
        NpAction::Del => (if entry.len() > 0 { entry.drop_last() } else { entry }, GotoStep::Edited),
        NpAction::Go => (entry, if all_digits(entry) && digits_value(entry, 10) >= 1 {
            GotoStep::Jump(digits_value(entry, 10) as u64)
        } else {
            GotoStep::Dismiss
        }),
        NpAction::Swallow => (entry, GotoStep::Keep),
        NpAction::Outside => (entry, GotoStep::Dismiss),
    }
}

/// Ten to the `n`.
pub open spec fn p10(n: nat) -> int
    decreases n,
{
    if n == 0 {
        1
    } else {
        10 * p10((n - 1) as nat)
    }
}

/// Apply a numpad press to the typed page number.
pub fn goto_press(entry: &mut Vec<char>, a: NpAction) -> (step: GotoStep)
    requires
        old(entry)@.len() <= 4,
    ensures
        (final(entry)@, step) == goto_spec(old(entry)@, a),
        final(entry)@.len() <= 4,
{
    match a {
        NpAction::Digit(d) => {
            if entry.len() < 4 {
                entry.push(d);
            }
            GotoStep::Edited
        },
        NpAction::Del => {
            if entry.len() > 0 {
                entry.pop();
            }
            GotoStep::Edited
        },
        NpAction::Go => {
            let mut v: u64 = 0;
            let mut i: usize = 0;
            let mut ok = entry.len() > 0;
            while i < entry.len()
                invariant
                    i <= entry@.len() <= 4,
                    ok == (entry@.len() > 0 && forall|j: int| 0 <= j < i ==> '0' <= #[trigger] entry@[j] <= '9'),
                    ok ==> v == digits_value(entry@.take(i as int), 10),
                    ok ==> v < p10(i as nat),
                decreases entry.len() - i,
            {
                let c = entry[i];
                if ok && '0' <= c && c <= '9' {
                    proof {
                        assert(entry@.take(i + 1).drop_last() =~= entry@.take(i as int));
                        assert(p10((i + 1) as nat) == 10 * p10(i as nat));
                        assert(v * 10 + 9 < 10 * p10(i as nat)) by (nonlinear_arith)
                            requires
                                v < p10(i as nat),
                        ;
                        assert(p10(i as nat) <= 1000) by {
                            reveal_with_fuel(p10, 5);
                        }
                    }
                    v = v * 10 + (c as u64 - '0' as u64);
                } else {
                    ok = false;
                }
                i += 1;
            }
            assert(entry@.take(entry@.len() as int) =~= entry@);
            if ok && v >= 1 {
                GotoStep::Jump(v)
            } else {
                GotoStep::Dismiss
            }
        },
        NpAction::Swallow => GotoStep::Keep,
        NpAction::Outside => GotoStep::Dismiss,
    }
}

/// The page a typed number lands on (from 0): clamped into the document.
pub fn goto_target(page1: u64, count: u64) -> (i: u64)
    ensures
        i == crate::geom::min_spec(if page1 >= 1 { page1 - 1 } else { 0 }, if count >= 1 { count - 1 } else { 0 }),
{
    let a = if page1 >= 1 { page1 - 1 } else { 0 };
    let b = if count >= 1 { count - 1 } else { 0 };
    if a <= b {
        a
    } else {
        b
    }
}


/* ---- the reader's dialogs as a state machine ------------------------------- */

/// A dialog that is up. The keyboards' fields and the typed page number
/// are part of the dialog.
pub enum Dialog {
    /// The long-press menu of a document cell.
    DocMenu(usize),
    ConfirmDelete(usize),
    Rename(usize, Kb),
    MoveTo(usize),
    NewFolder(usize, Kb),
    /// The go-to-page numpad (at most four digits typed).
    GoTo(Vec<char>),
    /// The assistant's handwriting face picker.
    FontPick,
}

pub enum DialogV {
    DocMenu(usize),
    ConfirmDelete(usize),
    Rename(usize, Seq<char>),
    MoveTo(usize),
    NewFolder(usize, Seq<char>),
    GoTo(Seq<char>),
    FontPick,
}

impl View for Dialog {
    type V = DialogV;

    open spec fn view(&self) -> DialogV {
        match self {
            Dialog::DocMenu(i) => DialogV::DocMenu(*i),
            Dialog::ConfirmDelete(i) => DialogV::ConfirmDelete(*i),
            Dialog::Rename(i, k) => DialogV::Rename(*i, k.text@),
            Dialog::MoveTo(i) => DialogV::MoveTo(*i),
            Dialog::NewFolder(i, k) => DialogV::NewFolder(*i, k.text@),
            Dialog::GoTo(e) => DialogV::GoTo(e@),
            Dialog::FontPick => DialogV::FontPick,
        }
    }
}

/// What the caller does after a dialog press (the home screen is
/// repainted after every press on a home dialog).
pub enum Effect {
    /// Only repaint.
    Repaint,
    /// Duplicate the document of this cell, then rebuild the home screen.
    Duplicate(usize),
    /// Delete the document of this cell, then rebuild.
    Delete(usize),
    /// Rebuild the home screen.
    Rebuild,
    /// Rename the document of this cell (non-empty name), then rebuild.
    Rename(usize, String),
    /// Move the document of this cell to the n-th folder (None: the
    /// root), then rebuild.
    MoveTo(usize, Option<usize>),
    /// Create this folder and move the document there, then rebuild.
    NewFolder(usize, String),
    /// A press on the go-to numpad, on the document screen.
    GoTo(GotoStep),
    /// A press on the face picker, which handles it.
    FontPick,
}

pub enum EffectV {
    Repaint,
    Duplicate(usize),
    Delete(usize),
    Rebuild,
    Rename(usize, Seq<char>),
    MoveTo(usize, Option<usize>),
    NewFolder(usize, Seq<char>),
    GoTo(GotoStep),
    FontPick,
}

impl View for Effect {
    type V = EffectV;

    open spec fn view(&self) -> EffectV {
        match self {
            Effect::Repaint => EffectV::Repaint,
            Effect::Duplicate(i) => EffectV::Duplicate(*i),
            Effect::Delete(i) => EffectV::Delete(*i),
            Effect::Rebuild => EffectV::Rebuild,
            Effect::Rename(i, s) => EffectV::Rename(*i, s@),
            Effect::MoveTo(i, f) => EffectV::MoveTo(*i, *f),
            Effect::NewFolder(i, s) => EffectV::NewFolder(*i, s@),
            Effect::GoTo(g) => EffectV::GoTo(*g),
            Effect::FontPick => EffectV::FontPick,
        }
    }
}

pub open spec fn opt_dialog(d: Option<Dialog>) -> Option<DialogV> {
    match d {
        Some(d) => Some(d@),
        None => None,
    }
}

/// A press at (x, y) on the dialog `d`: the dialog after it (None: closed)
/// and what to do. `title` is the pressed cell's document title (the
/// rename field starts with it); `nf` is how many folders there are.
pub open spec fn dialog_spec(d: DialogV, x: int, y: int, title: Seq<char>, nf: int) -> (Option<DialogV>, EffectV) {
    match d {
        DialogV::DocMenu(i) => {
            let r = dialog_row_spec(5, x, y);
            if r == Some(0int) {
                (Some(DialogV::Rename(i, title)), EffectV::Repaint)
            } else if r == Some(1int) {
                (Some(DialogV::MoveTo(i)), EffectV::Repaint)
            } else if r == Some(2int) {
                (None, EffectV::Duplicate(i))
            } else if r == Some(3int) {
                (Some(DialogV::ConfirmDelete(i)), EffectV::Repaint)
            } else {
                (None, EffectV::Repaint)
            }
        },
        DialogV::ConfirmDelete(i) => if dialog_row_spec(2, x, y) == Some(0int) {
            (None, EffectV::Delete(i))
        } else {
            (None, EffectV::Rebuild)
        },
        DialogV::Rename(i, t) => {
            let (t2, a) = press_spec(t, x, y);
            match a {
                KbActionV::Accept(s) => (None, if s.len() > 0 { EffectV::Rename(i, s) } else { EffectV::Rebuild }),
                KbActionV::Cancel => (None, EffectV::Repaint),
                KbActionV::Edited => (Some(DialogV::Rename(i, t2)), EffectV::Repaint),
            }
        },
        DialogV::MoveTo(i) => match dialog_row_spec(nf + 3, x, y) {
            Some(r) => if r == 0 {
                (None, EffectV::MoveTo(i, None))
            } else if r <= nf {
                (None, EffectV::MoveTo(i, Some((r - 1) as usize)))
            } else if r == nf + 1 {
                (Some(DialogV::NewFolder(i, Seq::empty())), EffectV::Repaint)
            } else {
                (None, EffectV::Repaint)
            },
            None => (None, EffectV::Repaint),
        },
        DialogV::NewFolder(i, t) => {
            let (t2, a) = press_spec(t, x, y);
            match a {
                KbActionV::Accept(s) => (None, if s.len() > 0 { EffectV::NewFolder(i, s) } else { EffectV::Rebuild }),
                KbActionV::Cancel => (None, EffectV::Repaint),
                KbActionV::Edited => (Some(DialogV::NewFolder(i, t2)), EffectV::Repaint),
            }
        },
        DialogV::GoTo(e) => {
            let (e2, step) = goto_spec(e, np_press_spec(x, y));
            match step {
                GotoStep::Edited => (Some(DialogV::GoTo(e2)), EffectV::GoTo(step)),
                GotoStep::Keep => (Some(DialogV::GoTo(e2)), EffectV::GoTo(step)),
                _ => (None, EffectV::GoTo(step)),
            }
        },
        DialogV::FontPick => (None, EffectV::FontPick),
    }
}

/// The dialog's own invariant: at most four digits typed.
pub open spec fn dialog_ok(d: DialogV) -> bool {
    d matches DialogV::GoTo(e) ==> e.len() <= 4
}

/// A press on the dialog that is up.
pub fn dialog_press(d: Dialog, x: i32, y: i32, title: String, nf: usize) -> (r: (Option<Dialog>, Effect))
    requires
        dialog_ok(d@),
        nf <= 9_999_000,
    ensures
        (opt_dialog(r.0), r.1@) == dialog_spec(d@, x as int, y as int, title@, nf as int),
        r.0 matches Some(d2) ==> dialog_ok(d2@),
{
    match d {
        Dialog::DocMenu(i) => match dialog_row_at(5, x, y) {
            Some(0) => (Some(Dialog::Rename(i, Kb::new("Rename", title))), Effect::Repaint),
            Some(1) => (Some(Dialog::MoveTo(i)), Effect::Repaint),
            Some(2) => (None, Effect::Duplicate(i)),
            Some(3) => (Some(Dialog::ConfirmDelete(i)), Effect::Repaint),
            _ => (None, Effect::Repaint),
        },
        Dialog::ConfirmDelete(i) => {
            let r = dialog_row_at(2, x, y);
            if r == Some(0usize) {
                (None, Effect::Delete(i))
            } else {
                (None, Effect::Rebuild)
            }
        },
        Dialog::Rename(i, kb) => {
            let mut kb = kb;
            match kb.press(x, y) {
                KbAction::Accept(s) => {
                    if crate::strs::chars_of(s.as_str()).len() > 0 {
                        (None, Effect::Rename(i, s))
                    } else {
                        (None, Effect::Rebuild)
                    }
                },
                KbAction::Cancel => (None, Effect::Repaint),
                KbAction::Edited => (Some(Dialog::Rename(i, kb)), Effect::Repaint),
            }
        },
        Dialog::MoveTo(i) => match dialog_row_at(nf + 3, x, y) {
            Some(r) => {
                if r == 0 {
                    (None, Effect::MoveTo(i, None))
                } else if r <= nf {
                    (None, Effect::MoveTo(i, Some(r - 1)))
                } else if r == nf + 1 {
                    (Some(Dialog::NewFolder(i, Kb::new("New folder", String::new()))), Effect::Repaint)
                } else {
                    (None, Effect::Repaint)
                }
            },
            None => (None, Effect::Repaint),
        },
        Dialog::NewFolder(i, kb) => {
            let mut kb = kb;
            match kb.press(x, y) {
                KbAction::Accept(s) => {
                    if crate::strs::chars_of(s.as_str()).len() > 0 {
                        (None, Effect::NewFolder(i, s))
                    } else {
                        (None, Effect::Rebuild)
                    }
                },
                KbAction::Cancel => (None, Effect::Repaint),
                KbAction::Edited => (Some(Dialog::NewFolder(i, kb)), Effect::Repaint),
            }
        },
        Dialog::GoTo(e) => {
            let mut e = e;
            let step = goto_press(&mut e, np_press(x, y));
            match step {
                GotoStep::Edited | GotoStep::Keep => (Some(Dialog::GoTo(e)), Effect::GoTo(step)),
                _ => (None, Effect::GoTo(step)),
            }
        },
        Dialog::FontPick => (None, Effect::FontPick),
    }
}

} // verus!
