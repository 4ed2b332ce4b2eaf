//! The notebook's sidebar: where a press lands (the list of rows, the
//! close bar at the bottom, or outside the panel), the number pad that
//! replaces the list for "go to page", and what its keys do to the typed
//! page number.

use vstd::prelude::*;
use crate::geom::{SCREEN_H, in_rect, trunc_div};
use crate::num::digits_value;
use crate::dialog::{all_digits, p10};
use crate::fb::{BLACK, GRAY, LIGHT, WHITE};
use crate::num::{decimal, digits};
use crate::strs::{chars_of, string_of};

verus! {

pub const SB_W: i32 = 380;

pub const SB_ROW_H: i32 = 68;

pub const SB_LIST_Y0: i32 = 130;

pub const SB_CLOSE_H: i32 = 64;

pub const SB_CLOSE_MARGIN: i32 = 24;

/// Top of the number pad's key grid (its display box sits above).
pub const PAD_Y0: i32 = 214;

pub const PAD_BTN_W: i32 = 104;

pub const PAD_BTN_H: i32 = 84;

pub const PAD_GAP: i32 = 10;

pub const PAD_X0: i32 = 24;

/// The rows of the sidebar, top to bottom.
#[derive(Clone, Copy, PartialEq, Eq, Structural, Debug)]
pub enum SbRow {
    First,
    Last,
    /// Where the last writing happened.
    Active,
    /// Opens the number pad.
    GoTo,
    Agent,
    Library,
    /// Stream strokes to the web viewer.
    Live,
    /// Pauses send nothing to the assistant.
    Quiet,
    /// Cycles the assistant's handwriting face.
    PiFont,
    /// Smaller / 100% / bigger text, by the third of the row pressed.
    FontSize,
    Refresh,
}

/// The rows in order.
pub open spec fn row_at(i: int) -> Option<SbRow> {
    if i == 0 {
        Some(SbRow::First)
    } else if i == 1 {
        Some(SbRow::Last)
    } else if i == 2 {
        Some(SbRow::Active)
    } else if i == 3 {
        Some(SbRow::GoTo)
    } else if i == 4 {
        Some(SbRow::Agent)
    } else if i == 5 {
        Some(SbRow::Library)
    } else if i == 6 {
        Some(SbRow::Live)
    } else if i == 7 {
        Some(SbRow::Quiet)
    } else if i == 8 {
        Some(SbRow::PiFont)
    } else if i == 9 {
        Some(SbRow::FontSize)
    } else if i == 10 {
        Some(SbRow::Refresh)
    } else {
        None
    }
}

fn row_of(i: i32) -> (r: Option<SbRow>)
    ensures
        r == row_at(i as int),
{
    if i == 0 {
        Some(SbRow::First)
    } else if i == 1 {
        Some(SbRow::Last)
    } else if i == 2 {
        Some(SbRow::Active)
    } else if i == 3 {
        Some(SbRow::GoTo)
    } else if i == 4 {
        Some(SbRow::Agent)
    } else if i == 5 {
        Some(SbRow::Library)
    } else if i == 6 {
        Some(SbRow::Live)
    } else if i == 7 {
        Some(SbRow::Quiet)
    } else if i == 8 {
        Some(SbRow::PiFont)
    } else if i == 9 {
        Some(SbRow::FontSize)
    } else if i == 10 {
        Some(SbRow::Refresh)
    } else {
        None
    }
}

/// Where a press on the sidebar lands.
#[derive(Clone, Copy, PartialEq, Eq, Structural, Debug)]
pub enum SbPress {
    /// Right of the panel: the sidebar closes.
    Hide,
    /// The number pad is up: the press is the pad's.
    Pad,
    /// The close bar: the app quits.
    Close,
    Row(SbRow),
    /// Header or dead space: the panel stays up.
    Nothing,
}

/// What a press at (x, y) means (rows are found by division toward zero,
/// so a press just above the first row counts as the first row).
pub open spec fn sb_press_spec(x: int, y: int, pad_up: bool) -> SbPress {
    let cy = SCREEN_H - SB_CLOSE_H - SB_CLOSE_MARGIN;
    if x >= SB_W {
        SbPress::Hide
    } else if pad_up {
        SbPress::Pad
    } else if SB_CLOSE_MARGIN <= x < SB_CLOSE_MARGIN + (SB_W - 2 * SB_CLOSE_MARGIN) && cy <= y < cy + SB_CLOSE_H {
        SbPress::Close
    } else {
        let idx = trunc_div(y - SB_LIST_Y0, SB_ROW_H as int);
        match if idx >= 0 { row_at(idx) } else { None } {
            Some(r) => SbPress::Row(r),
            None => SbPress::Nothing,
        }
    }
}

pub fn sb_press(x: i32, y: i32, pad_up: bool) -> (p: SbPress)
    ensures
        p == sb_press_spec(x as int, y as int, pad_up),
{
    if x >= SB_W {
        return SbPress::Hide;
    }
    if pad_up {
        return SbPress::Pad;
    }
    let cy = SCREEN_H - SB_CLOSE_H - SB_CLOSE_MARGIN;
    if in_rect(x, y, SB_CLOSE_MARGIN, cy, SB_W - 2 * SB_CLOSE_MARGIN, SB_CLOSE_H) {
        return SbPress::Close;
    }
    let d = y as i64 - SB_LIST_Y0 as i64;
    let idx = d / SB_ROW_H as i64;
    assert(idx == trunc_div(d as int, SB_ROW_H as int));
    if idx < 0 || idx > 10 {
        return SbPress::Nothing;
    }
    match row_of(idx as i32) {
        Some(r) => SbPress::Row(r),
        None => SbPress::Nothing,
    }
}

/// The font-size row: left third smaller, right third bigger, middle
/// back to 100%.
#[derive(Clone, Copy, PartialEq, Eq, Structural, Debug)]
pub enum SizeStep {
    Smaller,
    Reset,
    Bigger,
}

pub fn size_step(x: i32) -> (s: SizeStep)
    ensures
        s == if x < SB_W / 3 {
            SizeStep::Smaller
        } else if x > 2 * SB_W / 3 {
            SizeStep::Bigger
        } else {
            SizeStep::Reset
        },
{
    if x < SB_W / 3 {
        SizeStep::Smaller
    } else if x > 2 * SB_W / 3 {
        SizeStep::Bigger
    } else {
        SizeStep::Reset
    }
}

/// A key of the number pad.
#[derive(Clone, Copy, PartialEq, Eq, Structural, Debug)]
pub enum PadKey {
    /// The CANCEL bar under the grid.
    Cancel,
    Digit(char),
    /// "<": delete the last digit.
    Back,
    /// OK: go to the typed page.
    Go,
    /// A gap or off the grid.
    Nothing,
}

/// The key at grid cell (column, row).
pub open spec fn pad_cell(col: int, row: int) -> PadKey {
    let k = row * 3 + col;
    if k == 9 {
        PadKey::Back
    } else if k == 10 {
        PadKey::Digit('0')
    } else if k == 11 {
        PadKey::Go
    } else {
        PadKey::Digit((('1' as u32) + k) as char)
    }
}

/// What a press at (x, y) on the pad hits.
pub open spec fn pad_key_spec(x: int, y: int) -> PadKey {
    let cy = PAD_Y0 + 4 * (PAD_BTN_H + PAD_GAP);
    let col = trunc_div(x - PAD_X0, PAD_BTN_W + PAD_GAP);
    let row = trunc_div(y - PAD_Y0, PAD_BTN_H + PAD_GAP);
    if PAD_X0 <= x < PAD_X0 + (SB_W - 2 * PAD_X0) && cy <= y < cy + 64 {
        PadKey::Cancel
    } else if !(0 <= col < 3 && 0 <= row < 4) {
        PadKey::Nothing
    } else if !(PAD_X0 + col * (PAD_BTN_W + PAD_GAP) <= x < PAD_X0 + col * (PAD_BTN_W + PAD_GAP) + PAD_BTN_W
        && PAD_Y0 + row * (PAD_BTN_H + PAD_GAP) <= y < PAD_Y0 + row * (PAD_BTN_H + PAD_GAP) + PAD_BTN_H) {
        PadKey::Nothing
    } else {
        pad_cell(col, row)
    }
}

pub fn pad_key(x: i32, y: i32) -> (k: PadKey)
    ensures
        k == pad_key_spec(x as int, y as int),
{
    let cy = PAD_Y0 + 4 * (PAD_BTN_H + PAD_GAP);
    if in_rect(x, y, PAD_X0, cy, SB_W - 2 * PAD_X0, 64) {
        return PadKey::Cancel;
    }
    let col = (x as i64 - PAD_X0 as i64) / (PAD_BTN_W + PAD_GAP) as i64;
    let row = (y as i64 - PAD_Y0 as i64) / (PAD_BTN_H + PAD_GAP) as i64;
    if !(0 <= col && col < 3 && 0 <= row && row < 4) {
        return PadKey::Nothing;
    }
    let (c, r) = (col as i32, row as i32);
    if !in_rect(x, y, PAD_X0 + c * (PAD_BTN_W + PAD_GAP), PAD_Y0 + r * (PAD_BTN_H + PAD_GAP), PAD_BTN_W, PAD_BTN_H) {
        return PadKey::Nothing;
    }
    let k = r * 3 + c;
    if k == 9 {
        PadKey::Back
    } else if k == 10 {
        PadKey::Digit('0')
    } else if k == 11 {
        PadKey::Go
    } else {
        let d = ('1' as u32 + k as u32) as u8 as char;
        assert(d == (('1' as u32) + k) as char);
        PadKey::Digit(d)
    }
}

/// What a pad key does.
#[derive(Clone, Copy, PartialEq, Eq, Structural, Debug)]
pub enum PadStep {
    /// The pad closes (the typed number is cleared).
    Closed,
    /// The typed number changed: redraw.
    Edited,
    /// Go to this page (from 0).
    Jump(u64),
    /// Nothing happens.
    Stay,
}

/// A pad key applied to the typed page number: digits append (at most
/// four), "<" removes the last, OK goes to a typed page from 1 (and stays
/// otherwise), CANCEL clears and closes.
pub open spec fn pad_step_spec(entry: Seq<char>, k: PadKey) -> (Seq<char>, PadStep) {
    match k {
        PadKey::Cancel => (Seq::empty(), PadStep::Closed),
        PadKey::Digit(d) => (if entry.len() < 4 { entry.push(d) } else { entry }, PadStep::Edited),
        PadKey::Back => (if entry.len() > 0 { entry.drop_last() } else { entry }, PadStep::Edited),
        PadKey::Go => (entry, if all_digits(entry) && digits_value(entry, 10) >= 1 {
            PadStep::Jump((digits_value(entry, 10) - 1) as u64)
        } else {
            PadStep::Stay
        }),
        PadKey::Nothing => (entry, PadStep::Stay),
    }
}

pub fn pad_step(entry: &mut Vec<char>, k: PadKey) -> (step: PadStep)
    requires
        old(entry)@.len() <= 4,
    ensures
        (final(entry)@, step) == pad_step_spec(old(entry)@, k),
        final(entry)@.len() <= 4,
{
    match k {
        PadKey::Cancel => {
            entry.clear();
            PadStep::Closed
        },
        PadKey::Digit(d) => {
            if entry.len() < 4 {
                entry.push(d);
            }
            PadStep::Edited
        },
        PadKey::Back => {
            if entry.len() > 0 {
                entry.pop();
            }
            PadStep::Edited
        },
        PadKey::Go => {
            let mut v: u64 = 0;
            let mut i: usize = 0;
            let mut ok = entry.len() > 0;
            while i < entry.len()
                invariant
                    i <= entry@.len() <= 4,
                    ok == (entry@.len() > 0 && forall|j: int| 0 <= j < i ==> '0' <= #[trigger] entry@[j] <= '9'),
                    ok ==> v == digits_value(entry@.take(i as int), 10),
                    ok ==> v < p10(i as nat),
                decreases entry.len() - i,
            {
                let c = entry[i];
                if ok && '0' <= c && c <= '9' {
                    proof {
                        assert(entry@.take(i + 1).drop_last() =~= entry@.take(i as int));
                        assert(p10((i + 1) as nat) == 10 * p10(i as nat));
                        assert(v * 10 + 9 < 10 * p10(i as nat)) by (nonlinear_arith)
                            requires
                                v < p10(i as nat),
                        ;
                        assert(p10(i as nat) <= 1000) by {
                            reveal_with_fuel(p10, 5);
                        }
                    }
                    v = v * 10 + (c as u64 - '0' as u64);
                } else {
                    ok = false;
                }
                i += 1;
            }
            assert(entry@.take(entry@.len() as int) =~= entry@);
            if ok && v >= 1 {
                PadStep::Jump(v - 1)
            } else {
                PadStep::Stay
            }
        },
        PadKey::Nothing => PadStep::Stay,
    }
}


/* ---- what a row does ------------------------------------------------------ */

/// The assistant's text scale, in tenths: 0.6 to 1.8, steps of 0.1.
pub const SCALE_MIN_T: i32 = 6;

pub const SCALE_MAX_T: i32 = 18;

/// What a press on the sidebar makes the notebook do.
#[derive(Clone, Copy, PartialEq, Eq, Structural, Debug)]
pub enum SbAction {
    /// Close the panel (and repaint what it covered).
    Hide,
    /// The press belongs to the number pad.
    Pad,
    /// Quit the app.
    Quit,
    /// Keep the panel up, do nothing.
    Stay,
    /// Go to page (from 0).
    Jump(usize),
    /// Show the number pad, with nothing typed.
    OpenPad,
    /// Close the panel and open the instructions page (true), or show the
    /// one already open (false).
    Agent(bool),
    /// Close the panel and open the library.
    Library,
    /// Toggle the live stream; the panel stays up.
    ToggleLive,
    /// Switch the assistant's face to this one of the faces in order.
    Face(usize),
    /// Set quiet mode as given; re-arm the pause check when true.
    Quiet(bool, bool),
    /// Set the assistant's text scale, in tenths.
    Scale(i32),
    /// Close the panel and fully refresh the screen.
    Refresh,
}

/// The scale after a press on the font-size row.
pub open spec fn scale_after(step: SizeStep, cur_t: int) -> int {
    let v = match step {
        SizeStep::Smaller => cur_t - 1,
        SizeStep::Bigger => cur_t + 1,
        SizeStep::Reset => 10,
    };
    if v < SCALE_MIN_T {
        SCALE_MIN_T as int
    } else if v > SCALE_MAX_T {
        SCALE_MAX_T as int
    } else {
        v
    }
}

/// What a press does: `count` pages with `active` the last written,
/// the instructions page open or not, quiet mode, whether the page
/// changed since the last send, the current face among `faces`, and the
/// text scale in tenths.
pub open spec fn sb_action_spec(p: SbPress, x: int, count: int, active: int, agent_open: bool, quiet: bool, changed: bool, face: int, faces: int, scale_t: int) -> SbAction {
    match p {
        SbPress::Hide => SbAction::Hide,
        SbPress::Pad => SbAction::Pad,
        SbPress::Close => SbAction::Quit,
        SbPress::Nothing => SbAction::Stay,
        SbPress::Row(r) => match r {
            SbRow::First => SbAction::Jump(0),
            SbRow::Last => SbAction::Jump((count - 1) as usize),
            SbRow::Active => SbAction::Jump(active as usize),
            SbRow::GoTo => SbAction::OpenPad,
            SbRow::Agent => SbAction::Agent(!agent_open),
            SbRow::Library => SbAction::Library,
            SbRow::Live => SbAction::ToggleLive,
            SbRow::PiFont => SbAction::Face(((face + 1) % faces) as usize),
            SbRow::Quiet => SbAction::Quiet(!quiet, quiet && changed),
            SbRow::FontSize => SbAction::Scale(scale_after(
                if x < SB_W / 3 {
                    SizeStep::Smaller
                } else if x > 2 * SB_W / 3 {
                    SizeStep::Bigger
                } else {
                    SizeStep::Reset
                },
                scale_t,
            ) as i32),
            SbRow::Refresh => SbAction::Refresh,
        },
    }
}

pub fn sb_action(p: SbPress, x: i32, count: usize, active: usize, agent_open: bool, quiet: bool, changed: bool, face: usize, faces: usize, scale_t: i32) -> (a: SbAction)
    requires
        count >= 1,
        face < faces,
        SCALE_MIN_T <= scale_t <= SCALE_MAX_T,
    ensures
        a == sb_action_spec(p, x as int, count as int, active as int, agent_open, quiet, changed, face as int, faces as int, scale_t as int),
{
    match p {
        SbPress::Hide => SbAction::Hide,
        SbPress::Pad => SbAction::Pad,
        SbPress::Close => SbAction::Quit,
        SbPress::Nothing => SbAction::Stay,
        SbPress::Row(r) => match r {
            SbRow::First => SbAction::Jump(0),
            SbRow::Last => SbAction::Jump(count - 1),
            SbRow::Active => SbAction::Jump(active),
            SbRow::GoTo => SbAction::OpenPad,
            SbRow::Agent => SbAction::Agent(!agent_open),
            SbRow::Library => SbAction::Library,
            SbRow::Live => SbAction::ToggleLive,
            SbRow::PiFont => SbAction::Face((face + 1) % faces),
            SbRow::Quiet => SbAction::Quiet(!quiet, quiet && changed),
            SbRow::FontSize => {
                let v = match size_step(x) {
                    SizeStep::Smaller => scale_t - 1,
                    SizeStep::Bigger => scale_t + 1,
                    SizeStep::Reset => 10,
                };
                SbAction::Scale(if v < SCALE_MIN_T {
                    SCALE_MIN_T
                } else if v > SCALE_MAX_T {
                    SCALE_MAX_T
                } else {
                    v
                })
            },
            SbRow::Refresh => SbAction::Refresh,
        },
    }
}


/* ---- painting the panel ----------------------------------------------------- */

/// One drawing step on the framebuffer.
#[derive(Debug)]
pub enum DrawOp {
    /// fill_rect(x, y, w, h, colour)
    Fill(i32, i32, i32, i32, u16),
    /// rect_outline(x, y, w, h, thickness, colour)
    Outline(i32, i32, i32, i32, i32, u16),
    /// text(x, y, text, scale, colour)
    Text(i32, i32, String, i32, u16),
}

pub enum DrawOpV {
    Fill(i32, i32, i32, i32, u16),
    Outline(i32, i32, i32, i32, i32, u16),
    Text(i32, i32, Seq<char>, i32, u16),
}

impl View for DrawOp {
    type V = DrawOpV;

    open spec fn view(&self) -> DrawOpV {
        match self {
            DrawOp::Fill(x, y, w, h, c) => DrawOpV::Fill(*x, *y, *w, *h, *c),
            DrawOp::Outline(x, y, w, h, t, c) => DrawOpV::Outline(*x, *y, *w, *h, *t, *c),
            DrawOp::Text(x, y, t, k, c) => DrawOpV::Text(*x, *y, t@, *k, *c),
        }
    }
}

pub open spec fn ops_view(v: Seq<DrawOp>) -> Seq<DrawOpV> {
    Seq::new(v.len(), |i: int| v[i]@)
}

/// What the panel shows: the page (from 0) of `count`, the last page
/// written, which views are open, the toggles, how many library entries,
/// the assistant's face name (as shown) and text scale in percent.
pub struct SbState {
    pub current: usize,
    pub count: usize,
    pub active: usize,
    pub agent_open: bool,
    pub library_open: bool,
    pub library_len: usize,
    pub live: bool,
    pub quiet: bool,
    pub face_name: String,
    pub scale_pct: u32,
}

/// A number right-aligned in three places.
pub open spec fn pad3(d: Seq<char>) -> Seq<char> {
    if d.len() >= 3 {
        d
    } else if d.len() == 2 {
        seq![' '] + d
    } else {
        seq![' ', ' '] + d
    }
}

/// A row's label and whether it is highlighted as the current view.
pub open spec fn row_label(r: SbRow, st: SbState) -> (Seq<char>, bool) {
    let on_page = |p: int| st.current == p && !st.agent_open;
    match r {
        SbRow::First => ("FIRST PAGE"@, on_page(0)),
        SbRow::Last => ("LAST PAGE ("@ + digits(st.count as nat, 10) + ")"@, on_page(st.count - 1)),
        SbRow::Active => ("ACTIVE PAGE ("@ + digits((st.active + 1) as nat, 10) + ")"@, false),
        SbRow::GoTo => ("GO TO PAGE..."@, false),
        SbRow::Agent => ("INSTRUCTIONS"@, st.agent_open),
        SbRow::Library => ("LIBRARY ("@ + digits(st.library_len as nat, 10) + ")"@, st.library_open),
        SbRow::Live => ("LIVE STREAM: "@ + if st.live { "ON"@ } else { "OFF"@ }, st.live),
        SbRow::Quiet => ("PI: "@ + if st.quiet { "QUIET"@ } else { "AUTO"@ }, st.quiet),
        SbRow::PiFont => ("PI FONT: "@ + st.face_name@, false),
        SbRow::FontSize => ("-   PI TEXT "@ + pad3(digits(st.scale_pct as nat, 10)) + "%   +"@, false),
        SbRow::Refresh => ("REFRESH SCREEN"@, false),
    }
}

/// The steps that paint row `i`.
pub open spec fn row_ops(i: int, r: SbRow, st: SbState) -> Seq<DrawOpV> {
    let y = (SB_LIST_Y0 + i * SB_ROW_H) as i32;
    let (label, cur) = row_label(r, st);
    let sep = if r == SbRow::Agent {
        seq![DrawOpV::Fill(24, (y - 8) as i32, 332, 2, LIGHT)]
    } else {
        Seq::empty()
    };
    let body = if cur {
        seq![DrawOpV::Fill(12, y, 353, 60, BLACK), DrawOpV::Text(36, (y + 19) as i32, label, 3, WHITE)]
    } else {
        seq![DrawOpV::Text(36, (y + 19) as i32, label, 3, BLACK)]
    };
    sep + body
}

/// The rows' steps, for the first `n` rows.
pub open spec fn rows_ops(st: SbState, n: int) -> Seq<DrawOpV>
    decreases n,
{
    if n <= 0 {
        Seq::empty()
    } else {
        rows_ops(st, n - 1) + row_ops(n - 1, row_at(n - 1)->0, st)
    }
}

pub open spec fn key_label(k: int) -> Seq<char> {
    if k == 9 {
        "<"@
    } else if k == 10 {
        "0"@
    } else if k == 11 {
        "OK"@
    } else {
        seq![(('1' as u32) + k) as char]
    }
}

/// The number pad's key `k`: its outline and its label, centred.
pub open spec fn key_ops(k: int) -> Seq<DrawOpV> {
    let (col, row) = (k % 3, k / 3);
    let (x, y) = (PAD_X0 + col * (PAD_BTN_W + PAD_GAP), PAD_Y0 + row * (PAD_BTN_H + PAD_GAP));
    let tw = key_label(k).len() * 6 * 4;
    seq![
        DrawOpV::Outline(x as i32, y as i32, PAD_BTN_W, PAD_BTN_H, 2, BLACK),
        DrawOpV::Text((x + trunc_div(PAD_BTN_W - tw, 2)) as i32, (y + 28) as i32, key_label(k), 4, BLACK),
    ]
}

pub open spec fn keys_ops(n: int) -> Seq<DrawOpV>
    decreases n,
{
    if n <= 0 {
        Seq::empty()
    } else {
        keys_ops(n - 1) + key_ops(n - 1)
    }
}

/// The panel's painting: white with a black right edge, the title and
/// page line, then either the number pad (with what is typed) or the
/// rows and the close bar.
pub open spec fn panel_ops(st: SbState, pad: Option<Seq<char>>) -> Seq<DrawOpV> {
    let head = seq![
        DrawOpV::Fill(0, 0, SB_W, SCREEN_H, WHITE),
        DrawOpV::Fill(377, 0, 3, SCREEN_H, BLACK),
        DrawOpV::Text(28, 24, "NOTEBOOK"@, 4, BLACK),
        DrawOpV::Text(28, 62, "page "@ + digits((st.current + 1) as nat, 10) + " of "@ + digits(st.count as nat, 10), 2, GRAY),
        DrawOpV::Fill(0, 92, 377, 2, BLACK),
    ];
    match pad {
        Some(entry) => head + seq![
            DrawOpV::Outline(PAD_X0, SB_LIST_Y0, 332, 64, 3, BLACK),
            DrawOpV::Text(38, 152, "GO TO: "@ + entry + "_"@, 3, BLACK),
        ] + keys_ops(12) + seq![
            DrawOpV::Outline(PAD_X0, 590, 332, 64, 2, BLACK),
            DrawOpV::Text(136, 612, "CANCEL"@, 3, BLACK),
        ],
        None => head + rows_ops(st, 11) + seq![
            DrawOpV::Fill(SB_CLOSE_MARGIN, 1784, 332, SB_CLOSE_H, BLACK),
            DrawOpV::Text(127, 1805, "X CLOSE"@, 3, WHITE),
        ],
    }
}

fn txt(v: &Vec<char>) -> (s: String)
    ensures
        s@ == v@,
{
    let s = string_of(v.as_slice(), 0, v.len());
    assert(s@ =~= v@);
    s
}

fn lit(s: &str) -> (r: String)
    ensures
        r@ == s@,
{
    txt(&chars_of(s))
}

fn joined(parts: &[&str], nums: &Vec<char>, tail: &str) -> (r: String)
    requires
        parts@.len() == 1,
    ensures
        r@ == parts@[0]@ + nums@ + tail@,
{
    let mut v = chars_of(parts[0]);
    v.extend_from_slice(nums.as_slice());
    let t = chars_of(tail);
    v.extend_from_slice(t.as_slice());
    txt(&v)
}

fn cat2(a: &str, b: &Vec<char>) -> (r: String)
    ensures
        r@ == a@ + b@,
{
    let mut v = chars_of(a);
    v.extend_from_slice(b.as_slice());
    txt(&v)
}

fn push_op(out: &mut Vec<DrawOp>, op: DrawOp)
    ensures
        ops_view(final(out)@) == ops_view(old(out)@).push(op@),
{
    let ghost v = op@;
    out.push(op);
    assert(ops_view(out@) =~= ops_view(old(out)@).push(v));
}

fn row_label_exec(r: SbRow, st: &SbState) -> (l: (String, bool))
    requires
        st.count >= 1,
        st.active < usize::MAX,
        st.current < usize::MAX,
    ensures
        (l.0@, l.1) == row_label(r, *st),
{
    let on_page = |p: usize| -> (b: bool)
        ensures
            b == (st.current == p && !st.agent_open),
        { st.current == p && !st.agent_open };
    match r {
        SbRow::First => (lit("FIRST PAGE"), on_page(0)),
        SbRow::Last => (joined(&["LAST PAGE ("], &decimal(st.count as u64), ")"), on_page(st.count - 1)),
        SbRow::Active => (joined(&["ACTIVE PAGE ("], &decimal(st.active as u64 + 1), ")"), false),
        SbRow::GoTo => (lit("GO TO PAGE..."), false),
        SbRow::Agent => (lit("INSTRUCTIONS"), st.agent_open),
        SbRow::Library => (joined(&["LIBRARY ("], &decimal(st.library_len as u64), ")"), st.library_open),
        SbRow::Live => (cat2("LIVE STREAM: ", &chars_of(if st.live { "ON" } else { "OFF" })), st.live),
        SbRow::Quiet => (cat2("PI: ", &chars_of(if st.quiet { "QUIET" } else { "AUTO" })), st.quiet),
        SbRow::PiFont => (cat2("PI FONT: ", &chars_of(st.face_name.as_str())), false),
        SbRow::FontSize => {
            let d = decimal(st.scale_pct as u64);
            let mut p: Vec<char> = Vec::new();
            if d.len() < 3 {
                p.push(' ');
            }
            if d.len() < 2 {
                p.push(' ');
            }
            p.extend_from_slice(d.as_slice());
            assert(p@ =~= pad3(d@));
            (joined(&["-   PI TEXT "], &p, "%   +"), false)
        },
        SbRow::Refresh => (lit("REFRESH SCREEN"), false),
    }
}


fn key_label_exec(k: usize) -> (s: String)
    requires
        k < 12,
    ensures
        s@ == key_label(k as int),
        s@.len() <= 2,
{
    proof {
        reveal_strlit("<");
        reveal_strlit("0");
        reveal_strlit("OK");
    }
    if k == 9 {
        lit("<")
    } else if k == 10 {
        lit("0")
    } else if k == 11 {
        lit("OK")
    } else {
        let mut v: Vec<char> = Vec::new();
        let c = ('1' as u32 + k as u32) as u8 as char;
        assert(c == (('1' as u32) + k) as char);
        v.push(c);
        assert(v@ =~= seq![c]);
        txt(&v)
    }
}

/// What painting the sidebar draws, in order: with `pad` the number pad
/// and what is typed on it, else the rows and the close bar.
pub fn paint_sidebar(st: &SbState, pad: Option<&Vec<char>>) -> (ops: Vec<DrawOp>)
    requires
        1 <= st.count,
        st.current < usize::MAX,
        st.active < usize::MAX,
    ensures
        ops_view(ops@) == panel_ops(*st, match pad {
            Some(e) => Some(e@),
            None => None,
        }),
{
    let mut out: Vec<DrawOp> = Vec::new();
    push_op(&mut out, DrawOp::Fill(0, 0, SB_W, SCREEN_H, WHITE));
    push_op(&mut out, DrawOp::Fill(SB_W - 3, 0, 3, SCREEN_H, BLACK));
    push_op(&mut out, DrawOp::Text(28, 24, lit("NOTEBOOK"), 4, BLACK));
    let mut sub = chars_of("page ");
    let d1 = decimal(st.current as u64 + 1);
    sub.extend_from_slice(d1.as_slice());
    let of = chars_of(" of ");
    sub.extend_from_slice(of.as_slice());
    let d2 = decimal(st.count as u64);
    sub.extend_from_slice(d2.as_slice());
    assert(sub@ =~= "page "@ + digits((st.current + 1) as nat, 10) + " of "@ + digits(st.count as nat, 10));
    push_op(&mut out, DrawOp::Text(28, 62, txt(&sub), 2, GRAY));
    push_op(&mut out, DrawOp::Fill(0, 92, SB_W - 3, 2, BLACK));
    let ghost head = ops_view(out@);
    assert(head =~= seq![
        DrawOpV::Fill(0, 0, SB_W, SCREEN_H, WHITE),
        DrawOpV::Fill(377, 0, 3, SCREEN_H, BLACK),
        DrawOpV::Text(28, 24, "NOTEBOOK"@, 4, BLACK),
        DrawOpV::Text(28, 62, "page "@ + digits((st.current + 1) as nat, 10) + " of "@ + digits(st.count as nat, 10), 2, GRAY),
        DrawOpV::Fill(0, 92, 377, 2, BLACK),
    ]);
    match pad {
        Some(entry) => {
            push_op(&mut out, DrawOp::Outline(PAD_X0, SB_LIST_Y0, SB_W - 2 * PAD_X0, 64, 3, BLACK));
            let mut shown = chars_of("GO TO: ");
            shown.extend_from_slice(entry.as_slice());
            shown.push('_');
            assert(shown@ =~= "GO TO: "@ + entry@ + "_"@) by {
                reveal_strlit("_");
            }
            push_op(&mut out, DrawOp::Text(PAD_X0 + 14, SB_LIST_Y0 + 22, txt(&shown), 3, BLACK));
            let ghost mid = ops_view(out@);
            let mut k: usize = 0;
            while k < 12
                invariant
                    k <= 12,
                    ops_view(out@) == mid + keys_ops(k as int),
                decreases 12 - k,
            {
                let (col, row) = ((k % 3) as i32, (k / 3) as i32);
                let (x, y) = (PAD_X0 + col * (PAD_BTN_W + PAD_GAP), PAD_Y0 + row * (PAD_BTN_H + PAD_GAP));
                let label = key_label_exec(k);
                let n = chars_of(label.as_str()).len();
                assert(n <= 2);
                let tw = (n as i32) * 6 * 4;
                let ghost before = ops_view(out@);
                push_op(&mut out, DrawOp::Outline(x, y, PAD_BTN_W, PAD_BTN_H, 2, BLACK));
                let dx = (PAD_BTN_W - tw) / 2;
                assert(dx == trunc_div(PAD_BTN_W - tw, 2));
                push_op(&mut out, DrawOp::Text(x + dx, y + 28, label, 4, BLACK));
                assert(ops_view(out@) =~= mid + keys_ops(k as int) + key_ops(k as int));
                k += 1;
            }
            push_op(&mut out, DrawOp::Outline(PAD_X0, 590, SB_W - 2 * PAD_X0, 64, 2, BLACK));
            push_op(&mut out, DrawOp::Text(136, 612, lit("CANCEL"), 3, BLACK));
            assert(ops_view(out@) =~= panel_ops(*st, Some(entry@)));
        },
        None => {
            let mut i: usize = 0;
            while i < 11
                invariant
                    i <= 11,
                    1 <= st.count,
                    st.current < usize::MAX,
                    st.active < usize::MAX,
                    ops_view(out@) == head + rows_ops(*st, i as int),
                decreases 11 - i,
            {
                let r = match row_of(i as i32) {
                    Some(r) => r,
                    None => SbRow::Refresh,
                };
                assert(row_at(i as int) == Some(r));
                let y: i32 = SB_LIST_Y0 + (i as i32) * SB_ROW_H;
                let (label, cur) = row_label_exec(r, st);
                let ghost before = ops_view(out@);
                if r == SbRow::Agent {
                    push_op(&mut out, DrawOp::Fill(24, y - 8, SB_W - 48, 2, LIGHT));
                }
                if cur {
                    push_op(&mut out, DrawOp::Fill(12, y, SB_W - 27, SB_ROW_H - 8, BLACK));
                    push_op(&mut out, DrawOp::Text(36, y + 19, label, 3, WHITE));
                } else {
                    push_op(&mut out, DrawOp::Text(36, y + 19, label, 3, BLACK));
                }
                assert(ops_view(out@) =~= before + row_ops(i as int, r, *st));
                i += 1;
            }
            push_op(&mut out, DrawOp::Fill(SB_CLOSE_MARGIN, 1784, SB_W - 2 * SB_CLOSE_MARGIN, SB_CLOSE_H, BLACK));
            push_op(&mut out, DrawOp::Text(127, 1805, lit("X CLOSE"), 3, WHITE));
            assert(ops_view(out@) =~= panel_ops(*st, None));
        },
    }
    out
}

} // verus!
