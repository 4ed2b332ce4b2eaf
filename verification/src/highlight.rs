//! The highlighter nib: a wide, light-grey band laid under the words.
//!
//! A highlight is an ordinary user stroke with a pale grey and a fat
//! radius, so darkest-wins stamping puts the band under print and ink.
//! On a book page the band snaps to the line of print under the nib,
//! using the word boxes of the page; the toolbar gets one extra cell for
//! the nib, flush under the strip.

use vstd::prelude::*;
use crate::geom::{Rect, SCREEN_H, max_spec, trunc_div};
use crate::strs::chars_of;
use crate::text::matches_at;

verus! {

/// The band's grey: pale enough to leave print and ink legible through
/// it, dark enough to survive the 16-level waveform.
pub const HL_GRAY: u8 = 186;

/// Strokes at or above this grey are highlights, not ink.
pub const HL_MIN_GRAY: u8 = 150;

/// The strip's cell pitch; the highlighter cell shares it.
pub const CELL_H: i32 = 104;

/// Is a stroke of this grey a highlight?
pub fn is_highlight(gray: u8) -> (b: bool)
    ensures
        b == (gray >= HL_MIN_GRAY),
{
    gray >= HL_MIN_GRAY
}

/// What the pen draws with while the Pen tool is armed.
#[derive(Clone, Copy, PartialEq, Eq, Structural, Debug)]
pub enum Nib {
    Pen,
    Highlighter,
}

/// The settings key of a nib.
pub open spec fn nib_key(n: Nib) -> Seq<char> {
    match n {
        Nib::Pen => seq!['p', 'e', 'n'],
        Nib::Highlighter => seq!['h', 'i', 'g', 'h', 'l', 'i', 'g', 'h', 't', 'e', 'r'],
    }
}

/// The nib a settings key names: anything but the highlighter's key is
/// the pen.
pub open spec fn nib_of_key(k: Seq<char>) -> Nib {
    if k == nib_key(Nib::Highlighter) {
        Nib::Highlighter
    } else {
        Nib::Pen
    }
}

pub open spec fn nib_toggled(n: Nib) -> Nib {
    match n {
        Nib::Pen => Nib::Highlighter,
        Nib::Highlighter => Nib::Pen,
    }
}

impl Nib {
    pub fn key(self) -> (k: &'static str)
        ensures
            k@ == nib_key(self),
    {
        match self {
            Nib::Pen => {
                proof {
                    reveal_strlit("pen");
                }
                "pen"
            },
            Nib::Highlighter => {
                proof {
                    reveal_strlit("highlighter");
                }
                "highlighter"
            },
        }
    }

    pub fn from_key(k: &str) -> (n: Nib)
        ensures
            n == nib_of_key(k@),
    {
        let cs = chars_of(k);
        let hl = vec!['h', 'i', 'g', 'h', 'l', 'i', 'g', 'h', 't', 'e', 'r'];
        if cs.len() == hl.len() && matches_at(&cs, 0, &hl) {
            assert(cs@ =~= hl@);
            Nib::Highlighter
        } else {
            assert(cs@ != nib_key(Nib::Highlighter)) by {
                if cs@ == nib_key(Nib::Highlighter) {
                    assert(cs@.subrange(0, hl@.len() as int) =~= hl@);
                }
            }
            Nib::Pen
        }
    }

    pub fn toggled(self) -> (n: Nib)
        ensures
            n == nib_toggled(self),
    {
        match self {
            Nib::Pen => Nib::Highlighter,
            Nib::Highlighter => Nib::Pen,
        }
    }
}

/// A nib survives being saved by its key and read back.
pub proof fn lemma_nib_key_roundtrip(n: Nib)
    ensures
        nib_of_key(nib_key(n)) == n,
{
    if n == Nib::Pen {
        assert(nib_key(Nib::Pen) != nib_key(Nib::Highlighter)) by {
            assert(nib_key(Nib::Pen).len() != nib_key(Nib::Highlighter).len());
        }
    }
}

/// Toggling twice gives the nib back, and toggling always changes it.
pub proof fn lemma_nib_toggle_involution(n: Nib)
    ensures
        nib_toggled(nib_toggled(n)) == n,
        nib_toggled(n) != n,
{
}

/* ---- the band ------------------------------------------------------------ */

/// A word box of a page of print (corners inclusive) and its text.
pub struct Word {
    pub x0: i32,
    pub y0: i32,
    pub x1: i32,
    pub y1: i32,
    pub text: String,
}

/// Vertical centre of a word box, rounded toward zero.
pub open spec fn center(w: Word) -> int {
    trunc_div(w.y0 + w.y1, 2)
}

pub open spec fn abs(v: int) -> int {
    if v < 0 {
        -v
    } else {
        v
    }
}

/// Only boxes of positive height take part.
pub open spec fn has_height(w: Word) -> bool {
    w.y1 > w.y0
}

/// Among the first `n` words with height, the one whose centre is closest
/// to `y` (the first of equally close ones).
pub open spec fn nearest_in(ws: Seq<Word>, y: int, n: int) -> Option<int>
    decreases n,
{
    if n <= 0 {
        None
    } else {
        let prev = nearest_in(ws, y, n - 1);
        if !has_height(ws[n - 1]) {
            prev
        } else {
            match prev {
                None => Some(n - 1),
                Some(k) => if abs(center(ws[n - 1]) - y) < abs(center(ws[k]) - y) {
                    Some(n - 1)
                } else {
                    Some(k)
                },
            }
        }
    }
}

/// The word with height nearest to `y`.
pub open spec fn nearest(ws: Seq<Word>, y: int) -> Option<int> {
    nearest_in(ws, y, ws.len() as int)
}

/// Does `w` sit on the line whose centre is `c`, within `tol`?
pub open spec fn on_line(w: Word, c: int, tol: int) -> bool {
    has_height(w) && abs(center(w) - c) <= tol
}

/// Is the nearest word close enough to `y` to snap to: no further than
/// its own height, and never refused within 20 px.
pub open spec fn snaps(w: Word, y: int) -> bool {
    abs(center(w) - y) <= max_spec(w.y1 - w.y0, 20)
}

/// How far from the nearest word's centre another word may sit and still
/// be on its line: half its height, at least 6 px.
pub open spec fn line_tol(w: Word) -> int {
    max_spec((w.y1 - w.y0) / 2, 6)
}

/// `top` and `bottom` are the extreme edges of the words on the line of
/// centre `c`.
pub open spec fn line_extent(ws: Seq<Word>, c: int, tol: int, top: int, bottom: int) -> bool {
    &&& exists|i: int| 0 <= i < ws.len() && on_line(ws[i], c, tol) && ws[i].y0 == top
    &&& exists|i: int| 0 <= i < ws.len() && on_line(ws[i], c, tol) && ws[i].y1 == bottom
    &&& forall|i: int| 0 <= i < ws.len() && on_line(ws[i], c, tol) ==> top <= #[trigger] ws[i].y0
    &&& forall|i: int| 0 <= i < ws.len() && on_line(ws[i], c, tol) ==> #[trigger] ws[i].y1 <= bottom
}

proof fn lemma_nearest_in_range(ws: Seq<Word>, y: int, n: int)
    requires
        0 <= n <= ws.len(),
    ensures
        nearest_in(ws, y, n) matches Some(k) ==> 0 <= k < n && has_height(ws[k]),
        nearest_in(ws, y, n) is None ==> forall|i: int| 0 <= i < n ==> !has_height(#[trigger] ws[i]),
    decreases n,
{
    if n > 0 {
        lemma_nearest_in_range(ws, y, n - 1);
    }
}

fn center_of(w: &Word) -> (c: i64)
    ensures
        c == center(*w),
{
    (w.y0 as i64 + w.y1 as i64) / 2
}

fn abs_i64(v: i64) -> (r: i64)
    requires
        v > i64::MIN,
    ensures
        r == abs(v as int),
{
    if v < 0 {
        -v
    } else {
        v
    }
}

/// The top and bottom edge of the line of print under `y`: the words
/// whose centres lie within `line_tol` of the nearest word's centre.
/// None when the page has no words with height or the nib is too far
/// from the nearest one.
pub fn snap(words: &[Word], y: i32) -> (r: Option<(i32, i32)>)
    ensures
        match r {
            None => match nearest(words@, y as int) {
                None => true,
                Some(k) => !snaps(words@[k], y as int),
            },
            Some((top, bottom)) => match nearest(words@, y as int) {
                None => false,
                Some(k) => snaps(words@[k], y as int) && line_extent(
                    words@,
                    center(words@[k]),
                    line_tol(words@[k]),
                    top as int,
                    bottom as int,
                ),
            },
        },
{
    let mut best: Option<usize> = None;
    let mut i: usize = 0;
    while i < words.len()
        invariant
            i <= words@.len(),
            match best {
                None => nearest_in(words@, y as int, i as int) is None,
                Some(k) => nearest_in(words@, y as int, i as int) == Some(k as int),
            },
        decreases words.len() - i,
    {
        proof {
            lemma_nearest_in_range(words@, y as int, i as int);
        }
        let w = &words[i];
        if w.y1 > w.y0 {
            let d = abs_i64(center_of(w) - y as i64);
            match best {
                None => {
                    best = Some(i);
                },
                Some(k) => {
                    let dk = abs_i64(center_of(&words[k]) - y as i64);
                    if d < dk {
                        best = Some(i);
                    }
                },
            }
        }
        i += 1;
    }
    let k = match best {
        None => {
            return None;
        },
        Some(k) => k,
    };
    proof {
        lemma_nearest_in_range(words@, y as int, words@.len() as int);
    }
    let nw = &words[k];
    let h = nw.y1 as i64 - nw.y0 as i64;
    let lim = if h >= 20 { h } else { 20 };
    let cn = center_of(nw);
    if abs_i64(cn - y as i64) > lim {
        return None;
    }
    let tol = if h / 2 >= 6 { h / 2 } else { 6 };
    let ghost c = center(words@[k as int]);
    let mut top = nw.y0;
    let mut bottom = nw.y1;
    let mut j: usize = 0;
    while j < words.len()
        invariant
            j <= words@.len(),
            k < words@.len(),
            cn == c,
            tol == line_tol(words@[k as int]),
            on_line(words@[k as int], c, tol as int),
            exists|i: int| 0 <= i < words@.len() && on_line(words@[i], c, tol as int) && words@[i].y0 == top,
            exists|i: int| 0 <= i < words@.len() && on_line(words@[i], c, tol as int) && words@[i].y1 == bottom,
            forall|i: int| 0 <= i < j && on_line(words@[i], c, tol as int) ==> top <= #[trigger] words@[i].y0,
            forall|i: int| 0 <= i < j && on_line(words@[i], c, tol as int) ==> #[trigger] words@[i].y1 <= bottom,
        decreases words.len() - j,
    {
        let w = &words[j];
        if w.y1 > w.y0 && abs_i64(center_of(w) - cn) <= tol {
            if w.y0 < top {
                top = w.y0;
            }
            if w.y1 > bottom {
                bottom = w.y1;
            }
        }
        j += 1;
    }
    Some((top, bottom))
}

/* ---- the toolbar cell ---------------------------------------------------- */

/// The highlighter's cell: the strip's width, one pitch tall, flush
/// under the strip.
pub fn cell(strip: Rect) -> (c: Rect)
    requires
        strip.y1 + CELL_H <= i32::MAX,
    ensures
        c.x0 == strip.x0,
        c.y0 == strip.y1 + 1,
        c.x1 == strip.x1,
        c.y1 == strip.y1 + CELL_H,
{
    Rect { x0: strip.x0, y0: strip.y1 + 1, x1: strip.x1, y1: strip.y1 + CELL_H }
}

/// False when the strip is so long that the extra cell would run off the
/// panel; the nib is then reachable only by re-tapping the armed pen.
pub fn fits(strip: Rect) -> (b: bool)
    requires
        strip.y1 + CELL_H <= i32::MAX,
    ensures
        b == (strip.y1 + CELL_H < SCREEN_H),
{
    cell(strip).y1 < SCREEN_H
}

/// Is (x, y) on the highlighter's cell (edges included)?
pub fn hit(strip: Rect, x: i32, y: i32) -> (b: bool)
    requires
        strip.y1 + CELL_H <= i32::MAX,
    ensures
        b == (strip.x0 <= x <= strip.x1 && strip.y1 + 1 <= y <= strip.y1 + CELL_H),
{
    let c = cell(strip);
    x >= c.x0 && x <= c.x1 && y >= c.y0 && y <= c.y1
}


/// The nib's half-height on a free band, in half pixels (13 px).
pub const FREE_BAND_HALF2: i64 = 26;

/// The band a highlighter press at `y` lays, in half pixels: (twice its
/// centre, twice its half-height). Snapped to the line of print under
/// the nib: centred on the line, half its height plus 3 px, kept within
/// 8..26 px; off any line, centred on the nib at 13 px.
pub open spec fn band_spec(snapped: Option<(int, int)>, y: int) -> (int, int) {
    match snapped {
        Some((top, bottom)) => {
            let h2 = bottom - top + 6;
            (top + bottom, if h2 < 16 { 16 } else if h2 > 52 { 52 } else { h2 })
        },
        None => (2 * y, 26),
    }
}

pub fn band_for(words: &[Word], y: i32) -> (r: (i64, i64))
    ensures
        match nearest(words@, y as int) {
            Some(k) if snaps(words@[k], y as int) => exists|top: int, bottom: int|
                line_extent(words@, center(words@[k]), line_tol(words@[k]), top, bottom) && (r.0 as int, r.1 as int)
                    == band_spec(Some((top, bottom)), y as int),
            _ => (r.0 as int, r.1 as int) == band_spec(None, y as int),
        },
{
    match snap(words, y) {
        Some((top, bottom)) => {
            let h2 = bottom as i64 - top as i64 + 6;
            (top as i64 + bottom as i64, if h2 < 16 { 16 } else if h2 > 52 { 52 } else { h2 })
        },
        None => (2 * y as i64, FREE_BAND_HALF2),
    }
}

} // verus!
