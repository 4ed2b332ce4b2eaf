//! A minimal on-screen keyboard for renaming documents and naming folders.
//! Taps only, lowercase and digits; OK / CANCEL end the session.
//!
//! The layout is four key rows above a bottom row of CANCEL, SPACE, DEL
//! and OK. A tap is resolved purely from its coordinates: `press` is the
//! whole state machine of the field being edited.

use vstd::prelude::*;
use vstd::utf8::encode_utf8;
use crate::geom::{SCREEN_W, SCREEN_H};
use crate::strs::{chars_of, push_char, string_of};
use crate::text::{trim, trim_range};

verus! {

pub const KEY_H: i32 = 96;

pub const GAP: i32 = 10;

pub const TITLE_H: i32 = 110;

/// Height of the whole keyboard panel.
pub const KB_H: i32 = 5 * KEY_H + 6 * GAP + TITLE_H;

/// Longest field, in UTF-8 bytes, that a tap may still grow.
pub const MAX_FIELD: usize = 60;

/// The field being edited and the prompt shown above it.
pub struct Kb {
    pub text: String,
    pub title: &'static str,
}

/// What a tap did.
pub enum KbAction {
    /// OK: the field, trimmed.
    Accept(String),
    Cancel,
    /// The keyboard stays up (a key, SPACE, DEL or a stray tap).
    Edited,
}

/// `KbAction` with the text as characters.
pub enum KbActionV {
    Accept(Seq<char>),
    Cancel,
    Edited,
}

impl View for KbAction {
    type V = KbActionV;

    open spec fn view(&self) -> KbActionV {
        match self {
            KbAction::Accept(s) => KbActionV::Accept(s@),
            KbAction::Cancel => KbActionV::Cancel,
            KbAction::Edited => KbActionV::Edited,
        }
    }
}

/// The keys of row `ri` (0 = digits, then the three letter rows).
pub open spec fn kb_row(ri: int) -> Seq<char> {
    if ri == 0 {
        seq!['1', '2', '3', '4', '5', '6', '7', '8', '9', '0']
    } else if ri == 1 {
        seq!['q', 'w', 'e', 'r', 't', 'y', 'u', 'i', 'o', 'p']
    } else if ri == 2 {
        seq!['a', 's', 'd', 'f', 'g', 'h', 'j', 'k', 'l']
    } else {
        seq!['z', 'x', 'c', 'v', 'b', 'n', 'm']
    }
}

/// Top of the keyboard panel.
pub open spec fn kb_y0_spec() -> int {
    SCREEN_H - KB_H - 40
}

/// Width of one key in a row of `n` keys.
pub open spec fn key_w_spec(n: int) -> int {
    (SCREEN_W - 48 - GAP * (n - 1)) / n
}

/// Left edge of a row of `n` keys, centred on the panel.
pub open spec fn row_x0_spec(n: int) -> int {
    (SCREEN_W - (key_w_spec(n) * n + GAP * (n - 1))) / 2
}

/// Top of key row `ri`.
pub open spec fn row_y(ri: int) -> int {
    kb_y0_spec() + TITLE_H + ri * (KEY_H + GAP)
}

/// The key of row `ri` under (x, y), if any. A tap in the gap right of a
/// key still counts as that key.
pub open spec fn key_in_row(ri: int, x: int, y: int) -> Option<char> {
    let n = kb_row(ri).len() as int;
    let kw = key_w_spec(n);
    let x0 = row_x0_spec(n);
    if row_y(ri) <= y < row_y(ri) + KEY_H && x >= x0 && (x - x0) / (kw + GAP) < n {
        Some(kb_row(ri)[(x - x0) / (kw + GAP)])
    } else {
        None
    }
}

/// The character key under (x, y), rows tried top to bottom.
pub open spec fn key_at(x: int, y: int) -> Option<char> {
    if key_in_row(0, x, y) is Some {
        key_in_row(0, x, y)
    } else if key_in_row(1, x, y) is Some {
        key_in_row(1, x, y)
    } else if key_in_row(2, x, y) is Some {
        key_in_row(2, x, y)
    } else {
        key_in_row(3, x, y)
    }
}

/// Widths of the bottom-row buttons CANCEL, SPACE, DEL, OK.
pub open spec fn button_w(i: int) -> int {
    if i == 0 {
        280
    } else if i == 1 {
        520
    } else if i == 2 {
        240
    } else {
        280
    }
}

/// Left edge of bottom-row button `i`.
pub open spec fn button_x(i: int) -> int
    decreases i,
{
    if i <= 0 {
        (SCREEN_W - (280 + 520 + 240 + 280 + GAP * 3)) / 2
    } else {
        button_x(i - 1) + button_w(i - 1) + GAP
    }
}

/// Top of the bottom row.
pub open spec fn bottom_y() -> int {
    row_y(4)
}

/// The bottom-row button under (x, y), if any.
pub open spec fn button_at(x: int, y: int) -> Option<int> {
    if bottom_y() <= y < bottom_y() + KEY_H {
        if button_x(0) <= x < button_x(0) + button_w(0) {
            Some(0)
        } else if button_x(1) <= x < button_x(1) + button_w(1) {
            Some(1)
        } else if button_x(2) <= x < button_x(2) + button_w(2) {
            Some(2)
        } else if button_x(3) <= x < button_x(3) + button_w(3) {
            Some(3)
        } else {
            None
        }
    } else {
        None
    }
}

/// Can a tap still add a character: the field is under 60 bytes of UTF-8
/// (its byte length as a `usize`).
pub open spec fn has_room(t: Seq<char>) -> bool {
    (encode_utf8(t).len() as usize) < MAX_FIELD
}

/// The field and the action after a tap at (x, y) on field `t`.
pub open spec fn press_spec(t: Seq<char>, x: int, y: int) -> (Seq<char>, KbActionV) {
    match key_at(x, y) {
        Some(c) => (if has_room(t) { t.push(c) } else { t }, KbActionV::Edited),
        None => match button_at(x, y) {
            Some(i) => if i == 0 {
                (t, KbActionV::Cancel)
            } else if i == 1 {
                (if has_room(t) && t.len() > 0 { t.push(' ') } else { t }, KbActionV::Edited)
            } else if i == 2 {
                (if t.len() > 0 { t.drop_last() } else { t }, KbActionV::Edited)
            } else {
                (t, KbActionV::Accept(trim(t)))
            },
            None => (t, KbActionV::Edited),
        },
    }
}

/// Top of the keyboard panel.
pub fn kb_y0() -> (y: i32)
    ensures
        y == kb_y0_spec(),
{
    SCREEN_H - KB_H - 40
}

/// Width of one key of `row`.
pub fn key_w(row: &[char]) -> (w: i32)
    requires
        1 <= row@.len() <= 10,
    ensures
        w == key_w_spec(row@.len() as int),
{
    let n = row.len() as i32;
    (SCREEN_W - 48 - GAP * (n - 1)) / n
}

/// Left edge of `row`, centred.
pub fn row_x0(row: &[char]) -> (x: i32)
    requires
        1 <= row@.len() <= 10,
    ensures
        x == row_x0_spec(row@.len() as int),
        x >= 24,
{
    let n = row.len() as i32;
    let kw = key_w(row);
    assert(0 <= kw * n <= SCREEN_W - 48 - GAP * (n - 1)) by (nonlinear_arith)
        requires
            1 <= n <= 10,
            kw == key_w_spec(n as int),
    ;
    (SCREEN_W - (kw * n + GAP * (n - 1))) / 2
}

fn row_keys(ri: usize) -> (r: Vec<char>)
    requires
        ri < 4,
    ensures
        r@ == kb_row(ri as int),
{
    let v = if ri == 0 {
        vec!['1', '2', '3', '4', '5', '6', '7', '8', '9', '0']
    } else if ri == 1 {
        vec!['q', 'w', 'e', 'r', 't', 'y', 'u', 'i', 'o', 'p']
    } else if ri == 2 {
        vec!['a', 's', 'd', 'f', 'g', 'h', 'j', 'k', 'l']
    } else {
        vec!['z', 'x', 'c', 'v', 'b', 'n', 'm']
    };
    assert(v@ == kb_row(ri as int));
    v
}

proof fn lemma_rows_disjoint(ri: int, rj: int, y: int)
    requires
        0 <= ri < rj <= 4,
        row_y(ri) <= y < row_y(ri) + KEY_H,
    ensures
        !(row_y(rj) <= y < row_y(rj) + KEY_H),
{
}

proof fn lemma_button_x()
    ensures
        button_x(0) == 27,
        button_x(1) == 317,
        button_x(2) == 847,
        button_x(3) == 1097,
{
    reveal_with_fuel(button_x, 4);
}

impl Kb {
    pub fn new(title: &'static str, text: String) -> (k: Kb)
        ensures
            k.title == title,
            k.text@ == text@,
    {
        Kb { text, title }
    }

    /// Appends `c` when the field has room.
    fn push_key(&mut self, c: char)
        ensures
            final(self).title == old(self).title,
            final(self).text@ == if has_room(old(self).text@) {
                old(self).text@.push(c)
            } else {
                old(self).text@
            },
    {
        if self.text.as_str().len() < MAX_FIELD {
            push_char(&mut self.text, c);
        }
    }

    /// A press anywhere on screen while the keyboard is up.
    pub fn press(&mut self, x: i32, y: i32) -> (a: KbAction)
        ensures
            final(self).title == old(self).title,
            (final(self).text@, a@) == press_spec(old(self).text@, x as int, y as int),
    {
        let y0 = kb_y0();
        let mut ri: usize = 0;
        while ri < 4
            invariant
                ri <= 4,
                y0 == kb_y0_spec(),
                self.text@ == old(self).text@,
                self.title == old(self).title,
                forall|r: int| 0 <= r < ri ==> #[trigger] key_in_row(r, x as int, y as int) is None,
            decreases 4 - ri,
        {
            let row = row_keys(ri);
            let kw = key_w(&row);
            let x0 = row_x0(&row);
            assert(y0 == 1182 && 0 <= ri < 4);
            let ry = y0 + TITLE_H + (ri as i32) * 106;
            assert(ry == row_y(ri as int));
            if y >= ry && y < ry + KEY_H && x >= x0 {
                let i = (x - x0) / (kw + GAP);
                if (i as usize) < row.len() {
                    let c = row[i as usize];
                    proof {
                        assert(key_in_row(ri as int, x as int, y as int) == Some(c));
                        assert forall|r: int| ri < r < 4 implies #[trigger] key_in_row(
                            r,
                            x as int,
                            y as int,
                        ) is None by {
                            lemma_rows_disjoint(ri as int, r, y as int);
                        }
                        assert(key_at(x as int, y as int) == Some(c));
                    }
                    self.push_key(c);
                    return KbAction::Edited;
                }
            }
            ri += 1;
        }
        assert(key_at(x as int, y as int) is None);
        let by = y0 + TITLE_H + 4 * (KEY_H + GAP);
        proof {
            lemma_button_x();
        }
        if y >= by && y < by + KEY_H {
            if x >= 27 && x < 27 + 280 {
                return KbAction::Cancel;
            } else if x >= 317 && x < 317 + 520 {
                let n = self.text.as_str().len();
                if n < MAX_FIELD && !self.text.as_str().is_empty() {
                    push_char(&mut self.text, ' ');
                }
                return KbAction::Edited;
            } else if x >= 847 && x < 847 + 240 {
                let cs = chars_of(self.text.as_str());
                if cs.len() > 0 {
                    self.text = string_of(&cs, 0, cs.len() - 1);
                }
                return KbAction::Edited;
            } else if x >= 1097 && x < 1097 + 280 {
                let cs = chars_of(self.text.as_str());
                let (a, b) = trim_range(&cs, 0, cs.len());
                assert(cs@.subrange(0, cs@.len() as int) == cs@);
                return KbAction::Accept(string_of(&cs, a, b));
            }
        }
        KbAction::Edited
    }
}

} // verus!
