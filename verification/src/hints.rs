//! The measured layout the assistant is told when it is asked to write on
//! a page: the printed block and its margins on book pages, the rows of
//! ink, the free bands of a page that is all canvas, and the size of the
//! user's handwriting. The numbers are the ones it must trust, so the
//! text is built exactly from them.

use vstd::prelude::*;
use crate::geom::{SCREEN_W, SCREEN_H, clamp_spec, trunc_div, min_spec, max_spec};
use crate::highlight::Word;
use crate::ink::{Band, Page, PatchV, body_bbox, body_box, page_pts_ok, patches_view, strokes_ok};
use crate::num::{decimal, digits, int_text, signed_decimal};
use crate::order::{Ranked, key_before, order_spec, stable_order, lemma_order_perm};
use crate::strs::{chars_of, string_of};
use crate::text::{join, join_chars};
use crate::wrap::push_piece;

verus! {

/// Whole numbers ranked in increasing order.
impl Ranked for i64 {
    open spec fn rank_lt(&self, other: &Self) -> bool {
        *self < *other
    }

    fn goes_before(&self, other: &Self) -> (b: bool) {
        *self < *other
    }

    proof fn lemma_not_after(a: &Self, b: &Self, c: &Self) {
    }

    proof fn lemma_asymmetric(a: &Self, b: &Self) {
    }
}

/// Smallest of a non-empty sequence.
pub open spec fn seq_min(s: Seq<int>) -> int
    decreases s.len(),
{
    if s.len() <= 1 {
        s[0]
    } else {
        min_spec(seq_min(s.drop_last()), s.last())
    }
}

/// Largest of a non-empty sequence.
pub open spec fn seq_max(s: Seq<int>) -> int
    decreases s.len(),
{
    if s.len() <= 1 {
        s[0]
    } else {
        max_spec(seq_max(s.drop_last()), s.last())
    }
}

pub open spec fn word_x0s(ws: Seq<Word>) -> Seq<int> {
    ws.map(|_i, w: Word| w.x0 as int)
}

pub open spec fn word_x1s(ws: Seq<Word>) -> Seq<int> {
    ws.map(|_i, w: Word| w.x1 as int)
}

pub open spec fn word_y0s(ws: Seq<Word>) -> Seq<int> {
    ws.map(|_i, w: Word| w.y0 as int)
}

pub open spec fn word_y1s(ws: Seq<Word>) -> Seq<int> {
    ws.map(|_i, w: Word| w.y1 as int)
}

/// Each word's height, clamped to 8..80.
pub open spec fn word_heights(ws: Seq<Word>) -> Seq<i64> {
    ws.map(|_i, w: Word| clamp_spec(w.y1 - w.y0, 8, 80) as i64)
}

/// The print line height: the median (upper middle) clamped word height.
pub open spec fn print_line_h(ws: Seq<Word>) -> int {
    let hs = word_heights(ws);
    hs[order_spec(key_before(hs), hs.len() as int)[(hs.len() / 2) as int] as int] as int
}

/// Which margin to write in, given the printed block.
pub open spec fn best_zone(tx0: int, tx1: int, ty1: int) -> Seq<char> {
    let left = tx0;
    let right = SCREEN_W - tx1;
    let bottom = SCREEN_H - ty1;
    if right >= left && right >= 100 {
        "the RIGHT margin (x"@ + int_text(tx1 + 12) + "-"@ + int_text(SCREEN_W - 10)
            + ") is your writing zone"@
    } else if left > right && left >= 100 {
        "the LEFT margin (x10-"@ + int_text(tx0 - 12) + ") is your writing zone"@
    } else if bottom >= 140 {
        "margins are narrow — use the BOTTOM strip (y"@ + int_text(ty1 + 20) + "-"@ + int_text(
            SCREEN_H - 16,
        ) + ")"@
    } else {
        "margins are narrow — prefer canvas_underline + a note page"@
    }
}

/// "Printed block x.., y..; print line-height ~..px. "
pub open spec fn block_text(tx0: int, tx1: int, ty0: int, ty1: int, lh: int) -> Seq<char> {
    "Printed block x"@ + int_text(tx0) + "-"@ + int_text(tx1) + ", y"@ + int_text(ty0) + "-"@
        + int_text(ty1) + "; print line-height ~"@ + int_text(lh) + "px. "@
}

/// "Margins: left ..px, right ..px, top ..px, bottom ..px; "
pub open spec fn margins_text(tx0: int, tx1: int, ty0: int, ty1: int) -> Seq<char> {
    "Margins: left "@ + int_text(tx0) + "px, right "@ + int_text(SCREEN_W - tx1) + "px, top "@
        + int_text(ty0) + "px, bottom "@ + int_text(SCREEN_H - ty1) + "px; "@
}

/// The font-size advice for print of line height `lh`.
pub open spec fn advice_text(lh: int) -> Seq<char> {
    ". Write margin notes at font-size ~"@ + int_text(clamp_spec(trunc_div(lh * 9, 10), 24, 42))
        + " and KEEP LINES SHORT — a line is ~0.6*font-size px per character and must fit the margin. "@
}

/// The printed block, its margins and the advice, for a page with words.
pub open spec fn print_text(ws: Seq<Word>) -> Seq<char> {
    let tx0 = seq_min(word_x0s(ws));
    let tx1 = seq_max(word_x1s(ws));
    let ty0 = seq_min(word_y0s(ws));
    let ty1 = seq_max(word_y1s(ws));
    let lh = print_line_h(ws);
    block_text(tx0, tx1, ty0, ty1, lh) + margins_text(tx0, tx1, ty0, ty1) + best_zone(tx0, tx1, ty1)
        + advice_text(lh)
}

/// The part about print: nothing off book pages.
pub open spec fn head_text(words: Option<Seq<Word>>) -> Seq<char> {
    match words {
        None => Seq::empty(),
        Some(ws) => if ws.len() == 0 {
            "No printed-text geometry on this page. "@
        } else {
            print_text(ws)
        },
    }
}

/// One ink row: its extent, and whether only the assistant wrote there.
pub open spec fn band_text(b: Band) -> Seq<char> {
    "y"@ + int_text(b.y0 as int) + "-"@ + int_text(b.y1 as int) + " (x"@ + int_text(b.x0 as int)
        + "-"@ + int_text(b.x1 as int) + (if b.user {
        Seq::empty()
    } else {
        ", yours"@
    }) + ")"@
}

/// The ink rows listed: at most twelve entries, the last one counting the
/// rest.
pub open spec fn row_texts(bands: Seq<Band>) -> Seq<Seq<char>> {
    if bands.len() > 12 {
        bands.take(11).map(|_i, b: Band| band_text(b)).push(
            "and "@ + int_text(bands.len() - 11) + " more"@,
        )
    } else {
        bands.map(|_i, b: Band| band_text(b))
    }
}

/// The gaps of at least 96 px between neighbouring rows among the first
/// `k` rows, 24 px inside each row.
pub open spec fn gap_texts(bands: Seq<Band>, k: int) -> Seq<Seq<char>>
    decreases k,
{
    if k < 2 {
        Seq::empty()
    } else {
        let a = bands[k - 2];
        let b = bands[k - 1];
        let rest = gap_texts(bands, k - 1);
        if b.y0 - a.y1 >= 96 {
            rest.push("y"@ + int_text(a.y1 + 24) + "-"@ + int_text(b.y0 - 24))
        } else {
            rest
        }
    }
}

/// Free horizontal bands of a page that is all canvas: above the first
/// row, between rows, below the last.
pub open spec fn free_texts(bands: Seq<Band>) -> Seq<Seq<char>> {
    let top: Seq<Seq<char>> = if bands[0].y0 > 130 {
        seq!["y0-"@ + int_text(bands[0].y0 - 24) + " (top)"@]
    } else {
        Seq::empty()
    };
    let last = bands.last();
    let bottom: Seq<Seq<char>> = if last.y1 < SCREEN_H - 130 {
        seq!["y"@ + int_text(last.y1 + 24) + "-"@ + int_text(SCREEN_H - 24) + " (bottom)"@]
    } else {
        Seq::empty()
    };
    top + gap_texts(bands, bands.len() as int) + bottom
}

/// Advice from the height of the user's handwriting rows, when known.
pub open spec fn hand_text(user_lh: Option<i32>) -> Seq<char> {
    match user_lh {
        None => Seq::empty(),
        Some(lh) => {
            let fs = clamp_spec(trunc_div(lh * 9, 10), 30, 90);
            " The user's handwriting rows are ~"@ + int_text(lh as int)
                + "px tall: write at font-size ~"@ + int_text(fs) + " with ~"@ + int_text(
                trunc_div(fs * 3, 2),
            ) + "px between your baselines."@
        },
    }
}

/// The whole message. `words` is None off book pages, `bands` the page's
/// ink rows top to bottom, `user_lh` the user's handwriting row height.
pub open spec fn hints_spec(words: Option<Seq<Word>>, bands: Seq<Band>, user_lh: Option<i32>) -> Seq<
    char,
> {
    let s = head_text(words);
    if bands.len() == 0 {
        if s.len() == 0 {
            "The page is blank — the full 1404x1872 canvas is yours."@
        } else {
            s + "No ink on this page yet."@
        }
    } else {
        let ink = s + "Ink rows: "@ + join(row_texts(bands), ", "@) + "."@;
        if words is None {
            let free = free_texts(bands);
            ink + (if free.len() > 0 {
                " Free bands (full width): "@ + join(free, ", "@) + "."@
            } else {
                Seq::empty()
            }) + hand_text(user_lh)
        } else {
            ink
        }
    }
}

/// Appends the characters of `s`.
fn put(out: &mut Vec<char>, s: &str)
    ensures
        final(out)@ == old(out)@ + s@,
{
    let cs = chars_of(s);
    out.extend_from_slice(&cs);
}

/// Appends `v` in decimal.
fn put_int(out: &mut Vec<char>, v: i64)
    ensures
        final(out)@ == old(out)@ + int_text(v as int),
{
    let d = signed_decimal(v);
    out.extend_from_slice(&d);
}

proof fn seq_min_step(s: Seq<int>, k: int)
    requires
        1 <= k < s.len(),
    ensures
        seq_min(s.take(k + 1)) == min_spec(seq_min(s.take(k)), s[k]),
        seq_max(s.take(k + 1)) == max_spec(seq_max(s.take(k)), s[k]),
{
    assert(s.take(k + 1).drop_last() =~= s.take(k));
}

/// The printed block's text for a non-empty page of words.
fn print_part(out: &mut Vec<char>, ws: &Vec<Word>)
    requires
        ws@.len() > 0,
    ensures
        final(out)@ == old(out)@ + print_text(ws@),
{
    let n = ws.len();
    let mut tx0 = ws[0].x0;
    let mut tx1 = ws[0].x1;
    let mut ty0 = ws[0].y0;
    let mut ty1 = ws[0].y1;
    let mut hs: Vec<i64> = Vec::new();
    let mut i: usize = 0;
    assert(word_x0s(ws@).take(1) =~= seq![ws@[0].x0 as int]);
    assert(word_x1s(ws@).take(1) =~= seq![ws@[0].x1 as int]);
    assert(word_y0s(ws@).take(1) =~= seq![ws@[0].y0 as int]);
    assert(word_y1s(ws@).take(1) =~= seq![ws@[0].y1 as int]);
    while i < n
        invariant
            n == ws@.len(),
            0 < n,
            i <= n,
            hs@ == word_heights(ws@).take(i as int),
            i >= 1 ==> tx0 == seq_min(word_x0s(ws@).take(i as int)),
            i >= 1 ==> tx1 == seq_max(word_x1s(ws@).take(i as int)),
            i >= 1 ==> ty0 == seq_min(word_y0s(ws@).take(i as int)),
            i >= 1 ==> ty1 == seq_max(word_y1s(ws@).take(i as int)),
            i == 0 ==> tx0 == ws@[0].x0 && tx1 == ws@[0].x1 && ty0 == ws@[0].y0 && ty1 == ws@[0].y1,
        decreases n - i,
    {
        let w = &ws[i];
        if i >= 1 {
            proof {
                seq_min_step(word_x0s(ws@), i as int);
                seq_min_step(word_x1s(ws@), i as int);
                seq_min_step(word_y0s(ws@), i as int);
                seq_min_step(word_y1s(ws@), i as int);
            }
            if w.x0 < tx0 {
                tx0 = w.x0;
            }
            if w.x1 > tx1 {
                tx1 = w.x1;
            }
            if w.y0 < ty0 {
                ty0 = w.y0;
            }
            if w.y1 > ty1 {
                ty1 = w.y1;
            }
        }
        let d = w.y1 as i64 - w.y0 as i64;
        let h: i64 = if d < 8 {
            8
        } else if d > 80 {
            80
        } else {
            d
        };
        hs.push(h);
        i += 1;
        assert(hs@ =~= word_heights(ws@).take(i as int));
    }
    assert(word_x0s(ws@).take(n as int) =~= word_x0s(ws@));
    assert(word_x1s(ws@).take(n as int) =~= word_x1s(ws@));
    assert(word_y0s(ws@).take(n as int) =~= word_y0s(ws@));
    assert(word_y1s(ws@).take(n as int) =~= word_y1s(ws@));
    assert(hs@ =~= word_heights(ws@));
    let o = stable_order(&hs);
    proof {
        lemma_order_perm(key_before(hs@), n as int);
        assert(o@[(n / 2) as int] < n);
    }
    let lh = hs[o[n / 2]];
    assert(8 <= lh <= 80);
    let ghost pre = out@;
    put_block(out, tx0 as i64, tx1 as i64, ty0 as i64, ty1 as i64, lh);
    put_margins(out, tx0 as i64, tx1 as i64, ty0 as i64, ty1 as i64);
    put_zone(out, tx0 as i64, tx1 as i64, ty1 as i64);
    put_advice(out, lh);
    assert(out@ =~= pre + print_text(ws@));
}

fn put_block(out: &mut Vec<char>, tx0: i64, tx1: i64, ty0: i64, ty1: i64, lh: i64)
    ensures
        final(out)@ == old(out)@ + block_text(tx0 as int, tx1 as int, ty0 as int, ty1 as int, lh as int),
{
    let ghost pre = out@;
    put(out, "Printed block x");
    put_int(out, tx0);
    put(out, "-");
    put_int(out, tx1);
    put(out, ", y");
    put_int(out, ty0);
    put(out, "-");
    put_int(out, ty1);
    put(out, "; print line-height ~");
    put_int(out, lh);
    put(out, "px. ");
    assert(out@ =~= pre + block_text(tx0 as int, tx1 as int, ty0 as int, ty1 as int, lh as int));
}

fn put_margins(out: &mut Vec<char>, tx0: i64, tx1: i64, ty0: i64, ty1: i64)
    requires
        i32::MIN <= tx1 <= i32::MAX,
        i32::MIN <= ty1 <= i32::MAX,
    ensures
        final(out)@ == old(out)@ + margins_text(tx0 as int, tx1 as int, ty0 as int, ty1 as int),
{
    let ghost pre = out@;
    put(out, "Margins: left ");
    put_int(out, tx0);
    put(out, "px, right ");
    put_int(out, SCREEN_W as i64 - tx1);
    put(out, "px, top ");
    put_int(out, ty0);
    put(out, "px, bottom ");
    put_int(out, SCREEN_H as i64 - ty1);
    put(out, "px; ");
    assert(out@ =~= pre + margins_text(tx0 as int, tx1 as int, ty0 as int, ty1 as int));
}

fn put_zone(out: &mut Vec<char>, tx0: i64, tx1: i64, ty1: i64)
    requires
        i32::MIN <= tx0 <= i32::MAX,
        i32::MIN <= tx1 <= i32::MAX,
        i32::MIN <= ty1 <= i32::MAX,
    ensures
        final(out)@ == old(out)@ + best_zone(tx0 as int, tx1 as int, ty1 as int),
{
    let ghost pre = out@;
    let left = tx0;
    let right = SCREEN_W as i64 - tx1;
    let bottom = SCREEN_H as i64 - ty1;
    if right >= left && right >= 100 {
        put(out, "the RIGHT margin (x");
        put_int(out, tx1 + 12);
        put(out, "-");
        put_int(out, SCREEN_W as i64 - 10);
        put(out, ") is your writing zone");
    } else if left > right && left >= 100 {
        put(out, "the LEFT margin (x10-");
        put_int(out, tx0 - 12);
        put(out, ") is your writing zone");
    } else if bottom >= 140 {
        put(out, "margins are narrow — use the BOTTOM strip (y");
        put_int(out, ty1 + 20);
        put(out, "-");
        put_int(out, SCREEN_H as i64 - 16);
        put(out, ")");
    } else {
        put(out, "margins are narrow — prefer canvas_underline + a note page");
    }
    assert(out@ =~= pre + best_zone(tx0 as int, tx1 as int, ty1 as int));
}

fn put_advice(out: &mut Vec<char>, lh: i64)
    requires
        8 <= lh <= 80,
    ensures
        final(out)@ == old(out)@ + advice_text(lh as int),
{
    let ghost pre = out@;
    let q = lh * 9 / 10;
    let fs: i64 = if q < 24 {
        24
    } else if q > 42 {
        42
    } else {
        q
    };
    put(out, ". Write margin notes at font-size ~");
    put_int(out, fs);
    put(
        out,
        " and KEEP LINES SHORT — a line is ~0.6*font-size px per character and must fit the margin. ",
    );
    assert(out@ =~= pre + advice_text(lh as int));
}

fn band_part(b: &Band) -> (s: Vec<char>)
    ensures
        s@ == band_text(*b),
{
    let mut out: Vec<char> = Vec::new();
    put(&mut out, "y");
    put_int(&mut out, b.y0 as i64);
    put(&mut out, "-");
    put_int(&mut out, b.y1 as i64);
    put(&mut out, " (x");
    put_int(&mut out, b.x0 as i64);
    put(&mut out, "-");
    put_int(&mut out, b.x1 as i64);
    if !b.user {
        put(&mut out, ", yours");
    }
    put(&mut out, ")");
    assert(out@ =~= band_text(*b));
    out
}

/// Appends `parts` joined by ", ".
fn put_joined(out: &mut Vec<char>, parts: &Vec<Vec<char>>)
    ensures
        final(out)@ == old(out)@ + join(parts.deep_view(), ", "@),
{
    let sep = chars_of(", ");
    let j = join_chars(parts, &sep);
    out.extend_from_slice(&j);
}

fn row_parts(bands: &[Band]) -> (r: Vec<Vec<char>>)
    ensures
        r.deep_view() == row_texts(bands@),
{
    let n = bands.len();
    let shown = if n > 12 {
        11
    } else {
        n
    };
    let mut r: Vec<Vec<char>> = Vec::new();
    let mut i: usize = 0;
    while i < shown
        invariant
            i <= shown <= n,
            n == bands@.len(),
            r.deep_view() == bands@.take(i as int).map(|_i, b: Band| band_text(b)),
        decreases shown - i,
    {
        let t = band_part(&bands[i]);
        push_piece(&mut r, t);
        i += 1;
        assert(r.deep_view() =~= bands@.take(i as int).map(|_i, b: Band| band_text(b)));
    }
    if n > 12 {
        let mut more: Vec<char> = Vec::new();
        put(&mut more, "and ");
        let extra = crate::num::decimal((n - 11) as u64);
        more.extend_from_slice(&extra);
        put(&mut more, " more");
        assert(more@ =~= "and "@ + int_text(bands@.len() - 11) + " more"@);
        push_piece(&mut r, more);
    } else {
        assert(bands@.take(n as int) =~= bands@);
    }
    r
}

fn free_parts(bands: &[Band]) -> (r: Vec<Vec<char>>)
    requires
        bands@.len() > 0,
    ensures
        r.deep_view() == free_texts(bands@),
{
    let mut r: Vec<Vec<char>> = Vec::new();
    let y0 = bands[0].y0 as i64;
    if y0 > 130 {
        let mut t: Vec<char> = Vec::new();
        put(&mut t, "y0-");
        put_int(&mut t, y0 - 24);
        put(&mut t, " (top)");
        push_piece(&mut r, t);
    }
    let ghost top = r.deep_view();
    let mut k: usize = 1;
    while k < bands.len()
        invariant
            1 <= k <= bands@.len(),
            r.deep_view() == top + gap_texts(bands@, k as int),
        decreases bands.len() - k,
    {
        let a = bands[k - 1].y1 as i64;
        let b = bands[k].y0 as i64;
        if b - a >= 96 {
            let mut t: Vec<char> = Vec::new();
            put(&mut t, "y");
            put_int(&mut t, a + 24);
            put(&mut t, "-");
            put_int(&mut t, b - 24);
            push_piece(&mut r, t);
        }
        k += 1;
    }
    let last = bands[bands.len() - 1].y1 as i64;
    if last < SCREEN_H as i64 - 130 {
        let mut t: Vec<char> = Vec::new();
        put(&mut t, "y");
        put_int(&mut t, last + 24);
        put(&mut t, "-");
        put_int(&mut t, SCREEN_H as i64 - 24);
        put(&mut t, " (bottom)");
        push_piece(&mut r, t);
    }
    assert(r.deep_view() =~= free_texts(bands@));
    r
}

/// Measured layout for the message that hands the page to the assistant:
/// printed-page margins on book pages (`words` is None elsewhere), ink
/// rows, free bands on canvas pages, and the user's handwriting size.
pub fn layout_hints(words: Option<&Vec<Word>>, bands: &[Band], user_lh: Option<i32>) -> (s: String)
    ensures
        s@ == hints_spec(
            match words {
                Some(ws) => Some(ws@),
                None => None,
            },
            bands@,
            user_lh,
        ),
{
    let ghost wv: Option<Seq<Word>> = match words {
        Some(ws) => Some(ws@),
        None => None,
    };
    let mut out: Vec<char> = Vec::new();
    match words {
        Some(ws) => {
            if ws.len() == 0 {
                put(&mut out, "No printed-text geometry on this page. ");
            } else {
                print_part(&mut out, ws);
            }
        },
        None => {},
    }
    assert(out@ =~= head_text(wv));
    if bands.len() == 0 {
        if out.len() == 0 {
            let mut blank: Vec<char> = Vec::new();
            put(&mut blank, "The page is blank — the full 1404x1872 canvas is yours.");
            return string_of(&blank, 0, blank.len());
        } else {
            put(&mut out, "No ink on this page yet.");
        }
    } else {
        put(&mut out, "Ink rows: ");
        let rows = row_parts(bands);
        put_joined(&mut out, &rows);
        put(&mut out, ".");
        if words.is_none() {
            let free = free_parts(bands);
            if free.len() > 0 {
                put(&mut out, " Free bands (full width): ");
                put_joined(&mut out, &free);
                put(&mut out, ".");
            }
            match user_lh {
                Some(lh) => {
                    let q = (lh as i64) * 9 / 10;
                    let fs: i64 = if q < 30 {
                        30
                    } else if q > 90 {
                        90
                    } else {
                        q
                    };
                    put(&mut out, " The user's handwriting rows are ~");
                    put_int(&mut out, lh as i64);
                    put(&mut out, "px tall: write at font-size ~");
                    put_int(&mut out, fs);
                    put(&mut out, " with ~");
                    put_int(&mut out, fs * 3 / 2);
                    put(&mut out, "px between your baselines.");
                },
                None => {},
            }
        }
    }
    assert(out@ =~= hints_spec(wv, bands@, user_lh));
    string_of(&out, 0, out.len())
}


/* ---- the patches of a page, for the assistant ------------------------------ */

/// One patch as the assistant is told of it: "#id at (x0,y0)-(x1,y1)", or
/// just "#id" when it has no content to box.
pub open spec fn patch_entry(p: PatchV) -> Seq<char> {
    match body_box(p.strokes, p.texts) {
        Some(b) => "#"@ + digits(p.id as nat, 10) + " at ("@ + int_text(b.x0 as int) + ","@ + int_text(b.y0 as int)
            + ")-("@ + int_text(b.x1 as int) + ","@ + int_text(b.y1 as int) + ")"@,
        None => "#"@ + digits(p.id as nat, 10),
    }
}

/// The page's patches in order, comma-separated; "none" without any.
pub open spec fn patch_summary_spec(ps: Seq<PatchV>) -> Seq<char> {
    if ps.len() == 0 {
        "none"@
    } else {
        join(Seq::new(ps.len(), |i: int| patch_entry(ps[i])), ", "@)
    }
}

fn push_str(v: &mut Vec<char>, s: &str)
    ensures
        final(v)@ == old(v)@ + s@,
{
    let t = chars_of(s);
    v.extend_from_slice(t.as_slice());
}

fn push_chars(v: &mut Vec<char>, t: Vec<char>)
    ensures
        final(v)@ == old(v)@ + t@,
{
    v.extend_from_slice(t.as_slice());
}

pub fn patch_summary(p: &Page) -> (s: String)
    requires
        page_pts_ok(p@),
    ensures
        s@ == patch_summary_spec(p@.patches),
{
    let ghost ps = p@.patches;
    if p.patches.len() == 0 {
        let s = String::from_str("none");
        proof {
            reveal_strlit("none");
        }
        return s;
    }
    let mut parts: Vec<Vec<char>> = Vec::new();
    let mut i: usize = 0;
    while i < p.patches.len()
        invariant
            i <= p.patches@.len(),
            ps == patches_view(p.patches@),
            page_pts_ok(p@),
            ps == p@.patches,
            parts.deep_view() =~= Seq::new(i as nat, |k: int| patch_entry(ps[k])),
        decreases p.patches.len() - i,
    {
        let pa = &p.patches[i];
        assert(ps[i as int] == pa@);
        assert(strokes_ok(ps[i as int].strokes));
        let mut e: Vec<char> = Vec::new();
        push_str(&mut e, "#");
        push_chars(&mut e, decimal(pa.id));
        match body_bbox(&pa.strokes, &pa.texts) {
            Some(b) => {
                push_str(&mut e, " at (");
                push_chars(&mut e, signed_decimal(b.x0 as i64));
                push_str(&mut e, ",");
                push_chars(&mut e, signed_decimal(b.y0 as i64));
                push_str(&mut e, ")-(");
                push_chars(&mut e, signed_decimal(b.x1 as i64));
                push_str(&mut e, ",");
                push_chars(&mut e, signed_decimal(b.y1 as i64));
                push_str(&mut e, ")");
            },
            None => {},
        }
        let ghost ev = e@;
        assert(ev == patch_entry(ps[i as int]));
        let ghost before = parts.deep_view();
        push_piece(&mut parts, e);
        assert(parts.deep_view() =~= before.push(ev));
        i += 1;
    }
    let sep = chars_of(", ");
    let out = join_chars(&parts, sep.as_slice());
    let s = string_of(out.as_slice(), 0, out.len());
    assert(s@ =~= out@);
    s
}

} // verus!
