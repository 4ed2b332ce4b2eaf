//! The page-tool service that runs the assistant's canvas commands
//! against a synced copy of a document: the reading order of its pages,
//! where each page's ink lives, and the checks and answers of the
//! commands (which page, which range of pages, where a note page goes).

use vstd::prelude::*;
use crate::num::{decimal, decimal_padded, digits, zero_pad};
use crate::strs::{chars_of, string_of};
use crate::geom::{SCREEN_W, SCREEN_H};
use crate::text::{trim, trim_range};

verus! {

/// A page of the document's reading order: a page of the PDF (from 0)
/// or an inserted note page (by its number).
#[derive(Clone, Copy, PartialEq, Eq, Structural, Debug)]
pub enum Entry {
    Pdf(u64),
    Note(u64),
}

/// The stored reading order, as far as it could be read: the entries of
/// its `seq` (absent when there is no state file or no `seq` array) and
/// its `next_note` counter.
#[derive(Debug)]
pub struct StoredState {
    pub seq: Option<Vec<Entry>>,
    pub next_note: Option<u64>,
}

/// The largest note number in the order, or 0.
pub open spec fn max_note(s: Seq<Entry>) -> u64
    decreases s.len(),
{
    if s.len() == 0 {
        0
    } else {
        let m = max_note(s.drop_last());
        match s.last() {
            Entry::Note(n) => if n > m {
                n
            } else {
                m
            },
            Entry::Pdf(_) => m,
        }
    }
}

/// Every note number is below `u64::MAX`.
pub open spec fn notes_bounded(s: Seq<Entry>) -> bool {
    forall|i: int| 0 <= i < s.len() ==> (#[trigger] s[i] matches Entry::Note(n) ==> n < u64::MAX)
}

/// The PDF pages in order.
pub open spec fn pdf_order(pages: u64) -> Seq<Entry> {
    Seq::new(pages as nat, |i: int| Entry::Pdf(i as u64))
}

/// The reading order and the next note number: the stored order when it
/// has entries (the counter moved past every note in it); otherwise a
/// notebook's single first note, or the PDF's pages.
pub open spec fn doc_state_spec(st: Option<(Seq<Entry>, Option<u64>)>, is_notebook: bool, pages: u64) -> (Seq<Entry>, u64) {
    if st is Some && st.unwrap().0.len() > 0 {
        let (seq, nn) = st.unwrap();
        let base = match nn {
            Some(n) => n,
            None => 0,
        };
        let m = max_note(seq) + 1;
        (seq, if base >= m { base } else { m as u64 })
    } else if is_notebook {
        (seq![Entry::Note(1)], 2)
    } else {
        (pdf_order(pages), 1)
    }
}

pub open spec fn stored_view(st: StoredState) -> Option<(Seq<Entry>, Option<u64>)> {
    match st.seq {
        Some(v) => Some((v@, st.next_note)),
        None => None,
    }
}

pub fn doc_state(st: StoredState, is_notebook: bool, pages: u64) -> (r: (Vec<Entry>, u64))
    requires
        st.seq matches Some(v) ==> notes_bounded(v@),
        pages <= usize::MAX,
    ensures
        (r.0@, r.1) == doc_state_spec(stored_view(st), is_notebook, pages),
{
    let ghost sv = stored_view(st);
    let StoredState { seq, next_note } = st;
    if let Some(seq) = seq {
        if seq.len() > 0 {
            let mut m: u64 = 0;
            let mut i: usize = 0;
            while i < seq.len()
                invariant
                    i <= seq@.len(),
                    notes_bounded(seq@),
                    m == max_note(seq@.take(i as int)),
                    m < u64::MAX,
                decreases seq.len() - i,
            {
                assert(seq@.take(i + 1).drop_last() =~= seq@.take(i as int));
                if let Entry::Note(n) = seq[i] {
                    assert(seq@[i as int] matches Entry::Note(n) ==> n < u64::MAX);
                    if n > m {
                        m = n;
                    }
                }
                i += 1;
            }
            assert(seq@.take(seq@.len() as int) =~= seq@);
            let base = match next_note {
                Some(n) => n,
                None => 0,
            };
            let next = if base >= m + 1 { base } else { m + 1 };
            return (seq, next);
        }
    }
    if is_notebook {
        let mut v: Vec<Entry> = Vec::new();
        v.push(Entry::Note(1));
        assert(v@ =~= seq![Entry::Note(1)]);
        (v, 2)
    } else {
        let mut v: Vec<Entry> = Vec::new();
        let mut p: u64 = 0;
        while p < pages
            invariant
                p <= pages,
                v@ =~= pdf_order(p),
            decreases pages - p,
        {
            v.push(Entry::Pdf(p));
            p += 1;
        }
        (v, 1)
    }
}

pub(crate) fn text(v: &Vec<char>) -> (s: String)
    ensures
        s@ == v@,
{
    let s = string_of(v, 0, v.len());
    assert(s@ =~= v@);
    s
}

pub(crate) fn cat(a: &str, b: &Vec<char>, c: &str) -> (v: Vec<char>)
    ensures
        v@ == a@ + b@ + c@,
{
    let mut v = chars_of(a);
    v.extend_from_slice(b.as_slice());
    let t = chars_of(c);
    v.extend_from_slice(t.as_slice());
    v
}

/// Where a page's ink is stored, relative to the document: PDF pages are
/// numbered from 1, both with at least four digits.
pub open spec fn ink_rel_spec(e: Entry) -> Seq<char> {
    match e {
        Entry::Pdf(p) => "ink/pdf-"@ + zero_pad(digits((p + 1) as nat, 10), 4) + ".json"@,
        Entry::Note(n) => "ink/note-"@ + zero_pad(digits(n as nat, 10), 4) + ".json"@,
    }
}

pub fn ink_rel(e: Entry) -> (s: String)
    requires
        e matches Entry::Pdf(p) ==> p < u64::MAX,
    ensures
        s@ == ink_rel_spec(e),
{
    match e {
        Entry::Pdf(p) => text(&cat("ink/pdf-", &decimal_padded(p + 1, 4), ".json")),
        Entry::Note(n) => text(&cat("ink/note-", &decimal_padded(n, 4), ".json")),
    }
}

/// The label of the `i`-th page: its PDF page number, "note", or nothing.
pub open spec fn label_spec(seq: Seq<Entry>, i: int) -> Seq<char> {
    if 0 <= i < seq.len() {
        match seq[i] {
            Entry::Pdf(p) => "p."@ + digits((p + 1) as nat, 10),
            Entry::Note(_) => "note"@,
        }
    } else {
        Seq::empty()
    }
}

pub fn label(seq: &Vec<Entry>, i: usize) -> (s: String)
    requires
        forall|k: int| 0 <= k < seq@.len() ==> (#[trigger] seq@[k] matches Entry::Pdf(p) ==> p < u64::MAX),
    ensures
        s@ == label_spec(seq@, i as int),
{
    if i < seq.len() {
        match seq[i] {
            Entry::Pdf(p) => {
                assert(seq@[i as int] matches Entry::Pdf(p) ==> p < u64::MAX);
                proof {
                    reveal_strlit("");
                }
                let v = cat("p.", &decimal(p + 1), "");
                assert(v@ =~= "p."@ + digits((p + 1) as nat, 10));
                text(&v)
            },
            Entry::Note(_) => text(&chars_of("note")),
        }
    } else {
        proof {
            reveal_strlit("");
        }
        let s = text(&chars_of(""));
        assert(s@ =~= Seq::<char>::empty());
        s
    }
}

/// The page a command names (from 1), as an index into the order; the
/// answer's error when it names none.
pub open spec fn req_page_spec(page: Option<u64>, count: u64) -> Result<u64, Seq<char>> {
    match page {
        Some(p) => if 1 <= p <= count {
            Ok((p - 1) as u64)
        } else {
            Err("no page "@ + digits(p as nat, 10) + " (document has "@ + digits(count as nat, 10) + ")"@)
        },
        None => Err("page required (the session passes the current page)"@),
    }
}

pub open spec fn res_view(r: Result<u64, String>) -> Result<u64, Seq<char>> {
    match r {
        Ok(v) => Ok(v),
        Err(e) => Err(e@),
    }
}

fn no_page(p: u64, count: u64) -> (s: String)
    ensures
        s@ == "no page "@ + digits(p as nat, 10) + " (document has "@ + digits(count as nat, 10) + ")"@,
{
    let mut v = cat("no page ", &decimal(p), " (document has ");
    let c = decimal(count);
    v.extend_from_slice(c.as_slice());
    let t = chars_of(")");
    v.extend_from_slice(t.as_slice());
    text(&v)
}

pub fn req_page(page: Option<u64>, count: u64) -> (r: Result<u64, String>)
    ensures
        res_view(r) == req_page_spec(page, count),
{
    match page {
        Some(p) => if 1 <= p && p <= count {
            Ok(p - 1)
        } else {
            Err(no_page(p, count))
        },
        None => Err(text(&chars_of("page required (the session passes the current page)"))),
    }
}

/// The page a note goes after: the required `after_page` (from 1), as
/// an index.
pub open spec fn note_after_spec(after: Option<u64>, count: u64) -> Result<u64, Seq<char>> {
    match after {
        Some(p) => if 1 <= p <= count {
            Ok((p - 1) as u64)
        } else {
            Err("no page "@ + digits(p as nat, 10) + " (document has "@ + digits(count as nat, 10) + ")"@)
        },
        None => Err("after_page required (the session passes the current page)"@),
    }
}

pub fn note_after(after: Option<u64>, count: u64) -> (r: Result<u64, String>)
    ensures
        res_view(r) == note_after_spec(after, count),
{
    match after {
        Some(p) => if 1 <= p && p <= count {
            Ok(p - 1)
        } else {
            Err(no_page(p, count))
        },
        None => Err(text(&chars_of("after_page required (the session passes the current page)"))),
    }
}

/// The order with a new note page right after the `after`-th entry.
pub open spec fn insert_note_spec(seq: Seq<Entry>, after: int, note: u64) -> Seq<Entry> {
    seq.take(after + 1).push(Entry::Note(note)) + seq.skip(after + 1)
}

pub fn insert_note(seq: &Vec<Entry>, after: usize, note: u64) -> (r: Vec<Entry>)
    requires
        after < seq@.len(),
    ensures
        r@ == insert_note_spec(seq@, after as int, note),
{
    let mut out: Vec<Entry> = Vec::new();
    let mut i: usize = 0;
    while i < seq.len()
        invariant
            i <= seq@.len(),
            after < seq@.len(),
            out@ =~= if i <= after {
                seq@.take(i as int)
            } else {
                seq@.take(after + 1).push(Entry::Note(note)) + seq@.subrange(after + 1, i as int)
            },
        decreases seq.len() - i,
    {
        out.push(seq[i]);
        if i == after {
            out.push(Entry::Note(note));
        }
        i += 1;
    }
    assert(seq@.subrange(after + 1, seq@.len() as int) =~= seq@.skip(after + 1));
    out
}

/// The pages a text request covers: from `from` (required, from 1) to
/// `to` (default `from`), at most eight pages and never past the end.
pub open spec fn page_range_spec(from: Option<u64>, to: Option<u64>, count: u64) -> Result<(u64, u64), Seq<char>> {
    let f = match from {
        Some(v) => v,
        None => 0,
    };
    if f < 1 || f > count {
        Err("no page "@ + digits(f as nat, 10) + " (document has "@ + digits(count as nat, 10) + ")"@)
    } else {
        let hi = if f + 7 <= count { f + 7 } else { count as int };
        let t = match to {
            Some(v) => v as int,
            None => f as int,
        };
        Ok((f, if t < f { f } else if t > hi { hi as u64 } else { t as u64 }))
    }
}

pub open spec fn range_view(r: Result<(u64, u64), String>) -> Result<(u64, u64), Seq<char>> {
    match r {
        Ok(v) => Ok(v),
        Err(e) => Err(e@),
    }
}

pub fn page_range(from: Option<u64>, to: Option<u64>, count: u64) -> (r: Result<(u64, u64), String>)
    ensures
        range_view(r) == page_range_spec(from, to, count),
{
    let f = match from {
        Some(v) => v,
        None => 0,
    };
    if f < 1 || f > count {
        return Err(no_page(f, count));
    }
    let hi = if count >= 7 && f <= count - 7 { f + 7 } else { count };
    let t = match to {
        Some(v) => v,
        None => f,
    };
    let t = if t < f { f } else if t > hi { hi } else { t };
    Ok((f, t))
}

/// Which occurrence of a phrase a request wants (default and least: the
/// first).
pub fn occurrence(n: Option<u64>) -> (k: u64)
    ensures
        k == match n {
            Some(v) => if v >= 1 { v } else { 1 },
            None => 1,
        },
{
    match n {
        Some(v) => if v >= 1 { v } else { 1 },
        None => 1,
    }
}

/// The error when a phrase cannot be underlined: it does not occur, or
/// not that often.
pub open spec fn phrase_error_spec(total: u64, page: u64) -> Seq<char> {
    if total == 0 {
        "phrase not found on page "@ + digits(page as nat, 10)
            + " — quote it exactly as it appears (matching ignores case and punctuation)"@
    } else {
        "only "@ + digits(total as nat, 10) + " occurrence(s) on page "@ + digits(page as nat, 10)
    }
}

pub fn phrase_error(total: u64, page: u64) -> (s: String)
    ensures
        s@ == phrase_error_spec(total, page),
{
    if total == 0 {
        text(&cat(
            "phrase not found on page ",
            &decimal(page),
            " — quote it exactly as it appears (matching ignores case and punctuation)",
        ))
    } else {
        let mut v = cat("only ", &decimal(total), " occurrence(s) on page ");
        let d = decimal(page);
        v.extend_from_slice(d.as_slice());
        text(&v)
    }
}


/* ---- the page image the model sees ---------------------------------------- */

/// `s[base] + .. + s[base + i - 1]`.
pub open spec fn run_sum(s: Seq<u8>, base: int, i: int) -> int
    decreases i,
{
    if i <= 0 {
        0
    } else {
        run_sum(s, base, i - 1) + s[base + i - 1]
    }
}

/// The first `j` rows of the `div`-by-`div` block of screen pixels behind
/// output pixel (x, y), summed.
pub open spec fn block_sum(s: Seq<u8>, x: int, y: int, div: int, j: int) -> int
    decreases j,
{
    if j <= 0 {
        0
    } else {
        block_sum(s, x, y, div, j - 1) + run_sum(s, (y * div + j - 1) * SCREEN_W + x * div, div)
    }
}

/// An output pixel: the mean of its block, rounded down.
pub open spec fn block_mean(s: Seq<u8>, x: int, y: int, div: int) -> u8 {
    (block_sum(s, x, y, div, div) / (div * div)) as u8
}

proof fn lemma_run_sum_bound(s: Seq<u8>, base: int, i: int)
    requires
        0 <= i,
    ensures
        0 <= run_sum(s, base, i) <= 255 * i,
    decreases i,
{
    if i > 0 {
        lemma_run_sum_bound(s, base, i - 1);
    }
}

proof fn lemma_block_sum_bound(s: Seq<u8>, x: int, y: int, div: int, j: int)
    requires
        0 <= j,
        0 <= div,
    ensures
        0 <= block_sum(s, x, y, div, j) <= 255 * div * j,
    decreases j,
{
    if j > 0 {
        lemma_block_sum_bound(s, x, y, div, j - 1);
        lemma_run_sum_bound(s, (y * div + j - 1) * SCREEN_W + x * div, div);
        assert(255 * div * (j - 1) + 255 * div == 255 * div * j) by (nonlinear_arith);
    }
}

/// The screen image shrunk by `div` in each direction, each output pixel
/// the mean of its `div`-by-`div` block (`SCREEN_W / div` by
/// `SCREEN_H / div`, row-major); white when there is no image.
pub fn downsample(raster: Option<&[u8]>, div: i32) -> (out: Vec<u8>)
    requires
        div > 0,
        div * div <= i32::MAX,
        raster is Some && SCREEN_W / div > 0 && SCREEN_H / div > 0 ==> raster->0@.len() >= ((SCREEN_H / div)
            * div - 1) * SCREEN_W + (SCREEN_W / div) * div,
    ensures
        ({
            let (w, h) = (SCREEN_W / div, SCREEN_H / div);
            &&& out@.len() == w * h
            &&& forall|d: int| 0 <= d < out@.len() ==> #[trigger] out@[d] == if raster is Some && w > 0 && h > 0 {
                block_mean(raster->0@, d % w, d / w, div as int)
            } else {
                255u8
            }
        }),
{
    let (w, h) = (SCREEN_W / div, SCREEN_H / div);
    proof {
        assert(0 <= w <= SCREEN_W && 0 <= h <= SCREEN_H);
        assert(0 <= w * h <= SCREEN_W * SCREEN_H) by (nonlinear_arith)
            requires
                0 <= w <= SCREEN_W,
                0 <= h <= SCREEN_H,
        ;
        assert(0 < div * div) by (nonlinear_arith)
            requires
                div > 0,
        ;
    }
    if raster.is_none() || w <= 0 || h <= 0 {
        let out = vec![255u8; (w * h) as usize];
        assert forall|d: int| 0 <= d < out@.len() implies #[trigger] out@[d] == 255u8 by {
            assert(cloned(255u8, out@[d]));
        }
        return out;
    }
    let src = raster.unwrap();
    let ghost g = src@;
    let slen = src.len();
    let n = (div * div) as u32;
    proof {
        assert(div <= SCREEN_W) by (nonlinear_arith)
            requires
                w == SCREEN_W / div,
                w > 0,
                div > 0,
        ;
        assert(0 < w * div <= SCREEN_W && 0 < h * div <= SCREEN_H) by (nonlinear_arith)
            requires
                w == SCREEN_W / div,
                h == SCREEN_H / div,
                w > 0,
                h > 0,
                0 < div,
        ;
    }
    let mut out: Vec<u8> = Vec::new();
    let mut y: i32 = 0;
    while y < h
        invariant
            0 <= y <= h,
            0 < div <= SCREEN_W,
            w == SCREEN_W / div,
            h == SCREEN_H / div,
            0 < w,
            0 < h,
            0 < w * div <= SCREEN_W,
            0 < h * div <= SCREEN_H,
            n == div * div,
            n > 0,
            g == src@,
            slen == g.len(),
            g.len() >= (h * div - 1) * SCREEN_W + w * div,
            out@.len() == y * w,
            forall|d: int| 0 <= d < out@.len() ==> #[trigger] out@[d] == block_mean(g, d % w as int, d / w as int, div as int),
        decreases h - y,
    {
        let mut x: i32 = 0;
        while x < w
            invariant
                0 <= y < h,
                0 <= x <= w,
                0 < div <= SCREEN_W,
                w == SCREEN_W / div,
                h == SCREEN_H / div,
                0 < w,
                0 < w * div <= SCREEN_W,
                0 < h * div <= SCREEN_H,
                n == div * div,
                n > 0,
                g == src@,
                slen == g.len(),
                g.len() >= (h * div - 1) * SCREEN_W + w * div,
                out@.len() == y * w + x,
                forall|d: int| 0 <= d < out@.len() ==> #[trigger] out@[d] == block_mean(g, d % w as int, d / w as int, div as int),
            decreases w - x,
        {
            let mut acc: u32 = 0;
            let mut j: i32 = 0;
            while j < div
                invariant
                    0 <= y < h,
                    0 <= x < w,
                    0 <= j <= div,
                    0 < div <= SCREEN_W,
                    0 < w * div <= SCREEN_W,
                    0 < h * div <= SCREEN_H,
                    g == src@,
                    slen == g.len(),
                    g.len() >= (h * div - 1) * SCREEN_W + w * div,
                    acc == block_sum(g, x as int, y as int, div as int, j as int),
                decreases div - j,
            {
                let mut i: i32 = 0;
                let ghost base: int = (y * div + j) * SCREEN_W + x * div;
                proof {
                    assert(0 <= (y * div + j) * SCREEN_W + x * div && (y * div + j) * SCREEN_W + x * div + div <= (h * div - 1) * SCREEN_W + w * div) by (nonlinear_arith)
                        requires
                            0 <= y < h,
                            0 <= x < w,
                            0 <= j < div,
                            0 < div,
                    ;
                    lemma_block_sum_bound(g, x as int, y as int, div as int, j as int);
                    assert(255 * div * j + 255 * div <= 255 * div * div) by (nonlinear_arith)
                        requires
                            0 <= j < div,
                            0 < div,
                    ;
                    assert(255 * div * div <= 255 * SCREEN_W * SCREEN_W) by (nonlinear_arith)
                        requires
                            0 < div <= SCREEN_W,
                    ;
                }
                proof {
                    assert(0 <= y * div + j < SCREEN_H && 0 <= x * div < SCREEN_W) by (nonlinear_arith)
                        requires
                            0 <= y < h,
                            0 <= x < w,
                            0 <= j < div,
                            0 < div,
                            w * div <= SCREEN_W,
                            h * div <= SCREEN_H,
                    ;
                }
                let ry = (y * div + j) as usize;
                let rx = (x * div) as usize;
                proof {
                    assert(ry * SCREEN_W + rx < SCREEN_H * SCREEN_W) by (nonlinear_arith)
                        requires
                            ry < SCREEN_H,
                            rx < SCREEN_W,
                    ;
                }
                let row = ry * (SCREEN_W as usize) + rx;
                assert(row == base);
                let ghost acc0 = acc as int;
                while i < div
                    invariant
                        0 <= i <= div,
                        0 < div <= SCREEN_W,
                        row == base,
                        0 <= base,
                        base + div <= g.len(),
                        g == src@,
                        slen == g.len(),
                        acc0 + 255 * div <= 255 * SCREEN_W * SCREEN_W,
                        acc == acc0 + run_sum(g, base, i as int),
                    decreases div - i,
                {
                    proof {
                        lemma_run_sum_bound(g, base, i as int);
                    }
                    acc += src[row + i as usize] as u32;
                    i += 1;
                }
                j += 1;
            }
            proof {
                lemma_block_sum_bound(g, x as int, y as int, div as int, div as int);
                assert(block_sum(g, x as int, y as int, div as int, div as int) / (div * div) <= 255) by (nonlinear_arith)
                    requires
                        0 <= block_sum(g, x as int, y as int, div as int, div as int) <= 255 * div * div,
                        0 < div,
                ;
            }
            let v = (acc / n) as u8;
            let ghost d0 = out@.len() as int;
            out.push(v);
            proof {
                assert(d0 == y * w + x);
                assert(d0 % w as int == x && d0 / w as int == y) by (nonlinear_arith)
                    requires
                        d0 == y * w + x,
                        0 <= x < w,
                        0 <= y,
                ;
            }
            x += 1;
        }
        assert(y * w + w == (y + 1) * w) by (nonlinear_arith);
        y += 1;
    }
    proof {
        assert(out@.len() == w * h) by (nonlinear_arith)
            requires
                out@.len() == h * w,
        ;
    }
    out
}


/* ---- commands --------------------------------------------------------------- */

/// A canvas command as read from its JSON line (absent fields None).
pub struct CmdReq {
    pub cmd: String,
    pub page: Option<u64>,
    pub svg: Option<String>,
    pub phrase: Option<String>,
    pub occurrence: Option<u64>,
    pub id: Option<u64>,
    pub after_page: Option<u64>,
    pub from: Option<u64>,
    pub to: Option<u64>,
}

/// What to do for a command: answer with an error at once, or the
/// checked operation for the caller to carry out on the document.
pub enum Plan {
    Fail(String),
    /// Show page `idx`.
    View(usize),
    /// Add the drawing to page `idx`.
    Draw(usize, String),
    /// Underline the `nth` occurrence of the phrase on page `idx`, the
    /// PDF's page `pdf`.
    Underline(usize, u64, String, u64),
    /// Remove patch `id` from page `idx`.
    Erase(usize, u64),
    /// Insert a note page after page index `after`.
    InsertNote(u64),
    /// The printed text of pages `from..=to` (from 1).
    PageText(u64, u64),
}

pub enum PlanV {
    Fail(Seq<char>),
    View(usize),
    Draw(usize, Seq<char>),
    Underline(usize, u64, Seq<char>, u64),
    Erase(usize, u64),
    InsertNote(u64),
    PageText(u64, u64),
}

impl View for Plan {
    type V = PlanV;

    open spec fn view(&self) -> PlanV {
        match self {
            Plan::Fail(e) => PlanV::Fail(e@),
            Plan::View(i) => PlanV::View(*i),
            Plan::Draw(i, s) => PlanV::Draw(*i, s@),
            Plan::Underline(i, p, s, n) => PlanV::Underline(*i, *p, s@, *n),
            Plan::Erase(i, id) => PlanV::Erase(*i, *id),
            Plan::InsertNote(a) => PlanV::InsertNote(*a),
            Plan::PageText(f, t) => PlanV::PageText(*f, *t),
        }
    }
}

pub open spec fn opt_text(o: Option<String>) -> Option<Seq<char>> {
    match o {
        Some(s) => Some(s@),
        None => None,
    }
}

/// The plan for a command against a document whose reading order is `seq`.
pub open spec fn plan_spec(cmd: Seq<char>, page: Option<u64>, svg: Option<Seq<char>>, phrase: Option<Seq<char>>, occ: Option<u64>, id: Option<u64>, after: Option<u64>, from: Option<u64>, to: Option<u64>, seq: Seq<Entry>) -> PlanV {
    let count = seq.len() as u64;
    if cmd == "view"@ {
        match req_page_spec(page, count) {
            Ok(i) => PlanV::View(i as usize),
            Err(e) => PlanV::Fail(e),
        }
    } else if cmd == "draw"@ {
        match svg {
            None => PlanV::Fail("missing 'svg'"@),
            Some(v) => match req_page_spec(page, count) {
                Ok(i) => PlanV::Draw(i as usize, v),
                Err(e) => PlanV::Fail(e),
            },
        }
    } else if cmd == "underline"@ {
        match phrase {
            Some(ph) if trim(ph).len() > 0 => match req_page_spec(page, count) {
                Ok(i) => match seq[i as int] {
                    Entry::Pdf(p) => PlanV::Underline(i as usize, p, ph, match occ {
                        Some(v) => if v >= 1 { v } else { 1 },
                        None => 1,
                    }),
                    Entry::Note(_) => PlanV::Fail("nothing printed on that page to underline"@),
                },
                Err(e) => PlanV::Fail(e),
            },
            _ => PlanV::Fail("missing 'phrase'"@),
        }
    } else if cmd == "erase"@ {
        match id {
            None => PlanV::Fail("missing 'id'"@),
            Some(v) => match req_page_spec(page, count) {
                Ok(i) => PlanV::Erase(i as usize, v),
                Err(e) => PlanV::Fail(e),
            },
        }
    } else if cmd == "insert_note"@ {
        match note_after_spec(after, count) {
            Ok(a) => PlanV::InsertNote(a),
            Err(e) => PlanV::Fail(e),
        }
    } else if cmd == "page_text"@ {
        match page_range_spec(from, to, count) {
            Ok((f, t)) => PlanV::PageText(f, t),
            Err(e) => PlanV::Fail(e),
        }
    } else {
        PlanV::Fail("unknown cmd '"@ + cmd + "'"@)
    }
}

fn is_cmd(c: &Vec<char>, lit: &str) -> (b: bool)
    ensures
        b == (c@ == lit@),
{
    let l = chars_of(lit);
    if c.len() != l.len() {
        return false;
    }
    let mut i: usize = 0;
    while i < c.len()
        invariant
            i <= c@.len(),
            c@.len() == l@.len(),
            l@ == lit@,
            forall|k: int| 0 <= k < i ==> c@[k] == l@[k],
        decreases c.len() - i,
    {
        if c[i] != l[i] {
            assert(c@[i as int] != l@[i as int]);
            return false;
        }
        i += 1;
    }
    assert(c@ =~= l@);
    true
}

/// Check a command and decide what it does.
pub fn plan(req: CmdReq, seq: &Vec<Entry>) -> (p: Plan)
    ensures
        p@ == plan_spec(
            req.cmd@,
            req.page,
            opt_text(req.svg),
            opt_text(req.phrase),
            req.occurrence,
            req.id,
            req.after_page,
            req.from,
            req.to,
            seq@,
        ),
{
    let count = seq.len() as u64;
    let c = chars_of(req.cmd.as_str());
    if is_cmd(&c, "view") {
        match req_page(req.page, count) {
            Ok(i) => Plan::View(i as usize),
            Err(e) => Plan::Fail(e),
        }
    } else if is_cmd(&c, "draw") {
        match req.svg {
            None => Plan::Fail(text(&chars_of("missing 'svg'"))),
            Some(v) => match req_page(req.page, count) {
                Ok(i) => Plan::Draw(i as usize, v),
                Err(e) => Plan::Fail(e),
            },
        }
    } else if is_cmd(&c, "underline") {
        let ph = match req.phrase {
            Some(ph) => ph,
            None => {
                return Plan::Fail(text(&chars_of("missing 'phrase'")));
            },
        };
        let pc = chars_of(ph.as_str());
        let (a, b) = trim_range(pc.as_slice(), 0, pc.len());
        assert(pc@.subrange(0, pc@.len() as int) =~= pc@);
        if a == b {
            return Plan::Fail(text(&chars_of("missing 'phrase'")));
        }
        match req_page(req.page, count) {
            Ok(i) => match seq[i as usize] {
                Entry::Pdf(p) => Plan::Underline(i as usize, p, ph, occurrence(req.occurrence)),
                Entry::Note(_) => Plan::Fail(text(&chars_of("nothing printed on that page to underline"))),
            },
            Err(e) => Plan::Fail(e),
        }
    } else if is_cmd(&c, "erase") {
        match req.id {
            None => Plan::Fail(text(&chars_of("missing 'id'"))),
            Some(v) => match req_page(req.page, count) {
                Ok(i) => Plan::Erase(i as usize, v),
                Err(e) => Plan::Fail(e),
            },
        }
    } else if is_cmd(&c, "insert_note") {
        match note_after(req.after_page, count) {
            Ok(a) => Plan::InsertNote(a),
            Err(e) => Plan::Fail(e),
        }
    } else if is_cmd(&c, "page_text") {
        match page_range(req.from, req.to, count) {
            Ok((f, t)) => Plan::PageText(f, t),
            Err(e) => Plan::Fail(e),
        }
    } else {
        let mut v = chars_of("unknown cmd '");
        v.extend_from_slice(c.as_slice());
        v.push('\'');
        assert(v@ =~= "unknown cmd '"@ + req.cmd@ + "'"@) by {
            reveal_strlit("'");
        }
        Plan::Fail(text(&v))
    }
}

/// The answer when the patch to erase is not on the page (`page` from 1).
pub open spec fn no_patch_spec(id: u64, page: u64) -> Seq<char> {
    "no patch #"@ + digits(id as nat, 10) + " on page "@ + digits(page as nat, 10)
}

pub fn no_patch_error(id: u64, page: u64) -> (s: String)
    ensures
        s@ == no_patch_spec(id, page),
{
    let mut v = cat("no patch #", &decimal(id), " on page ");
    let d = decimal(page);
    v.extend_from_slice(d.as_slice());
    text(&v)
}

/// One page's part of a page-text answer: `i` is the page (from 0); a
/// printed page gives its text, a note page a pointer to its image.
pub open spec fn page_text_part_spec(i: u64, e: Entry, body: Seq<char>) -> Seq<char> {
    match e {
        Entry::Pdf(p) => "--- page "@ + digits((i + 1) as nat, 10) + " (p."@ + digits((p + 1) as nat, 10) + ") ---\n"@ + body
            + "\n"@,
        Entry::Note(_) => "--- page "@ + digits((i + 1) as nat, 10)
            + " (note page \u{2014} handwriting only, use canvas_view) ---\n"@,
    }
}

pub fn page_text_part(i: u64, e: Entry, body: &str) -> (s: String)
    requires
        i < u64::MAX,
        e matches Entry::Pdf(p) ==> p < u64::MAX,
    ensures
        s@ == page_text_part_spec(i, e, body@),
{
    let mut v = cat("--- page ", &decimal(i + 1), "");
    match e {
        Entry::Pdf(p) => {
            let t = cat(" (p.", &decimal(p + 1), ") ---\n");
            v.extend_from_slice(t.as_slice());
            let b = cat("", &chars_of(body), "\n");
            v.extend_from_slice(b.as_slice());
            proof {
                reveal_strlit("");
            }
            assert(v@ =~= page_text_part_spec(i, e, body@));
        },
        Entry::Note(_) => {
            let t = chars_of(" (note page \u{2014} handwriting only, use canvas_view) ---\n");
            v.extend_from_slice(t.as_slice());
            proof {
                reveal_strlit("");
            }
            assert(v@ =~= page_text_part_spec(i, e, body@));
        },
    }
    text(&v)
}

} // verus!
