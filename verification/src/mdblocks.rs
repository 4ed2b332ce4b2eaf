//! The markdown reader's block structure: the front matter's title, and
//! each line of the document classified as what it shows (fences and
//! code, aside markers, display math, blank lines and rules, headings,
//! table rows, list items and paragraph lines, in an aside or a quote or
//! not). Wrapping the text to the page is the renderer's, by font metrics.

use vstd::prelude::*;
use crate::mdview::{list_marker_spec, split_list_marker, strip_anchor, strip_anchor_spec, strip_inline_noise, strip_noise_spec};
use crate::strs::{chars_of, string_of};
use crate::wrap::push_piece;
use crate::text::{has_prefix, skip_ws, starts_with, trim, trim_end, trim_end_at, trim_range, trim_start};

verus! {

/* ---- lines ------------------------------------------------------------------ */

/// A line without the carriage return of a CRLF ending.
pub open spec fn strip_cr(l: Seq<char>) -> Seq<char> {
    if l.len() > 0 && l.last() == '\r' {
        l.drop_last()
    } else {
        l
    }
}

/// The lines of `s` from `i`, the current one begun at `start` (as
/// `str::lines`: split at line feeds, a CR before a line feed dropped, no
/// empty line after a final line feed).
pub open spec fn lines_from(s: Seq<char>, start: int, i: int) -> Seq<Seq<char>>
    decreases s.len() - i,
{
    if i >= s.len() || i < start || start < 0 {
        if 0 <= start < s.len() {
            seq![s.subrange(start, s.len() as int)]
        } else {
            Seq::empty()
        }
    } else if s[i] == '\n' {
        seq![strip_cr(s.subrange(start, i))] + lines_from(s, i + 1, i + 1)
    } else {
        lines_from(s, start, i + 1)
    }
}

pub open spec fn md_lines(s: Seq<char>) -> Seq<Seq<char>> {
    lines_from(s, 0, 0)
}

fn slice_of(v: &Vec<char>, from: usize, to: usize) -> (r: Vec<char>)
    requires
        from <= to <= v@.len(),
    ensures
        r@ == v@.subrange(from as int, to as int),
{
    let mut r: Vec<char> = Vec::new();
    let mut k = from;
    while k < to
        invariant
            from <= k <= to <= v@.len(),
            r@ == v@.subrange(from as int, k as int),
        decreases to - k,
    {
        r.push(v[k]);
        k += 1;
        assert(r@ =~= v@.subrange(from as int, k as int));
    }
    r
}

/// The lines of a text.
pub fn split_lines(s: &Vec<char>) -> (ls: Vec<Vec<char>>)
    ensures
        ls.deep_view() == md_lines(s@),
{
    let n = s.len();
    let mut out: Vec<Vec<char>> = Vec::new();
    let mut start: usize = 0;
    let mut i: usize = 0;
    while i < n
        invariant
            0 <= start <= i <= n,
            n == s@.len(),
            md_lines(s@) == out.deep_view() + lines_from(s@, start as int, i as int),
        decreases n - i,
    {
        if s[i] == '\n' {
            let mut l = slice_of(s, start, i);
            if l.len() > 0 && l[l.len() - 1] == '\r' {
                l.pop();
            }
            assert(l@ == strip_cr(s@.subrange(start as int, i as int)));
            let ghost before = out.deep_view();
            push_piece(&mut out, l);
            assert(out.deep_view() =~= before.push(strip_cr(s@.subrange(start as int, i as int))));
            assert(before + (seq![strip_cr(s@.subrange(start as int, i as int))] + lines_from(s@, i + 1, i + 1))
                =~= before.push(strip_cr(s@.subrange(start as int, i as int))) + lines_from(s@, i + 1, i + 1));
            start = i + 1;
        }
        i += 1;
    }
    if start < n {
        let l = slice_of(s, start, n);
        let ghost before = out.deep_view();
        push_piece(&mut out, l);
        assert(out.deep_view() =~= before + seq![s@.subrange(start as int, n as int)]);
    } else {
        assert(out.deep_view() + Seq::<Seq<char>>::empty() =~= out.deep_view());
    }
    out
}

/* ---- front matter ----------------------------------------------------------- */

pub open spec fn trim_quotes_start(s: Seq<char>) -> Seq<char>
    decreases s.len(),
{
    if s.len() > 0 && s[0] == '"' {
        trim_quotes_start(s.drop_first())
    } else {
        s
    }
}

pub open spec fn trim_quotes_end(s: Seq<char>) -> Seq<char>
    decreases s.len(),
{
    if s.len() > 0 && s.last() == '"' {
        trim_quotes_end(s.drop_last())
    } else {
        s
    }
}

/// A title value: trimmed, then every leading and trailing `"` removed.
pub open spec fn title_value(v: Seq<char>) -> Seq<char> {
    trim_quotes_end(trim_quotes_start(trim(v)))
}

/// Reading the front matter from line `j`: the last `title:` seen, and
/// the line the body starts at (after the closing `---`).
pub open spec fn front_scan(ls: Seq<Seq<char>>, j: int, title: Option<Seq<char>>) -> (Option<Seq<char>>, int)
    decreases ls.len() - j,
{
    if j < 0 || j >= ls.len() {
        (title, ls.len() as int)
    } else if trim(ls[j]) == "---"@ {
        (title, j + 1)
    } else {
        front_scan(
            ls,
            j + 1,
            if starts_with(ls[j], "title:"@) {
                Some(title_value(ls[j].skip(6)))
            } else {
                title
            },
        )
    }
}

/// The title and where the body starts: a document opening with `---`
/// has front matter from its second line to the next `---` line.
pub open spec fn front_spec(md: Seq<char>) -> (Option<Seq<char>>, int) {
    if starts_with(md, "---"@) {
        front_scan(md_lines(md), 1, None)
    } else {
        (None, 0)
    }
}

/* ---- blocks ------------------------------------------------------------------ */

/// What a line of the document shows.
#[derive(Debug)]
pub enum Block {
    /// A ``` fence (a small gap).
    Fence,
    /// A line inside a fence, shown in mono as it stands.
    Code(String),
    /// A `:::` aside marker (a small gap).
    AsideMark,
    /// A line of display math.
    Math(String),
    /// A blank line (a gap).
    Blank,
    /// A horizontal rule.
    Rule,
    /// A heading of level 1 to 4 and its text (anchor dropped).
    Heading(u8, String),
    /// A table row, cells spread apart, shown in mono.
    Table(String),
    /// A list item: its marker and text, in an aside or quote or not.
    Item(String, String, bool),
    /// A paragraph line, in an aside or quote or not.
    Para(String, bool),
}

pub enum BlockV {
    Fence,
    Code(Seq<char>),
    AsideMark,
    Math(Seq<char>),
    Blank,
    Rule,
    Heading(u8, Seq<char>),
    Table(Seq<char>),
    Item(Seq<char>, Seq<char>, bool),
    Para(Seq<char>, bool),
}

impl View for Block {
    type V = BlockV;

    open spec fn view(&self) -> BlockV {
        match self {
            Block::Fence => BlockV::Fence,
            Block::Code(s) => BlockV::Code(s@),
            Block::AsideMark => BlockV::AsideMark,
            Block::Math(s) => BlockV::Math(s@),
            Block::Blank => BlockV::Blank,
            Block::Rule => BlockV::Rule,
            Block::Heading(l, s) => BlockV::Heading(*l, s@),
            Block::Table(s) => BlockV::Table(s@),
            Block::Item(m, s, a) => BlockV::Item(m@, s@, *a),
            Block::Para(s, a) => BlockV::Para(s@, *a),
        }
    }
}

pub open spec fn blocks_view(v: Seq<Block>) -> Seq<BlockV> {
    Seq::new(v.len(), |i: int| v[i]@)
}

/// Inside a fence, an aside, a display-math block.
#[derive(Clone, Copy, PartialEq, Eq, Structural, Debug)]
pub struct MdState {
    pub code: bool,
    pub aside: bool,
    pub math: bool,
}

/// Number of leading `#`.
pub open spec fn hash_run(t: Seq<char>) -> int
    decreases t.len(),
{
    if t.len() > 0 && t[0] == '#' {
        1 + hash_run(t.drop_first())
    } else {
        0
    }
}

/// A heading line: its level (at most 4) and text.
pub open spec fn heading_spec(t: Seq<char>) -> Option<(u8, Seq<char>)> {
    let n = hash_run(t);
    let txt = trim_start(t.skip(n));
    if n >= 1 && txt.len() > 0 {
        Some((if n > 4 { 4u8 } else { n as u8 }, txt))
    } else {
        None
    }
}

pub open spec fn trim_bars_start(s: Seq<char>) -> Seq<char>
    decreases s.len(),
{
    if s.len() > 0 && s[0] == '|' {
        trim_bars_start(s.drop_first())
    } else {
        s
    }
}

pub open spec fn trim_bars_end(s: Seq<char>) -> Seq<char>
    decreases s.len(),
{
    if s.len() > 0 && s.last() == '|' {
        trim_bars_end(s.drop_last())
    } else {
        s
    }
}

/// Every `|` replaced by three spaces.
pub open spec fn spread_bars(s: Seq<char>) -> Seq<char>
    decreases s.len(),
{
    if s.len() == 0 {
        Seq::empty()
    } else {
        spread_bars(s.drop_last()) + if s.last() == '|' {
            seq![' ', ' ', ' ']
        } else {
            seq![s.last()]
        }
    }
}

/// A table row's cells: outer bars removed, inner bars spread apart.
pub open spec fn table_cells(t: Seq<char>) -> Seq<char> {
    spread_bars(trim_bars_end(trim_bars_start(t)))
}

/// A separator row holds only `-`, `:` and spaces.
pub open spec fn sep_row(c: Seq<char>) -> bool {
    forall|k: int| 0 <= k < c.len() ==> c[k] == '-' || c[k] == ':' || c[k] == ' '
}

/// One raw line in state `st`: what it shows (nothing for a `$$` toggle
/// or a table's separator row) and the state after it.
pub open spec fn classify_spec(raw: Seq<char>, st: MdState) -> (Option<BlockV>, MdState) {
    let l = trim_end(raw);
    let t = trim_start(l);
    if starts_with(t, "```"@) {
        (Some(BlockV::Fence), MdState { code: !st.code, ..st })
    } else if st.code {
        (Some(BlockV::Code(l)), st)
    } else if starts_with(t, ":::"@) {
        (Some(BlockV::AsideMark), MdState { aside: trim(t.skip(3)).len() > 0, ..st })
    } else if t == "$$"@ {
        (None, MdState { math: !st.math, ..st })
    } else if st.math {
        (Some(BlockV::Math(t)), st)
    } else if t.len() == 0 {
        (Some(BlockV::Blank), st)
    } else if t == "---"@ || t == "***"@ || t == "___"@ {
        (Some(BlockV::Rule), st)
    } else if heading_spec(t) is Some {
        let (lv, txt) = heading_spec(t)->0;
        (Some(BlockV::Heading(lv, strip_anchor_spec(txt))), st)
    } else if t[0] == '|' {
        let cells = table_cells(t);
        if sep_row(cells) {
            (None, st)
        } else {
            (Some(BlockV::Table(strip_noise_spec(cells))), st)
        }
    } else {
        let (u, aside_here) = if starts_with(t, "> "@) {
            (t.skip(2), true)
        } else {
            (t, st.aside)
        };
        match list_marker_spec(u) {
            (Some(m), rest) => (Some(BlockV::Item(m, rest, aside_here)), st),
            (None, _) => (Some(BlockV::Para(u, aside_here)), st),
        }
    }
}

/// The blocks of lines `k..` in state `st`.
pub open spec fn blocks_from(ls: Seq<Seq<char>>, k: int, st: MdState) -> Seq<BlockV>
    decreases ls.len() - k,
{
    if k < 0 || k >= ls.len() {
        Seq::empty()
    } else {
        let (b, st2) = classify_spec(ls[k], st);
        (if b is Some {
            seq![b->0]
        } else {
            Seq::empty()
        }) + blocks_from(ls, k + 1, st2)
    }
}

/// The document's blocks, after its front matter.
pub open spec fn md_blocks_spec(md: Seq<char>) -> Seq<BlockV> {
    blocks_from(md_lines(md), front_spec(md).1, MdState { code: false, aside: false, math: false })
}

pub open spec fn front_title_spec(md: Seq<char>) -> Option<Seq<char>> {
    front_spec(md).0
}

pub open spec fn opt_string(o: Option<String>) -> Option<Seq<char>> {
    match o {
        Some(s) => Some(s@),
        None => None,
    }
}


/// A table row outside a fence and a math block: it is dropped exactly
/// when every character of its cells (outer bars trimmed, inner bars
/// spread to spaces) is `-`, `:` or a space; a row holding any other
/// character shows as a table line of its cleaned cells.
pub proof fn lemma_table_row_shown_unless_separator(raw: Seq<char>, st: MdState)
    requires
        !st.code,
        !st.math,
        trim_start(trim_end(raw)).len() > 0,
        trim_start(trim_end(raw))[0] == '|',
    ensures
        ({
            let c = table_cells(trim_start(trim_end(raw)));
            &&& (exists|k: int| 0 <= k < c.len() && c[k] != '-' && c[k] != ':' && c[k] != ' ') ==> classify_spec(raw, st)
                == (Some(BlockV::Table(strip_noise_spec(c))), st)
            &&& (forall|k: int| 0 <= k < c.len() ==> c[k] == '-' || c[k] == ':' || c[k] == ' ') ==> classify_spec(raw, st)
                == (None::<BlockV>, st)
        }),
{
    let t = trim_start(trim_end(raw));
    reveal_strlit("```");
    reveal_strlit(":::");
    reveal_strlit("$$");
    reveal_strlit("---");
    reveal_strlit("***");
    reveal_strlit("___");
    if t.len() >= 3 {
        assert(t.take(3)[0] == t[0]);
    }
    assert(!starts_with(t, "```"@));
    assert(!starts_with(t, ":::"@));
    assert(t != "$$"@);
    assert(t != "---"@ && t != "***"@ && t != "___"@);
    assert(hash_run(t) == 0);
    assert(heading_spec(t) is None);
}

/* ---- reading it ------------------------------------------------------------- */

fn eq_lit(t: &Vec<char>, lit: &str) -> (b: bool)
    ensures
        b == (t@ == lit@),
{
    let l = chars_of(lit);
    if t.len() != l.len() {
        return false;
    }
    let mut i: usize = 0;
    while i < t.len()
        invariant
            i <= t@.len(),
            t@.len() == l@.len(),
            l@ == lit@,
            forall|k: int| 0 <= k < i ==> t@[k] == l@[k],
        decreases t.len() - i,
    {
        if t[i] != l[i] {
            assert(t@[i as int] != l@[i as int]);
            return false;
        }
        i += 1;
    }
    assert(t@ =~= l@);
    true
}

fn starts(t: &Vec<char>, lit: &str) -> (b: bool)
    ensures
        b == starts_with(t@, lit@),
{
    let l = chars_of(lit);
    has_prefix(t.as_slice(), l.as_slice())
}

fn trimmed(v: &Vec<char>) -> (r: Vec<char>)
    ensures
        r@ == trim(v@),
{
    let (a, b) = trim_range(v.as_slice(), 0, v.len());
    assert(v@.subrange(0, v@.len() as int) =~= v@);
    slice_of(v, a, b)
}

fn text_of(v: &Vec<char>) -> (s: String)
    ensures
        s@ == v@,
{
    let s = string_of(v.as_slice(), 0, v.len());
    assert(s@ =~= v@);
    s
}

fn title_of(v: &Vec<char>) -> (r: Vec<char>)
    ensures
        r@ == title_value(v@),
{
    let t = trimmed(v);
    let mut i: usize = 0;
    assert(t@.skip(0) =~= t@);
    while i < t.len() && t[i] == '"'
        invariant
            i <= t@.len(),
            trim_quotes_start(t@) == trim_quotes_start(t@.skip(i as int)),
        decreases t.len() - i,
    {
        assert(t@.skip(i as int).drop_first() =~= t@.skip(i + 1));
        i += 1;
    }
    assert(trim_quotes_start(t@.skip(i as int)) == t@.skip(i as int));
    let u = slice_of(&t, i, t.len());
    assert(u@ =~= t@.skip(i as int));
    let mut j: usize = u.len();
    assert(u@.take(u@.len() as int) =~= u@);
    while j > 0 && u[j - 1] == '"'
        invariant
            j <= u@.len(),
            trim_quotes_end(u@) == trim_quotes_end(u@.take(j as int)),
        decreases j,
    {
        assert(u@.take(j as int).drop_last() =~= u@.take(j - 1));
        j -= 1;
    }
    assert(trim_quotes_end(u@.take(j as int)) == u@.take(j as int));
    assert(u@.take(u@.len() as int) =~= u@);
    let r = slice_of(&u, 0, j);
    assert(r@ =~= u@.take(j as int));
    r
}

/// The title and where the body starts.
fn front(ls: &Vec<Vec<char>>) -> (r: (Option<Vec<char>>, usize))
    ensures
        ((match r.0 {
            Some(t) => Some(t@),
            None => None,
        }), r.1 as int) == front_scan(ls.deep_view(), 1, None),
{
    let ghost d = ls.deep_view();
    let mut title: Option<Vec<char>> = None;
    let mut j: usize = 1;
    if ls.len() == 0 {
        return (None, 0);
    }
    while j < ls.len()
        invariant
            1 <= j <= ls@.len(),
            d == ls.deep_view(),
            d.len() == ls@.len(),
            front_scan(d, 1, None) == front_scan(
                d,
                j as int,
                match title {
                    Some(t) => Some(t@),
                    None => None,
                },
            ),
        decreases ls.len() - j,
    {
        let l = &ls[j];
        assert(d[j as int] =~= l@);
        let t = trimmed(l);
        if eq_lit(&t, "---") {
            return (title, j + 1);
        }
        if starts(l, "title:") {
            proof {
                reveal_strlit("title:");
            }
            let rest = slice_of(l, 6, l.len());
            assert(rest@ =~= l@.skip(6));
            title = Some(title_of(&rest));
        }
        j += 1;
    }
    (title, ls.len())
}

proof fn lemma_hash_run(t: Seq<char>, k: int)
    requires
        0 <= k <= t.len(),
        forall|j: int| 0 <= j < k ==> #[trigger] t[j] == '#',
    ensures
        hash_run(t) == k + hash_run(t.skip(k)),
    decreases k,
{
    if k > 0 {
        lemma_hash_run(t.drop_first(), k - 1);
        assert(t.drop_first().skip(k - 1) =~= t.skip(k));
    } else {
        assert(t.skip(0) =~= t);
    }
}

fn heading_of(t: &Vec<char>) -> (r: Option<(u8, Vec<char>)>)
    ensures
        match r {
            Some((lv, txt)) => heading_spec(t@) == Some((lv, txt@)),
            None => heading_spec(t@) is None,
        },
{
    let mut n: usize = 0;
    while n < t.len() && t[n] == '#'
        invariant
            n <= t@.len(),
            forall|j: int| 0 <= j < n ==> #[trigger] t@[j] == '#',
        decreases t.len() - n,
    {
        n += 1;
    }
    proof {
        lemma_hash_run(t@, n as int);
        if n < t@.len() {
            assert(hash_run(t@.skip(n as int)) == 0);
        } else {
            assert(t@.skip(n as int).len() == 0);
        }
    }
    let i = skip_ws(t.as_slice(), n);
    let txt = slice_of(t, i, t.len());
    assert(txt@ =~= t@.skip(i as int));
    if n >= 1 && txt.len() > 0 {
        let lv: u8 = if n > 4 { 4 } else { n as u8 };
        Some((lv, txt))
    } else {
        None
    }
}

fn table_cells_of(t: &Vec<char>) -> (r: Vec<char>)
    ensures
        r@ == table_cells(t@),
{
    let mut i: usize = 0;
    assert(t@.skip(0) =~= t@);
    while i < t.len() && t[i] == '|'
        invariant
            i <= t@.len(),
            trim_bars_start(t@) == trim_bars_start(t@.skip(i as int)),
        decreases t.len() - i,
    {
        assert(t@.skip(i as int).drop_first() =~= t@.skip(i + 1));
        i += 1;
    }
    assert(trim_bars_start(t@.skip(i as int)) == t@.skip(i as int));
    let u = slice_of(t, i, t.len());
    assert(u@ =~= t@.skip(i as int));
    let mut j: usize = u.len();
    assert(u@.take(u@.len() as int) =~= u@);
    while j > 0 && u[j - 1] == '|'
        invariant
            j <= u@.len(),
            trim_bars_end(u@) == trim_bars_end(u@.take(j as int)),
        decreases j,
    {
        assert(u@.take(j as int).drop_last() =~= u@.take(j - 1));
        j -= 1;
    }
    assert(trim_bars_end(u@.take(j as int)) == u@.take(j as int));
    assert(u@.take(u@.len() as int) =~= u@);
    let mut out: Vec<char> = Vec::new();
    let mut k: usize = 0;
    while k < j
        invariant
            k <= j <= u@.len(),
            out@ == spread_bars(u@.take(k as int)),
        decreases j - k,
    {
        assert(u@.take(k + 1).drop_last() =~= u@.take(k as int));
        if u[k] == '|' {
            out.push(' ');
            out.push(' ');
            out.push(' ');
        } else {
            out.push(u[k]);
        }
        proof {
            let ghost pre = spread_bars(u@.take(k as int));
            assert(out@ =~= pre + if u@[k as int] == '|' {
                seq![' ', ' ', ' ']
            } else {
                seq![u@[k as int]]
            });
        }
        k += 1;
    }
    out
}

fn is_sep_row(c: &Vec<char>) -> (b: bool)
    ensures
        b == sep_row(c@),
{
    let mut k: usize = 0;
    while k < c.len()
        invariant
            k <= c@.len(),
            forall|m: int| 0 <= m < k ==> c@[m] == '-' || c@[m] == ':' || c@[m] == ' ',
        decreases c.len() - k,
    {
        if !(c[k] == '-' || c[k] == ':' || c[k] == ' ') {
            return false;
        }
        k += 1;
    }
    true
}

/// Classify one raw line in state `st`.
pub fn classify(raw: &Vec<char>, st: MdState) -> (r: (Option<Block>, MdState))
    ensures
        ((match r.0 {
            Some(b) => Some(b@),
            None => None,
        }), r.1) == classify_spec(raw@, st),
{
    let e = trim_end_at(raw.as_slice(), 0, raw.len());
    assert(raw@.subrange(0, raw@.len() as int) =~= raw@);
    let l = slice_of(raw, 0, e);
    let s0 = skip_ws(l.as_slice(), 0);
    assert(l@.skip(0) =~= l@);
    let t = slice_of(&l, s0, l.len());
    assert(t@ =~= l@.skip(s0 as int));
    if starts(&t, "```") {
        return (Some(Block::Fence), MdState { code: !st.code, ..st });
    }
    if st.code {
        return (Some(Block::Code(text_of(&l))), st);
    }
    if starts(&t, ":::") {
        proof {
            reveal_strlit(":::");
        }
        let rest = slice_of(&t, 3, t.len());
        assert(rest@ =~= t@.skip(3));
        let r = trimmed(&rest);
        return (Some(Block::AsideMark), MdState { aside: r.len() > 0, ..st });
    }
    if eq_lit(&t, "$$") {
        return (None, MdState { math: !st.math, ..st });
    }
    if st.math {
        return (Some(Block::Math(text_of(&t))), st);
    }
    if t.len() == 0 {
        return (Some(Block::Blank), st);
    }
    if eq_lit(&t, "---") || eq_lit(&t, "***") || eq_lit(&t, "___") {
        return (Some(Block::Rule), st);
    }
    match heading_of(&t) {
        Some((lv, txt)) => {
            let h = strip_anchor(text_of(&txt).as_str());
            return (Some(Block::Heading(lv, h)), st);
        },
        None => {},
    }
    if t[0] == '|' {
        let cells = table_cells_of(&t);
        if is_sep_row(&cells) {
            return (None, st);
        }
        return (Some(Block::Table(strip_inline_noise(text_of(&cells).as_str()))), st);
    }
    let quoted = starts(&t, "> ");
    proof {
        reveal_strlit("> ");
    }
    let u = if quoted {
        let r = slice_of(&t, 2, t.len());
        assert(r@ =~= t@.skip(2));
        r
    } else {
        t
    };
    let aside_here = if quoted {
        true
    } else {
        st.aside
    };
    let us = text_of(&u);
    let (m, rest) = split_list_marker(us.as_str());
    match m {
        Some(m) => (Some(Block::Item(m, rest, aside_here)), st),
        None => (Some(Block::Para(us, aside_here)), st),
    }
}

/// The front matter's title and the document's blocks.
pub fn md_blocks(md: &str) -> (r: (Option<String>, Vec<Block>))
    ensures
        opt_string(r.0) == front_title_spec(md@),
        blocks_view(r.1@) == md_blocks_spec(md@),
{
    let cs = chars_of(md);
    let ls = split_lines(&cs);
    let ghost d = ls.deep_view();
    let (title, start) = if starts(&cs, "---") {
        let (t, s) = front(&ls);
        (
            match t {
                Some(v) => Some(text_of(&v)),
                None => None,
            },
            s,
        )
    } else {
        (None, 0)
    };
    let mut out: Vec<Block> = Vec::new();
    let mut st = MdState { code: false, aside: false, math: false };
    let mut k = start;
    assert(blocks_view(out@) =~= Seq::<BlockV>::empty());
    while k < ls.len()
        invariant
            d == ls.deep_view(),
            d == md_lines(md@),
            d.len() == ls@.len(),
            md_blocks_spec(md@) == blocks_view(out@) + blocks_from(d, k as int, st),
        decreases ls.len() - k,
    {
        assert(d[k as int] =~= ls@[k as int]@);
        let (b, st2) = classify(&ls[k], st);
        let ghost before = blocks_view(out@);
        match b {
            Some(b) => {
                let ghost bv = b@;
                out.push(b);
                assert(blocks_view(out@) =~= before.push(bv));
                assert(before + (seq![bv] + blocks_from(d, k + 1, st2)) =~= before.push(bv) + blocks_from(d, k + 1, st2));
            },
            None => {
                assert(Seq::<BlockV>::empty() + blocks_from(d, k + 1, st2) =~= blocks_from(d, k + 1, st2));
            },
        }
        st = st2;
        k += 1;
    }
    assert(blocks_view(out@) + Seq::<BlockV>::empty() =~= blocks_view(out@));
    (title, out)
}

} // verus!
