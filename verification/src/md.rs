//! Light content detection for pi's replies: split a reply into typed
//! segments (headings, bullets, paragraphs, code blocks, SVG diagrams)
//! and measure their heights for scrolling. Detection is by the usual
//! markers: fenced ``` blocks (with an optional language), a bare
//! `<svg>...</svg>`, and a leading `#`, `-`, `*`, `+` or `1.` on a line.

use vstd::prelude::*;
use crate::strs::{chars_of, string_of};
use crate::text::{char_is_whitespace, contains, has_prefix, has_substr, is_ascii_digit, join, join_chars, remove_all, remove_all_exec, skip_ws, starts_with, trim, trim_range, trim_start};
use crate::wrap::{split_on, split_chars, wrap, wrap_spec};
use crate::fb::{ADVANCE, CHAR_ROWS};
use crate::geom::trunc_div;
use vstd::slice::{slice_subrange, slice_to_vec};

verus! {

/// Gap between segments, in pixels.
pub const BG: i32 = 12;

/// Padding above and below a code block.
pub const CODE_PAD: i32 = 12;

pub enum Seg {
    Heading(u8, String),
    Bullet(String),
    Para(String),
    /// Language and the body lines, line breaks preserved.
    Code(String, Vec<String>),
    /// SVG source.
    Svg(String),
}

/// A segment with its text as character sequences.
pub enum SegV {
    Heading(u8, Seq<char>),
    Bullet(Seq<char>),
    Para(Seq<char>),
    Code(Seq<char>, Seq<Seq<char>>),
    Svg(Seq<char>),
}

impl View for Seg {
    type V = SegV;

    open spec fn view(&self) -> SegV {
        match self {
            Seg::Heading(l, s) => SegV::Heading(*l, s@),
            Seg::Bullet(s) => SegV::Bullet(s@),
            Seg::Para(s) => SegV::Para(s@),
            Seg::Code(l, b) => SegV::Code(l@, b.deep_view()),
            Seg::Svg(s) => SegV::Svg(s@),
        }
    }
}

pub open spec fn segs_view(v: Seq<Seg>) -> Seq<SegV> {
    v.map_values(|s: Seg| s@)
}

/* ---- markers -------------------------------------------------------------- */

pub open spec fn fence() -> Seq<char> {
    seq!['`', '`', '`']
}

pub open spec fn svg_open() -> Seq<char> {
    seq!['<', 's', 'v', 'g']
}

pub open spec fn svg_close() -> Seq<char> {
    seq!['<', '/', 's', 'v', 'g', '>']
}

/// Inline emphasis markers removed so they do not render literally:
/// `**`, `__` and backticks.
pub open spec fn clean_spec(s: Seq<char>) -> Seq<char> {
    remove_all(remove_all(remove_all(s, seq!['*', '*']), seq!['_', '_']), seq!['`'])
}

/// Number of leading characters of `s` equal to `c`.
pub open spec fn leading_count(s: Seq<char>, c: char) -> nat
    decreases s.len(),
{
    if s.len() > 0 && s[0] == c {
        1 + leading_count(s.drop_first(), c)
    } else {
        0
    }
}

/// Number of leading ASCII digits of `s`.
pub open spec fn leading_digits(s: Seq<char>) -> nat
    decreases s.len(),
{
    if s.len() > 0 && is_ascii_digit(s[0]) {
        1 + leading_digits(s.drop_first())
    } else {
        0
    }
}

/// `# Title` .. `###### Title`: a run of one to six `#` and a space.
pub open spec fn heading_spec(t: Seq<char>) -> Option<SegV> {
    let n = leading_count(t, '#');
    if 1 <= n <= 6 && n < t.len() && t[n as int] == ' ' {
        Some(SegV::Heading(n as u8, clean_spec(trim(t.skip(n as int)))))
    } else {
        None
    }
}

/// `- x`, `* x`, `+ x`, or `12. x`: the item text.
pub open spec fn bullet_spec(t: Seq<char>) -> Option<Seq<char>> {
    if starts_with(t, seq!['-', ' ']) || starts_with(t, seq!['*', ' ']) || starts_with(t, seq!['+', ' ']) {
        Some(t.skip(2))
    } else {
        let d = leading_digits(t);
        if d > 0 && starts_with(t.skip(d as int), seq!['.', ' ']) {
            Some(t.skip(d as int + 2))
        } else {
            None
        }
    }
}

pub open spec fn ascii_lower(c: char) -> char {
    if 'A' <= c <= 'Z' {
        ((c as u32) + 32) as char
    } else {
        c
    }
}

/// Is the language tag `svg`, in any ASCII case?
pub open spec fn is_svg_lang(l: Seq<char>) -> bool {
    l.len() == 3 && ascii_lower(l[0]) == 's' && ascii_lower(l[1]) == 'v' && ascii_lower(l[2]) == 'g'
}

/// First line at or after `k` that closes a fence, else the line count.
pub open spec fn fence_end(lines: Seq<Seq<char>>, k: int) -> int
    decreases lines.len() - k,
{
    if k >= lines.len() {
        lines.len() as int
    } else if starts_with(trim_start(lines[k]), fence()) {
        k
    } else {
        fence_end(lines, k + 1)
    }
}

/// First line at or after `k` containing `</svg>`, else the line count.
pub open spec fn svg_end(lines: Seq<Seq<char>>, k: int) -> int
    decreases lines.len() - k,
{
    if k >= lines.len() {
        lines.len() as int
    } else if contains(lines[k], svg_close()) {
        k
    } else {
        svg_end(lines, k + 1)
    }
}

/// The paragraph collected so far, as a segment (nothing if empty).
pub open spec fn flush(para: Seq<Seq<char>>) -> Seq<SegV> {
    if para.len() == 0 {
        Seq::empty()
    } else {
        seq![SegV::Para(clean_spec(join(para, seq![' '])))]
    }
}

/// The fenced block opened on line `i` (whose trimmed text is `t`).
pub open spec fn fenced_seg(lines: Seq<Seq<char>>, i: int, t: Seq<char>) -> SegV {
    let lang = trim(t.skip(3));
    let j = fence_end(lines, i + 1);
    let body = lines.subrange(i + 1, j);
    let joined = join(body, seq!['\n']);
    if is_svg_lang(lang) || contains(joined, svg_open()) {
        SegV::Svg(joined)
    } else {
        SegV::Code(lang, body)
    }
}

/// The segments of lines `i..` given the open paragraph `para`.
pub open spec fn parse_from(lines: Seq<Seq<char>>, i: int, para: Seq<Seq<char>>) -> Seq<SegV>
    decreases lines.len() + 1 - i,
{
    if i < 0 || i >= lines.len() {
        flush(para)
    } else {
        let t = trim_start(lines[i]);
        if starts_with(t, fence()) {
            let j = fence_end(lines, i + 1);
            proof {
                lemma_fence_end_bounds(lines, i + 1);
            }
            flush(para) + seq![fenced_seg(lines, i, t)] + parse_from(lines, j + 1, Seq::empty())
        } else if contains(t, svg_open()) {
            let j = svg_end(lines, i);
            proof {
                lemma_svg_end_bounds(lines, i);
            }
            let body = lines.subrange(i, if j + 1 <= lines.len() { j + 1 } else { lines.len() as int });
            flush(para) + seq![SegV::Svg(join(body, seq!['\n']))] + parse_from(lines, j + 1, Seq::empty())
        } else if heading_spec(t) is Some {
            flush(para) + seq![heading_spec(t)->0] + parse_from(lines, i + 1, Seq::empty())
        } else if bullet_spec(t) is Some {
            flush(para) + seq![SegV::Bullet(clean_spec(bullet_spec(t)->0))] + parse_from(
                lines,
                i + 1,
                Seq::empty(),
            )
        } else if t.len() == 0 {
            flush(para) + parse_from(lines, i + 1, Seq::empty())
        } else {
            parse_from(lines, i + 1, para.push(t))
        }
    }
}

/// The segments `parse` finds in `text`.
pub open spec fn parse_spec(text: Seq<char>) -> Seq<SegV> {
    parse_from(split_on(text, '\n'), 0, Seq::empty())
}

pub proof fn lemma_fence_end_bounds(lines: Seq<Seq<char>>, k: int)
    requires
        0 <= k,
    ensures
        k <= fence_end(lines, k) <= lines.len() || (k > lines.len() && fence_end(lines, k)
            == lines.len()),
    decreases lines.len() - k,
{
    if k < lines.len() && !starts_with(trim_start(lines[k]), fence()) {
        lemma_fence_end_bounds(lines, k + 1);
    }
}

pub proof fn lemma_svg_end_bounds(lines: Seq<Seq<char>>, k: int)
    requires
        0 <= k <= lines.len(),
    ensures
        k <= svg_end(lines, k) <= lines.len(),
    decreases lines.len() - k,
{
    if k < lines.len() && !contains(lines[k], svg_close()) {
        lemma_svg_end_bounds(lines, k + 1);
    }
}

/* ---- exec ----------------------------------------------------------------- */

fn clean_chars(s: &[char]) -> (out: Vec<char>)
    ensures
        out@ == clean_spec(s@),
{
    let a: [char; 2] = ['*', '*'];
    let b: [char; 2] = ['_', '_'];
    let c: [char; 1] = ['`'];
    assert(a@ == seq!['*', '*']);
    assert(b@ == seq!['_', '_']);
    assert(c@ == seq!['`']);
    let s1 = remove_all_exec(s, &a);
    let s2 = remove_all_exec(&s1, &b);
    remove_all_exec(&s2, &c)
}

/// Strip inline markdown emphasis (`**`, `__`, backticks) so the markers
/// do not render literally.
pub fn clean_inline(s: &str) -> (out: String)
    ensures
        out@ == clean_spec(s@),
{
    let cs = chars_of(s);
    let c = clean_chars(&cs);
    let out = string_of(&c, 0, c.len());
    assert(c@.subrange(0, c@.len() as int) == c@);
    out
}

fn count_leading(t: &[char], c: char) -> (n: usize)
    ensures
        n == leading_count(t@, c),
        n <= t@.len(),
{
    let mut n: usize = 0;
    assert(t@.skip(0) == t@);
    while n < t.len() && t[n] == c
        invariant
            n <= t@.len(),
            leading_count(t@, c) == n + leading_count(t@.skip(n as int), c),
        decreases t.len() - n,
    {
        assert(t@.skip(n as int).drop_first() == t@.skip(n + 1));
        n += 1;
    }
    assert(t@.skip(0) == t@);
    n
}

fn count_digits(t: &[char]) -> (n: usize)
    ensures
        n == leading_digits(t@),
        n <= t@.len(),
{
    let mut n: usize = 0;
    assert(t@.skip(0) == t@);
    while n < t.len() && '0' <= t[n] && t[n] <= '9'
        invariant
            n <= t@.len(),
            leading_digits(t@) == n + leading_digits(t@.skip(n as int)),
        decreases t.len() - n,
    {
        assert(t@.skip(n as int).drop_first() == t@.skip(n + 1));
        n += 1;
    }
    n
}

fn heading_chars(t: &[char]) -> (r: Option<Seg>)
    ensures
        match r {
            Some(s) => heading_spec(t@) == Some(s@),
            None => heading_spec(t@) is None,
        },
{
    let n = count_leading(t, '#');
    if 1 <= n && n <= 6 && n < t.len() && t[n] == ' ' {
        let (a, b) = trim_range(t, n, t.len());
        assert(t@.subrange(n as int, t@.len() as int) == t@.skip(n as int));
        let body = clean_chars(slice_subrange(t, a, b));
        let s = string_of(&body, 0, body.len());
        assert(body@.subrange(0, body@.len() as int) == body@);
        Some(Seg::Heading(n as u8, s))
    } else {
        None
    }
}

/// A heading line: one to six `#` and a space, then the title.
pub fn heading(t: &str) -> (r: Option<Seg>)
    ensures
        match r {
            Some(s) => heading_spec(t@) == Some(s@),
            None => heading_spec(t@) is None,
        },
{
    let cs = chars_of(t);
    heading_chars(&cs)
}

fn bullet_chars(t: &[char]) -> (r: Option<Vec<char>>)
    ensures
        match r {
            Some(v) => bullet_spec(t@) == Some(v@),
            None => bullet_spec(t@) is None,
        },
{
    let dash: [char; 2] = ['-', ' '];
    let star: [char; 2] = ['*', ' '];
    let plus: [char; 2] = ['+', ' '];
    let dot: [char; 2] = ['.', ' '];
    assert(dash@ == seq!['-', ' ']);
    assert(star@ == seq!['*', ' ']);
    assert(plus@ == seq!['+', ' ']);
    assert(dot@ == seq!['.', ' ']);
    if has_prefix(t, &dash) || has_prefix(t, &star) || has_prefix(t, &plus) {
        let v = slice_to_vec(slice_subrange(t, 2, t.len()));
        assert(t@.subrange(2, t@.len() as int) == t@.skip(2));
        return Some(v);
    }
    let d = count_digits(t);
    if d > 0 {
        let rest = slice_subrange(t, d, t.len());
        assert(rest@ == t@.skip(d as int));
        if has_prefix(rest, &dot) {
            let v = slice_to_vec(slice_subrange(t, d + 2, t.len()));
            assert(t@.subrange(d + 2, t@.len() as int) == t@.skip(d + 2));
            return Some(v);
        }
    }
    None
}

/// A list item line (`- `, `* `, `+ ` or `N. `): the item text.
pub fn bullet(t: &str) -> (r: Option<String>)
    ensures
        match r {
            Some(s) => bullet_spec(t@) == Some(s@),
            None => bullet_spec(t@) is None,
        },
{
    let cs = chars_of(t);
    match bullet_chars(&cs) {
        Some(v) => {
            assert(v@.subrange(0, v@.len() as int) == v@);
            Some(string_of(&v, 0, v.len()))
        },
        None => None,
    }
}

fn push_seg(segs: &mut Vec<Seg>, s: Seg)
    ensures
        segs_view(final(segs)@) == segs_view(old(segs)@).push(s@),
{
    segs.push(s);
    assert(segs_view(segs@) =~= segs_view(old(segs)@).push(s@));
}

fn flush_para(para: &mut Vec<Vec<char>>, segs: &mut Vec<Seg>)
    ensures
        segs_view(final(segs)@) == segs_view(old(segs)@) + flush(old(para).deep_view()),
        final(para)@.len() == 0,
{
    if para.len() > 0 {
        let sp: [char; 1] = [' '];
        assert(sp@ == seq![' ']);
        let joined = join_chars(para, &sp);
        let c = clean_chars(&joined);
        let s = string_of(&c, 0, c.len());
        assert(c@.subrange(0, c@.len() as int) == c@);
        push_seg(segs, Seg::Para(s));
    } else {
        assert(segs_view(segs@) + Seq::<SegV>::empty() == segs_view(segs@));
    }
    *para = Vec::new();
}

fn ascii_eq_svg(l: &[char]) -> (b: bool)
    ensures
        b == is_svg_lang(l@),
{
    if l.len() != 3 {
        return false;
    }
    let c0 = if 'A' <= l[0] && l[0] <= 'Z' { ((l[0] as u32) + 32) as u8 as char } else { l[0] };
    let c1 = if 'A' <= l[1] && l[1] <= 'Z' { ((l[1] as u32) + 32) as u8 as char } else { l[1] };
    let c2 = if 'A' <= l[2] && l[2] <= 'Z' { ((l[2] as u32) + 32) as u8 as char } else { l[2] };
    c0 == 's' && c1 == 'v' && c2 == 'g'
}

fn copy_lines(lines: &Vec<Vec<char>>, from: usize, to: usize) -> (out: Vec<String>)
    requires
        from <= to <= lines@.len(),
    ensures
        out.deep_view() == lines.deep_view().subrange(from as int, to as int),
{
    let mut out: Vec<String> = Vec::new();
    let mut k = from;
    while k < to
        invariant
            from <= k <= to <= lines@.len(),
            out.deep_view() == lines.deep_view().subrange(from as int, k as int),
        decreases to - k,
    {
        let l = &lines[k];
        let s = string_of(l, 0, l.len());
        assert(l@.subrange(0, l@.len() as int) == l@);
        assert(lines.deep_view()[k as int] =~= l@);
        crate::wrap::push_line(&mut out, s);
        k += 1;
        assert(out.deep_view() =~= lines.deep_view().subrange(from as int, k as int));
    }
    out
}

fn sub_lines(lines: &Vec<Vec<char>>, from: usize, to: usize) -> (out: Vec<Vec<char>>)
    requires
        from <= to <= lines@.len(),
    ensures
        out.deep_view() == lines.deep_view().subrange(from as int, to as int),
{
    let mut out: Vec<Vec<char>> = Vec::new();
    let mut k = from;
    while k < to
        invariant
            from <= k <= to <= lines@.len(),
            out@.len() == k - from,
            forall|m: int| 0 <= m < out@.len() ==> #[trigger] out@[m]@ == lines@[from + m]@,
        decreases to - k,
    {
        let src = &lines[k];
        let mut l: Vec<char> = Vec::new();
        let mut q: usize = 0;
        while q < src.len()
            invariant
                q <= src@.len(),
                l@ == src@.take(q as int),
            decreases src.len() - q,
        {
            l.push(src[q]);
            q += 1;
        }
        assert(src@.take(src@.len() as int) == src@);
        out.push(l);
        k += 1;
    }
    assert forall|m: int| 0 <= m < out@.len() implies out.deep_view()[m] == lines.deep_view().subrange(
        from as int,
        to as int,
    )[m] by {
        assert(out.deep_view()[m] =~= out@[m]@);
        assert(lines.deep_view()[from + m] =~= lines@[from + m]@);
    }
    assert(out.deep_view() =~= lines.deep_view().subrange(from as int, to as int));
    out
}

fn fence_block(lines: &Vec<Vec<char>>, i: usize, t: &[char]) -> (r: (Seg, usize))
    requires
        i < lines@.len(),
        starts_with(t@, fence()),
    ensures
        r.0@ == fenced_seg(lines.deep_view(), i as int, t@),
        r.1 == fence_end(lines.deep_view(), i + 1),
        i + 1 <= r.1 <= lines@.len(),
{
    let ghost ls = lines.deep_view();
    let fence_m: [char; 3] = ['`', '`', '`'];
    let nl: [char; 1] = ['\n'];
    let svg_o: [char; 4] = ['<', 's', 'v', 'g'];
    assert(fence_m@ == fence());
    assert(nl@ == seq!['\n']);
    assert(svg_o@ == svg_open());
    let (la, lb) = trim_range(t, 3, t.len());
    assert(t@.subrange(3, t@.len() as int) == t@.skip(3));
    let lang = string_of(t, la, lb);
    assert(lines@.len() == lines.len());
    let mut j = i + 1;
    while j < lines.len() && !has_prefix(
        slice_subrange(lines[j].as_slice(), skip_ws(&lines[j], 0), lines[j].len()),
        &fence_m,
    )
        invariant
            i + 1 <= j <= lines@.len(),
            ls == lines.deep_view(),
            fence_m@ == fence(),
            fence_end(ls, i + 1) == fence_end(ls, j as int),
        decreases lines.len() - j,
    {
        assert(lines@[j as int]@ == ls[j as int]);
        assert(lines@[j as int]@.skip(0) == lines@[j as int]@);
        j += 1;
    }
    if j < lines.len() {
        assert(lines@[j as int]@ == ls[j as int]);
        assert(lines@[j as int]@.skip(0) == lines@[j as int]@);
    }
    assert(fence_end(ls, j as int) == j);
    let body_c = sub_lines(lines, i + 1, j);
    let joined = join_chars(&body_c, &nl);
    assert(joined@.subrange(0, joined@.len() as int) == joined@);
    let seg = if ascii_eq_svg(slice_subrange(t, la, lb)) || has_substr(&joined, &svg_o) {
        Seg::Svg(string_of(&joined, 0, joined.len()))
    } else {
        Seg::Code(lang, copy_lines(lines, i + 1, j))
    };
    (seg, j)
}

fn svg_block(lines: &Vec<Vec<char>>, i: usize) -> (r: (Seg, usize))
    requires
        i < lines@.len(),
    ensures
        r.1 == svg_end(lines.deep_view(), i as int),
        i <= r.1 <= lines@.len(),
        r.0@ == SegV::Svg(
            join(
                lines.deep_view().subrange(
                    i as int,
                    if r.1 + 1 <= lines@.len() {
                        r.1 + 1
                    } else {
                        lines@.len() as int
                    },
                ),
                seq!['\n'],
            ),
        ),
{
    let ghost ls = lines.deep_view();
    let svg_c: [char; 6] = ['<', '/', 's', 'v', 'g', '>'];
    let nl: [char; 1] = ['\n'];
    assert(svg_c@ == svg_close());
    assert(nl@ == seq!['\n']);
    let mut j = i;
    while j < lines.len() && !has_substr(&lines[j], &svg_c)
        invariant
            i <= j <= lines@.len(),
            ls == lines.deep_view(),
            svg_c@ == svg_close(),
            svg_end(ls, i as int) == svg_end(ls, j as int),
        decreases lines.len() - j,
    {
        assert(lines@[j as int]@ == ls[j as int]);
        j += 1;
    }
    if j < lines.len() {
        assert(lines@[j as int]@ == ls[j as int]);
    }
    assert(svg_end(ls, j as int) == j);
    let end = if j < lines.len() { j + 1 } else { lines.len() };
    let body_c = sub_lines(lines, i, end);
    let joined = join_chars(&body_c, &nl);
    assert(joined@.subrange(0, joined@.len() as int) == joined@);
    (Seg::Svg(string_of(&joined, 0, joined.len())), j)
}

/// Handle one line `i` that does not open a block: a heading, a bullet,
/// a blank line or paragraph text.
fn line_step(segs: &mut Vec<Seg>, para: &mut Vec<Vec<char>>, ls: Ghost<Seq<Seq<char>>>, i: usize, t: &[char])
    requires
        0 <= i < ls@.len(),
        t@ == trim_start(ls@[i as int]),
        !starts_with(t@, fence()),
        !contains(t@, svg_open()),
    ensures
        segs_view(final(segs)@) + parse_from(ls@, i + 1, final(para).deep_view()) == segs_view(
            old(segs)@,
        ) + parse_from(ls@, i as int, old(para).deep_view()),
{
    let ghost before = segs_view(segs@);
    let ghost pv = para.deep_view();
    match heading_chars(t) {
        Some(h) => {
            flush_para(para, segs);
            let ghost hv = h@;
            push_seg(segs, h);
            assert(para.deep_view() =~= Seq::<Seq<char>>::empty());
            assert(parse_from(ls@, i as int, pv) == flush(pv) + seq![hv] + parse_from(ls@, i + 1, Seq::empty()));
        },
        None => {
            match bullet_chars(t) {
                Some(b) => {
                    flush_para(para, segs);
                    let c = clean_chars(&b);
                    assert(c@.subrange(0, c@.len() as int) == c@);
                    push_seg(segs, Seg::Bullet(string_of(&c, 0, c.len())));
                    assert(para.deep_view() =~= Seq::<Seq<char>>::empty());
                    assert(parse_from(ls@, i as int, pv) == flush(pv) + seq![SegV::Bullet(clean_spec(b@))]
                        + parse_from(ls@, i + 1, Seq::empty()));
                },
                None => {
                    if t.len() == 0 {
                        flush_para(para, segs);
                        assert(para.deep_view() =~= Seq::<Seq<char>>::empty());
                        assert(parse_from(ls@, i as int, pv) == flush(pv) + parse_from(ls@, i + 1, Seq::empty()));
                    } else {
                        let tv = slice_to_vec(t);
                        let ghost tvv = tv@;
                        para.push(tv);
                        assert(para.deep_view() =~= pv.push(tvv)) by {
                            assert(para@[para@.len() - 1].deep_view() =~= tvv);
                        }
                        assert(parse_from(ls@, i as int, pv) == parse_from(ls@, i + 1, pv.push(t@)));
                    }
                },
            }
        },
    }
}

/// Split a reply into segments.
#[verifier::rlimit(40)]
pub fn parse(text: &str) -> (segs: Vec<Seg>)
    ensures
        segs_view(segs@) == parse_spec(text@),
{
    let cs = chars_of(text);
    let lines = split_chars(&cs, '\n');
    let ghost ls = lines.deep_view();
    let mut segs: Vec<Seg> = Vec::new();
    let mut para: Vec<Vec<char>> = Vec::new();
    let mut i: usize = 0;
    let fence_m: [char; 3] = ['`', '`', '`'];
    let svg_o: [char; 4] = ['<', 's', 'v', 'g'];
    assert(fence_m@ == fence());
    assert(svg_o@ == svg_open());
    assert(segs_view(segs@) =~= Seq::<SegV>::empty());
    assert(para.deep_view() =~= Seq::<Seq<char>>::empty());
    while i < lines.len()
        invariant
            ls == lines.deep_view(),
            ls == split_on(text@, '\n'),
            fence_m@ == fence(),
            svg_o@ == svg_open(),
            i <= lines@.len(),
            segs_view(segs@) + parse_from(ls, i as int, para.deep_view()) == parse_spec(text@),
        decreases lines.len() + 1 - i,
    {
        let ghost before = segs_view(segs@);
        let ghost pv = para.deep_view();
        let line = &lines[i];
        assert(line@ == ls[i as int]);
        let st = skip_ws(line, 0);
        assert(line@.skip(0) == line@);
        let t = slice_subrange(line.as_slice(), st, line.len());
        assert(t@ == trim_start(ls[i as int]));
        if has_prefix(t, &fence_m) {
            flush_para(&mut para, &mut segs);
            let (seg, j) = fence_block(&lines, i, t);
            let ghost sv = seg@;
            push_seg(&mut segs, seg);
            assert(para.deep_view() =~= Seq::<Seq<char>>::empty());
            assert(parse_from(ls, i as int, pv) == flush(pv) + seq![sv] + parse_from(ls, j + 1, Seq::empty()));
            assert(parse_from(ls, ls.len() as int, Seq::empty()) == parse_from(ls, ls.len() as int + 1, Seq::empty()));
            i = if j < lines.len() { j + 1 } else { lines.len() };
        } else if has_substr(t, &svg_o) {
            flush_para(&mut para, &mut segs);
            let (seg, j) = svg_block(&lines, i);
            let ghost sv = seg@;
            push_seg(&mut segs, seg);
            assert(para.deep_view() =~= Seq::<Seq<char>>::empty());
            assert(parse_from(ls, i as int, pv) == flush(pv) + seq![sv] + parse_from(ls, j + 1, Seq::empty()));
            assert(parse_from(ls, ls.len() as int, Seq::empty()) == parse_from(ls, ls.len() as int + 1, Seq::empty()));
            i = if j < lines.len() { j + 1 } else { lines.len() };
        } else {
            line_step(&mut segs, &mut para, Ghost(ls), i, t);
            i += 1;
        }
    }
    let ghost pv = para.deep_view();
    flush_para(&mut para, &mut segs);
    assert(parse_from(ls, i as int, pv) == flush(pv));
    segs
}

/* ---- per-segment metrics (height and drawing share these) ----------------- */

/// Line height of bitmap-font text at `scale`.
pub fn line_h(scale: i32) -> (h: i32)
    requires
        -0x1000_0000 <= scale <= 0x1000_0000,
    ensures
        h == CHAR_ROWS * scale + 8,
{
    CHAR_ROWS * scale + 8
}

/// Headings scale up: level 1 by two, level 2 by one.
pub fn heading_scale(level: u8, base: i32) -> (s: i32)
    requires
        base <= i32::MAX - 2,
    ensures
        s == if level == 1 {
            base + 2
        } else if level == 2 {
            base + 1
        } else {
            base as int
        },
{
    match level {
        1 => base + 2,
        2 => base + 1,
        _ => base,
    }
}

/// Code is one step smaller than body text, but at least 2.
pub fn code_scale(base: i32) -> (s: i32)
    requires
        base > i32::MIN,
    ensures
        s == if base - 1 >= 2 {
            base - 1
        } else {
            2
        },
{
    if base - 1 >= 2 {
        base - 1
    } else {
        2
    }
}

pub open spec fn code_line_h_spec(base: int) -> int {
    CHAR_ROWS * (if base - 1 >= 2 {
        base - 1
    } else {
        2
    }) + 6
}

/// Line height inside a code block.
pub fn code_line_h(base: i32) -> (h: i32)
    requires
        -0x1000_0000 <= base <= 0x1000_0000,
    ensures
        h == code_line_h_spec(base as int),
{
    CHAR_ROWS * code_scale(base) + 6
}

pub open spec fn code_height_spec(n: int, base: int, has_lang: bool) -> int {
    let label = if has_lang {
        CHAR_ROWS * 2 + 6
    } else {
        0
    };
    CODE_PAD + label + (if n >= 1 {
        n
    } else {
        1
    }) * code_line_h_spec(base) + CODE_PAD
}

/// A code block's pixel height for `n` lines (also used for the SVG
/// fallback, so both paths agree).
pub fn code_height(n: i32, base: i32, has_lang: bool) -> (h: i32)
    requires
        0 <= n <= 0x10_0000,
        0 <= base <= 0x100,
    ensures
        h == code_height_spec(n as int, base as int, has_lang),
{
    let label = if has_lang { CHAR_ROWS * 2 + 6 } else { 0 };
    let nn = if n >= 1 { n } else { 1 };
    let clh = code_line_h(base);
    assert(nn * clh <= 0x10_0000 * (7 * 0x100 + 6)) by (nonlinear_arith)
        requires 1 <= nn <= 0x10_0000, 0 <= clh <= 7 * 0x100 + 6;
    CODE_PAD + label + nn * clh + CODE_PAD
}

/// Text columns that fit `width` at `scale` (at least one).
pub fn cols(width: i32, scale: i32) -> (c: usize)
    requires
        scale > 0,
        scale <= 0x100_0000,
    ensures
        c == if trunc_div(width as int, ADVANCE * scale) >= 1 {
            trunc_div(width as int, ADVANCE * scale)
        } else {
            1
        },
{
    let q = width / (ADVANCE * scale);
    if q >= 1 {
        q as usize
    } else {
        1
    }
}

pub open spec fn cols_spec(width: int, scale: int) -> int {
    if trunc_div(width, ADVANCE * scale) >= 1 {
        trunc_div(width, ADVANCE * scale)
    } else {
        1
    }
}

pub open spec fn heading_scale_spec(level: u8, base: int) -> int {
    if level == 1 {
        base + 2
    } else if level == 2 {
        base + 1
    } else {
        base
    }
}

/// Can the segment be measured without the original arithmetic
/// overflowing or a bullet losing its whole line to the indent?
pub open spec fn seg_measurable(s: SegV, base: int, width: int) -> bool {
    match s {
        SegV::Bullet(_) => cols_spec(width, base) >= 3,
        _ => true,
    }
}

/// A segment's pixel height. `svg_h` is the height of the rasterized
/// diagram for an SVG segment (None when it could not be drawn and is
/// shown as code instead).
pub open spec fn seg_height_spec(s: SegV, base: int, width: int, svg_h: Option<i32>) -> int {
    match s {
        SegV::Heading(l, txt) => {
            let sc = heading_scale_spec(l, base);
            wrap_spec(txt, cols_spec(width, sc) as nat).len() * (CHAR_ROWS * sc + 8) + 6
        },
        SegV::Bullet(txt) => wrap_spec(txt, (cols_spec(width, base) - 2) as nat).len() * (CHAR_ROWS
            * base + 8),
        SegV::Para(txt) => wrap_spec(txt, cols_spec(width, base) as nat).len() * (CHAR_ROWS * base
            + 8),
        SegV::Code(lang, lines) => code_height_spec(lines.len() as int, base, lang.len() > 0),
        SegV::Svg(src) => match svg_h {
            Some(h) => h + 8,
            None => code_height_spec(split_on(src, '\n').len() as int, base, true),
        },
    }
}

pub open spec fn seg_small(s: SegV) -> bool {
    match s {
        SegV::Heading(_, t) => t.len() < 0x1_0000,
        SegV::Bullet(t) => t.len() < 0x1_0000,
        SegV::Para(t) => t.len() < 0x1_0000,
        SegV::Code(_, lines) => lines.len() < 0x1_0000,
        SegV::Svg(src) => src.len() < 0x1_0000,
    }
}

/// The pixel height of one segment.
pub fn seg_height(seg: &Seg, base: i32, width: i32, svg_h: Option<i32>) -> (h: i32)
    requires
        1 <= base <= 0x100,
        seg_measurable(seg@, base as int, width as int),
        i32::MIN <= seg_height_spec(seg@, base as int, width as int, svg_h) <= i32::MAX,
        seg_small(seg@),
    ensures
        h == seg_height_spec(seg@, base as int, width as int, svg_h),
{
    match seg {
        Seg::Heading(l, txt) => {
            let s = heading_scale(*l, base);
            let lines = wrap(txt.as_str(), cols(width, s));
            let n = lines.len();
            assert(lines@.len() == lines.deep_view().len());
            let lh = line_h(s);
            proof {
                assert(n <= 0x7fff_ffff) by (nonlinear_arith)
                    requires n * lh + 6 <= i32::MAX, lh >= 15;
            }
            (n as i32) * lh + 6
        },
        Seg::Bullet(txt) => {
            let c = cols(width, base);
            let lines = wrap(txt.as_str(), c - 2);
            let n = lines.len();
            assert(lines@.len() == lines.deep_view().len());
            let lh = line_h(base);
            proof {
                assert(n <= 0x7fff_ffff) by (nonlinear_arith)
                    requires n * lh <= i32::MAX, lh >= 15;
            }
            (n as i32) * lh
        },
        Seg::Para(txt) => {
            let lines = wrap(txt.as_str(), cols(width, base));
            let n = lines.len();
            assert(lines@.len() == lines.deep_view().len());
            let lh = line_h(base);
            proof {
                assert(n <= 0x7fff_ffff) by (nonlinear_arith)
                    requires n * lh <= i32::MAX, lh >= 15;
            }
            (n as i32) * lh
        },
        Seg::Code(lang, lines) => {
            assert(lines@.len() == lines.deep_view().len());
            code_height(lines.len() as i32, base, !lang.as_str().is_empty())
        },
        Seg::Svg(src) => match svg_h {
            Some(v) => v + 8,
            None => {
                let cs = chars_of(src.as_str());
                let parts = split_chars(&cs, '\n');
                proof {
                    crate::wrap::lemma_split_count(src@, '\n');
                }
                code_height(parts.len() as i32, base, true)
            },
        },
    }
}

pub open spec fn height_spec(segs: Seq<SegV>, base: int, width: int, svg: Seq<Option<i32>>) -> int
    decreases segs.len(),
{
    if segs.len() == 0 {
        0
    } else {
        height_spec(segs.drop_last(), base, width, svg.drop_last()) + seg_height_spec(
            segs.last(),
            base,
            width,
            svg.last(),
        ) + BG
    }
}

/// Total pixel height of the segments (each followed by the segment
/// gap); `svg` holds the rasterized height of each SVG segment.
pub fn height(segs: &[Seg], base: i32, width: i32, svg: &[Option<i32>]) -> (h: i32)
    requires
        1 <= base <= 0x100,
        svg@.len() == segs@.len(),
        forall|k: int| 0 <= k < segs@.len() ==> #[trigger] seg_measurable(segs@[k]@, base as int, width as int),
        forall|k: int| 0 <= k < segs@.len() ==> #[trigger] seg_small(segs@[k]@),
        forall|k: int| 0 <= k < segs@.len() ==> 0 <= #[trigger] seg_height_spec(segs@[k]@, base as int, width as int, svg@[k]),
        forall|k: int| 0 <= k < segs@.len() ==> (#[trigger] svg@[k] matches Some(v) ==> 0 <= v),
        height_spec(segs_view(segs@), base as int, width as int, svg@) <= i32::MAX,
    ensures
        h == height_spec(segs_view(segs@), base as int, width as int, svg@),
{
    let mut h: i32 = 0;
    let mut k: usize = 0;
    while k < segs.len()
        invariant
            k <= segs@.len(),
            1 <= base <= 0x100,
            svg@.len() == segs@.len(),
            forall|m: int| 0 <= m < segs@.len() ==> #[trigger] seg_measurable(segs@[m]@, base as int, width as int),
            forall|m: int| 0 <= m < segs@.len() ==> #[trigger] seg_small(segs@[m]@),
            forall|m: int| 0 <= m < segs@.len() ==> 0 <= #[trigger] seg_height_spec(segs@[m]@, base as int, width as int, svg@[m]),
            forall|m: int| 0 <= m < segs@.len() ==> (#[trigger] svg@[m] matches Some(v) ==> 0 <= v),
            height_spec(segs_view(segs@), base as int, width as int, svg@) <= i32::MAX,
            h == height_spec(segs_view(segs@.take(k as int)), base as int, width as int, svg@.take(k as int)),
        decreases segs.len() - k,
    {
        proof {
            assert(segs_view(segs@.take(k + 1)).drop_last() =~= segs_view(segs@.take(k as int)));
            assert(svg@.take(k + 1).drop_last() =~= svg@.take(k as int));
            assert(segs_view(segs@.take(k + 1)).last() == segs@[k as int]@);
            lemma_height_prefix(segs_view(segs@), base as int, width as int, svg@, k + 1);
            lemma_height_prefix(segs_view(segs@), base as int, width as int, svg@, k as int);
            assert(segs_view(segs@).take(k + 1) =~= segs_view(segs@.take(k + 1)));
            assert(segs_view(segs@).take(k as int) =~= segs_view(segs@.take(k as int)));
            assert(height_spec(segs_view(segs@.take(k + 1)), base as int, width as int, svg@.take(k + 1))
                == height_spec(segs_view(segs@.take(k as int)), base as int, width as int, svg@.take(k as int))
                + seg_height_spec(segs@[k as int]@, base as int, width as int, svg@[k as int]) + BG);
            assert(seg_height_spec(segs@[k as int]@, base as int, width as int, svg@[k as int]) >= 0);
        }
        let sh = seg_height(&segs[k], base, width, svg[k]);
        h = h + sh + BG;
        k += 1;
    }
    assert(segs@.take(segs@.len() as int) == segs@);
    assert(svg@.take(svg@.len() as int) == svg@);
    h
}

/// A height sum of non-negative segment heights is non-negative.
pub proof fn lemma_height_nonneg(segs: Seq<SegV>, base: int, width: int, svg: Seq<Option<i32>>)
    requires
        svg.len() == segs.len(),
        forall|m: int| 0 <= m < segs.len() ==> 0 <= #[trigger] seg_height_spec(segs[m], base, width, svg[m]),
    ensures
        0 <= height_spec(segs, base, width, svg),
{
    lemma_height_prefix(segs, base, width, svg, segs.len() as int);
    assert(segs.take(segs.len() as int) == segs);
    assert(svg.take(svg.len() as int) == svg);
}

/// Every prefix of a height sum of non-negative terms is at most the
/// whole sum.
proof fn lemma_height_prefix(segs: Seq<SegV>, base: int, width: int, svg: Seq<Option<i32>>, k: int)
    requires
        0 <= k <= segs.len(),
        svg.len() == segs.len(),
        forall|m: int| 0 <= m < segs.len() ==> 0 <= #[trigger] seg_height_spec(segs[m], base, width, svg[m]),
    ensures
        height_spec(segs.take(k), base, width, svg.take(k)) <= height_spec(segs, base, width, svg),
        0 <= height_spec(segs.take(k), base, width, svg.take(k)),
    decreases segs.len(),
{
    if segs.len() > 0 {
        if k == segs.len() {
            assert(segs.take(k) == segs);
            assert(svg.take(k) == svg);
            lemma_height_prefix(segs.drop_last(), base, width, svg.drop_last(), k - 1);
            assert(segs.drop_last().take(k - 1) == segs.drop_last());
            assert(svg.drop_last().take(k - 1) == svg.drop_last());
            assert(seg_height_spec(segs.last(), base, width, svg.last()) >= 0);
        } else {
            lemma_height_prefix(segs.drop_last(), base, width, svg.drop_last(), k);
            assert(segs.drop_last().take(k) == segs.take(k));
            assert(svg.drop_last().take(k) == svg.take(k));
            assert(seg_height_spec(segs.last(), base, width, svg.last()) >= 0);
            assert(seg_height_spec(segs.drop_last()[segs.len() - 2 + 1 - 1], base, width, svg.drop_last()[segs.len() - 2 + 1 - 1]) >= 0 || segs.len() < 2);
        }
    }
}

} // verus!
