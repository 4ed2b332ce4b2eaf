//! Character-sequence utilities with their meaning spelled out: Unicode
//! whitespace, trimming, prefixes, substring search, joining and
//! removing every occurrence of a marker.

use vstd::prelude::*;

verus! {

/// Unicode White_Space (what `char::is_whitespace` accepts).
pub open spec fn is_ws(c: char) -> bool {
    let u = c as u32;
    (0x09 <= u <= 0x0D) || u == 0x20 || u == 0x85 || u == 0xA0 || u == 0x1680 || (0x2000 <= u
        <= 0x200A) || u == 0x2028 || u == 0x2029 || u == 0x202F || u == 0x205F || u == 0x3000
}

pub fn char_is_whitespace(c: char) -> (b: bool)
    ensures
        b == is_ws(c),
{
    let u = c as u32;
    (0x09 <= u && u <= 0x0D) || u == 0x20 || u == 0x85 || u == 0xA0 || u == 0x1680 || (0x2000 <= u
        && u <= 0x200A) || u == 0x2028 || u == 0x2029 || u == 0x202F || u == 0x205F || u == 0x3000
}

pub open spec fn is_ascii_digit(c: char) -> bool {
    '0' <= c <= '9'
}

pub open spec fn is_ascii_alnum(c: char) -> bool {
    ('0' <= c <= '9') || ('a' <= c <= 'z') || ('A' <= c <= 'Z')
}

/// `s` without its leading whitespace.
pub open spec fn trim_start(s: Seq<char>) -> Seq<char>
    decreases s.len(),
{
    if s.len() > 0 && is_ws(s[0]) {
        trim_start(s.drop_first())
    } else {
        s
    }
}

/// `s` without its trailing whitespace.
pub open spec fn trim_end(s: Seq<char>) -> Seq<char>
    decreases s.len(),
{
    if s.len() > 0 && is_ws(s.last()) {
        trim_end(s.drop_last())
    } else {
        s
    }
}

/// `s` without leading and trailing whitespace.
pub open spec fn trim(s: Seq<char>) -> Seq<char> {
    trim_end(trim_start(s))
}

pub open spec fn starts_with(s: Seq<char>, p: Seq<char>) -> bool {
    p.len() <= s.len() && s.take(p.len() as int) == p
}

pub open spec fn ends_with(s: Seq<char>, p: Seq<char>) -> bool {
    p.len() <= s.len() && s.skip(s.len() - p.len()) == p
}

/// Does `p` occur in `s` at position `i`?
pub open spec fn occurs_at(s: Seq<char>, p: Seq<char>, i: int) -> bool {
    0 <= i && i + p.len() <= s.len() && s.subrange(i, i + p.len()) == p
}

pub open spec fn contains(s: Seq<char>, p: Seq<char>) -> bool {
    exists|i: int| #[trigger] occurs_at(s, p, i)
}

/// The parts joined with `sep` between neighbours.
pub open spec fn join(parts: Seq<Seq<char>>, sep: Seq<char>) -> Seq<char>
    decreases parts.len(),
{
    if parts.len() == 0 {
        Seq::empty()
    } else if parts.len() == 1 {
        parts[0]
    } else {
        join(parts.drop_last(), sep) + sep + parts.last()
    }
}

/// `s` with every occurrence of `p` removed, scanning left to right
/// (non-overlapping, like `str::replace(p, "")`).
pub open spec fn remove_all(s: Seq<char>, p: Seq<char>) -> Seq<char>
    decreases s.len(),
{
    if p.len() == 0 || s.len() == 0 {
        s
    } else if starts_with(s, p) {
        remove_all(s.skip(p.len() as int), p)
    } else {
        seq![s[0]] + remove_all(s.drop_first(), p)
    }
}

/// Index of the first non-whitespace character at or after `from`.
pub fn skip_ws(s: &[char], from: usize) -> (i: usize)
    requires
        from <= s@.len(),
    ensures
        from <= i <= s@.len(),
        trim_start(s@.skip(from as int)) == s@.skip(i as int),
{
    let mut i = from;
    while i < s.len() && char_is_whitespace(s[i])
        invariant
            from <= i <= s@.len(),
            trim_start(s@.skip(from as int)) == trim_start(s@.skip(i as int)),
        decreases s.len() - i,
    {
        assert(s@.skip(i as int).drop_first() == s@.skip(i + 1));
        i += 1;
    }
    i
}

/// One past the last non-whitespace character of `s[from..to]`.
pub fn trim_end_at(s: &[char], from: usize, to: usize) -> (j: usize)
    requires
        from <= to <= s@.len(),
    ensures
        from <= j <= to,
        trim_end(s@.subrange(from as int, to as int)) == s@.subrange(from as int, j as int),
{
    let mut j = to;
    while j > from && char_is_whitespace(s[j - 1])
        invariant
            from <= j <= to <= s@.len(),
            trim_end(s@.subrange(from as int, to as int)) == trim_end(
                s@.subrange(from as int, j as int),
            ),
        decreases j,
    {
        assert(s@.subrange(from as int, j as int).drop_last() == s@.subrange(from as int, j - 1));
        j -= 1;
    }
    j
}

/// The bounds of `trim(s[from..to])` within `s`.
pub fn trim_range(s: &[char], from: usize, to: usize) -> (r: (usize, usize))
    requires
        from <= to <= s@.len(),
    ensures
        from <= r.0 <= r.1 <= to,
        trim(s@.subrange(from as int, to as int)) == s@.subrange(r.0 as int, r.1 as int),
{
    let mut i = from;
    while i < to && char_is_whitespace(s[i])
        invariant
            from <= i <= to <= s@.len(),
            trim_start(s@.subrange(from as int, to as int)) == trim_start(
                s@.subrange(i as int, to as int),
            ),
        decreases to - i,
    {
        assert(s@.subrange(i as int, to as int).drop_first() == s@.subrange(i + 1, to as int));
        i += 1;
    }
    if i < to {
        assert(!is_ws(s@.subrange(i as int, to as int)[0]));
    }
    assert(trim_start(s@.subrange(i as int, to as int)) == s@.subrange(i as int, to as int));
    let j = trim_end_at(s, i, to);
    (i, j)
}

/// Does `p` occur in `s` starting at `i`?
pub fn matches_at(s: &[char], i: usize, p: &[char]) -> (b: bool)
    ensures
        b == occurs_at(s@, p@, i as int),
{
    if i > s.len() || p.len() > s.len() - i {
        return false;
    }
    let mut k: usize = 0;
    while k < p.len()
        invariant
            i <= s@.len(),
            i + p@.len() <= s@.len(),
            k <= p@.len(),
            forall|m: int| 0 <= m < k ==> s@[i + m] == p@[m],
        decreases p.len() - k,
    {
        assert(i + k < s@.len());
        assert(s@.len() == s.len());
        if s[i + k] != p[k] {
            assert(s@.subrange(i as int, i + p@.len())[k as int] != p@[k as int]);
            return false;
        }
        k += 1;
    }
    assert(s@.subrange(i as int, i + p@.len()) =~= p@);
    true
}

/// Does `s` start with `p`?
pub fn has_prefix(s: &[char], p: &[char]) -> (b: bool)
    ensures
        b == starts_with(s@, p@),
{
    let b = matches_at(s, 0, p);
    assert(b ==> s@.subrange(0, p@.len() as int) == s@.take(p@.len() as int));
    assert(starts_with(s@, p@) ==> s@.subrange(0, p@.len() as int) == s@.take(p@.len() as int));
    b
}

/// Position of the first occurrence of `p` in `s` at or after `from`.
pub fn find_from(s: &[char], p: &[char], from: usize) -> (r: Option<usize>)
    requires
        from <= s@.len(),
    ensures
        match r {
            Some(i) => from <= i && occurs_at(s@, p@, i as int) && forall|j: int|
                from <= j < i ==> !#[trigger] occurs_at(s@, p@, j),
            None => forall|j: int| from <= j ==> !#[trigger] occurs_at(s@, p@, j),
        },
{
    let mut i = from;
    while i < s.len()
        invariant
            from <= i <= s@.len(),
            forall|j: int| from <= j < i ==> !#[trigger] occurs_at(s@, p@, j),
        decreases s.len() - i,
    {
        if matches_at(s, i, p) {
            return Some(i);
        }
        i += 1;
    }
    if matches_at(s, i, p) {
        return Some(i);
    }
    assert forall|j: int| from <= j implies !#[trigger] occurs_at(s@, p@, j) by {
        if j > i {
            assert(j + p@.len() > s@.len());
        }
    }
    None
}

/// Does `p` occur anywhere in `s`?
pub fn has_substr(s: &[char], p: &[char]) -> (b: bool)
    ensures
        b == contains(s@, p@),
{
    match find_from(s, p, 0) {
        Some(i) => true,
        None => false,
    }
}

/// `s` with every occurrence of `p` removed (left to right).
pub fn remove_all_exec(s: &[char], p: &[char]) -> (out: Vec<char>)
    ensures
        out@ == remove_all(s@, p@),
{
    let mut out: Vec<char> = Vec::new();
    if p.len() == 0 {
        let mut k: usize = 0;
        while k < s.len()
            invariant
                k <= s@.len(),
                out@ == s@.take(k as int),
            decreases s.len() - k,
        {
            out.push(s[k]);
            k += 1;
        }
        assert(s@.take(s@.len() as int) == s@);
        return out;
    }
    let mut i: usize = 0;
    assert(s@.skip(0) == s@);
    while i < s.len()
        invariant
            i <= s@.len(),
            p@.len() > 0,
            out@ + remove_all(s@.skip(i as int), p@) == remove_all(s@, p@),
        decreases s.len() - i,
    {
        let ghost rest = s@.skip(i as int);
        let m = matches_at(s, i, p);
        assert(m == starts_with(rest, p@)) by {
            if m {
                assert(rest.take(p@.len() as int) == s@.subrange(i as int, i + p@.len()));
            }
            if starts_with(rest, p@) {
                assert(rest.take(p@.len() as int) == s@.subrange(i as int, i + p@.len()));
            }
        }
        if m {
            assert(rest.skip(p@.len() as int) == s@.skip(i + p@.len()));
            i = i + p.len();
        } else {
            assert(rest.drop_first() == s@.skip(i + 1));
            assert(rest[0] == s@[i as int]);
            let ghost before = out@;
            out.push(s[i]);
            assert(out@ + remove_all(s@.skip(i + 1), p@) == before + (seq![s@[i as int]]
                + remove_all(s@.skip(i + 1), p@)));
            i += 1;
        }
    }
    assert(s@.skip(i as int) == Seq::<char>::empty());
    assert(out@ + Seq::<char>::empty() == out@);
    out
}

/// Joins the character sequences with `sep` between neighbours.
pub fn join_chars(parts: &Vec<Vec<char>>, sep: &[char]) -> (out: Vec<char>)
    ensures
        out@ == join(parts.deep_view(), sep@),
{
    let mut out: Vec<char> = Vec::new();
    let mut k: usize = 0;
    while k < parts.len()
        invariant
            k <= parts@.len(),
            out@ == join(parts.deep_view().take(k as int), sep@),
        decreases parts.len() - k,
    {
        let ghost before = out@;
        if k > 0 {
            let mut m: usize = 0;
            while m < sep.len()
                invariant
                    m <= sep@.len(),
                    out@ == before + sep@.take(m as int),
                decreases sep.len() - m,
            {
                out.push(sep[m]);
                m += 1;
            }
            assert(sep@.take(sep@.len() as int) == sep@);
        }
        let ghost mid = out@;
        let part = &parts[k];
        let mut m: usize = 0;
        while m < part.len()
            invariant
                m <= part@.len(),
                out@ == mid + part@.take(m as int),
            decreases part.len() - m,
        {
            out.push(part[m]);
            m += 1;
        }
        assert(part@.take(part@.len() as int) == part@);
        proof {
            let ps = parts.deep_view().take(k + 1);
            assert(ps.drop_last() == parts.deep_view().take(k as int));
            assert(ps.last() == part@);
            if k == 0 {
                assert(ps.len() == 1);
                assert(before == Seq::<char>::empty());
                assert(out@ == ps[0]);
            }
        }
        k += 1;
    }
    assert(parts.deep_view().take(parts@.len() as int) == parts.deep_view());
    out
}

} // verus!
