//! The text side of the small SVG reader: splitting a source into its
//! tags, a tag's element name, an attribute's quoted value, plain text
//! from markup, and plotting one pixel of the raster. The geometry
//! (numbers, shapes, scan conversion) works on floats and lives with the
//! application.

use vstd::prelude::*;
use crate::strs::{chars_of, string_of};
use crate::text::{is_ws, is_ascii_alnum, occurs_at};

verus! {

/// Index of the first `c` in `s` at or after `from`.
pub open spec fn find_char(s: Seq<char>, c: char, from: int) -> Option<int>
    decreases s.len() - from,
{
    if from < 0 || from >= s.len() {
        None
    } else if s[from] == c {
        Some(from)
    } else {
        find_char(s, c, from + 1)
    }
}

/// The inner text of each `<...>` tag of `s` from `from` on, in order; a
/// `<` without a closing `>` ends the list.
pub open spec fn tags_from(s: Seq<char>, from: int) -> Seq<Seq<char>>
    decreases s.len() - from,
{
    if from < 0 || from >= s.len() {
        Seq::empty()
    } else {
        match find_char(s, '<', from) {
            None => Seq::empty(),
            Some(a) => match find_char(s, '>', a) {
                None => Seq::empty(),
                Some(b) => {
                    proof {
                        lemma_find_char_bounds(s, '<', from);
                        lemma_find_char_bounds(s, '>', a);
                    }
                    seq![s.subrange(a + 1, b)] + tags_from(s, b + 1)
                },
            },
        }
    }
}

pub proof fn lemma_find_char_bounds(s: Seq<char>, c: char, from: int)
    ensures
        find_char(s, c, from) matches Some(i) ==> from <= i < s.len() && s[i] == c && forall|
            k: int,
        | from <= k < i ==> s[k] != c,
        find_char(s, c, from) is None && from >= 0 ==> forall|k: int| from <= k < s.len() ==> s[k] != c,
    decreases s.len() - from,
{
    if 0 <= from < s.len() && s[from] != c {
        lemma_find_char_bounds(s, c, from + 1);
    }
}

/// Index of the first `c` in `s` at or after `from`.
fn find_char_exec(s: &[char], c: char, from: usize) -> (r: Option<usize>)
    ensures
        match r {
            Some(i) => find_char(s@, c, from as int) == Some(i as int),
            None => find_char(s@, c, from as int) is None,
        },
{
    let mut i = from;
    while i < s.len()
        invariant
            from <= i,
            find_char(s@, c, from as int) == find_char(s@, c, i as int),
        decreases s.len() - i,
    {
        if s[i] == c {
            return Some(i);
        }
        i += 1;
    }
    None
}

/// The inner text of each `<...>` tag, without the angle brackets.
pub fn tags(src: &str) -> (out: Vec<String>)
    ensures
        out.deep_view() == tags_from(src@, 0),
{
    let s = chars_of(src);
    let mut out: Vec<String> = Vec::new();
    let mut from: usize = 0;
    let mut done = false;
    while !done && from < s.len()
        invariant
            from <= s@.len() + 1,
            s@ == src@,
            tags_from(s@, 0) == out.deep_view() + tags_from(s@, from as int),
            done ==> tags_from(s@, from as int) == Seq::<Seq<char>>::empty(),
        decreases s.len() + 1 - from + if done {
            0int
        } else {
            1int
        },
    {
        proof {
            lemma_find_char_bounds(s@, '<', from as int);
        }
        match find_char_exec(&s, '<', from) {
            None => {
                done = true;
            },
            Some(a) => {
                proof {
                    lemma_find_char_bounds(s@, '>', a as int);
                }
                match find_char_exec(&s, '>', a) {
                    None => {
                        done = true;
                    },
                    Some(b) => {
                        assert(s@[a as int] == '<');
                        assert(a < b);
                        let piece = string_of(&s, a + 1, b);
                        let ghost prev = out.deep_view();
                        crate::wrap::push_line(&mut out, piece);
                        assert(tags_from(s@, from as int) == seq![s@.subrange(a + 1, b as int)]
                            + tags_from(s@, b + 1));
                        assert(out.deep_view() + tags_from(s@, b + 1) =~= prev + tags_from(
                            s@,
                            from as int,
                        ));
                        from = b + 1;
                    },
                }
            },
        }
    }
    assert(tags_from(s@, from as int) =~= Seq::<Seq<char>>::empty());
    assert(out.deep_view() + Seq::<Seq<char>>::empty() =~= out.deep_view());
    out
}

/// The leading `/`s of a tag dropped.
pub open spec fn drop_slashes(s: Seq<char>) -> Seq<char>
    decreases s.len(),
{
    if s.len() > 0 && s[0] == '/' {
        drop_slashes(s.drop_first())
    } else {
        s
    }
}

/// Does the element name end at `c`?
pub open spec fn ends_name(c: char) -> bool {
    is_ws(c) || c == '/'
}

/// The longest prefix of `s` without a name-ending character.
pub open spec fn name_prefix(s: Seq<char>) -> Seq<char>
    decreases s.len(),
{
    if s.len() == 0 || ends_name(s[0]) {
        Seq::empty()
    } else {
        seq![s[0]] + name_prefix(s.drop_first())
    }
}

/// A tag's element name: after any leading `/`, up to the first
/// whitespace or `/`.
pub open spec fn tag_name_spec(tag: Seq<char>) -> Seq<char> {
    name_prefix(drop_slashes(tag))
}

/// The element name of a tag body ("rect", "svg", "text", ...).
pub fn tag_name(tag: &str) -> (n: String)
    ensures
        n@ == tag_name_spec(tag@),
{
    let s = chars_of(tag);
    let mut i: usize = 0;
    assert(s@.skip(0) =~= s@);
    while i < s.len() && s[i] == '/'
        invariant
            i <= s@.len(),
            drop_slashes(s@) == drop_slashes(s@.skip(i as int)),
        decreases s.len() - i,
    {
        assert(s@.skip(i as int).drop_first() =~= s@.skip(i + 1));
        i += 1;
    }
    assert(drop_slashes(s@.skip(i as int)) == s@.skip(i as int));
    let start = i;
    while i < s.len() && !(crate::text::char_is_whitespace(s[i]) || s[i] == '/')
        invariant
            start <= i <= s@.len(),
            name_prefix(s@.skip(start as int)) == s@.subrange(start as int, i as int)
                + name_prefix(s@.skip(i as int)),
        decreases s.len() - i,
    {
        assert(s@.skip(i as int).drop_first() =~= s@.skip(i + 1));
        assert(s@.subrange(start as int, i + 1) =~= s@.subrange(start as int, i as int) + seq![
            s@[i as int],
        ]);
        i += 1;
    }
    assert(name_prefix(s@.skip(i as int)) =~= Seq::<char>::empty());
    assert(s@.subrange(start as int, i as int) + Seq::<char>::empty() =~= s@.subrange(
        start as int,
        i as int,
    ));
    string_of(&s, start, i)
}

/// Index of the first non-whitespace character of `s` at or after `i`.
pub open spec fn skip_ws_from(s: Seq<char>, i: int) -> int
    decreases s.len() - i,
{
    if 0 <= i < s.len() && is_ws(s[i]) {
        skip_ws_from(s, i + 1)
    } else {
        i
    }
}

/// The first occurrence of `p` in `s` at or after `from`.
pub open spec fn find_from(s: Seq<char>, p: Seq<char>, from: int) -> Option<int>
    decreases s.len() + 1 - from,
{
    if from < 0 || from + p.len() > s.len() {
        None
    } else if occurs_at(s, p, from) {
        Some(from)
    } else {
        find_from(s, p, from + 1)
    }
}

/// What one occurrence of the attribute name at `idx` gives: Some(r)
/// ends the search with `r`, None goes on after it.
pub open spec fn attr_at(tag: Seq<char>, name: Seq<char>, idx: int) -> Option<Option<Seq<char>>> {
    let before_ok = idx == 0 || !is_ascii_alnum(tag[idx - 1]);
    let e = skip_ws_from(tag, idx + name.len());
    if before_ok && e < tag.len() && tag[e] == '=' {
        let v = skip_ws_from(tag, e + 1);
        if v >= tag.len() {
            Some(None)
        } else if tag[v] == '"' || tag[v] == '\'' {
            match find_char(tag, tag[v], v + 1) {
                None => Some(None),
                Some(end) => Some(Some(tag.subrange(v + 1, end))),
            }
        } else {
            None
        }
    } else {
        None
    }
}

/// The value of attribute `name` in a tag body, searching occurrences
/// from `from` on.
pub open spec fn attr_from(tag: Seq<char>, name: Seq<char>, from: int) -> Option<Seq<char>>
    decreases tag.len() - from,
{
    if name.len() == 0 {
        None
    } else {
        match find_from(tag, name, from) {
            None => None,
            Some(idx) => match attr_at(tag, name, idx) {
                Some(r) => r,
                None => if idx + name.len() > from {
                    proof {
                        lemma_find_from_bounds(tag, name, from);
                    }
                    attr_from(tag, name, idx + name.len())
                } else {
                    None
                },
            },
        }
    }
}

pub proof fn lemma_find_from_bounds(s: Seq<char>, p: Seq<char>, from: int)
    ensures
        find_from(s, p, from) matches Some(i) ==> from <= i && i + p.len() <= s.len() && occurs_at(s, p, i),
    decreases s.len() + 1 - from,
{
    if from >= 0 && from + p.len() <= s.len() && !occurs_at(s, p, from) {
        lemma_find_from_bounds(s, p, from + 1);
    }
}

fn find_from_exec(s: &[char], p: &[char], from: usize) -> (r: Option<usize>)
    ensures
        match r {
            Some(i) => find_from(s@, p@, from as int) == Some(i as int),
            None => find_from(s@, p@, from as int) is None,
        },
{
    let mut i = from;
    while i < s.len() && p.len() <= s.len() - i
        invariant
            from <= i,
            find_from(s@, p@, from as int) == find_from(s@, p@, i as int),
        decreases s.len() - i,
    {
        if crate::text::matches_at(s, i, p) {
            return Some(i);
        }
        i += 1;
    }
    if i == s.len() && p.len() == 0 {
        assert(occurs_at(s@, p@, i as int)) by {
            assert(s@.subrange(i as int, i as int) =~= p@);
        }
        return Some(i);
    }
    None
}

fn skip_ws_exec(s: &[char], i: usize) -> (r: usize)
    ensures
        r == skip_ws_from(s@, i as int),
{
    let mut j = i;
    while j < s.len() && crate::text::char_is_whitespace(s[j])
        invariant
            i <= j,
            skip_ws_from(s@, i as int) == skip_ws_from(s@, j as int),
        decreases s.len() - j,
    {
        j += 1;
    }
    j
}

fn is_alnum(c: char) -> (b: bool)
    ensures
        b == is_ascii_alnum(c),
{
    ('0' <= c && c <= '9') || ('a' <= c && c <= 'z') || ('A' <= c && c <= 'Z')
}

/// The value of `name="..."` (or `name='...'`) within a tag body: the
/// first occurrence of the name that starts an attribute (not the tail of
/// a longer name) and is followed by `=`. A quote that never closes, or
/// nothing after the `=`, gives None.
pub fn attr(tag: &str, name: &str) -> (v: Option<String>)
    requires
        name@.len() > 0,
    ensures
        match v {
            Some(s) => attr_from(tag@, name@, 0) == Some(s@),
            None => attr_from(tag@, name@, 0) is None,
        },
{
    let t = chars_of(tag);
    let n = chars_of(name);
    let mut from: usize = 0;
    loop
        invariant
            t@ == tag@,
            n@ == name@,
            n@.len() > 0,
            attr_from(t@, n@, 0) == attr_from(t@, n@, from as int),
        decreases t@.len() + 1 - from,
    {
        proof {
            lemma_find_from_bounds(t@, n@, from as int);
        }
        let idx = match find_from_exec(&t, &n, from) {
            None => {
                return None;
            },
            Some(idx) => idx,
        };
        let before_ok = idx == 0 || !is_alnum(t[idx - 1]);
        let e = skip_ws_exec(&t, idx + n.len());
        if before_ok && e < t.len() && t[e] == '=' {
            let v = skip_ws_exec(&t, e + 1);
            if v >= t.len() {
                return None;
            }
            let q = t[v];
            if q == '"' || q == '\'' {
                return match find_char_exec(&t, q, v + 1) {
                    None => None,
                    Some(end) => {
                        proof {
                            lemma_find_char_bounds(t@, q, v + 1);
                        }
                        Some(string_of(&t, v + 1, end))
                    },
                };
            }
        }
        from = idx + n.len();
    }
}

/// Characters outside `<...>` markup (a `>` closes one level of `<`; the
/// depth may go negative, and text counts wherever it is not positive),
/// with `depth` levels open before `s`.
pub open spec fn outside_tags(s: Seq<char>, depth: int) -> Seq<char>
    decreases s.len(),
{
    if s.len() == 0 {
        Seq::empty()
    } else if s[0] == '<' {
        outside_tags(s.drop_first(), depth + 1)
    } else if s[0] == '>' {
        outside_tags(s.drop_first(), depth - 1)
    } else if depth <= 0 {
        seq![s[0]] + outside_tags(s.drop_first(), depth)
    } else {
        outside_tags(s.drop_first(), depth)
    }
}

/// The maximal runs of non-whitespace characters of `s`.
pub open spec fn words_of(s: Seq<char>) -> Seq<Seq<char>>
    decreases s.len(),
{
    if s.len() == 0 {
        Seq::empty()
    } else {
        let w = words_of(s.drop_last());
        if is_ws(s.last()) {
            w
        } else if s.len() >= 2 && !is_ws(s[s.len() - 2]) && w.len() > 0 {
            w.update(w.len() - 1, w.last().push(s.last()))
        } else {
            w.push(seq![s.last()])
        }
    }
}

/// Plain text of a marked-up string: markup dropped, whitespace runs
/// collapsed to one space, no leading or trailing space.
pub open spec fn strip_tags_spec(s: Seq<char>) -> Seq<char> {
    crate::text::join(words_of(outside_tags(s, 0)), seq![' '])
}

/// Plain text of a marked-up string.
pub fn strip_tags(s: &str) -> (out: String)
    ensures
        out@ == strip_tags_spec(s@),
{
    let cs = chars_of(s);
    let mut text: Vec<char> = Vec::new();
    let mut depth: i128 = 0;
    let mut i: usize = 0;
    assert(cs@.skip(0) =~= cs@);
    while i < cs.len()
        invariant
            i <= cs@.len(),
            cs@ == s@,
            -(i as int) <= depth <= i,
            outside_tags(cs@, 0) == text@ + outside_tags(cs@.skip(i as int), depth as int),
        decreases cs.len() - i,
    {
        let c = cs[i];
        assert(cs@.skip(i as int).drop_first() =~= cs@.skip(i + 1));
        assert(cs@.skip(i as int)[0] == c);
        if c == '<' {
            depth += 1;
        } else if c == '>' {
            depth -= 1;
        } else if depth <= 0 {
            let ghost prev = text@;
            text.push(c);
            assert(prev + (seq![c] + outside_tags(cs@.skip(i + 1), depth as int)) =~= text@
                + outside_tags(cs@.skip(i + 1), depth as int));
        }
        i += 1;
    }
    assert(cs@.skip(i as int) =~= Seq::<char>::empty());
    assert(text@ + Seq::<char>::empty() =~= text@);
    let words = split_words(&text);
    let sep = vec![' '];
    assert(sep@ =~= seq![' ']);
    let joined = crate::text::join_chars(&words, sep.as_slice());
    string_of(&joined, 0, joined.len())
}

/// The maximal runs of non-whitespace characters.
pub fn split_words(t: &Vec<char>) -> (ws: Vec<Vec<char>>)
    ensures
        ws.deep_view() == words_of(t@),
{
    let mut ws: Vec<Vec<char>> = Vec::new();
    let mut cur: Vec<char> = Vec::new();
    let mut i: usize = 0;
    while i < t.len()
        invariant
            i <= t@.len(),
            words_of(t@.take(i as int)) == if cur@.len() > 0 {
                ws.deep_view().push(cur@)
            } else {
                ws.deep_view()
            },
            cur@.len() > 0 <==> (i >= 1 && !is_ws(t@[i - 1])),
        decreases t.len() - i,
    {
        let c = t[i];
        assert(t@.take(i + 1).drop_last() =~= t@.take(i as int));
        assert(t@.take(i + 1).last() == c);
        if crate::text::char_is_whitespace(c) {
            if cur.len() > 0 {
                let done = cur;
                crate::wrap::push_piece(&mut ws, done);
                cur = Vec::new();
            }
        } else {
            proof {
                if i >= 1 {
                    assert(t@.take(i + 1)[i - 1] == t@[i - 1]);
                }
            }
            let ghost before = if cur@.len() > 0 {
                ws.deep_view().push(cur@)
            } else {
                ws.deep_view()
            };
            cur.push(c);
            proof {
                if cur@.len() > 1 {
                    assert(before.update(before.len() - 1, before.last().push(c)) =~= ws.deep_view().push(cur@));
                } else {
                    assert(cur@ =~= seq![c]);
                    assert(before.push(seq![c]) =~= ws.deep_view().push(cur@));
                }
            }
        }
        i += 1;
    }
    assert(t@.take(t@.len() as int) =~= t@);
    if cur.len() > 0 {
        crate::wrap::push_piece(&mut ws, cur);
    }
    ws
}

/// Plot one black pixel at (x, y) of a `w` x `h` raster, if it is inside.
pub fn put(buf: &mut [u8], w: i32, h: i32, x: i32, y: i32)
    requires
        w > 0 && h > 0 ==> w * h <= old(buf)@.len() && w * h <= i32::MAX,
    ensures
        final(buf)@ == if 0 <= x < w && 0 <= y < h {
            old(buf)@.update(y * w + x, 0u8)
        } else {
            old(buf)@
        },
{
    if x >= 0 && x < w && y >= 0 && y < h {
        assert(0 <= y * w + x < w * h) by (nonlinear_arith)
            requires
                0 <= x < w,
                0 <= y < h,
        ;
        buf[(y * w + x) as usize] = 0;
    }
}

} // verus!
