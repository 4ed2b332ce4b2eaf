//! Finding a phrase among the word boxes of a page of print, so the
//! assistant can underline "the third occurrence of ..." Words and the
//! phrase are compared as normalized tokens (letters and digits,
//! lowercased); a word split by a hyphen at a line end matches as one.

use vstd::prelude::*;
use crate::highlight::{Word, abs};
use crate::geom::{trunc_div, min_spec, max_spec};
use crate::strs::chars_of;
use crate::svg::words_of;
use crate::text::{is_ws, trim_end, trim_end_at};

verus! {

/// Is `c` alphanumeric in the Unicode sense (std `char::is_alphanumeric`)?
pub uninterp spec fn alnum(c: char) -> bool;

/// std `char::is_alphanumeric`: whether the character is Unicode
/// alphabetic or numeric. Which characters those are is left to std's
/// tables; the result is only named `alnum` of the argument.
#[verifier::external_body]
fn is_alphanumeric(c: char) -> (b: bool)
    ensures
        b == alnum(c),
{
    c.is_alphanumeric()
}

/// The lowercase mapping of `c` (std `char::to_lowercase`), one or more
/// characters.
pub uninterp spec fn lower(c: char) -> Seq<char>;

/// std `char::to_lowercase`, collected: the Unicode lowercase mapping of
/// the character. The mapping itself is left to std's tables; the result
/// is only named `lower` of the argument.
#[verifier::external_body]
fn to_lowercase(c: char) -> (s: Vec<char>)
    ensures
        s@ == lower(c),
{
    c.to_lowercase().collect()
}

/// A word as a comparison token: its alphanumeric characters, lowercased.
pub open spec fn norm_token_spec(s: Seq<char>) -> Seq<char>
    decreases s.len(),
{
    if s.len() == 0 {
        Seq::empty()
    } else {
        norm_token_spec(s.drop_last()) + if alnum(s.last()) {
            lower(s.last())
        } else {
            Seq::empty()
        }
    }
}

fn norm_chars(s: &str) -> (t: Vec<char>)
    ensures
        t@ == norm_token_spec(s@),
{
    let cs = chars_of(s);
    let mut out: Vec<char> = Vec::new();
    let mut i: usize = 0;
    while i < cs.len()
        invariant
            i <= cs@.len(),
            cs@ == s@,
            out@ == norm_token_spec(cs@.take(i as int)),
        decreases cs.len() - i,
    {
        assert(cs@.take(i + 1).drop_last() =~= cs@.take(i as int));
        let c = cs[i];
        if is_alphanumeric(c) {
            let l = to_lowercase(c);
            out.extend_from_slice(&l);
        }
        i += 1;
        assert(out@ =~= norm_token_spec(cs@.take(i as int)));
    }
    assert(cs@.take(cs@.len() as int) =~= cs@);
    out
}

/// A word as a comparison token: its alphanumeric characters, lowercased.
pub fn norm_token(s: &str) -> (t: String)
    ensures
        t@ == norm_token_spec(s@),
{
    let v = norm_chars(s);
    crate::strs::string_of(&v, 0, v.len())
}

/// The tokens of a phrase: its whitespace-separated words normalized,
/// empty tokens dropped.
pub open spec fn want_tokens(ws: Seq<Seq<char>>) -> Seq<Seq<char>>
    decreases ws.len(),
{
    if ws.len() == 0 {
        Seq::empty()
    } else {
        let t = norm_token_spec(ws.last());
        if t.len() > 0 {
            want_tokens(ws.drop_last()).push(t)
        } else {
            want_tokens(ws.drop_last())
        }
    }
}

/// Matching the tokens `want` from token `k` against the words' tokens
/// from word `i`, with the words used so far. A word with an empty token
/// (punctuation) is carried along once a match has begun; a hyphenated
/// word matches together with the next one. Gives the words used and how
/// many tokens matched.
pub open spec fn run_match(
    toks: Seq<Seq<char>>,
    hyphen: Seq<bool>,
    want: Seq<Seq<char>>,
    i: int,
    k: int,
    used: Seq<usize>,
) -> (Seq<usize>, int)
    decreases toks.len() - i,
{
    if k >= want.len() || i >= toks.len() || i < 0 {
        (used, k)
    } else if toks[i].len() == 0 {
        if used.len() == 0 {
            (used, k)
        } else {
            run_match(toks, hyphen, want, i + 1, k, used.push(i as usize))
        }
    } else if toks[i] == want[k] {
        run_match(toks, hyphen, want, i + 1, k + 1, used.push(i as usize))
    } else if hyphen[i] && i + 1 < toks.len() && toks[i] + toks[i + 1] == want[k] {
        run_match(toks, hyphen, want, i + 2, k + 1, used.push(i as usize).push((i + 1) as usize))
    } else {
        (used, k)
    }
}

/// Every occurrence of the phrase among the first `n` start words, in
/// order, as the words it covers.
pub open spec fn all_matches(toks: Seq<Seq<char>>, hyphen: Seq<bool>, want: Seq<Seq<char>>, n: int) -> Seq<
    Seq<usize>,
>
    decreases n,
{
    if n <= 0 {
        Seq::empty()
    } else {
        let prev = all_matches(toks, hyphen, want, n - 1);
        let (used, k) = run_match(toks, hyphen, want, n - 1, 0, Seq::empty());
        if k == want.len() {
            prev.push(used)
        } else {
            prev
        }
    }
}

pub open spec fn word_tokens(ws: Seq<Word>) -> Seq<Seq<char>> {
    ws.map_values(|w: Word| norm_token_spec(w.text@))
}

pub open spec fn word_hyphens(ws: Seq<Word>) -> Seq<bool> {
    ws.map_values(
        |w: Word| {
            let t = trim_end(w.text@);
            t.len() > 0 && t.last() == '-'
        },
    )
}

/// The `nth` occurrence (1-based; 0 counts as 1) of `phrase` among the
/// words, as the word indices it covers, and how many occurrences there
/// are. No occurrence for an empty phrase or page.
pub open spec fn find_phrase_spec(ws: Seq<Word>, phrase: Seq<char>, nth: int) -> (Option<Seq<usize>>, int) {
    let want = want_tokens(words_of(phrase));
    if want.len() == 0 || ws.len() == 0 {
        (None, 0)
    } else {
        let ms = all_matches(word_tokens(ws), word_hyphens(ws), want, ws.len() as int);
        let p = if nth >= 1 {
            nth - 1
        } else {
            0
        };
        (if p < ms.len() {
            Some(ms[p])
        } else {
            None
        }, ms.len() as int)
    }
}

fn same_chars(a: &Vec<char>, b: &Vec<char>) -> (r: bool)
    ensures
        r == (a@ == b@),
{
    if a.len() != b.len() {
        return false;
    }
    let m = crate::text::matches_at(a, 0, b);
    proof {
        if m {
            assert(a@ =~= b@);
        } else if a@ == b@ {
            assert(a@.subrange(0, b@.len() as int) =~= b@);
        }
    }
    m
}

fn concat_eq(a: &Vec<char>, b: &Vec<char>, w: &Vec<char>) -> (r: bool)
    ensures
        r == (a@ + b@ == w@),
{
    let mut ab = crate::strs::copy_chars(a);
    let mut j: usize = 0;
    while j < b.len()
        invariant
            j <= b@.len(),
            ab@ == a@ + b@.take(j as int),
        decreases b.len() - j,
    {
        ab.push(b[j]);
        j += 1;
        assert(ab@ =~= a@ + b@.take(j as int));
    }
    assert(b@.take(b@.len() as int) =~= b@);
    same_chars(&ab, w)
}

/// Words used by the match starting at `start`, and tokens matched.
fn match_at(toks: &Vec<Vec<char>>, hyphen: &Vec<bool>, want: &Vec<Vec<char>>, start: usize) -> (r: (Vec<usize>, usize))
    requires
        hyphen@.len() == toks@.len(),
        start <= toks@.len(),
    ensures
        (r.0@, r.1 as int) == run_match(toks.deep_view(), hyphen@, want.deep_view(), start as int, 0, Seq::empty()),
{
    let ghost tv = toks.deep_view();
    let ghost wv = want.deep_view();
    let mut used: Vec<usize> = Vec::new();
    let mut i = start;
    let mut k: usize = 0;
    let mut done = false;
    while !done && k < want.len() && i < toks.len()
        invariant
            hyphen@.len() == toks@.len(),
            tv == toks.deep_view(),
            wv == want.deep_view(),
            k <= want@.len(),
            start <= i,
            i <= toks@.len() + 1,
            done ==> run_match(tv, hyphen@, wv, start as int, 0, Seq::empty()) == (used@, k as int),
            !done ==> run_match(tv, hyphen@, wv, start as int, 0, Seq::empty()) == run_match(
                tv,
                hyphen@,
                wv,
                i as int,
                k as int,
                used@,
            ),
        decreases toks.len() + 2 - i + if done {
            0int
        } else {
            1int
        },
    {
        assert(tv[i as int] =~= toks@[i as int]@);
        assert(wv[k as int] =~= want@[k as int]@);
        if toks[i].len() == 0 {
            if used.len() == 0 {
                done = true;
            } else {
                used.push(i);
                i += 1;
            }
        } else if same_chars(&toks[i], &want[k]) {
            used.push(i);
            i += 1;
            k += 1;
        } else if hyphen[i] && i + 1 < toks.len() && {
            assert(tv[i + 1] =~= toks@[i + 1]@);
            concat_eq(&toks[i], &toks[i + 1], &want[k])
        } {
            used.push(i);
            used.push(i + 1);
            i += 2;
            k += 1;
        } else {
            done = true;
        }
    }
    (used, k)
}

/// The `nth` occurrence (1-based) of `phrase` among the page's words, as
/// the word indices it covers, and the number of occurrences.
pub fn find_phrase(words: &[Word], phrase: &str, nth: usize) -> (r: (Option<Vec<usize>>, usize))
    ensures
        ({
            let (m, total) = find_phrase_spec(words@, phrase@, nth as int);
            &&& r.1 == total
            &&& match r.0 {
                Some(v) => m == Some(v@),
                None => m is None,
            }
        }),
{
    let pcs = chars_of(phrase);
    let pws = crate::svg::split_words(&pcs);
    let mut want: Vec<Vec<char>> = Vec::new();
    let mut q: usize = 0;
    let ghost pv = pws.deep_view();
    while q < pws.len()
        invariant
            q <= pws@.len(),
            pv == pws.deep_view(),
            want.deep_view() == want_tokens(pv.take(q as int)),
        decreases pws.len() - q,
    {
        assert(pv.take(q + 1).drop_last() =~= pv.take(q as int));
        assert(pv.take(q + 1).last() =~= pws@[q as int]@);
        let w = &pws[q];
        let s = crate::strs::string_of(w, 0, w.len());
        assert(w@.subrange(0, w@.len() as int) =~= w@);
        let t = norm_chars(s.as_str());
        if t.len() > 0 {
            crate::wrap::push_piece(&mut want, t);
        }
        q += 1;
    }
    assert(pv.take(pws@.len() as int) =~= pv);
    if want.len() == 0 || words.len() == 0 {
        return (None, 0);
    }
    let mut toks: Vec<Vec<char>> = Vec::new();
    let mut hyphen: Vec<bool> = Vec::new();
    let mut i: usize = 0;
    while i < words.len()
        invariant
            i <= words@.len(),
            toks.deep_view() == word_tokens(words@).take(i as int),
            hyphen@ == word_hyphens(words@).take(i as int),
        decreases words.len() - i,
    {
        let t = norm_chars(words[i].text.as_str());
        crate::wrap::push_piece(&mut toks, t);
        let cs = chars_of(words[i].text.as_str());
        let e = trim_end_at(&cs, 0, cs.len());
        assert(cs@.subrange(0, cs@.len() as int) =~= cs@);
        hyphen.push(e > 0 && cs[e - 1] == '-');
        i += 1;
        assert(toks.deep_view() =~= word_tokens(words@).take(i as int));
        assert(hyphen@ =~= word_hyphens(words@).take(i as int));
    }
    assert(word_tokens(words@).take(words@.len() as int) =~= word_tokens(words@));
    assert(word_hyphens(words@).take(words@.len() as int) =~= word_hyphens(words@));
    let ghost tv = toks.deep_view();
    let ghost wv = want.deep_view();
    let mut matches: Vec<Vec<usize>> = Vec::new();
    let mut start: usize = 0;
    while start < words.len()
        invariant
            start <= words@.len(),
            toks@.len() == words@.len(),
            hyphen@.len() == toks@.len(),
            tv == toks.deep_view(),
            wv == want.deep_view(),
            matches@.len() == all_matches(tv, hyphen@, wv, start as int).len(),
            forall|m: int|
                0 <= m < matches@.len() ==> (#[trigger] matches@[m])@ == all_matches(
                    tv,
                    hyphen@,
                    wv,
                    start as int,
                )[m],
        decreases words.len() - start,
    {
        let (used, k) = match_at(&toks, &hyphen, &want, start);
        if k == want.len() {
            matches.push(used);
        }
        start += 1;
    }
    let total = matches.len();
    let p = if nth >= 1 {
        nth - 1
    } else {
        0
    };
    if p < matches.len() {
        let picked = vstd::slice::slice_to_vec(matches[p].as_slice());
        (Some(picked), total)
    } else {
        (None, total)
    }
}


/* ---- underlining a match -------------------------------------------------- */

/// One underline: from the left edge of its first word to the right edge
/// of its last, under the lowest bottom edge.
#[derive(Clone, Copy, PartialEq, Eq, Structural, Debug)]
pub struct Span {
    pub x0: i32,
    pub x1: i32,
    pub y: i32,
}

/// Does word `w` continue the line of the word `prev` before it? Their
/// centres lie within half the taller box (at least 6 px) of each other,
/// and `w` does not start more than 40 px left of `prev`.
pub open spec fn joins(prev: Word, w: Word) -> bool {
    let cy = trunc_div(w.y0 + w.y1, 2);
    let pcy = trunc_div(prev.y0 + prev.y1, 2);
    let tol = max_spec(trunc_div(max_spec(prev.y1 - prev.y0, w.y1 - w.y0), 2), 6);
    abs(cy - pcy) <= tol && w.x0 >= prev.x0 - 40
}

/// The underlines of the picked words, in order: each picked word joins
/// the line of the one picked before it, or starts a new line.
pub open spec fn spans_spec(ws: Seq<Word>, picked: Seq<usize>) -> Seq<Span>
    decreases picked.len(),
{
    if picked.len() == 0 {
        Seq::empty()
    } else {
        let rest = spans_spec(ws, picked.drop_last());
        let w = ws[picked.last() as int];
        if picked.len() > 1 && joins(ws[picked[picked.len() - 2] as int], w) {
            let s = rest.last();
            rest.update(
                rest.len() - 1,
                Span {
                    x0: min_spec(s.x0 as int, w.x0 as int) as i32,
                    x1: max_spec(s.x1 as int, w.x1 as int) as i32,
                    y: max_spec(s.y as int, w.y1 as int) as i32,
                },
            )
        } else {
            rest.push(Span { x0: w.x0, x1: w.x1, y: w.y1 })
        }
    }
}

/// A word box whose centre, height and left margin are computed without
/// leaving `i32`.
pub open spec fn word_fits(w: Word) -> bool {
    &&& i32::MIN <= w.y0 + w.y1 <= i32::MAX
    &&& i32::MIN <= w.y1 - w.y0 <= i32::MAX
    &&& i32::MIN <= w.x0 - 40
}

/// Can the word take part in an underline (see `word_fits`)?
pub fn fits_word(w: &Word) -> (b: bool)
    ensures
        b == word_fits(*w),
{
    let (y0, y1, x0) = (w.y0 as i64, w.y1 as i64, w.x0 as i64);
    y0 + y1 >= i32::MIN as i64 && y0 + y1 <= i32::MAX as i64 && y1 - y0 >= i32::MIN as i64 && y1 - y0 <= i32::MAX as i64
        && x0 - 40 >= i32::MIN as i64
}

fn joins_exec(prev: &Word, w: &Word) -> (b: bool)
    requires
        word_fits(*prev),
        word_fits(*w),
    ensures
        b == joins(*prev, *w),
{
    let cy = (w.y0 as i64 + w.y1 as i64) / 2;
    let pcy = (prev.y0 as i64 + prev.y1 as i64) / 2;
    assert(cy == trunc_div(w.y0 + w.y1, 2));
    assert(pcy == trunc_div(prev.y0 + prev.y1, 2));
    let hp = prev.y1 as i64 - prev.y0 as i64;
    let hw = w.y1 as i64 - w.y0 as i64;
    let tall = if hp > hw { hp } else { hw };
    let half = tall / 2;
    assert(half == trunc_div(tall as int, 2));
    let tol = if half > 6 { half } else { 6 };
    let d = if cy > pcy { cy - pcy } else { pcy - cy };
    d <= tol && w.x0 as i64 >= prev.x0 as i64 - 40
}

/// The underlines for the picked words of a match (indices into `words`).
pub fn underline_spans(words: &[Word], picked: &[usize]) -> (out: Vec<Span>)
    requires
        forall|k: int| 0 <= k < picked@.len() ==> #[trigger] picked@[k] < words@.len() && word_fits(
            words@[picked@[k] as int],
        ),
    ensures
        out@ == spans_spec(words@, picked@),
{
    let mut out: Vec<Span> = Vec::new();
    let mut k: usize = 0;
    while k < picked.len()
        invariant
            k <= picked@.len(),
            forall|q: int| 0 <= q < picked@.len() ==> #[trigger] picked@[q] < words@.len() && word_fits(
                words@[picked@[q] as int],
            ),
            out@ == spans_spec(words@, picked@.take(k as int)),
            k > 0 ==> out@.len() > 0,
        decreases picked.len() - k,
    {
        let ghost pre = picked@.take(k + 1);
        proof {
            assert(pre.drop_last() =~= picked@.take(k as int));
            assert(pre.last() == picked@[k as int]);
            assert(picked@[k as int] < words@.len());
        }
        let w = &words[picked[k]];
        let joined = if k > 0 {
            assert(pre[pre.len() - 2] == picked@[k - 1]);
            assert(picked@[k - 1] < words@.len());
            joins_exec(&words[picked[k - 1]], w)
        } else {
            false
        };
        if joined {
            let last = out.len() - 1;
            let s = out[last];
            let x0 = if s.x0 < w.x0 { s.x0 } else { w.x0 };
            let x1 = if s.x1 > w.x1 { s.x1 } else { w.x1 };
            let y = if s.y > w.y1 { s.y } else { w.y1 };
            out.set(last, Span { x0, x1, y });
        } else {
            out.push(Span { x0: w.x0, x1: w.x1, y: w.y1 });
        }
        k += 1;
    }
    assert(picked@.take(picked@.len() as int) =~= picked@);
    out
}

} // verus!
