//! Greedy word wrapping to a column count: existing newlines are kept,
//! words go on the current line while they fit, and a word longer than a
//! whole line is hard-broken into line-sized pieces.

use vstd::prelude::*;
use crate::strs::{chars_of, string_of};

verus! {

/// The pieces of `s` between occurrences of `d` (like `str::split`):
/// always at least one piece; `k` separators give `k + 1` pieces.
pub open spec fn split_on(s: Seq<char>, d: char) -> Seq<Seq<char>>
    decreases s.len(),
{
    if s.len() == 0 {
        seq![Seq::empty()]
    } else {
        let p = split_on(s.drop_last(), d);
        if s.last() == d {
            p.push(Seq::empty())
        } else {
            p.update(p.len() - 1, p.last().push(s.last()))
        }
    }
}

pub proof fn lemma_split_nonempty(s: Seq<char>, d: char)
    ensures
        split_on(s, d).len() >= 1,
    decreases s.len(),
{
    if s.len() > 0 {
        lemma_split_nonempty(s.drop_last(), d);
    }
}

/// Splitting never yields more pieces than characters plus one.
pub proof fn lemma_split_count(s: Seq<char>, d: char)
    ensures
        1 <= split_on(s, d).len() <= s.len() + 1,
    decreases s.len(),
{
    if s.len() > 0 {
        lemma_split_count(s.drop_last(), d);
    }
}

/// Wrapping state: the finished lines and the line being filled.
pub type WrapState = (Seq<Seq<char>>, Seq<char>);

/// Place one word: hard-break it while it is longer than a line, then
/// start a new line if it does not fit after the current one.
pub open spec fn place_word(st: WrapState, word: Seq<char>, cols: nat) -> WrapState
    decreases word.len(),
{
    let (lines, line) = st;
    if cols > 0 && word.len() > cols {
        let lines1 = if line.len() > 0 {
            lines.push(line)
        } else {
            lines
        };
        place_word((lines1.push(word.take(cols as int)), Seq::empty()), word.skip(cols as int), cols)
    } else {
        let sep: nat = if line.len() == 0 {
            0
        } else {
            1
        };
        let (lines2, line2) = if line.len() + sep + word.len() > cols {
            (lines.push(line), Seq::<char>::empty())
        } else {
            (lines, line)
        };
        let line3 = if line2.len() > 0 {
            line2.push(' ')
        } else {
            line2
        };
        (lines2, line3 + word)
    }
}

/// Place every word, left to right.
pub open spec fn place_words(st: WrapState, words: Seq<Seq<char>>, cols: nat) -> WrapState
    decreases words.len(),
{
    if words.len() == 0 {
        st
    } else {
        place_word(place_words(st, words.drop_last(), cols), words.last(), cols)
    }
}

/// Wrap a list of paragraphs: each paragraph's words are placed on fresh
/// lines and the paragraph's last line is closed.
pub open spec fn wrap_paras(paras: Seq<Seq<char>>, cols: nat) -> Seq<Seq<char>>
    decreases paras.len(),
{
    if paras.len() == 0 {
        Seq::empty()
    } else {
        let st = place_words((wrap_paras(paras.drop_last(), cols), Seq::empty()), split_on(paras.last(), ' '), cols);
        st.0.push(st.1)
    }
}

/// The lines `wrap` produces for `text` at `cols` columns.
pub open spec fn wrap_spec(text: Seq<char>, cols: nat) -> Seq<Seq<char>> {
    wrap_paras(split_on(text, '\n'), cols)
}

/// Every line of the state fits in `cols`.
pub open spec fn state_fits(st: WrapState, cols: nat) -> bool {
    &&& forall|i: int| 0 <= i < st.0.len() ==> #[trigger] st.0[i].len() <= cols
    &&& st.1.len() <= cols
}

proof fn lemma_place_word_fits(st: WrapState, word: Seq<char>, cols: nat)
    requires
        cols > 0,
        state_fits(st, cols),
    ensures
        state_fits(place_word(st, word, cols), cols),
    decreases word.len(),
{
    let (lines, line) = st;
    if word.len() > cols {
        let lines1 = if line.len() > 0 {
            lines.push(line)
        } else {
            lines
        };
        let st2 = (lines1.push(word.take(cols as int)), Seq::<char>::empty());
        assert(state_fits(st2, cols));
        lemma_place_word_fits(st2, word.skip(cols as int), cols);
    }
}

proof fn lemma_place_words_fits(st: WrapState, words: Seq<Seq<char>>, cols: nat)
    requires
        cols > 0,
        state_fits(st, cols),
    ensures
        state_fits(place_words(st, words, cols), cols),
    decreases words.len(),
{
    if words.len() > 0 {
        lemma_place_words_fits(st, words.drop_last(), cols);
        lemma_place_word_fits(place_words(st, words.drop_last(), cols), words.last(), cols);
    }
}

/// No wrapped line is longer than the column count.
pub proof fn lemma_wrap_fits(text: Seq<char>, cols: nat)
    requires
        cols > 0,
    ensures
        forall|i: int|
            0 <= i < wrap_spec(text, cols).len() ==> #[trigger] wrap_spec(text, cols)[i].len()
                <= cols,
{
    lemma_wrap_paras_fits(split_on(text, '\n'), cols);
}

proof fn lemma_wrap_paras_fits(paras: Seq<Seq<char>>, cols: nat)
    requires
        cols > 0,
    ensures
        forall|i: int|
            0 <= i < wrap_paras(paras, cols).len() ==> #[trigger] wrap_paras(paras, cols)[i].len()
                <= cols,
    decreases paras.len(),
{
    if paras.len() > 0 {
        lemma_wrap_paras_fits(paras.drop_last(), cols);
        let st0 = (wrap_paras(paras.drop_last(), cols), Seq::<char>::empty());
        lemma_place_words_fits(st0, split_on(paras.last(), ' '), cols);
    }
}

/// Wrapping always yields at least one line (an empty text is one empty
/// line).
pub proof fn lemma_wrap_nonempty(text: Seq<char>, cols: nat)
    ensures
        wrap_spec(text, cols).len() >= 1,
{
    lemma_split_nonempty(text, '\n');
}

pub(crate) fn push_piece(pieces: &mut Vec<Vec<char>>, p: Vec<char>)
    ensures
        final(pieces).deep_view() == old(pieces).deep_view().push(p@),
{
    let ghost pv = p@;
    pieces.push(p);
    assert(pieces@[pieces@.len() - 1].deep_view() =~= pv);
    assert(pieces.deep_view() =~= old(pieces).deep_view().push(pv));
}

pub(crate) fn push_line(lines: &mut Vec<String>, s: String)
    ensures
        final(lines).deep_view() == old(lines).deep_view().push(s@),
        final(lines)@ == old(lines)@.push(s),
{
    lines.push(s);
    assert(lines.deep_view() =~= old(lines).deep_view().push(s@));
}

/// Split `s` on `d`.
pub fn split_chars(s: &[char], d: char) -> (pieces: Vec<Vec<char>>)
    ensures
        pieces.deep_view() == split_on(s@, d),
{
    let mut pieces: Vec<Vec<char>> = Vec::new();
    let mut cur: Vec<char> = Vec::new();
    let mut i: usize = 0;
    while i < s.len()
        invariant
            i <= s@.len(),
            pieces.deep_view().push(cur@) == split_on(s@.take(i as int), d),
        decreases s.len() - i,
    {
        let ghost prev = pieces.deep_view().push(cur@);
        assert(s@.take(i + 1).drop_last() == s@.take(i as int));
        assert(s@.take(i + 1).last() == s@[i as int]);
        if s[i] == d {
            let done = cur;
            push_piece(&mut pieces, done);
            cur = Vec::new();
            assert(pieces.deep_view() =~= prev);
        } else {
            let ghost old_pieces = pieces.deep_view();
            cur.push(s[i]);
            assert(pieces.deep_view().push(cur@) =~= prev.update(prev.len() - 1, prev.last().push(s@[i as int])));
        }
        i += 1;
    }
    push_piece(&mut pieces, cur);
    assert(s@.take(s@.len() as int) == s@);
    pieces
}

fn place_word_exec(lines: &mut Vec<String>, line: &mut Vec<char>, word: &[char], cols: usize)
    requires
        cols > 0,
    ensures
        (final(lines).deep_view(), final(line)@) == place_word(
            (old(lines).deep_view(), old(line)@),
            word@,
            cols as nat,
        ),
{
    let mut start: usize = 0;
    assert(word@.skip(0) == word@);
    while word.len() - start > cols
        invariant
            start <= word@.len(),
            cols > 0,
            place_word((lines.deep_view(), line@), word@.skip(start as int), cols as nat)
                == place_word((old(lines).deep_view(), old(line)@), word@, cols as nat),
        decreases word.len() - start,
    {
        let ghost st = (lines.deep_view(), line@);
        let ghost w = word@.skip(start as int);
        if line.len() > 0 {
            let l = string_of(line, 0, line.len());
            assert(line@.subrange(0, line@.len() as int) == line@);
            push_line(lines, l);
        }
        let piece = string_of(word, start, start + cols);
        push_line(lines, piece);
        *line = Vec::new();
        proof {
            assert(w.take(cols as int) == word@.subrange(start as int, start + cols));
            assert(w.skip(cols as int) == word@.skip(start + cols));
            let lines1 = if st.1.len() > 0 {
                st.0.push(st.1)
            } else {
                st.0
            };
            assert(lines.deep_view() =~= lines1.push(w.take(cols as int)));
        }
        start = start + cols;
    }
    let ghost st = (lines.deep_view(), line@);
    let ghost w = word@.skip(start as int);
    assert(w == word@.subrange(start as int, word@.len() as int));
    let wlen = word.len() - start;
    let sep: usize = if line.len() == 0 { 0 } else { 1 };
    if line.len() as u128 + sep as u128 + wlen as u128 > cols as u128 {
        let l = string_of(line, 0, line.len());
        assert(line@.subrange(0, line@.len() as int) == line@);
        push_line(lines, l);
        *line = Vec::new();
    }
    if line.len() > 0 {
        line.push(' ');
    }
    let mut k = start;
    let ghost base = line@;
    while k < word.len()
        invariant
            start <= k <= word@.len(),
            line@ == base + word@.subrange(start as int, k as int),
        decreases word.len() - k,
    {
        line.push(word[k]);
        k += 1;
        assert(line@ == base + word@.subrange(start as int, k as int));
    }
}

/// Wrap `text` to `cols` columns, honouring existing newlines and
/// breaking words longer than a line. Always returns at least one line.
pub fn wrap(text: &str, cols: usize) -> (lines: Vec<String>)
    requires
        cols > 0,
    ensures
        lines.deep_view() == wrap_spec(text@, cols as nat),
        lines@.len() >= 1,
        forall|i: int| 0 <= i < lines@.len() ==> #[trigger] lines@[i]@.len() <= cols,
{
    let cs = chars_of(text);
    let paras = split_chars(&cs, '\n');
    let mut lines: Vec<String> = Vec::new();
    let mut p: usize = 0;
    while p < paras.len()
        invariant
            p <= paras@.len(),
            cols > 0,
            paras.deep_view() == split_on(text@, '\n'),
            lines.deep_view() == wrap_paras(paras.deep_view().take(p as int), cols as nat),
        decreases paras.len() - p,
    {
        let words = split_chars(&paras[p], ' ');
        let mut line: Vec<char> = Vec::new();
        let mut k: usize = 0;
        let ghost start = lines.deep_view();
        while k < words.len()
            invariant
                k <= words@.len(),
                cols > 0,
                (lines.deep_view(), line@) == place_words((start, Seq::empty()), words.deep_view().take(k as int), cols as nat),
            decreases words.len() - k,
        {
            assert(words.deep_view().take(k + 1).drop_last() == words.deep_view().take(k as int));
            assert(words.deep_view()[k as int] == words@[k as int]@);
            place_word_exec(&mut lines, &mut line, &words[k], cols);
            k += 1;
        }
        assert(words.deep_view().take(words@.len() as int) == words.deep_view());
        let l = string_of(&line, 0, line.len());
        assert(line@.subrange(0, line@.len() as int) == line@);
        push_line(&mut lines, l);
        proof {
            let ps = paras.deep_view().take(p + 1);
            assert(ps.drop_last() == paras.deep_view().take(p as int));
            assert(ps.last() == paras@[p as int]@);
        }
        p += 1;
    }
    assert(paras.deep_view().take(paras@.len() as int) == paras.deep_view());
    proof {
        lemma_wrap_fits(text@, cols as nat);
        lemma_wrap_nonempty(text@, cols as nat);
        assert forall|i: int| 0 <= i < lines@.len() implies #[trigger] lines@[i]@.len() <= cols by {
            assert(lines.deep_view()[i] == lines@[i]@);
        }
    }
    lines
}

} // verus!
