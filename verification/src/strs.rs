//! Small string building blocks: character sequences in and out of
//! `String`, used by every text routine of the crate.

use vstd::prelude::*;

verus! {

/// Appends one character (std `String::push`).
#[verifier::external_body]
pub(crate) fn push_char(s: &mut String, c: char)
    ensures
        final(s)@ == old(s)@.push(c),
{
    s.push(c);
}

/// The characters of `s`, in order.
pub fn chars_of(s: &str) -> (v: Vec<char>)
    ensures
        v@ == s@,
{
    let mut v: Vec<char> = Vec::new();
    for c in it: s.chars()
        invariant
            it.seq() == s@,
            v@ == s@.take(it.index() as int),
    {
        v.push(c);
    }
    v
}

/// A `String` holding exactly the characters `cs[from..to]`.
pub fn string_of(cs: &[char], from: usize, to: usize) -> (s: String)
    requires
        from <= to <= cs@.len(),
    ensures
        s@ == cs@.subrange(from as int, to as int),
{
    let mut s = String::new();
    let mut i = from;
    while i < to
        invariant
            from <= i <= to <= cs@.len(),
            s@ == cs@.subrange(from as int, i as int),
        decreases to - i,
    {
        push_char(&mut s, cs[i]);
        i += 1;
        assert(s@ == cs@.subrange(from as int, i as int));
    }
    s
}

/// Appends all of `cs` to `s`.
pub fn push_chars(s: &mut String, cs: &[char])
    ensures
        final(s)@ == old(s)@ + cs@,
{
    let mut i: usize = 0;
    while i < cs.len()
        invariant
            i <= cs@.len(),
            s@ == old(s)@ + cs@.take(i as int),
        decreases cs.len() - i,
    {
        push_char(s, cs[i]);
        i += 1;
        assert(s@ == old(s)@ + cs@.take(i as int));
    }
    assert(cs@.take(cs@.len() as int) == cs@);
}

/// A fresh vector holding the characters of `cs`.
pub fn copy_chars(cs: &[char]) -> (v: Vec<char>)
    ensures
        v@ == cs@,
{
    vstd::slice::slice_to_vec(cs)
}

} // verus!
