//! Characters none of the embedded text faces can draw, folded to
//! readable ASCII; and which face draws a character, given what each
//! face covers.

use vstd::prelude::*;
use crate::strs::{chars_of, string_of};

verus! {

/// The three text faces.
#[derive(Clone, Copy, PartialEq, Eq, Structural, Debug)]
pub enum Face {
    Body,
    Heading,
    Mono,
}

/// The readable replacement of a character no face covers; None for a
/// character that passes through unchanged.
pub open spec fn fold_table(c: char) -> Option<Seq<char>> {
    let u = c as u32;
    if u == 0x211D {
        Some(seq!['R'])
    } else if u == 0x2115 {
        Some(seq!['N'])
    } else if u == 0x2124 {
        Some(seq!['Z'])
    } else if u == 0x211A {
        Some(seq!['Q'])
    } else if u == 0x2102 {
        Some(seq!['C'])
    } else if u == 0x2261 {
        Some("=="@)
    } else if u == 0x221D {
        Some(seq!['~'])
    } else if u == 0x2217 {
        Some(seq!['*'])
    } else if u == 0x2225 {
        Some("||"@)
    } else if u == 0x2208 {
        Some(" in "@)
    } else if u == 0x2209 {
        Some(" not in "@)
    } else if u == 0x2200 {
        Some("for all "@)
    } else if u == 0x2203 {
        Some("exists "@)
    } else if u == 0x2282 || u == 0x2286 {
        Some(" subset of "@)
    } else if u == 0x2283 || u == 0x2287 {
        Some(" superset of "@)
    } else if u == 0x222A {
        Some(" union "@)
    } else if u == 0x2229 {
        Some(" intersect "@)
    } else if u == 0x22A5 {
        Some(" perp "@)
    } else if u == 0x2220 {
        Some("angle "@)
    } else if u == 0x2234 {
        Some(" therefore "@)
    } else if u == 0x2235 {
        Some(" because "@)
    } else if u == 0x210F {
        Some("hbar"@)
    } else if u == 0x2113 {
        Some(seq!['l'])
    } else if u == 0x222E {
        Some(seq!['\u{222B}'])
    } else if u == 0x27E8 || u == 0x2329 {
        Some(seq!['<'])
    } else if u == 0x27E9 || u == 0x232A {
        Some(seq!['>'])
    } else {
        None
    }
}

/// What a character folds to.
pub open spec fn fold_char(c: char) -> Seq<char> {
    match fold_table(c) {
        Some(r) => r,
        None => seq![c],
    }
}

/// A text with every character folded.
pub open spec fn fold_spec(s: Seq<char>) -> Seq<char>
    decreases s.len(),
{
    if s.len() == 0 {
        Seq::empty()
    } else {
        fold_spec(s.drop_last()) + fold_char(s.last())
    }
}

fn push_str_chars(out: &mut Vec<char>, s: &str)
    ensures
        final(out)@ == old(out)@ + s@,
{
    let cs = chars_of(s);
    out.extend_from_slice(&cs);
}

fn fold_one(out: &mut Vec<char>, c: char)
    ensures
        final(out)@ == old(out)@ + fold_char(c),
{
    let u = c as u32;
    let ghost pre = out@;
    if u == 0x211D {
        out.push('R');
    } else if u == 0x2115 {
        out.push('N');
    } else if u == 0x2124 {
        out.push('Z');
    } else if u == 0x211A {
        out.push('Q');
    } else if u == 0x2102 {
        out.push('C');
    } else if u == 0x2261 {
        push_str_chars(out, "==");
    } else if u == 0x221D {
        out.push('~');
    } else if u == 0x2217 {
        out.push('*');
    } else if u == 0x2225 {
        push_str_chars(out, "||");
    } else if u == 0x2208 {
        push_str_chars(out, " in ");
    } else if u == 0x2209 {
        push_str_chars(out, " not in ");
    } else if u == 0x2200 {
        push_str_chars(out, "for all ");
    } else if u == 0x2203 {
        push_str_chars(out, "exists ");
    } else if u == 0x2282 || u == 0x2286 {
        push_str_chars(out, " subset of ");
    } else if u == 0x2283 || u == 0x2287 {
        push_str_chars(out, " superset of ");
    } else if u == 0x222A {
        push_str_chars(out, " union ");
    } else if u == 0x2229 {
        push_str_chars(out, " intersect ");
    } else if u == 0x22A5 {
        push_str_chars(out, " perp ");
    } else if u == 0x2220 {
        push_str_chars(out, "angle ");
    } else if u == 0x2234 {
        push_str_chars(out, " therefore ");
    } else if u == 0x2235 {
        push_str_chars(out, " because ");
    } else if u == 0x210F {
        push_str_chars(out, "hbar");
    } else if u == 0x2113 {
        out.push('l');
    } else if u == 0x222E {
        out.push('\u{222B}');
    } else if u == 0x27E8 || u == 0x2329 {
        out.push('<');
    } else if u == 0x27E9 || u == 0x232A {
        out.push('>');
    } else {
        out.push(c);
    }
    assert(out@ =~= pre + fold_char(c));
}

/// Fold the characters no embedded face covers to readable ASCII;
/// everything else passes through.
pub fn fold(s: &str) -> (r: String)
    ensures
        r@ == fold_spec(s@),
{
    let cs = chars_of(s);
    let mut out: Vec<char> = Vec::new();
    let mut i: usize = 0;
    while i < cs.len()
        invariant
            i <= cs@.len(),
            cs@ == s@,
            out@ == fold_spec(cs@.take(i as int)),
        decreases cs.len() - i,
    {
        assert(cs@.take(i + 1).drop_last() =~= cs@.take(i as int));
        fold_one(&mut out, cs[i]);
        i += 1;
    }
    assert(cs@.take(cs@.len() as int) =~= cs@);
    string_of(&out, 0, out.len())
}

proof fn lemma_fold_append(a: Seq<char>, b: Seq<char>)
    ensures
        fold_spec(a + b) == fold_spec(a) + fold_spec(b),
    decreases b.len(),
{
    if b.len() == 0 {
        assert(a + b =~= a);
        assert(fold_spec(a) + fold_spec(b) =~= fold_spec(a));
    } else {
        lemma_fold_append(a, b.drop_last());
        assert((a + b).drop_last() =~= a + b.drop_last());
        assert((a + b).last() == b.last());
        assert(fold_spec(a) + fold_spec(b.drop_last()) + fold_char(b.last()) =~= fold_spec(a) + (
        fold_spec(b.drop_last()) + fold_char(b.last())));
    }
}

proof fn lemma_fold_replacement_fixed(c: char)
    ensures
        fold_spec(fold_char(c)) == fold_char(c),
{
    let r = fold_char(c);
    assert forall|i: int| 0 <= i < r.len() implies fold_table(#[trigger] r[i]) is None by {
        reveal_strlit("==");
        reveal_strlit("||");
        reveal_strlit(" in ");
        reveal_strlit(" not in ");
        reveal_strlit("for all ");
        reveal_strlit("exists ");
        reveal_strlit(" subset of ");
        reveal_strlit(" superset of ");
        reveal_strlit(" union ");
        reveal_strlit(" intersect ");
        reveal_strlit(" perp ");
        reveal_strlit("angle ");
        reveal_strlit(" therefore ");
        reveal_strlit(" because ");
        reveal_strlit("hbar");
        if fold_table(c) is None {
            assert(r =~= seq![c]);
        }
    }
    lemma_fold_plain(r);
}

/// A text with nothing to fold folds to itself.
proof fn lemma_fold_plain(s: Seq<char>)
    requires
        forall|i: int| 0 <= i < s.len() ==> fold_table(#[trigger] s[i]) is None,
    ensures
        fold_spec(s) == s,
    decreases s.len(),
{
    if s.len() > 0 {
        lemma_fold_plain(s.drop_last());
        assert(s.drop_last().push(s.last()) =~= s);
    }
}

/// Folding is idempotent: a folded text folds to itself.
pub proof fn lemma_fold_idempotent(s: Seq<char>)
    ensures
        fold_spec(fold_spec(s)) == fold_spec(s),
    decreases s.len(),
{
    if s.len() > 0 {
        lemma_fold_idempotent(s.drop_last());
        lemma_fold_append(fold_spec(s.drop_last()), fold_char(s.last()));
        lemma_fold_replacement_fixed(s.last());
    }
}

/// The face that draws `c`: the requested one when `c` is ASCII or the
/// face covers it, else the first other face that does (body and heading
/// try each other before mono; mono tries body, then heading), else the
/// requested one. `covers` says whether body, heading and mono each have
/// a glyph for `c`.
pub open spec fn face_for_spec(f: Face, c: char, covers: (bool, bool, bool)) -> Face {
    let has = |g: Face|
        match g {
            Face::Body => covers.0,
            Face::Heading => covers.1,
            Face::Mono => covers.2,
        };
    if (c as u32) < 0x80 || has(f) {
        f
    } else {
        let (a, b) = match f {
            Face::Mono => (Face::Body, Face::Heading),
            Face::Body => (Face::Heading, Face::Mono),
            Face::Heading => (Face::Body, Face::Mono),
        };
        if has(a) {
            a
        } else if has(b) {
            b
        } else {
            f
        }
    }
}

/// The face that actually has a glyph for `c`, given which faces cover it.
pub fn face_for(f: Face, c: char, covers: (bool, bool, bool)) -> (r: Face)
    ensures
        r == face_for_spec(f, c, covers),
{
    let has_f = match f {
        Face::Body => covers.0,
        Face::Heading => covers.1,
        Face::Mono => covers.2,
    };
    if (c as u32) < 0x80 || has_f {
        return f;
    }
    match f {
        Face::Mono => if covers.0 {
            Face::Body
        } else if covers.1 {
            Face::Heading
        } else {
            f
        },
        Face::Body => if covers.1 {
            Face::Heading
        } else if covers.2 {
            Face::Mono
        } else {
            f
        },
        Face::Heading => if covers.0 {
            Face::Body
        } else if covers.2 {
            Face::Mono
        } else {
            f
        },
    }
}

} // verus!
