//! Numbers as text: the positional digits of an unsigned integer in any
//! base up to 36 (lowercase letters past 9), zero padding, and reading the
//! digits back.

use vstd::prelude::*;

verus! {

/// The digit character for `d` (`0`-`9`, then `a`-`z`).
pub open spec fn digit_char(d: int) -> char {
    if d < 10 {
        (('0' as int) + d) as char
    } else {
        (('a' as int) + (d - 10)) as char
    }
}

/// The value of a digit character (inverse of `digit_char` on digits).
pub open spec fn digit_value(c: char) -> int {
    if '0' <= c <= '9' {
        c as int - '0' as int
    } else {
        c as int - 'a' as int + 10
    }
}

/// The digits of `n` in base `b`, most significant first, without
/// leading zeros ("0" for zero).
pub open spec fn digits(n: nat, b: nat) -> Seq<char>
    decreases n,
{
    if b < 2 || n < b {
        seq![digit_char(n as int)]
    } else {
        proof {
            assert(n / b < n) by (nonlinear_arith)
                requires
                    b >= 2,
                    n >= b,
            ;
        }
        digits(n / b, b).push(digit_char((n % b) as int))
    }
}

/// The number a digit string denotes in base `b`.
pub open spec fn digits_value(s: Seq<char>, b: nat) -> int
    decreases s.len(),
{
    if s.len() == 0 {
        0
    } else {
        digits_value(s.drop_last(), b) * b + digit_value(s.last())
    }
}

/// `s` left-padded with `'0'` to at least `w` characters.
pub open spec fn zero_pad(s: Seq<char>, w: nat) -> Seq<char> {
    if s.len() >= w {
        s
    } else {
        Seq::new((w - s.len()) as nat, |_i: int| '0') + s
    }
}

/// Reading back the digits of `n` gives `n`.
pub proof fn lemma_digits_value(n: nat, b: nat)
    requires
        2 <= b <= 36,
    ensures
        digits_value(digits(n, b), b) == n,
    decreases n,
{
    if n < b {
        assert(digits(n, b).drop_last() =~= Seq::<char>::empty());
        lemma_digit_roundtrip(n as int);
        assert(digits_value(Seq::<char>::empty(), b) == 0);
        assert(digits_value(digits(n, b), b) == 0 * b + digit_value(digits(n, b).last()));
    } else {
        assert(n / b < n) by (nonlinear_arith)
            requires
                b >= 2,
                n >= b,
        ;
        lemma_digits_value(n / b, b);
        assert(digits(n, b).drop_last() =~= digits(n / b, b));
        lemma_digit_roundtrip((n % b) as int);
        assert(n == (n / b) * b + n % b) by (nonlinear_arith)
            requires
                b > 0,
        ;
        assert(digits_value(digits(n, b), b) == digits_value(digits(n / b, b), b) * b
            + digit_value(digits(n, b).last()));
    }
}

proof fn lemma_digit_roundtrip(d: int)
    requires
        0 <= d < 36,
    ensures
        digit_value(digit_char(d)) == d,
{
}

/// Digits are never empty and never longer than the number's size in
/// base `b` allows.
pub proof fn lemma_digits_len(n: nat, b: nat)
    requires
        2 <= b <= 36,
    ensures
        1 <= digits(n, b).len() <= n + 1,
    decreases n,
{
    if n >= b {
        assert(n / b < n) by (nonlinear_arith)
            requires
                b >= 2,
                n >= b,
        ;
        lemma_digits_len(n / b, b);
        assert(n / b + 1 <= n) by (nonlinear_arith)
            requires
                n >= b,
                b >= 2,
        ;
    }
}

/// The digit character for `d < 36`.
pub fn digit(d: u64) -> (c: char)
    requires
        d < 36,
    ensures
        c == digit_char(d as int),
{
    if d < 10 {
        ((d as u8) + ('0' as u8)) as char
    } else {
        ((d - 10) as u8 + ('a' as u8)) as char
    }
}

/// The digits of `n` in base `b`.
pub fn to_digits(n: u64, b: u64) -> (s: Vec<char>)
    requires
        2 <= b <= 36,
    ensures
        s@ == digits(n as nat, b as nat),
{
    let mut rev: Vec<char> = Vec::new();
    let mut m = n;
    while m >= b
        invariant
            2 <= b <= 36,
            digits(n as nat, b as nat) == digits(m as nat, b as nat) + rev@.reverse(),
        decreases m,
    {
        let c = digit(m % b);
        rev.push(c);
        proof {
            assert(rev@.reverse() =~= seq![c] + rev@.drop_last().reverse());
            assert(digits(m as nat, b as nat) == digits((m / b) as nat, b as nat).push(c));
            assert(digits((m / b) as nat, b as nat).push(c) + rev@.drop_last().reverse() =~= digits(
                (m / b) as nat,
                b as nat,
            ) + rev@.reverse());
        }
        m = m / b;
    }
    let c = digit(m);
    rev.push(c);
    proof {
        assert(rev@.reverse() =~= seq![c] + rev@.drop_last().reverse());
    }
    let mut out: Vec<char> = Vec::new();
    let mut i = rev.len();
    while i > 0
        invariant
            i <= rev@.len(),
            out@ == rev@.reverse().take((rev@.len() - i) as int),
        decreases i,
    {
        i -= 1;
        out.push(rev[i]);
        assert(out@ =~= rev@.reverse().take((rev@.len() - i) as int));
    }
    assert(out@ =~= rev@.reverse());
    assert(digits(n as nat, b as nat) =~= rev@.reverse());
    out
}

/// Decimal digits of `n`.
pub fn decimal(n: u64) -> (s: Vec<char>)
    ensures
        s@ == digits(n as nat, 10),
{
    to_digits(n, 10)
}

/// Decimal digits of `n`, zero-padded to `w` characters (`{:0w}`).
pub fn decimal_padded(n: u64, w: usize) -> (s: Vec<char>)
    ensures
        s@ == zero_pad(digits(n as nat, 10), w as nat),
{
    let d = decimal(n);
    if d.len() >= w {
        return d;
    }
    let mut out: Vec<char> = Vec::new();
    let pad = w - d.len();
    while out.len() < pad
        invariant
            pad == w - d@.len(),
            out@.len() <= pad,
            forall|i: int| 0 <= i < out@.len() ==> out@[i] == '0',
        decreases pad - out.len(),
    {
        out.push('0');
    }
    let mut i: usize = 0;
    while i < d.len()
        invariant
            i <= d@.len(),
            pad == w - d@.len(),
            out@.len() == pad + i,
            forall|k: int| 0 <= k < pad ==> out@[k] == '0',
            forall|k: int| 0 <= k < i ==> out@[pad + k] == d@[k],
        decreases d.len() - i,
    {
        out.push(d[i]);
        i += 1;
    }
    assert(out@ =~= zero_pad(d@, w as nat));
    out
}

/// A signed integer in decimal, with a leading `-` when negative.
pub open spec fn int_text(v: int) -> Seq<char> {
    if v < 0 {
        seq!['-'] + digits((-v) as nat, 10)
    } else {
        digits(v as nat, 10)
    }
}

/// `v` in decimal (`{}` of a signed integer).
pub fn signed_decimal(v: i64) -> (s: Vec<char>)
    ensures
        s@ == int_text(v as int),
{
    if v < 0 {
        let m: u64 = if v == i64::MIN {
            0x8000_0000_0000_0000u64
        } else {
            (-v) as u64
        };
        let d = decimal(m);
        let mut out: Vec<char> = vec!['-'];
        let mut i: usize = 0;
        while i < d.len()
            invariant
                i <= d@.len(),
                out@ == seq!['-'] + d@.take(i as int),
            decreases d.len() - i,
        {
            out.push(d[i]);
            i += 1;
            assert(out@ =~= seq!['-'] + d@.take(i as int));
        }
        assert(d@.take(d@.len() as int) =~= d@);
        out
    } else {
        decimal(v as u64)
    }
}

} // verus!
