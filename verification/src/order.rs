//! Stable sorting by a key. Lists on screen (the home grid, folders,
//! projects, the docs reader) are ordered by a key with a strict order:
//! text in code-point order (what `String`'s order is on UTF-8), or a
//! number. `stable_order` returns the order of indices that stable
//! insertion sorting yields; the laws below show it is a permutation,
//! sorted, and keeps equal keys in their original order.

use vstd::prelude::*;

verus! {

/// A sort key with a strict total order.
pub trait Ranked: Sized {
    spec fn rank_lt(&self, other: &Self) -> bool;

    /// Is `self` ranked strictly before `other`?
    fn goes_before(&self, other: &Self) -> (b: bool)
        ensures
            b == self.rank_lt(other),
    ;

    /// Not-after is transitive: the order is total.
    proof fn lemma_not_after(a: &Self, b: &Self, c: &Self)
        requires
            !a.rank_lt(b),
            !b.rank_lt(c),
        ensures
            !a.rank_lt(c),
    ;

    proof fn lemma_asymmetric(a: &Self, b: &Self)
        requires
            a.rank_lt(b),
        ensures
            !b.rank_lt(a),
    ;
}

/// Code-point lexicographic order on character sequences (a proper
/// prefix comes first).
pub open spec fn chars_lt(a: Seq<char>, b: Seq<char>) -> bool
    decreases a.len(),
{
    if a.len() == 0 {
        b.len() > 0
    } else if b.len() == 0 {
        false
    } else if a[0] < b[0] {
        true
    } else if a[0] > b[0] {
        false
    } else {
        chars_lt(a.drop_first(), b.drop_first())
    }
}

pub proof fn lemma_chars_irreflexive(a: Seq<char>)
    ensures
        !chars_lt(a, a),
    decreases a.len(),
{
    if a.len() > 0 {
        lemma_chars_irreflexive(a.drop_first());
    }
}

pub proof fn lemma_chars_transitive(a: Seq<char>, b: Seq<char>, c: Seq<char>)
    requires
        chars_lt(a, b),
        chars_lt(b, c),
    ensures
        chars_lt(a, c),
    decreases a.len(),
{
    if a.len() > 0 && b.len() > 0 && c.len() > 0 && a[0] == b[0] && b[0] == c[0] {
        lemma_chars_transitive(a.drop_first(), b.drop_first(), c.drop_first());
    }
}

pub proof fn lemma_chars_total(a: Seq<char>, b: Seq<char>)
    ensures
        chars_lt(a, b) || chars_lt(b, a) || a == b,
    decreases a.len(),
{
    if a.len() > 0 && b.len() > 0 {
        if a[0] == b[0] {
            lemma_chars_total(a.drop_first(), b.drop_first());
            if a.drop_first() == b.drop_first() {
                assert(a =~= seq![a[0]] + a.drop_first());
                assert(b =~= seq![b[0]] + b.drop_first());
            }
        }
    } else if a.len() == 0 && b.len() == 0 {
        assert(a =~= b);
    }
}

/// Text keys, in code-point order.
impl Ranked for Vec<char> {
    open spec fn rank_lt(&self, other: &Self) -> bool {
        chars_lt(self@, other@)
    }

    fn goes_before(&self, other: &Self) -> (b: bool) {
        let mut i: usize = 0;
        assert(self@.skip(0) =~= self@);
        assert(other@.skip(0) =~= other@);
        while i < self.len() && i < other.len()
            invariant
                i <= self@.len(),
                i <= other@.len(),
                self@.take(i as int) == other@.take(i as int),
                chars_lt(self@, other@) == chars_lt(self@.skip(i as int), other@.skip(i as int)),
            decreases self.len() - i,
        {
            let a = self[i];
            let c = other[i];
            assert(self@.skip(i as int)[0] == self@[i as int]);
            assert(other@.skip(i as int)[0] == other@[i as int]);
            if a < c {
                return true;
            }
            if a > c {
                return false;
            }
            assert(self@.skip(i as int).drop_first() =~= self@.skip(i + 1));
            assert(other@.skip(i as int).drop_first() =~= other@.skip(i + 1));
            assert(self@[i as int] == other@[i as int]);
            assert(self@.take(i + 1) =~= self@.take(i as int).push(self@[i as int]));
            assert(other@.take(i + 1) =~= other@.take(i as int).push(other@[i as int]));
            i += 1;
        }
        i == self.len() && i < other.len()
    }

    proof fn lemma_not_after(a: &Self, b: &Self, c: &Self) {
        lemma_chars_total(a@, b@);
        lemma_chars_total(b@, c@);
        if chars_lt(a@, c@) {
            if chars_lt(c@, b@) {
                lemma_chars_transitive(a@, c@, b@);
            } else {
                assert(c@ == b@);
                if chars_lt(b@, a@) {
                    lemma_chars_transitive(c@, a@, c@);
                    lemma_chars_irreflexive(c@);
                } else {
                    assert(a@ == b@);
                    lemma_chars_irreflexive(a@);
                }
            }
        }
    }

    proof fn lemma_asymmetric(a: &Self, b: &Self) {
        if chars_lt(b@, a@) {
            lemma_chars_transitive(a@, b@, a@);
            lemma_chars_irreflexive(a@);
        }
    }
}

/// The relation on indices that keys `ks` induce.
pub open spec fn key_before<K: Ranked>(ks: Seq<K>) -> spec_fn(int, int) -> bool {
    |i: int, j: int| ks[i].rank_lt(&ks[j])
}

/// `lt` behaves as a strict total order on the first `n` items: it is
/// asymmetric and "not after" is transitive.
pub open spec fn total_on(lt: spec_fn(int, int) -> bool, n: int) -> bool {
    &&& forall|a: int, b: int| 0 <= a < n && 0 <= b < n && #[trigger] lt(a, b) ==> !lt(b, a)
    &&& forall|a: int, b: int, c: int|
        0 <= a < n && 0 <= b < n && 0 <= c < n && !#[trigger] lt(a, b) && !#[trigger] lt(b, c)
            ==> !lt(a, c)
}

/// Keys with a strict total order make their index relation one.
pub proof fn lemma_key_before_total<K: Ranked>(ks: Seq<K>)
    ensures
        total_on(key_before(ks), ks.len() as int),
{
    let lt = key_before(ks);
    assert forall|a: int, b: int| 0 <= a < ks.len() && 0 <= b < ks.len() && #[trigger] lt(a, b) implies !lt(b, a) by {
        K::lemma_asymmetric(&ks[a], &ks[b]);
    }
    assert forall|a: int, b: int, c: int|
        0 <= a < ks.len() && 0 <= b < ks.len() && 0 <= c < ks.len() && !#[trigger] lt(a, b) && !#[trigger] lt(b, c) implies !lt(a, c) by {
        K::lemma_not_after(&ks[a], &ks[b], &ks[c]);
    }
}

/// Where stable insertion puts item `x` into the ordered list `s`: after
/// every item it does not go before, scanning from the end.
pub open spec fn ins_pos(lt: spec_fn(int, int) -> bool, s: Seq<usize>, x: usize) -> int
    decreases s.len(),
{
    if s.len() == 0 {
        0
    } else if lt(x as int, s.last() as int) {
        ins_pos(lt, s.drop_last(), x)
    } else {
        s.len() as int
    }
}

/// The order of the first `n` items after stable insertion sorting: each
/// item in turn is inserted after all earlier items it does not go
/// before.
pub open spec fn order_spec(lt: spec_fn(int, int) -> bool, n: int) -> Seq<usize>
    decreases n,
{
    if n <= 0 {
        Seq::empty()
    } else {
        let s = order_spec(lt, n - 1);
        s.insert(ins_pos(lt, s, (n - 1) as usize), (n - 1) as usize)
    }
}

/// Items of `s` are in order.
pub open spec fn sorted_by(lt: spec_fn(int, int) -> bool, s: Seq<usize>) -> bool {
    forall|i: int, j: int| #![trigger s[i], s[j]] 0 <= i < j < s.len() ==> !lt(s[j] as int, s[i] as int)
}

/// Items that neither goes before the other keep their original order.
pub open spec fn stable_in(lt: spec_fn(int, int) -> bool, s: Seq<usize>) -> bool {
    forall|i: int, j: int|
        #![trigger s[i], s[j]]
        0 <= i < j < s.len() && !lt(s[j] as int, s[i] as int) && !lt(s[i] as int, s[j] as int)
            ==> s[i] < s[j]
}

/// `s` lists each of `0..n` exactly once.
pub open spec fn is_perm(s: Seq<usize>, n: int) -> bool {
    &&& s.len() == n
    &&& forall|i: int| 0 <= i < s.len() ==> (#[trigger] s[i]) < n
    &&& forall|i: int, j: int| 0 <= i < j < s.len() ==> #[trigger] s[i] != #[trigger] s[j]
}

proof fn lemma_ins_pos_bounds(lt: spec_fn(int, int) -> bool, s: Seq<usize>, x: usize)
    ensures
        0 <= ins_pos(lt, s, x) <= s.len(),
        forall|q: int| #![trigger s[q]] ins_pos(lt, s, x) <= q < s.len() ==> lt(x as int, s[q] as int),
        ins_pos(lt, s, x) > 0 ==> !lt(x as int, s[ins_pos(lt, s, x) - 1] as int),
    decreases s.len(),
{
    if s.len() > 0 && lt(x as int, s.last() as int) {
        lemma_ins_pos_bounds(lt, s.drop_last(), x);
        let p = ins_pos(lt, s.drop_last(), x);
        assert forall|q: int| #![trigger s[q]] p <= q < s.len() implies lt(x as int, s[q] as int) by {
            if q < s.len() - 1 {
                assert(s[q] == s.drop_last()[q]);
            }
        }
        if p > 0 {
            assert(s[p - 1] == s.drop_last()[p - 1]);
        }
    }
}

/// Stable insertion sorting yields a permutation of the item indices.
pub proof fn lemma_order_perm(lt: spec_fn(int, int) -> bool, n: int)
    requires
        0 <= n <= usize::MAX,
    ensures
        is_perm(order_spec(lt, n), n),
    decreases n,
{
    if n > 0 {
        lemma_order_perm(lt, n - 1);
        let s = order_spec(lt, n - 1);
        let x = (n - 1) as usize;
        lemma_ins_pos_bounds(lt, s, x);
        let p = ins_pos(lt, s, x);
        let t = s.insert(p, x);
        assert forall|i: int| 0 <= i < t.len() implies (#[trigger] t[i]) < n by {
            if i < p {
                assert(t[i] == s[i]);
            } else if i > p {
                assert(t[i] == s[i - 1]);
            }
        }
        assert forall|i: int, j: int| 0 <= i < j < t.len() implies #[trigger] t[i] != #[trigger] t[j] by {
            if i < p && j < p {
                assert(t[i] == s[i] && t[j] == s[j]);
            } else if i < p && j == p {
                assert(t[i] == s[i]);
                assert(s[i] < n - 1);
                assert(t[j] == x);
            } else if i < p && j > p {
                assert(t[i] == s[i] && t[j] == s[j - 1]);
            } else if i == p {
                assert(t[i] == x);
                assert(t[j] == s[j - 1]);
                assert(s[j - 1] < n - 1);
            } else {
                assert(t[i] == s[i - 1] && t[j] == s[j - 1]);
            }
        }
    }
}

/// Stable insertion sorting by a total order puts the items in order.
pub proof fn lemma_order_sorted(lt: spec_fn(int, int) -> bool, n: int)
    requires
        0 <= n <= usize::MAX,
        total_on(lt, n),
    ensures
        sorted_by(lt, order_spec(lt, n)),
    decreases n,
{
    if n > 0 {
        assert(total_on(lt, n - 1));
        lemma_order_sorted(lt, n - 1);
        lemma_order_perm(lt, n - 1);
        let s = order_spec(lt, n - 1);
        let x = (n - 1) as usize;
        lemma_ins_pos_bounds(lt, s, x);
        let p = ins_pos(lt, s, x);
        let t = s.insert(p, x);
        assert forall|i: int, j: int| #![trigger t[i], t[j]] 0 <= i < j < t.len() implies !lt(t[j] as int, t[i] as int) by {
            if j < p {
                assert(t[i] == s[i] && t[j] == s[j]);
            } else if j == p {
                assert(t[i] == s[i]);
                if i < p - 1 {
                    assert(!lt(x as int, s[p - 1] as int));
                    assert(!lt(s[p - 1] as int, s[i] as int));
                    assert(s[p - 1] < n && s[i] < n);
                }
            } else if i < p {
                assert(t[i] == s[i] && t[j] == s[j - 1]);
            } else if i == p {
                assert(t[j] == s[j - 1]);
                assert(lt(x as int, s[j - 1] as int));
                assert(s[j - 1] < n);
            } else {
                assert(t[i] == s[i - 1] && t[j] == s[j - 1]);
            }
        }
    }
}

/// Stable insertion sorting keeps items that neither goes before the
/// other in their original order.
pub proof fn lemma_order_stable(lt: spec_fn(int, int) -> bool, n: int)
    requires
        0 <= n <= usize::MAX,
    ensures
        stable_in(lt, order_spec(lt, n)),
    decreases n,
{
    if n > 0 {
        lemma_order_stable(lt, n - 1);
        lemma_order_perm(lt, n - 1);
        let s = order_spec(lt, n - 1);
        let x = (n - 1) as usize;
        lemma_ins_pos_bounds(lt, s, x);
        let p = ins_pos(lt, s, x);
        let t = s.insert(p, x);
        assert forall|i: int, j: int|
            #![trigger t[i], t[j]]
            0 <= i < j < t.len() && !lt(t[j] as int, t[i] as int) && !lt(t[i] as int, t[j] as int)
                implies t[i] < t[j] by {
            if j < p {
                assert(t[i] == s[i] && t[j] == s[j]);
            } else if j == p {
                assert(t[i] == s[i]);
                assert(s[i] < n - 1);
            } else if i < p {
                assert(t[i] == s[i] && t[j] == s[j - 1]);
            } else if i == p {
                assert(t[j] == s[j - 1]);
                assert(lt(x as int, s[j - 1] as int));
            } else {
                assert(t[i] == s[i - 1] && t[j] == s[j - 1]);
            }
        }
    }
}

/// Stable insertion sorting lists every item.
pub proof fn lemma_order_covers(lt: spec_fn(int, int) -> bool, n: int, k: int)
    requires
        0 <= k < n <= usize::MAX,
    ensures
        exists|q: int| 0 <= q < order_spec(lt, n).len() && order_spec(lt, n)[q] == k,
    decreases n,
{
    let s = order_spec(lt, n - 1);
    let x = (n - 1) as usize;
    lemma_ins_pos_bounds(lt, s, x);
    lemma_order_perm(lt, n - 1);
    let p = ins_pos(lt, s, x);
    let t = s.insert(p, x);
    assert(order_spec(lt, n) == t);
    if k == n - 1 {
        assert(t[p] == k);
    } else {
        lemma_order_covers(lt, n - 1, k);
        let q = choose|q: int| 0 <= q < s.len() && s[q] == k;
        if q < p {
            assert(t[q] == k);
        } else {
            assert(t[q + 1] == k);
        }
    }
}

/// Two relations that agree on the first `n` items order them alike.
pub proof fn lemma_order_congruent(lt1: spec_fn(int, int) -> bool, lt2: spec_fn(int, int) -> bool, n: int)
    requires
        0 <= n <= usize::MAX,
        forall|i: int, j: int| 0 <= i < n && 0 <= j < n ==> #[trigger] lt1(i, j) == lt2(i, j),
    ensures
        order_spec(lt1, n) == order_spec(lt2, n),
    decreases n,
{
    if n > 0 {
        lemma_order_congruent(lt1, lt2, n - 1);
        lemma_order_perm(lt1, n - 1);
        lemma_ins_pos_congruent(lt1, lt2, order_spec(lt1, n - 1), (n - 1) as usize, n);
    }
}

proof fn lemma_ins_pos_congruent(
    lt1: spec_fn(int, int) -> bool,
    lt2: spec_fn(int, int) -> bool,
    s: Seq<usize>,
    x: usize,
    n: int,
)
    requires
        x < n,
        forall|i: int| 0 <= i < s.len() ==> (#[trigger] s[i]) < n,
        forall|i: int, j: int| 0 <= i < n && 0 <= j < n ==> #[trigger] lt1(i, j) == lt2(i, j),
    ensures
        ins_pos(lt1, s, x) == ins_pos(lt2, s, x),
    decreases s.len(),
{
    if s.len() > 0 {
        assert(s.last() < n);
        assert(lt1(x as int, s.last() as int) == lt2(x as int, s.last() as int));
        lemma_ins_pos_congruent(lt1, lt2, s.drop_last(), x, n);
    }
}

/// The order in which stable insertion sorting by key lists the items.
pub fn stable_order<K: Ranked>(keys: &Vec<K>) -> (o: Vec<usize>)
    ensures
        o@ == order_spec(key_before(keys@), keys@.len() as int),
{
    let ghost lt = key_before(keys@);
    let mut out: Vec<usize> = Vec::new();
    let mut i: usize = 0;
    while i < keys.len()
        invariant
            i <= keys@.len(),
            lt == key_before(keys@),
            out@ == order_spec(lt, i as int),
            is_perm(out@, i as int),
        decreases keys.len() - i,
    {
        let mut p = out.len();
        assert(out@.take(p as int) =~= out@);
        while p > 0 && keys[i].goes_before(&keys[out[p - 1]])
            invariant
                i < keys@.len(),
                lt == key_before(keys@),
                p <= out@.len(),
                is_perm(out@, i as int),
                ins_pos(lt, out@, i) == ins_pos(lt, out@.take(p as int), i),
                forall|q: int| 0 <= q < out@.len() ==> (#[trigger] out@[q]) < i,
            decreases p,
        {
            assert(out@.take(p as int).drop_last() =~= out@.take(p - 1));
            assert(out@.take(p as int).last() == out@[p - 1]);
            p -= 1;
        }
        proof {
            if p > 0 {
                assert(out@.take(p as int).last() == out@[p - 1]);
            }
            assert(ins_pos(lt, out@.take(p as int), i) == p);
            lemma_order_perm(lt, i + 1);
        }
        out.insert(p, i);
        i += 1;
    }
    out
}

} // verus!
