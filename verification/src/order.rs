//! Sequences kept in a strict total order, without repeats.
//!
//! Every ordering that the index needs (query tokens, scored candidates, usage
//! rows, entries by name) is an instance of [`Ranked`]. The specification of a
//! sorted result is [`ranked`]: the distinct values of a sequence, each placed
//! where it belongs. [`lemma_ranked`] and [`lemma_ranked_unique`] show that this
//! is the one strictly ordered sequence with those values.

use vstd::prelude::*;
use crate::text::{
    first_match, lemma_first_match, lemma_first_match_is, lemma_first_match_none, seq_view,
};

verus! {

/// A type whose values are ordered by their views.
pub trait Ranked: View + Sized {
    /// `a` ranks strictly before `b`.
    spec fn precedes(a: Self::V, b: Self::V) -> bool;

    /// Decides [`Ranked::precedes`].
    fn ranks_before(&self, other: &Self) -> (b: bool)
        ensures
            b == Self::precedes(self@, other@),
    ;

    /// What ranks before a value ranks before all that the value ranks before.
    proof fn lemma_transitive(a: Self::V, b: Self::V, c: Self::V)
        requires
            Self::precedes(a, b),
            Self::precedes(b, c),
        ensures
            Self::precedes(a, c),
    ;

    /// No value ranks before itself.
    proof fn lemma_irreflexive(a: Self::V)
        ensures
            !Self::precedes(a, a),
    ;

    /// Two values of which neither ranks before the other are the same value.
    proof fn lemma_total(a: Self::V, b: Self::V)
        requires
            !Self::precedes(a, b),
            !Self::precedes(b, a),
        ensures
            a == b,
    ;
}

/// The first `k` values of `s`, or all of `s` where it has fewer.
pub open spec fn prefix<A>(s: Seq<A>, k: int) -> Seq<A> {
    if 0 <= k && k <= s.len() {
        s.take(k)
    } else {
        s
    }
}

/// Each value ranks strictly before all that follow it.
pub open spec fn strictly_ranked<T: Ranked>(s: Seq<T::V>) -> bool {
    forall|i: int, j: int| 0 <= i < j < s.len() ==> T::precedes(#[trigger] s[i], #[trigger] s[j])
}

/// The index of the first value of `s` that does not rank before `x`, or the
/// length of `s`.
pub open spec fn slot<T: Ranked>(s: Seq<T::V>, x: T::V) -> int {
    match first_match(|p: int| !T::precedes(s[p], x), 0, s.len() as int) {
        Some(p) => p,
        None => s.len() as int,
    }
}

/// `s` with `x` put where it belongs; `s` itself where `x` is there already.
pub open spec fn placed<T: Ranked>(s: Seq<T::V>, x: T::V) -> Seq<T::V> {
    let p = slot::<T>(s, x);
    if p < s.len() && !T::precedes(x, s[p]) {
        s
    } else {
        s.insert(p, x)
    }
}

/// The distinct values of `s` in their order.
pub open spec fn ranked<T: Ranked>(s: Seq<T::V>) -> Seq<T::V>
    decreases s.len(),
{
    if s.len() == 0 {
        Seq::empty()
    } else {
        placed::<T>(ranked::<T>(s.drop_last()), s.last())
    }
}

/// What is known of the slot of `x` in `s`.
pub proof fn lemma_slot<T: Ranked>(s: Seq<T::V>, x: T::V)
    ensures
        0 <= slot::<T>(s, x) <= s.len(),
        forall|q: int| 0 <= q < slot::<T>(s, x) ==> T::precedes(#[trigger] s[q], x),
        slot::<T>(s, x) < s.len() ==> !T::precedes(s[slot::<T>(s, x)], x),
{
    let pred = |p: int| !T::precedes(s[p], x);
    lemma_first_match(pred, 0, s.len() as int);
    assert forall|q: int| 0 <= q < slot::<T>(s, x) implies T::precedes(#[trigger] s[q], x) by {
        assert(!pred(q));
    }
}

/// Placing a value keeps the order strict, and adds that value and no other.
pub proof fn lemma_placed<T: Ranked>(s: Seq<T::V>, x: T::V)
    requires
        strictly_ranked::<T>(s),
    ensures
        strictly_ranked::<T>(placed::<T>(s, x)),
        forall|y: T::V| placed::<T>(s, x).contains(y) <==> (s.contains(y) || y == x),
{
    let p = slot::<T>(s, x);
    let r = placed::<T>(s, x);
    lemma_slot::<T>(s, x);
    if p < s.len() && !T::precedes(x, s[p]) {
        T::lemma_total(x, s[p]);
        assert(s.contains(x));
    } else {
        assert(r == s.insert(p, x));
        assert forall|i: int, j: int| 0 <= i < j < r.len() implies T::precedes(
            #[trigger] r[i],
            #[trigger] r[j],
        ) by {
            if i == p {
                assert(r[j] == s[j - 1]);
                if j - 1 > p {
                    T::lemma_transitive(x, s[p], s[j - 1]);
                }
            } else if j == p {
                assert(r[i] == s[i]);
            } else {
                let i0 = if i < p { i } else { i - 1 };
                let j0 = if j < p { j } else { j - 1 };
                assert(r[i] == s[i0] && r[j] == s[j0]);
            }
        }
        assert forall|y: T::V| r.contains(y) <==> (s.contains(y) || y == x) by {
            if r.contains(y) {
                let k = choose|k: int| 0 <= k < r.len() && r[k] == y;
                if k < p {
                    assert(s[k] == y);
                } else if k > p {
                    assert(s[k - 1] == y);
                }
            }
            if s.contains(y) {
                let k = choose|k: int| 0 <= k < s.len() && s[k] == y;
                if k < p {
                    assert(r[k] == y);
                } else {
                    assert(r[k + 1] == y);
                }
            }
            if y == x {
                assert(r[p] == y);
            }
        }
    }
}

/// [`ranked`] is strictly ordered and holds the values of `s`, all of them and
/// no other.
pub proof fn lemma_ranked<T: Ranked>(s: Seq<T::V>)
    ensures
        strictly_ranked::<T>(ranked::<T>(s)),
        forall|y: T::V| ranked::<T>(s).contains(y) <==> s.contains(y),
    decreases s.len(),
{
    if s.len() > 0 {
        lemma_ranked::<T>(s.drop_last());
        lemma_placed::<T>(ranked::<T>(s.drop_last()), s.last());
        assert forall|y: T::V| ranked::<T>(s).contains(y) <==> s.contains(y) by {
            if s.contains(y) {
                let k = choose|k: int| 0 <= k < s.len() && s[k] == y;
                if k < s.len() - 1 {
                    assert(s.drop_last()[k] == y);
                }
            }
            if s.drop_last().contains(y) {
                let k = choose|k: int| 0 <= k < s.drop_last().len() && s.drop_last()[k] == y;
                assert(s[k] == y);
            }
        }
    }
}

/// [`ranked`] is no longer than what it orders.
pub proof fn lemma_ranked_len<T: Ranked>(s: Seq<T::V>)
    ensures
        ranked::<T>(s).len() <= s.len(),
    decreases s.len(),
{
    if s.len() > 0 {
        lemma_ranked_len::<T>(s.drop_last());
        lemma_slot::<T>(ranked::<T>(s.drop_last()), s.last());
    }
}

/// Two strictly ordered sequences with the same values are the same sequence.
pub proof fn lemma_ranked_unique<T: Ranked>(a: Seq<T::V>, b: Seq<T::V>)
    requires
        strictly_ranked::<T>(a),
        strictly_ranked::<T>(b),
        forall|y: T::V| a.contains(y) <==> b.contains(y),
    ensures
        a == b,
    decreases a.len(),
{
    if a.len() == 0 {
        if b.len() > 0 {
            assert(b.contains(b[0]));
        }
        assert(a =~= b);
    } else if b.len() == 0 {
        assert(a.contains(a[0]));
    } else {
        let x = a.last();
        let y = b.last();
        assert(a.contains(x));
        assert(b.contains(y));
        let i = choose|i: int| 0 <= i < b.len() && b[i] == x;
        let j = choose|j: int| 0 <= j < a.len() && a[j] == y;
        if i < b.len() - 1 && j < a.len() - 1 {
            T::lemma_transitive(x, y, x);
            T::lemma_irreflexive(x);
        } else if i < b.len() - 1 {
            T::lemma_irreflexive(x);
        } else if j < a.len() - 1 {
            T::lemma_irreflexive(y);
        }
        assert(x == y);
        let a0 = a.drop_last();
        let b0 = b.drop_last();
        assert forall|z: T::V| a0.contains(z) <==> b0.contains(z) by {
            if a0.contains(z) {
                let k = choose|k: int| 0 <= k < a0.len() && a0[k] == z;
                assert(a[k] == z);
                assert(T::precedes(a[k], a[a.len() - 1]));
                assert(a.contains(z));
                let m = choose|m: int| 0 <= m < b.len() && b[m] == z;
                if m == b.len() - 1 {
                    T::lemma_irreflexive(z);
                }
                assert(b0[m] == z);
            }
            if b0.contains(z) {
                let k = choose|k: int| 0 <= k < b0.len() && b0[k] == z;
                assert(b[k] == z);
                assert(T::precedes(b[k], b[b.len() - 1]));
                assert(b.contains(z));
                let m = choose|m: int| 0 <= m < a.len() && a[m] == z;
                if m == a.len() - 1 {
                    T::lemma_irreflexive(z);
                }
                assert(a0[m] == z);
            }
        }
        lemma_ranked_unique::<T>(a0, b0);
        assert(a =~= a0.push(x));
        assert(b =~= b0.push(y));
    }
}

/// To keep only the first `k` values, it is enough to have kept only the
/// first `k` before each placement.
pub proof fn lemma_placed_prefix<T: Ranked>(s: Seq<T::V>, x: T::V, k: int)
    requires
        strictly_ranked::<T>(s),
        0 <= k,
    ensures
        prefix(placed::<T>(s, x), k) == prefix(placed::<T>(prefix(s, k), x), k),
{
    let t = prefix(s, k);
    let p = slot::<T>(s, x);
    lemma_slot::<T>(s, x);
    let pred_t = |q: int| !T::precedes(t[q], x);
    if t.len() == s.len() {
        assert(t =~= s);
    } else if p < k {
        assert(t.len() == k);
        assert(pred_t(p));
        assert forall|q: int| 0 <= q < p implies !#[trigger] pred_t(q) by {
            assert(T::precedes(s[q], x));
        }
        lemma_first_match_is(pred_t, 0, t.len() as int, p);
        assert(slot::<T>(t, x) == p);
        assert(t[p] == s[p]);
        if !T::precedes(x, s[p]) {
            assert(prefix(t, k) =~= t);
        } else {
            assert(prefix(s.insert(p, x), k) =~= prefix(t.insert(p, x), k));
        }
    } else {
        assert forall|q: int| 0 <= q < t.len() implies !#[trigger] pred_t(q) by {
            assert(T::precedes(s[q], x));
        }
        lemma_first_match_none(pred_t, 0, t.len() as int);
        assert(slot::<T>(t, x) == k);
        assert(placed::<T>(t, x) == t.insert(k, x));
        assert(prefix(t.insert(k, x), k) =~= t);
        if p < s.len() && !T::precedes(x, s[p]) {
        } else {
            assert(prefix(s.insert(p, x), k) =~= t);
        }
    }
}

/// Puts `x` where it belongs in `v`, unless a value with the same view is there.
pub fn place<T: Ranked>(v: &mut Vec<T>, x: T)
    ensures
        seq_view(final(v)@) == placed::<T>(seq_view(old(v)@), x@),
        forall|j: int|
            0 <= j < final(v)@.len() ==> (#[trigger] final(v)@[j]) == x || old(v)@.contains(
                final(v)@[j],
            ),
{
    let ghost s = seq_view(v@);
    let ghost pred = |p: int| !T::precedes(s[p], x@);
    let mut p: usize = 0;
    while p < v.len() && v[p].ranks_before(&x)
        invariant
            p <= v.len(),
            s == seq_view(v@),
            v@ == old(v)@,
            pred == (|p: int| !T::precedes(s[p], x@)),
            forall|q: int| 0 <= q < p ==> !#[trigger] pred(q),
        decreases v.len() - p,
    {
        p += 1;
    }
    proof {
        if p < v.len() {
            assert(pred(p as int));
            lemma_first_match_is(pred, 0, s.len() as int, p as int);
        } else {
            lemma_first_match_none(pred, 0, s.len() as int);
        }
        assert(slot::<T>(s, x@) == p);
    }
    if p < v.len() && !x.ranks_before(&v[p]) {
    } else {
        v.insert(p, x);
        assert(seq_view(v@) =~= s.insert(p as int, x@));
        assert forall|j: int| 0 <= j < v@.len() implies (#[trigger] v@[j]) == x || old(v)@.contains(
            v@[j],
        ) by {
            if j < p {
                assert(old(v)@[j] == v@[j]);
            } else if j > p {
                assert(old(v)@[j - 1] == v@[j]);
            }
        }
    }
}

} // verus!
