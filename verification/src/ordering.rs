//! The vocabulary shared by the sorting routines: what it means for a
//! sequence to be sorted, and the facts about swaps and rearrangements that
//! their proofs lean on.

use vstd::prelude::*;
use vstd::seq_lib::lemma_multiset_commutative;

verus! {

/// The elements of `s` are in ascending order.
pub open spec fn sorted(s: Seq<i32>) -> bool {
    forall|a: int, b: int| 0 <= a < b < s.len() ==> s[a] <= s[b]
}

/// Exchanges the elements at `i` and `j`.
pub fn swap_at(v: &mut Vec<i32>, i: usize, j: usize)
    requires
        i < old(v)@.len(),
        j < old(v)@.len(),
    ensures
        final(v)@ == old(v)@.update(i as int, old(v)@[j as int]).update(
            j as int,
            old(v)@[i as int],
        ),
        final(v)@.len() == old(v)@.len(),
        final(v)@.to_multiset() == old(v)@.to_multiset(),
{
    let a = v[i];
    let b = v[j];
    v[i] = b;
    v[j] = a;
    proof {
        lemma_swap_multiset(old(v)@, i as int, j as int);
    }
}

/// Exchanging two positions of a sequence does not change its multiset.
pub proof fn lemma_swap_multiset(s: Seq<i32>, i: int, j: int)
    requires
        0 <= i < s.len(),
        0 <= j < s.len(),
    ensures
        s.update(i, s[j]).update(j, s[i]).to_multiset() == s.to_multiset(),
{
    broadcast use vstd::seq_lib::group_to_multiset_ensures;

    let t = s.update(i, s[j]).update(j, s[i]);
    if i == j {
        assert(t =~= s);
    } else {
        let lo = if i < j {
            i
        } else {
            j
        };
        let hi = if i < j {
            j
        } else {
            i
        };
        let a = s.subrange(0, lo);
        let b = s.subrange(lo + 1, hi);
        let c = s.subrange(hi + 1, s.len() as int);
        assert(s =~= a + seq![s[lo]] + b + seq![s[hi]] + c);
        assert(t =~= a + seq![s[hi]] + b + seq![s[lo]] + c);
        lemma_multiset_commutative(a + seq![s[lo]] + b + seq![s[hi]], c);
        lemma_multiset_commutative(a + seq![s[lo]] + b, seq![s[hi]]);
        lemma_multiset_commutative(a + seq![s[lo]], b);
        lemma_multiset_commutative(a, seq![s[lo]]);
        lemma_multiset_commutative(a + seq![s[hi]] + b + seq![s[lo]], c);
        lemma_multiset_commutative(a + seq![s[hi]] + b, seq![s[lo]]);
        lemma_multiset_commutative(a + seq![s[hi]], b);
        lemma_multiset_commutative(a, seq![s[hi]]);
        assert((a + seq![s[lo]] + b + seq![s[hi]] + c).to_multiset() =~= (a + seq![s[hi]] + b
            + seq![s[lo]] + c).to_multiset());
    }
}

/// Sequences with the same multiset hold the same values.
pub proof fn lemma_same_multiset_same_values(s1: Seq<i32>, s2: Seq<i32>)
    requires
        s1.to_multiset() == s2.to_multiset(),
    ensures
        forall|x: i32| s1.contains(x) <==> s2.contains(x),
{
    s1.to_multiset_ensures();
    s2.to_multiset_ensures();
    assert forall|x: i32| s1.contains(x) implies s2.contains(x) by {
        assert(s1.to_multiset().count(x) > 0);
    }
    assert forall|x: i32| s2.contains(x) implies s1.contains(x) by {
        assert(s2.to_multiset().count(x) > 0);
    }
}

} // verus!
