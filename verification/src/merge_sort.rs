//! Merge sort: sorts each half of the vector and merges the two sorted
//! halves.

use crate::ordering::sorted;
use vstd::prelude::*;
use vstd::seq_lib::lemma_multiset_commutative;

verus! {

/// Copies the elements of `v` between `from` and `to` into a new vector.
fn copy_range(v: &Vec<i32>, from: usize, to: usize) -> (r: Vec<i32>)
    requires
        from <= to <= v@.len(),
    ensures
        r@ == v@.subrange(from as int, to as int),
{
    let mut r: Vec<i32> = Vec::new();
    let mut i = from;
    while i < to
        invariant
            from <= i <= to <= v@.len(),
            r@ =~= v@.subrange(from as int, i as int),
        decreases to - i,
    {
        r.push(v[i]);
        proof {
            assert(r@ =~= v@.subrange(from as int, i + 1));
        }
        i += 1;
    }
    r
}

/// Merges two sorted vectors into one sorted vector holding exactly their
/// elements.
fn merge_vecs(left: &Vec<i32>, right: &Vec<i32>) -> (r: Vec<i32>)
    requires
        sorted(left@),
        sorted(right@),
    ensures
        sorted(r@),
        r@.to_multiset() == (left@ + right@).to_multiset(),
        r@.len() == left@.len() + right@.len(),
{
    let mut r: Vec<i32> = Vec::new();
    let mut i: usize = 0;
    let mut j: usize = 0;
    let llen = left.len();
    let rlen = right.len();
    proof {
        assert(left@.subrange(0, 0) + right@.subrange(0, 0) =~= Seq::<i32>::empty());
        assert(r@ =~= Seq::<i32>::empty());
    }
    while i < llen || j < rlen
        invariant
            sorted(left@),
            sorted(right@),
            llen == left@.len(),
            rlen == right@.len(),
            0 <= i <= llen,
            0 <= j <= rlen,
            r@.len() == i + j,
            sorted(r@),
            r@.to_multiset() == (left@.subrange(0, i as int) + right@.subrange(
                0,
                j as int,
            )).to_multiset(),
            forall|a: int| 0 <= a < r@.len() && i < llen ==> #[trigger] r@[a] <= left@[i as int],
            forall|a: int| 0 <= a < r@.len() && j < rlen ==> #[trigger] r@[a] <= right@[j as int],
        decreases llen + rlen - i - j,
    {
        let ghost pre_r = r@;
        let ghost li = left@.subrange(0, i as int);
        let ghost rj = right@.subrange(0, j as int);
        proof {
            broadcast use vstd::seq_lib::group_to_multiset_ensures;
            broadcast use vstd::multiset::group_multiset_axioms;

            lemma_multiset_commutative(li, rj);
        }
        if i < llen && (j >= rlen || left[i] <= right[j]) {
            r.push(left[i]);
            proof {
                broadcast use vstd::seq_lib::group_to_multiset_ensures;
                broadcast use vstd::multiset::group_multiset_axioms;

                assert(left@.subrange(0, i + 1) =~= li.push(left@[i as int]));
                lemma_multiset_commutative(left@.subrange(0, i + 1), rj);
                assert(r@.to_multiset() =~= (left@.subrange(0, i + 1) + rj).to_multiset());
            }
            i += 1;
        } else {
            proof {
                assert(j < rlen);
            }
            r.push(right[j]);
            proof {
                broadcast use vstd::seq_lib::group_to_multiset_ensures;
                broadcast use vstd::multiset::group_multiset_axioms;

                assert(right@.subrange(0, j + 1) =~= rj.push(right@[j as int]));
                lemma_multiset_commutative(li, right@.subrange(0, j + 1));
                assert(r@.to_multiset() =~= (li + right@.subrange(0, j + 1)).to_multiset());
            }
            j += 1;
        }
    }
    proof {
        assert(left@.subrange(0, llen as int) =~= left@);
        assert(right@.subrange(0, rlen as int) =~= right@);
    }
    r
}

/// Merges the two already-sorted halves of the vector, split at `mid`, into
/// one sorted whole.
pub fn merge(arr: &mut Vec<i32>, mid: usize)
    requires
        mid <= old(arr)@.len(),
        sorted(old(arr)@.subrange(0, mid as int)),
        sorted(old(arr)@.subrange(mid as int, old(arr)@.len() as int)),
    ensures
        sorted(final(arr)@),
        final(arr)@.to_multiset() == old(arr)@.to_multiset(),
        final(arr)@.len() == old(arr)@.len(),
{
    let len = arr.len();
    let left = copy_range(arr, 0, mid);
    let right = copy_range(arr, mid, len);
    let merged = merge_vecs(&left, &right);
    proof {
        assert(left@ + right@ =~= old(arr)@);
    }
    *arr = merged;
}

/// Sorts the vector in ascending order by sorting each half and merging.
pub fn merge_sort(arr: &mut Vec<i32>)
    ensures
        sorted(final(arr)@),
        final(arr)@.to_multiset() == old(arr)@.to_multiset(),
        final(arr)@.len() == old(arr)@.len(),
    decreases old(arr)@.len(),
{
    broadcast use vstd::seq_lib::group_to_multiset_ensures;

    let len = arr.len();
    if len <= 1 {
        proof {
            assert(sorted(arr@));
        }
        return ;
    }
    let mid = len / 2;
    let mut right = arr.split_off(mid);
    proof {
        assert(arr@ + right@ =~= old(arr)@);
        lemma_multiset_commutative(arr@, right@);
    }
    let ghost left_before = arr@;
    let ghost right_before = right@;
    merge_sort(arr);
    merge_sort(&mut right);
    proof {
        lemma_multiset_commutative(arr@, right@);
        assert(arr@.len() == mid) by {
            assert(arr@.to_multiset().len() == arr@.len());
            assert(left_before.to_multiset().len() == left_before.len());
        }
        assert(right@.len() == len - mid) by {
            assert(right@.to_multiset().len() == right@.len());
            assert(right_before.to_multiset().len() == right_before.len());
        }
    }
    let ghost left_sorted = arr@;
    let ghost right_sorted = right@;
    arr.append(&mut right);
    proof {
        assert(arr@.subrange(0, mid as int) =~= left_sorted);
        assert(arr@.subrange(mid as int, arr@.len() as int) =~= right_sorted);
    }
    merge(arr, mid);
}

} // verus!
