//! Quick sort: partitions around a pivot and sorts the two sides
//! independently.

use crate::ordering::lemma_same_multiset_same_values;
use crate::ordering::sorted;
use crate::ordering::swap_at;
use vstd::prelude::*;
use vstd::seq_lib::lemma_multiset_commutative;

verus! {

/// Rearranges the elements between `lo` and `hi` around a pivot taken from
/// the middle: everything at most the pivot ends up to its left, everything
/// greater to its right, and the pivot's final position is returned.
pub fn partition(arr: &mut Vec<i32>, lo: usize, hi: usize) -> (p: usize)
    requires
        lo < hi <= old(arr)@.len(),
    ensures
        lo <= p < hi,
        final(arr)@.len() == old(arr)@.len(),
        final(arr)@.subrange(lo as int, hi as int).to_multiset() == old(arr)@.subrange(
            lo as int,
            hi as int,
        ).to_multiset(),
        forall|k: int| 0 <= k < lo ==> final(arr)@[k] == old(arr)@[k],
        forall|k: int| hi <= k < old(arr)@.len() ==> final(arr)@[k] == old(arr)@[k],
        forall|k: int| lo <= k < p ==> final(arr)@[k] <= final(arr)@[p as int],
        forall|k: int| p < k < hi ==> final(arr)@[k] > final(arr)@[p as int],
        final(arr)@[p as int] == old(arr)@[lo + (hi - lo) / 2],
{
    let pivot = lo + (hi - lo) / 2;
    swap_range(arr, pivot, hi - 1, lo, hi);
    let mut store = lo;
    let mut i = lo;
    while i < hi - 1
        invariant
            lo < hi <= arr@.len(),
            arr@.len() == old(arr)@.len(),
            lo <= store <= i <= hi - 1,
            arr@.subrange(lo as int, hi as int).to_multiset() == old(arr)@.subrange(
                lo as int,
                hi as int,
            ).to_multiset(),
            forall|k: int| 0 <= k < lo ==> arr@[k] == old(arr)@[k],
            forall|k: int| hi <= k < old(arr)@.len() ==> arr@[k] == old(arr)@[k],
            forall|k: int| lo <= k < store ==> #[trigger] arr@[k] <= arr@[hi - 1],
            forall|k: int| store <= k < i ==> #[trigger] arr@[k] > arr@[hi - 1],
            arr@[hi - 1] == old(arr)@[lo + (hi - lo) / 2],
        decreases hi - 1 - i,
    {
        if arr[i] <= arr[hi - 1] {
            let ghost pre = arr@;
            swap_range(arr, i, store, lo, hi);
            proof {
                assert(arr@[hi - 1] == pre[hi - 1]);
            }
            store += 1;
        }
        i += 1;
    }
    let ghost pre = arr@;
    swap_range(arr, store, hi - 1, lo, hi);
    proof {
        assert(arr@[store as int] == pre[hi - 1]);
        assert forall|k: int| lo <= k < store implies arr@[k] <= arr@[store as int] by {
            assert(arr@[k] == pre[k]);
        }
        assert forall|k: int| store < k < hi implies arr@[k] > arr@[store as int] by {
            if k < hi - 1 {
                assert(arr@[k] == pre[k]);
            } else {
                assert(arr@[k] == pre[store as int]);
            }
        }
    }
    store
}

/// Exchanges two positions inside the window `[lo, hi)`, keeping track of
/// what that does to the window and to everything outside it.
fn swap_range(arr: &mut Vec<i32>, a: usize, b: usize, lo: usize, hi: usize)
    requires
        lo <= a < hi,
        lo <= b < hi,
        hi <= old(arr)@.len(),
    ensures
        final(arr)@.len() == old(arr)@.len(),
        final(arr)@[a as int] == old(arr)@[b as int],
        final(arr)@[b as int] == old(arr)@[a as int],
        forall|k: int|
            0 <= k < old(arr)@.len() && k != a && k != b ==> final(arr)@[k] == old(arr)@[k],
        final(arr)@.subrange(lo as int, hi as int).to_multiset() == old(arr)@.subrange(
            lo as int,
            hi as int,
        ).to_multiset(),
{
    swap_at(arr, a, b);
    proof {
        let pre = old(arr)@.subrange(lo as int, hi as int);
        let post = arr@.subrange(lo as int, hi as int);
        crate::ordering::lemma_swap_multiset(pre, a - lo, b - lo);
        assert(post =~= pre.update(a - lo, pre[b - lo]).update(b - lo, pre[a - lo]));
    }
}

/// Sorts the elements between `lo` and `hi`, leaving the rest untouched.
fn quick_sort_range(arr: &mut Vec<i32>, lo: usize, hi: usize)
    requires
        lo <= hi <= old(arr)@.len(),
    ensures
        final(arr)@.len() == old(arr)@.len(),
        final(arr)@.subrange(lo as int, hi as int).to_multiset() == old(arr)@.subrange(
            lo as int,
            hi as int,
        ).to_multiset(),
        forall|k: int| 0 <= k < lo ==> final(arr)@[k] == old(arr)@[k],
        forall|k: int| hi <= k < old(arr)@.len() ==> final(arr)@[k] == old(arr)@[k],
        sorted(final(arr)@.subrange(lo as int, hi as int)),
    decreases hi - lo,
{
    if hi - lo < 2 {
        return ;
    }
    let p = partition(arr, lo, hi);
    let ghost after_part = arr@;
    quick_sort_range(arr, lo, p);
    let ghost after_left = arr@;
    proof {
        lemma_same_multiset_same_values(
            after_left.subrange(lo as int, p as int),
            after_part.subrange(lo as int, p as int),
        );
        assert(arr@[p as int] == after_part[p as int]);
    }
    quick_sort_range(arr, p + 1, hi);
    proof {
        assert(after_left.subrange(p + 1, hi as int) =~= after_part.subrange(p + 1, hi as int));
        assert(arr@.subrange(lo as int, p as int) =~= after_left.subrange(lo as int, p as int));
        lemma_same_multiset_same_values(
            arr@.subrange(p + 1, hi as int),
            after_part.subrange(p + 1, hi as int),
        );
        let pv = after_part[p as int];
        assert(arr@[p as int] == pv);
        assert forall|k: int| lo <= k < p implies arr@[k] <= pv by {
            assert(arr@[k] == after_left[k]);
            assert(after_left.subrange(lo as int, p as int).contains(after_left[k])) by {
                assert(after_left.subrange(lo as int, p as int)[k - lo] == after_left[k]);
            }
            assert(after_part.subrange(lo as int, p as int).contains(after_left[k]));
            let w = choose|w: int|
                0 <= w < p - lo && #[trigger] after_part.subrange(lo as int, p as int)[w] == after_left[k];
            assert(after_part[lo + w] <= pv);
        }
        assert forall|k: int| p < k < hi implies arr@[k] > pv by {
            assert(arr@.subrange(p + 1, hi as int).contains(arr@[k])) by {
                assert(arr@.subrange(p + 1, hi as int)[k - p - 1] == arr@[k]);
            }
            assert(after_part.subrange(p + 1, hi as int).contains(arr@[k]));
            let w = choose|w: int|
                0 <= w < hi - p - 1 && #[trigger] after_part.subrange(p + 1, hi as int)[w] == arr@[k];
            assert(after_part[p + 1 + w] > pv);
        }
        assert forall|x: int, y: int|
            0 <= x < y < hi - lo implies #[trigger] arr@.subrange(lo as int, hi as int)[x]
            <= #[trigger] arr@.subrange(lo as int, hi as int)[y] by {
            let a = x + lo;
            let b = y + lo;
            let sl = arr@.subrange(lo as int, p as int);
            let sr = arr@.subrange(p + 1, hi as int);
            assert(arr@.subrange(lo as int, hi as int)[x] == arr@[a]);
            assert(arr@.subrange(lo as int, hi as int)[y] == arr@[b]);
            if b < p {
                assert(sl[a - lo] <= sl[b - lo]);
            } else if a > p {
                assert(sr[a - p - 1] <= sr[b - p - 1]);
            } else if a == p {
                assert(arr@[b] > pv);
            } else if b == p {
                assert(arr@[a] <= pv);
            } else {
                assert(arr@[a] <= pv);
                assert(arr@[b] > pv);
            }
        }
        assert(arr@.subrange(lo as int, hi as int).to_multiset() == after_part.subrange(
            lo as int,
            hi as int,
        ).to_multiset()) by {
            lemma_split_three(after_part, lo as int, p as int, hi as int);
            lemma_split_three(arr@, lo as int, p as int, hi as int);
            assert(arr@.subrange(lo as int, p as int).to_multiset() == after_part.subrange(
                lo as int,
                p as int,
            ).to_multiset());
            assert(arr@.subrange(p as int, p + 1) =~= after_part.subrange(p as int, p + 1));
        }
    }
}

/// The multiset of a window splits at any interior point and the point after.
proof fn lemma_split_three(s: Seq<i32>, lo: int, p: int, hi: int)
    requires
        0 <= lo <= p < hi <= s.len(),
    ensures
        s.subrange(lo, hi).to_multiset() == s.subrange(lo, p).to_multiset().add(
            s.subrange(p, p + 1).to_multiset(),
        ).add(s.subrange(p + 1, hi).to_multiset()),
{
    assert(s.subrange(lo, hi) =~= s.subrange(lo, p) + s.subrange(p, p + 1) + s.subrange(
        p + 1,
        hi,
    ));
    lemma_multiset_commutative(s.subrange(lo, p) + s.subrange(p, p + 1), s.subrange(p + 1, hi));
    lemma_multiset_commutative(s.subrange(lo, p), s.subrange(p, p + 1));
}

/// Sorts the vector in ascending order.
pub fn quick_sort(arr: &mut Vec<i32>)
    ensures
        sorted(final(arr)@),
        final(arr)@.to_multiset() == old(arr)@.to_multiset(),
        final(arr)@.len() == old(arr)@.len(),
{
    let len = arr.len();
    if len < 2 {
        proof {
            assert(sorted(arr@));
        }
        return ;
    }
    quick_sort_range(arr, 0, len);
    proof {
        assert(arr@.subrange(0, len as int) =~= arr@);
        assert(old(arr)@.subrange(0, len as int) =~= old(arr)@);
        assert(sorted(arr@));
    }
}

} // verus!
