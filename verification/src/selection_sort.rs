//! Selection sort: repeatedly moves the smallest remaining element to the
//! front of the unsorted region.

use crate::ordering::sorted;
use crate::ordering::swap_at;
use vstd::prelude::*;

verus! {

/// Sorts the vector in ascending order by selecting the minimum of the
/// remaining elements on every pass.
pub fn selection_sort(array: &mut Vec<i32>)
    ensures
        sorted(final(array)@),
        final(array)@.to_multiset() == old(array)@.to_multiset(),
        final(array)@.len() == old(array)@.len(),
{
    let len = array.len();
    let mut i: usize = 0;
    while i < len
        invariant
            len == array@.len(),
            0 <= i <= len,
            array@.to_multiset() == old(array)@.to_multiset(),
            forall|a: int, b: int| 0 <= a < b < i ==> array@[a] <= array@[b],
            forall|a: int, b: int| 0 <= a < i && i <= b < len ==> array@[a] <= array@[b],
        decreases len - i,
    {
        let mut min: usize = i;
        let mut j: usize = i + 1;
        while j < len
            invariant
                len == array@.len(),
                0 <= i < len,
                i <= min < j <= len,
                forall|a: int| i <= a < j ==> array@[min as int] <= array@[a],
            decreases len - j,
        {
            if array[j] < array[min] {
                min = j;
            }
            j += 1;
        }
        if min != i {
            let ghost pre = array@;
            swap_at(array, i, min);
            proof {
                assert forall|a: int, b: int|
                    0 <= a < i + 1 && i + 1 <= b < len implies #[trigger] array@[a]
                    <= #[trigger] array@[b] by {
                    if a < i {
                        if b == min {
                            assert(pre[a] <= pre[b]);
                        }
                    }
                }
            }
        }
        i += 1;
    }
}

} // verus!
