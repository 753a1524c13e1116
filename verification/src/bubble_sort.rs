//! Bubble sort: repeatedly swaps adjacent elements that are out of order.

use crate::ordering::sorted;
use crate::ordering::swap_at;
use vstd::prelude::*;

verus! {

/// Sorts the vector in ascending order by bubbling the largest remaining
/// element to the end on every pass.
pub fn bubble_sort(array: &mut Vec<i32>)
    ensures
        sorted(final(array)@),
        final(array)@.to_multiset() == old(array)@.to_multiset(),
        final(array)@.len() == old(array)@.len(),
{
    let len = array.len();
    if len == 0 {
        return ;
    }
    let mut i: usize = 0;
    while i < len
        invariant
            1 <= len == array@.len(),
            0 <= i <= len,
            array@.to_multiset() == old(array)@.to_multiset(),
            forall|a: int, b: int|
                len - i <= a < b < len ==> array@[a] <= array@[b],
            forall|a: int, b: int|
                0 <= a < len - i && len - i <= b < len ==> array@[a] <= array@[b],
        decreases len - i,
    {
        let mut j: usize = 0;
        while j < len - i - 1
            invariant
                1 <= len == array@.len(),
                0 <= i < len,
                0 <= j <= len - i - 1,
                array@.to_multiset() == old(array)@.to_multiset(),
                forall|a: int, b: int|
                    len - i <= a < b < len ==> array@[a] <= array@[b],
                forall|a: int, b: int|
                    0 <= a < len - i && len - i <= b < len ==> array@[a] <= array@[b],
                forall|a: int| 0 <= a < j ==> array@[a] <= array@[j as int],
            decreases len - i - j,
        {
            if array[j] > array[j + 1] {
                let ghost pre = array@;
                swap_at(array, j, j + 1);
                proof {
                    assert forall|a: int| 0 <= a < j + 1 implies #[trigger] array@[a] <= array@[j + 1] by {
                        if a < j {
                            assert(pre[a] <= pre[j as int]);
                        }
                    }
                }
            }
            j += 1;
        }
        i += 1;
    }
}

} // verus!
