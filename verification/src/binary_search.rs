//! Binary search over a sorted slice.

use crate::ordering::sorted;
use vstd::prelude::*;

verus! {

/// Finds a position of `target` in the sorted slice, or `None` when the
/// slice does not hold it.
pub fn binary_search(arr: &[i32], target: &i32) -> (r: Option<usize>)
    requires
        sorted(arr@),
    ensures
        r matches Some(i) ==> i < arr@.len() && arr@[i as int] == *target,
        r is None ==> forall|k: int| 0 <= k < arr@.len() ==> arr@[k] != *target,
{
    let mut low: usize = 0;
    let mut high: usize = arr.len();
    while low < high
        invariant
            sorted(arr@),
            0 <= low <= high <= arr@.len(),
            forall|k: int| 0 <= k < low ==> arr@[k] < *target,
            forall|k: int| high <= k < arr@.len() ==> arr@[k] > *target,
        decreases high - low,
    {
        let mid = low + (high - low) / 2;
        if arr[mid] > *target {
            high = mid;
        } else if arr[mid] < *target {
            low = mid + 1;
        } else {
            return Some(mid);
        }
    }
    None
}

/// Finds the position of `target` in the sorted slice, or reports as an
/// error the position at which it would have to be inserted.
pub fn binary_search2(array: &[i32], target: i32) -> (r: Result<usize, usize>)
    requires
        sorted(array@),
    ensures
        r matches Ok(i) ==> i < array@.len() && array@[i as int] == target,
        r matches Err(i) ==> {
            &&& i <= array@.len()
            &&& forall|k: int| 0 <= k < i ==> array@[k] < target
            &&& forall|k: int| i <= k < array@.len() ==> array@[k] > target
        },
{
    let mut low: usize = 0;
    let mut high: usize = array.len();
    while low < high
        invariant
            sorted(array@),
            0 <= low <= high <= array@.len(),
            forall|k: int| 0 <= k < low ==> array@[k] < target,
            forall|k: int| high <= k < array@.len() ==> array@[k] > target,
        decreases high - low,
    {
        let mid = low + (high - low) / 2;
        if array[mid] > target {
            high = mid;
        } else if array[mid] < target {
            low = mid + 1;
        } else {
            return Ok(mid);
        }
    }
    Err(low)
}

} // verus!
