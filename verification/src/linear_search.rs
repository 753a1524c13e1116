//! Linear search: walks the slice from the front.

use vstd::prelude::*;

verus! {

/// First position of `target` in the slice, or `None` when the slice does
/// not hold it.
pub fn linear_search(arr: &[i32], target: &i32) -> (r: Option<usize>)
    ensures
        r matches Some(i) ==> {
            &&& i < arr@.len()
            &&& arr@[i as int] == *target
            &&& forall|k: int| 0 <= k < i ==> arr@[k] != *target
        },
        r is None ==> forall|k: int| 0 <= k < arr@.len() ==> arr@[k] != *target,
{
    let n = arr.len();
    let mut i: usize = 0;
    while i < n
        invariant
            n == arr@.len(),
            0 <= i <= n,
            forall|k: int| 0 <= k < i ==> arr@[k] != *target,
        decreases n - i,
    {
        if arr[i] == *target {
            return Some(i);
        }
        i += 1;
    }
    None
}

} // verus!
