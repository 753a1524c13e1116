//! Constant-time access to an element of an array.

use vstd::prelude::*;

verus! {

/// Returns the element at `index`, or `None` when `index` is out of bounds.
pub fn access_array_element(array: &[i32], index: usize) -> (r: Option<i32>)
    ensures
        index < array@.len() ==> r == Some(array@[index as int]),
        index >= array@.len() ==> r is None,
{
    if index < array.len() {
        Some(array[index])
    } else {
        None
    }
}

} // verus!
