//! One worked example for each common running-time class: constant-factor
//! lookups live in `arrays`, and this module collects a logarithmic search, a
//! linear search, two quadratic sorts, an exponential recursion and a
//! factorial-time generator.

use crate::heaps_algo::factorial;
use crate::ordering::sorted;
use crate::ordering::swap_at;
use vstd::prelude::*;

verus! {

/// Logarithmic time: finds the position of `target` in the sorted slice, or
/// reports as an error the position at which it would have to be inserted.
pub fn binary_search(array: &[i32], target: i32) -> (r: Result<usize, usize>)
    requires
        sorted(array@),
    ensures
        r matches Ok(i) ==> i < array@.len() && array@[i as int] == target,
        r matches Err(i) ==> {
            &&& i <= array@.len()
            &&& forall|k: int| 0 <= k < i ==> array@[k] < target
            &&& forall|k: int| i <= k < array@.len() ==> array@[k] > target
        },
{
    let mut low: usize = 0;
    let mut high: usize = array.len();
    while low < high
        invariant
            sorted(array@),
            0 <= low <= high <= array@.len(),
            forall|k: int| 0 <= k < low ==> array@[k] < target,
            forall|k: int| high <= k < array@.len() ==> array@[k] > target,
        decreases high - low,
    {
        let mid = low + (high - low) / 2;
        if array[mid] > target {
            high = mid;
        } else if array[mid] < target {
            low = mid + 1;
        } else {
            return Ok(mid);
        }
    }
    Err(low)
}

/// Linear time: walks the slice and reports whether it holds `target`.
pub fn basic_search(array: &[i32], target: i32) -> (r: bool)
    ensures
        r == array@.contains(target),
{
    let n = array.len();
    let mut i: usize = 0;
    while i < n
        invariant
            n == array@.len(),
            0 <= i <= n,
            forall|k: int| 0 <= k < i ==> array@[k] != target,
        decreases n - i,
    {
        if array[i] == target {
            proof {
                assert(array@.contains(target)) by {
                    assert(array@[i as int] == target);
                }
            }
            return true;
        }
        i += 1;
    }
    false
}

/// Sorts in place by finding the maximum of the unsorted region and placing
/// it at the end, pass after pass, the way a max container hands out its top
/// element.
pub fn heap_sort(array: &mut Vec<i32>)
    ensures
        sorted(final(array)@),
        final(array)@.to_multiset() == old(array)@.to_multiset(),
        final(array)@.len() == old(array)@.len(),
{
    let len = array.len();
    if len == 0 {
        return ;
    }
    let mut i: usize = len - 1;
    while i > 0
        invariant
            len == array@.len(),
            0 <= i < len,
            array@.to_multiset() == old(array)@.to_multiset(),
            forall|a: int, b: int| i <= a < b < len ==> array@[a] <= array@[b],
            forall|a: int, b: int| 0 <= a <= i && i < b < len ==> array@[a] <= array@[b],
        decreases i,
    {
        let mut largest: usize = 0;
        let mut j: usize = 1;
        while j <= i
            invariant
                len == array@.len(),
                0 < j <= i + 1 <= len,
                0 <= largest < j,
                forall|a: int| 0 <= a < j ==> array@[a] <= array@[largest as int],
            decreases i + 1 - j,
        {
            if array[j] > array[largest] {
                largest = j;
            }
            j += 1;
        }
        let ghost pre = array@;
        swap_at(array, largest, i);
        proof {
            assert forall|a: int, b: int|
                0 <= a <= i - 1 && i - 1 < b < len implies #[trigger] array@[a]
                <= #[trigger] array@[b] by {
                if b == i {
                    if a == largest {
                        assert(pre[a as int] <= pre[largest as int]);
                    }
                } else {
                    if a == largest {
                        assert(pre[i as int] <= pre[b]);
                    } else {
                        assert(pre[a] <= pre[largest as int]);
                        assert(pre[largest as int] <= pre[b]);
                    }
                }
            }
        }
        i -= 1;
    }
}

/// Quadratic time: bubble sort.
pub fn bubble_sort(array: &mut Vec<i32>)
    ensures
        sorted(final(array)@),
        final(array)@.to_multiset() == old(array)@.to_multiset(),
        final(array)@.len() == old(array)@.len(),
{
    crate::bubble_sort::bubble_sort(array);
}

/// The Fibonacci numbers.
pub open spec fn fib(n: nat) -> nat
    decreases n,
{
    if n == 0 {
        0
    } else if n == 1 {
        1
    } else {
        fib((n - 1) as nat) + fib((n - 2) as nat)
    }
}

/// The Fibonacci numbers never decrease.
pub proof fn lemma_fib_monotonic(a: nat, b: nat)
    requires
        a <= b,
    ensures
        fib(a) <= fib(b),
    decreases b,
{
    if a < b && b >= 2 {
        lemma_fib_monotonic(a, (b - 1) as nat);
    } else if a < b && b == 1 {
        assert(fib(0) == 0);
    }
}

/// Exponential time: the straightforward doubly-recursive Fibonacci
/// computation.
pub fn fibonacci(n: u32) -> (r: u32)
    requires
        fib(n as nat) <= u32::MAX,
    ensures
        r == fib(n as nat),
    decreases n,
{
    match n {
        0 => 0,
        1 => 1,
        _ => {
            proof {
                lemma_fib_monotonic((n - 1) as nat, n as nat);
                lemma_fib_monotonic((n - 2) as nat, n as nat);
            }
            fibonacci(n - 1) + fibonacci(n - 2)
        },
    }
}

/// Factorial time: appends to `result` one rearrangement of `arr` for every
/// permutation of its first `k` elements.
pub fn permutations(arr: &mut Vec<i32>, k: usize, result: &mut Vec<Vec<i32>>)
    requires
        k <= old(arr)@.len(),
    ensures
        final(arr)@.len() == old(arr)@.len(),
        final(arr)@.to_multiset() == old(arr)@.to_multiset(),
        k >= 1 ==> final(result)@.len() == old(result)@.len() + factorial(k as nat),
        k == 0 ==> final(result)@ == old(result)@,
        forall|i: int| 0 <= i < old(result)@.len() ==> final(result)@[i] == old(result)@[i],
        forall|i: int|
            old(result)@.len() <= i < final(result)@.len()
                ==> (#[trigger] final(result)@[i])@.to_multiset() == old(arr)@.to_multiset(),
{
    crate::heaps_algo::permutations(arr, k, result);
}

} // verus!
