//! Heap's algorithm: generates the permutations of a prefix of a vector by
//! exchanging one pair of elements between consecutive outputs.

use vstd::prelude::*;

verus! {

/// The factorial function.
pub open spec fn factorial(k: nat) -> nat
    decreases k,
{
    if k == 0 {
        1
    } else {
        k * factorial((k - 1) as nat)
    }
}

/// Copies a vector of integers.
pub(crate) fn copy_values(v: &Vec<i32>) -> (r: Vec<i32>)
    ensures
        r@ == v@,
{
    let mut r: Vec<i32> = Vec::new();
    let n = v.len();
    let mut i: usize = 0;
    while i < n
        invariant
            n == v@.len(),
            0 <= i <= n,
            r@ =~= v@.subrange(0, i as int),
        decreases n - i,
    {
        r.push(v[i]);
        proof {
            assert(r@ =~= v@.subrange(0, i + 1));
        }
        i += 1;
    }
    proof {
        assert(v@.subrange(0, n as int) =~= v@);
    }
    r
}

/// Appends to `result` one copy of `arr` for every permutation of its first
/// `k` elements: exactly `k!` new entries, each a rearrangement of `arr`,
/// with the entries already in `result` untouched.  The vector itself ends
/// up rearranged as well, holding the same elements as before.
pub fn permutations(arr: &mut Vec<i32>, k: usize, result: &mut Vec<Vec<i32>>)
    requires
        k <= old(arr)@.len(),
    ensures
        final(arr)@.len() == old(arr)@.len(),
        final(arr)@.to_multiset() == old(arr)@.to_multiset(),
        k >= 1 ==> final(result)@.len() == old(result)@.len() + factorial(k as nat),
        k == 0 ==> final(result)@ == old(result)@,
        forall|i: int| 0 <= i < old(result)@.len() ==> final(result)@[i] == old(result)@[i],
        forall|i: int|
            old(result)@.len() <= i < final(result)@.len()
                ==> (#[trigger] final(result)@[i])@.to_multiset() == old(arr)@.to_multiset(),
    decreases k,
{
    if k == 1 {
        let copy = copy_values(arr);
        result.push(copy);
        proof {
            assert(factorial(1) == 1 * factorial(0));
        }
    } else {
        let mut i: usize = 0;
        while i < k
            invariant
                2 <= k <= arr@.len() || (k == 0 && i == 0),
                0 <= i <= k,
                arr@.len() == old(arr)@.len(),
                arr@.to_multiset() == old(arr)@.to_multiset(),
                result@.len() == old(result)@.len() + i * factorial((k - 1) as nat),
                forall|j: int| 0 <= j < old(result)@.len() ==> result@[j] == old(result)@[j],
                forall|j: int|
                    old(result)@.len() <= j < result@.len() ==> (#[trigger] result@[j])@.to_multiset()
                        == old(arr)@.to_multiset(),
            decreases k - i,
        {
            let ghost before = result@;
            permutations(arr, k - 1, result);
            proof {
                assert((i + 1) * factorial((k - 1) as nat) == i * factorial((k - 1) as nat)
                    + factorial((k - 1) as nat)) by (nonlinear_arith);
                assert forall|j: int|
                    old(result)@.len() <= j < result@.len() implies (#[trigger] result@[j])@.to_multiset()
                        == old(arr)@.to_multiset() by {
                    if j < before.len() {
                        assert(result@[j] == before[j]);
                    }
                }
            }
            if k % 2 == 0 {
                crate::ordering::swap_at(arr, i, k - 1);
            } else {
                crate::ordering::swap_at(arr, 0, k - 1);
            }
            i += 1;
        }
        proof {
            if k >= 1 {
                assert(factorial(k as nat) == k * factorial((k - 1) as nat));
            }
        }
    }
}

} // verus!
