//! Heap sort over a consumed vector: the input plays the role of a max
//! container from which the largest remaining element is drawn and placed at
//! the front of the output, so the output grows in ascending order.

use crate::ordering::sorted;
use vstd::multiset::Multiset;
use vstd::prelude::*;
use vstd::seq_lib::lemma_multiset_commutative;

verus! {

/// Position of a largest element of `heap`.
fn max_index(heap: &Vec<i32>) -> (r: usize)
    requires
        heap@.len() >= 1,
    ensures
        r < heap@.len(),
        forall|a: int| 0 <= a < heap@.len() ==> array_le(heap@[a], heap@[r as int]),
{
    let mut best: usize = 0;
    let n = heap.len();
    let mut i: usize = 1;
    while i < n
        invariant
            n == heap@.len(),
            1 <= i <= n,
            0 <= best < i,
            forall|a: int| 0 <= a < i ==> array_le(heap@[a], heap@[best as int]),
        decreases n - i,
    {
        if heap[i] > heap[best] {
            best = i;
        }
        i += 1;
    }
    best
}

/// Plain ordering on the elements, named so it can serve as a trigger.
pub open spec fn array_le(a: i32, b: i32) -> bool {
    a <= b
}

/// Sorts the elements of `vec` in ascending order, consuming it: the largest
/// remaining element is drawn repeatedly and pushed onto the front of the
/// result.
pub fn heap_sort(vec: Vec<i32>) -> (r: Vec<i32>)
    ensures
        sorted(r@),
        r@.to_multiset() == vec@.to_multiset(),
        r@.len() == vec@.len(),
{
    broadcast use vstd::seq_lib::group_to_multiset_ensures;
    broadcast use vstd::multiset::group_multiset_axioms;

    let mut heap = vec;
    let mut sorted_vec: Vec<i32> = Vec::new();
    let ghost orig = heap@;
    proof {
        assert(heap@.to_multiset().add(sorted_vec@.to_multiset()) =~= orig.to_multiset());
    }
    while heap.len() > 0
        invariant
            heap@.to_multiset().add(sorted_vec@.to_multiset()) == orig.to_multiset(),
            heap@.len() + sorted_vec@.len() == orig.len(),
            sorted(sorted_vec@),
            forall|a: int|
                0 <= a < heap@.len() && sorted_vec@.len() > 0 ==> array_le(
                    #[trigger] heap@[a],
                    sorted_vec@[0],
                ),
        decreases heap@.len(),
    {
        let m = max_index(&heap);
        let ghost pre_heap = heap@;
        let item = heap.remove(m);
        let ghost pre_sorted = sorted_vec@;
        sorted_vec.insert(0, item);
        proof {
            broadcast use vstd::multiset::group_multiset_axioms;

            Seq::<i32>::empty().to_multiset_ensures();
            pre_heap.to_multiset_ensures();
            assert(sorted_vec@ =~= seq![item] + pre_sorted);
            lemma_multiset_commutative(seq![item], pre_sorted);
            assert(seq![item].to_multiset() =~= Multiset::<i32>::empty().insert(item)) by {
                assert(seq![item] =~= Seq::<i32>::empty().push(item));
                assert(Seq::<i32>::empty().push(item).to_multiset() =~= Seq::<
                    i32,
                >::empty().to_multiset().insert(item));
                assert(Seq::<i32>::empty().to_multiset() =~= Multiset::<i32>::empty()) by {
                    assert(Seq::<i32>::empty().to_multiset().len() == 0);
                    vstd::multiset::lemma_multiset_empty_len(Seq::<i32>::empty().to_multiset());
                }
            }
            assert(heap@.to_multiset() =~= pre_heap.to_multiset().remove(item)) by {
                assert(pre_heap.remove(m as int).to_multiset() =~= pre_heap.to_multiset().remove(
                    pre_heap[m as int],
                ));
            }
            assert(heap@.to_multiset().add(sorted_vec@.to_multiset()) =~= orig.to_multiset()) by {
                assert(pre_heap.to_multiset().contains(item)) by {
                    assert(pre_heap.to_multiset().count(item) > 0) by {
                        assert(pre_heap.contains(item)) by {
                            assert(pre_heap[m as int] == item);
                        }
                    }
                }
            }
            assert forall|a: int, b: int|
                0 <= a < b < sorted_vec@.len() implies sorted_vec@[a] <= sorted_vec@[b] by {
                if a > 0 {
                    assert(pre_sorted[a - 1] <= pre_sorted[b - 1]);
                } else {
                    assert(array_le(pre_heap[m as int], pre_sorted[0]));
                    if b > 1 {
                        assert(pre_sorted[0] <= pre_sorted[b - 1]);
                    }
                }
            }
            assert forall|a: int|
                0 <= a < heap@.len() && sorted_vec@.len() > 0 implies array_le(
                #[trigger] heap@[a],
                sorted_vec@[0],
            ) by {
                if a < m {
                    assert(heap@[a] == pre_heap[a]);
                    assert(array_le(pre_heap[a], pre_heap[m as int]));
                } else {
                    assert(heap@[a] == pre_heap[a + 1]);
                    assert(array_le(pre_heap[a + 1], pre_heap[m as int]));
                }
            }
        }
    }
    proof {
        assert(heap@.to_multiset() =~= Multiset::<i32>::empty()) by {
            assert(heap@ =~= Seq::<i32>::empty());
        }
        assert(sorted_vec@.to_multiset() =~= orig.to_multiset());
    }
    sorted_vec
}

} // verus!
