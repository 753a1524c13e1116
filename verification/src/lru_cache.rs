//! A fixed-capacity least-recently-used (LRU) cache.
//!
//! The cache stores key/value pairs with a capacity bound that is fixed at
//! construction.  When a `put` of a fresh key would exceed the capacity, the
//! least recently used entry is evicted first.  Note that `get` is a read
//! with a write side effect: a hit moves the touched key to the
//! most-recently-used position, which is why `get` takes `&mut self`.
//!
//! The model is a sequence of `(key, value)` pairs ordered from most recently
//! used to least recently used, with no repeated keys and with length never
//! above the capacity.  `spec_get_hit` and `spec_put` describe the effect of
//! the two operations on that sequence, and the public proof functions in
//! this module state the cache's laws over them.

use vstd::prelude::*;

verus! {

/// First position of `key` in `entries`, or `entries.len()` when absent.
pub open spec fn key_position(entries: Seq<(i32, i32)>, key: i32) -> int
    decreases entries.len(),
{
    if entries.len() == 0 {
        0
    } else if entries[0].0 == key {
        0
    } else {
        1 + key_position(entries.skip(1), key)
    }
}

/// Whether some entry of `entries` carries `key`.
pub open spec fn has_key(entries: Seq<(i32, i32)>, key: i32) -> bool {
    exists|i: int| 0 <= i < entries.len() && entries[i].0 == key
}

/// No two entries carry the same key.
pub open spec fn distinct_keys(entries: Seq<(i32, i32)>) -> bool {
    forall|i: int, j: int|
        0 <= i < j < entries.len() ==> entries[i].0 != entries[j].0
}

/// The state after a hit on `key`: the entry moves to the front, unchanged.
pub open spec fn spec_get_hit(entries: Seq<(i32, i32)>, key: i32) -> Seq<(i32, i32)> {
    let i = key_position(entries, key);
    seq![entries[i]] + entries.remove(i)
}

/// The state after `put(key, value)` on a cache of capacity `capacity`.
pub open spec fn spec_put(
    entries: Seq<(i32, i32)>,
    capacity: int,
    key: i32,
    value: i32,
) -> Seq<(i32, i32)> {
    if has_key(entries, key) {
        seq![(key, value)] + entries.remove(key_position(entries, key))
    } else if entries.len() < capacity {
        seq![(key, value)] + entries
    } else {
        seq![(key, value)] + entries.drop_last()
    }
}

/// `key_position` is the first position of `key`, and marks absence by
/// returning the length.
pub proof fn lemma_key_position(entries: Seq<(i32, i32)>, key: i32)
    ensures
        0 <= key_position(entries, key) <= entries.len(),
        has_key(entries, key) <==> key_position(entries, key) < entries.len(),
        key_position(entries, key) < entries.len() ==> entries[key_position(
            entries,
            key,
        )].0 == key,
        forall|i: int| 0 <= i < key_position(entries, key) ==> entries[i].0 != key,
    decreases entries.len(),
{
    if entries.len() > 0 && entries[0].0 != key {
        lemma_key_position(entries.skip(1), key);
        assert forall|i: int|
            0 <= i < entries.len() && entries[i].0 == key implies key_position(
            entries,
            key,
        ) < entries.len() by {
            assert(entries.skip(1)[i - 1].0 == key);
        }
        assert forall|i: int|
            0 <= i < key_position(entries, key) implies entries[i].0 != key by {
            if i > 0 {
                assert(entries[i] == entries.skip(1)[i - 1]);
            }
        }
    }
}

/// A fixed-capacity LRU cache for `i32` keys and values.
///
/// Entries are held from most recently used (front) to least recently used
/// (back).  Capacity zero is rejected at construction: `new` demands a
/// capacity of at least one.
pub struct LRUCache {
    capacity: usize,
    entries: Vec<(i32, i32)>,
}

impl View for LRUCache {
    type V = Seq<(i32, i32)>;

    closed spec fn view(&self) -> Seq<(i32, i32)> {
        self.entries@
    }
}

impl LRUCache {
    /// The capacity bound fixed at construction.
    pub closed spec fn spec_capacity(&self) -> int {
        self.capacity as int
    }

    /// Well-formedness: distinct keys, and never more entries than capacity.
    pub open spec fn wf(&self) -> bool {
        &&& self.spec_capacity() >= 1
        &&& self@.len() <= self.spec_capacity()
        &&& distinct_keys(self@)
    }

    /// Creates an empty cache that will hold at most `capacity` entries.
    pub fn new(capacity: usize) -> (cache: Self)
        requires
            capacity >= 1,
        ensures
            cache.wf(),
            cache@ == Seq::<(i32, i32)>::empty(),
            cache.spec_capacity() == capacity,
    {
        let cache = LRUCache { capacity, entries: Vec::new() };
        proof {
            assert(cache@ =~= Seq::<(i32, i32)>::empty());
        }
        cache
    }

    /// Number of entries currently stored.
    pub fn len(&self) -> (n: usize)
        ensures
            n == self@.len(),
    {
        self.entries.len()
    }

    /// Position of `key` among the entries; the length marks absence.
    fn position_of(&self, key: i32) -> (r: usize)
        ensures
            r == key_position(self@, key),
    {
        proof {
            lemma_key_position(self@, key);
        }
        let n = self.entries.len();
        let mut i: usize = 0;
        while i < n
            invariant
                0 <= i <= n,
                n == self@.len(),
                forall|j: int| 0 <= j < i ==> self@[j].0 != key,
            decreases n - i,
        {
            if self.entries[i].0 == key {
                proof {
                    lemma_key_position(self@, key);
                }
                return i;
            }
            i += 1;
        }
        proof {
            lemma_key_position(self@, key);
        }
        n
    }

    /// Looks `key` up.  On a hit the entry is moved to the most-recently-used
    /// position and its value returned; on a miss the cache is left entirely
    /// unchanged.
    pub fn get(&mut self, key: i32) -> (r: Option<i32>)
        requires
            old(self).wf(),
        ensures
            final(self).wf(),
            final(self).spec_capacity() == old(self).spec_capacity(),
            has_key(old(self)@, key) ==> {
                &&& r == Some(old(self)@[key_position(old(self)@, key)].1)
                &&& final(self)@ == spec_get_hit(old(self)@, key)
            },
            !has_key(old(self)@, key) ==> r is None && final(self)@ == old(self)@,
    {
        proof {
            lemma_key_position(self@, key);
        }
        let i = self.position_of(key);
        if i < self.entries.len() {
            let entry = self.entries.remove(i);
            proof {
                lemma_remove_keeps_distinct(old(self)@, i as int);
            }
            self.entries.insert(0, entry);
            proof {
                assert(self@ =~= spec_get_hit(old(self)@, key));
            }
            Some(entry.1)
        } else {
            None
        }
    }

    /// Inserts or updates `key`.  An existing key keeps the cache size; a
    /// fresh key grows the cache, evicting the least recently used entry
    /// first when the cache is full.  Either way `key` ends up in the
    /// most-recently-used position with value `value`.
    pub fn put(&mut self, key: i32, value: i32)
        requires
            old(self).wf(),
        ensures
            final(self).wf(),
            final(self).spec_capacity() == old(self).spec_capacity(),
            final(self)@ == spec_put(old(self)@, old(self).spec_capacity(), key, value),
    {
        proof {
            lemma_key_position(self@, key);
        }
        let i = self.position_of(key);
        if i < self.entries.len() {
            self.entries.remove(i);
            proof {
                lemma_remove_keeps_distinct(old(self)@, i as int);
            }
            self.entries.insert(0, (key, value));
            proof {
                assert(self@ =~= spec_put(old(self)@, old(self).spec_capacity(), key, value));
            }
        } else {
            if self.entries.len() == self.capacity {
                self.entries.pop();
                proof {
                    assert(self@ =~= old(self)@.drop_last());
                }
            }
            self.entries.insert(0, (key, value));
            proof {
                assert(self@ =~= spec_put(old(self)@, old(self).spec_capacity(), key, value));
            }
        }
    }
}

/// The state after a whole sequence of `put` operations, applied in order.
pub open spec fn put_seq(
    entries: Seq<(i32, i32)>,
    capacity: int,
    puts: Seq<(i32, i32)>,
) -> Seq<(i32, i32)>
    decreases puts.len(),
{
    if puts.len() == 0 {
        entries
    } else {
        spec_put(
            put_seq(entries, capacity, puts.drop_last()),
            capacity,
            puts.last().0,
            puts.last().1,
        )
    }
}

/// Capacity invariant: a `put` keeps the keys distinct and never leaves more
/// entries than the capacity allows.  Since `new` starts from an empty,
/// well-formed cache, the bound holds after every sequence of `put` calls.
pub proof fn lemma_put_preserves_wf(
    entries: Seq<(i32, i32)>,
    capacity: int,
    key: i32,
    value: i32,
)
    requires
        capacity >= 1,
        entries.len() <= capacity,
        distinct_keys(entries),
    ensures
        spec_put(entries, capacity, key, value).len() <= capacity,
        distinct_keys(spec_put(entries, capacity, key, value)),
{
    lemma_key_position(entries, key);
    if has_key(entries, key) {
        lemma_remove_keeps_distinct(entries, key_position(entries, key));
    }
}

/// Recency correctness: filling a cache with distinct keys, with no reads in
/// between, retains exactly the most recent `capacity` puts, most recent
/// first, and every earlier key is gone.
pub proof fn lemma_recency_correctness(capacity: int, puts: Seq<(i32, i32)>)
    requires
        capacity >= 1,
        distinct_keys(puts),
    ensures
        ({
            let result = put_seq(Seq::empty(), capacity, puts);
            &&& result.len() == if puts.len() <= capacity {
                puts.len() as int
            } else {
                capacity
            }
            &&& forall|i: int|
                0 <= i < result.len() ==> result[i] == puts[puts.len() - 1 - i]
            &&& forall|j: int|
                0 <= j < puts.len() - capacity ==> !has_key(result, puts[j].0)
        }),
    decreases puts.len(),
{
    let result = put_seq(Seq::empty(), capacity, puts);
    if puts.len() == 0 {
    } else {
        let front = puts.drop_last();
        lemma_recency_correctness(capacity, front);
        let prev = put_seq(Seq::empty(), capacity, front);
        assert(!has_key(prev, puts.last().0)) by {
            if has_key(prev, puts.last().0) {
                let i = choose|i: int|
                    0 <= i < prev.len() && prev[i].0 == puts.last().0;
                assert(prev[i] == puts[front.len() - 1 - i]);
            }
        }
        assert forall|i: int|
            0 <= i < result.len() implies result[i] == puts[puts.len() - 1 - i] by {
            if i > 0 {
                if prev.len() < capacity {
                    assert(result[i] == prev[i - 1]);
                } else {
                    assert(result[i] == prev.drop_last()[i - 1]);
                }
            }
        }
        assert forall|j: int|
            0 <= j < puts.len() - capacity implies !has_key(result, puts[j].0) by {
            if has_key(result, puts[j].0) {
                let i = choose|i: int|
                    0 <= i < result.len() && result[i].0 == puts[j].0;
                assert(result[i] == puts[puts.len() - 1 - i]);
            }
        }
    }
}

/// A read refreshes recency: after filling the cache with distinct keys, a
/// `get` of the oldest key followed by a `put` of a fresh key evicts the
/// second-oldest key, while the freshly read key and the new key survive.
pub proof fn lemma_get_bumps_recency(
    capacity: int,
    puts: Seq<(i32, i32)>,
    new_key: i32,
    new_value: i32,
)
    requires
        capacity >= 2,
        puts.len() == capacity,
        distinct_keys(puts),
        forall|i: int| 0 <= i < puts.len() ==> puts[i].0 != new_key,
    ensures
        ({
            let filled = put_seq(Seq::empty(), capacity, puts);
            let bumped = spec_get_hit(filled, puts[0].0);
            let result = spec_put(bumped, capacity, new_key, new_value);
            &&& has_key(bumped, puts[0].0)
            &&& has_key(result, puts[0].0)
            &&& !has_key(result, puts[1].0)
            &&& has_key(result, new_key)
        }),
{
    let filled = put_seq(Seq::empty(), capacity, puts);
    let bumped = spec_get_hit(filled, puts[0].0);
    let result = spec_put(bumped, capacity, new_key, new_value);
    lemma_recency_correctness(capacity, puts);
    lemma_key_position(filled, puts[0].0);
    let p = key_position(filled, puts[0].0);
    assert(filled[capacity - 1] == puts[0]);
    assert(p == capacity - 1) by {
        assert(filled[p].0 == puts[0].0);
        assert(filled[p] == puts[puts.len() - 1 - p]);
        if p < capacity - 1 {
            assert(puts[puts.len() - 1 - p].0 != puts[0].0);
        }
    }
    assert(bumped.len() == capacity);
    assert(bumped[0] == puts[0]);
    assert forall|i: int| 1 <= i < capacity implies bumped[i] == puts[capacity - i] by {
        assert(bumped[i] == filled.remove(capacity - 1)[i - 1]);
        assert(filled.remove(capacity - 1)[i - 1] == filled[i - 1]);
    }
    assert(!has_key(bumped, new_key)) by {
        if has_key(bumped, new_key) {
            let i = choose|i: int| 0 <= i < bumped.len() && bumped[i].0 == new_key;
            if i == 0 {
                assert(bumped[0].0 == puts[0].0);
            } else {
                assert(bumped[i].0 == puts[capacity - i].0);
            }
        }
    }
    assert(result == seq![(new_key, new_value)] + bumped.drop_last());
    assert(result[1] == bumped[0]);
    assert(has_key(result, puts[0].0));
    assert(has_key(result, new_key)) by {
        assert(result[0].0 == new_key);
    }
    assert(!has_key(result, puts[1].0)) by {
        if has_key(result, puts[1].0) {
            let i = choose|i: int| 0 <= i < result.len() && result[i].0 == puts[1].0;
            if i >= 1 {
                assert(result[i] == bumped[i - 1]);
                if i - 1 >= 1 {
                    assert(bumped[i - 1] == puts[capacity - (i - 1)]);
                    assert(capacity - (i - 1) >= 2);
                }
            }
        }
    }
}

/// Update in place: two `put` calls on the same key leave a single entry
/// carrying the second value at the most-recently-used position, and the
/// second call does not change the size.
pub proof fn lemma_update_in_place(
    entries: Seq<(i32, i32)>,
    capacity: int,
    key: i32,
    v1: i32,
    v2: i32,
)
    requires
        capacity >= 1,
        entries.len() <= capacity,
        distinct_keys(entries),
    ensures
        ({
            let s1 = spec_put(entries, capacity, key, v1);
            let s2 = spec_put(s1, capacity, key, v2);
            &&& s2.len() == s1.len()
            &&& key_position(s2, key) == 0
            &&& s2[0] == (key, v2)
        }),
{
    let s1 = spec_put(entries, capacity, key, v1);
    let s2 = spec_put(s1, capacity, key, v2);
    lemma_key_position(entries, key);
    assert(s1[0] == (key, v1));
    assert(has_key(s1, key));
    assert(key_position(s1, key) == 0);
    assert(s2 == seq![(key, v2)] + s1.remove(0));
    assert(key_position(s2, key) == 0);
}

proof fn lemma_remove_keeps_distinct(entries: Seq<(i32, i32)>, i: int)
    requires
        distinct_keys(entries),
        0 <= i < entries.len(),
    ensures
        distinct_keys(entries.remove(i)),
        forall|j: int|
            0 <= j < entries.remove(i).len() ==> (#[trigger] entries.remove(i)[j]).0
                != entries[i].0,
{
    assert forall|j: int| 0 <= j < entries.remove(i).len() implies (#[trigger] entries.remove(
        i,
    )[j]).0 != entries[i].0 by {
        if j < i {
            assert(entries.remove(i)[j] == entries[j]);
        } else {
            assert(entries.remove(i)[j] == entries[j + 1]);
        }
    }
}

} // verus!
