//! Association lists keyed by characters.
//!
//! The graph searches in this crate keep their bookkeeping (visited nodes,
//! tentative distances, predecessor links) in plain vectors of pairs, so that
//! every lookup and update carries a full contract.  This module provides the
//! vector-backed map operations, the spec functions that describe them, and
//! the shared reconstruction of a path from a predecessor map.

use vstd::prelude::*;

verus! {

/// Whether some pair of `m` carries `key`.
pub open spec fn map_has_key<V>(m: Seq<(char, V)>, key: char) -> bool {
    exists|i: int| 0 <= i < m.len() && m[i].0 == key
}

/// First position of `key` in `m`, or `m.len()` when absent.
pub open spec fn map_key_index<V>(m: Seq<(char, V)>, key: char) -> int
    decreases m.len(),
{
    if m.len() == 0 {
        0
    } else if m[0].0 == key {
        0
    } else {
        1 + map_key_index(m.skip(1), key)
    }
}

/// The value stored under `key`; meaningful only when the key is present.
pub open spec fn map_value<V>(m: Seq<(char, V)>, key: char) -> V {
    m[map_key_index(m, key)].1
}

/// No two pairs of `m` carry the same key.
pub open spec fn map_distinct_keys<V>(m: Seq<(char, V)>) -> bool {
    forall|i: int, j: int| 0 <= i < j < m.len() ==> m[i].0 != m[j].0
}

/// `map_key_index` is the first position of `key`, and marks absence by
/// returning the length.
pub proof fn lemma_map_key_index<V>(m: Seq<(char, V)>, key: char)
    ensures
        0 <= map_key_index(m, key) <= m.len(),
        map_has_key(m, key) <==> map_key_index(m, key) < m.len(),
        map_key_index(m, key) < m.len() ==> m[map_key_index(m, key)].0 == key,
        forall|i: int| 0 <= i < map_key_index(m, key) ==> m[i].0 != key,
    decreases m.len(),
{
    if m.len() > 0 && m[0].0 != key {
        lemma_map_key_index(m.skip(1), key);
        assert forall|i: int|
            0 <= i < m.len() && m[i].0 == key implies map_key_index(m, key) < m.len() by {
            assert(m.skip(1)[i - 1].0 == key);
        }
        assert forall|i: int| 0 <= i < map_key_index(m, key) implies m[i].0 != key by {
            if i > 0 {
                assert(m[i] == m.skip(1)[i - 1]);
            }
        }
    }
}

/// First position of `c` in `s`, or `s.len()` when absent.
pub open spec fn char_index(s: Seq<char>, c: char) -> int
    decreases s.len(),
{
    if s.len() == 0 {
        0
    } else if s[0] == c {
        0
    } else {
        1 + char_index(s.skip(1), c)
    }
}

/// `char_index` is the first position of `c`, and marks absence by returning
/// the length.
pub proof fn lemma_char_index(s: Seq<char>, c: char)
    ensures
        0 <= char_index(s, c) <= s.len(),
        s.contains(c) <==> char_index(s, c) < s.len(),
        char_index(s, c) < s.len() ==> s[char_index(s, c)] == c,
        forall|i: int| 0 <= i < char_index(s, c) ==> s[i] != c,
    decreases s.len(),
{
    if s.len() > 0 && s[0] != c {
        lemma_char_index(s.skip(1), c);
        assert forall|i: int| 0 <= i < s.len() && s[i] == c implies char_index(s, c) < s.len() by {
            assert(s.skip(1)[i - 1] == c);
        }
        assert forall|i: int| 0 <= i < char_index(s, c) implies s[i] != c by {
            if i > 0 {
                assert(s[i] == s.skip(1)[i - 1]);
            }
        }
    }
}

/// Appending an element does not move the first position of anything already
/// present.
pub proof fn lemma_char_index_push(s: Seq<char>, c: char, x: char)
    requires
        s.contains(c),
    ensures
        char_index(s.push(x), c) == char_index(s, c),
    decreases s.len(),
{
    lemma_char_index(s, c);
    if s[0] != c {
        assert(s.skip(1).contains(c)) by {
            let i = char_index(s, c);
            assert(s.skip(1)[i - 1] == c);
        }
        lemma_char_index_push(s.skip(1), c, x);
        assert(s.push(x).skip(1) =~= s.skip(1).push(x));
    }
}

/// A freshly appended element sits at the old length.
pub proof fn lemma_char_index_push_fresh(s: Seq<char>, c: char)
    requires
        !s.contains(c),
    ensures
        char_index(s.push(c), c) == s.len(),
    decreases s.len(),
{
    if s.len() == 0 {
        assert(s.push(c)[0] == c);
    } else {
        assert(s[0] != c);
        assert(!s.skip(1).contains(c)) by {
            if s.skip(1).contains(c) {
                let i = choose|i: int| 0 <= i < s.skip(1).len() && s.skip(1)[i] == c;
                assert(s[i + 1] == c);
            }
        }
        lemma_char_index_push_fresh(s.skip(1), c);
        assert(s.push(c).skip(1) =~= s.skip(1).push(c));
    }
}

/// Extending a sequence does not move the first position of anything already
/// present.
pub proof fn lemma_char_index_prefix(pre: Seq<char>, post: Seq<char>, c: char)
    requires
        pre.is_prefix_of(post),
        pre.contains(c),
    ensures
        char_index(post, c) == char_index(pre, c),
    decreases pre.len(),
{
    lemma_char_index(pre, c);
    assert(pre[0] == post.subrange(0, pre.len() as int)[0]);
    if pre[0] == c {
        assert(post[0] == c);
    } else {
        assert(post[0] == pre[0]);
        assert(pre.skip(1).contains(c)) by {
            let i = char_index(pre, c);
            assert(pre.skip(1)[i - 1] == c);
        }
        assert(pre.skip(1).is_prefix_of(post.skip(1))) by {
            assert forall|t: int| 0 <= t < pre.skip(1).len() implies pre.skip(1)[t] == post.skip(
                1,
            )[t] by {
                assert(pre[t + 1] == post.subrange(0, pre.len() as int)[t + 1]);
            }
            assert(pre.skip(1) =~= post.skip(1).subrange(0, pre.skip(1).len() as int));
        }
        lemma_char_index_prefix(pre.skip(1), post.skip(1), c);
    }
}

/// In a sequence without duplicates, an element's first position is its only
/// position.
pub proof fn lemma_char_index_of_unique(s: Seq<char>, i: int)
    requires
        s.no_duplicates(),
        0 <= i < s.len(),
    ensures
        char_index(s, s[i]) == i,
{
    lemma_char_index(s, s[i]);
    let ci = char_index(s, s[i]);
    assert(s.contains(s[i]));
    assert(s[ci] == s[i]);
}

/// Whether `v` holds the character `c`.
pub fn contains_char(v: &Vec<char>, c: char) -> (r: bool)
    ensures
        r == v@.contains(c),
{
    let n = v.len();
    let mut i: usize = 0;
    while i < n
        invariant
            0 <= i <= n,
            n == v@.len(),
            forall|j: int| 0 <= j < i ==> v@[j] != c,
        decreases n - i,
    {
        if v[i] == c {
            return true;
        }
        i += 1;
    }
    false
}

/// Looks `key` up in the association list.
pub fn assoc_get<V: Copy>(m: &Vec<(char, V)>, key: char) -> (r: Option<V>)
    ensures
        r is Some <==> map_has_key(m@, key),
        r matches Some(v) ==> v == map_value(m@, key),
{
    proof {
        lemma_map_key_index(m@, key);
    }
    let n = m.len();
    let mut i: usize = 0;
    while i < n
        invariant
            0 <= i <= n,
            n == m@.len(),
            forall|j: int| 0 <= j < i ==> m@[j].0 != key,
        decreases n - i,
    {
        if m[i].0 == key {
            proof {
                lemma_map_key_index(m@, key);
            }
            return Some(m[i].1);
        }
        i += 1;
    }
    None
}

/// Binds `key` to `value`: updates the pair in place when the key is present,
/// and appends a fresh pair otherwise.
pub fn assoc_set<V: Copy>(m: &mut Vec<(char, V)>, key: char, value: V)
    ensures
        map_has_key(old(m)@, key) ==> final(m)@ == old(m)@.update(
            map_key_index(old(m)@, key),
            (key, value),
        ),
        !map_has_key(old(m)@, key) ==> final(m)@ == old(m)@.push((key, value)),
        map_distinct_keys(old(m)@) ==> map_distinct_keys(final(m)@),
        forall|k: char| map_has_key(final(m)@, k) <==> (map_has_key(old(m)@, k) || k == key),
        map_distinct_keys(old(m)@) ==> map_value(final(m)@, key) == value,
        map_distinct_keys(old(m)@) ==> forall|k: char|
            map_has_key(old(m)@, k) && k != key ==> map_value(final(m)@, k) == map_value(
                old(m)@,
                k,
            ),
        forall|i: int| 0 <= i < old(m)@.len() ==> final(m)@[i].0 == old(m)@[i].0,
        final(m)@.len() == old(m)@.len() + if map_has_key(old(m)@, key) {
            0int
        } else {
            1int
        },
    {
    proof {
        lemma_map_key_index(m@, key);
    }
    let n = m.len();
    let mut i: usize = 0;
    while i < n
        invariant
            0 <= i <= n,
            n == m@.len(),
            *m == *old(m),
            forall|j: int| 0 <= j < i ==> m@[j].0 != key,
        decreases n - i,
    {
        if m[i].0 == key {
            proof {
                lemma_map_key_index(m@, key);
            }
            m[i] = (key, value);
            proof {
                lemma_assoc_set_facts(old(m)@, final(m)@, key, value);
            }
            return ;
        }
        i += 1;
    }
    m.push((key, value));
    proof {
        lemma_assoc_set_facts(old(m)@, final(m)@, key, value);
    }
}

/// The pointwise consequences of one bind on the map's spec view.
pub proof fn lemma_assoc_set_facts<V>(
    before: Seq<(char, V)>,
    after: Seq<(char, V)>,
    key: char,
    value: V,
)
    requires
        map_has_key(before, key) ==> after == before.update(
            map_key_index(before, key),
            (key, value),
        ),
        !map_has_key(before, key) ==> after == before.push((key, value)),
    ensures
        map_distinct_keys(before) ==> map_distinct_keys(after),
        forall|k: char| map_has_key(after, k) <==> (map_has_key(before, k) || k == key),
        map_distinct_keys(before) ==> map_value(after, key) == value,
        map_distinct_keys(before) ==> forall|k: char|
            map_has_key(before, k) && k != key ==> map_value(after, k) == map_value(before, k),
{
    lemma_map_key_index(before, key);
    let pos = map_key_index(before, key);
    assert forall|k: char| map_has_key(after, k) implies (map_has_key(before, k) || k
        == key) by {
        let i = choose|i: int| 0 <= i < after.len() && after[i].0 == k;
        if i < before.len() && i != pos {
            assert(before[i].0 == k);
        }
    }
    assert forall|k: char| (map_has_key(before, k) || k == key) implies map_has_key(
        after,
        k,
    ) by {
        if k == key {
            if map_has_key(before, key) {
                assert(after[pos].0 == key);
            } else {
                assert(after[before.len() as int].0 == key);
            }
        } else {
            let i = choose|i: int| 0 <= i < before.len() && before[i].0 == k;
            assert(after[i].0 == k);
        }
    }
    if map_distinct_keys(before) {
        assert forall|i: int, j: int| 0 <= i < j < after.len() implies after[i].0
            != after[j].0 by {
            if j == before.len() {
                assert(!map_has_key(before, key));
                if after[i].0 == key {
                    assert(before[i].0 == key);
                }
            }
        }
        lemma_map_key_index(after, key);
        assert(map_value(after, key) == value) by {
            let q = map_key_index(after, key);
            if map_has_key(before, key) {
                if q != pos {
                    assert(before[q].0 == key);
                }
            } else {
                if q != before.len() {
                    assert(before[q].0 == key);
                }
            }
        }
        assert forall|k: char| map_has_key(before, k) && k != key implies map_value(after, k)
            == map_value(before, k) by {
            lemma_map_key_index(before, k);
            lemma_map_key_index(after, k);
            let q = map_key_index(before, k);
            let q2 = map_key_index(after, k);
            assert(after[q].0 == k);
            if q2 < q {
                assert(before[q2].0 == k);
            }
            if q2 > q {
                assert(after[q].0 != k);
            }
        }
    }
}

/// A well-formed predecessor map, as the graph searches build it.
///
/// Every link points from a node back to the already-visited node it was
/// discovered from; the start node alone carries the null sentinel.  Ordering
/// links by the position of their target in `visited` makes every predecessor
/// chain strictly decreasing, so following it terminates at the start node.
pub open spec fn chain_wf(pred: Seq<(char, char)>, visited: Seq<char>, start: char) -> bool {
    &&& visited.no_duplicates()
    &&& !visited.contains('\0')
    &&& start != '\0'
    &&& map_distinct_keys(pred)
    &&& map_has_key(pred, start)
    &&& map_value(pred, start) == '\0'
    &&& forall|c: char| visited.contains(c) ==> map_has_key(pred, c)
    &&& forall|i: int|
        0 <= i < pred.len() && (#[trigger] pred[i]).0 != start ==> {
            &&& pred[i].1 != '\0'
            &&& visited.contains(pred[i].1)
            &&& (visited.contains(pred[i].0) ==> char_index(visited, pred[i].1) < char_index(
                visited,
                pred[i].0,
            ))
        }
}

/// Positions strictly later in a rank-decreasing chain rank strictly lower.
proof fn lemma_chain_rank(s: Seq<char>, visited: Seq<char>, a: int, b: int)
    requires
        forall|k: int|
            0 <= k < s.len() - 1 ==> char_index(visited, s[k + 1]) < char_index(
                visited,
                #[trigger] s[k],
            ),
        0 <= a < b < s.len(),
    ensures
        char_index(visited, s[b]) < char_index(visited, s[a]),
    decreases b - a,
{
    if b > a + 1 {
        lemma_chain_rank(s, visited, a, b - 1);
    }
}

/// Extending the chain by the recorded predecessor of its last element keeps
/// the ranks strictly decreasing.
proof fn lemma_rank_extend(
    pred: Seq<(char, char)>,
    visited: Seq<char>,
    start: char,
    pre_rev: Seq<char>,
    prev: char,
)
    requires
        chain_wf(pred, visited, start),
        pre_rev.len() >= 1,
        map_has_key(pred, pre_rev.last()),
        map_value(pred, pre_rev.last()) == prev,
        prev != '\0',
        visited.contains(prev),
        forall|a: int|
            0 <= a < pre_rev.len() - 1 ==> char_index(visited, pre_rev[a + 1]) < char_index(
                visited,
                #[trigger] pre_rev[a],
            ),
    ensures
        forall|a: int|
            0 <= a < pre_rev.push(prev).len() - 1 ==> char_index(
                visited,
                pre_rev.push(prev)[a + 1],
            ) < char_index(visited, #[trigger] pre_rev.push(prev)[a]),
{
    let last = pre_rev.last();
    assert(last != start) by {
        if last == start {
            lemma_map_key_index(pred, start);
            assert(map_value(pred, start) == '\0');
        }
    }
    assert(char_index(visited, prev) < char_index(visited, last)) by {
        lemma_map_key_index(pred, last);
        let k = map_key_index(pred, last);
        assert(pred[k].0 == last);
        assert(pred[k].1 == prev);
        lemma_char_index(visited, last);
        lemma_char_index(visited, prev);
        if !visited.contains(last) {
            assert(char_index(visited, last) == visited.len());
        }
    }
    assert forall|a: int|
        0 <= a < pre_rev.push(prev).len() - 1 implies char_index(
        visited,
        pre_rev.push(prev)[a + 1],
    ) < char_index(visited, #[trigger] pre_rev.push(prev)[a]) by {
        if a < pre_rev.len() - 1 {
            assert(pre_rev.push(prev)[a] == pre_rev[a]);
            assert(pre_rev.push(prev)[a + 1] == pre_rev[a + 1]);
        } else {
            assert(pre_rev.push(prev)[a] == last);
            assert(pre_rev.push(prev)[a + 1] == prev);
        }
    }
}

/// A chain whose ranks strictly decrease never repeats an element.
proof fn lemma_decreasing_chain_distinct(s: Seq<char>, visited: Seq<char>)
    requires
        forall|k: int|
            0 <= k < s.len() - 1 ==> char_index(visited, s[k + 1]) < char_index(
                visited,
                #[trigger] s[k],
            ),
    ensures
        s.no_duplicates(),
{
    assert forall|i: int, j: int|
        0 <= i < s.len() && 0 <= j < s.len() && i != j implies s[i] != s[j] by {
        if i < j {
            lemma_chain_rank(s, visited, i, j);
        } else {
            lemma_chain_rank(s, visited, j, i);
        }
    }
}

/// Follows the predecessor links from `needle` back to the start node and
/// returns the forward path: each step of the result is a recorded link.
/// Shared by the breadth-first, depth-first and shortest-path searches.
/// Since every link points strictly earlier in the visit order, the path
/// never repeats a node; in particular, when the needle is the start itself
/// the path is just the start.
#[verifier::rlimit(100)]
pub(crate) fn build_path(
    predecessors: &Vec<(char, char)>,
    needle: char,
    Ghost(visited): Ghost<Seq<char>>,
    Ghost(start): Ghost<char>,
) -> (path: Vec<char>)
    requires
        chain_wf(predecessors@, visited, start),
        map_has_key(predecessors@, needle),
        needle != '\0',
    ensures
        path@.len() >= 1,
        path@[0] == start,
        path@.last() == needle,
        path@.no_duplicates(),
        needle == start ==> path@ == seq![start],
        forall|i: int|
            0 <= i < path@.len() - 1 ==> map_has_key(predecessors@, #[trigger] path@[i + 1])
                && map_value(predecessors@, path@[i + 1]) == path@[i],
{
    let ghost pred = predecessors@;
    let mut rev: Vec<char> = Vec::new();
    rev.push(needle);
    let mut prev = assoc_get(predecessors, needle).unwrap();
    proof {
        lemma_map_key_index(pred, needle);
        lemma_char_index(visited, prev);
        if needle != start {
            assert(pred[map_key_index(pred, needle)].0 == needle);
        } else {
            assert(prev == '\0');
        }
    }
    while prev != '\0'
        invariant
            chain_wf(pred, visited, start),
            pred == predecessors@,
            rev@.len() >= 1,
            rev@[0] == needle,
            forall|i: int|
                0 <= i < rev@.len() - 1 ==> map_has_key(pred, #[trigger] rev@[i]) && map_value(
                    pred,
                    rev@[i],
                ) == rev@[i + 1],
            prev != '\0' ==> {
                &&& visited.contains(prev)
                &&& map_has_key(pred, prev)
                &&& map_has_key(pred, rev@.last())
                &&& map_value(pred, rev@.last()) == prev
            },
            prev == '\0' ==> rev@.last() == start,
            needle == start ==> prev == '\0' && rev@ == seq![start],
            forall|a: int| 1 <= a < rev@.len() ==> visited.contains(#[trigger] rev@[a]),
            forall|a: int|
                0 <= a < rev@.len() - 1 ==> char_index(visited, rev@[a + 1]) < char_index(
                    visited,
                    #[trigger] rev@[a],
                ),
        decreases (if prev == '\0' {
            0int
        } else {
            1 + char_index(visited, prev)
        }),
    {
        let ghost pre_rev = rev@;
        rev.push(prev);
        let ghost old_prev = prev;
        proof {
            lemma_char_index(visited, old_prev);
            lemma_map_key_index(pred, old_prev);
            assert(pred[map_key_index(pred, old_prev)].0 == old_prev);
            lemma_rank_extend(pred, visited, start, pre_rev, old_prev);
            assert(rev@ == pre_rev.push(old_prev));
        }
        prev = assoc_get(predecessors, prev).unwrap();
        proof {
            if old_prev == start {
                assert(prev == '\0');
            } else {
                lemma_char_index(visited, prev);
            }
        }
    }
    let n = rev.len();
    let mut path: Vec<char> = Vec::new();
    let mut i = n;
    while i > 0
        invariant
            0 <= i <= n,
            n == rev@.len(),
            path@.len() == n - i,
            forall|j: int| 0 <= j < path@.len() ==> path@[j] == rev@[n - 1 - j],
        decreases i,
    {
        i -= 1;
        path.push(rev[i]);
    }
    proof {
        assert(path@[0] == rev@[n - 1]);
        assert(path@.last() == rev@[0]);
        assert forall|k: int|
            0 <= k < path@.len() - 1 implies map_has_key(pred, #[trigger] path@[k + 1])
                && map_value(pred, path@[k + 1]) == path@[k] by {
            assert(path@[k] == rev@[n - 1 - k]);
            assert(path@[k + 1] == rev@[n - 2 - k]);
            assert(map_value(pred, rev@[n - 2 - k]) == rev@[(n - 2 - k) + 1]);
        }
        lemma_decreasing_chain_distinct(rev@, visited);
        assert forall|a: int, b: int|
            0 <= a < path@.len() && 0 <= b < path@.len() && a != b implies path@[a]
            != path@[b] by {
            assert(path@[a] == rev@[n - 1 - a]);
            assert(path@[b] == rev@[n - 1 - b]);
        }
        if needle == start {
            assert(path@ =~= seq![start]);
        }
    }
    path
}


/// Two maps with the same keys in the same order find any key at the same
/// position.
pub proof fn lemma_key_index_pointwise<V1, V2>(m1: Seq<(char, V1)>, m2: Seq<(char, V2)>, k: char)
    requires
        m1.len() == m2.len(),
        forall|i: int| 0 <= i < m1.len() ==> (#[trigger] m1[i]).0 == m2[i].0,
    ensures
        map_key_index(m1, k) == map_key_index(m2, k),
    decreases m1.len(),
{
    if m1.len() > 0 && m1[0].0 != k {
        assert forall|i: int| 0 <= i < m1.skip(1).len() implies (#[trigger] m1.skip(1)[i]).0
            == m2.skip(1)[i].0 by {
            assert(m1[i + 1].0 == m2[i + 1].0);
        }
        lemma_key_index_pointwise(m1.skip(1), m2.skip(1), k);
    }
}

/// Recording a link for a node that is not yet visited keeps the predecessor
/// chains well formed.
pub proof fn lemma_chain_relax_new(
    pred: Seq<(char, char)>,
    visited: Seq<char>,
    start: char,
    to: char,
    current: char,
)
    requires
        chain_wf(pred, visited, start),
        visited.contains(current),
        !visited.contains(to),
        to != '\0',
        to != start,
        !map_has_key(pred, to),
    ensures
        chain_wf(pred.push((to, current)), visited, start),
{
    let p2 = pred.push((to, current));
    assert(map_distinct_keys(p2)) by {
        assert forall|i: int, k: int| 0 <= i < k < p2.len() implies p2[i].0 != p2[k].0 by {
            if k == pred.len() {
                if p2[i].0 == to {
                    assert(map_has_key(pred, to));
                }
            }
        }
    }
    assert(map_has_key(p2, start)) by {
        let i = choose|i: int| 0 <= i < pred.len() && pred[i].0 == start;
        assert(p2[i].0 == start);
    }
    assert(map_value(p2, start) == '\0') by {
        lemma_map_key_index(pred, start);
        lemma_map_key_index(p2, start);
        let q = map_key_index(pred, start);
        let q2 = map_key_index(p2, start);
        if q2 != q {
            if q2 < q {
                assert(pred[q2].0 == start);
            } else {
                assert(p2[q].0 != start);
            }
        }
    }
    assert forall|c: char| visited.contains(c) implies map_has_key(p2, c) by {
        let i = choose|i: int| 0 <= i < pred.len() && pred[i].0 == c;
        assert(p2[i].0 == c);
    }
    assert forall|i: int|
        0 <= i < p2.len() && (#[trigger] p2[i]).0 != start implies {
        &&& p2[i].1 != '\0'
        &&& visited.contains(p2[i].1)
        &&& (visited.contains(p2[i].0) ==> char_index(visited, p2[i].1) < char_index(
            visited,
            p2[i].0,
        ))
    } by {
        if i < pred.len() {
            assert(pred[i].0 != start);
        } else {
            assert(p2[i] == (to, current));
        }
    }
}

/// Redirecting the link of a node that is not yet visited keeps the
/// predecessor chains well formed.
pub proof fn lemma_chain_relax_update(
    pred: Seq<(char, char)>,
    visited: Seq<char>,
    start: char,
    to: char,
    current: char,
)
    requires
        chain_wf(pred, visited, start),
        visited.contains(current),
        !visited.contains(to),
        to != start,
        map_has_key(pred, to),
    ensures
        chain_wf(pred.update(map_key_index(pred, to), (to, current)), visited, start),
{
    lemma_map_key_index(pred, to);
    let ix = map_key_index(pred, to);
    let p2 = pred.update(ix, (to, current));
    assert(pred[ix].0 == to);
    assert forall|i: int| 0 <= i < pred.len() implies (#[trigger] p2[i]).0 == pred[i].0 by {}
    assert(map_distinct_keys(p2));
    assert(map_has_key(p2, start)) by {
        let i = choose|i: int| 0 <= i < pred.len() && pred[i].0 == start;
        assert(p2[i].0 == start);
    }
    assert(map_value(p2, start) == '\0') by {
        lemma_key_index_pointwise(p2, pred, start);
        lemma_map_key_index(pred, start);
        let q = map_key_index(pred, start);
        assert(q != ix);
    }
    assert forall|c: char| visited.contains(c) implies map_has_key(p2, c) by {
        let i = choose|i: int| 0 <= i < pred.len() && pred[i].0 == c;
        assert(p2[i].0 == c);
    }
    assert forall|i: int|
        0 <= i < p2.len() && (#[trigger] p2[i]).0 != start implies {
        &&& p2[i].1 != '\0'
        &&& visited.contains(p2[i].1)
        &&& (visited.contains(p2[i].0) ==> char_index(visited, p2[i].1) < char_index(
            visited,
            p2[i].0,
        ))
    } by {
        if i != ix {
            assert(p2[i] == pred[i]);
            assert(pred[i].0 != start);
        } else {
            assert(p2[i] == (to, current));
            assert(current != '\0');
        }
    }
}

/// Marking a linked node as visited keeps the predecessor chains well formed:
/// its recorded predecessor sits strictly earlier in the visit order.
pub proof fn lemma_chain_visit(
    pred: Seq<(char, char)>,
    visited: Seq<char>,
    start: char,
    current: char,
)
    requires
        chain_wf(pred, visited, start),
        !visited.contains(current),
        current != '\0',
        map_has_key(pred, current),
    ensures
        chain_wf(pred, visited.push(current), start),
{
    let v2 = visited.push(current);
    assert forall|i: int, k: int| 0 <= i < k < v2.len() implies v2[i] != v2[k] by {
        if k == visited.len() {
            if v2[i] == current {
                assert(visited[i] == current);
            }
        }
    }
    assert(!v2.contains('\0')) by {
        if v2.contains('\0') {
            let k = choose|k: int| 0 <= k < v2.len() && v2[k] == '\0';
            if k < visited.len() {
                assert(visited[k] == '\0');
            }
        }
    }
    assert forall|c: char| v2.contains(c) implies map_has_key(pred, c) by {
        let k = choose|k: int| 0 <= k < v2.len() && v2[k] == c;
        if k < visited.len() {
            assert(visited.contains(c));
        }
    }
    assert forall|i: int|
        0 <= i < pred.len() && (#[trigger] pred[i]).0 != start implies {
        &&& pred[i].1 != '\0'
        &&& v2.contains(pred[i].1)
        &&& (v2.contains(pred[i].0) ==> char_index(v2, pred[i].1) < char_index(v2, pred[i].0))
    } by {
        assert(visited.contains(pred[i].1));
        let k = choose|k: int| 0 <= k < visited.len() && visited[k] == pred[i].1;
        assert(v2[k] == pred[i].1);
        lemma_char_index_push(visited, pred[i].1, current);
        lemma_char_index(visited, pred[i].1);
        if v2.contains(pred[i].0) {
            if visited.contains(pred[i].0) {
                lemma_char_index_push(visited, pred[i].0, current);
            } else {
                assert(pred[i].0 == current) by {
                    let q = choose|q: int| 0 <= q < v2.len() && v2[q] == pred[i].0;
                    if q < visited.len() {
                        assert(visited[q] == pred[i].0);
                    }
                }
                lemma_char_index_push_fresh(visited, current);
            }
        }
    }
}

/// A sequence without duplicates that draws all its elements from another
/// sequence cannot be longer than it.
pub proof fn lemma_distinct_subseq_len(a: Seq<char>, b: Seq<char>)
    requires
        a.no_duplicates(),
        forall|i: int| 0 <= i < a.len() ==> b.contains(#[trigger] a[i]),
    ensures
        a.len() <= b.len(),
{
    broadcast use vstd::seq_lib::group_seq_properties;

    a.unique_seq_to_set();
    b.lemma_cardinality_of_set();
    assert(a.to_set().subset_of(b.to_set())) by {
        assert forall|x: char| a.to_set().contains(x) implies b.to_set().contains(x) by {
            let i = choose|i: int| 0 <= i < a.len() && a[i] == x;
            assert(b.contains(a[i]));
        }
    }
    vstd::set_lib::lemma_len_subset(a.to_set(), b.to_set());
}

} // verus!
