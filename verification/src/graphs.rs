//! Breadth-first search over a directed graph keyed by characters.
//!
//! The graph maps each node to the list of its direct successors.  Both the
//! iterative and the recursive search return a path from the start node to
//! the needle whose every step is an edge of the graph, and they return one
//! exactly when the needle is reachable from the start — and the path is a
//! shortest one: no start-to-needle path of the graph has fewer edges.  The
//! character `'\0'` serves as the sentinel that marks the start of a
//! predecessor chain, so the searches ask that no node of the graph carries
//! it.

use crate::assoc::build_path;
use crate::assoc::chain_wf;
use crate::assoc::char_index;
use crate::assoc::contains_char;
use crate::assoc::lemma_assoc_set_facts;
use crate::assoc::lemma_char_index;
use crate::assoc::lemma_char_index_of_unique;
use crate::assoc::lemma_char_index_prefix;
use crate::assoc::lemma_char_index_push;
use crate::assoc::lemma_char_index_push_fresh;
use crate::assoc::lemma_distinct_subseq_len;
use crate::assoc::lemma_map_key_index;
use crate::assoc::map_distinct_keys;
use crate::assoc::map_has_key;
use crate::assoc::map_key_index;
use crate::assoc::map_value;
use vstd::prelude::*;

verus! {

/// A directed graph: each node with the list of its direct successors.
pub struct Graph {
    adj: Vec<(char, Vec<char>)>,
}

impl View for Graph {
    type V = Seq<(char, Seq<char>)>;

    closed spec fn view(&self) -> Seq<(char, Seq<char>)> {
        self.adj@.map_values(|p: (char, Vec<char>)| (p.0, p.1@))
    }
}

/// There is an edge from `a` to `b`.
pub open spec fn edge(g: Seq<(char, Seq<char>)>, a: char, b: char) -> bool {
    map_has_key(g, a) && map_value(g, a).contains(b)
}

/// Consecutive elements of `p` are connected by edges of `g`.
pub open spec fn valid_path(g: Seq<(char, Seq<char>)>, p: Seq<char>) -> bool {
    forall|i: int| 0 <= i < p.len() - 1 ==> edge(g, #[trigger] p[i], p[i + 1])
}

/// `p` is a path of `g` that leads from `a` to `b`.
pub open spec fn path_between(g: Seq<(char, Seq<char>)>, p: Seq<char>, a: char, b: char) -> bool {
    &&& p.len() >= 1
    &&& p[0] == a
    &&& p.last() == b
    &&& valid_path(g, p)
}

/// Some path of the graph leads from `a` to `b`.
pub open spec fn reachable(g: Seq<(char, Seq<char>)>, a: char, b: char) -> bool {
    exists|p: Seq<char>| path_between(g, p, a, b)
}

/// Every edge leaving `v` stays inside `set`.
pub open spec fn closed_at(g: Seq<(char, Seq<char>)>, v: char, set: Seq<char>) -> bool {
    forall|w: char| edge(g, v, w) ==> set.contains(w)
}

/// Nothing outside a set that contains the start and is closed under edges
/// can be reached from the start.
pub proof fn lemma_closed_set_blocks(
    g: Seq<(char, Seq<char>)>,
    set: Seq<char>,
    start: char,
    needle: char,
)
    requires
        set.contains(start),
        forall|v: char| set.contains(v) ==> closed_at(g, v, set),
        !set.contains(needle),
    ensures
        !reachable(g, start, needle),
{
    if reachable(g, start, needle) {
        let p = choose|p: Seq<char>| path_between(g, p, start, needle);
        lemma_path_stays_inside(g, set, p, p.len() - 1);
    }
}

/// Along a valid path that starts inside a closed set, every position stays
/// inside the set.
proof fn lemma_path_stays_inside(g: Seq<(char, Seq<char>)>, set: Seq<char>, p: Seq<char>, i: int)
    requires
        forall|v: char| set.contains(v) ==> closed_at(g, v, set),
        p.len() >= 1,
        set.contains(p[0]),
        valid_path(g, p),
        0 <= i < p.len(),
    ensures
        set.contains(p[i]),
    decreases i,
{
    if i > 0 {
        lemma_path_stays_inside(g, set, p, i - 1);
        assert(edge(g, p[i - 1], p[i]));
    }
}

/// Neither a node nor a successor of the graph is the `'\0'` sentinel.
pub open spec fn no_null_nodes(g: Seq<(char, Seq<char>)>) -> bool {
    forall|i: int|
        0 <= i < g.len() ==> (#[trigger] g[i]).0 != '\0' && !g[i].1.contains('\0')
}

/// Every character the graph mentions: its nodes and their successors.
pub open spec fn all_nodes(g: Seq<(char, Seq<char>)>) -> Seq<char>
    decreases g.len(),
{
    if g.len() == 0 {
        Seq::empty()
    } else {
        seq![g[0].0] + g[0].1 + all_nodes(g.skip(1))
    }
}

/// Both a node and each of its successors appear in `all_nodes`.
pub proof fn lemma_all_nodes(g: Seq<(char, Seq<char>)>)
    ensures
        forall|i: int| 0 <= i < g.len() ==> all_nodes(g).contains((#[trigger] g[i]).0),
        forall|i: int, j: int|
            0 <= i < g.len() && 0 <= j < g[i].1.len() ==> all_nodes(g).contains(
                #[trigger] g[i].1[j],
            ),
    decreases g.len(),
{
    if g.len() > 0 {
        lemma_all_nodes(g.skip(1));
        let head = seq![g[0].0] + g[0].1;
        assert forall|i: int| 0 <= i < g.len() implies all_nodes(g).contains(
            (#[trigger] g[i]).0,
        ) by {
            if i == 0 {
                assert(all_nodes(g)[0] == g[0].0);
            } else {
                let k = choose|k: int|
                    0 <= k < all_nodes(g.skip(1)).len() && all_nodes(g.skip(1))[k] == g.skip(
                        1,
                    )[i - 1].0;
                assert(all_nodes(g)[head.len() + k] == g[i].0);
            }
        }
        assert forall|i: int, j: int|
            0 <= i < g.len() && 0 <= j < g[i].1.len() implies all_nodes(g).contains(
            #[trigger] g[i].1[j],
        ) by {
            if i == 0 {
                assert(all_nodes(g)[1 + j] == g[0].1[j]);
            } else {
                assert(g.skip(1)[i - 1].1[j] == g[i].1[j]);
                let k = choose|k: int|
                    0 <= k < all_nodes(g.skip(1)).len() && all_nodes(g.skip(1))[k] == g.skip(
                        1,
                    )[i - 1].1[j];
                assert(all_nodes(g)[head.len() + k] == g[i].1[j]);
            }
        }
    }
}

/// The pool the search can ever visit: the start node and every character
/// that the graph mentions.
pub open spec fn universe(g: Seq<(char, Seq<char>)>, start: char) -> Seq<char> {
    seq![start] + all_nodes(g)
}

impl Graph {
    /// Each node appears at most once.
    pub open spec fn wf(&self) -> bool {
        map_distinct_keys(self@)
    }

    /// Creates a graph with no nodes.
    pub fn new() -> (g: Graph)
        ensures
            g.wf(),
            g@ == Seq::<(char, Seq<char>)>::empty(),
    {
        let g = Graph { adj: Vec::new() };
        proof {
            assert(g@ =~= Seq::<(char, Seq<char>)>::empty());
        }
        g
    }

    /// Position of `node` among the adjacency pairs; the length marks absence.
    fn key_slot(&self, node: char) -> (r: usize)
        ensures
            r == map_key_index(self@, node),
    {
        proof {
            lemma_map_key_index(self@, node);
        }
        let n = self.adj.len();
        let mut i: usize = 0;
        while i < n
            invariant
                0 <= i <= n,
                n == self@.len(),
                self@.len() == self.adj@.len(),
                forall|j: int| 0 <= j < self@.len() ==> (#[trigger] self@[j]).0 == self.adj@[j].0,
                forall|j: int| 0 <= j < i ==> self@[j].0 != node,
            decreases n - i,
        {
            if self.adj[i].0 == node {
                proof {
                    assert(self@[i as int].0 == node);
                    lemma_map_key_index(self@, node);
                    if map_key_index(self@, node) < i {
                        assert(self@[map_key_index(self@, node)].0 != node);
                    }
                }
                return i;
            }
            i += 1;
        }
        proof {
            lemma_map_key_index(self@, node);
        }
        n
    }

    /// Binds `node` to its successor list, replacing any earlier binding.
    pub fn insert(&mut self, node: char, neighbors: Vec<char>)
        ensures
            map_has_key(old(self)@, node) ==> final(self)@ == old(self)@.update(
                map_key_index(old(self)@, node),
                (node, neighbors@),
            ),
            !map_has_key(old(self)@, node) ==> final(self)@ == old(self)@.push(
                (node, neighbors@),
            ),
            old(self).wf() ==> final(self).wf(),
            forall|k: char|
                map_has_key(final(self)@, k) <==> (map_has_key(old(self)@, k) || k == node),
            old(self).wf() ==> map_value(final(self)@, node) == neighbors@,
            old(self).wf() ==> forall|k: char|
                map_has_key(old(self)@, k) && k != node ==> map_value(final(self)@, k)
                    == map_value(old(self)@, k),
    {
        proof {
            lemma_map_key_index(self@, node);
        }
        let ghost ns = neighbors@;
        let slot = self.key_slot(node);
        if slot < self.adj.len() {
            self.adj[slot] = (node, neighbors);
            proof {
                assert(self@ =~= old(self)@.update(map_key_index(old(self)@, node), (node, ns)));
                lemma_assoc_set_facts(old(self)@, self@, node, ns);
            }
        } else {
            self.adj.push((node, neighbors));
            proof {
                assert(self@ =~= old(self)@.push((node, ns)));
                lemma_assoc_set_facts(old(self)@, self@, node, ns);
            }
        }
    }

    /// The successor list bound to `node`, if any.
    pub fn get(&self, node: char) -> (r: Option<&Vec<char>>)
        ensures
            r is Some <==> map_has_key(self@, node),
            r matches Some(ns) ==> ns@ == map_value(self@, node),
    {
        proof {
            lemma_map_key_index(self@, node);
        }
        let slot = self.key_slot(node);
        if slot < self.adj.len() {
            Some(&self.adj[slot].1)
        } else {
            None
        }
    }
}

/// The bookkeeping invariant shared by the graph searches: the visited nodes
/// are drawn from the graph, and the predecessor map records, for every
/// visited node but the start, the visited node it was discovered from along
/// an edge.
pub open spec fn search_state_wf(
    g: Seq<(char, Seq<char>)>,
    visited: Seq<char>,
    pred: Seq<(char, char)>,
    start: char,
) -> bool {
    &&& visited.len() >= 1 && visited[0] == start
    &&& forall|i: int|
        0 <= i < visited.len() ==> universe(g, start).contains(#[trigger] visited[i])
    &&& forall|c: char| map_has_key(pred, c) ==> visited.contains(c)
    &&& chain_wf(pred, visited, start)
    &&& forall|i: int|
        0 <= i < pred.len() && (#[trigger] pred[i]).0 != start ==> edge(g, pred[i].1, pred[i].0)
}

/// The bookkeeping invariant of a breadth-first search in flight.
pub open spec fn bfs_state_wf(
    g: Seq<(char, Seq<char>)>,
    visited: Seq<char>,
    queue: Seq<char>,
    pred: Seq<(char, char)>,
    start: char,
) -> bool {
    &&& search_state_wf(g, visited, pred, start)
    &&& forall|i: int| 0 <= i < queue.len() ==> visited.contains(#[trigger] queue[i])
}

/// Marks `neighbor` visited and records `current` as its predecessor.
pub(crate) fn record_discovery(
    visited: &mut Vec<char>,
    predecessors: &mut Vec<(char, char)>,
    neighbor: char,
    current: char,
    Ghost(g): Ghost<Seq<(char, Seq<char>)>>,
    Ghost(start): Ghost<char>,
)
    requires
        search_state_wf(g, old(visited)@, old(predecessors)@, start),
        old(visited)@.contains(current),
        !old(visited)@.contains(neighbor),
        edge(g, current, neighbor),
        neighbor != '\0',
        universe(g, start).contains(neighbor),
    ensures
        search_state_wf(g, final(visited)@, final(predecessors)@, start),
        final(visited)@ == old(visited)@.push(neighbor),
        final(predecessors)@ == old(predecessors)@.push((neighbor, current)),
{
    let ghost old_v = visited@;
    visited.push(neighbor);
    predecessors.push((neighbor, current));
    proof {
        lemma_graph_search_extend(g, old_v, old(predecessors)@, start, neighbor, current);
        assert(visited@[0] == old_v[0]);
    }
}

/// Appends every not-yet-visited successor of `current` to the queue, marks
/// it visited at one level below `d_cur`, and records `current` as its
/// predecessor.
fn visit_neighbors(
    neighbors: &Vec<char>,
    current: char,
    queue: &mut Vec<char>,
    visited: &mut Vec<char>,
    predecessors: &mut Vec<(char, char)>,
    Ghost(g): Ghost<Seq<(char, Seq<char>)>>,
    Ghost(start): Ghost<char>,
    Ghost(depths): Ghost<Seq<int>>,
    Ghost(d_cur): Ghost<int>,
) -> (out: Ghost<Seq<int>>)
    requires
        map_distinct_keys(g),
        no_null_nodes(g),
        bfs_state_wf(g, old(visited)@, old(queue)@, old(predecessors)@, start),
        old(visited)@.contains(current),
        map_has_key(g, current),
        neighbors@ == map_value(g, current),
        depths.len() == old(visited)@.len(),
        old(predecessors)@.len() == old(visited)@.len(),
        forall|i: int|
            0 <= i < old(predecessors)@.len() ==> (#[trigger] old(predecessors)@[i]).0 == old(
                visited,
            )@[i],
    ensures
        bfs_state_wf(g, final(visited)@, final(queue)@, final(predecessors)@, start),
        old(visited)@.is_prefix_of(final(visited)@),
        old(queue)@.is_prefix_of(final(queue)@),
        old(predecessors)@.is_prefix_of(final(predecessors)@),
        final(queue)@.len() - old(queue)@.len() == final(visited)@.len() - old(visited)@.len(),
        forall|c: char|
            final(visited)@.contains(c) ==> old(visited)@.contains(c)
                || final(queue)@.contains(c),
        forall|j: int|
            0 <= j < neighbors@.len() ==> final(visited)@.contains(#[trigger] neighbors@[j]),
        out@.len() == final(visited)@.len(),
        out@.subrange(0, depths.len() as int) == depths,
        forall|i: int| depths.len() <= i < out@.len() ==> out@[i] == d_cur + 1,
        final(predecessors)@.len() == final(visited)@.len(),
        forall|i: int|
            0 <= i < final(predecessors)@.len() ==> (#[trigger] final(predecessors)@[i]).0
                == final(visited)@[i],
        forall|i: int|
            depths.len() <= i < out@.len() ==> (#[trigger] final(predecessors)@[i]).1 == current,
        forall|i: int|
            depths.len() <= i < out@.len() ==> final(queue)@[old(queue)@.len() + (i
                - depths.len())] == final(visited)@[i],
{
    proof {
        lemma_map_key_index(g, current);
        lemma_all_nodes(g);
    }
    let ghost mut out: Seq<int> = depths;
    let n = neighbors.len();
    let mut j: usize = 0;
    while j < n
        invariant
            forall|jj: int| 0 <= jj < j ==> visited@.contains(#[trigger] neighbors@[jj]),
            map_distinct_keys(g),
            no_null_nodes(g),
            bfs_state_wf(g, visited@, queue@, predecessors@, start),
            old(visited)@.is_prefix_of(visited@),
            old(queue)@.is_prefix_of(queue@),
            old(predecessors)@.is_prefix_of(predecessors@),
            queue@.len() - old(queue)@.len() == visited@.len() - old(visited)@.len(),
            forall|c: char|
                visited@.contains(c) ==> old(visited)@.contains(c) || queue@.contains(c),
            visited@.contains(current),
            map_has_key(g, current),
            neighbors@ == map_value(g, current),
            0 <= j <= n,
            n == neighbors@.len(),
            depths.len() == old(visited)@.len(),
            out.len() == visited@.len(),
            out.subrange(0, depths.len() as int) == depths,
            forall|i: int| depths.len() <= i < out.len() ==> out[i] == d_cur + 1,
            predecessors@.len() == visited@.len(),
            forall|i: int|
                0 <= i < predecessors@.len() ==> (#[trigger] predecessors@[i]).0 == visited@[i],
            forall|i: int|
                depths.len() <= i < out.len() ==> (#[trigger] predecessors@[i]).1 == current,
            forall|i: int|
                depths.len() <= i < out.len() ==> queue@[old(queue)@.len() + (i - depths.len())]
                    == visited@[i],
        decreases n - j,
    {
        let neighbor = neighbors[j];
        proof {
            lemma_map_key_index(g, current);
            lemma_all_nodes(g);
            let ki = map_key_index(g, current);
            assert(g[ki].1 == neighbors@);
            assert(all_nodes(g).contains(g[ki].1[j as int]));
            assert(neighbor != '\0') by {
                if neighbor == '\0' {
                    assert(g[ki].1.contains('\0'));
                }
            }
            assert(map_value(g, current).contains(neighbor)) by {
                assert(map_value(g, current)[j as int] == neighbor);
            }
        }
        if !contains_char(visited, neighbor) {
            let ghost old_v = visited@;
            let ghost old_q = queue@;
            let ghost old_p = predecessors@;
            queue.push(neighbor);
            visited.push(neighbor);
            predecessors.push((neighbor, current));
            proof {
                let pre_out = out;
                out = out.push(d_cur + 1);
                assert forall|t: int|
                    0 <= t < depths.len() implies out.subrange(0, depths.len() as int)[t]
                    == depths[t] by {
                    assert(out[t] == pre_out[t]);
                    assert(pre_out.subrange(0, depths.len() as int)[t] == depths[t]);
                }
                assert(out.subrange(0, depths.len() as int) =~= depths);
                assert(old(predecessors)@.is_prefix_of(predecessors@)) by {
                    assert forall|t: int|
                        0 <= t < old(predecessors)@.len() implies old(predecessors)@[t]
                        == predecessors@[t] by {
                        assert(old(predecessors)@[t] == old_p[t]);
                    }
                }
                assert forall|i: int|
                    0 <= i < predecessors@.len() implies (#[trigger] predecessors@[i]).0
                    == visited@[i] by {
                    if i < old_p.len() {
                        assert(predecessors@[i] == old_p[i]);
                        assert(visited@[i] == old_v[i]);
                    }
                }
                lemma_graph_search_extend(g, old_v, old_p, start, neighbor, current);
                assert(universe(g, start).contains(neighbor)) by {
                    let k = choose|k: int|
                        0 <= k < all_nodes(g).len() && all_nodes(g)[k] == neighbor;
                    assert(universe(g, start)[1 + k] == neighbor);
                }
                assert forall|i: int| 0 <= i < queue@.len() implies visited@.contains(
                    #[trigger] queue@[i],
                ) by {
                    if i < old_q.len() {
                        assert(old_v.contains(old_q[i]));
                        let k = choose|k: int| 0 <= k < old_v.len() && old_v[k] == old_q[i];
                        assert(visited@[k] == queue@[i]);
                    } else {
                        assert(visited@[old_v.len() as int] == neighbor);
                    }
                }
                assert forall|c: char|
                    visited@.contains(c) implies old(visited)@.contains(c) || queue@.contains(
                    c,
                ) by {
                    let k = choose|k: int| 0 <= k < visited@.len() && visited@[k] == c;
                    if k < old_v.len() {
                        assert(old_v.contains(c));
                        if !old(visited)@.contains(c) {
                            assert(old_q.contains(c));
                            let q = choose|q: int| 0 <= q < old_q.len() && old_q[q] == c;
                            assert(queue@[q] == c);
                        }
                    } else {
                        assert(queue@.last() == c);
                    }
                }
                assert(old(visited)@.is_prefix_of(visited@));
                assert(old(queue)@.is_prefix_of(queue@));
                assert(visited@.contains(current)) by {
                    let k = choose|k: int| 0 <= k < old_v.len() && old_v[k] == current;
                    assert(visited@[k] == current);
                }
                assert forall|jj: int| 0 <= jj < j + 1 implies visited@.contains(
                    #[trigger] neighbors@[jj],
                ) by {
                    if jj < j {
                        let k = choose|k: int|
                            0 <= k < old_v.len() && old_v[k] == neighbors@[jj];
                        assert(visited@[k] == neighbors@[jj]);
                    } else {
                        assert(visited@.last() == neighbor);
                    }
                }
            }
        }
        j += 1;
    }
    Ghost(out)
}

/// One discovery step keeps the predecessor chains well formed.
pub(crate) proof fn lemma_graph_search_extend(
    g: Seq<(char, Seq<char>)>,
    visited: Seq<char>,
    pred: Seq<(char, char)>,
    start: char,
    neighbor: char,
    current: char,
)
    requires
        chain_wf(pred, visited, start),
        forall|c: char| map_has_key(pred, c) ==> visited.contains(c),
        forall|i: int|
            0 <= i < pred.len() && (#[trigger] pred[i]).0 != start ==> edge(g, pred[i].1, pred[i].0),
        visited.contains(current),
        !visited.contains(neighbor),
        neighbor != '\0',
        edge(g, current, neighbor),
    ensures
        chain_wf(pred.push((neighbor, current)), visited.push(neighbor), start),
        forall|c: char|
            map_has_key(pred.push((neighbor, current)), c) ==> visited.push(neighbor).contains(c),
        forall|i: int|
            0 <= i < pred.push((neighbor, current)).len() && (#[trigger] pred.push(
                (neighbor, current),
            )[i]).0 != start ==> edge(
                g,
                pred.push((neighbor, current))[i].1,
                pred.push((neighbor, current))[i].0,
            ),
{
    let v2 = visited.push(neighbor);
    let p2 = pred.push((neighbor, current));
    assert(start != neighbor);
    assert forall|i: int, k: int| 0 <= i < k < v2.len() implies v2[i] != v2[k] by {
        if k == visited.len() {
            assert(!visited.contains(neighbor));
            if v2[i] == neighbor {
                assert(visited[i] == neighbor);
            }
        }
    }
    assert(!v2.contains('\0')) by {
        if v2.contains('\0') {
            let k = choose|k: int| 0 <= k < v2.len() && v2[k] == '\0';
            if k < visited.len() {
                assert(visited[k] == '\0');
            }
        }
    }
    assert(map_distinct_keys(p2)) by {
        assert forall|i: int, k: int| 0 <= i < k < p2.len() implies p2[i].0 != p2[k].0 by {
            if k == pred.len() {
                if p2[i].0 == neighbor {
                    assert(map_has_key(pred, neighbor));
                }
            }
        }
    }
    assert(map_has_key(p2, start)) by {
        let i = choose|i: int| 0 <= i < pred.len() && pred[i].0 == start;
        assert(p2[i].0 == start);
    }
    assert(map_value(p2, start) == '\0') by {
        lemma_map_key_index(pred, start);
        lemma_map_key_index(p2, start);
        let q = map_key_index(pred, start);
        let q2 = map_key_index(p2, start);
        if q2 != q {
            if q2 < q {
                assert(pred[q2].0 == start);
            } else {
                assert(p2[q].0 != start);
            }
        }
    }
    assert forall|c: char| v2.contains(c) implies map_has_key(p2, c) by {
        let k = choose|k: int| 0 <= k < v2.len() && v2[k] == c;
        if k < visited.len() {
            assert(visited.contains(c));
            let i = choose|i: int| 0 <= i < pred.len() && pred[i].0 == c;
            assert(p2[i].0 == c);
        } else {
            assert(p2[pred.len() as int].0 == c);
        }
    }
    assert forall|c: char| map_has_key(p2, c) implies v2.contains(c) by {
        let i = choose|i: int| 0 <= i < p2.len() && p2[i].0 == c;
        if i < pred.len() {
            assert(map_has_key(pred, c));
            assert(visited.contains(c));
            let k = choose|k: int| 0 <= k < visited.len() && visited[k] == c;
            assert(v2[k] == c);
        } else {
            assert(v2[visited.len() as int] == c);
        }
    }
    assert forall|i: int|
        0 <= i < p2.len() && (#[trigger] p2[i]).0 != start implies {
        &&& p2[i].1 != '\0'
        &&& v2.contains(p2[i].1)
        &&& (v2.contains(p2[i].0) ==> char_index(v2, p2[i].1) < char_index(v2, p2[i].0))
        &&& edge(g, p2[i].1, p2[i].0)
    } by {
        if i < pred.len() {
            assert(pred[i].0 != start);
            assert(visited.contains(pred[i].1));
            let k = choose|k: int| 0 <= k < visited.len() && visited[k] == pred[i].1;
            assert(v2[k] == pred[i].1);
            if v2.contains(p2[i].0) {
                assert(visited.contains(pred[i].0)) by {
                    let q = choose|q: int| 0 <= q < v2.len() && v2[q] == pred[i].0;
                    if q == visited.len() {
                        assert(map_has_key(pred, neighbor));
                    } else {
                        assert(visited[q] == pred[i].0);
                    }
                }
                lemma_char_index_push(visited, pred[i].1, neighbor);
                lemma_char_index_push(visited, pred[i].0, neighbor);
            }
        } else {
            assert(p2[i] == (neighbor, current));
            assert(current != '\0');
            let k = choose|k: int| 0 <= k < visited.len() && visited[k] == current;
            assert(v2[k] == current);
            lemma_char_index_push(visited, current, neighbor);
            lemma_char_index_push_fresh(visited, neighbor);
            lemma_char_index(visited, current);
        }
    }
}

/// Searches the graph level by level and returns a path from `start` to
/// `needle`, every step of which is an edge of the graph.
#[verifier::rlimit(100)]
pub fn breadth_first_search(graph: &Graph, start: char, needle: char) -> (r: Option<Vec<char>>)
    requires
        graph.wf(),
        no_null_nodes(graph@),
        start != '\0',
    ensures
        r matches Some(p) ==> {
            &&& p@.len() >= 1
            &&& p@[0] == start
            &&& p@.last() == needle
            &&& valid_path(graph@, p@)
            &&& p@.no_duplicates()
            &&& (start == needle ==> p@ == seq![start])
            &&& forall|q: Seq<char>|
                path_between(graph@, q, start, needle) ==> q.len() >= p@.len()
        },
        r is Some <==> reachable(graph@, start, needle),
{
    let mut visited: Vec<char> = Vec::new();
    let mut queue: Vec<char> = Vec::new();
    let mut predecessors: Vec<(char, char)> = Vec::new();
    let ghost mut depths: Seq<int> = seq![0int];

    queue.push(start);
    visited.push(start);
    predecessors.push((start, '\0'));

    proof {
        assert(visited@ =~= seq![start]);
        assert(queue@ =~= seq![start]);
        assert(predecessors@ =~= seq![(start, '\0')]);
        lemma_map_key_index(predecessors@, start);
        assert(map_has_key(predecessors@, start)) by {
            assert(predecessors@[0].0 == start);
        }
        assert(universe(graph@, start).contains(start)) by {
            assert(universe(graph@, start)[0] == start);
        }
        assert(visited@.contains(start)) by {
            assert(visited@[0] == start);
        }
        assert(queue@.contains(start)) by {
            assert(queue@[0] == start);
        }
        lemma_levels_init(graph@, start);
        assert(bfs_levels_wf(graph@, visited@, queue@, predecessors@, depths));
    }
    while queue.len() > 0
        invariant
            graph.wf(),
            no_null_nodes(graph@),
            start != '\0',
            bfs_state_wf(graph@, visited@, queue@, predecessors@, start),
            visited@.contains(needle) ==> queue@.contains(needle),
            forall|v: char|
                #[trigger] visited@.contains(v) && !queue@.contains(v) ==> closed_at(
                    graph@,
                    v,
                    visited@,
                ),
            bfs_levels_wf(graph@, visited@, queue@, predecessors@, depths),
            depths.len() == visited@.len(),
            predecessors@.len() == visited@.len(),
            forall|i: int|
                0 <= i < predecessors@.len() ==> (#[trigger] predecessors@[i]).0 == visited@[i],
        decreases universe(graph@, start).len() - visited@.len(), queue@.len(),
    {
        proof {
            lemma_distinct_subseq_len(visited@, universe(graph@, start));
        }
        let ghost pre_q = queue@;
        let current = queue.remove(0);
        proof {
            assert(pre_q.contains(current)) by {
                assert(pre_q[0] == current);
            }
            assert forall|i: int| 0 <= i < queue@.len() implies visited@.contains(
                #[trigger] queue@[i],
            ) by {
                assert(queue@[i] == pre_q[i + 1]);
            }
        }
        if current == needle {
            let path = build_path(&predecessors, needle, Ghost(visited@), Ghost(start));
            proof {
                assert(!map_has_key(predecessors@, '\0'));
                lemma_path_edges(graph@, predecessors@, start, path@);
                assert(path_between(graph@, path@, start, needle));
                lemma_levels_minimality(
                    graph@,
                    visited@,
                    pre_q,
                    predecessors@,
                    depths,
                    start,
                    needle,
                    path@,
                );
            }
            return Some(path);
        }
        let ghost pre_v = visited@;
        let ghost pre_d = depths;
        let ghost pre_p = predecessors@;
        match graph.get(current) {
            Some(neighbors) => {
                let ghost pi = pre_v.len() - pre_q.len();
                let new_depths = visit_neighbors(
                    neighbors,
                    current,
                    &mut queue,
                    &mut visited,
                    &mut predecessors,
                    Ghost(graph@),
                    Ghost(start),
                    Ghost(pre_d),
                    Ghost(pre_d[pi]),
                );
                proof {
                    depths = new_depths@;
                    assert forall|w: char| edge(graph@, current, w) implies visited@.contains(
                        w,
                    ) by {
                        let wq = choose|wq: int|
                            0 <= wq < map_value(graph@, current).len() && map_value(
                                graph@,
                                current,
                            )[wq] == w;
                        assert(visited@.contains(neighbors@[wq]));
                    }
                    lemma_levels_step(
                        graph@,
                        pre_v,
                        pre_q,
                        pre_p,
                        pre_d,
                        visited@,
                        queue@,
                        predecessors@,
                        depths,
                        current,
                    );
                    lemma_distinct_subseq_len(visited@, universe(graph@, start));
                    assert(visited@.contains(needle) ==> queue@.contains(needle)) by {
                        if visited@.contains(needle) {
                            if pre_v.contains(needle) {
                                assert(pre_q.contains(needle));
                                let k = choose|k: int|
                                    0 <= k < pre_q.len() && pre_q[k] == needle;
                                assert(k != 0);
                                assert(pre_q.remove(0)[k - 1] == needle);
                                assert(pre_q.remove(0).is_prefix_of(queue@));
                                assert(queue@[k - 1] == needle);
                            }
                        }
                    }
                    lemma_bfs_closure_step(
                        graph@,
                        pre_v,
                        pre_q,
                        visited@,
                        queue@,
                        current,
                        map_value(graph@, current),
                    );
                }
            },
            None => {
                proof {
                    lemma_levels_skip(graph@, visited@, pre_q, predecessors@, depths, current);
                    assert(visited@.contains(needle) ==> queue@.contains(needle)) by {
                        if visited@.contains(needle) {
                            assert(pre_q.contains(needle));
                            let k = choose|k: int| 0 <= k < pre_q.len() && pre_q[k] == needle;
                            assert(k != 0);
                            assert(queue@[k - 1] == needle);
                        }
                    }
                    assert forall|v: char|
                        #[trigger] visited@.contains(v) && !queue@.contains(v) implies closed_at(
                        graph@,
                        v,
                        visited@,
                    ) by {
                        if v == current {
                            assert(!map_has_key(graph@, current));
                        } else {
                            if pre_q.contains(v) {
                                let k = choose|k: int| 0 <= k < pre_q.len() && pre_q[k] == v;
                                assert(k != 0);
                                assert(queue@[k - 1] == v);
                            }
                        }
                    }
                }
            },
        }
    }
    proof {
        assert(visited@.contains(start)) by {
            assert(visited@[0] == start);
        }
        assert(!visited@.contains(needle));
        lemma_closed_set_blocks(graph@, visited@, start, needle);
    }
    None
}

/// A node closed with respect to a set stays closed as the set grows.
pub(crate) proof fn lemma_closed_monotone(
    g: Seq<(char, Seq<char>)>,
    v: char,
    s1: Seq<char>,
    s2: Seq<char>,
)
    requires
        closed_at(g, v, s1),
        s1.is_prefix_of(s2),
    ensures
        closed_at(g, v, s2),
{
    assert forall|w: char| edge(g, v, w) implies s2.contains(w) by {
        assert(s1.contains(w));
        let k = choose|k: int| 0 <= k < s1.len() && s1[k] == w;
        assert(s2[k] == w);
    }
}

/// Every edge out of the node discovered at position `i` reaches a node
/// discovered at most one level deeper.
pub open spec fn depth_stable_at(
    g: Seq<(char, Seq<char>)>,
    visited: Seq<char>,
    depths: Seq<int>,
    i: int,
) -> bool {
    forall|w: char|
        edge(g, visited[i], w) ==> char_index(visited, w) < visited.len() && depths[char_index(
            visited,
            w,
        )] <= depths[i] + 1
}

/// The discovery ledger of a breadth-first search: one depth per visited
/// node, zero at the start and never decreasing along the visit order; the
/// queue is exactly the unprocessed tail of the visit order; the most recent
/// depth is within one of the front's; every node sits one level below its
/// recorded predecessor; and every processed node is depth-stable.
#[verifier::opaque]
pub open spec fn bfs_levels_wf(
    g: Seq<(char, Seq<char>)>,
    visited: Seq<char>,
    queue: Seq<char>,
    pred: Seq<(char, char)>,
    depths: Seq<int>,
) -> bool {
    &&& depths.len() == visited.len()
    &&& pred.len() == visited.len()
    &&& visited.len() >= 1
    &&& visited.no_duplicates()
    &&& depths[0] == 0
    &&& forall|i: int| 0 <= i < pred.len() ==> (#[trigger] pred[i]).0 == visited[i]
    &&& forall|i: int| 0 <= i < depths.len() - 1 ==> #[trigger] depths[i] <= depths[i + 1]
    &&& queue.len() <= visited.len()
    &&& queue == visited.skip(visited.len() - queue.len())
    &&& (queue.len() >= 1 ==> depths.last() <= depths[visited.len() - queue.len()] + 1)
    &&& forall|i: int|
        1 <= i < visited.len() ==> char_index(visited, (#[trigger] pred[i]).1) < i && depths[i]
            == depths[char_index(visited, pred[i].1)] + 1
    &&& forall|i: int|
        0 <= i < visited.len() - queue.len() ==> depth_stable_at(g, visited, depths, i)
}

/// The ledger of the freshly seeded search.
proof fn lemma_levels_init(g: Seq<(char, Seq<char>)>, start: char)
    ensures
        bfs_levels_wf(g, seq![start], seq![start], seq![(start, '\0')], seq![0int]),
{
    reveal(bfs_levels_wf);
    assert(seq![start] =~= seq![start].skip(0));
}

/// The bookkeeping shapes that the ledger pins down.
proof fn lemma_levels_facts(
    g: Seq<(char, Seq<char>)>,
    visited: Seq<char>,
    queue: Seq<char>,
    pred: Seq<(char, char)>,
    depths: Seq<int>,
)
    requires
        bfs_levels_wf(g, visited, queue, pred, depths),
    ensures
        depths.len() == visited.len(),
        pred.len() == visited.len(),
        visited.len() >= 1,
        queue.len() <= visited.len(),
        forall|i: int| 0 <= i < pred.len() ==> (#[trigger] pred[i]).0 == visited[i],
{
    reveal(bfs_levels_wf);
}

/// In a sequence whose adjacent entries never decrease, no entry decreases.
proof fn lemma_depths_monotone(depths: Seq<int>, a: int, b: int)
    requires
        forall|i: int| 0 <= i < depths.len() - 1 ==> #[trigger] depths[i] <= depths[i + 1],
        0 <= a <= b < depths.len(),
    ensures
        depths[a] <= depths[b],
    decreases b - a,
{
    if a < b {
        lemma_depths_monotone(depths, a, b - 1);
    }
}

/// After one step, the queue is again the unprocessed tail of the visit
/// order.
proof fn lemma_step_queue_shape(
    pre_v: Seq<char>,
    pre_q: Seq<char>,
    post_v: Seq<char>,
    post_q: Seq<char>,
)
    requires
        pre_q.len() >= 1,
        pre_q.len() <= pre_v.len(),
        pre_q == pre_v.skip(pre_v.len() - pre_q.len()),
        pre_v.is_prefix_of(post_v),
        pre_q.remove(0).is_prefix_of(post_q),
        post_q.len() - (pre_q.len() - 1) == post_v.len() - pre_v.len(),
        forall|i: int|
            pre_v.len() <= i < post_v.len() ==> post_q[(pre_q.len() - 1) + (i - pre_v.len())]
                == post_v[i],
    ensures
        post_q == post_v.skip(pre_v.len() - pre_q.len() + 1),
{
    let pi = pre_v.len() - pre_q.len();
    assert(post_q =~= post_v.skip(pi + 1)) by {
        assert forall|t: int| 0 <= t < post_q.len() implies post_q[t] == post_v.skip(
            pi + 1,
        )[t] by {
            if t < pre_q.len() - 1 {
                assert(post_q[t] == pre_q.remove(0).subrange(0, pre_q.remove(0).len() as int)[t]);
                assert(post_q[t] == pre_q.remove(0)[t]);
                assert(pre_q.remove(0)[t] == pre_q[t + 1]);
                assert(pre_q[t + 1] == pre_v.skip(pi)[t + 1]);
                assert(pre_v[pi + 1 + t] == post_v.subrange(0, pre_v.len() as int)[pi + 1 + t]);
                assert(pre_v[pi + 1 + t] == post_v[pi + 1 + t]);
            } else {
                let i = t - (pre_q.len() - 1) + pre_v.len();
                assert(post_q[(pre_q.len() - 1) + (i - pre_v.len())] == post_v[i]);
            }
        }
    }
}

/// After one step, every node still sits one level below its recorded
/// predecessor.
proof fn lemma_step_links(
    pre_v: Seq<char>,
    pre_p: Seq<(char, char)>,
    pre_d: Seq<int>,
    post_v: Seq<char>,
    post_p: Seq<(char, char)>,
    post_d: Seq<int>,
    pi: int,
    current: char,
)
    requires
        pre_p.len() == pre_v.len(),
        pre_d.len() == pre_v.len(),
        post_p.len() == post_v.len(),
        post_d.len() == post_v.len(),
        pre_v.no_duplicates(),
        pre_v.is_prefix_of(post_v),
        pre_p.is_prefix_of(post_p),
        forall|i: int| 0 <= i < pre_d.len() ==> post_d[i] == pre_d[i],
        0 <= pi < pre_v.len(),
        pre_v[pi] == current,
        forall|i: int|
            pre_v.len() <= i < post_v.len() ==> (#[trigger] post_p[i]).1 == current,
        forall|i: int| pre_v.len() <= i < post_v.len() ==> post_d[i] == pre_d[pi] + 1,
        forall|i: int|
            1 <= i < pre_v.len() ==> char_index(pre_v, (#[trigger] pre_p[i]).1) < i && pre_d[i]
                == pre_d[char_index(pre_v, pre_p[i].1)] + 1,
    ensures
        forall|i: int|
            1 <= i < post_v.len() ==> char_index(post_v, (#[trigger] post_p[i]).1) < i && post_d[i]
                == post_d[char_index(post_v, post_p[i].1)] + 1,
{
    assert forall|i: int|
        1 <= i < post_v.len() implies char_index(post_v, (#[trigger] post_p[i]).1) < i && post_d[i]
            == post_d[char_index(post_v, post_p[i].1)] + 1 by {
        if i < pre_v.len() {
            assert(pre_p[i] == post_p.subrange(0, pre_p.len() as int)[i]);
            assert(post_p[i] == pre_p[i]);
            lemma_char_index(pre_v, pre_p[i].1);
            let j = char_index(pre_v, pre_p[i].1);
            assert(0 <= j < i);
            assert(pre_v.contains(pre_p[i].1));
            lemma_char_index_prefix(pre_v, post_v, pre_p[i].1);
            assert(char_index(post_v, post_p[i].1) == j);
            assert(post_d[j] == pre_d[j]);
            assert(post_d[i] == pre_d[i]);
        } else {
            assert(post_p[i].1 == current);
            assert(pre_v.contains(current)) by {
                assert(pre_v[pi] == current);
            }
            lemma_char_index_prefix(pre_v, post_v, current);
            lemma_char_index_of_unique(pre_v, pi);
            assert(char_index(post_v, post_p[i].1) == pi);
            assert(post_d[pi] == pre_d[pi]);
            assert(post_d[i] == pre_d[pi] + 1);
        }
    }
}

/// After one step, every node processed so far is still depth-stable.
proof fn lemma_step_stability(
    g: Seq<(char, Seq<char>)>,
    pre_v: Seq<char>,
    pre_d: Seq<int>,
    post_v: Seq<char>,
    post_d: Seq<int>,
    pi: int,
    current: char,
)
    requires
        pre_d.len() == pre_v.len(),
        post_d.len() == post_v.len(),
        0 <= pi < pre_v.len(),
        pre_v[pi] == current,
        pre_v.is_prefix_of(post_v),
        forall|i: int| 0 <= i < pre_d.len() ==> post_d[i] == pre_d[i],
        forall|i: int| 0 <= i < pre_d.len() - 1 ==> #[trigger] pre_d[i] <= pre_d[i + 1],
        pre_d.last() <= pre_d[pi] + 1,
        forall|i: int|
            pre_v.len() <= i < post_v.len() ==> post_d[i] == pre_d[pi] + 1,
        forall|i: int| 0 <= i < pi ==> depth_stable_at(g, pre_v, pre_d, i),
        forall|w: char| edge(g, current, w) ==> post_v.contains(w),
    ensures
        forall|i: int| 0 <= i <= pi ==> depth_stable_at(g, post_v, post_d, i),
{
    assert forall|i: int| 0 <= i <= pi implies depth_stable_at(g, post_v, post_d, i) by {
        assert(pre_v[i] == post_v.subrange(0, pre_v.len() as int)[i]);
        assert(post_v[i] == pre_v[i]);
        if i < pi {
            assert(depth_stable_at(g, pre_v, pre_d, i));
            assert forall|w: char| edge(g, post_v[i], w) implies char_index(post_v, w)
                < post_v.len() && post_d[char_index(post_v, w)] <= post_d[i] + 1 by {
                lemma_char_index(pre_v, w);
                assert(char_index(pre_v, w) < pre_v.len());
                assert(pre_v.contains(w));
                lemma_char_index_prefix(pre_v, post_v, w);
                assert(char_index(post_v, w) == char_index(pre_v, w));
                assert(post_d[char_index(pre_v, w)] == pre_d[char_index(pre_v, w)]);
                assert(post_d[i] == pre_d[i]);
            }
        } else {
            assert(post_v[pi] == current);
            assert forall|w: char| edge(g, post_v[i], w) implies char_index(post_v, w)
                < post_v.len() && post_d[char_index(post_v, w)] <= post_d[i] + 1 by {
                assert(post_v.contains(w));
                lemma_char_index(post_v, w);
                let j = char_index(post_v, w);
                assert(0 <= j < post_v.len());
                assert(post_d[i] == pre_d[pi]);
                if j < pre_v.len() {
                    lemma_depths_monotone(pre_d, j, pre_d.len() - 1);
                    assert(pre_d[j] <= pre_d.last());
                    assert(post_d[j] == pre_d[j]);
                } else {
                    assert(post_d[j] == pre_d[pi] + 1);
                }
            }
        }
    }
}

/// One breadth-first step keeps the ledger: the front is processed, and its
/// fresh successors are appended one level deeper.
#[verifier::rlimit(100)]
proof fn lemma_levels_step(
    g: Seq<(char, Seq<char>)>,
    pre_v: Seq<char>,
    pre_q: Seq<char>,
    pre_p: Seq<(char, char)>,
    pre_d: Seq<int>,
    post_v: Seq<char>,
    post_q: Seq<char>,
    post_p: Seq<(char, char)>,
    post_d: Seq<int>,
    current: char,
)
    requires
        bfs_levels_wf(g, pre_v, pre_q, pre_p, pre_d),
        pre_q.len() >= 1,
        pre_q[0] == current,
        post_v.no_duplicates(),
        pre_v.is_prefix_of(post_v),
        post_p.len() == post_v.len(),
        post_d.len() == post_v.len(),
        post_d.subrange(0, pre_d.len() as int) == pre_d,
        forall|i: int|
            pre_v.len() <= i < post_v.len() ==> post_d[i] == pre_d[pre_v.len() - pre_q.len()] + 1,
        forall|i: int| 0 <= i < post_p.len() ==> (#[trigger] post_p[i]).0 == post_v[i],
        forall|i: int|
            pre_v.len() <= i < post_v.len() ==> (#[trigger] post_p[i]).1 == current,
        pre_p.is_prefix_of(post_p),
        pre_q.remove(0).is_prefix_of(post_q),
        post_q.len() - (pre_q.len() - 1) == post_v.len() - pre_v.len(),
        forall|i: int|
            pre_v.len() <= i < post_v.len() ==> post_q[(pre_q.len() - 1) + (i - pre_v.len())]
                == post_v[i],
        forall|w: char| edge(g, current, w) ==> post_v.contains(w),
    ensures
        bfs_levels_wf(g, post_v, post_q, post_p, post_d),
{
    reveal(bfs_levels_wf);
    let pi = pre_v.len() - pre_q.len();
    let k = post_v.len() - pre_v.len();
    assert forall|i: int| 0 <= i < pre_d.len() implies post_d[i] == pre_d[i] by {
        assert(post_d.subrange(0, pre_d.len() as int)[i] == post_d[i]);
    }
    assert(pre_v[pi] == current) by {
        assert(pre_q[0] == pre_v.skip(pi)[0]);
    }
    assert(post_v.len() - post_q.len() == pi + 1);
    assert forall|i: int|
        0 <= i < post_d.len() - 1 implies #[trigger] post_d[i] <= post_d[i + 1] by {
        if i + 1 == pre_v.len() {
            assert(post_d[i] == pre_d.last());
        }
    }
    lemma_step_queue_shape(pre_v, pre_q, post_v, post_q);
    if post_q.len() >= 1 {
        assert(post_d.last() <= post_d[pi + 1] + 1) by {
            if k > 0 {
                assert(post_d.last() == pre_d[pi] + 1);
                if pi + 1 < pre_v.len() {
                    assert(pre_d[pi] <= pre_d[pi + 1]);
                } else {
                    assert(post_d[pi + 1] == pre_d[pi] + 1);
                }
            } else {
                assert(post_d.last() == pre_d.last());
                assert(pre_d[pi] <= pre_d[pi + 1]);
            }
        }
    }
    lemma_step_links(pre_v, pre_p, pre_d, post_v, post_p, post_d, pi, current);
    lemma_step_stability(g, pre_v, pre_d, post_v, post_d, pi, current);
}

/// Processing a front node with no outgoing edges keeps the ledger.
proof fn lemma_levels_skip(
    g: Seq<(char, Seq<char>)>,
    visited: Seq<char>,
    pre_q: Seq<char>,
    pred: Seq<(char, char)>,
    depths: Seq<int>,
    current: char,
)
    requires
        bfs_levels_wf(g, visited, pre_q, pred, depths),
        pre_q.len() >= 1,
        pre_q[0] == current,
        !map_has_key(g, current),
    ensures
        bfs_levels_wf(g, visited, pre_q.remove(0), pred, depths),
{
    reveal(bfs_levels_wf);
    let pi = visited.len() - pre_q.len();
    assert(pre_q.remove(0) =~= visited.skip(pi + 1)) by {
        assert forall|t: int| 0 <= t < pre_q.remove(0).len() implies pre_q.remove(0)[t]
            == visited.skip(pi + 1)[t] by {
            assert(pre_q.remove(0)[t] == pre_q[t + 1]);
            assert(pre_q[t + 1] == visited.skip(pi)[t + 1]);
        }
    }
    if pre_q.remove(0).len() >= 1 {
        assert(depths.last() <= depths[pi] + 1);
        assert(depths[pi] <= depths[pi + 1]);
    }
    assert(visited[pi] == current) by {
        assert(pre_q[0] == visited.skip(pi)[0]);
    }
    assert forall|i: int|
        0 <= i < visited.len() - pre_q.remove(0).len() implies depth_stable_at(
        g,
        visited,
        depths,
        i,
    ) by {
        if i == pi {
            assert forall|w: char| edge(g, visited[i], w) implies char_index(visited, w)
                < visited.len() && depths[char_index(visited, w)] <= depths[i] + 1 by {
                assert(map_has_key(g, current));
            }
        }
    }
}

/// Walking the returned path forward raises the discovery depth by exactly
/// one per step, so the node at position `k` was discovered at depth `k`.
proof fn lemma_returned_path_depths(
    pred: Seq<(char, char)>,
    visited: Seq<char>,
    depths: Seq<int>,
    p: Seq<char>,
    k: int,
)
    requires
        visited.no_duplicates(),
        pred.len() == visited.len(),
        forall|i: int| 0 <= i < pred.len() ==> (#[trigger] pred[i]).0 == visited[i],
        depths.len() == visited.len(),
        visited.len() >= 1,
        depths[0] == 0,
        forall|i: int|
            1 <= i < visited.len() ==> char_index(visited, (#[trigger] pred[i]).1) < i && depths[i]
                == depths[char_index(visited, pred[i].1)] + 1,
        p.len() >= 1,
        p[0] == visited[0],
        p.no_duplicates(),
        forall|i: int|
            0 <= i < p.len() - 1 ==> map_has_key(pred, #[trigger] p[i + 1]) && map_value(
                pred,
                p[i + 1],
            ) == p[i],
        0 <= k < p.len(),
    ensures
        char_index(visited, p[k]) < visited.len(),
        depths[char_index(visited, p[k])] == k,
    decreases k,
{
    if k == 0 {
        lemma_char_index_of_unique(visited, 0);
    } else {
        lemma_returned_path_depths(pred, visited, depths, p, k - 1);
        let jp = char_index(visited, p[k - 1]);
        lemma_map_key_index(pred, p[k]);
        let i = map_key_index(pred, p[k]);
        assert(map_has_key(pred, p[(k - 1) + 1]));
        assert(pred[i].0 == p[k]);
        assert(visited[i] == p[k]);
        assert(i >= 1) by {
            if i == 0 {
                lemma_char_index_of_unique(visited, 0);
                assert(p[k] == p[0]);
            }
        }
        assert(pred[i].1 == map_value(pred, p[(k - 1) + 1]));
        assert(char_index(visited, pred[i].1) == jp);
        assert(depths[i] == k);
        lemma_char_index_of_unique(visited, i);
    }
}

/// Any valid path from the start reaches, at each step, either a node
/// discovered no deeper than the step count, or a step count already at the
/// front's depth.
proof fn lemma_bfs_depth_lower_bound(
    g: Seq<(char, Seq<char>)>,
    visited: Seq<char>,
    depths: Seq<int>,
    pi: int,
    q: Seq<char>,
    i: int,
)
    requires
        depths.len() == visited.len(),
        visited.len() >= 1,
        depths[0] == 0,
        forall|k: int| 0 <= k < depths.len() - 1 ==> #[trigger] depths[k] <= depths[k + 1],
        0 <= pi < visited.len(),
        forall|k: int| 0 <= k < pi ==> depth_stable_at(g, visited, depths, k),
        q.len() >= 1,
        q[0] == visited[0],
        valid_path(g, q),
        0 <= i < q.len(),
    ensures
        (char_index(visited, q[i]) < visited.len() && depths[char_index(visited, q[i])] <= i)
            || depths[pi] <= i,
    decreases i,
{
    lemma_char_index(visited, q[i]);
    if i == 0 {
        lemma_char_index(visited, q[0]);
        assert(visited.contains(q[0])) by {
            assert(visited[0] == q[0]);
        }
        lemma_depths_monotone(depths, 0, char_index(visited, q[0]));
        assert(depths[0] <= 0);
        assert(depths[char_index(visited, q[0])] <= 0) by {
            assert forall|t: int|
                0 <= t < char_index(visited, q[0]) implies visited[t] != q[0] by {
            }
            if char_index(visited, q[0]) != 0 {
                assert(visited[0] == q[0]);
            }
        }
    } else {
        lemma_bfs_depth_lower_bound(g, visited, depths, pi, q, i - 1);
        if depths[pi] <= i - 1 {
        } else {
            lemma_char_index(visited, q[i - 1]);
            let j = char_index(visited, q[i - 1]);
            assert(0 <= j < visited.len() && depths[j] <= i - 1);
            assert(visited[j] == q[i - 1]);
            if j < pi {
                assert(depth_stable_at(g, visited, depths, j));
                assert(edge(g, q[i - 1], q[i]));
                assert(edge(g, visited[j], q[i]));
            } else {
                lemma_depths_monotone(depths, pi, j);
                assert(depths[pi] <= depths[j]);
            }
        }
    }
}

/// When the needle reaches the queue's front, the reconstructed path is a
/// shortest one: no valid path from the start to the needle is shorter.
#[verifier::rlimit(100)]
proof fn lemma_levels_minimality(
    g: Seq<(char, Seq<char>)>,
    visited: Seq<char>,
    pre_q: Seq<char>,
    pred: Seq<(char, char)>,
    depths: Seq<int>,
    start: char,
    needle: char,
    p: Seq<char>,
)
    requires
        bfs_levels_wf(g, visited, pre_q, pred, depths),
        pre_q.len() >= 1,
        pre_q[0] == needle,
        visited[0] == start,
        p.len() >= 1,
        p[0] == start,
        p.last() == needle,
        p.no_duplicates(),
        forall|i: int|
            0 <= i < p.len() - 1 ==> map_has_key(pred, #[trigger] p[i + 1]) && map_value(
                pred,
                p[i + 1],
            ) == p[i],
    ensures
        forall|q: Seq<char>| path_between(g, q, start, needle) ==> q.len() >= p.len(),
{
    reveal(bfs_levels_wf);
    let pi = visited.len() - pre_q.len();
    assert(visited[pi] == needle) by {
        assert(pre_q[0] == visited.skip(pi)[0]);
    }
    lemma_returned_path_depths(pred, visited, depths, p, p.len() - 1);
    lemma_char_index_of_unique(visited, pi);
    assert(char_index(visited, needle) == pi);
    assert(depths[pi] == p.len() - 1);
    assert forall|q: Seq<char>| path_between(g, q, start, needle) implies q.len() >= p.len() by {
        lemma_bfs_depth_lower_bound(g, visited, depths, pi, q, q.len() - 1);
        assert(q[q.len() - 1] == needle);
    }
}

/// Taking one node off the queue and enqueueing its unvisited successors
/// keeps every off-queue visited node closed.
proof fn lemma_bfs_closure_step(
    g: Seq<(char, Seq<char>)>,
    pre_v: Seq<char>,
    pre_q: Seq<char>,
    post_v: Seq<char>,
    post_q: Seq<char>,
    current: char,
    ns: Seq<char>,
)
    requires
        forall|v: char|
            #[trigger] pre_v.contains(v) && !pre_q.contains(v) ==> closed_at(g, v, pre_v),
        pre_q.len() >= 1,
        pre_q[0] == current,
        pre_v.is_prefix_of(post_v),
        pre_q.remove(0).is_prefix_of(post_q),
        forall|c: char| post_v.contains(c) ==> pre_v.contains(c) || post_q.contains(c),
        map_has_key(g, current),
        ns == map_value(g, current),
        forall|j: int| 0 <= j < ns.len() ==> post_v.contains(#[trigger] ns[j]),
    ensures
        forall|v: char|
            #[trigger] post_v.contains(v) && !post_q.contains(v) ==> closed_at(g, v, post_v),
{
    assert forall|v: char|
        #[trigger] post_v.contains(v) && !post_q.contains(v) implies closed_at(g, v, post_v) by {
        if v == current {
            assert forall|w: char| edge(g, v, w) implies post_v.contains(w) by {
                let j = choose|j: int| 0 <= j < ns.len() && ns[j] == w;
                assert(post_v.contains(ns[j]));
            }
        } else {
            if pre_v.contains(v) {
                if pre_q.contains(v) {
                    let k = choose|k: int| 0 <= k < pre_q.len() && pre_q[k] == v;
                    assert(k != 0);
                    assert(pre_q.remove(0)[k - 1] == v);
                    assert(post_q[k - 1] == v);
                } else {
                    assert(closed_at(g, v, pre_v));
                    assert forall|w: char| edge(g, v, w) implies post_v.contains(w) by {
                        assert(pre_v.contains(w));
                        let k = choose|k: int| 0 <= k < pre_v.len() && pre_v[k] == w;
                        assert(post_v[k] == w);
                    }
                }
            }
        }
    }
}

/// A path whose steps all come from a predecessor map with recorded edges is
/// a valid path of the graph.
pub(crate) proof fn lemma_path_edges(
    g: Seq<(char, Seq<char>)>,
    pred: Seq<(char, char)>,
    start: char,
    p: Seq<char>,
)
    requires
        map_distinct_keys(pred),
        forall|i: int|
            0 <= i < pred.len() && (#[trigger] pred[i]).0 != start ==> edge(g, pred[i].1, pred[i].0),
        map_has_key(pred, start),
        map_value(pred, start) == '\0',
        !map_has_key(pred, '\0'),
        start != '\0',
        p.len() >= 1,
        p[0] == start,
        forall|i: int|
            0 <= i < p.len() - 1 ==> map_has_key(pred, #[trigger] p[i + 1]) && map_value(
                pred,
                p[i + 1],
            ) == p[i],
    ensures
        valid_path(g, p),
{
    assert forall|i: int| 0 <= i < p.len() - 1 implies edge(g, #[trigger] p[i], p[i + 1]) by {
        lemma_map_key_index(pred, p[i + 1]);
        let k = map_key_index(pred, p[i + 1]);
        assert(pred[k].0 == p[i + 1]);
        assert(pred[k].1 == p[i]);
        if p[i + 1] == start {
            assert(p[i] == '\0');
            if i > 0 {
                assert(map_has_key(pred, p[(i - 1) + 1]));
            }
        }
    }
}

/// Recursive formulation of the breadth-first search: each call takes one
/// node off the queue, discovers its successors, and recurses on the rest.
#[verifier::rlimit(100)]
pub fn breadth_first_search_recursive(
    graph: &Graph,
    queue: &mut Vec<char>,
    visited: &mut Vec<char>,
    predecessors: &mut Vec<(char, char)>,
    needle: char,
    Ghost(start): Ghost<char>,
    Ghost(depths): Ghost<Seq<int>>,
) -> (r: Option<Vec<char>>)
    requires
        graph.wf(),
        no_null_nodes(graph@),
        start != '\0',
        bfs_state_wf(graph@, old(visited)@, old(queue)@, old(predecessors)@, start),
        forall|v: char|
            #[trigger] old(visited)@.contains(v) && !old(queue)@.contains(v) ==> closed_at(
                graph@,
                v,
                old(visited)@,
            ),
        old(visited)@.contains(needle) ==> old(queue)@.contains(needle),
        old(visited)@[0] == start,
        bfs_levels_wf(graph@, old(visited)@, old(queue)@, old(predecessors)@, depths),
    ensures
        r matches Some(p) ==> {
            &&& p@.len() >= 1
            &&& p@[0] == start
            &&& p@.last() == needle
            &&& valid_path(graph@, p@)
            &&& p@.no_duplicates()
            &&& (start == needle ==> p@ == seq![start])
            &&& reachable(graph@, start, needle)
            &&& forall|q: Seq<char>|
                path_between(graph@, q, start, needle) ==> q.len() >= p@.len()
        },
        r is None ==> {
            &&& old(visited)@.is_prefix_of(final(visited)@)
            &&& !final(visited)@.contains(needle)
            &&& forall|v: char|
                #[trigger] final(visited)@.contains(v) ==> closed_at(graph@, v, final(visited)@)
        },
    decreases universe(graph@, start).len() - old(visited)@.len(), old(queue)@.len(),
{
    proof {
        lemma_distinct_subseq_len(old(visited)@, universe(graph@, start));
        lemma_levels_facts(graph@, old(visited)@, old(queue)@, old(predecessors)@, depths);
    }
    if queue.len() == 0 {
        proof {
            assert(old(visited)@.is_prefix_of(visited@));
        }
        return None;
    }
    let ghost pre_q = queue@;
    let ghost pre_v = visited@;
    let ghost pre_p = predecessors@;
    let ghost pi = pre_v.len() - pre_q.len();
    let current = queue.remove(0);
    proof {
        assert(pre_q.contains(current)) by {
            assert(pre_q[0] == current);
        }
        assert forall|i: int| 0 <= i < queue@.len() implies visited@.contains(
            #[trigger] queue@[i],
        ) by {
            assert(queue@[i] == pre_q[i + 1]);
        }
    }
    if current == needle {
        let path = build_path(&predecessors, needle, Ghost(visited@), Ghost(start));
        proof {
            assert(!map_has_key(predecessors@, '\0'));
            lemma_path_edges(graph@, predecessors@, start, path@);
            assert(path_between(graph@, path@, start, needle));
            lemma_levels_minimality(
                graph@,
                visited@,
                pre_q,
                predecessors@,
                depths,
                start,
                needle,
                path@,
            );
        }
        return Some(path);
    }
    let ghost mid_q = queue@;
    let ghost mut depths_now: Seq<int> = depths;
    match graph.get(current) {
        Some(neighbors) => {
            let new_depths = visit_neighbors(
                neighbors,
                current,
                queue,
                visited,
                predecessors,
                Ghost(graph@),
                Ghost(start),
                Ghost(depths),
                Ghost(depths[pi]),
            );
            proof {
                assert forall|w: char| edge(graph@, current, w) implies visited@.contains(
                    w,
                ) by {
                    let wq = choose|wq: int|
                        0 <= wq < map_value(graph@, current).len() && map_value(
                            graph@,
                            current,
                        )[wq] == w;
                    assert(visited@.contains(neighbors@[wq]));
                }
                depths_now = new_depths@;
                lemma_levels_step(
                    graph@,
                    pre_v,
                    pre_q,
                    pre_p,
                    depths,
                    visited@,
                    queue@,
                    predecessors@,
                    depths_now,
                    current,
                );
                lemma_bfs_closure_step(
                    graph@,
                    pre_v,
                    pre_q,
                    visited@,
                    queue@,
                    current,
                    map_value(graph@, current),
                );
                assert(visited@.contains(needle) ==> queue@.contains(needle)) by {
                    if visited@.contains(needle) {
                        if pre_v.contains(needle) {
                            assert(pre_q.contains(needle));
                            let k = choose|k: int| 0 <= k < pre_q.len() && pre_q[k] == needle;
                            assert(k != 0);
                            assert(mid_q[k - 1] == needle);
                            assert(mid_q.is_prefix_of(queue@));
                            assert(queue@[k - 1] == needle);
                        }
                    }
                }
            }
        },
        None => {
            proof {
                assert forall|v: char|
                    #[trigger] visited@.contains(v) && !queue@.contains(v) implies closed_at(
                    graph@,
                    v,
                    visited@,
                ) by {
                    if v == current {
                        assert(!map_has_key(graph@, current));
                    } else {
                        if pre_q.contains(v) {
                            let k = choose|k: int| 0 <= k < pre_q.len() && pre_q[k] == v;
                            assert(k != 0);
                            assert(queue@[k - 1] == v);
                        }
                    }
                }
                assert(visited@.contains(needle) ==> queue@.contains(needle)) by {
                    if visited@.contains(needle) {
                        assert(pre_q.contains(needle));
                        let k = choose|k: int| 0 <= k < pre_q.len() && pre_q[k] == needle;
                        assert(k != 0);
                        assert(queue@[k - 1] == needle);
                    }
                }
                lemma_levels_skip(graph@, visited@, pre_q, predecessors@, depths, current);
            }
        },
    }
    proof {
        lemma_distinct_subseq_len(visited@, universe(graph@, start));
    }
    let ghost mid_v = visited@;
    let r = breadth_first_search_recursive(
        graph,
        queue,
        visited,
        predecessors,
        needle,
        Ghost(start),
        Ghost(depths_now),
    );
    proof {
        if r is None {
            assert(old(visited)@.is_prefix_of(visited@)) by {
                assert(pre_v.is_prefix_of(mid_v));
                assert(mid_v.is_prefix_of(visited@));
                assert forall|k: int| 0 <= k < pre_v.len() implies pre_v[k] == visited@[k] by {
                    assert(pre_v[k] == mid_v[k]);
                }
            }
        }
    }
    r
}

/// Prepares the bookkeeping for a breadth-first search from `start` and runs
/// the recursive search.
pub fn bfs_wrapper(graph: &Graph, start: char, needle: char) -> (r: Option<Vec<char>>)
    requires
        graph.wf(),
        no_null_nodes(graph@),
        start != '\0',
    ensures
        r matches Some(p) ==> {
            &&& p@.len() >= 1
            &&& p@[0] == start
            &&& p@.last() == needle
            &&& valid_path(graph@, p@)
            &&& p@.no_duplicates()
            &&& (start == needle ==> p@ == seq![start])
            &&& forall|q: Seq<char>|
                path_between(graph@, q, start, needle) ==> q.len() >= p@.len()
        },
        r is Some <==> reachable(graph@, start, needle),
{
    let mut visited: Vec<char> = Vec::new();
    let mut queue: Vec<char> = Vec::new();
    let mut predecessors: Vec<(char, char)> = Vec::new();

    queue.push(start);
    visited.push(start);
    predecessors.push((start, '\0'));

    proof {
        assert(visited@ =~= seq![start]);
        assert(queue@ =~= seq![start]);
        assert(predecessors@ =~= seq![(start, '\0')]);
        lemma_map_key_index(predecessors@, start);
        assert(map_has_key(predecessors@, start)) by {
            assert(predecessors@[0].0 == start);
        }
        assert(universe(graph@, start).contains(start)) by {
            assert(universe(graph@, start)[0] == start);
        }
        assert(visited@.contains(start)) by {
            assert(visited@[0] == start);
        }
        assert(queue@.contains(start)) by {
            assert(queue@[0] == start);
        }
        assert(predecessors@[0].0 == visited@[0]);
    }
    let ghost init_d: Seq<int> = seq![0int];
    proof {
        lemma_levels_init(graph@, start);
        assert(bfs_levels_wf(graph@, visited@, queue@, predecessors@, init_d));
    }
    let ghost init_v = visited@;
    let r = breadth_first_search_recursive(
        graph,
        &mut queue,
        &mut visited,
        &mut predecessors,
        needle,
        Ghost(start),
        Ghost(init_d),
    );
    proof {
        if r is None {
            assert(visited@.contains(start)) by {
                assert(init_v.is_prefix_of(visited@));
                assert(visited@[0] == init_v[0]);
            }
            lemma_closed_set_blocks(graph@, visited@, start, needle);
        }
    }
    r
}

} // verus!
