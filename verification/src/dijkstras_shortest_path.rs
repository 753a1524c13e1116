//! Dijkstra's shortest-path search over a weighted directed graph.
//!
//! The graph maps each node to its successors, each with an edge weight.  The
//! search grows a visited set greedily, always taking the unvisited node with
//! the smallest tentative distance, and returns a path from the start node to
//! the needle whose every step is an edge of the graph.  The selection scan
//! starts from `u32::MAX` and takes only nodes strictly below it, so that
//! distance stands for infinity; tentative sums saturate there instead of
//! overflowing, and a node whose distance reaches the sentinel is treated as
//! out of reach.  As in the other searches, `'\0'` is the sentinel that ends
//! a predecessor chain, so no node of the graph may carry it.

use crate::assoc::assoc_get;
use crate::assoc::assoc_set;
use crate::assoc::build_path;
use crate::assoc::chain_wf;
use crate::assoc::contains_char;
use crate::assoc::lemma_assoc_set_facts;
use crate::assoc::lemma_chain_relax_new;
use crate::assoc::lemma_chain_relax_update;
use crate::assoc::lemma_chain_visit;
use crate::assoc::lemma_distinct_subseq_len;
use crate::assoc::lemma_map_key_index;
use crate::assoc::map_distinct_keys;
use crate::assoc::map_has_key;
use crate::assoc::map_key_index;
use crate::assoc::map_value;
use vstd::prelude::*;

verus! {

/// A weighted directed graph: each node with its successors and the weight
/// of the edge to each of them.
pub struct WeightedGraph {
    adj: Vec<(char, Vec<(char, u32)>)>,
}

impl View for WeightedGraph {
    type V = Seq<(char, Seq<(char, u32)>)>;

    closed spec fn view(&self) -> Seq<(char, Seq<(char, u32)>)> {
        self.adj@.map_values(|p: (char, Vec<(char, u32)>)| (p.0, p.1@))
    }
}

/// There is an edge from `a` to `b`, of some weight.
pub open spec fn edge_w(g: Seq<(char, Seq<(char, u32)>)>, a: char, b: char) -> bool {
    map_has_key(g, a) && exists|j: int|
        0 <= j < map_value(g, a).len() && (#[trigger] map_value(g, a)[j]).0 == b
}

/// Consecutive elements of `p` are connected by edges of `g`.
pub open spec fn valid_path_w(g: Seq<(char, Seq<(char, u32)>)>, p: Seq<char>) -> bool {
    forall|i: int| 0 <= i < p.len() - 1 ==> edge_w(g, #[trigger] p[i], p[i + 1])
}

/// `p` is a path of `g` that leads from `a` to `b`.
pub open spec fn path_between_w(
    g: Seq<(char, Seq<(char, u32)>)>,
    p: Seq<char>,
    a: char,
    b: char,
) -> bool {
    &&& p.len() >= 1
    &&& p[0] == a
    &&& p.last() == b
    &&& valid_path_w(g, p)
}

/// Some path of the graph leads from `a` to `b`.
pub open spec fn reachable_w(g: Seq<(char, Seq<(char, u32)>)>, a: char, b: char) -> bool {
    exists|p: Seq<char>| path_between_w(g, p, a, b)
}

/// Every weighted edge leaving `v` stays inside `set`.
pub open spec fn closed_at_w(g: Seq<(char, Seq<(char, u32)>)>, v: char, set: Seq<char>) -> bool {
    forall|w: char| edge_w(g, v, w) ==> set.contains(w)
}

/// Every weighted edge leaving `v` lands on a node with a tentative distance.
pub open spec fn successors_known(
    g: Seq<(char, Seq<(char, u32)>)>,
    v: char,
    dist: Seq<(char, u32)>,
) -> bool {
    forall|w: char| edge_w(g, v, w) ==> map_has_key(dist, w)
}

/// Nothing outside a set that contains the start and is closed under
/// weighted edges can be reached from the start.
pub proof fn lemma_closed_set_blocks_w(
    g: Seq<(char, Seq<(char, u32)>)>,
    set: Seq<char>,
    start: char,
    needle: char,
)
    requires
        set.contains(start),
        forall|v: char| set.contains(v) ==> closed_at_w(g, v, set),
        !set.contains(needle),
    ensures
        !reachable_w(g, start, needle),
{
    if reachable_w(g, start, needle) {
        let p = choose|p: Seq<char>| path_between_w(g, p, start, needle);
        lemma_path_stays_inside_w(g, set, p, p.len() - 1);
    }
}

/// Along a valid weighted path that starts inside a closed set, every
/// position stays inside the set.
proof fn lemma_path_stays_inside_w(
    g: Seq<(char, Seq<(char, u32)>)>,
    set: Seq<char>,
    p: Seq<char>,
    i: int,
)
    requires
        forall|v: char| set.contains(v) ==> closed_at_w(g, v, set),
        p.len() >= 1,
        set.contains(p[0]),
        valid_path_w(g, p),
        0 <= i < p.len(),
    ensures
        set.contains(p[i]),
    decreases i,
{
    if i > 0 {
        lemma_path_stays_inside_w(g, set, p, i - 1);
        assert(edge_w(g, p[i - 1], p[i]));
    }
}

/// Neither a node nor a successor of the graph is the `'\0'` sentinel.
pub open spec fn no_null_nodes_w(g: Seq<(char, Seq<(char, u32)>)>) -> bool {
    &&& forall|i: int| 0 <= i < g.len() ==> (#[trigger] g[i]).0 != '\0'
    &&& forall|i: int, j: int|
        0 <= i < g.len() && 0 <= j < g[i].1.len() ==> (#[trigger] g[i].1[j]).0 != '\0'
}

/// Every character the graph mentions: its nodes and their successors.
pub open spec fn all_nodes_w(g: Seq<(char, Seq<(char, u32)>)>) -> Seq<char>
    decreases g.len(),
{
    if g.len() == 0 {
        Seq::empty()
    } else {
        seq![g[0].0] + g[0].1.map_values(|p: (char, u32)| p.0) + all_nodes_w(g.skip(1))
    }
}

/// Both a node and each of its successors appear in `all_nodes_w`.
pub proof fn lemma_all_nodes_w(g: Seq<(char, Seq<(char, u32)>)>)
    ensures
        forall|i: int| 0 <= i < g.len() ==> all_nodes_w(g).contains((#[trigger] g[i]).0),
        forall|i: int, j: int|
            0 <= i < g.len() && 0 <= j < g[i].1.len() ==> all_nodes_w(g).contains(
                (#[trigger] g[i].1[j]).0,
            ),
    decreases g.len(),
{
    if g.len() > 0 {
        lemma_all_nodes_w(g.skip(1));
        let head = seq![g[0].0] + g[0].1.map_values(|p: (char, u32)| p.0);
        assert forall|i: int| 0 <= i < g.len() implies all_nodes_w(g).contains(
            (#[trigger] g[i]).0,
        ) by {
            if i == 0 {
                assert(all_nodes_w(g)[0] == g[0].0);
            } else {
                let k = choose|k: int|
                    0 <= k < all_nodes_w(g.skip(1)).len() && all_nodes_w(g.skip(1))[k] == g.skip(
                        1,
                    )[i - 1].0;
                assert(all_nodes_w(g)[head.len() + k] == g[i].0);
            }
        }
        assert forall|i: int, j: int|
            0 <= i < g.len() && 0 <= j < g[i].1.len() implies all_nodes_w(g).contains(
            (#[trigger] g[i].1[j]).0,
        ) by {
            if i == 0 {
                assert(g[0].1.map_values(|p: (char, u32)| p.0)[j] == g[0].1[j].0);
                assert(all_nodes_w(g)[1 + j] == g[0].1[j].0);
            } else {
                assert(g.skip(1)[i - 1].1[j] == g[i].1[j]);
                let k = choose|k: int|
                    0 <= k < all_nodes_w(g.skip(1)).len() && all_nodes_w(g.skip(1))[k] == g.skip(
                        1,
                    )[i - 1].1[j].0;
                assert(all_nodes_w(g)[head.len() + k] == g[i].1[j].0);
            }
        }
    }
}

/// The pool the search can ever visit: the start node and every character
/// that the graph mentions.
pub open spec fn universe_w(g: Seq<(char, Seq<(char, u32)>)>, start: char) -> Seq<char> {
    seq![start] + all_nodes_w(g)
}

impl WeightedGraph {
    /// Each node appears at most once.
    pub open spec fn wf(&self) -> bool {
        map_distinct_keys(self@)
    }

    /// Creates a graph with no nodes.
    pub fn new() -> (g: WeightedGraph)
        ensures
            g.wf(),
            g@ == Seq::<(char, Seq<(char, u32)>)>::empty(),
    {
        let g = WeightedGraph { adj: Vec::new() };
        proof {
            assert(g@ =~= Seq::<(char, Seq<(char, u32)>)>::empty());
        }
        g
    }

    /// Position of `node` among the adjacency pairs; the length marks absence.
    fn key_slot(&self, node: char) -> (r: usize)
        ensures
            r == map_key_index(self@, node),
    {
        proof {
            lemma_map_key_index(self@, node);
        }
        let n = self.adj.len();
        let mut i: usize = 0;
        while i < n
            invariant
                0 <= i <= n,
                n == self@.len(),
                self@.len() == self.adj@.len(),
                forall|j: int| 0 <= j < self@.len() ==> (#[trigger] self@[j]).0 == self.adj@[j].0,
                forall|j: int| 0 <= j < i ==> self@[j].0 != node,
            decreases n - i,
        {
            if self.adj[i].0 == node {
                proof {
                    assert(self@[i as int].0 == node);
                    lemma_map_key_index(self@, node);
                    if map_key_index(self@, node) < i {
                        assert(self@[map_key_index(self@, node)].0 != node);
                    }
                }
                return i;
            }
            i += 1;
        }
        proof {
            lemma_map_key_index(self@, node);
        }
        n
    }

    /// Binds `node` to its weighted successor list, replacing any earlier
    /// binding.
    pub fn insert(&mut self, node: char, neighbors: Vec<(char, u32)>)
        ensures
            map_has_key(old(self)@, node) ==> final(self)@ == old(self)@.update(
                map_key_index(old(self)@, node),
                (node, neighbors@),
            ),
            !map_has_key(old(self)@, node) ==> final(self)@ == old(self)@.push(
                (node, neighbors@),
            ),
            old(self).wf() ==> final(self).wf(),
            forall|k: char|
                map_has_key(final(self)@, k) <==> (map_has_key(old(self)@, k) || k == node),
            old(self).wf() ==> map_value(final(self)@, node) == neighbors@,
            old(self).wf() ==> forall|k: char|
                map_has_key(old(self)@, k) && k != node ==> map_value(final(self)@, k)
                    == map_value(old(self)@, k),
    {
        proof {
            lemma_map_key_index(self@, node);
        }
        let ghost ns = neighbors@;
        let slot = self.key_slot(node);
        if slot < self.adj.len() {
            self.adj[slot] = (node, neighbors);
            proof {
                assert(self@ =~= old(self)@.update(map_key_index(old(self)@, node), (node, ns)));
                lemma_assoc_set_facts(old(self)@, self@, node, ns);
            }
        } else {
            self.adj.push((node, neighbors));
            proof {
                assert(self@ =~= old(self)@.push((node, ns)));
                lemma_assoc_set_facts(old(self)@, self@, node, ns);
            }
        }
    }

    /// The weighted successor list bound to `node`, if any.
    pub fn get(&self, node: char) -> (r: Option<&Vec<(char, u32)>>)
        ensures
            r is Some <==> map_has_key(self@, node),
            r matches Some(ns) ==> ns@ == map_value(self@, node),
    {
        proof {
            lemma_map_key_index(self@, node);
        }
        let slot = self.key_slot(node);
        if slot < self.adj.len() {
            Some(&self.adj[slot].1)
        } else {
            None
        }
    }
}

/// The bookkeeping invariant of a shortest-path search in flight: the
/// distance and predecessor maps list the same nodes in the same order, all
/// drawn from the graph, and the predecessor links are recorded edges whose
/// chains lead back to the start.
pub open spec fn dij_state_wf(
    g: Seq<(char, Seq<(char, u32)>)>,
    visited: Seq<char>,
    dist: Seq<(char, u32)>,
    pred: Seq<(char, char)>,
    start: char,
) -> bool {
    &&& chain_wf(pred, visited, start)
    &&& map_distinct_keys(dist)
    &&& dist.len() == pred.len()
    &&& forall|i: int| 0 <= i < dist.len() ==> (#[trigger] dist[i]).0 == pred[i].0
    &&& forall|i: int|
        0 <= i < dist.len() ==> universe_w(g, start).contains((#[trigger] dist[i]).0)
            && dist[i].0 != '\0'
    &&& (visited.len() >= 1 ==> visited[0] == start)
    &&& (visited.len() == 0 ==> dist.len() == 1 && dist[0] == (start, 0u32))
    &&& forall|i: int|
        0 <= i < pred.len() && (#[trigger] pred[i]).0 != start ==> edge_w(g, pred[i].1, pred[i].0)
}

/// An unvisited node with the smallest tentative distance, where the
/// distance `u32::MAX` stands for infinity: a node whose tentative distance
/// is still the sentinel is never selected, and `None` comes back exactly
/// when no unvisited node sits below the sentinel.
pub fn get_closest_unvisited_node(distances: &Vec<(char, u32)>, visited: &Vec<char>) -> (r:
    Option<char>)
    requires
        map_distinct_keys(distances@),
    ensures
        r matches Some(c) ==> {
            &&& map_has_key(distances@, c)
            &&& !visited@.contains(c)
            &&& map_value(distances@, c) < u32::MAX
            &&& forall|i: int|
                0 <= i < distances@.len() && !visited@.contains((#[trigger] distances@[i]).0)
                    ==> map_value(distances@, c) <= distances@[i].1
        },
        r is None <==> forall|i: int|
            0 <= i < distances@.len() ==> visited@.contains((#[trigger] distances@[i]).0)
                || distances@[i].1 == u32::MAX,
{
    let mut closest_node: Option<char> = None;
    let mut closest_distance: u32 = u32::MAX;
    let n = distances.len();
    let mut i: usize = 0;
    while i < n
        invariant
            map_distinct_keys(distances@),
            0 <= i <= n,
            n == distances@.len(),
            closest_node matches Some(c) ==> {
                &&& map_has_key(distances@, c)
                &&& !visited@.contains(c)
                &&& map_value(distances@, c) == closest_distance
                &&& closest_distance < u32::MAX
            },
            closest_node is None ==> closest_distance == u32::MAX,
            forall|j: int|
                0 <= j < i && !visited@.contains((#[trigger] distances@[j]).0)
                    ==> closest_distance <= distances@[j].1,
        decreases n - i,
    {
        let node = distances[i].0;
        let distance = distances[i].1;
        if !contains_char(visited, node) && distance < closest_distance {
            proof {
                lemma_map_key_index(distances@, node);
                assert(map_has_key(distances@, node)) by {
                    assert(distances@[i as int].0 == node);
                }
                let q = map_key_index(distances@, node);
                if q != i {
                    assert(distances@[q].0 == node);
                }
                assert(map_value(distances@, node) == distance);
            }
            closest_node = Some(node);
            closest_distance = distance;
        }
        i += 1;
    }
    proof {
        match closest_node {
            Option::Some(c) => {
                lemma_map_key_index(distances@, c);
                let q = map_key_index(distances@, c);
                assert(distances@[q].0 == c);
                assert(distances@[q].1 == map_value(distances@, c));
            },
            Option::None => {},
        }
    }
    closest_node
}

/// Relaxes the edges leaving `current`: every unvisited successor whose
/// distance through `current` improves (or is new) gets that distance and
/// `current` as its predecessor.
fn relax_neighbors(
    neighbors: &Vec<(char, u32)>,
    current: char,
    base: u32,
    visited: &Vec<char>,
    distances: &mut Vec<(char, u32)>,
    predecessors: &mut Vec<(char, char)>,
    Ghost(g): Ghost<Seq<(char, Seq<(char, u32)>)>>,
    Ghost(start): Ghost<char>,
)
    requires
        map_distinct_keys(g),
        no_null_nodes_w(g),
        start != '\0',
        dij_state_wf(g, visited@, old(distances)@, old(predecessors)@, start),
        visited@.len() >= 1,
        visited@.contains(current),
        map_has_key(g, current),
        neighbors@ == map_value(g, current),
    ensures
        dij_state_wf(g, visited@, final(distances)@, final(predecessors)@, start),
        forall|k: char| map_has_key(old(distances)@, k) ==> map_has_key(final(distances)@, k),
        successors_known(g, current, final(distances)@),
{
    let n = neighbors.len();
    let mut j: usize = 0;
    while j < n
        invariant
            map_distinct_keys(g),
            no_null_nodes_w(g),
            start != '\0',
            dij_state_wf(g, visited@, distances@, predecessors@, start),
            visited@.len() >= 1,
            visited@.contains(current),
            map_has_key(g, current),
            neighbors@ == map_value(g, current),
            0 <= j <= n,
            n == neighbors@.len(),
            forall|k: char| map_has_key(old(distances)@, k) ==> map_has_key(distances@, k),
            forall|jj: int|
                0 <= jj < j ==> map_has_key(distances@, (#[trigger] neighbors@[jj]).0),
        decreases n - j,
    {
        let to = neighbors[j].0;
        let weight = neighbors[j].1;
        proof {
            lemma_map_key_index(g, current);
            lemma_all_nodes_w(g);
            let ki = map_key_index(g, current);
            assert(g[ki].1 == neighbors@);
            assert(all_nodes_w(g).contains(g[ki].1[j as int].0));
            assert(to != '\0');
            assert(universe_w(g, start).contains(to)) by {
                let k = choose|k: int|
                    0 <= k < all_nodes_w(g).len() && all_nodes_w(g)[k] == to;
                assert(universe_w(g, start)[1 + k] == to);
            }
            assert(edge_w(g, current, to)) by {
                assert(map_value(g, current)[j as int].0 == to);
            }
        }
        let to_was_visited = contains_char(visited, to);
        proof {
            if to_was_visited {
                assert(map_has_key(predecessors@, to));
                let q = choose|q: int|
                    0 <= q < predecessors@.len() && predecessors@[q].0 == to;
                assert(distances@[q].0 == to);
            }
        }
        if !to_was_visited {
            proof {
                assert(to != start) by {
                    assert(visited@[0] == start);
                    assert(visited@.contains(start));
                }
            }
            let new_distance = base.saturating_add(weight);
            let ghost pre_d = distances@;
            let ghost pre_p = predecessors@;
            let known = assoc_get(distances, to);
            let improves = match known {
                None => true,
                Some(d) => new_distance < d,
            };
            if improves {
                proof {
                    lemma_map_key_index(pre_d, to);
                    lemma_map_key_index(pre_p, to);
                    assert(map_has_key(pre_d, to) <==> map_has_key(pre_p, to)) by {
                        if map_has_key(pre_d, to) {
                            let q = choose|q: int| 0 <= q < pre_d.len() && pre_d[q].0 == to;
                            assert(pre_p[q].0 == to);
                        }
                        if map_has_key(pre_p, to) {
                            let q = choose|q: int| 0 <= q < pre_p.len() && pre_p[q].0 == to;
                            assert(pre_d[q].0 == to);
                        }
                    }
                }
                assoc_set(distances, to, new_distance);
                assoc_set(predecessors, to, current);
                proof {
                    if map_has_key(pre_p, to) {
                        crate::assoc::lemma_key_index_pointwise(pre_d, pre_p, to);
                        lemma_chain_relax_update(pre_p, visited@, start, to, current);
                    } else {
                        lemma_chain_relax_new(pre_p, visited@, start, to, current);
                    }
                    assert forall|i: int| 0 <= i < distances@.len() implies (
                    #[trigger] distances@[i]).0 == predecessors@[i].0 by {
                        if i < pre_d.len() {
                            assert(distances@[i].0 == pre_d[i].0);
                            assert(predecessors@[i].0 == pre_p[i].0);
                        }
                    }
                    assert forall|i: int|
                        0 <= i < distances@.len() implies universe_w(g, start).contains(
                        (#[trigger] distances@[i]).0,
                    ) && distances@[i].0 != '\0' by {
                        if i < pre_d.len() {
                            assert(distances@[i].0 == pre_d[i].0);
                        }
                    }
                    assert forall|i: int|
                        0 <= i < predecessors@.len() && (#[trigger] predecessors@[i]).0
                            != start implies edge_w(g, predecessors@[i].1, predecessors@[i].0) by {
                        if map_has_key(pre_p, to) {
                            let ix = map_key_index(pre_p, to);
                            if i != ix {
                                assert(predecessors@[i] == pre_p[i]);
                            } else {
                                assert(predecessors@[i] == (to, current));
                            }
                        } else {
                            if i < pre_p.len() {
                                assert(predecessors@[i] == pre_p[i]);
                            } else {
                                assert(predecessors@[i] == (to, current));
                            }
                        }
                    }
                }
            }
        }
        proof {
            assert forall|jj: int| 0 <= jj < j + 1 implies map_has_key(
                distances@,
                (#[trigger] neighbors@[jj]).0,
            ) by {
            }
        }
        j += 1;
    }
    proof {
        assert forall|w: char| edge_w(g, current, w) implies map_has_key(distances@, w) by {
            let q = choose|q: int|
                0 <= q < map_value(g, current).len() && (#[trigger] map_value(g, current)[q]).0
                    == w;
            assert(map_has_key(distances@, neighbors@[q].0));
        }
    }
}

/// A path whose steps all come from a predecessor map with recorded weighted
/// edges is a valid path of the weighted graph.
pub(crate) proof fn lemma_path_edges_w(
    g: Seq<(char, Seq<(char, u32)>)>,
    pred: Seq<(char, char)>,
    start: char,
    p: Seq<char>,
)
    requires
        map_distinct_keys(pred),
        forall|i: int|
            0 <= i < pred.len() && (#[trigger] pred[i]).0 != start ==> edge_w(
                g,
                pred[i].1,
                pred[i].0,
            ),
        map_has_key(pred, start),
        map_value(pred, start) == '\0',
        !map_has_key(pred, '\0'),
        start != '\0',
        p.len() >= 1,
        p[0] == start,
        forall|i: int|
            0 <= i < p.len() - 1 ==> map_has_key(pred, #[trigger] p[i + 1]) && map_value(
                pred,
                p[i + 1],
            ) == p[i],
    ensures
        valid_path_w(g, p),
{
    assert forall|i: int| 0 <= i < p.len() - 1 implies edge_w(g, #[trigger] p[i], p[i + 1]) by {
        lemma_map_key_index(pred, p[i + 1]);
        let k = map_key_index(pred, p[i + 1]);
        assert(pred[k].0 == p[i + 1]);
        assert(pred[k].1 == p[i]);
        if p[i + 1] == start {
            assert(p[i] == '\0');
            if i > 0 {
                assert(map_has_key(pred, p[(i - 1) + 1]));
            }
        }
    }
}

/// Greedy shortest-path search: repeatedly visits the unvisited node with
/// the smallest tentative distance and relaxes its outgoing edges.  Returns a
/// path from `start` to `needle`, every step of which is an edge of the
/// graph.  A tentative distance of `u32::MAX` stands for infinity, exactly as
/// in the selection scan: a node whose distance saturates there is treated as
/// out of reach.
pub fn dijkstras_shortest_path(graph: &WeightedGraph, start: char, needle: char) -> (r: Option<
    Vec<char>,
>)
    requires
        graph.wf(),
        no_null_nodes_w(graph@),
        start != '\0',
    ensures
        r matches Some(p) ==> {
            &&& p@.len() >= 1
            &&& p@[0] == start
            &&& p@.last() == needle
            &&& valid_path_w(graph@, p@)
            &&& p@.no_duplicates()
            &&& (start == needle ==> p@ == seq![start])
            &&& reachable_w(graph@, start, needle)
        },
        start == needle ==> r is Some,
{
    let mut visited: Vec<char> = Vec::new();
    let mut distances: Vec<(char, u32)> = Vec::new();
    let mut predecessors: Vec<(char, char)> = Vec::new();

    distances.push((start, 0));
    predecessors.push((start, '\0'));

    proof {
        assert(distances@ =~= seq![(start, 0u32)]);
        assert(predecessors@ =~= seq![(start, '\0')]);
        lemma_map_key_index(predecessors@, start);
        assert(map_has_key(predecessors@, start)) by {
            assert(predecessors@[0].0 == start);
        }
        assert(universe_w(graph@, start).contains(start)) by {
            assert(universe_w(graph@, start)[0] == start);
        }
        assert(map_has_key(distances@, start)) by {
            assert(distances@[0].0 == start);
        }
    }
    loop
        invariant
            graph.wf(),
            no_null_nodes_w(graph@),
            start != '\0',
            dij_state_wf(graph@, visited@, distances@, predecessors@, start),
            !visited@.contains(needle),
        decreases universe_w(graph@, start).len() - visited@.len(),
    {
        proof {
            assert forall|i: int| 0 <= i < visited@.len() implies universe_w(
                graph@,
                start,
            ).contains(#[trigger] visited@[i]) by {
                assert(map_has_key(predecessors@, visited@[i]));
                let q = choose|q: int|
                    0 <= q < predecessors@.len() && predecessors@[q].0 == visited@[i];
                assert(distances@[q].0 == visited@[i]);
            }
            lemma_distinct_subseq_len(visited@, universe_w(graph@, start));
        }
        match get_closest_unvisited_node(&distances, &visited) {
            None => {
                proof {
                    if start == needle {
                        if visited@.len() == 0 {
                            assert(distances@[0] == (start, 0u32));
                            assert(visited@.contains(distances@[0].0) || distances@[0].1
                                == u32::MAX);
                            assert(false);
                        } else {
                            assert(visited@.contains(start)) by {
                                assert(visited@[0] == start);
                            }
                            assert(false);
                        }
                    }
                }
                return None;
            },
            Some(current) => {
                proof {
                    assert(map_has_key(predecessors@, current)) by {
                        let q = choose|q: int|
                            0 <= q < distances@.len() && distances@[q].0 == current;
                        assert(predecessors@[q].0 == current);
                    }
                    assert(current != '\0') by {
                        let q = choose|q: int|
                            0 <= q < distances@.len() && distances@[q].0 == current;
                        assert(distances@[q].0 != '\0');
                    }
                }
                if current == needle {
                    let path = build_path(
                        &predecessors,
                        needle,
                        Ghost(visited@),
                        Ghost(start),
                    );
                    proof {
                        assert(!map_has_key(predecessors@, '\0')) by {
                            if map_has_key(predecessors@, '\0') {
                                let q = choose|q: int|
                                    0 <= q < predecessors@.len() && predecessors@[q].0 == '\0';
                                assert(distances@[q].0 == '\0');
                            }
                        }
                        lemma_path_edges_w(graph@, predecessors@, start, path@);
                        assert(path_between_w(graph@, path@, start, needle));
                    }
                    return Some(path);
                }
                let base = assoc_get(&distances, current).unwrap();
                let ghost pre_v = visited@;
                visited.push(current);
                proof {
                    lemma_chain_visit(predecessors@, pre_v, start, current);
                    assert(visited@[0] == start) by {
                        if pre_v.len() == 0 {
                            assert(distances@[0] == (start, 0u32));
                            lemma_map_key_index(distances@, current);
                            let q = map_key_index(distances@, current);
                            assert(distances@[q].0 == current);
                            assert(q == 0);
                        } else {
                            assert(visited@[0] == pre_v[0]);
                        }
                    }
                    assert(visited@.contains(current)) by {
                        assert(visited@.last() == current);
                    }
                }
                let ghost pre_d = distances@;
                match graph.get(current) {
                    Some(neighbors) => {
                        relax_neighbors(
                            neighbors,
                            current,
                            base,
                            &visited,
                            &mut distances,
                            &mut predecessors,
                            Ghost(graph@),
                            Ghost(start),
                        );
                    },
                    None => {},
                }
                proof {
                    assert(!visited@.contains(needle)) by {
                        if visited@.contains(needle) {
                            let k = choose|k: int|
                                0 <= k < visited@.len() && visited@[k] == needle;
                            if k < pre_v.len() {
                                assert(pre_v[k] == needle);
                            }
                        }
                    }
                    assert forall|i: int| 0 <= i < visited@.len() implies universe_w(
                        graph@,
                        start,
                    ).contains(#[trigger] visited@[i]) by {
                        assert(map_has_key(predecessors@, visited@[i]));
                        let q = choose|q: int|
                            0 <= q < predecessors@.len() && predecessors@[q].0 == visited@[i];
                        assert(distances@[q].0 == visited@[i]);
                    }
                    lemma_distinct_subseq_len(visited@, universe_w(graph@, start));
                }
            },
        }
    }
}

/// Recursive formulation of the greedy shortest-path search: each call
/// visits `current`, relaxes its outgoing edges, and recurses on the closest
/// remaining node.
pub fn dijkstras_shortest_path_recursive(
    graph: &WeightedGraph,
    visited: &mut Vec<char>,
    distances: &mut Vec<(char, u32)>,
    predecessors: &mut Vec<(char, char)>,
    current: char,
    needle: char,
    Ghost(start): Ghost<char>,
) -> (r: Option<Vec<char>>)
    requires
        graph.wf(),
        no_null_nodes_w(graph@),
        start != '\0',
        dij_state_wf(graph@, old(visited)@, old(distances)@, old(predecessors)@, start),
        !old(visited)@.contains(current),
        map_has_key(old(distances)@, current),
        old(visited)@.len() == 0 ==> current == start,
    ensures
        r matches Some(p) ==> {
            &&& p@.len() >= 1
            &&& p@[0] == start
            &&& p@.last() == needle
            &&& valid_path_w(graph@, p@)
            &&& p@.no_duplicates()
            &&& (start == needle ==> p@ == seq![start])
            &&& reachable_w(graph@, start, needle)
        },
        current == needle ==> r is Some,
    decreases universe_w(graph@, start).len() - old(visited)@.len(),
{
    proof {
        assert forall|i: int| 0 <= i < visited@.len() implies universe_w(graph@, start).contains(
            #[trigger] visited@[i],
        ) by {
            assert(map_has_key(predecessors@, visited@[i]));
            let q = choose|q: int|
                0 <= q < predecessors@.len() && predecessors@[q].0 == visited@[i];
            assert(distances@[q].0 == visited@[i]);
        }
        lemma_distinct_subseq_len(visited@, universe_w(graph@, start));
        assert(map_has_key(predecessors@, current)) by {
            let q = choose|q: int| 0 <= q < distances@.len() && distances@[q].0 == current;
            assert(predecessors@[q].0 == current);
        }
        assert(current != '\0') by {
            let q = choose|q: int| 0 <= q < distances@.len() && distances@[q].0 == current;
            assert(distances@[q].0 != '\0');
        }
    }
    if current == needle {
        let path = build_path(&predecessors, needle, Ghost(visited@), Ghost(start));
        proof {
            assert(!map_has_key(predecessors@, '\0')) by {
                if map_has_key(predecessors@, '\0') {
                    let q = choose|q: int|
                        0 <= q < predecessors@.len() && predecessors@[q].0 == '\0';
                    assert(distances@[q].0 == '\0');
                }
            }
            lemma_path_edges_w(graph@, predecessors@, start, path@);
            assert(path_between_w(graph@, path@, start, needle));
        }
        return Some(path);
    }
    let base = assoc_get(&distances, current).unwrap();
    let ghost pre_v = visited@;
    visited.push(current);
    proof {
        lemma_chain_visit(predecessors@, pre_v, start, current);
        assert(visited@[0] == start) by {
            if pre_v.len() == 0 {
                assert(distances@[0] == (start, 0u32));
                lemma_map_key_index(distances@, current);
                let q = map_key_index(distances@, current);
                assert(distances@[q].0 == current);
                assert(q == 0);
            } else {
                assert(visited@[0] == pre_v[0]);
            }
        }
        assert(visited@.contains(current)) by {
            assert(visited@.last() == current);
        }
    }
    match graph.get(current) {
        Some(neighbors) => {
            relax_neighbors(
                neighbors,
                current,
                base,
                visited,
                distances,
                predecessors,
                Ghost(graph@),
                Ghost(start),
            );
        },
        None => {},
    }
    proof {
        assert forall|i: int| 0 <= i < visited@.len() implies universe_w(graph@, start).contains(
            #[trigger] visited@[i],
        ) by {
            assert(map_has_key(predecessors@, visited@[i]));
            let q = choose|q: int|
                0 <= q < predecessors@.len() && predecessors@[q].0 == visited@[i];
            assert(distances@[q].0 == visited@[i]);
        }
        lemma_distinct_subseq_len(visited@, universe_w(graph@, start));
    }
    match get_closest_unvisited_node(&distances, &visited) {
        Some(next) => dijkstras_shortest_path_recursive(
            graph,
            visited,
            distances,
            predecessors,
            next,
            needle,
            Ghost(start),
        ),
        None => None,
    }
}

/// Prepares the seeding the recursive search expects — the start node at
/// distance zero, anchoring its own predecessor chain — and runs it.
pub fn dijkstra_wrapper(graph: &WeightedGraph, start: char, needle: char) -> (r: Option<
    Vec<char>,
>)
    requires
        graph.wf(),
        no_null_nodes_w(graph@),
        start != '\0',
    ensures
        r matches Some(p) ==> {
            &&& p@.len() >= 1
            &&& p@[0] == start
            &&& p@.last() == needle
            &&& valid_path_w(graph@, p@)
            &&& p@.no_duplicates()
            &&& (start == needle ==> p@ == seq![start])
            &&& reachable_w(graph@, start, needle)
        },
        start == needle ==> r is Some,
{
    let mut visited: Vec<char> = Vec::new();
    let mut distances: Vec<(char, u32)> = Vec::new();
    let mut predecessors: Vec<(char, char)> = Vec::new();

    distances.push((start, 0));
    predecessors.push((start, '\0'));

    proof {
        assert(distances@ =~= seq![(start, 0u32)]);
        assert(predecessors@ =~= seq![(start, '\0')]);
        lemma_map_key_index(predecessors@, start);
        assert(map_has_key(predecessors@, start)) by {
            assert(predecessors@[0].0 == start);
        }
        assert(universe_w(graph@, start).contains(start)) by {
            assert(universe_w(graph@, start)[0] == start);
        }
        assert(map_has_key(distances@, start)) by {
            assert(distances@[0].0 == start);
        }
    }
    dijkstras_shortest_path_recursive(
        graph,
        &mut visited,
        &mut distances,
        &mut predecessors,
        start,
        needle,
        Ghost(start),
    )
}

} // verus!
