//! Dijkstra's shortest-path search driven by a priority queue of pending
//! visits.
//!
//! Where the sibling module scans the distance map for the closest unvisited
//! node, this variant keeps a queue of `State` entries (a node and the cost
//! it was discovered with) and repeatedly takes the cheapest entry.  The
//! queue is a plain vector from which the minimum-cost entry is removed; it
//! may hold stale entries for nodes that were visited more cheaply in the
//! meantime, and those are skipped, exactly as a binary heap variant skips
//! them.  The result contract is the same: a returned path leads from the
//! start node to the needle along edges of the graph, and one is returned
//! exactly when the needle is reachable from the start.

use crate::assoc::assoc_get;
use crate::assoc::assoc_set;
use crate::assoc::build_path;
use crate::assoc::contains_char;
use crate::assoc::lemma_chain_relax_new;
use crate::assoc::lemma_chain_relax_update;
use crate::assoc::lemma_chain_visit;
use crate::assoc::lemma_distinct_subseq_len;
use crate::assoc::lemma_key_index_pointwise;
use crate::assoc::lemma_map_key_index;
use crate::assoc::map_distinct_keys;
use crate::assoc::map_has_key;
use crate::assoc::map_key_index;
use crate::assoc::map_value;
use crate::dijkstras_shortest_path::all_nodes_w;
use crate::dijkstras_shortest_path::dij_state_wf;
use crate::dijkstras_shortest_path::edge_w;
use crate::dijkstras_shortest_path::lemma_all_nodes_w;
use crate::dijkstras_shortest_path::lemma_path_edges_w;
use crate::dijkstras_shortest_path::no_null_nodes_w;
use crate::dijkstras_shortest_path::path_between_w;
use crate::dijkstras_shortest_path::reachable_w;
use crate::dijkstras_shortest_path::closed_at_w;
use crate::dijkstras_shortest_path::lemma_closed_set_blocks_w;
use crate::dijkstras_shortest_path::successors_known;
use crate::dijkstras_shortest_path::universe_w;
use crate::dijkstras_shortest_path::valid_path_w;
use crate::dijkstras_shortest_path::WeightedGraph;
use vstd::prelude::*;

verus! {

/// A pending visit: a node and the tentative cost it was discovered with.
#[derive(Clone, Copy)]
struct State {
    cost: u32,
    position: char,
}

/// Every queued node has a tentative distance.
spec fn heap_keys_known(heap: Seq<State>, dist: Seq<(char, u32)>) -> bool {
    forall|i: int| 0 <= i < heap.len() ==> map_has_key(dist, (#[trigger] heap[i]).position)
}

/// Every node with a tentative distance was either visited or still queued.
spec fn heap_covers(heap: Seq<State>, dist: Seq<(char, u32)>, visited: Seq<char>) -> bool {
    forall|i: int|
        0 <= i < dist.len() ==> visited.contains((#[trigger] dist[i]).0) || exists|j: int|
            0 <= j < heap.len() && (#[trigger] heap[j]).position == dist[i].0
}

/// Removes and returns a cheapest entry of the queue.
fn pop_cheapest(heap: &mut Vec<State>) -> (r: State)
    requires
        old(heap)@.len() >= 1,
    ensures
        exists|i: int|
            0 <= i < old(heap)@.len() && r == old(heap)@[i] && final(heap)@ == old(
                heap,
            )@.remove(i),
        final(heap)@.len() == old(heap)@.len() - 1,
{
    let mut best: usize = 0;
    let n = heap.len();
    let mut i: usize = 1;
    while i < n
        invariant
            heap@ == old(heap)@,
            n == heap@.len(),
            1 <= i <= n,
            0 <= best < i,
        decreases n - i,
    {
        if heap[i].cost < heap[best].cost {
            best = i;
        }
        i += 1;
    }
    let r = heap.remove(best);
    r
}

/// Shortest-path search over a queue of pending visits: repeatedly takes the
/// cheapest pending entry, skips it when its node was already visited, and
/// otherwise visits the node and queues its improved successors.  Returns a
/// path from `start` to `needle`, every step of which is an edge of the
/// graph.
#[verifier::rlimit(100)]
pub fn dijkstras_shortest_path(graph: &WeightedGraph, start: char, needle: char) -> (r: Option<
    Vec<char>,
>)
    requires
        graph.wf(),
        no_null_nodes_w(graph@),
        start != '\0',
    ensures
        r matches Some(p) ==> {
            &&& p@.len() >= 1
            &&& p@[0] == start
            &&& p@.last() == needle
            &&& valid_path_w(graph@, p@)
            &&& p@.no_duplicates()
            &&& (start == needle ==> p@ == seq![start])
        },
        r is Some <==> reachable_w(graph@, start, needle),
{
    let mut heap: Vec<State> = Vec::new();
    let mut visited: Vec<char> = Vec::new();
    let mut distances: Vec<(char, u32)> = Vec::new();
    let mut predecessors: Vec<(char, char)> = Vec::new();

    distances.push((start, 0));
    heap.push(State { cost: 0, position: start });
    predecessors.push((start, '\0'));

    proof {
        assert(distances@ =~= seq![(start, 0u32)]);
        assert(predecessors@ =~= seq![(start, '\0')]);
        lemma_map_key_index(predecessors@, start);
        assert(map_has_key(predecessors@, start)) by {
            assert(predecessors@[0].0 == start);
        }
        assert(map_has_key(distances@, start)) by {
            assert(distances@[0].0 == start);
        }
        assert(universe_w(graph@, start).contains(start)) by {
            assert(universe_w(graph@, start)[0] == start);
        }
        assert(heap_keys_known(heap@, distances@)) by {
            assert(heap@[0].position == start);
        }
        assert(heap_covers(heap@, distances@, visited@)) by {
            assert(heap@[0].position == distances@[0].0);
        }
    }
    while heap.len() > 0
        invariant
            graph.wf(),
            no_null_nodes_w(graph@),
            start != '\0',
            dij_state_wf(graph@, visited@, distances@, predecessors@, start),
            heap_keys_known(heap@, distances@),
            heap_covers(heap@, distances@, visited@),
            map_has_key(distances@, start),
            !visited@.contains(needle),
            forall|i: int|
                0 <= i < visited@.len() ==> successors_known(
                    graph@,
                    #[trigger] visited@[i],
                    distances@,
                ),
        decreases universe_w(graph@, start).len() - visited@.len(), heap@.len(),
    {
        proof {
            assert forall|i: int| 0 <= i < visited@.len() implies universe_w(
                graph@,
                start,
            ).contains(#[trigger] visited@[i]) by {
                assert(map_has_key(predecessors@, visited@[i]));
                let q = choose|q: int|
                    0 <= q < predecessors@.len() && predecessors@[q].0 == visited@[i];
                assert(distances@[q].0 == visited@[i]);
            }
            lemma_distinct_subseq_len(visited@, universe_w(graph@, start));
        }
        let ghost pre_h = heap@;
        let popped = pop_cheapest(&mut heap);
        let position = popped.position;
        let cost = popped.cost;
        proof {
            let i = choose|i: int|
                0 <= i < pre_h.len() && popped == pre_h[i] && heap@ == pre_h.remove(i);
            assert(map_has_key(distances@, position));
            assert(position != '\0') by {
                let q = choose|q: int|
                    0 <= q < distances@.len() && distances@[q].0 == position;
                assert(distances@[q].0 != '\0');
            }
            assert(map_has_key(predecessors@, position)) by {
                let q = choose|q: int|
                    0 <= q < distances@.len() && distances@[q].0 == position;
                assert(predecessors@[q].0 == position);
            }
        }
        if position == needle {
            let path = build_path(&predecessors, needle, Ghost(visited@), Ghost(start));
            proof {
                assert(!map_has_key(predecessors@, '\0')) by {
                    if map_has_key(predecessors@, '\0') {
                        let q = choose|q: int|
                            0 <= q < predecessors@.len() && predecessors@[q].0 == '\0';
                        assert(distances@[q].0 == '\0');
                    }
                }
                lemma_path_edges_w(graph@, predecessors@, start, path@);
                assert(path_between_w(graph@, path@, start, needle));
            }
            return Some(path);
        }
        if !contains_char(&visited, position) {
            let ghost pre_v = visited@;
            visited.push(position);
            proof {
                lemma_chain_visit(predecessors@, pre_v, start, position);
                assert(visited@[0] == start) by {
                    if pre_v.len() == 0 {
                        assert(distances@[0] == (start, 0u32));
                        lemma_map_key_index(distances@, position);
                        let q = map_key_index(distances@, position);
                        assert(distances@[q].0 == position);
                        assert(q == 0);
                    } else {
                        assert(visited@[0] == pre_v[0]);
                    }
                }
                assert(visited@.contains(position)) by {
                    assert(visited@.last() == position);
                }
                assert(!visited@.contains(needle)) by {
                    if visited@.contains(needle) {
                        let k = choose|k: int| 0 <= k < visited@.len() && visited@[k] == needle;
                        if k < pre_v.len() {
                            assert(pre_v[k] == needle);
                        }
                    }
                }
                assert(heap_covers(heap@, distances@, visited@)) by {
                    let ghost i = choose|i: int|
                        0 <= i < pre_h.len() && popped == pre_h[i] && heap@ == pre_h.remove(i);
                    assert forall|q: int|
                        0 <= q < distances@.len() implies visited@.contains(
                        (#[trigger] distances@[q]).0,
                    ) || exists|j: int|
                        0 <= j < heap@.len() && (#[trigger] heap@[j]).position
                            == distances@[q].0 by {
                        if distances@[q].0 == position {
                            assert(visited@.contains(position));
                        } else if !pre_v.contains(distances@[q].0) {
                            let j = choose|j: int|
                                0 <= j < pre_h.len() && (#[trigger] pre_h[j]).position
                                    == distances@[q].0;
                            if j < i {
                                assert(heap@[j].position == distances@[q].0);
                            } else {
                                assert(j != i);
                                assert(heap@[j - 1].position == distances@[q].0);
                            }
                        } else {
                            let k = choose|k: int|
                                0 <= k < pre_v.len() && pre_v[k] == distances@[q].0;
                            assert(visited@[k] == distances@[q].0);
                        }
                    }
                }
            }
            let ghost pre_d = distances@;
            match graph.get(position) {
                Some(neighbors) => {
                    relax_neighbors_queue(
                        neighbors,
                        position,
                        cost,
                        &visited,
                        &mut heap,
                        &mut distances,
                        &mut predecessors,
                        Ghost(graph@),
                        Ghost(start),
                    );
                },
                None => {},
            }
            proof {
                assert forall|i: int| 0 <= i < visited@.len() implies universe_w(
                    graph@,
                    start,
                ).contains(#[trigger] visited@[i]) by {
                    assert(map_has_key(predecessors@, visited@[i]));
                    let q = choose|q: int|
                        0 <= q < predecessors@.len() && predecessors@[q].0 == visited@[i];
                    assert(distances@[q].0 == visited@[i]);
                }
                lemma_distinct_subseq_len(visited@, universe_w(graph@, start));
                assert forall|i: int| 0 <= i < visited@.len() implies successors_known(
                    graph@,
                    #[trigger] visited@[i],
                    distances@,
                ) by {
                    if i < pre_v.len() {
                        assert(successors_known(graph@, pre_v[i as int], pre_d));
                        assert forall|w: char|
                            edge_w(graph@, visited@[i], w) implies map_has_key(
                            distances@,
                            w,
                        ) by {
                            assert(map_has_key(pre_d, w));
                        }
                    } else {
                        assert(visited@[i] == position);
                        if !map_has_key(graph@, position) {
                            assert forall|w: char|
                                edge_w(graph@, position, w) implies map_has_key(
                                distances@,
                                w,
                            ) by {
                                assert(map_has_key(graph@, position));
                            }
                        }
                    }
                }
            }
        } else {
            proof {
                assert(heap_covers(heap@, distances@, visited@)) by {
                    let ghost i = choose|i: int|
                        0 <= i < pre_h.len() && popped == pre_h[i] && heap@ == pre_h.remove(i);
                    assert forall|q: int|
                        0 <= q < distances@.len() implies visited@.contains(
                        (#[trigger] distances@[q]).0,
                    ) || exists|j: int|
                        0 <= j < heap@.len() && (#[trigger] heap@[j]).position
                            == distances@[q].0 by {
                        if !visited@.contains(distances@[q].0) {
                            let j = choose|j: int|
                                0 <= j < pre_h.len() && (#[trigger] pre_h[j]).position
                                    == distances@[q].0;
                            assert(pre_h[j].position != position);
                            assert(j != i);
                            if j < i {
                                assert(heap@[j].position == distances@[q].0);
                            } else {
                                assert(heap@[j - 1].position == distances@[q].0);
                            }
                        }
                    }
                }
            }
        }
    }
    proof {
        assert(visited@.contains(start)) by {
            let q = choose|q: int| 0 <= q < distances@.len() && distances@[q].0 == start;
            assert(visited@.contains(distances@[q].0) || exists|j: int|
                0 <= j < heap@.len() && (#[trigger] heap@[j]).position == distances@[q].0);
        }
        assert forall|v: char| visited@.contains(v) implies closed_at_w(graph@, v, visited@) by {
            let i = choose|i: int| 0 <= i < visited@.len() && visited@[i] == v;
            assert(successors_known(graph@, visited@[i], distances@));
            assert forall|w: char| edge_w(graph@, v, w) implies visited@.contains(w) by {
                assert(map_has_key(distances@, w));
                let q = choose|q: int| 0 <= q < distances@.len() && distances@[q].0 == w;
                assert(visited@.contains(distances@[q].0) || exists|j: int|
                    0 <= j < heap@.len() && (#[trigger] heap@[j]).position == distances@[q].0);
            }
        }
        lemma_closed_set_blocks_w(graph@, visited@, start, needle);
    }
    None
}

/// One relaxation keeps the search state and the queue invariants intact.
proof fn lemma_queue_relax(
    g: Seq<(char, Seq<(char, u32)>)>,
    start: char,
    visited: Seq<char>,
    pre_d: Seq<(char, u32)>,
    pre_p: Seq<(char, char)>,
    pre_h: Seq<State>,
    to: char,
    position: char,
    next_cost: u32,
)
    requires
        dij_state_wf(g, visited, pre_d, pre_p, start),
        heap_keys_known(pre_h, pre_d),
        heap_covers(pre_h, pre_d, visited),
        visited.len() >= 1,
        visited.contains(position),
        !visited.contains(to),
        to != '\0',
        to != start,
        edge_w(g, position, to),
        universe_w(g, start).contains(to),
    ensures
        ({
            let d2 = if map_has_key(pre_d, to) {
                pre_d.update(map_key_index(pre_d, to), (to, next_cost))
            } else {
                pre_d.push((to, next_cost))
            };
            let p2 = if map_has_key(pre_p, to) {
                pre_p.update(map_key_index(pre_p, to), (to, position))
            } else {
                pre_p.push((to, position))
            };
            let h2 = pre_h.push(State { cost: next_cost, position: to });
            &&& dij_state_wf(g, visited, d2, p2, start)
            &&& heap_keys_known(h2, d2)
            &&& heap_covers(h2, d2, visited)
            &&& (map_has_key(pre_d, to) <==> map_has_key(pre_p, to))
        }),
{
    let d2 = if map_has_key(pre_d, to) {
        pre_d.update(map_key_index(pre_d, to), (to, next_cost))
    } else {
        pre_d.push((to, next_cost))
    };
    let p2 = if map_has_key(pre_p, to) {
        pre_p.update(map_key_index(pre_p, to), (to, position))
    } else {
        pre_p.push((to, position))
    };
    let h2 = pre_h.push(State { cost: next_cost, position: to });
    lemma_map_key_index(pre_d, to);
    lemma_map_key_index(pre_p, to);
    assert(map_has_key(pre_d, to) <==> map_has_key(pre_p, to)) by {
        if map_has_key(pre_d, to) {
            let q = choose|q: int| 0 <= q < pre_d.len() && pre_d[q].0 == to;
            assert(pre_p[q].0 == to);
        }
        if map_has_key(pre_p, to) {
            let q = choose|q: int| 0 <= q < pre_p.len() && pre_p[q].0 == to;
            assert(pre_d[q].0 == to);
        }
    }
    if map_has_key(pre_p, to) {
        lemma_key_index_pointwise(pre_d, pre_p, to);
        lemma_chain_relax_update(pre_p, visited, start, to, position);
    } else {
        lemma_chain_relax_new(pre_p, visited, start, to, position);
    }
    assert(map_distinct_keys(d2)) by {
        assert forall|a: int, b: int| 0 <= a < b < d2.len() implies d2[a].0 != d2[b].0 by {
            if b < pre_d.len() {
                assert(d2[a].0 == pre_d[a].0 && d2[b].0 == pre_d[b].0);
            } else if b == pre_d.len() {
                assert(d2[b].0 == to);
                assert(d2[a].0 == pre_d[a].0);
                assert(!map_has_key(pre_d, to));
                if pre_d[a].0 == to {
                    assert(map_has_key(pre_d, to));
                }
            }
        }
    }
    assert forall|i: int| 0 <= i < d2.len() implies (#[trigger] d2[i]).0 == p2[i].0 by {
        if i < pre_d.len() {
            assert(d2[i].0 == pre_d[i].0);
            assert(p2[i].0 == pre_p[i].0);
        }
    }
    assert forall|i: int|
        0 <= i < d2.len() implies universe_w(g, start).contains((#[trigger] d2[i]).0) && d2[i].0
            != '\0' by {
        if i < pre_d.len() {
            assert(d2[i].0 == pre_d[i].0);
        }
    }
    assert forall|i: int|
        0 <= i < p2.len() && (#[trigger] p2[i]).0 != start implies edge_w(g, p2[i].1, p2[i].0) by {
        if map_has_key(pre_p, to) {
            let ix = map_key_index(pre_p, to);
            if i != ix {
                assert(p2[i] == pre_p[i]);
            } else {
                assert(p2[i] == (to, position));
            }
        } else {
            if i < pre_p.len() {
                assert(p2[i] == pre_p[i]);
            } else {
                assert(p2[i] == (to, position));
            }
        }
    }
    assert(heap_keys_known(h2, d2)) by {
        assert forall|i: int| 0 <= i < h2.len() implies map_has_key(
            d2,
            (#[trigger] h2[i]).position,
        ) by {
            if i < pre_h.len() {
                assert(h2[i] == pre_h[i]);
                assert(map_has_key(pre_d, pre_h[i].position));
                let q = choose|q: int|
                    0 <= q < pre_d.len() && pre_d[q].0 == pre_h[i].position;
                assert(d2[q].0 == pre_h[i].position);
            } else {
                assert(h2[i].position == to);
                lemma_map_key_index(d2, to);
                if map_has_key(pre_d, to) {
                    assert(d2[map_key_index(pre_d, to)].0 == to);
                } else {
                    assert(d2[pre_d.len() as int].0 == to);
                }
            }
        }
    }
    assert(heap_covers(h2, d2, visited)) by {
        assert forall|q: int|
            0 <= q < d2.len() implies visited.contains((#[trigger] d2[q]).0) || exists|jj: int|
                0 <= jj < h2.len() && (#[trigger] h2[jj]).position == d2[q].0 by {
            if q < pre_d.len() {
                assert(d2[q].0 == pre_d[q].0);
                if !visited.contains(pre_d[q].0) {
                    let jj = choose|jj: int|
                        0 <= jj < pre_h.len() && (#[trigger] pre_h[jj]).position == pre_d[q].0;
                    assert(h2[jj].position == d2[q].0);
                }
            } else {
                assert(d2[q].0 == to);
                assert(h2[pre_h.len() as int].position == to);
            }
        }
    }
}

/// Queues every unvisited successor of `position` whose distance through it
/// improves (or is new), recording `position` as its predecessor.
fn relax_neighbors_queue(
    neighbors: &Vec<(char, u32)>,
    position: char,
    cost: u32,
    visited: &Vec<char>,
    heap: &mut Vec<State>,
    distances: &mut Vec<(char, u32)>,
    predecessors: &mut Vec<(char, char)>,
    Ghost(g): Ghost<Seq<(char, Seq<(char, u32)>)>>,
    Ghost(start): Ghost<char>,
)
    requires
        map_distinct_keys(g),
        no_null_nodes_w(g),
        start != '\0',
        dij_state_wf(g, visited@, old(distances)@, old(predecessors)@, start),
        heap_keys_known(old(heap)@, old(distances)@),
        heap_covers(old(heap)@, old(distances)@, visited@),
        visited@.len() >= 1,
        visited@.contains(position),
        map_has_key(g, position),
        neighbors@ == map_value(g, position),
    ensures
        dij_state_wf(g, visited@, final(distances)@, final(predecessors)@, start),
        heap_keys_known(final(heap)@, final(distances)@),
        heap_covers(final(heap)@, final(distances)@, visited@),
        forall|k: char| map_has_key(old(distances)@, k) ==> map_has_key(final(distances)@, k),
        successors_known(g, position, final(distances)@),
{
    let n = neighbors.len();
    let mut j: usize = 0;
    while j < n
        invariant
            map_distinct_keys(g),
            no_null_nodes_w(g),
            start != '\0',
            dij_state_wf(g, visited@, distances@, predecessors@, start),
            heap_keys_known(heap@, distances@),
            heap_covers(heap@, distances@, visited@),
            visited@.len() >= 1,
            visited@.contains(position),
            map_has_key(g, position),
            neighbors@ == map_value(g, position),
            0 <= j <= n,
            n == neighbors@.len(),
            forall|k: char| map_has_key(old(distances)@, k) ==> map_has_key(distances@, k),
            forall|jj: int|
                0 <= jj < j ==> map_has_key(distances@, (#[trigger] neighbors@[jj]).0),
        decreases n - j,
    {
        let to = neighbors[j].0;
        let weight = neighbors[j].1;
        proof {
            lemma_map_key_index(g, position);
            lemma_all_nodes_w(g);
            let ki = map_key_index(g, position);
            assert(g[ki].1 == neighbors@);
            assert(all_nodes_w(g).contains(g[ki].1[j as int].0));
            assert(to != '\0');
            assert(universe_w(g, start).contains(to)) by {
                let k = choose|k: int| 0 <= k < all_nodes_w(g).len() && all_nodes_w(g)[k] == to;
                assert(universe_w(g, start)[1 + k] == to);
            }
            assert(edge_w(g, position, to)) by {
                assert(map_value(g, position)[j as int].0 == to);
            }
        }
        let to_was_visited = contains_char(visited, to);
        proof {
            if to_was_visited {
                assert(map_has_key(predecessors@, to));
                let q = choose|q: int|
                    0 <= q < predecessors@.len() && predecessors@[q].0 == to;
                assert(distances@[q].0 == to);
            }
        }
        if !to_was_visited {
            proof {
                assert(to != start) by {
                    assert(visited@[0] == start);
                    assert(visited@.contains(start));
                }
            }
            let next_cost = cost.saturating_add(weight);
            let ghost pre_d = distances@;
            let ghost pre_p = predecessors@;
            let ghost pre_h = heap@;
            let known = assoc_get(distances, to);
            let improves = match known {
                None => true,
                Some(d) => next_cost < d,
            };
            if improves {
                proof {
                    lemma_queue_relax(
                        g,
                        start,
                        visited@,
                        pre_d,
                        pre_p,
                        pre_h,
                        to,
                        position,
                        next_cost,
                    );
                }
                heap.push(State { cost: next_cost, position: to });
                assoc_set(distances, to, next_cost);
                assoc_set(predecessors, to, position);
                proof {
                    assert forall|k: char|
                        map_has_key(old(distances)@, k) implies map_has_key(distances@, k) by {
                        if map_has_key(pre_d, k) {
                        }
                    }
                }
            }
        }
        proof {
            assert forall|jj: int| 0 <= jj < j + 1 implies map_has_key(
                distances@,
                (#[trigger] neighbors@[jj]).0,
            ) by {
            }
        }
        j += 1;
    }
    proof {
        assert forall|w: char| edge_w(g, position, w) implies map_has_key(distances@, w) by {
            let q = choose|q: int|
                0 <= q < map_value(g, position).len() && (#[trigger] map_value(g, position)[q]).0
                    == w;
            assert(map_has_key(distances@, neighbors@[q].0));
        }
    }
}

} // verus!
