//! Depth-first search over a directed graph keyed by characters.
//!
//! The search dives into each successor before trying the next one, and
//! returns a path from the start node to the needle whose every step is an
//! edge of the graph; it finds one exactly when the needle is reachable from
//! the start.  As in the breadth-first search, `'\0'` is the sentinel that
//! ends a predecessor chain, so no node of the graph may carry it.

use crate::assoc::build_path;
use crate::assoc::contains_char;
use crate::assoc::lemma_distinct_subseq_len;
use crate::assoc::lemma_map_key_index;
use crate::assoc::map_has_key;
use crate::assoc::map_value;
use crate::graphs::all_nodes;
use crate::graphs::closed_at;
use crate::graphs::edge;
use crate::graphs::lemma_closed_monotone;
use crate::graphs::lemma_closed_set_blocks;
use crate::graphs::path_between;
use crate::graphs::reachable;
use crate::graphs::lemma_all_nodes;
use crate::graphs::lemma_path_edges;
use crate::graphs::no_null_nodes;
use crate::graphs::record_discovery;
use crate::graphs::search_state_wf;
use crate::graphs::universe;
use crate::graphs::valid_path;
use crate::graphs::Graph;
use vstd::prelude::*;

verus! {

/// Visits `current`'s successors depth first, recording how each node was
/// discovered, and returns a path from the start node to `needle` when the
/// dive reaches it.
#[verifier::rlimit(100)]
pub fn depth_first_search_recursive(
    graph: &Graph,
    visited: &mut Vec<char>,
    predecessors: &mut Vec<(char, char)>,
    current: char,
    needle: char,
    Ghost(start): Ghost<char>,
) -> (r: Option<Vec<char>>)
    requires
        graph.wf(),
        no_null_nodes(graph@),
        start != '\0',
        search_state_wf(graph@, old(visited)@, old(predecessors)@, start),
        old(visited)@.contains(current),
    ensures
        r matches Some(p) ==> {
            &&& p@.len() >= 1
            &&& p@[0] == start
            &&& p@.last() == needle
            &&& valid_path(graph@, p@)
            &&& p@.no_duplicates()
            &&& (start == needle ==> p@ == seq![start])
            &&& reachable(graph@, start, needle)
        },
        current == needle ==> r is Some,
        search_state_wf(graph@, final(visited)@, final(predecessors)@, start),
        old(visited)@.is_prefix_of(final(visited)@),
        r is None ==> {
            &&& closed_at(graph@, current, final(visited)@)
            &&& forall|v: char|
                #[trigger] final(visited)@.contains(v) && !old(visited)@.contains(v)
                    ==> closed_at(graph@, v, final(visited)@)
            &&& (final(visited)@.contains(needle) ==> old(visited)@.contains(needle))
        },
    decreases universe(graph@, start).len() - old(visited)@.len(),
{
    proof {
        lemma_distinct_subseq_len(old(visited)@, universe(graph@, start));
    }
    if current == needle {
        proof {
            assert(needle != '\0');
        }
        let path = build_path(&predecessors, needle, Ghost(visited@), Ghost(start));
        proof {
            assert(!map_has_key(predecessors@, '\0'));
            lemma_path_edges(graph@, predecessors@, start, path@);
            assert(path_between(graph@, path@, start, needle));
        }
        return Some(path);
    }
    let ghost entry_v = visited@;
    match graph.get(current) {
        Some(neighbors) => {
            let n = neighbors.len();
            let mut j: usize = 0;
            while j < n
                invariant
                    graph.wf(),
                    no_null_nodes(graph@),
                    start != '\0',
                    search_state_wf(graph@, visited@, predecessors@, start),
                    entry_v == old(visited)@,
                    entry_v.is_prefix_of(visited@),
                    visited@.contains(current),
                    forall|jj: int| 0 <= jj < j ==> visited@.contains(#[trigger] neighbors@[jj]),
                    forall|v: char|
                        #[trigger] visited@.contains(v) && !entry_v.contains(v) ==> closed_at(
                            graph@,
                            v,
                            visited@,
                        ),
                    visited@.contains(needle) ==> entry_v.contains(needle),
                    map_has_key(graph@, current),
                    neighbors@ == map_value(graph@, current),
                    0 <= j <= n,
                    n == neighbors@.len(),
                    entry_v.len() >= 1,
                decreases n - j,
            {
                let neighbor = neighbors[j];
                proof {
                    lemma_map_key_index(graph@, current);
                    lemma_all_nodes(graph@);
                    let ki = crate::assoc::map_key_index(graph@, current);
                    assert(graph@[ki].1 == neighbors@);
                    assert(all_nodes(graph@).contains(graph@[ki].1[j as int]));
                    assert(neighbor != '\0') by {
                        if neighbor == '\0' {
                            assert(graph@[ki].1.contains('\0'));
                        }
                    }
                    assert(map_value(graph@, current).contains(neighbor)) by {
                        assert(map_value(graph@, current)[j as int] == neighbor);
                    }
                    assert(universe(graph@, start).contains(neighbor)) by {
                        let k = choose|k: int|
                            0 <= k < all_nodes(graph@).len() && all_nodes(graph@)[k] == neighbor;
                        assert(universe(graph@, start)[1 + k] == neighbor);
                    }
                }
                if !contains_char(visited, neighbor) {
                    let ghost before_v = visited@;
                    record_discovery(
                        visited,
                        predecessors,
                        neighbor,
                        current,
                        Ghost(graph@),
                        Ghost(start),
                    );
                    proof {
                        assert(visited@.contains(neighbor)) by {
                            assert(visited@.last() == neighbor);
                        }
                        lemma_distinct_subseq_len(visited@, universe(graph@, start));
                        assert(visited@.len() > entry_v.len());
                    }
                    let r = depth_first_search_recursive(
                        graph,
                        visited,
                        predecessors,
                        neighbor,
                        needle,
                        Ghost(start),
                    );
                    proof {
                        assert(entry_v.is_prefix_of(visited@)) by {
                            assert(before_v.push(neighbor).is_prefix_of(visited@));
                            assert forall|k: int| 0 <= k < entry_v.len() implies entry_v[k]
                                == visited@[k] by {
                                assert(entry_v[k] == before_v[k]);
                                assert(before_v.push(neighbor)[k] == before_v[k]);
                            }
                        }
                        assert(visited@.contains(current)) by {
                            let k = choose|k: int|
                                0 <= k < before_v.len() && before_v[k] == current;
                            assert(before_v.push(neighbor).is_prefix_of(visited@));
                            assert(before_v.push(neighbor)[k] == current);
                            assert(visited@[k] == current);
                        }
                    }
                    if r.is_some() {
                        return r;
                    }
                    proof {
                        assert(neighbor != needle);
                        assert(visited@.contains(neighbor)) by {
                            assert(before_v.push(neighbor).is_prefix_of(visited@));
                            assert(visited@[before_v.len() as int] == neighbor);
                        }
                        assert forall|jj: int| 0 <= jj < j + 1 implies visited@.contains(
                            #[trigger] neighbors@[jj],
                        ) by {
                            if jj < j {
                                assert(before_v.contains(neighbors@[jj]));
                                let k = choose|k: int|
                                    0 <= k < before_v.len() && before_v[k] == neighbors@[jj];
                                assert(before_v.push(neighbor).is_prefix_of(visited@));
                                assert(before_v.push(neighbor)[k] == neighbors@[jj]);
                                assert(visited@[k] == neighbors@[jj]);
                            }
                        }
                        assert forall|v: char|
                            #[trigger] visited@.contains(v) && !entry_v.contains(v) implies
                            closed_at(graph@, v, visited@) by {
                            if before_v.push(neighbor).contains(v) {
                                if v == neighbor || !before_v.contains(v) {
                                } else {
                                    assert(closed_at(graph@, v, before_v));
                                    assert(before_v.is_prefix_of(visited@)) by {
                                        assert(before_v.push(neighbor).is_prefix_of(visited@));
                                        assert forall|k: int|
                                            0 <= k < before_v.len() implies before_v[k]
                                            == visited@[k] by {
                                            assert(before_v.push(neighbor)[k] == before_v[k]);
                                        }
                                    }
                                    lemma_closed_monotone(graph@, v, before_v, visited@);
                                }
                            }
                        }
                        assert(visited@.contains(needle) ==> entry_v.contains(needle)) by {
                            if visited@.contains(needle) && !entry_v.contains(needle) {
                                if before_v.push(neighbor).contains(needle) {
                                    assert(before_v.contains(needle));
                                }
                            }
                        }
                    }
                }
                j += 1;
            }
            proof {
                assert(closed_at(graph@, current, visited@)) by {
                    assert forall|w: char| edge(graph@, current, w) implies visited@.contains(
                        w,
                    ) by {
                        assert(map_value(graph@, current).contains(w));
                        let k = choose|k: int| 0 <= k < neighbors@.len() && neighbors@[k] == w;
                        assert(visited@.contains(neighbors@[k]));
                    }
                }
            }
        },
        None => {
            proof {
                assert(closed_at(graph@, current, visited@)) by {
                    assert forall|w: char| edge(graph@, current, w) implies visited@.contains(
                        w,
                    ) by {
                        assert(map_has_key(graph@, current));
                    }
                }
            }
        },
    }
    None
}

/// Searches the graph depth first and returns a path from `start` to
/// `needle`, every step of which is an edge of the graph.
pub fn depth_first_search(graph: &Graph, start: char, needle: char) -> (r: Option<Vec<char>>)
    requires
        graph.wf(),
        no_null_nodes(graph@),
        start != '\0',
    ensures
        r matches Some(p) ==> {
            &&& p@.len() >= 1
            &&& p@[0] == start
            &&& p@.last() == needle
            &&& valid_path(graph@, p@)
            &&& p@.no_duplicates()
            &&& (start == needle ==> p@ == seq![start])
        },
        r is Some <==> reachable(graph@, start, needle),
{
    let mut visited: Vec<char> = Vec::new();
    let mut predecessors: Vec<(char, char)> = Vec::new();
    visited.push(start);
    predecessors.push((start, '\0'));
    proof {
        assert(visited@ =~= seq![start]);
        assert(predecessors@ =~= seq![(start, '\0')]);
        lemma_map_key_index(predecessors@, start);
        assert(map_has_key(predecessors@, start)) by {
            assert(predecessors@[0].0 == start);
        }
        assert(universe(graph@, start).contains(start)) by {
            assert(universe(graph@, start)[0] == start);
        }
        assert(visited@.contains(start)) by {
            assert(visited@[0] == start);
        }
    }
    let ghost init_v = visited@;
    let r = depth_first_search_recursive(
        graph,
        &mut visited,
        &mut predecessors,
        start,
        needle,
        Ghost(start),
    );
    proof {
        if r is None {
            assert(start != needle);
            assert(visited@.contains(start)) by {
                assert(init_v.is_prefix_of(visited@));
                assert(visited@[0] == init_v[0]);
            }
            assert(!visited@.contains(needle)) by {
                if visited@.contains(needle) {
                    assert(init_v.contains(needle));
                    let k = choose|k: int| 0 <= k < init_v.len() && init_v[k] == needle;
                    assert(init_v[0] == needle);
                }
            }
            assert forall|v: char| visited@.contains(v) implies closed_at(graph@, v, visited@) by {
                if init_v.contains(v) {
                    let k = choose|k: int| 0 <= k < init_v.len() && init_v[k] == v;
                    assert(v == start);
                }
            }
            lemma_closed_set_blocks(graph@, visited@, start, needle);
        }
    }
    r
}

} // verus!
