//! A verified collection of classic algorithms and data structures.
//!
//! Each module is self-contained and carries full functional contracts:
//! the sorting routines prove that they return a sorted rearrangement of
//! their input, the searches say exactly when they find something, the graph
//! searches return a duplicate-free path along edges exactly when the target
//! is reachable, and the fixed-capacity LRU cache proves its capacity and
//! recency laws.

pub mod arrays;
pub mod assoc;
pub mod big_o;
pub mod binary_search;
pub mod bubble_sort;
pub mod characters;
pub mod deque;
pub mod dfs_graph;
pub mod dijkstras_shortest_path;
pub mod dijkstras_shortest_path_heap;
pub mod doubly_linked_lists;
pub mod graphs;
pub mod heap_sort;
pub mod heaps_algo;
pub mod linear_search;
pub mod linked_lists;
pub mod lru_cache;
pub mod merge_sort;
pub mod ordering;
pub mod path_finding;
pub mod quick_sort;
pub mod selection_sort;
