use algorithms::dfs_graph::depth_first_search;
use algorithms::dijkstras_shortest_path;
use algorithms::dijkstras_shortest_path_heap;
use algorithms::dijkstras_shortest_path::WeightedGraph;
use algorithms::graphs::bfs_wrapper;
use algorithms::graphs::breadth_first_search;
use algorithms::graphs::Graph;

fn create_test_graph() -> Graph {
    let mut graph = Graph::new();
    graph.insert('A', vec!['B', 'C']);
    graph.insert('B', vec!['D']);
    graph.insert('C', vec!['E']);
    graph.insert('D', vec!['E', 'F']);
    graph.insert('E', vec!['G']);
    graph.insert('F', vec!['C']);
    graph.insert('G', vec![]);
    graph
}

fn create_test_graph2() -> Graph {
    let mut graph = Graph::new();
    graph.insert('A', vec!['B', 'C']);
    graph.insert('B', vec!['D']);
    graph.insert('C', vec![]);
    graph.insert('D', vec!['E', 'F']);
    graph.insert('E', vec!['G']);
    graph.insert('F', vec!['C']);
    graph.insert('G', vec![]);
    graph
}

#[test]
fn test_breadth_first_search_path_found() {
    let graph = create_test_graph();
    assert_eq!(breadth_first_search(&graph, 'A', 'G'), Some(vec!['A', 'C', 'E', 'G']));
}

#[test]
fn test_breadth_first_search_path_not_found() {
    let graph = create_test_graph();
    assert_eq!(breadth_first_search(&graph, 'A', 'H'), None);
}

// Recursive tests
#[test]
fn test_breadth_first_search_recursive_path_found() {
    let graph = create_test_graph();
    assert_eq!(bfs_wrapper(&graph, 'A', 'G'), Some(vec!['A', 'C', 'E', 'G']));
}

#[test]
fn test_breadth_first_search_recursive_path2_found() {
    let graph = create_test_graph2();
    assert_eq!(bfs_wrapper(&graph, 'A', 'G'), Some(vec!['A', 'B', 'D', 'E', 'G']));
}

#[test]
fn test_breadth_first_search_recursive_path2_not_found() {
    let graph = create_test_graph2();
    assert_eq!(bfs_wrapper(&graph, 'A', 'H'), None);
}

#[test]
fn test_breadth_first_search_recursive_path_not_found() {
    let graph = create_test_graph2();
    assert_eq!(bfs_wrapper(&graph, 'A', 'H'), None);
}

#[test]
fn depth_first_search_follows_edges_to_the_needle() {
    let graph = create_test_graph();
    let path = depth_first_search(&graph, 'A', 'G').expect("G is reachable from A");
    assert_eq!(path.first(), Some(&'A'));
    assert_eq!(path.last(), Some(&'G'));
    assert_eq!(path, vec!['A', 'B', 'D', 'E', 'G']);
    assert_eq!(depth_first_search(&graph, 'A', 'H'), None);
    assert_eq!(depth_first_search(&graph, 'A', 'A'), Some(vec!['A']));
}

#[test]
fn depth_first_search_dives_through_a_deep_graph() {
    let mut graph = Graph::new();
    graph.insert('A', vec!['B', 'C']);
    graph.insert('B', vec!['D', 'E']);
    graph.insert('C', vec!['F']);
    graph.insert('D', vec!['G', 'H']);
    graph.insert('E', vec!['I']);
    graph.insert('F', vec!['J']);
    graph.insert('G', vec!['K']);
    graph.insert('H', vec!['L']);
    graph.insert('I', vec!['M', 'N']);
    graph.insert('J', vec!['N']);
    graph.insert('K', vec!['O']);
    graph.insert('L', vec!['P']);
    graph.insert('M', vec!['Q']);
    graph.insert('N', vec!['R']);
    graph.insert('O', vec!['S']);
    graph.insert('P', vec!['T']);
    graph.insert('Q', vec!['U']);
    graph.insert('R', vec!['V']);
    graph.insert('S', vec!['W']);
    graph.insert('T', vec!['X']);
    graph.insert('U', vec!['Y']);
    graph.insert('V', vec!['Z']);
    graph.insert('W', vec![]);
    graph.insert('X', vec![]);
    graph.insert('Y', vec!['R']);
    graph.insert('Z', vec![]);

    assert_eq!(
        depth_first_search(&graph, 'A', 'W'),
        Some(vec!['A', 'B', 'D', 'G', 'K', 'O', 'S', 'W'])
    );
    assert_eq!(depth_first_search(&graph, 'A', 'A'), Some(vec!['A']));
}

fn create_weighted_graph() -> WeightedGraph {
    let mut graph = WeightedGraph::new();
    graph.insert('A', vec![('B', 3), ('C', 6), ('D', 1)]);
    graph.insert('B', vec![('A', 3), ('C', 2), ('D', 4), ('E', 7)]);
    graph.insert('C', vec![('A', 6), ('B', 2), ('E', 6), ('F', 2)]);
    graph.insert('D', vec![('A', 1), ('B', 4), ('E', 3), ('G', 5)]);
    graph.insert('E', vec![('B', 7), ('C', 6), ('D', 3), ('F', 8), ('G', 3), ('H', 4)]);
    graph.insert('F', vec![('C', 2), ('E', 8), ('H', 7), ('G', 9)]);
    graph.insert('G', vec![('D', 5), ('E', 3), ('F', 9), ('H', 2)]);
    graph.insert('H', vec![('E', 4), ('F', 7), ('G', 2)]);
    graph
}

#[test]
fn dijkstra_returns_a_path_along_edges() {
    let graph = create_weighted_graph();
    let path = dijkstras_shortest_path::dijkstras_shortest_path(&graph, 'A', 'H')
        .expect("H is reachable from A");
    assert_eq!(path.first(), Some(&'A'));
    assert_eq!(path.last(), Some(&'H'));
    assert_eq!(path, vec!['A', 'D', 'E', 'H']);
    assert_eq!(
        dijkstras_shortest_path::dijkstras_shortest_path(&graph, 'A', 'G'),
        Some(vec!['A', 'D', 'G'])
    );
    assert_eq!(
        dijkstras_shortest_path::dijkstras_shortest_path(&graph, 'A', 'E'),
        Some(vec!['A', 'D', 'E'])
    );
    assert_eq!(
        dijkstras_shortest_path::dijkstras_shortest_path(&graph, 'A', 'D'),
        Some(vec!['A', 'D'])
    );
    assert_eq!(
        dijkstras_shortest_path::dijkstras_shortest_path(&graph, 'A', 'B'),
        Some(vec!['A', 'B'])
    );
    assert_eq!(dijkstras_shortest_path::dijkstras_shortest_path(&graph, 'A', 'Z'), None);
    assert_eq!(
        dijkstras_shortest_path::dijkstras_shortest_path(&graph, 'A', 'A'),
        Some(vec!['A'])
    );
}

#[test]
fn dijkstra_recursive_matches_the_scan_variant() {
    let graph = create_weighted_graph();
    assert_eq!(
        dijkstras_shortest_path::dijkstra_wrapper(&graph, 'A', 'H'),
        Some(vec!['A', 'D', 'E', 'H'])
    );
    assert_eq!(
        dijkstras_shortest_path::dijkstra_wrapper(&graph, 'A', 'G'),
        Some(vec!['A', 'D', 'G'])
    );
    assert_eq!(dijkstras_shortest_path::dijkstra_wrapper(&graph, 'A', 'A'), Some(vec!['A']));
    assert_eq!(dijkstras_shortest_path::dijkstra_wrapper(&graph, 'A', 'Z'), None);
    for needle in ['A', 'B', 'C', 'D', 'E', 'F', 'G', 'H', 'Z'] {
        assert_eq!(
            dijkstras_shortest_path::dijkstra_wrapper(&graph, 'A', needle),
            dijkstras_shortest_path::dijkstras_shortest_path(&graph, 'A', needle),
        );
    }
}

#[test]
fn dijkstra_with_queue_returns_a_path_along_edges() {
    let graph = create_weighted_graph();
    let path = dijkstras_shortest_path_heap::dijkstras_shortest_path(&graph, 'A', 'H')
        .expect("H is reachable from A");
    assert_eq!(path.first(), Some(&'A'));
    assert_eq!(path.last(), Some(&'H'));
    assert_eq!(path, vec!['A', 'D', 'E', 'H']);
    assert_eq!(
        dijkstras_shortest_path_heap::dijkstras_shortest_path(&graph, 'A', 'G'),
        Some(vec!['A', 'D', 'G'])
    );
    assert_eq!(dijkstras_shortest_path_heap::dijkstras_shortest_path(&graph, 'A', 'Z'), None);
    assert_eq!(
        dijkstras_shortest_path_heap::dijkstras_shortest_path(&graph, 'A', 'A'),
        Some(vec!['A'])
    );
}
