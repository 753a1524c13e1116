use algorithms::arrays::access_array_element;
use algorithms::big_o;
use algorithms::characters::sum_of_character_codes;
use algorithms::heaps_algo;
use algorithms::path_finding::walk;

#[test]
fn test_access_array_element() {
    let array = [1, 2, 3, 4, 5];
    assert_eq!(access_array_element(&array, 0), Some(1));
    assert_eq!(access_array_element(&array, 6), None);
}

#[test]
fn test_access_element() {
    let array = [1, 2, 3, 4, 5];
    assert_eq!(access_array_element(&array, 0), Some(1));
    assert_eq!(access_array_element(&array, 6), None);
}

#[test]
fn big_o_test_binary_search() {
    let array = [1, 2, 3, 4, 5];
    assert_eq!(big_o::binary_search(&array, 5), Ok(4));
    assert_eq!(big_o::binary_search(&array, 6), Err(5));
}

#[test]
fn test_basic_search() {
    let array = [1, 2, 3, 4, 5];
    assert_eq!(big_o::basic_search(&array, 5), true);
    assert_eq!(big_o::basic_search(&array, 6), false);
}

#[test]
fn big_o_test_merge_sort() {
    let mut array = vec![1, 5, 2, 4, 3];
    algorithms::merge_sort::merge_sort(&mut array);
    assert_eq!(array, [1, 2, 3, 4, 5]);
}

#[test]
fn big_o_test_heap_sort() {
    let mut array = vec![1, 5, 2, 4, 3];
    big_o::heap_sort(&mut array);
    assert_eq!(array, [1, 2, 3, 4, 5]);
}

#[test]
fn big_o_test_bubble_sort() {
    let mut array = vec![1, 5, 2, 4, 3];
    big_o::bubble_sort(&mut array);
    assert_eq!(array, [1, 2, 3, 4, 5]);
}

#[test]
fn test_fibonacci() {
    assert_eq!(big_o::fibonacci(0), 0);
    assert_eq!(big_o::fibonacci(1), 1);
    assert_eq!(big_o::fibonacci(10), 55);
}

#[test]
fn test_permutations() {
    let mut arr = vec![1, 2, 3];
    let mut result = Vec::new();
    let len = arr.len();
    big_o::permutations(&mut arr, len, &mut result);
    assert_eq!(result.len(), 6);
}

#[test]
fn permutations_of_two_elements() {
    let mut arr = vec![1, 2];
    let mut result: Vec<Vec<i32>> = Vec::new();
    heaps_algo::permutations(&mut arr, 2, &mut result);
    assert_eq!(result.len(), 2);
    assert_eq!(result[0], [1, 2]);
    assert_eq!(result[1], [2, 1]);
}

#[test]
fn test_sum_of_character_codes() {
    assert_eq!(sum_of_character_codes("abc"), 294);
}

#[test]
fn sum_of_character_codes_of_empty_string_is_zero() {
    assert_eq!(sum_of_character_codes(""), 0);
}

#[test]
fn maze_solver_finds_the_goal() {
    let maze = vec![
        "####".to_string(),
        "#  #".to_string(),
        "# *#".to_string(),
        "####".to_string(),
    ];
    let mut seen = vec![vec![false; maze[0].len()]; maze.len()];
    let mut path = Vec::new();
    let start = (1, 1);
    let end = (2, 2);
    assert!(walk(&maze, start, &mut seen, &mut path));
    assert!(!path.is_empty());
    assert_eq!(path.first(), Some(&start), "Path does not start at the beginning");
    assert_eq!(path.last(), Some(&end), "Path does not lead to the end");
    for pair in path.windows(2) {
        let dr = (pair[0].0 - pair[1].0).abs();
        let dc = (pair[0].1 - pair[1].1).abs();
        assert_eq!(dr + dc, 1, "Path jumps between non-adjacent cells");
    }
}

#[test]
fn maze_solver_crosses_a_large_maze() {
    let maze = vec![
        "##########".to_string(),
        "#        #".to_string(),
        "# #### ###".to_string(),
        "# #    # #".to_string(),
        "# # #### #".to_string(),
        "# #      #".to_string(),
        "### ######".to_string(),
        "# #      #".to_string(),
        "# ## #####".to_string(),
        "#    #   #".to_string(),
        "# ###### #".to_string(),
        "#        #".to_string(),
        "##### ## #".to_string(),
        "#     #* #".to_string(), // * for the end
        "##########".to_string(),
    ];
    let mut seen = vec![vec![false; maze[0].len()]; maze.len()];
    let mut path = Vec::new();
    // The first open corridor cell is the start; the goal sits at (13, 7).
    let start = (1, 1);
    let end = (13, 7);
    assert!(walk(&maze, start, &mut seen, &mut path));
    println!("Path: {:?}", path);
    println!("# of moves: {:?}", path.len());
    assert!(!path.is_empty());
    assert_eq!(path.first(), Some(&start), "Path does not start at the beginning");
    assert_eq!(path.last(), Some(&end), "Path does not lead to the end");
    for pair in path.windows(2) {
        let dr = (pair[0].0 - pair[1].0).abs();
        let dc = (pair[0].1 - pair[1].1).abs();
        assert_eq!(dr + dc, 1, "Path jumps between non-adjacent cells");
    }
    for p in &path {
        let row: Vec<char> = maze[p.0 as usize].chars().collect();
        assert_ne!(row[p.1 as usize], '#', "Path crosses a wall");
    }
}

#[test]
fn maze_solver_reports_walled_in_start() {
    let maze = vec![
        "#####".to_string(),
        "# # #".to_string(),
        "## *#".to_string(),
        "#####".to_string(),
    ];
    let mut seen = vec![vec![false; maze[0].len()]; maze.len()];
    let mut path = Vec::new();
    assert!(!walk(&maze, (1, 1), &mut seen, &mut path));
    assert!(path.is_empty());
    assert!(seen.iter().all(|row| row.iter().all(|c| !c)));
}
