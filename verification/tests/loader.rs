use astar::error::SearchError;
use astar::loader::load_graph;
use astar::outcome::SearchOutcome;
use astar::search::find_path;

#[test]
fn chain_of_four_nodes_loads() {
    let text = "4,0,0,1,0,1,1,2,1,0,1,0,0,1,0,1,0,0,1,0,1,0,0,1,0";
    let graph = load_graph(text.as_bytes()).unwrap();
    assert_eq!(graph.amount(), 4);
    assert_eq!(graph.coordinates(0), (0, 0));
    assert_eq!(graph.coordinates(2), (1, 1));
    assert_eq!(graph.coordinates(3), (2, 1));
    assert_eq!(graph.neighbors(0), vec![1]);
    assert_eq!(graph.neighbors(1), vec![0, 2]);
    assert_eq!(graph.neighbors(3), vec![2]);
    assert_eq!(
        find_path(&graph),
        SearchOutcome::Found { path: vec![1, 2, 3, 4], cost: 3_000_000 }
    );
}

#[test]
fn single_node_loads() {
    let graph = load_graph(b"1,5,-5,0").unwrap();
    assert_eq!(graph.amount(), 1);
    assert_eq!(graph.coordinates(0), (5, -5));
    assert_eq!(graph.neighbors(0), Vec::<usize>::new());
}

#[test]
fn signs_and_leading_zeros_are_numbers() {
    let graph = load_graph(b"+2,-0,+7,-2147483648,2147483647,00,+1,001,255").unwrap();
    assert_eq!(graph.amount(), 2);
    assert_eq!(graph.coordinates(0), (0, 7));
    assert_eq!(graph.coordinates(1), (i32::MIN, i32::MAX));
    assert_eq!(graph.neighbors(0), vec![1]);
    assert_eq!(graph.neighbors(1), vec![0]);
}

#[test]
fn matrix_rows_are_read_in_order() {
    let graph = load_graph(b"2,0,0,1,1,0,0,1,0").unwrap();
    assert_eq!(graph.neighbors(0), vec![1]);
    assert_eq!(graph.neighbors(1), Vec::<usize>::new());
    assert!(graph.is_adjacent(0, 1));
    assert!(!graph.is_adjacent(1, 0));
}

fn malformed(text: &str) -> bool {
    match load_graph(text.as_bytes()) {
        Ok(_) => false,
        Err(e) => e == SearchError::MalformedInput,
    }
}

#[test]
fn too_few_coordinates_are_malformed() {
    assert!(malformed("4,0,0,1,0,1,1"));
    assert!(malformed("2,0,0,1"));
    assert!(malformed("3"));
}

#[test]
fn too_few_matrix_entries_are_malformed() {
    assert!(malformed("2,0,0,1,1,0,1,1"));
    assert!(malformed("2,0,0,1,1"));
    assert!(malformed("1,0,0"));
}

#[test]
fn left_over_numbers_are_malformed() {
    assert!(malformed("1,0,0,0,0"));
    assert!(malformed("1,0,0,0,"));
    assert!(malformed("2,0,0,1,1,0,1,1,0,1"));
}

#[test]
fn empty_text_is_malformed() {
    assert!(malformed(""));
    assert!(malformed(","));
}

#[test]
fn graph_without_nodes_does_not_load() {
    assert!(malformed("0"));
    assert!(malformed("0,"));
}

#[test]
fn what_is_no_number_is_malformed() {
    assert!(malformed("x,0,0,0"));
    assert!(malformed("1,a,0,0"));
    assert!(malformed("1,0,0,1b"));
    assert!(malformed("1,0,,0"));
    assert!(malformed("1,+,0,0"));
    assert!(malformed("1,-,0,0"));
    assert!(malformed("1,0,0,-0"));
    assert!(malformed("-1,0,0,0"));
    assert!(malformed("1,0.5,0,0"));
    assert!(malformed("1,++1,0,0"));
}

#[test]
fn blanks_and_newlines_are_malformed() {
    assert!(malformed("1, 0,0,0"));
    assert!(malformed("1,0,0,0\n"));
    assert!(malformed(" 1,0,0,0"));
    assert!(malformed("1,0,0 ,0"));
}

#[test]
fn numbers_out_of_range_are_malformed() {
    assert!(malformed("1,2147483648,0,0"));
    assert!(malformed("1,0,-2147483649,0"));
    assert!(malformed("1,0,0,256"));
    assert!(malformed("340282366920938463463374607431768211456,0,0,0"));
    assert!(malformed("1,99999999999999999999999999999999999999999999,0,0"));
}

#[test]
fn node_count_beyond_the_text_is_malformed() {
    assert!(malformed("18446744073709551615,0,0,0"));
    assert!(malformed("1000000,0,0,0"));
}
