use astar::error::SearchError;
use astar::reconstruct::reconstruct_path;
use std::collections::HashMap;

#[test]
fn start_without_links_is_a_path() {
    let prev: HashMap<usize, usize> = HashMap::new();
    assert_eq!(reconstruct_path(&prev, 0), Ok(vec![1]));
}

#[test]
fn node_that_was_never_reached_has_no_path() {
    let prev: HashMap<usize, usize> = HashMap::new();
    assert_eq!(reconstruct_path(&prev, 1), Err(SearchError::InternalInvariant));
    assert_eq!(reconstruct_path(&prev, 41), Err(SearchError::InternalInvariant));
}

#[test]
fn chain_that_ends_elsewhere_is_an_error() {
    let mut prev = HashMap::new();
    prev.insert(4, 3);
    prev.insert(3, 2);
    prev.insert(1, 0);
    assert_eq!(reconstruct_path(&prev, 4), Err(SearchError::InternalInvariant));
    assert_eq!(reconstruct_path(&prev, 3), Err(SearchError::InternalInvariant));
    assert_eq!(reconstruct_path(&prev, 2), Err(SearchError::InternalInvariant));
    assert_eq!(reconstruct_path(&prev, 1), Ok(vec![1, 2]));
}

#[test]
fn start_with_a_predecessor_is_an_error() {
    let mut prev = HashMap::new();
    prev.insert(0, 5);
    prev.insert(1, 0);
    assert_eq!(reconstruct_path(&prev, 0), Err(SearchError::InternalInvariant));
    assert_eq!(reconstruct_path(&prev, 1), Err(SearchError::InternalInvariant));
    assert_eq!(reconstruct_path(&prev, 5), Err(SearchError::InternalInvariant));
}

#[test]
fn links_are_followed_back_to_the_start() {
    let mut prev = HashMap::new();
    prev.insert(3, 2);
    prev.insert(2, 1);
    prev.insert(1, 0);
    assert_eq!(reconstruct_path(&prev, 3), Ok(vec![1, 2, 3, 4]));
    assert_eq!(reconstruct_path(&prev, 2), Ok(vec![1, 2, 3]));
    assert_eq!(reconstruct_path(&prev, 0), Ok(vec![1]));
}

#[test]
fn links_off_the_path_do_not_matter() {
    let mut prev = HashMap::new();
    prev.insert(5, 0);
    prev.insert(4, 5);
    prev.insert(1, 0);
    prev.insert(2, 1);
    prev.insert(3, 1);
    assert_eq!(reconstruct_path(&prev, 4), Ok(vec![1, 6, 5]));
    assert_eq!(reconstruct_path(&prev, 3), Ok(vec![1, 2, 4]));
}

#[test]
fn longest_possible_chain_is_accepted() {
    let mut prev = HashMap::new();
    for node in 1..200usize {
        prev.insert(node, node - 1);
    }
    let path = reconstruct_path(&prev, 199).unwrap();
    assert_eq!(path, (1..=200).collect::<Vec<usize>>());
}

#[test]
fn circle_of_links_is_an_error() {
    let mut prev = HashMap::new();
    prev.insert(0, 1);
    prev.insert(1, 2);
    prev.insert(2, 0);
    assert_eq!(reconstruct_path(&prev, 0), Err(SearchError::InternalInvariant));
}

#[test]
fn link_to_itself_is_an_error() {
    let mut prev = HashMap::new();
    prev.insert(7, 7);
    assert_eq!(reconstruct_path(&prev, 7), Err(SearchError::InternalInvariant));
}

#[test]
fn chain_into_a_circle_is_an_error() {
    let mut prev = HashMap::new();
    prev.insert(9, 3);
    prev.insert(3, 4);
    prev.insert(4, 3);
    prev.insert(1, 0);
    assert_eq!(reconstruct_path(&prev, 9), Err(SearchError::InternalInvariant));
    assert_eq!(reconstruct_path(&prev, 1), Ok(vec![1, 2]));
}
