use astar::error::SearchError;
use astar::frontier::{Frontier, NodeCost};
use astar::graph::Graph;
use astar::ledger::CostLedger;
use astar::model::SearchState;
use astar::outcome::SearchOutcome;
use astar::reconstruct::reconstruct_path;
use astar::search::{find_path, SearchDriver};

fn chain_matrix(n: usize) -> Vec<Vec<u8>> {
    let mut matrix = vec![vec![0u8; n]; n];
    for i in 0..n.saturating_sub(1) {
        matrix[i][i + 1] = 1;
        matrix[i + 1][i] = 1;
    }
    matrix
}

fn visit(graph: &Graph, at: usize, seen: &mut Vec<bool>, so_far: u128, best: &mut Option<u128>) {
    if at == graph.goal() {
        if best.map_or(true, |b| so_far < b) {
            *best = Some(so_far);
        }
        return;
    }
    for next in graph.neighbors(at) {
        if !seen[next] {
            seen[next] = true;
            visit(graph, next, seen, so_far + graph.distance(at, next), best);
            seen[next] = false;
        }
    }
}

fn cheapest_by_enumeration(graph: &Graph) -> Option<u128> {
    let mut seen = vec![false; graph.amount()];
    seen[graph.start()] = true;
    let mut best = None;
    visit(graph, graph.start(), &mut seen, 0, &mut best);
    best
}

fn cost_along(graph: &Graph, path: &[usize]) -> u128 {
    let mut cost = 0;
    for pair in path.windows(2) {
        cost += graph.distance(pair[0] - 1, pair[1] - 1);
    }
    cost
}

fn scattered_graph(seed: u64, n: usize, density: u64, symmetric: bool) -> Graph {
    let mut x = seed;
    let mut next = move || {
        x = x.wrapping_mul(6364136223846793005).wrapping_add(1442695040888963407);
        x >> 33
    };
    let mut nodes = Vec::new();
    for _ in 0..n {
        nodes.push(((next() % 21) as i32 - 10, (next() % 21) as i32 - 10));
    }
    let mut matrix = vec![vec![0u8; n]; n];
    for row in 0..n {
        for col in 0..n {
            if next() % 100 < density {
                matrix[row][col] = 1;
                if symmetric {
                    matrix[col][row] = 1;
                }
            }
        }
    }
    Graph::new(nodes, matrix).unwrap()
}

#[test]
fn chain_of_four_nodes() {
    let nodes = vec![(0, 0), (1, 0), (1, 1), (2, 1)];
    let graph = Graph::new(nodes, chain_matrix(4)).unwrap();
    match find_path(&graph) {
        SearchOutcome::Found { path, cost } => {
            assert_eq!(path, vec![1, 2, 3, 4]);
            assert_eq!(cost, 3_000_000);
        }
        SearchOutcome::NoPath => panic!("the chain connects the first node to the last"),
    }
}

#[test]
fn chain_with_a_diagonal_step() {
    let nodes = vec![(0, 0), (1, 0), (2, 0), (3, 1)];
    let graph = Graph::new(nodes, chain_matrix(4)).unwrap();
    match find_path(&graph) {
        SearchOutcome::Found { path, cost } => {
            assert_eq!(path, vec![1, 2, 3, 4]);
            assert_eq!(cost, 1_000_000 + 1_000_000 + 1_414_214);
            let length = cost as f64 / 1_000_000.0;
            assert!((length - (2.0 + 2.0_f64.sqrt())).abs() < 1e-5);
        }
        SearchOutcome::NoPath => panic!("the chain connects the first node to the last"),
    }
}

#[test]
fn single_node_graph() {
    let graph = Graph::new(vec![(7, -3)], vec![vec![0]]).unwrap();
    assert_eq!(find_path(&graph), SearchOutcome::Found { path: vec![1], cost: 0 });
}

#[test]
fn single_node_graph_with_a_loop() {
    let graph = Graph::new(vec![(0, 0)], vec![vec![1]]).unwrap();
    assert_eq!(find_path(&graph), SearchOutcome::Found { path: vec![1], cost: 0 });
}

#[test]
fn goal_in_another_component() {
    let nodes = vec![(0, 0), (1, 0), (5, 5)];
    let matrix = vec![vec![0, 1, 0], vec![1, 0, 0], vec![0, 0, 0]];
    let graph = Graph::new(nodes, matrix).unwrap();
    assert_eq!(find_path(&graph), SearchOutcome::NoPath);
}

#[test]
fn graph_without_edges() {
    let graph = Graph::new(vec![(0, 0), (1, 0)], vec![vec![0; 2]; 2]).unwrap();
    assert_eq!(find_path(&graph), SearchOutcome::NoPath);
}

#[test]
fn edge_is_followed_from_column_to_row() {
    let nodes = vec![(0, 0), (3, 4)];
    let forward = Graph::new(nodes.clone(), vec![vec![0, 0], vec![1, 0]]).unwrap();
    assert_eq!(find_path(&forward), SearchOutcome::Found { path: vec![1, 2], cost: 5_000_000 });
    let backward = Graph::new(nodes, vec![vec![0, 1], vec![0, 0]]).unwrap();
    assert_eq!(find_path(&backward), SearchOutcome::NoPath);
}

#[test]
fn detour_is_taken_when_it_is_shorter() {
    // 0 -- 1 -- 3 is short; 0 -- 2 -- 3 leads far away.
    let nodes = vec![(0, 0), (1, 1), (10, -10), (2, 2)];
    let mut matrix = vec![vec![0u8; 4]; 4];
    for (a, b) in [(0, 1), (1, 3), (0, 2), (2, 3)] {
        matrix[a][b] = 1;
        matrix[b][a] = 1;
    }
    let graph = Graph::new(nodes, matrix).unwrap();
    assert_eq!(
        find_path(&graph),
        SearchOutcome::Found { path: vec![1, 2, 4], cost: 2 * 1_414_214 }
    );
}

#[test]
fn direct_edge_beats_a_chain() {
    let nodes = vec![(0, 0), (0, 5), (5, 5), (5, 0)];
    let mut matrix = chain_matrix(4);
    matrix[3][0] = 1;
    matrix[0][3] = 1;
    let graph = Graph::new(nodes, matrix).unwrap();
    assert_eq!(find_path(&graph), SearchOutcome::Found { path: vec![1, 4], cost: 5_000_000 });
}

#[test]
fn cheaper_way_found_later_replaces_the_first() {
    // Node 3 is first reached over node 1, which looks better because it lies
    // towards the goal, and then more cheaply over node 2.
    let nodes = vec![(0, 0), (1, 0), (-1, 0), (-1, 1), (10, 0)];
    let mut matrix = vec![vec![0u8; 5]; 5];
    for (a, b) in [(0, 1), (0, 2), (1, 3), (2, 3), (3, 4)] {
        matrix[a][b] = 1;
        matrix[b][a] = 1;
    }
    let graph = Graph::new(nodes, matrix).unwrap();
    let mut driver = SearchDriver::new(&graph);
    driver.step();
    driver.step();
    assert_eq!(driver.state(), SearchState::Running);
    driver.run();
    assert_eq!(driver.path(), Ok(vec![1, 3, 4, 5]));
    assert_eq!(driver.cost(), Some(1_000_000 + 1_000_000 + 11_045_362));
    assert_eq!(
        find_path(&graph),
        SearchOutcome::Found { path: vec![1, 3, 4, 5], cost: 13_045_362 }
    );
    assert_eq!(cheapest_by_enumeration(&graph), Some(13_045_362));
}

#[test]
fn equal_ways_cost_the_same() {
    let nodes = vec![(0, 0), (4, 0), (0, 3), (4, 3), (8, 3)];
    let mut matrix = vec![vec![0u8; 5]; 5];
    for (a, b) in [(0, 1), (0, 2), (2, 3), (1, 3), (3, 4)] {
        matrix[a][b] = 1;
        matrix[b][a] = 1;
    }
    let graph = Graph::new(nodes, matrix).unwrap();
    match find_path(&graph) {
        SearchOutcome::Found { path, cost } => {
            assert_eq!(cost, 11_000_000);
            assert_eq!(cost, cost_along(&graph, &path));
            assert_eq!(Some(cost), cheapest_by_enumeration(&graph));
        }
        SearchOutcome::NoPath => panic!("the goal can be reached"),
    }
}

#[test]
fn nodes_on_the_same_point_cost_nothing() {
    let nodes = vec![(1, 1), (1, 1), (1, 1), (1, 1)];
    let mut matrix = vec![vec![1u8; 4]; 4];
    matrix[3][0] = 0;
    matrix[0][3] = 0;
    let graph = Graph::new(nodes, matrix).unwrap();
    match find_path(&graph) {
        SearchOutcome::Found { path, cost } => {
            assert_eq!(cost, 0);
            assert_eq!(path.first(), Some(&1));
            assert_eq!(path.last(), Some(&4));
            assert_eq!(path.len(), 3);
        }
        SearchOutcome::NoPath => panic!("the goal can be reached"),
    }
}

#[test]
fn equal_candidates_are_told_apart_by_node_index() {
    // Two ways of the same length, over node 1 and over node 2.
    let nodes = vec![(0, 0), (1, 1), (1, -1), (2, 0)];
    let mut matrix = vec![vec![0u8; 4]; 4];
    for (a, b) in [(0, 1), (0, 2), (1, 3), (2, 3)] {
        matrix[a][b] = 1;
        matrix[b][a] = 1;
    }
    let graph = Graph::new(nodes, matrix).unwrap();
    let first = find_path(&graph);
    assert_eq!(first, SearchOutcome::Found { path: vec![1, 2, 4], cost: 2 * 1_414_214 });
    for _ in 0..20 {
        assert_eq!(find_path(&graph), first);
    }
}

#[test]
fn repeated_searches_agree() {
    for seed in 0..20u64 {
        let graph = scattered_graph(seed, 9, 25, true);
        let first = find_path(&graph);
        let second = find_path(&graph);
        assert_eq!(first, second);
    }
}

#[test]
fn cost_is_the_least_of_all_paths() {
    for seed in 0..60u64 {
        let graph = scattered_graph(seed, 7, 30, true);
        let expected = cheapest_by_enumeration(&graph);
        match find_path(&graph) {
            SearchOutcome::Found { cost, .. } => assert_eq!(Some(cost), expected),
            SearchOutcome::NoPath => assert_eq!(None, expected),
        }
    }
}

#[test]
fn cost_is_the_least_of_all_paths_in_one_way_graphs() {
    for seed in 100..160u64 {
        let graph = scattered_graph(seed, 7, 25, false);
        let expected = cheapest_by_enumeration(&graph);
        match find_path(&graph) {
            SearchOutcome::Found { cost, .. } => assert_eq!(Some(cost), expected),
            SearchOutcome::NoPath => assert_eq!(None, expected),
        }
    }
}

#[test]
fn path_follows_edges_from_start_to_goal() {
    for seed in 200..260u64 {
        let graph = scattered_graph(seed, 10, 20, seed % 2 == 0);
        if let SearchOutcome::Found { path, cost } = find_path(&graph) {
            assert_eq!(path[0], graph.start() + 1);
            assert_eq!(path[path.len() - 1], graph.goal() + 1);
            for pair in path.windows(2) {
                assert!(graph.is_adjacent(pair[0] - 1, pair[1] - 1));
            }
            assert_eq!(cost, cost_along(&graph, &path));
        }
    }
}

#[test]
fn heuristic_never_overestimates() {
    for seed in 300..330u64 {
        let graph = scattered_graph(seed, 8, 35, true);
        if let SearchOutcome::Found { cost, .. } = find_path(&graph) {
            assert!(graph.distance(graph.start(), graph.goal()) <= cost);
        }
    }
}

#[test]
fn driver_goes_through_its_states() {
    let nodes = vec![(0, 0), (1, 0), (2, 0)];
    let graph = Graph::new(nodes, chain_matrix(3)).unwrap();
    let mut driver = SearchDriver::new(&graph);
    assert_eq!(driver.state(), SearchState::Running);
    assert_eq!(driver.cost(), None);
    assert_eq!(driver.path(), Err(SearchError::InternalInvariant));
    driver.step();
    assert_eq!(driver.state(), SearchState::Running);
    driver.step();
    assert_eq!(driver.state(), SearchState::Running);
    assert_eq!(driver.path(), Err(SearchError::InternalInvariant));
    driver.step();
    assert_eq!(driver.state(), SearchState::Found);
    assert_eq!(driver.cost(), Some(2_000_000));
    assert_eq!(driver.path(), Ok(vec![1, 2, 3]));
    driver.step();
    assert_eq!(driver.state(), SearchState::Found);
    assert_eq!(driver.cost(), Some(2_000_000));
    assert_eq!(driver.path(), Ok(vec![1, 2, 3]));
}

#[test]
fn driver_runs_out_of_candidates() {
    let graph = Graph::new(vec![(0, 0), (1, 0)], vec![vec![0; 2]; 2]).unwrap();
    let mut driver = SearchDriver::new(&graph);
    driver.step();
    assert_eq!(driver.state(), SearchState::Running);
    driver.step();
    assert_eq!(driver.state(), SearchState::Exhausted);
    assert_eq!(driver.cost(), None);
    assert_eq!(driver.path(), Err(SearchError::InternalInvariant));
    driver.step();
    assert_eq!(driver.state(), SearchState::Exhausted);
}

#[test]
fn driver_run_ends_the_search() {
    let found = scattered_graph(7, 8, 40, true);
    let mut driver = SearchDriver::new(&found);
    driver.run();
    assert_ne!(driver.state(), SearchState::Running);
    let outcome = find_path(&found);
    match driver.state() {
        SearchState::Found => {
            let path = driver.path().unwrap();
            let cost = driver.cost().unwrap();
            assert_eq!(outcome, SearchOutcome::Found { path, cost });
        }
        _ => assert_eq!(outcome, SearchOutcome::NoPath),
    }
}

#[test]
fn long_chain_is_searched_to_its_end() {
    let n = 300;
    let nodes: Vec<(i32, i32)> = (0..n).map(|i| (i as i32, 0)).collect();
    let graph = Graph::new(nodes, chain_matrix(n)).unwrap();
    assert_eq!(
        find_path(&graph),
        SearchOutcome::Found { path: (1..=n).collect(), cost: (n as u128 - 1) * 1_000_000 }
    );
}

#[test]
fn outcome_can_be_copied() {
    let graph = Graph::new(vec![(0, 0), (0, 2)], chain_matrix(2)).unwrap();
    let outcome = find_path(&graph);
    assert_eq!(outcome.clone(), outcome);
    assert_eq!(outcome, SearchOutcome::Found { path: vec![1, 2], cost: 2_000_000 });
}

#[test]
fn no_node_is_improved_after_it_has_left_the_frontier() {
    for seed in 400..440u64 {
        let graph = scattered_graph(seed, 9, 30, seed % 2 == 0);
        let goal = graph.goal();
        let mut ledger = CostLedger::new();
        let mut frontier = Frontier::new();
        let mut settled: Vec<Option<u128>> = vec![None; graph.amount()];
        ledger.record(graph.start(), 0, None);
        frontier.push(NodeCost { cost: 0, node: graph.start() });
        let mut found = None;
        while let Some(current) = frontier.pop_min() {
            let here = ledger.get_cost(current.node).unwrap();
            match settled[current.node] {
                Some(cost) => assert_eq!(cost, here),
                None => settled[current.node] = Some(here),
            }
            if current.node == goal {
                found = Some(here);
                break;
            }
            for nb in graph.neighbors(current.node) {
                let tentative = here + graph.distance(current.node, nb);
                if ledger.get_cost(nb).map_or(true, |known| tentative < known) {
                    assert_eq!(settled[nb], None);
                    ledger.record(nb, tentative, Some(current.node));
                    let estimate = tentative + graph.distance(nb, goal);
                    frontier.push(NodeCost { cost: estimate, node: nb });
                }
            }
        }
        match find_path(&graph) {
            SearchOutcome::Found { cost, .. } => assert_eq!(found, Some(cost)),
            SearchOutcome::NoPath => assert_eq!(found, None),
        }
    }
}

#[test]
fn driver_shows_its_ledger() {
    let nodes = vec![(0, 0), (3, 4), (6, 8), (100, 100)];
    let mut matrix = chain_matrix(3);
    for row in matrix.iter_mut() {
        row.push(0);
    }
    matrix.push(vec![0, 0, 1, 0]);
    let graph = Graph::new(nodes, matrix).unwrap();
    let mut driver = SearchDriver::new(&graph);
    assert_eq!(driver.ledger().get_cost(0), Some(0));
    assert_eq!(driver.ledger().get_cost(1), None);
    driver.step();
    assert_eq!(driver.ledger().get_cost(1), Some(5_000_000));
    assert_eq!(driver.ledger().predecessor_of(1), Some(0));
    assert_eq!(driver.ledger().get_cost(2), None);
    driver.run();
    assert_eq!(driver.state(), SearchState::Found);
    assert_eq!(driver.ledger().get_cost(2), Some(10_000_000));
    assert_eq!(driver.ledger().predecessor_of(2), Some(1));
    assert_eq!(driver.ledger().predecessor_of(3), Some(2));
    assert_eq!(driver.ledger().predecessor_of(0), None);
}

#[test]
fn estimate_is_cost_plus_distance_to_the_goal() {
    let nodes = vec![(0, 0), (3, 4), (0, 5), (6, 8)];
    let mut matrix = vec![vec![0u8; 4]; 4];
    for (a, b) in [(0, 1), (0, 2), (1, 3), (2, 3)] {
        matrix[a][b] = 1;
        matrix[b][a] = 1;
    }
    let graph = Graph::new(nodes, matrix).unwrap();
    let mut driver = SearchDriver::new(&graph);
    assert_eq!(driver.frontier().peek_min(), Some(NodeCost { cost: 0, node: 0 }));
    driver.step();
    // Node 1 is reached at 5 and lies 5 from the goal; node 2 is reached at
    // 5 and lies the root of 45 from the goal.
    assert_eq!(driver.frontier().len(), 2);
    assert_eq!(driver.frontier().peek_min(), Some(NodeCost { cost: 10_000_000, node: 1 }));
    driver.step();
    // The goal is reached over node 1 at 10; nothing is left to travel.
    assert_eq!(driver.frontier().len(), 2);
    assert_eq!(driver.frontier().peek_min(), Some(NodeCost { cost: 10_000_000, node: 3 }));
    assert_eq!(driver.ledger().get_cost(3), Some(10_000_000));
    driver.step();
    assert_eq!(driver.state(), SearchState::Found);
    let left = NodeCost { cost: 5_000_000 + 6_708_204, node: 2 };
    assert_eq!(driver.frontier().peek_min(), Some(left));
}

#[test]
fn exhausted_search_has_no_path_to_reconstruct() {
    let nodes = vec![(0, 0), (1, 0), (5, 5)];
    let matrix = vec![vec![0, 1, 0], vec![1, 0, 0], vec![0, 0, 0]];
    let graph = Graph::new(nodes, matrix).unwrap();
    let mut driver = SearchDriver::new(&graph);
    driver.run();
    assert_eq!(driver.state(), SearchState::Exhausted);
    let links = driver.ledger().predecessors();
    assert_eq!(reconstruct_path(links, graph.goal()), Err(SearchError::InternalInvariant));
    assert_eq!(reconstruct_path(links, 1), Ok(vec![1, 2]));
    assert_eq!(reconstruct_path(links, graph.start()), Ok(vec![1]));
}

#[test]
fn running_search_has_no_path_to_the_goal_yet() {
    let nodes = vec![(0, 0), (1, 0), (2, 0), (3, 0)];
    let graph = Graph::new(nodes, chain_matrix(4)).unwrap();
    let mut driver = SearchDriver::new(&graph);
    let goal = graph.goal();
    assert_eq!(
        reconstruct_path(driver.ledger().predecessors(), goal),
        Err(SearchError::InternalInvariant)
    );
    driver.step();
    assert_eq!(
        reconstruct_path(driver.ledger().predecessors(), goal),
        Err(SearchError::InternalInvariant)
    );
    driver.run();
    assert_eq!(reconstruct_path(driver.ledger().predecessors(), goal), Ok(vec![1, 2, 3, 4]));
}
