use astar::frontier::{Frontier, NodeCost};
use std::cmp::Ordering;

#[test]
fn empty_frontier_gives_nothing() {
    let mut frontier = Frontier::new();
    assert!(frontier.is_empty());
    assert_eq!(frontier.len(), 0);
    assert_eq!(frontier.pop_min(), None);
    assert!(frontier.is_empty());
}

#[test]
fn cheapest_entry_leaves_first() {
    let mut frontier = Frontier::new();
    for (cost, node) in [(5u128, 1usize), (3, 2), (9, 0), (1, 7), (4, 4)] {
        frontier.push(NodeCost { cost, node });
    }
    assert_eq!(frontier.len(), 5);
    let mut costs = Vec::new();
    while let Some(entry) = frontier.pop_min() {
        costs.push(entry.cost);
    }
    assert_eq!(costs, vec![1, 3, 4, 5, 9]);
}

#[test]
fn equal_costs_leave_by_node_index() {
    let mut frontier = Frontier::new();
    for node in [4usize, 0, 3, 1, 2] {
        frontier.push(NodeCost { cost: 10, node });
    }
    frontier.push(NodeCost { cost: 9, node: 8 });
    let mut nodes = Vec::new();
    while let Some(entry) = frontier.pop_min() {
        nodes.push(entry.node);
    }
    assert_eq!(nodes, vec![8, 0, 1, 2, 3, 4]);
}

#[test]
fn stale_entries_for_a_node_stay() {
    let mut frontier = Frontier::new();
    frontier.push(NodeCost { cost: 7, node: 3 });
    frontier.push(NodeCost { cost: 5, node: 3 });
    frontier.push(NodeCost { cost: 7, node: 3 });
    assert_eq!(frontier.len(), 3);
    assert_eq!(frontier.pop_min(), Some(NodeCost { cost: 5, node: 3 }));
    assert_eq!(frontier.pop_min(), Some(NodeCost { cost: 7, node: 3 }));
    assert_eq!(frontier.pop_min(), Some(NodeCost { cost: 7, node: 3 }));
    assert_eq!(frontier.pop_min(), None);
}

#[test]
fn frontier_sorts_many_entries() {
    let mut frontier = Frontier::new();
    let mut expected = Vec::new();
    let mut x: u64 = 12345;
    for _ in 0..500 {
        x = x.wrapping_mul(6364136223846793005).wrapping_add(1442695040888963407);
        let entry = NodeCost { cost: ((x >> 33) % 50) as u128, node: ((x >> 20) % 20) as usize };
        expected.push((entry.cost, entry.node));
        frontier.push(entry);
    }
    expected.sort();
    let mut popped = Vec::new();
    while let Some(entry) = frontier.pop_min() {
        popped.push((entry.cost, entry.node));
    }
    assert_eq!(popped, expected);
}

#[test]
fn pushes_and_pops_interleave() {
    let mut frontier = Frontier::new();
    frontier.push(NodeCost { cost: 4, node: 0 });
    frontier.push(NodeCost { cost: 2, node: 0 });
    assert_eq!(frontier.pop_min(), Some(NodeCost { cost: 2, node: 0 }));
    frontier.push(NodeCost { cost: 1, node: 5 });
    frontier.push(NodeCost { cost: 6, node: 5 });
    assert_eq!(frontier.pop_min(), Some(NodeCost { cost: 1, node: 5 }));
    assert_eq!(frontier.pop_min(), Some(NodeCost { cost: 4, node: 0 }));
    assert_eq!(frontier.pop_min(), Some(NodeCost { cost: 6, node: 5 }));
    assert!(frontier.is_empty());
}

#[test]
fn entries_compare_by_cost_then_node() {
    let a = NodeCost { cost: 1, node: 9 };
    let b = NodeCost { cost: 2, node: 0 };
    let c = NodeCost { cost: 2, node: 1 };
    assert_eq!(a.partial_cmp(&b), Some(Ordering::Less));
    assert_eq!(b.partial_cmp(&a), Some(Ordering::Greater));
    assert_eq!(b.partial_cmp(&c), Some(Ordering::Less));
    assert_eq!(c.partial_cmp(&b), Some(Ordering::Greater));
    assert_eq!(c.partial_cmp(&c), Some(Ordering::Equal));
    assert!(a < b && b < c && a < c);
    assert!(!(c < c));
}

#[test]
fn entries_are_compared_in_three_ways() {
    let a = NodeCost { cost: 3, node: 1 };
    let b = NodeCost { cost: 3, node: 2 };
    let c = NodeCost { cost: 4, node: 0 };
    assert_eq!(a.cmp(&b), Ordering::Less);
    assert_eq!(b.cmp(&a), Ordering::Greater);
    assert_eq!(b.cmp(&c), Ordering::Less);
    assert_eq!(c.cmp(&a), Ordering::Greater);
    assert_eq!(a.cmp(&a), Ordering::Equal);
}

#[test]
fn both_orders_of_entries_agree() {
    let entries = [
        NodeCost { cost: 0, node: 0 },
        NodeCost { cost: 0, node: 3 },
        NodeCost { cost: 5, node: 1 },
        NodeCost { cost: 5, node: 2 },
        NodeCost { cost: u128::MAX, node: usize::MAX },
    ];
    for a in entries {
        for b in entries {
            assert_eq!(a.partial_cmp(&b), Some(a.cmp(&b)));
            assert_eq!(a.cmp(&b), Ord::cmp(&a, &b));
            assert_eq!(a.cmp(&b) == Ordering::Equal, a == b);
        }
    }
}

#[test]
fn peek_shows_what_pop_takes() {
    let mut frontier = Frontier::new();
    assert_eq!(frontier.peek_min(), None);
    frontier.push(NodeCost { cost: 8, node: 2 });
    frontier.push(NodeCost { cost: 8, node: 1 });
    frontier.push(NodeCost { cost: 9, node: 0 });
    assert_eq!(frontier.peek_min(), Some(NodeCost { cost: 8, node: 1 }));
    assert_eq!(frontier.len(), 3);
    assert_eq!(frontier.pop_min(), Some(NodeCost { cost: 8, node: 1 }));
    assert_eq!(frontier.peek_min(), Some(NodeCost { cost: 8, node: 2 }));
}
