use astar::ledger::CostLedger;

#[test]
fn new_ledger_knows_nothing() {
    let ledger = CostLedger::new();
    assert_eq!(ledger.len(), 0);
    assert_eq!(ledger.get_cost(0), None);
    assert_eq!(ledger.predecessor_of(0), None);
    assert!(ledger.predecessors().is_empty());
}

#[test]
fn record_writes_cost_and_predecessor() {
    let mut ledger = CostLedger::new();
    ledger.record(0, 0, None);
    ledger.record(4, 17, Some(0));
    assert_eq!(ledger.len(), 2);
    assert_eq!(ledger.get_cost(0), Some(0));
    assert_eq!(ledger.predecessor_of(0), None);
    assert_eq!(ledger.get_cost(4), Some(17));
    assert_eq!(ledger.predecessor_of(4), Some(0));
    assert_eq!(ledger.get_cost(1), None);
    assert_eq!(ledger.predecessors().get(&4), Some(&0));
}

#[test]
fn record_overwrites_without_comparing() {
    let mut ledger = CostLedger::new();
    ledger.record(2, 10, Some(1));
    ledger.record(2, 25, Some(3));
    assert_eq!(ledger.get_cost(2), Some(25));
    assert_eq!(ledger.predecessor_of(2), Some(3));
    assert_eq!(ledger.len(), 1);
    ledger.record(2, 5, None);
    assert_eq!(ledger.get_cost(2), Some(5));
    assert_eq!(ledger.predecessor_of(2), None);
}
