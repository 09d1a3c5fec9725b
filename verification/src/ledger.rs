//! The cost ledger: what a search knows of each node it has reached.

use std::collections::HashMap;
use vstd::prelude::*;

verus! {

broadcast use vstd::std_specs::hash::group_hash_axioms;

/// For each node reached so far, the cost of the best path known from the
/// start to the node and the node just before it on that path. The ledger
/// compares nothing: whoever records an entry decides that it is better.
#[derive(Debug)]
pub struct CostLedger {
    travelled_cost: HashMap<usize, u128>,
    prev_node: HashMap<usize, usize>,
}

impl CostLedger {
    /// The cost recorded for each node.
    pub closed spec fn costs(&self) -> Map<usize, u128> {
        self.travelled_cost@
    }

    /// The predecessor recorded for each node that has one.
    pub closed spec fn preds(&self) -> Map<usize, usize> {
        self.prev_node@
    }

    /// Only nodes with a recorded cost have a recorded predecessor.
    pub open spec fn wf(&self) -> bool {
        &&& self.costs().dom().finite()
        &&& self.preds().dom().finite()
        &&& forall|node: usize| self.preds().contains_key(node) ==> self.costs().contains_key(node)
    }

    /// A ledger without entries.
    pub fn new() -> (ledger: CostLedger)
        ensures
            ledger.wf(),
            ledger.costs() == Map::<usize, u128>::empty(),
            ledger.preds() == Map::<usize, usize>::empty(),
    {
        CostLedger { travelled_cost: HashMap::new(), prev_node: HashMap::new() }
    }

    /// The best cost known for `node`, if it has been reached.
    pub fn get_cost(&self, node: usize) -> (cost: Option<u128>)
        ensures
            cost == (if self.costs().contains_key(node) {
                Some(self.costs()[node])
            } else {
                None
            }),
    {
        match self.travelled_cost.get(&node) {
            Some(cost) => Some(*cost),
            None => None,
        }
    }

    /// The node before `node` on the best path known to it, if there is one.
    pub fn predecessor_of(&self, node: usize) -> (pred: Option<usize>)
        ensures
            pred == (if self.preds().contains_key(node) {
                Some(self.preds()[node])
            } else {
                None
            }),
    {
        match self.prev_node.get(&node) {
            Some(pred) => Some(*pred),
            None => None,
        }
    }

    /// Replaces whatever is recorded for `node` by `cost` and `predecessor`.
    pub fn record(&mut self, node: usize, cost: u128, predecessor: Option<usize>)
        requires
            old(self).wf(),
        ensures
            final(self).wf(),
            final(self).costs() == old(self).costs().insert(node, cost),
            final(self).preds() == (match predecessor {
                Some(pred) => old(self).preds().insert(node, pred),
                None => old(self).preds().remove(node),
            }),
    {
        self.travelled_cost.insert(node, cost);
        match predecessor {
            Some(pred) => {
                self.prev_node.insert(node, pred);
            },
            None => {
                self.prev_node.remove(&node);
            },
        }
    }

    /// All recorded predecessors, keyed by node.
    pub fn predecessors(&self) -> (preds: &HashMap<usize, usize>)
        ensures
            preds@ == self.preds(),
    {
        &self.prev_node
    }

    /// The number of nodes reached so far.
    pub fn len(&self) -> (n: usize)
        ensures
            n == self.costs().dom().len(),
    {
        self.travelled_cost.len()
    }
}

} // verus!
