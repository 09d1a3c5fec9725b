//! The search as mathematics: what one step does to the ledger and the
//! frontier, and what holds of them before and after every step.

use vstd::prelude::*;
use vstd::multiset::Multiset;
use crate::frontier::{min_entry, NodeCost};
use crate::geometry::MAX_DISTANCE;
use crate::graph::GraphView;

verus! {

/// Where a search stands.
#[derive(Debug, Clone, Copy, PartialEq, Eq, Structural)]
pub enum SearchState {
    /// The frontier may still hold the goal.
    Running,
    /// The goal has left the frontier: the ledger holds a best path to it.
    Found,
    /// The frontier ran empty before the goal left it: there is no path.
    Exhausted,
}

/// The state of a search: the two maps of the ledger, the entries of the
/// frontier, and how far the search has come.
pub struct SearchModel {
    /// The best cost known for each node reached so far.
    pub costs: Map<usize, u128>,
    /// The node before each reached node on the best path known to it.
    pub preds: Map<usize, usize>,
    /// The entries that wait in the frontier.
    pub frontier: Multiset<NodeCost>,
    /// Whether the search still runs, and how it ended if it does not.
    pub state: SearchState,
}

impl SearchModel {
    /// The state a search begins in: the start reached at cost zero, and one
    /// entry for it in the frontier, with an estimate of zero.
    pub open spec fn initial(g: GraphView) -> SearchModel {
        SearchModel {
            costs: Map::<usize, u128>::empty().insert(g.start(), 0),
            preds: Map::<usize, usize>::empty(),
            frontier: Multiset::<NodeCost>::empty().insert(NodeCost { cost: 0, node: g.start() }),
            state: SearchState::Running,
        }
    }

    /// The cost of reaching `nb` by way of `current`.
    pub open spec fn tentative(self, g: GraphView, current: usize, nb: usize) -> int {
        self.costs[current] + g.dist(current, nb)
    }

    /// Whether reaching `nb` by way of `current` is news: `nb` was not
    /// reached before, or only at a strictly higher cost.
    pub open spec fn improves(self, g: GraphView, current: usize, nb: usize) -> bool {
        !self.costs.contains_key(nb) || self.tentative(g, current, nb) < self.costs[nb]
    }

    /// Relaxation of the edge from `current` to `nb`. Where it improves on
    /// what is known of `nb`, the ledger records the new cost with `current`
    /// as predecessor, and the frontier gets an entry for `nb` whose estimate
    /// is the new cost plus the distance from `nb` to the goal. Otherwise
    /// nothing changes.
    pub open spec fn relax(self, g: GraphView, current: usize, nb: usize) -> SearchModel {
        if self.improves(g, current, nb) {
            SearchModel {
                costs: self.costs.insert(nb, self.tentative(g, current, nb) as u128),
                preds: self.preds.insert(nb, current),
                frontier: self.frontier.insert(
                    NodeCost {
                        cost: (self.tentative(g, current, nb) + g.heuristic(nb)) as u128,
                        node: nb,
                    },
                ),
                state: self.state,
            }
        } else {
            self
        }
    }

    /// Relaxation of the edges from `current` to each of `nbs`, in order.
    pub open spec fn expand(self, g: GraphView, current: usize, nbs: Seq<usize>) -> SearchModel
        decreases nbs.len(),
    {
        if nbs.len() == 0 {
            self
        } else {
            self.expand(g, current, nbs.drop_last()).relax(g, current, nbs.last())
        }
    }

    /// The same state with `entry` taken out of the frontier once.
    pub open spec fn without(self, entry: NodeCost) -> SearchModel {
        SearchModel { frontier: self.frontier.remove(entry), ..self }
    }

    /// The same state with another standing.
    pub open spec fn in_state(self, state: SearchState) -> SearchModel {
        SearchModel { state, ..self }
    }

    /// One step of the search with `entry` as the least entry of the
    /// frontier: the search ends if `entry` is for the goal, and expands the
    /// node of `entry` otherwise.
    pub open spec fn step_with(self, g: GraphView, entry: NodeCost) -> SearchModel {
        if entry.node == g.goal() {
            self.without(entry).in_state(SearchState::Found)
        } else {
            self.without(entry).expand(g, entry.node, g.neighbors(entry.node))
        }
    }

    /// One step of the search. A search that has ended stays as it is. One
    /// whose frontier is empty is exhausted. Otherwise the least entry
    /// leaves the frontier and decides.
    pub open spec fn step(self, g: GraphView) -> SearchModel {
        if self.state != SearchState::Running {
            self
        } else if self.frontier.len() == 0 {
            self.in_state(SearchState::Exhausted)
        } else {
            self.step_with(g, min_entry(self.frontier))
        }
    }

    /// The state after `steps` steps.
    pub open spec fn run(self, g: GraphView, steps: nat) -> SearchModel
        decreases steps,
    {
        if steps == 0 {
            self
        } else {
            self.run(g, (steps - 1) as nat).step(g)
        }
    }

    /// The estimate that the frontier holds for a node at its present cost:
    /// zero for the start, and the cost plus the distance to the goal for
    /// every other node.
    pub open spec fn key(self, g: GraphView, v: usize) -> int {
        if v == g.start() {
            0
        } else {
            self.costs[v] + g.heuristic(v)
        }
    }

    /// The frontier entry for a node at its present cost.
    pub open spec fn entry_of(self, g: GraphView, v: usize) -> NodeCost {
        NodeCost { cost: self.key(g, v) as u128, node: v }
    }

    /// The node waits in the frontier at its present cost.
    pub open spec fn is_open(self, g: GraphView, v: usize) -> bool {
        self.frontier.count(self.entry_of(g, v)) > 0
    }

    /// `nb` is reached, at no more than the cost of `v` plus the distance
    /// between the two.
    pub open spec fn within_reach(self, g: GraphView, v: usize, nb: usize) -> bool {
        self.costs.contains_key(nb) && self.costs[nb] <= self.costs[v] + g.dist(v, nb)
    }

    /// Every edge out of the node has been relaxed at its present cost.
    pub open spec fn is_closed(self, g: GraphView, v: usize) -> bool {
        forall|nb: usize| #[trigger] g.adjacent(v, nb) ==> self.within_reach(g, v, nb)
    }

    /// The node waits in the frontier at its present cost, or has been
    /// expanded at that cost.
    pub open spec fn is_settled(self, g: GraphView, v: usize) -> bool {
        self.is_open(g, v) || self.is_closed(g, v)
    }

    /// The predecessor of `v` is reached and adjacent to `v`, and `v` costs
    /// at least as much as its predecessor plus the distance between them.
    pub open spec fn link_ok(self, g: GraphView, v: usize) -> bool {
        &&& self.costs.contains_key(v)
        &&& self.costs.contains_key(self.preds[v])
        &&& g.adjacent(self.preds[v], v)
        &&& self.costs[self.preds[v]] + g.dist(self.preds[v], v) <= self.costs[v]
    }

    /// The ledger is sound: the start is reached at cost zero and has no
    /// predecessor, every other reached node has one, and every link holds.
    pub open spec fn ledger_ok(self, g: GraphView) -> bool {
        &&& self.costs.dom().finite()
        &&& self.preds.dom().finite()
        &&& self.costs.contains_key(g.start())
        &&& self.costs[g.start()] == 0
        &&& !self.preds.contains_key(g.start())
        &&& forall|v: usize| #[trigger]
            self.costs.contains_key(v) ==> v < g.amount() && (v != g.start()
                ==> self.preds.contains_key(v))
        &&& forall|v: usize| #[trigger] self.preds.contains_key(v) ==> self.link_ok(g, v)
    }

    /// Along every link the cost drops, or stays and `stamp` drops.
    pub open spec fn ranked(self, g: GraphView, stamp: Map<usize, nat>) -> bool {
        forall|v: usize| #[trigger]
            self.preds.contains_key(v) ==> self.costs[self.preds[v]] + g.dist(self.preds[v], v)
                < self.costs[v] || stamp[self.preds[v]] < stamp[v]
    }

    /// The links do not run in a circle: some numbering of the nodes drops
    /// along every link on which the cost does not.
    pub open spec fn acyclic(self, g: GraphView) -> bool {
        exists|stamp: Map<usize, nat>| self.ranked(g, stamp)
    }

    /// Some walk leads from the start to `v` at exactly the recorded cost.
    pub open spec fn has_witness(self, g: GraphView, v: usize) -> bool {
        exists|p: Seq<usize>| #[trigger]
            g.connects(p, g.start(), v) && g.walk_cost(p) == self.costs[v]
    }

    /// Every recorded cost is the cost of a walk from the start.
    pub open spec fn witnessed(self, g: GraphView) -> bool {
        forall|v: usize| #[trigger] self.costs.contains_key(v) ==> self.has_witness(g, v)
    }

    /// The highest cost that can be recorded while `count` nodes are reached.
    pub open spec fn cost_limit(count: nat) -> int {
        (count - 1) * MAX_DISTANCE
    }

    /// No recorded cost is above the limit.
    pub open spec fn bounded(self, g: GraphView) -> bool {
        forall|v: usize| #[trigger]
            self.costs.contains_key(v) ==> self.costs[v] <= Self::cost_limit(
                self.costs.dom().len(),
            )
    }

    /// Every entry of the frontier is for a reached node, with an estimate
    /// that is no lower than the one the node has now.
    pub open spec fn frontier_ok(self, g: GraphView) -> bool {
        forall|e: NodeCost| #[trigger]
            self.frontier.count(e) > 0 ==> self.costs.contains_key(e.node) && e.cost
                >= self.key(g, e.node)
    }

    /// If the goal is reached, it waits in the frontier.
    pub open spec fn goal_open(self, g: GraphView) -> bool {
        self.costs.contains_key(g.goal()) ==> self.is_open(g, g.goal())
    }

    /// No walk from the start to `v` is cheaper than the recorded cost.
    pub open spec fn is_optimal(self, g: GraphView, v: usize) -> bool {
        forall|p: Seq<usize>| #[trigger]
            g.connects(p, g.start(), v) ==> self.costs[v] <= g.walk_cost(p)
    }

    /// What holds of every part of the state whatever the search does.
    pub open spec fn sound(self, g: GraphView) -> bool {
        &&& g.wf()
        &&& self.ledger_ok(g)
        &&& self.acyclic(g)
        &&& self.witnessed(g)
        &&& self.bounded(g)
        &&& self.frontier_ok(g)
    }

    /// What holds between two steps. While the search runs, every reached
    /// node is settled and the goal, if reached, is open. Once the goal is
    /// found, its cost is the least of any walk. Once the search is
    /// exhausted, no walk leads to the goal.
    #[verifier::opaque]
    pub open spec fn inv(self, g: GraphView) -> bool {
        &&& self.sound(g)
        &&& match self.state {
            SearchState::Running => {
                &&& self.goal_open(g)
                &&& forall|v: usize| #[trigger]
                    self.costs.contains_key(v) ==> self.is_settled(g, v)
            },
            SearchState::Found => {
                &&& self.costs.contains_key(g.goal())
                &&& self.is_optimal(g, g.goal())
            },
            SearchState::Exhausted => forall|p: Seq<usize>|
                !#[trigger] g.connects(p, g.start(), g.goal()),
        }
    }

    /// What holds while `u` is being expanded and the first `done` of its
    /// neighbours have been relaxed: every other reached node is settled, and
    /// the neighbours done are within reach of `u`.
    #[verifier::opaque]
    pub open spec fn expanding(self, g: GraphView, u: usize, done: int) -> bool {
        &&& self.sound(g)
        &&& self.state == SearchState::Running
        &&& self.goal_open(g)
        &&& u != g.goal()
        &&& self.costs.contains_key(u)
        &&& forall|v: usize| #[trigger]
            self.costs.contains_key(v) && v != u ==> self.is_settled(g, v)
        &&& 0 <= done <= g.neighbors(u).len()
        &&& forall|j: int|
            0 <= j < done ==> self.within_reach(g, u, #[trigger] g.neighbors(u)[j])
    }
}

} // verus!
