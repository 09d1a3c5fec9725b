//! What a search reports when it has ended.

use vstd::prelude::*;
use crate::graph::GraphView;
use crate::model::{SearchModel, SearchState};
use crate::reconstruct::{node_numbers, path_from_start};

verus! {

/// The result of a search. That there is no path is a result like any
/// other, not an error.
#[derive(Debug, PartialEq, Eq)]
pub enum SearchOutcome {
    /// A cheapest path from the start to the goal.
    Found {
        /// The nodes of the path in order, as node numbers that start at one.
        path: Vec<usize>,
        /// What the path costs: the sum of the distances between its
        /// consecutive nodes, in units of `1 / SCALE`.
        cost: u128,
    },
    /// No path leads from the start to the goal.
    NoPath,
}

/// A search result as mathematics.
pub enum OutcomeView {
    /// A path, as node numbers that start at one, and its cost.
    Found { path: Seq<usize>, cost: nat },
    /// No path.
    NoPath,
}

impl View for SearchOutcome {
    type V = OutcomeView;

    open spec fn view(&self) -> OutcomeView {
        match self {
            SearchOutcome::Found { path, cost } => OutcomeView::Found {
                path: path@,
                cost: *cost as nat,
            },
            SearchOutcome::NoPath => OutcomeView::NoPath,
        }
    }
}

impl Clone for SearchOutcome {
    fn clone(&self) -> (copy: SearchOutcome)
        ensures
            copy@ == self@,
    {
        match self {
            SearchOutcome::Found { path, cost } => {
                let copied: Vec<usize> = path.clone();
                assert(copied@ =~= path@);
                SearchOutcome::Found { path: copied, cost: *cost }
            },
            SearchOutcome::NoPath => SearchOutcome::NoPath,
        }
    }
}

/// The node indices behind a sequence of node numbers.
pub open spec fn zero_based(numbers: Seq<usize>) -> Seq<usize> {
    Seq::new(numbers.len(), |i: int| (numbers[i] - 1) as usize)
}

/// `path` numbers the nodes of a walk from the start to the goal of `g`
/// that costs `cost`, and no walk from the start to the goal costs less.
pub open spec fn is_best_path(g: GraphView, path: Seq<usize>, cost: nat) -> bool {
    &&& forall|i: int| 0 <= i < path.len() ==> 1 <= #[trigger] path[i] <= g.amount()
    &&& g.connects(zero_based(path), g.start(), g.goal())
    &&& g.walk_cost(zero_based(path)) == cost
    &&& forall|p: Seq<usize>| #[trigger]
        g.connects(p, g.start(), g.goal()) ==> cost <= g.walk_cost(p)
}

/// What is reported of a search that has ended in state `m`: if the goal was
/// found, the path from the start to the goal that the predecessor links
/// describe and the cost recorded for the goal.
pub open spec fn report(g: GraphView, m: SearchModel) -> OutcomeView {
    if m.state == SearchState::Found {
        OutcomeView::Found {
            path: node_numbers(path_from_start(m.preds, g.goal())->0),
            cost: m.costs[g.goal()] as nat,
        }
    } else {
        OutcomeView::NoPath
    }
}

/// `outcome` is what a search on `g` reports: the search, taken step by
/// step from its initial state, ends after some number of steps, and
/// `outcome` is the report of the state it ends in.
pub open spec fn is_search_result(g: GraphView, outcome: OutcomeView) -> bool {
    exists|steps: nat| #[trigger] ends_with(g, steps, outcome)
}

/// After `steps` steps the search on `g` has ended, with `outcome` to
/// report.
pub open spec fn ends_with(g: GraphView, steps: nat, outcome: OutcomeView) -> bool {
    &&& SearchModel::initial(g).run(g, steps).state != SearchState::Running
    &&& outcome == report(g, SearchModel::initial(g).run(g, steps))
}

} // verus!
