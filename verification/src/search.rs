//! The search driver: A* from the first node of a graph to its last.

use vstd::prelude::*;
use crate::error::SearchError;
use crate::frontier::{lemma_min_entry_is, Frontier, NodeCost};
use crate::graph::{Graph, GraphView};
use crate::ledger::CostLedger;
use crate::model::{SearchModel, SearchState};
use crate::outcome::{
    ends_with, is_best_path, is_search_result, report, zero_based, OutcomeView, SearchOutcome,
};
use crate::reconstruct::{pred_chain, reconstruct_path};

verus! {

/// One search: the graph it runs on, its ledger, its frontier, and how far
/// it has come. Each call of `step` takes the cheapest entry out of the
/// frontier and either ends the search or expands the node of the entry.
pub struct SearchDriver<'a> {
    graph: &'a Graph,
    ledger: CostLedger,
    frontier: Frontier,
    state: SearchState,
}

impl<'a> View for SearchDriver<'a> {
    type V = SearchModel;

    closed spec fn view(&self) -> SearchModel {
        SearchModel {
            costs: self.ledger.costs(),
            preds: self.ledger.preds(),
            frontier: self.frontier@,
            state: self.state,
        }
    }
}

impl<'a> SearchDriver<'a> {
    /// The graph that the search runs on.
    pub closed spec fn graph(&self) -> GraphView {
        self.graph@
    }

    /// The parts of the driver are well formed, and its state satisfies the
    /// invariant of the search.
    pub closed spec fn inv(&self) -> bool {
        &&& self.ledger.wf()
        &&& self.frontier.wf()
        &&& self@.inv(self.graph@)
    }

    /// What the invariant says of the state.
    pub proof fn lemma_inv(&self)
        requires
            self.inv(),
        ensures
            self@.inv(self.graph()),
    {
    }

    /// A search on `graph` that has not taken a step yet.
    pub fn new(graph: &'a Graph) -> (driver: SearchDriver<'a>)
        ensures
            driver.inv(),
            driver.graph() == graph@,
            driver@ == SearchModel::initial(graph@),
    {
        let start: usize = graph.start();
        let mut ledger = CostLedger::new();
        ledger.record(start, 0, None);
        let mut frontier = Frontier::new();
        frontier.push(NodeCost { cost: 0, node: start });
        proof {
            use_type_invariant(graph);
            SearchModel::lemma_initial(graph@);
            assert(ledger.preds() =~= Map::<usize, usize>::empty());
        }
        SearchDriver { graph, ledger, frontier, state: SearchState::Running }
    }

    /// The ledger of the search.
    pub fn ledger(&self) -> (ledger: &CostLedger)
        ensures
            ledger.costs() == self@.costs,
            ledger.preds() == self@.preds,
    {
        &self.ledger
    }

    /// The frontier of the search.
    pub fn frontier(&self) -> (frontier: &Frontier)
        requires
            self.inv(),
        ensures
            frontier.wf(),
            frontier@ == self@.frontier,
    {
        &self.frontier
    }

    /// Where the search stands.
    pub fn state(&self) -> (state: SearchState)
        ensures
            state == self@.state,
    {
        self.state
    }

    /// The cost of the path that was found: `None` unless the search has
    /// found the goal.
    pub fn cost(&self) -> (cost: Option<u128>)
        requires
            self.inv(),
        ensures
            cost == (if self@.state == SearchState::Found {
                Some(self@.costs[self.graph().goal()])
            } else {
                None
            }),
    {
        match self.state {
            SearchState::Found => {
                proof {
                    self@.lemma_found_path(self.graph@);
                }
                self.ledger.get_cost(self.graph.goal())
            },
            _ => None,
        }
    }

    /// The path that was found, as node numbers that start at one. Fails
    /// unless the search has found the goal. The predecessor links of a
    /// search that has found the goal always lead from the goal back to the
    /// start, so nothing else makes it fail.
    pub fn path(&self) -> (r: Result<Vec<usize>, SearchError>)
        requires
            self.inv(),
        ensures
            match r {
                Ok(path) => {
                    &&& self@.state == SearchState::Found
                    &&& report(self.graph(), self@) == OutcomeView::Found {
                        path: path@,
                        cost: self@.costs[self.graph().goal()] as nat,
                    }
                    &&& is_best_path(self.graph(), path@, self@.costs[self.graph().goal()] as nat)
                },
                Err(e) => e == SearchError::InternalInvariant && self@.state != SearchState::Found,
            },
    {
        match self.state {
            SearchState::Found => {},
            _ => {
                return Err(SearchError::InternalInvariant);
            },
        }
        let goal: usize = self.graph.goal();
        let ghost g: GraphView = self.graph@;
        let ghost m: SearchModel = self@;
        proof {
            m.lemma_found_path(g);
        }
        let r: Result<Vec<usize>, SearchError> = reconstruct_path(
            self.ledger.predecessors(),
            goal,
        );
        proof {
            let chain: Seq<usize> = pred_chain(m.preds, g.goal(), m.preds.len())->0;
            assert(chain[0] == g.start());
            if r is Ok {
                assert(zero_based(r->Ok_0@) =~= chain);
            }
        }
        r
    }

    /// Takes one step. A search that has ended stays as it is. Otherwise the
    /// cheapest entry leaves the frontier. If there is none, the search is
    /// exhausted. If it is for the goal, the goal is found. Otherwise every
    /// edge out of its node is relaxed: a neighbour that is reached for the
    /// first time, or more cheaply than before, is recorded with the node
    /// as predecessor and pushed on the frontier.
    pub fn step(&mut self)
        requires
            old(self).inv(),
        ensures
            final(self).inv(),
            final(self).graph() == old(self).graph(),
            final(self)@ == old(self)@.step(old(self).graph()),
            old(self)@.state == SearchState::Running ==> final(self)@.nearer_than(
                old(self).graph(),
                old(self)@,
            ),
    {
        let ghost before: SearchModel = self@;
        let ghost g: GraphView = self.graph@;
        match self.state {
            SearchState::Running => {},
            _ => {
                return;
            },
        }
        let goal: usize = self.graph.goal();
        match self.frontier.pop_min() {
            None => {
                self.state = SearchState::Exhausted;
                proof {
                    before.lemma_exhausted(g);
                    before.lemma_exhausted_nearer(g);
                    assert(self@ == before.in_state(SearchState::Exhausted));
                }
            },
            Some(current) => {
                proof {
                    lemma_min_entry_is(current, before.frontier);
                    before.lemma_without_nearer(g, current);
                }
                if current.node == goal {
                    self.state = SearchState::Found;
                    proof {
                        before.lemma_found(g, current);
                        assert(self@ == before.without(current).in_state(SearchState::Found));
                    }
                } else {
                    let ghost popped: SearchModel = before.without(current);
                    proof {
                        before.lemma_pop(g, current);
                        assert(self@ == popped);
                    }
                    let nbs: Vec<usize> = self.graph.neighbors(current.node);
                    let mut k: usize = 0;
                    while k < nbs.len()
                        invariant
                            k <= nbs@.len(),
                            nbs@ == g.neighbors(current.node),
                            self.graph@ == g,
                            goal == g.goal(),
                            self.state == SearchState::Running,
                            self.ledger.wf(),
                            self.frontier.wf(),
                            self@ == popped.expand(g, current.node, nbs@.take(k as int)),
                            self@.expanding(g, current.node, k as int),
                            self@.potential(g) <= popped.potential(g),
                            self@.potential(g) == popped.potential(g) ==> self@.frontier
                                == popped.frontier,
                        decreases nbs@.len() - k,
                    {
                        let nb: usize = nbs[k];
                        let ghost here: SearchModel = self@;
                        proof {
                            here.lemma_relax_step(g, current.node, k as int);
                            assert(nbs@.take(k + 1).drop_last() =~= nbs@.take(k as int));
                        }
                        let travelled: u128 = self.ledger.get_cost(current.node).unwrap();
                        let tentative: u128 = travelled + self.graph.distance(current.node, nb);
                        let improves: bool = match self.ledger.get_cost(nb) {
                            Some(known) => tentative < known,
                            None => true,
                        };
                        if improves {
                            self.ledger.record(nb, tentative, Some(current.node));
                            let estimate: u128 = tentative + self.graph.distance(nb, goal);
                            self.frontier.push(NodeCost { cost: estimate, node: nb });
                        }
                        proof {
                            assert(self@ == here.relax(g, current.node, nb));
                        }
                        k = k + 1;
                    }
                    proof {
                        assert(nbs@.take(k as int) =~= nbs@);
                        self@.lemma_expanded(g, current.node);
                    }
                }
            },
        }
    }

    /// Takes steps until the search has ended.
    pub fn run(&mut self)
        requires
            old(self).inv(),
        ensures
            final(self).inv(),
            final(self).graph() == old(self).graph(),
            final(self)@.state != SearchState::Running,
            exists|steps: nat| final(self)@ == #[trigger] old(self)@.run(old(self).graph(), steps),
    {
        let ghost g: GraphView = self.graph@;
        let ghost first: SearchModel = self@;
        let ghost mut steps: nat = 0;
        while self.state == SearchState::Running
            invariant
                self.inv(),
                self.graph@ == g,
                self@ == first.run(g, steps),
            decreases self@.potential(g), self@.slack(),
        {
            self.step();
            proof {
                steps = steps + 1;
            }
        }
        assert(self@ == old(self)@.run(old(self).graph(), steps));
    }
}

/// Searches `graph` for a cheapest path from its first node to its last.
///
/// The result is `Found` exactly if some walk leads from the first node to
/// the last. The path is then such a walk, its cost is the sum of the
/// distances along it, and no walk from the first node to the last costs
/// less. The result is the report of the search taken step by step, so it is
/// the same whenever the graph is the same.
pub fn find_path(graph: &Graph) -> (outcome: SearchOutcome)
    ensures
        is_search_result(graph@, outcome@),
        outcome@ is Found <==> exists|p: Seq<usize>| #[trigger]
            graph@.connects(p, graph@.start(), graph@.goal()),
        match outcome@ {
            OutcomeView::Found { path, cost } => is_best_path(graph@, path, cost),
            OutcomeView::NoPath => forall|p: Seq<usize>|
                !#[trigger] graph@.connects(p, graph@.start(), graph@.goal()),
        },
{
    let mut driver = SearchDriver::new(graph);
    driver.run();
    proof {
        driver.lemma_inv();
        let steps: nat = choose|steps: nat|
            driver@ == #[trigger] SearchModel::initial(graph@).run(graph@, steps);
        assert(ends_with(graph@, steps, report(graph@, driver@)));
        if driver@.state == SearchState::Exhausted {
            driver@.lemma_no_path(graph@);
        }
    }
    match driver.state() {
        SearchState::Found => {
            let cost: u128 = driver.cost().unwrap();
            let path: Vec<usize> = driver.path().unwrap();
            SearchOutcome::Found { path, cost }
        },
        _ => SearchOutcome::NoPath,
    }
}

} // verus!
