//! Laws of the search, stated over its model.

use vstd::prelude::*;
use crate::frontier::{is_min_of, lemma_min_entry_is, lemma_min_exists, min_entry, NodeCost};
use crate::graph::GraphView;
use crate::model::{SearchModel, SearchState};
use crate::outcome::{ends_with, is_best_path, is_search_result, report, zero_based, OutcomeView};
use crate::reconstruct::{node_numbers, path_from_start, pred_chain};

verus! {

impl SearchModel {
    /// Relaxing the first `done` edges out of a node keeps what holds during
    /// its expansion, and lowers the potential unless nothing changes.
    pub proof fn lemma_expand(self, g: GraphView, u: usize, done: int)
        requires
            self.expanding(g, u, 0),
            0 <= done <= g.neighbors(u).len(),
        ensures
            self.expand(g, u, g.neighbors(u).take(done)).expanding(g, u, done),
            self.expand(g, u, g.neighbors(u).take(done)).potential(g) <= self.potential(g),
            self.expand(g, u, g.neighbors(u).take(done)).potential(g) == self.potential(g)
                ==> self.expand(g, u, g.neighbors(u).take(done)) == self,
        decreases done,
    {
        let nbs: Seq<usize> = g.neighbors(u);
        if done > 0 {
            self.lemma_expand(g, u, done - 1);
            assert(nbs.take(done).drop_last() =~= nbs.take(done - 1));
            self.expand(g, u, nbs.take(done - 1)).lemma_relax_step(g, u, done - 1);
        }
    }

    /// Relaxing edges out of a closed node changes nothing.
    pub proof fn lemma_expand_closed(self, g: GraphView, u: usize, nbs: Seq<usize>)
        requires
            self.is_closed(g, u),
            forall|j: int| 0 <= j < nbs.len() ==> g.adjacent(u, #[trigger] nbs[j]),
        ensures
            self.expand(g, u, nbs) == self,
        decreases nbs.len(),
    {
        if nbs.len() > 0 {
            self.lemma_expand_closed(g, u, nbs.drop_last());
            assert(g.adjacent(u, nbs[nbs.len() - 1]));
            assert(self.within_reach(g, u, nbs.last()));
        }
    }

    /// Lazy deletion: an entry that leaves the frontier with an estimate
    /// above the one its node has now is stale, and changes nothing. Its
    /// node has been expanded at its present cost before.
    pub proof fn lemma_stale_entry_is_inert(self, g: GraphView, e: NodeCost)
        requires
            self.inv(g),
            self.state == SearchState::Running,
            is_min_of(e, self.frontier),
            e.node != g.goal(),
            e.cost > self.key(g, e.node),
        ensures
            self.is_closed(g, e.node),
            self.step(g) == self.without(e),
    {
        reveal(SearchModel::inv);
        let u: usize = e.node;
        let less: SearchModel = self.without(e);
        let nbs: Seq<usize> = g.neighbors(u);
        assert(self.frontier.count(e) > 0);
        assert(self.costs.contains_key(u));
        self.lemma_cost_fits(g, u);
        g.lemma_dist(u, g.goal(), g.goal());
        if self.is_open(g, u) {
            assert(e.at_most(self.entry_of(g, u)));
        }
        assert(self.is_settled(g, u));
        assert forall|nb: usize| #[trigger] g.adjacent(u, nb) implies less.within_reach(
            g,
            u,
            nb,
        ) by {
            assert(self.within_reach(g, u, nb));
        }
        g.lemma_neighbors(u);
        assert forall|j: int| 0 <= j < nbs.len() implies g.adjacent(u, #[trigger] nbs[j]) by {
            assert(nbs.contains(nbs[j]));
        }
        less.lemma_expand_closed(g, u, nbs);
        lemma_min_entry_is(e, self.frontier);
        assert(self.frontier.count(e) <= self.frontier.len());
    }

    /// A relaxation removes nothing from the ledger and raises no cost.
    pub proof fn lemma_relax_lowers_costs(self, g: GraphView, u: usize, nb: usize, v: usize)
        requires
            self.costs.contains_key(v),
        ensures
            self.relax(g, u, nb).costs.contains_key(v),
            self.relax(g, u, nb).costs[v] <= self.costs[v],
            self.preds.contains_key(v) ==> self.relax(g, u, nb).preds.contains_key(v),
    {
    }

    /// An expansion removes nothing from the ledger and raises no cost.
    pub proof fn lemma_expand_lowers_costs(self, g: GraphView, u: usize, nbs: Seq<usize>, v: usize)
        requires
            self.costs.contains_key(v),
        ensures
            self.expand(g, u, nbs).costs.contains_key(v),
            self.expand(g, u, nbs).costs[v] <= self.costs[v],
            self.preds.contains_key(v) ==> self.expand(g, u, nbs).preds.contains_key(v),
        decreases nbs.len(),
    {
        if nbs.len() > 0 {
            self.lemma_expand_lowers_costs(g, u, nbs.drop_last(), v);
            self.expand(g, u, nbs.drop_last()).lemma_relax_lowers_costs(g, u, nbs.last(), v);
        }
    }

    /// What the ledger holds is never removed, and is overwritten only by
    /// what is cheaper: a step keeps every reached node reached, at no
    /// higher cost, and every node that has a predecessor with one.
    pub proof fn lemma_step_lowers_costs(self, g: GraphView, v: usize)
        requires
            self.costs.contains_key(v),
        ensures
            self.step(g).costs.contains_key(v),
            self.step(g).costs[v] <= self.costs[v],
            self.preds.contains_key(v) ==> self.step(g).preds.contains_key(v),
    {
        if self.state == SearchState::Running && self.frontier.len() > 0 {
            let e: NodeCost = min_entry(self.frontier);
            if e.node != g.goal() {
                self.without(e).lemma_expand_lowers_costs(g, e.node, g.neighbors(e.node), v);
            }
        }
    }

    /// The invariant of the search is kept by every step, and every step of
    /// a search that runs brings its end nearer.
    pub proof fn lemma_step(self, g: GraphView)
        requires
            self.inv(g),
        ensures
            self.step(g).inv(g),
            self.state == SearchState::Running ==> self.step(g).nearer_than(g, self),
    {
        if self.state == SearchState::Running {
            if self.frontier.len() == 0 {
                self.lemma_exhausted(g);
                self.lemma_exhausted_nearer(g);
            } else {
                lemma_min_exists(self.frontier);
                let e: NodeCost = min_entry(self.frontier);
                self.lemma_without_nearer(g, e);
                if e.node == g.goal() {
                    self.lemma_found(g, e);
                } else {
                    let nbs: Seq<usize> = g.neighbors(e.node);
                    self.lemma_pop(g, e);
                    self.without(e).lemma_expand(g, e.node, nbs.len() as int);
                    assert(nbs.take(nbs.len() as int) =~= nbs);
                    self.step(g).lemma_expanded(g, e.node);
                }
            }
        }
    }

    /// The invariant of the search holds of every state that a search on a
    /// well-formed graph passes through.
    pub proof fn lemma_run(g: GraphView, steps: nat)
        requires
            g.wf(),
        ensures
            Self::initial(g).run(g, steps).inv(g),
        decreases steps,
    {
        if steps == 0 {
            Self::lemma_initial(g);
        } else {
            Self::lemma_run(g, (steps - 1) as nat);
            Self::initial(g).run(g, (steps - 1) as nat).lemma_step(g);
        }
    }

    /// Taking a step and then `steps` more is taking `steps` and then one.
    pub proof fn lemma_run_front(self, g: GraphView, steps: nat)
        ensures
            self.step(g).run(g, steps) == self.run(g, steps + 1),
        decreases steps,
    {
        assert(self.run(g, steps + 1) == self.run(g, steps).step(g));
        if steps > 0 {
            self.lemma_run_front(g, (steps - 1) as nat);
            assert(self.step(g).run(g, steps) == self.step(g).run(g, (steps - 1) as nat).step(g));
        } else {
            assert(self.run(g, 0) == self);
        }
    }

    /// Every search ends: from a state that satisfies the invariant a state
    /// that does not run is reached after finitely many steps.
    pub proof fn lemma_ends(self, g: GraphView) -> (steps: nat)
        requires
            self.inv(g),
        ensures
            self.run(g, steps).state != SearchState::Running,
        decreases self.potential(g), self.slack(),
    {
        if self.state != SearchState::Running {
            0
        } else {
            self.lemma_step(g);
            let rest: nat = self.step(g).lemma_ends(g);
            self.lemma_run_front(g, rest);
            rest + 1
        }
    }

    /// A search that has ended stays as it is, however many more steps are
    /// taken.
    pub proof fn lemma_run_settles(self, g: GraphView, ended: nat, later: nat)
        requires
            ended <= later,
            self.run(g, ended).state != SearchState::Running,
        ensures
            self.run(g, later) == self.run(g, ended),
        decreases later - ended,
    {
        if ended < later {
            self.lemma_run_settles(g, ended, (later - 1) as nat);
        }
    }
}

/// Every well-formed graph has a search result.
pub proof fn lemma_search_result_exists(g: GraphView) -> (outcome: OutcomeView)
    requires
        g.wf(),
    ensures
        is_search_result(g, outcome),
{
    SearchModel::lemma_initial(g);
    let steps: nat = SearchModel::initial(g).lemma_ends(g);
    let outcome: OutcomeView = report(g, SearchModel::initial(g).run(g, steps));
    assert(ends_with(g, steps, outcome));
    outcome
}

/// Determinism: a graph has one search result. Whatever two searches on the
/// same graph report, path and cost, is the same.
pub proof fn lemma_search_result_unique(g: GraphView, first: OutcomeView, second: OutcomeView)
    requires
        is_search_result(g, first),
        is_search_result(g, second),
    ensures
        first == second,
{
    let a: nat = choose|steps: nat| #[trigger] ends_with(g, steps, first);
    let b: nat = choose|steps: nat| #[trigger] ends_with(g, steps, second);
    if a <= b {
        SearchModel::initial(g).lemma_run_settles(g, a, b);
    } else {
        SearchModel::initial(g).lemma_run_settles(g, b, a);
    }
}

/// Optimality: the path that a search reports leads from the first node to
/// the last along edges of the graph, its cost is the sum of the distances
/// along it, and no walk from the first node to the last costs less. A
/// search reports no path only if there is none.
pub proof fn lemma_search_result_is_best(g: GraphView, outcome: OutcomeView)
    requires
        g.wf(),
        is_search_result(g, outcome),
    ensures
        match outcome {
            OutcomeView::Found { path, cost } => is_best_path(g, path, cost),
            OutcomeView::NoPath => forall|p: Seq<usize>|
                !#[trigger] g.connects(p, g.start(), g.goal()),
        },
{
    let steps: nat = choose|steps: nat| #[trigger] ends_with(g, steps, outcome);
    let m: SearchModel = SearchModel::initial(g).run(g, steps);
    SearchModel::lemma_run(g, steps);
    if m.state == SearchState::Found {
        m.lemma_found_path(g);
        let chain: Seq<usize> = pred_chain(m.preds, g.goal(), m.preds.len())->0;
        assert(zero_based(node_numbers(chain)) =~= chain);
    } else {
        m.lemma_no_path(g);
    }
}

/// Links that follow edges make chains that follow edges: if every node
/// with a predecessor is adjacent to it, the chain of a node of the graph is
/// a walk that ends in the node.
pub proof fn lemma_chain_is_walk(g: GraphView, prev: Map<usize, usize>, node: usize, fuel: nat)
    requires
        node < g.amount(),
        forall|k: usize| prev.contains_key(k) ==> g.adjacent(#[trigger] prev[k], k),
        pred_chain(prev, node, fuel) is Some,
    ensures
        g.is_walk(pred_chain(prev, node, fuel)->0),
        pred_chain(prev, node, fuel)->0.last() == node,
    decreases fuel,
{
    if prev.contains_key(node) {
        let before: usize = prev[node];
        assert(g.adjacent(before, node));
        lemma_chain_is_walk(g, prev, before, (fuel - 1) as nat);
        g.lemma_walk_push(pred_chain(prev, before, (fuel - 1) as nat)->0, node);
    }
}

/// Whatever links a path is reconstructed from, if every node with a
/// predecessor is adjacent to it, every two consecutive nodes of the path
/// are adjacent: the row of the later node has a one in the column of the
/// earlier node. The path begins at the first node and ends at the node it
/// was asked for.
pub proof fn lemma_reconstructed_path_is_adjacent(
    g: GraphView,
    prev: Map<usize, usize>,
    current: usize,
    path: Seq<usize>,
    i: int,
)
    requires
        g.wf(),
        current < g.amount(),
        forall|k: usize| prev.contains_key(k) ==> g.adjacent(#[trigger] prev[k], k),
        path_from_start(prev, current) is Some,
        path == node_numbers(path_from_start(prev, current)->0),
        0 <= i < path.len() - 1,
    ensures
        path[0] == 1,
        path[path.len() - 1] == current + 1,
        1 <= path[i] <= g.amount(),
        1 <= path[i + 1] <= g.amount(),
        g.matrix[path[i + 1] - 1][path[i] - 1] == 1,
        g.neighbors((path[i] - 1) as usize).contains((path[i + 1] - 1) as usize),
{
    let chain: Seq<usize> = pred_chain(prev, current, prev.len())->0;
    lemma_chain_is_walk(g, prev, current, prev.len());
    assert(g.adjacent(chain[i], chain[i + 1]));
    assert(chain[0] < g.amount() && chain[chain.len() - 1] < g.amount());
    g.lemma_neighbors(chain[i]);
}

/// Every two consecutive nodes of a best path are adjacent: the row of the
/// later node has a one in the column of the earlier node.
pub proof fn lemma_best_path_is_adjacent(g: GraphView, path: Seq<usize>, cost: nat, i: int)
    requires
        is_best_path(g, path, cost),
        0 <= i < path.len() - 1,
    ensures
        1 <= path[i] <= g.amount(),
        1 <= path[i + 1] <= g.amount(),
        g.matrix[path[i + 1] - 1][path[i] - 1] == 1,
{
    let p: Seq<usize> = zero_based(path);
    assert(g.adjacent(p[i], p[i + 1]));
}

/// A best path begins at the first node and ends at the last.
pub proof fn lemma_best_path_ends(g: GraphView, path: Seq<usize>, cost: nat)
    requires
        g.wf(),
        is_best_path(g, path, cost),
    ensures
        path.len() >= 1,
        path[0] == 1,
        path[path.len() - 1] == g.amount(),
{
    let p: Seq<usize> = zero_based(path);
    assert(p[0] == g.start());
    assert(p[p.len() - 1] == g.goal());
    assert(1 <= path[0] <= g.amount());
    assert(1 <= path[path.len() - 1] <= g.amount());
}

} // verus!
