//! What the invariant is for: the node that leaves the frontier has its
//! final cost, the links lead back to the start, and the search ends.

use vstd::prelude::*;
use vstd::set_lib::lemma_len_subset;
use crate::frontier::{is_min_of, NodeCost};
use crate::geometry::MAX_DISTANCE;
use crate::graph::GraphView;
use crate::model::{SearchModel, SearchState};
use crate::preservation::lemma_count_below;
use crate::reconstruct::pred_chain;

verus! {

impl SearchModel {
    /// Follows the walk `p` from the start, for as long as its nodes are
    /// closed, up to position `j`. Returns the position where this ends:
    /// `j`, or before it the first node that is open. Up to there each node
    /// is reached at no more than the walk costs up to it.
    pub proof fn lemma_walk_meets_frontier(self, g: GraphView, p: Seq<usize>, j: int) -> (i: int)
        requires
            self.inv(g),
            self.state == SearchState::Running,
            g.is_walk(p),
            p[0] == g.start(),
            0 <= j < p.len(),
        ensures
            0 <= i <= j,
            self.costs.contains_key(p[i]),
            self.costs[p[i]] <= g.walk_cost(p.take(i + 1)),
            i == j || self.is_open(g, p[i]),
        decreases j,
    {
        reveal(SearchModel::inv);
        if j == 0 {
            assert(p.take(1).len() == 1);
            0
        } else {
            let i: int = self.lemma_walk_meets_frontier(g, p, j - 1);
            if i < j - 1 {
                i
            } else if self.is_open(g, p[i]) {
                i
            } else {
                assert(self.is_settled(g, p[i]));
                assert(g.adjacent(p[j - 1], p[j]));
                assert(self.within_reach(g, p[j - 1], p[j]));
                g.lemma_walk_cost_step(p, j - 1);
                j
            }
        }
    }

    /// The node of the least entry of the frontier is reached at the least
    /// cost of any walk from the start: no later relaxation can lower it.
    pub proof fn lemma_popped_is_optimal(self, g: GraphView, e: NodeCost)
        requires
            self.inv(g),
            self.state == SearchState::Running,
            is_min_of(e, self.frontier),
        ensures
            self.costs.contains_key(e.node),
            self.is_optimal(g, e.node),
    {
        reveal(SearchModel::inv);
        assert(self.frontier.count(e) > 0);
        assert forall|p: Seq<usize>| #[trigger]
            g.connects(p, g.start(), e.node) implies self.costs[e.node] <= g.walk_cost(p) by {
            let last: int = p.len() - 1;
            let i: int = self.lemma_walk_meets_frontier(g, p, last);
            if i == last {
                assert(p.take(last + 1) =~= p);
            } else {
                let entry: NodeCost = self.entry_of(g, p[i]);
                assert(self.frontier.count(entry) > 0);
                assert(e.at_most(entry));
                self.lemma_cost_fits(g, p[i]);
                g.lemma_dist(p[i], g.goal(), g.goal());
                g.lemma_walk_consistent(p, i, g.goal());
            }
        }
    }

    /// A node that is reached at the least cost of any walk is never
    /// improved on: relaxing an edge into it changes nothing.
    pub proof fn lemma_optimal_stays(self, g: GraphView, u: usize, nb: usize)
        requires
            self.sound(g),
            self.costs.contains_key(u),
            self.costs.contains_key(nb),
            g.adjacent(u, nb),
            self.is_optimal(g, nb),
        ensures
            !self.improves(g, u, nb),
            self.relax(g, u, nb) == self,
    {
        assert(self.has_witness(g, u));
        let p: Seq<usize> = choose|p: Seq<usize>| #[trigger]
            g.connects(p, g.start(), u) && g.walk_cost(p) == self.costs[u];
        g.lemma_walk_push(p, nb);
        assert(g.connects(p.push(nb), g.start(), nb));
    }

    /// When the least entry of the frontier is for the goal, the search has
    /// found the goal at the least cost of any walk.
    pub proof fn lemma_found(self, g: GraphView, e: NodeCost)
        requires
            self.inv(g),
            self.state == SearchState::Running,
            is_min_of(e, self.frontier),
            e.node == g.goal(),
        ensures
            self.without(e).in_state(SearchState::Found).inv(g),
    {
        reveal(SearchModel::inv);
        let after: SearchModel = self.without(e).in_state(SearchState::Found);
        self.lemma_popped_is_optimal(g, e);
        self.lemma_sound_with_less(after, g);
        assert forall|p: Seq<usize>| #[trigger]
            g.connects(p, g.start(), g.goal()) implies after.costs[g.goal()] <= g.walk_cost(p) by {
        }
    }

    /// When the frontier is empty, no walk leads from the start to the goal.
    pub proof fn lemma_exhausted(self, g: GraphView)
        requires
            self.inv(g),
            self.state == SearchState::Running,
            self.frontier.len() == 0,
        ensures
            self.in_state(SearchState::Exhausted).inv(g),
    {
        reveal(SearchModel::inv);
        self.lemma_sound_with_less(self.in_state(SearchState::Exhausted), g);
        assert forall|p: Seq<usize>| !#[trigger] g.connects(p, g.start(), g.goal()) by {
            if g.connects(p, g.start(), g.goal()) {
                let last: int = p.len() - 1;
                let i: int = self.lemma_walk_meets_frontier(g, p, last);
                assert(self.is_open(g, p[i]));
                assert(self.frontier.count(self.entry_of(g, p[i])) <= self.frontier.len());
            }
        }
    }

    /// `x` does not rank above `v`: it is cheaper, or as cheap with a stamp
    /// that is not higher.
    pub open spec fn ranks_at_most(self, stamp: Map<usize, nat>, x: usize, v: usize) -> bool {
        self.costs[x] < self.costs[v] || (self.costs[x] == self.costs[v] && stamp[x] <= stamp[v])
    }

    /// The nodes with a predecessor that do not rank above `v`.
    pub open spec fn ranked_below(self, stamp: Map<usize, nat>, v: usize) -> Set<usize> {
        Set::new(|x: usize| self.preds.contains_key(x) && self.ranks_at_most(stamp, x, v))
    }

    /// The links lead from `v` back to the start within as many steps as
    /// there are nodes that do not rank above `v`, along a walk that costs
    /// no more than is recorded for `v`.
    proof fn lemma_chain_ranked(self, g: GraphView, stamp: Map<usize, nat>, v: usize, fuel: nat)
        requires
            g.wf(),
            self.ledger_ok(g),
            self.ranked(g, stamp),
            self.costs.contains_key(v),
            fuel >= self.ranked_below(stamp, v).len(),
        ensures
            pred_chain(self.preds, v, fuel) is Some,
            g.connects(pred_chain(self.preds, v, fuel)->0, g.start(), v),
            g.walk_cost(pred_chain(self.preds, v, fuel)->0) <= self.costs[v],
        decreases fuel,
    {
        if !self.preds.contains_key(v) {
            g.lemma_walk_single(v);
        } else {
            let u: usize = self.preds[v];
            assert(self.link_ok(g, v));
            let sv: Set<usize> = self.ranked_below(stamp, v);
            let su: Set<usize> = self.ranked_below(stamp, u);
            assert(sv.subset_of(self.preds.dom()));
            lemma_len_subset(sv, self.preds.dom());
            assert(sv.contains(v));
            assert(su.subset_of(sv.remove(v)));
            lemma_len_subset(su, sv.remove(v));
            self.lemma_chain_ranked(g, stamp, u, (fuel - 1) as nat);
            let c: Seq<usize> = pred_chain(self.preds, u, (fuel - 1) as nat)->0;
            g.lemma_walk_push(c, v);
        }
    }

    /// The links lead from every reached node back to the start, without
    /// passing through more links than there are, along a walk that costs
    /// no more than is recorded for the node.
    pub proof fn lemma_chain(self, g: GraphView, v: usize)
        requires
            self.sound(g),
            self.costs.contains_key(v),
        ensures
            pred_chain(self.preds, v, self.preds.len()) is Some,
            g.connects(pred_chain(self.preds, v, self.preds.len())->0, g.start(), v),
            g.walk_cost(pred_chain(self.preds, v, self.preds.len())->0) <= self.costs[v],
    {
        let stamp: Map<usize, nat> = choose|stamp: Map<usize, nat>| self.ranked(g, stamp);
        let sv: Set<usize> = self.ranked_below(stamp, v);
        assert(sv.subset_of(self.preds.dom()));
        lemma_len_subset(sv, self.preds.dom());
        self.lemma_chain_ranked(g, stamp, v, self.preds.len());
    }

    /// Once the goal is found, the links describe a walk from the start to
    /// the goal that costs exactly what is recorded for the goal, and no
    /// walk from the start to the goal costs less.
    pub proof fn lemma_found_path(self, g: GraphView)
        requires
            self.inv(g),
            self.state == SearchState::Found,
        ensures
            pred_chain(self.preds, g.goal(), self.preds.len()) is Some,
            g.connects(pred_chain(self.preds, g.goal(), self.preds.len())->0, g.start(), g.goal()),
            g.walk_cost(pred_chain(self.preds, g.goal(), self.preds.len())->0)
                == self.costs[g.goal()],
            self.is_optimal(g, g.goal()),
            self.costs.contains_key(g.goal()),
            forall|k: usize| self.preds.contains_key(k) ==> #[trigger] self.preds[k] < g.amount(),
            g.wf(),
    {
        reveal(SearchModel::inv);
        self.lemma_chain(g, g.goal());
        assert forall|k: usize| self.preds.contains_key(k) implies #[trigger] self.preds[k]
            < g.amount() by {
            assert(self.link_ok(g, k));
            assert(self.costs.contains_key(self.preds[k]));
        }
    }

    /// Once the search is exhausted, no walk leads from the start to the
    /// goal.
    pub proof fn lemma_no_path(self, g: GraphView)
        requires
            self.inv(g),
            self.state == SearchState::Exhausted,
        ensures
            forall|p: Seq<usize>| !#[trigger] g.connects(p, g.start(), g.goal()),
    {
        reveal(SearchModel::inv);
    }

    /// What relaxing the next edge out of the node being expanded needs and
    /// does: the sums fit, what holds during an expansion holds afterwards,
    /// and the potential drops unless nothing changes.
    pub proof fn lemma_relax_step(self, g: GraphView, u: usize, done: int)
        requires
            self.expanding(g, u, done),
            done < g.neighbors(u).len(),
        ensures
            self.costs.contains_key(u),
            u < g.amount(),
            g.neighbors(u)[done] < g.amount(),
            self.tentative(g, u, g.neighbors(u)[done]) + g.heuristic(g.neighbors(u)[done])
                <= u128::MAX,
            self.relax(g, u, g.neighbors(u)[done]).expanding(g, u, done + 1),
            self.relax(g, u, g.neighbors(u)[done]).potential(g) <= self.potential(g),
            self.relax(g, u, g.neighbors(u)[done]).potential(g) == self.potential(g)
                ==> self.relax(g, u, g.neighbors(u)[done]) == self,
    {
        let nb: usize = g.neighbors(u)[done];
        self.lemma_relax(g, u, done);
        assert(self.sound(g) && self.costs.contains_key(u)) by {
            reveal(SearchModel::expanding);
        }
        self.lemma_cost_fits(g, u);
        g.lemma_dist(u, nb, g.goal());
        g.lemma_dist(nb, g.goal(), g.goal());
        if self.improves(g, u, nb) {
            self.lemma_relax_potential(g, u, nb);
        }
    }

    /// What an unreached node counts for in the potential: more than any
    /// cost that can be recorded.
    pub open spec fn cap(g: GraphView) -> nat {
        g.amount() * (MAX_DISTANCE as nat)
    }

    /// What a node counts for in the potential: its cost if it is reached.
    pub open spec fn weight(self, g: GraphView, v: usize) -> nat {
        if self.costs.contains_key(v) {
            self.costs[v] as nat
        } else {
            Self::cap(g)
        }
    }

    /// The weights of the first `k` nodes, added up.
    pub open spec fn potential_below(self, g: GraphView, k: nat) -> nat
        decreases k,
    {
        if k == 0 {
            0
        } else {
            self.potential_below(g, (k - 1) as nat) + self.weight(g, (k - 1) as usize)
        }
    }

    /// The weights of all nodes, added up. Every relaxation that changes
    /// something lowers it.
    pub open spec fn potential(self, g: GraphView) -> nat {
        self.potential_below(g, g.amount())
    }

    /// What is left to do at the present potential: the entries that wait,
    /// and the last step that ends the search.
    pub open spec fn slack(self) -> nat {
        self.frontier.len() + (if self.state == SearchState::Running {
            1nat
        } else {
            0nat
        })
    }

    /// `self` is nearer to the end of the search than `before`.
    pub open spec fn nearer_than(self, g: GraphView, before: SearchModel) -> bool {
        self.potential(g) < before.potential(g) || (self.potential(g) == before.potential(g)
            && self.slack() < before.slack())
    }

    /// Where two states weigh every node but `x` alike, their potentials
    /// differ by what they make of `x`.
    proof fn lemma_potential_differs(self, other: SearchModel, g: GraphView, x: usize, k: nat)
        requires
            k <= usize::MAX,
            forall|v: usize| v != x ==> self.weight(g, v) == other.weight(g, v),
        ensures
            other.potential_below(g, k) - self.potential_below(g, k) == (if x < k {
                other.weight(g, x) - self.weight(g, x)
            } else {
                0
            }),
        decreases k,
    {
        if k > 0 {
            self.lemma_potential_differs(other, g, x, (k - 1) as nat);
        }
    }

    /// A relaxation that changes something lowers the potential.
    pub proof fn lemma_relax_potential(self, g: GraphView, u: usize, nb: usize)
        requires
            self.about_to_improve(g, u, nb),
        ensures
            self.relax(g, u, nb).potential(g) < self.potential(g),
    {
        self.lemma_improving(g, u, nb);
        self.lemma_cost_fits(g, u);
        let after: SearchModel = self.relax(g, u, nb);
        let count: nat = self.costs.dom().len();
        assert(after.weight(g, nb) < self.weight(g, nb)) by {
            if !self.costs.contains_key(nb) {
                let more: Set<usize> = self.costs.dom().insert(nb);
                assert forall|v: usize| #[trigger] more.contains(v) implies v < g.amount() by {
                    if v != nb {
                        assert(self.costs.contains_key(v));
                    }
                }
                lemma_count_below(more, g.amount());
                Self::lemma_cost_limit_step(count);
                assert(count * MAX_DISTANCE < g.amount() * MAX_DISTANCE) by (nonlinear_arith)
                    requires
                        count < g.amount(),
                        MAX_DISTANCE > 0,
                ;
                assert(Self::cost_limit(count + 1) == count * MAX_DISTANCE) by (nonlinear_arith)
                    requires
                        Self::cost_limit(count + 1) == (count + 1 - 1) * MAX_DISTANCE,
                ;
            }
        }
        assert forall|v: usize| v != nb implies self.weight(g, v) == after.weight(g, v) by {
        }
        self.lemma_potential_differs(after, g, nb, g.amount());
    }

    /// Taking an entry out of the frontier leaves the potential as it is and
    /// the frontier shorter; ending the search there brings the end nearer.
    pub proof fn lemma_without_nearer(self, g: GraphView, e: NodeCost)
        requires
            self.frontier.count(e) > 0,
            self.state == SearchState::Running,
        ensures
            self.without(e).potential(g) == self.potential(g),
            self.without(e).frontier.len() < self.frontier.len(),
            self.without(e).in_state(SearchState::Found).nearer_than(g, self),
    {
        let less: SearchModel = self.without(e);
        self.lemma_same_potential(less, g, g.amount());
        self.lemma_same_potential(less.in_state(SearchState::Found), g, g.amount());
    }

    /// Giving up a search that runs brings the end nearer.
    pub proof fn lemma_exhausted_nearer(self, g: GraphView)
        requires
            self.state == SearchState::Running,
        ensures
            self.in_state(SearchState::Exhausted).nearer_than(g, self),
    {
        self.lemma_same_potential(self.in_state(SearchState::Exhausted), g, g.amount());
    }

    /// States with the same costs have the same potential.
    pub proof fn lemma_same_potential(self, other: SearchModel, g: GraphView, k: nat)
        requires
            self.costs == other.costs,
        ensures
            self.potential_below(g, k) == other.potential_below(g, k),
        decreases k,
    {
        if k > 0 {
            self.lemma_same_potential(other, g, (k - 1) as nat);
        }
    }
}

} // verus!
