//! Why the invariant of the search holds: it holds at the beginning, and
//! every step keeps it.

use vstd::prelude::*;
use crate::frontier::NodeCost;
use crate::geometry::MAX_DISTANCE;
use crate::graph::GraphView;
use crate::model::{SearchModel, SearchState};

verus! {

/// A finite set of numbers below `n` has at most `n` elements.
pub proof fn lemma_count_below(s: Set<usize>, n: nat)
    requires
        s.finite(),
        forall|v: usize| #[trigger] s.contains(v) ==> v < n,
    ensures
        s.len() <= n,
    decreases n,
{
    if n == 0 {
        if s.len() > 0 {
            assert(s.contains(s.choose()));
        }
    } else {
        let x: usize = (n - 1) as usize;
        let rest: Set<usize> = s.remove(x);
        assert forall|v: usize| #[trigger] rest.contains(v) implies v < n - 1 by {
            assert(s.contains(v) && v != x);
        }
        lemma_count_below(rest, (n - 1) as nat);
    }
}

impl SearchModel {
    /// One more reached node raises the limit by one distance.
    pub proof fn lemma_cost_limit_step(count: nat)
        ensures
            Self::cost_limit(count + 1) == Self::cost_limit(count) + MAX_DISTANCE,
    {
        assert((count + 1 - 1) * MAX_DISTANCE == (count - 1) * MAX_DISTANCE + MAX_DISTANCE)
            by (nonlinear_arith);
    }

    /// Recorded costs are small: two more distances on top of one still fit
    /// in a `u128`.
    pub proof fn lemma_cost_fits(self, g: GraphView, v: usize)
        requires
            g.wf(),
            self.ledger_ok(g),
            self.bounded(g),
            self.costs.contains_key(v),
        ensures
            v < g.amount(),
            1 <= self.costs.dom().len() <= g.amount(),
            self.costs[v] <= Self::cost_limit(self.costs.dom().len()),
            self.costs[v] + 2 * MAX_DISTANCE <= u128::MAX,
    {
        let count: nat = self.costs.dom().len();
        lemma_count_below(self.costs.dom(), g.amount());
        assert(count >= 1) by {
            assert(self.costs.dom().contains(v));
            assert(self.costs.dom().remove(v).len() >= 0);
        }
        let top: int = 0xFFFF_FFFF_FFFF_FFFF;
        assert((count - 1) * MAX_DISTANCE <= top * MAX_DISTANCE) by (nonlinear_arith)
            requires
                0 <= count - 1 <= top,
                MAX_DISTANCE >= 0,
        ;
        assert(top * MAX_DISTANCE == 0xFFFF_FFFF_FFFF_FFFF * 8_589_934_592_000_000);
    }

    /// The state is sound, `u` is reached, and relaxing the edge from `u` to
    /// its neighbour `nb` changes something.
    pub open spec fn about_to_improve(self, g: GraphView, u: usize, nb: usize) -> bool {
        &&& self.sound(g)
        &&& self.costs.contains_key(u)
        &&& g.adjacent(u, nb)
        &&& self.improves(g, u, nb)
    }

    /// What a relaxation that changes something is made of: the two nodes
    /// differ, the neighbour is not the start, and the new cost and the new
    /// estimate are written down without loss.
    pub proof fn lemma_improving(self, g: GraphView, u: usize, nb: usize)
        requires
            self.about_to_improve(g, u, nb),
        ensures
            u != nb,
            nb != g.start(),
            u < g.amount(),
            nb < g.amount(),
            0 <= self.tentative(g, u, nb) <= Self::cost_limit(self.costs.dom().len())
                + MAX_DISTANCE,
            self.tentative(g, u, nb) + MAX_DISTANCE <= u128::MAX,
            g.heuristic(nb) <= MAX_DISTANCE,
            self.relax(g, u, nb).costs == self.costs.insert(
                nb,
                self.tentative(g, u, nb) as u128,
            ),
            self.relax(g, u, nb).costs[nb] == self.tentative(g, u, nb),
            self.relax(g, u, nb).preds == self.preds.insert(nb, u),
            self.relax(g, u, nb).key(g, nb) == self.tentative(g, u, nb) + g.heuristic(nb),
            self.relax(g, u, nb).entry_of(g, nb).cost == self.tentative(g, u, nb) + g.heuristic(
                nb,
            ),
            self.relax(g, u, nb).frontier == self.frontier.insert(
                self.relax(g, u, nb).entry_of(g, nb),
            ),
            self.relax(g, u, nb).state == self.state,
    {
        self.lemma_cost_fits(g, u);
        g.lemma_dist(u, nb, nb);
        g.lemma_dist(u, u, u);
        g.lemma_dist(nb, g.goal(), g.goal());
    }

    /// A relaxation that changes something keeps the ledger sound.
    proof fn lemma_relax_ledger(self, g: GraphView, u: usize, nb: usize)
        requires
            self.about_to_improve(g, u, nb),
        ensures
            self.relax(g, u, nb).ledger_ok(g),
    {
        self.lemma_improving(g, u, nb);
        let after: SearchModel = self.relax(g, u, nb);
        assert forall|v: usize| #[trigger] after.costs.contains_key(v) implies v < g.amount() && (v
            != g.start() ==> after.preds.contains_key(v)) by {
            if v != nb {
                assert(self.costs.contains_key(v));
            }
        }
        assert forall|v: usize| #[trigger] after.preds.contains_key(v) implies after.link_ok(
            g,
            v,
        ) by {
            if v != nb {
                assert(self.preds.contains_key(v));
                assert(self.link_ok(g, v));
            }
        }
    }

    /// A relaxation that changes something keeps the links from running in
    /// a circle.
    proof fn lemma_relax_acyclic(self, g: GraphView, u: usize, nb: usize)
        requires
            self.about_to_improve(g, u, nb),
        ensures
            self.relax(g, u, nb).acyclic(g),
    {
        self.lemma_improving(g, u, nb);
        let after: SearchModel = self.relax(g, u, nb);
        let stamp: Map<usize, nat> = choose|stamp: Map<usize, nat>| self.ranked(g, stamp);
        let stamp2: Map<usize, nat> = stamp.insert(nb, stamp[u] + 1);
        assert forall|v: usize| #[trigger]
            after.preds.contains_key(v) implies after.costs[after.preds[v]] + g.dist(
            after.preds[v],
            v,
        ) < after.costs[v] || stamp2[after.preds[v]] < stamp2[v] by {
            if v != nb {
                assert(self.preds.contains_key(v));
                assert(self.link_ok(g, v));
            }
        }
        assert(after.ranked(g, stamp2));
    }

    /// A relaxation that changes something leaves every recorded cost the
    /// cost of a walk.
    proof fn lemma_relax_witnessed(self, g: GraphView, u: usize, nb: usize)
        requires
            self.about_to_improve(g, u, nb),
        ensures
            self.relax(g, u, nb).witnessed(g),
    {
        self.lemma_improving(g, u, nb);
        let after: SearchModel = self.relax(g, u, nb);
        assert forall|v: usize| #[trigger] after.costs.contains_key(v) implies after.has_witness(
            g,
            v,
        ) by {
            if v == nb {
                assert(self.has_witness(g, u));
                let p: Seq<usize> = choose|p: Seq<usize>| #[trigger]
                    g.connects(p, g.start(), u) && g.walk_cost(p) == self.costs[u];
                g.lemma_walk_push(p, nb);
                assert(g.connects(p.push(nb), g.start(), nb));
            } else {
                assert(self.costs.contains_key(v));
                assert(self.has_witness(g, v));
                let p: Seq<usize> = choose|p: Seq<usize>| #[trigger]
                    g.connects(p, g.start(), v) && g.walk_cost(p) == self.costs[v];
                assert(g.connects(p, g.start(), v));
            }
        }
    }

    /// A relaxation that changes something keeps the costs below the limit.
    proof fn lemma_relax_bounded(self, g: GraphView, u: usize, nb: usize)
        requires
            self.about_to_improve(g, u, nb),
        ensures
            self.relax(g, u, nb).bounded(g),
    {
        self.lemma_improving(g, u, nb);
        let after: SearchModel = self.relax(g, u, nb);
        let count: nat = self.costs.dom().len();
        let count2: nat = after.costs.dom().len();
        Self::lemma_cost_limit_step(count);
        assert(after.costs.dom() == self.costs.dom().insert(nb));
        if self.costs.contains_key(nb) {
            assert(count2 == count);
        } else {
            assert(count2 == count + 1);
        }
        assert forall|v: usize| #[trigger] after.costs.contains_key(v) implies after.costs[v]
            <= Self::cost_limit(count2) by {
            if v != nb {
                assert(self.costs.contains_key(v));
            }
        }
    }

    /// A relaxation that changes something keeps the frontier in step with
    /// the ledger.
    proof fn lemma_relax_frontier(self, g: GraphView, u: usize, nb: usize)
        requires
            self.about_to_improve(g, u, nb),
        ensures
            self.relax(g, u, nb).frontier_ok(g),
    {
        self.lemma_improving(g, u, nb);
        let after: SearchModel = self.relax(g, u, nb);
        let pushed: NodeCost = after.entry_of(g, nb);
        assert forall|e: NodeCost| #[trigger]
            after.frontier.count(e) > 0 implies after.costs.contains_key(e.node) && e.cost
            >= after.key(g, e.node) by {
            if e != pushed {
                assert(self.frontier.count(e) > 0);
                if e.node == nb {
                    assert(self.costs.contains_key(nb));
                }
            }
        }
    }

    /// A relaxation that changes something keeps the state sound.
    pub proof fn lemma_relax_sound(self, g: GraphView, u: usize, nb: usize)
        requires
            self.about_to_improve(g, u, nb),
        ensures
            self.relax(g, u, nb).sound(g),
    {
        self.lemma_relax_ledger(g, u, nb);
        self.lemma_relax_acyclic(g, u, nb);
        self.lemma_relax_witnessed(g, u, nb);
        self.lemma_relax_bounded(g, u, nb);
        self.lemma_relax_frontier(g, u, nb);
    }

    /// A relaxation that changes something opens the neighbour and leaves
    /// every other reached node as settled as it was.
    pub proof fn lemma_relax_settled(self, g: GraphView, u: usize, nb: usize, v: usize)
        requires
            self.about_to_improve(g, u, nb),
            v == nb || (self.costs.contains_key(v) && self.is_settled(g, v)),
        ensures
            self.relax(g, u, nb).is_settled(g, v),
            v == nb || self.is_open(g, v) ==> self.relax(g, u, nb).is_open(g, v),
    {
        self.lemma_improving(g, u, nb);
        let after: SearchModel = self.relax(g, u, nb);
        if v == nb {
            assert(after.is_open(g, v));
        } else if self.is_open(g, v) {
            assert(after.entry_of(g, v) == self.entry_of(g, v));
            assert(after.is_open(g, v));
        } else {
            assert forall|x: usize| #[trigger] g.adjacent(v, x) implies after.within_reach(
                g,
                v,
                x,
            ) by {
                assert(self.within_reach(g, v, x));
            }
        }
    }

    /// A relaxation that changes something leaves within reach what was.
    pub proof fn lemma_relax_within_reach(self, g: GraphView, u: usize, nb: usize, x: usize)
        requires
            self.about_to_improve(g, u, nb),
            x == nb || self.within_reach(g, u, x),
        ensures
            self.relax(g, u, nb).within_reach(g, u, x),
    {
        self.lemma_improving(g, u, nb);
    }

    /// Relaxing the next edge out of the node being expanded keeps what
    /// holds during an expansion.
    pub proof fn lemma_relax(self, g: GraphView, u: usize, done: int)
        requires
            self.expanding(g, u, done),
            done < g.neighbors(u).len(),
        ensures
            self.relax(g, u, g.neighbors(u)[done]).expanding(g, u, done + 1),
            g.adjacent(u, g.neighbors(u)[done]),
    {
        reveal(SearchModel::expanding);
        let nbs: Seq<usize> = g.neighbors(u);
        let nb: usize = nbs[done];
        let after: SearchModel = self.relax(g, u, nb);
        self.lemma_cost_fits(g, u);
        g.lemma_neighbors(u);
        assert(nbs.contains(nb));
        assert(g.adjacent(u, nb));
        if self.improves(g, u, nb) {
            self.lemma_improving(g, u, nb);
            self.lemma_relax_sound(g, u, nb);
            assert forall|v: usize| #[trigger] after.costs.contains_key(v) && v
                != u implies after.is_settled(g, v) by {
                if v != nb {
                    assert(self.costs.contains_key(v));
                }
                self.lemma_relax_settled(g, u, nb, v);
            }
            assert(after.goal_open(g)) by {
                if after.costs.contains_key(g.goal()) {
                    if g.goal() != nb {
                        assert(self.costs.contains_key(g.goal()));
                    }
                    self.lemma_relax_settled(g, u, nb, g.goal());
                }
            }
            assert forall|j: int| 0 <= j < done + 1 implies after.within_reach(
                g,
                u,
                #[trigger] nbs[j],
            ) by {
                self.lemma_relax_within_reach(g, u, nb, nbs[j]);
            }
        } else {
            assert(after == self);
            assert forall|j: int| 0 <= j < done + 1 implies after.within_reach(
                g,
                u,
                #[trigger] nbs[j],
            ) by {
            }
        }
    }

    /// When the last neighbour is done, the expanded node is closed, and the
    /// invariant holds again.
    pub proof fn lemma_expanded(self, g: GraphView, u: usize)
        requires
            self.expanding(g, u, g.neighbors(u).len() as int),
        ensures
            self.inv(g),
    {
        reveal(SearchModel::inv);
        reveal(SearchModel::expanding);
        let nbs: Seq<usize> = g.neighbors(u);
        self.lemma_cost_fits(g, u);
        g.lemma_neighbors(u);
        assert forall|nb: usize| #[trigger] g.adjacent(u, nb) implies self.within_reach(
            g,
            u,
            nb,
        ) by {
            assert(nbs.contains(nb));
            let j: int = choose|j: int| 0 <= j < nbs.len() && nbs[j] == nb;
            assert(self.within_reach(g, u, nbs[j]));
        }
        assert(self.is_closed(g, u));
        assert forall|v: usize| #[trigger] self.costs.contains_key(v) implies self.is_settled(
            g,
            v,
        ) by {
        }
    }

    /// A state with the same ledger as a sound state, and with nothing in its
    /// frontier that the other has not, is sound.
    pub proof fn lemma_sound_with_less(self, other: SearchModel, g: GraphView)
        requires
            self.sound(g),
            other.costs == self.costs,
            other.preds == self.preds,
            forall|x: NodeCost| other.frontier.count(x) <= #[trigger] self.frontier.count(x),
        ensures
            other.sound(g),
    {
        let stamp: Map<usize, nat> = choose|stamp: Map<usize, nat>| self.ranked(g, stamp);
        assert(other.ranked(g, stamp));
        assert forall|v: usize| #[trigger] other.costs.contains_key(v) implies other.has_witness(
            g,
            v,
        ) by {
            assert(self.has_witness(g, v));
            let p: Seq<usize> = choose|p: Seq<usize>| #[trigger]
                g.connects(p, g.start(), v) && g.walk_cost(p) == self.costs[v];
            assert(g.connects(p, g.start(), v));
        }
        assert forall|x: NodeCost| #[trigger]
            other.frontier.count(x) > 0 implies other.costs.contains_key(x.node) && x.cost
            >= other.key(g, x.node) by {
            assert(self.frontier.count(x) > 0);
        }
    }

    /// Taking an entry for another node out of the frontier leaves a node as
    /// settled as it was.
    proof fn lemma_without_settled(self, g: GraphView, e: NodeCost, v: usize)
        requires
            v != e.node,
            self.is_settled(g, v),
        ensures
            self.without(e).is_settled(g, v),
            self.is_open(g, v) ==> self.without(e).is_open(g, v),
    {
        let less: SearchModel = self.without(e);
        if self.is_open(g, v) {
            assert(less.entry_of(g, v) == self.entry_of(g, v));
            assert(less.entry_of(g, v) != e);
        } else {
            assert forall|x: usize| #[trigger] g.adjacent(v, x) implies less.within_reach(
                g,
                v,
                x,
            ) by {
                assert(self.within_reach(g, v, x));
            }
        }
    }

    /// When an entry that is not for the goal leaves the frontier, the
    /// expansion of its node can begin.
    pub proof fn lemma_pop(self, g: GraphView, e: NodeCost)
        requires
            self.inv(g),
            self.state == SearchState::Running,
            self.frontier.count(e) > 0,
            e.node != g.goal(),
        ensures
            self.without(e).expanding(g, e.node, 0),
            e.node < g.amount(),
    {
        reveal(SearchModel::inv);
        reveal(SearchModel::expanding);
        let less: SearchModel = self.without(e);
        self.lemma_sound_with_less(less, g);
        assert(self.costs.contains_key(e.node));
        assert forall|v: usize| #[trigger] less.costs.contains_key(v) && v
            != e.node implies less.is_settled(g, v) by {
            assert(self.costs.contains_key(v));
            self.lemma_without_settled(g, e, v);
        }
        assert(less.goal_open(g)) by {
            if less.costs.contains_key(g.goal()) {
                assert(self.costs.contains_key(g.goal()));
                self.lemma_without_settled(g, e, g.goal());
            }
        }
    }

    /// The state a search begins in satisfies the invariant.
    pub proof fn lemma_initial(g: GraphView)
        requires
            g.wf(),
        ensures
            Self::initial(g).inv(g),
    {
        reveal(SearchModel::inv);
        let m: SearchModel = Self::initial(g);
        let first: NodeCost = NodeCost { cost: 0, node: g.start() };
        assert(m.costs.dom() =~= Set::<usize>::empty().insert(g.start()));
        assert(m.costs.dom().len() == 1);
        assert(m.preds.dom() =~= Set::<usize>::empty());
        assert(m.ranked(g, Map::<usize, nat>::empty()));
        assert(m.has_witness(g, g.start())) by {
            g.lemma_walk_single(g.start());
            assert(g.connects(seq![g.start()], g.start(), g.start()));
        }
        assert(Self::cost_limit(1) == 0) by (nonlinear_arith)
            requires
                Self::cost_limit(1) == (1 - 1) * MAX_DISTANCE,
        ;
        assert(m.entry_of(g, g.start()) == first);
        assert(m.frontier.count(first) > 0);
        assert forall|e: NodeCost| #[trigger] m.frontier.count(e) > 0 implies m.costs.contains_key(
            e.node,
        ) && e.cost >= m.key(g, e.node) by {
            if e != first {
                assert(m.frontier.count(e) == 0);
            }
        }
        assert(m.is_open(g, g.start()));
    }
}

} // verus!
