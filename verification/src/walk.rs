//! Walks through a graph and what they cost.

use vstd::prelude::*;
use crate::graph::GraphView;

verus! {

impl GraphView {
    /// `p` is a walk: a non-empty sequence of nodes in which each node is
    /// followed by one that is adjacent to it.
    pub open spec fn is_walk(self, p: Seq<usize>) -> bool {
        &&& p.len() >= 1
        &&& forall|i: int| 0 <= i < p.len() ==> (#[trigger] p[i]) < self.amount()
        &&& forall|i: int| 0 <= i < p.len() - 1 ==> self.adjacent(#[trigger] p[i], p[i + 1])
    }

    /// `p` is a walk that leads from `from` to `to`.
    pub open spec fn connects(self, p: Seq<usize>, from: usize, to: usize) -> bool {
        self.is_walk(p) && p[0] == from && p[p.len() - 1] == to
    }

    /// The sum of the distances between consecutive nodes of `p`.
    pub open spec fn walk_cost(self, p: Seq<usize>) -> nat
        decreases p.len(),
    {
        if p.len() <= 1 {
            0
        } else {
            self.walk_cost(p.drop_last()) + self.dist(p[p.len() - 2], p[p.len() - 1])
        }
    }

    /// A single node is a walk that costs nothing.
    pub proof fn lemma_walk_single(self, v: usize)
        requires
            v < self.amount(),
        ensures
            self.connects(seq![v], v, v),
            self.walk_cost(seq![v]) == 0,
    {
    }

    /// A walk can be extended by a node adjacent to its end, at the price of
    /// one more distance.
    pub proof fn lemma_walk_push(self, p: Seq<usize>, v: usize)
        requires
            self.is_walk(p),
            self.adjacent(p[p.len() - 1], v),
        ensures
            self.connects(p.push(v), p[0], v),
            self.walk_cost(p.push(v)) == self.walk_cost(p) + self.dist(p[p.len() - 1], v),
    {
        let q: Seq<usize> = p.push(v);
        assert(q.drop_last() =~= p);
        assert forall|i: int| 0 <= i < q.len() - 1 implies self.adjacent(
            #[trigger] q[i],
            q[i + 1],
        ) by {
            if i < p.len() - 1 {
                assert(q[i] == p[i] && q[i + 1] == p[i + 1]);
            }
        }
    }

    /// One more node in a prefix costs the distance to that node.
    pub proof fn lemma_walk_cost_step(self, p: Seq<usize>, j: int)
        requires
            0 <= j < p.len() - 1,
        ensures
            self.walk_cost(p.take(j + 2)) == self.walk_cost(p.take(j + 1)) + self.dist(
                p[j],
                p[j + 1],
            ),
    {
        assert(p.take(j + 2).drop_last() =~= p.take(j + 1));
    }

    /// The heuristic is consistent along every walk: from any node of the
    /// walk, the straight line to a target `t` is no longer than the rest of
    /// the walk followed by the straight line from its end to `t`.
    pub proof fn lemma_walk_consistent(self, p: Seq<usize>, j: int, t: usize)
        requires
            self.is_walk(p),
            0 <= j < p.len(),
        ensures
            self.walk_cost(p.take(j + 1)) + self.dist(p[j], t) <= self.walk_cost(p) + self.dist(
                p[p.len() - 1],
                t,
            ),
        decreases p.len() - j,
    {
        if j == p.len() - 1 {
            assert(p.take(j + 1) =~= p);
        } else {
            self.lemma_walk_consistent(p, j + 1, t);
            self.lemma_walk_cost_step(p, j);
            self.lemma_dist(p[j], p[j + 1], t);
        }
    }

    /// The straight line between the ends of a walk is no longer than the
    /// walk: the heuristic never overestimates.
    pub proof fn lemma_walk_at_least_distance(self, p: Seq<usize>)
        requires
            self.is_walk(p),
        ensures
            self.dist(p[0], p[p.len() - 1]) <= self.walk_cost(p),
    {
        let t: usize = p[p.len() - 1];
        self.lemma_walk_consistent(p, 0, t);
        self.lemma_dist(t, t, t);
        assert(p.take(1).len() == 1);
    }
}

} // verus!
