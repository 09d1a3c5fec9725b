//! The graph: one point per node and a dense adjacency matrix.

use vstd::prelude::*;
use crate::error::SearchError;
use crate::geometry::{
    distance, lemma_distance_bounded, lemma_distance_symmetric, lemma_distance_to_self,
    lemma_distance_triangle, scaled_distance, MAX_DISTANCE,
};

verus! {

/// The rows of a matrix as sequences.
pub open spec fn rows_view(rows: Seq<Vec<u8>>) -> Seq<Seq<u8>> {
    Seq::new(rows.len(), |i: int| rows[i]@)
}

/// The indices `0, 1, ..., len - 1`.
pub open spec fn indices(len: nat) -> Seq<usize> {
    Seq::new(len, |i: int| i as usize)
}

/// Whether row `i` of `matrix` has a one in column `node`.
pub open spec fn lists(matrix: Seq<Seq<u8>>, node: usize) -> spec_fn(usize) -> bool {
    |i: usize| matrix[i as int][node as int] == 1
}

/// The rows of `matrix` that have a one in column `node`, in ascending order.
pub open spec fn adjacent_indices(matrix: Seq<Seq<u8>>, node: usize) -> Seq<usize> {
    indices(matrix.len()).filter(lists(matrix, node))
}

/// Returns the nodes adjacent to `node`: the indices of the rows of `matrix`
/// whose entry in column `node` is one, in ascending order.
pub fn adjacent_nodes(matrix: &Vec<Vec<u8>>, node: usize) -> (adj_nodes: Vec<usize>)
    requires
        forall|i: int| 0 <= i < matrix@.len() ==> node < (#[trigger] matrix@[i])@.len(),
    ensures
        adj_nodes@ == adjacent_indices(rows_view(matrix@), node),
{
    let mut adj_nodes: Vec<usize> = Vec::new();
    let ghost rows: Seq<Seq<u8>> = rows_view(matrix@);
    let ghost all: Seq<usize> = indices(rows.len());
    let mut index: usize = 0;
    assert(all.take(0).filter(lists(rows, node)) =~= Seq::<usize>::empty()) by {
        reveal(Seq::filter);
    }
    while index < matrix.len()
        invariant
            index <= matrix@.len(),
            rows == rows_view(matrix@),
            all == indices(rows.len()),
            forall|i: int| 0 <= i < matrix@.len() ==> node < (#[trigger] matrix@[i])@.len(),
            adj_nodes@ == all.take(index as int).filter(lists(rows, node)),
        decreases matrix@.len() - index,
    {
        proof {
            let before: Seq<usize> = all.take(index as int);
            assert(all.take(index + 1) =~= before.push(index));
            before.lemma_filter_push(index, lists(rows, node));
            assert(lists(rows, node)(index) == (matrix@[index as int]@[node as int] == 1));
        }
        if matrix[index][node] == 1 {
            adj_nodes.push(index);
        }
        index = index + 1;
    }
    assert(all.take(index as int) =~= all);
    adj_nodes
}

/// What a graph is made of: its points and its matrix.
pub struct GraphView {
    /// The coordinates of each node.
    pub coords: Seq<(i32, i32)>,
    /// The adjacency matrix, row by row.
    pub matrix: Seq<Seq<u8>>,
}

impl GraphView {
    /// The number of nodes.
    pub open spec fn amount(self) -> nat {
        self.coords.len()
    }

    /// There is at least one node, and the matrix has one row and one column
    /// for each.
    pub open spec fn wf(self) -> bool {
        &&& 1 <= self.coords.len() <= usize::MAX
        &&& self.matrix.len() == self.coords.len()
        &&& forall|i: int|
            0 <= i < self.matrix.len() ==> (#[trigger] self.matrix[i]).len() == self.coords.len()
    }

    /// The node every search starts from.
    pub open spec fn start(self) -> usize {
        0
    }

    /// The node every search heads for: the last one.
    pub open spec fn goal(self) -> usize {
        (self.coords.len() - 1) as usize
    }

    /// Whether a search that stands on `from` may move to `to`: row `to` of
    /// the matrix has a one in column `from`.
    pub open spec fn adjacent(self, from: usize, to: usize) -> bool {
        &&& from < self.coords.len()
        &&& to < self.coords.len()
        &&& self.matrix[to as int][from as int] == 1
    }

    /// The nodes a search may move to from `node`, in ascending order.
    pub open spec fn neighbors(self, node: usize) -> Seq<usize> {
        adjacent_indices(self.matrix, node)
    }

    /// The distance between the points of `a` and `b`.
    pub open spec fn dist(self, a: usize, b: usize) -> nat {
        scaled_distance(self.coords[a as int], self.coords[b as int])
    }

    /// The estimate of what is left to travel from `node`: the distance to
    /// the goal.
    pub open spec fn heuristic(self, node: usize) -> nat {
        self.dist(node, self.goal())
    }

    /// The neighbours of `node` are exactly the nodes adjacent to it.
    pub proof fn lemma_neighbors(self, node: usize)
        requires
            self.wf(),
            node < self.amount(),
        ensures
            forall|nb: usize| self.neighbors(node).contains(nb) <==> self.adjacent(node, nb),
    {
        let all: Seq<usize> = indices(self.matrix.len());
        let pred: spec_fn(usize) -> bool = lists(self.matrix, node);
        assert forall|nb: usize| self.neighbors(node).contains(nb) implies self.adjacent(
            node,
            nb,
        ) by {
            let j: int = choose|j: int|
                0 <= j < all.filter(pred).len() && all.filter(pred)[j] == nb;
            all.lemma_filter_pred(pred, j);
            all.lemma_filter_contains_rev(pred, nb);
            let k: int = choose|k: int| 0 <= k < all.len() && all[k] == nb;
            assert(nb == k);
        }
        assert forall|nb: usize| self.adjacent(node, nb) implies self.neighbors(node).contains(
            nb,
        ) by {
            assert(all[nb as int] == nb);
            all.lemma_filter_contains(pred, nb as int);
        }
    }

    /// Distances in the graph obey the laws of a metric, and are bounded.
    pub proof fn lemma_dist(self, a: usize, b: usize, c: usize)
        ensures
            self.dist(a, a) == 0,
            self.dist(a, b) == self.dist(b, a),
            self.dist(a, c) <= self.dist(a, b) + self.dist(b, c),
            self.dist(a, b) <= MAX_DISTANCE,
    {
        lemma_distance_to_self(self.coords[a as int]);
        lemma_distance_symmetric(self.coords[a as int], self.coords[b as int]);
        lemma_distance_triangle(
            self.coords[a as int],
            self.coords[b as int],
            self.coords[c as int],
        );
        lemma_distance_bounded(self.coords[a as int], self.coords[b as int]);
    }
}

/// A graph of points in the plane. Its shape is checked once, when it is
/// built, and it does not change afterwards.
#[derive(Debug)]
pub struct Graph {
    nodes: Vec<(i32, i32)>,
    matrix: Vec<Vec<u8>>,
}

impl View for Graph {
    type V = GraphView;

    closed spec fn view(&self) -> GraphView {
        GraphView { coords: self.nodes@, matrix: rows_view(self.matrix@) }
    }
}

impl Graph {
    /// Every graph has the shape that `GraphView::wf` describes.
    #[verifier::type_invariant]
    pub open spec fn well_formed(&self) -> bool {
        self@.wf()
    }

    /// Builds a graph from the coordinates of its nodes and its adjacency
    /// matrix. Fails unless there is at least one node and the matrix is
    /// square, with one row for each node.
    pub fn new(nodes: Vec<(i32, i32)>, matrix: Vec<Vec<u8>>) -> (r: Result<Graph, SearchError>)
        ensures
            match r {
                Ok(graph) => {
                    &&& graph@.wf()
                    &&& graph@.coords == nodes@
                    &&& graph@.matrix == rows_view(matrix@)
                },
                Err(e) => {
                    &&& e == SearchError::MalformedInput
                    &&& !(GraphView { coords: nodes@, matrix: rows_view(matrix@) }).wf()
                },
            },
    {
        let amount: usize = nodes.len();
        if amount == 0 || matrix.len() != amount {
            return Err(SearchError::MalformedInput);
        }
        let mut row: usize = 0;
        while row < amount
            invariant
                row <= amount,
                amount == nodes@.len(),
                amount == matrix@.len(),
                forall|i: int| 0 <= i < row ==> (#[trigger] matrix@[i])@.len() == amount,
            decreases amount - row,
        {
            if matrix[row].len() != amount {
                assert(rows_view(matrix@)[row as int].len() != amount);
                return Err(SearchError::MalformedInput);
            }
            row = row + 1;
        }
        assert forall|i: int| 0 <= i < rows_view(matrix@).len() implies (#[trigger] rows_view(
            matrix@,
        )[i]).len() == amount by {
            assert(matrix@[i]@.len() == amount);
        }
        Ok(Graph { nodes, matrix })
    }

    /// The number of nodes.
    pub fn amount(&self) -> (n: usize)
        ensures
            n == self@.amount(),
            n >= 1,
    {
        proof {
            use_type_invariant(self);
        }
        self.nodes.len()
    }

    /// The node every search starts from.
    pub fn start(&self) -> (node: usize)
        ensures
            node == self@.start(),
            node < self@.amount(),
    {
        proof {
            use_type_invariant(self);
        }
        0
    }

    /// The node every search heads for.
    pub fn goal(&self) -> (node: usize)
        ensures
            node == self@.goal(),
            node < self@.amount(),
    {
        proof {
            use_type_invariant(self);
        }
        self.nodes.len() - 1
    }

    /// The coordinates of `node`.
    pub fn coordinates(&self, node: usize) -> (point: (i32, i32))
        requires
            node < self@.amount(),
        ensures
            point == self@.coords[node as int],
    {
        self.nodes[node]
    }

    /// Whether a search that stands on `from` may move to `to`.
    pub fn is_adjacent(&self, from: usize, to: usize) -> (b: bool)
        requires
            from < self@.amount(),
            to < self@.amount(),
        ensures
            b == self@.adjacent(from, to),
    {
        proof {
            use_type_invariant(self);
            assert(rows_view(self.matrix@)[to as int].len() == self@.amount());
        }
        self.matrix[to][from] == 1
    }

    /// The nodes a search may move to from `node`, in ascending order.
    pub fn neighbors(&self, node: usize) -> (adj: Vec<usize>)
        requires
            node < self@.amount(),
        ensures
            adj@ == self@.neighbors(node),
    {
        proof {
            use_type_invariant(self);
            assert forall|i: int| 0 <= i < self.matrix@.len() implies node < (
            #[trigger] self.matrix@[i])@.len() by {
                assert(rows_view(self.matrix@)[i].len() == self@.amount());
            }
        }
        adjacent_nodes(&self.matrix, node)
    }

    /// The distance between the points of `a` and `b`.
    pub fn distance(&self, a: usize, b: usize) -> (d: u128)
        requires
            a < self@.amount(),
            b < self@.amount(),
        ensures
            d == self@.dist(a, b),
            d <= MAX_DISTANCE,
    {
        distance(&self.nodes, a, b)
    }
}

} // verus!
