//! The frontier of a search: a priority queue of candidate nodes.
//!
//! Entries are ordered by estimated cost, and by node index among equal
//! costs, so that the order is total and the entry that leaves the queue is
//! always determined. The queue is a binary heap with the least entry on top.
//! Nothing is ever looked up or lowered in place: a node whose estimate
//! improves is pushed again, and its older entries stay behind.

use std::cmp::Ordering;
use vstd::prelude::*;
use vstd::multiset::Multiset;
use vstd::seq_lib::{
    to_multiset_build, to_multiset_contains, to_multiset_len, to_multiset_remove,
    to_multiset_update,
};
use vstd::std_specs::cmp::PartialOrdSpecImpl;

verus! {

/// A candidate for expansion: a node and the estimated cost of a path from
/// the start to the goal by way of it.
#[derive(Debug, Copy, Clone, PartialEq, Eq, Ord, Hash, Structural)]
pub struct NodeCost {
    /// The cost travelled to the node plus the estimate of what is left.
    pub cost: u128,
    /// The node the estimate belongs to.
    pub node: usize,
}

impl NodeCost {
    /// `self` comes strictly before `other`: it is cheaper, or as cheap with
    /// the smaller node index.
    pub open spec fn precedes(self, other: NodeCost) -> bool {
        self.cost < other.cost || (self.cost == other.cost && self.node < other.node)
    }

    /// `self` comes before `other` or equals it.
    pub open spec fn at_most(self, other: NodeCost) -> bool {
        self.cost < other.cost || (self.cost == other.cost && self.node <= other.node)
    }

    /// How `self` stands to `other` in the order of the frontier.
    pub open spec fn compared_to(self, other: NodeCost) -> Ordering {
        if self.precedes(other) {
            Ordering::Less
        } else if other.precedes(self) {
            Ordering::Greater
        } else {
            Ordering::Equal
        }
    }

    /// Compares by cost first and by node index among equal costs.
    pub fn cmp(&self, other: &NodeCost) -> (o: Ordering)
        ensures
            o == self.compared_to(*other),
    {
        if self.cost < other.cost {
            Ordering::Less
        } else if self.cost > other.cost {
            Ordering::Greater
        } else if self.node < other.node {
            Ordering::Less
        } else if self.node > other.node {
            Ordering::Greater
        } else {
            Ordering::Equal
        }
    }
}

impl PartialOrd for NodeCost {
    fn partial_cmp(&self, other: &NodeCost) -> (o: Option<Ordering>) {
        Some(self.cmp(other))
    }
}

impl PartialOrdSpecImpl for NodeCost {
    open spec fn obeys_partial_cmp_spec() -> bool {
        true
    }

    open spec fn partial_cmp_spec(&self, other: &NodeCost) -> Option<Ordering> {
        Some(self.compared_to(*other))
    }
}

/// `e` is in `entries` and nothing in `entries` comes before it.
pub open spec fn is_min_of(e: NodeCost, entries: Multiset<NodeCost>) -> bool {
    &&& entries.count(e) > 0
    &&& forall|x: NodeCost| #[trigger] entries.count(x) > 0 ==> e.at_most(x)
}

/// The entry of `entries` that comes before all others.
pub open spec fn min_entry(entries: Multiset<NodeCost>) -> NodeCost {
    choose|e: NodeCost| is_min_of(e, entries)
}

/// A collection of entries has at most one least entry.
pub proof fn lemma_min_unique(a: NodeCost, b: NodeCost, entries: Multiset<NodeCost>)
    requires
        is_min_of(a, entries),
        is_min_of(b, entries),
    ensures
        a == b,
{
    assert(a.at_most(b) && b.at_most(a));
}

/// What satisfies `is_min_of` is the least entry.
pub proof fn lemma_min_entry_is(e: NodeCost, entries: Multiset<NodeCost>)
    requires
        is_min_of(e, entries),
    ensures
        min_entry(entries) == e,
{
    lemma_min_unique(e, min_entry(entries), entries);
}

/// A collection of entries that is not empty has a least entry.
pub proof fn lemma_min_exists(entries: Multiset<NodeCost>)
    requires
        entries.len() > 0,
    ensures
        is_min_of(min_entry(entries), entries),
    decreases entries.len(),
{
    let x: NodeCost = entries.choose();
    let rest: Multiset<NodeCost> = entries.remove(x);
    assert(entries.count(x) > 0);
    if rest.len() == 0 {
        assert forall|y: NodeCost| #[trigger] entries.count(y) > 0 implies x.at_most(y) by {
            if y != x {
                assert(rest.count(y) <= rest.len());
            }
        }
        assert(is_min_of(x, entries));
    } else {
        lemma_min_exists(rest);
        let m: NodeCost = min_entry(rest);
        let least: NodeCost = if x.at_most(m) {
            x
        } else {
            m
        };
        assert forall|y: NodeCost| #[trigger] entries.count(y) > 0 implies least.at_most(y) by {
            if y != x {
                assert(rest.count(y) > 0);
            }
        }
        assert(is_min_of(least, entries));
    }
}

/// The index of the parent of the heap slot `i`.
spec fn parent(i: int) -> int {
    (i - 1) / 2
}

/// The entry in slot `j` does not come before the entry in its parent slot.
spec fn ordered_at(s: Seq<NodeCost>, j: int) -> bool {
    s[parent(j)].at_most(s[j])
}

/// The entry in slot `j` does not come before the entry in the parent slot
/// of `i`, where there is one.
spec fn ordered_above(s: Seq<NodeCost>, i: int, j: int) -> bool {
    i >= 1 ==> s[parent(i)].at_most(s[j])
}

/// Every slot but the root holds an entry that does not come before its
/// parent's.
spec fn heap_ordered(s: Seq<NodeCost>) -> bool {
    forall|j: int| 1 <= j < s.len() ==> #[trigger] ordered_at(s, j)
}

/// The heap order holds everywhere but between slot `i` and its parent, and
/// the children of `i` are in order with the parent of `i`.
spec fn ordered_but_above(s: Seq<NodeCost>, i: int) -> bool {
    &&& forall|j: int| 1 <= j < s.len() && j != i ==> #[trigger] ordered_at(s, j)
    &&& forall|j: int| 1 <= j < s.len() && parent(j) == i ==> #[trigger] ordered_above(s, i, j)
}

/// The heap order holds everywhere but between slot `i` and its children,
/// and the children of `i` are in order with the parent of `i`.
spec fn ordered_but_below(s: Seq<NodeCost>, i: int) -> bool {
    &&& forall|j: int| 1 <= j < s.len() && parent(j) != i ==> #[trigger] ordered_at(s, j)
    &&& forall|j: int| 1 <= j < s.len() && parent(j) == i ==> #[trigger] ordered_above(s, i, j)
}

/// In a heap nothing comes before the root.
proof fn lemma_root_is_least(s: Seq<NodeCost>, i: int)
    requires
        heap_ordered(s),
        0 <= i < s.len(),
    ensures
        s[0].at_most(s[i]),
    decreases i,
{
    if i > 0 {
        assert(ordered_at(s, i));
        lemma_root_is_least(s, parent(i));
    }
}

/// The root of a heap is the least of its entries.
proof fn lemma_root_is_min(s: Seq<NodeCost>)
    requires
        heap_ordered(s),
        s.len() > 0,
    ensures
        is_min_of(s[0], s.to_multiset()),
{
    to_multiset_contains(s, s[0]);
    assert(s.contains(s[0]));
    assert forall|x: NodeCost| #[trigger] s.to_multiset().count(x) > 0 implies s[0].at_most(x) by {
        to_multiset_contains(s, x);
        let i: int = choose|i: int| 0 <= i < s.len() && s[i] == x;
        lemma_root_is_least(s, i);
    }
}

/// Exchanges the entries in slots `i` and `j`.
fn swap_entries(heap: &mut Vec<NodeCost>, i: usize, j: usize)
    requires
        i < old(heap)@.len(),
        j < old(heap)@.len(),
    ensures
        final(heap)@ == old(heap)@.update(i as int, old(heap)@[j as int]).update(
            j as int,
            old(heap)@[i as int],
        ),
        final(heap)@.to_multiset() == old(heap)@.to_multiset(),
{
    let a: NodeCost = heap[i];
    let b: NodeCost = heap[j];
    heap[i] = b;
    heap[j] = a;
    proof {
        let s: Seq<NodeCost> = old(heap)@;
        let t: Seq<NodeCost> = s.update(i as int, b);
        to_multiset_update(s, i as int, b);
        to_multiset_update(t, j as int, a);
        to_multiset_contains(s, a);
        to_multiset_contains(s, b);
        assert(s[i as int] == a && s[j as int] == b);
        assert(s.contains(a) && s.contains(b));
        assert(t[j as int] == b);
        assert(heap@.to_multiset() =~= s.to_multiset());
    }
}

/// Restores the heap order by moving the entry in slot `at` towards the
/// root for as long as it comes before its parent.
fn sift_up(heap: &mut Vec<NodeCost>, at: usize)
    requires
        at < old(heap)@.len(),
        ordered_but_above(old(heap)@, at as int),
    ensures
        heap_ordered(final(heap)@),
        final(heap)@.to_multiset() == old(heap)@.to_multiset(),
{
    let mut i: usize = at;
    let mut moving: bool = true;
    while moving && i > 0
        invariant
            i < heap@.len(),
            ordered_but_above(heap@, i as int),
            !moving ==> i == 0 || ordered_at(heap@, i as int),
            heap@.to_multiset() == old(heap)@.to_multiset(),
        decreases i + (if moving { 1int } else { 0int }),
    {
        let p: usize = (i - 1) / 2;
        let child: NodeCost = heap[i];
        let above: NodeCost = heap[p];
        if child < above {
            let ghost s: Seq<NodeCost> = heap@;
            swap_entries(heap, i, p);
            proof {
                let t: Seq<NodeCost> = heap@;
                assert forall|j: int| 1 <= j < t.len() && j != p implies #[trigger] ordered_at(
                    t,
                    j,
                ) by {
                    if j == i {
                    } else if parent(j) == i {
                        assert(ordered_above(s, i as int, j));
                    } else {
                        assert(ordered_at(s, j));
                    }
                }
                assert forall|j: int|
                    1 <= j < t.len() && parent(j) == p implies #[trigger] ordered_above(
                    t,
                    p as int,
                    j,
                ) by {
                    if p >= 1 {
                        assert(ordered_at(s, p as int));
                        if j != i {
                            assert(ordered_at(s, j));
                        }
                    }
                }
            }
            i = p;
        } else {
            moving = false;
        }
    }
    proof {
        let t: Seq<NodeCost> = heap@;
        assert forall|j: int| 1 <= j < t.len() implies #[trigger] ordered_at(t, j) by {
            if j != i {
                assert(ordered_at(t, j));
            }
        }
    }
}

/// Restores the heap order by moving the entry in slot `at` away from the
/// root for as long as one of its children comes before it.
fn sift_down(heap: &mut Vec<NodeCost>, at: usize)
    requires
        at < old(heap)@.len(),
        ordered_but_below(old(heap)@, at as int),
    ensures
        heap_ordered(final(heap)@),
        final(heap)@.to_multiset() == old(heap)@.to_multiset(),
{
    let len: usize = heap.len();
    let mut i: usize = at;
    let mut moving: bool = true;
    while moving && i < len / 2
        invariant
            len == heap@.len(),
            i < len,
            ordered_but_below(heap@, i as int),
            !moving ==> forall|j: int|
                1 <= j < len && parent(j) == i ==> #[trigger] ordered_at(heap@, j),
            heap@.to_multiset() == old(heap)@.to_multiset(),
        decreases len - i + (if moving { 1int } else { 0int }),
    {
        let left: usize = 2 * i + 1;
        let right: usize = left + 1;
        let mut least: usize = left;
        if right < len {
            let l: NodeCost = heap[left];
            let r: NodeCost = heap[right];
            if r < l {
                least = right;
            }
        }
        let here: NodeCost = heap[i];
        let below: NodeCost = heap[least];
        if below < here {
            let ghost s: Seq<NodeCost> = heap@;
            swap_entries(heap, i, least);
            proof {
                let t: Seq<NodeCost> = heap@;
                assert forall|j: int|
                    1 <= j < t.len() && parent(j) != least implies #[trigger] ordered_at(t, j) by {
                    if j == least {
                    } else if parent(j) == i {
                        assert(j == left || j == right);
                    } else if j == i {
                        assert(ordered_above(s, i as int, least as int));
                    } else {
                        assert(ordered_at(s, j));
                    }
                }
                assert forall|j: int|
                    1 <= j < t.len() && parent(j) == least implies #[trigger] ordered_above(
                    t,
                    least as int,
                    j,
                ) by {
                    assert(ordered_at(s, j));
                }
            }
            i = least;
        } else {
            proof {
                assert forall|j: int| 1 <= j < len && parent(j) == i implies #[trigger] ordered_at(
                    heap@,
                    j,
                ) by {
                    assert(j == left || j == right);
                }
            }
            moving = false;
        }
    }
    proof {
        let t: Seq<NodeCost> = heap@;
        assert forall|j: int| 1 <= j < t.len() implies #[trigger] ordered_at(t, j) by {
            if parent(j) != i {
                assert(ordered_at(t, j));
            }
        }
    }
}

/// A min-ordered queue of entries.
#[derive(Debug)]
pub struct Frontier {
    heap: Vec<NodeCost>,
}

impl View for Frontier {
    type V = Multiset<NodeCost>;

    /// The entries that wait in the queue, each as often as it was pushed
    /// and not yet popped.
    closed spec fn view(&self) -> Multiset<NodeCost> {
        self.heap@.to_multiset()
    }
}

impl Frontier {
    /// The entries are laid out as a heap.
    pub closed spec fn wf(&self) -> bool {
        heap_ordered(self.heap@)
    }

    /// An empty queue.
    pub fn new() -> (frontier: Frontier)
        ensures
            frontier.wf(),
            frontier@ == Multiset::<NodeCost>::empty(),
    {
        let frontier = Frontier { heap: Vec::new() };
        proof {
            to_multiset_len(frontier.heap@);
            assert(frontier.heap@.to_multiset() =~= Multiset::<NodeCost>::empty());
        }
        frontier
    }

    /// The number of entries that wait.
    pub fn len(&self) -> (n: usize)
        ensures
            n == self@.len(),
    {
        proof {
            to_multiset_len(self.heap@);
        }
        self.heap.len()
    }

    /// Whether no entry waits.
    pub fn is_empty(&self) -> (b: bool)
        ensures
            b == (self@.len() == 0),
    {
        proof {
            to_multiset_len(self.heap@);
        }
        self.heap.len() == 0
    }

    /// The least entry, which `pop_min` would take out. `None` if the queue
    /// is empty.
    pub fn peek_min(&self) -> (r: Option<NodeCost>)
        requires
            self.wf(),
        ensures
            match r {
                Some(entry) => is_min_of(entry, self@),
                None => self@.len() == 0,
            },
    {
        proof {
            to_multiset_len(self.heap@);
        }
        if self.heap.len() == 0 {
            None
        } else {
            proof {
                lemma_root_is_min(self.heap@);
            }
            Some(self.heap[0])
        }
    }

    /// Adds `entry` to the queue. Entries already there stay, also those
    /// for the same node.
    pub fn push(&mut self, entry: NodeCost)
        requires
            old(self).wf(),
        ensures
            final(self).wf(),
            final(self)@ == old(self)@.insert(entry),
    {
        let ghost s: Seq<NodeCost> = self.heap@;
        self.heap.push(entry);
        let at: usize = self.heap.len() - 1;
        proof {
            let t: Seq<NodeCost> = self.heap@;
            to_multiset_build(s, entry);
            assert forall|j: int| 1 <= j < t.len() && j != at implies #[trigger] ordered_at(
                t,
                j,
            ) by {
                assert(ordered_at(s, j));
            }
        }
        sift_up(&mut self.heap, at);
    }

    /// Takes the least entry out of the queue: the one with the lowest
    /// estimated cost, and among those the one with the lowest node index.
    /// Returns `None` if the queue is empty.
    pub fn pop_min(&mut self) -> (r: Option<NodeCost>)
        requires
            old(self).wf(),
        ensures
            final(self).wf(),
            match r {
                Some(entry) => is_min_of(entry, old(self)@) && final(self)@ == old(self)@.remove(
                    entry,
                ),
                None => old(self)@.len() == 0 && final(self)@ == old(self)@,
            },
    {
        let ghost s: Seq<NodeCost> = self.heap@;
        proof {
            to_multiset_len(s);
        }
        if self.heap.len() == 0 {
            return None;
        }
        let top: NodeCost = self.heap[0];
        let last: NodeCost = self.heap.pop().unwrap();
        proof {
            lemma_root_is_min(s);
            assert(self.heap@ =~= s.remove(s.len() - 1));
            to_multiset_remove(s, s.len() - 1);
        }
        if self.heap.len() > 0 {
            let ghost t: Seq<NodeCost> = self.heap@;
            self.heap[0] = last;
            proof {
                let u: Seq<NodeCost> = self.heap@;
                to_multiset_update(t, 0, last);
                to_multiset_contains(s, top);
                to_multiset_contains(s, last);
                assert(s.contains(top) && s.contains(last));
                assert(t[0] == top);
                assert(u.to_multiset() =~= s.to_multiset().remove(top));
                assert forall|j: int|
                    1 <= j < u.len() && parent(j) != 0 implies #[trigger] ordered_at(u, j) by {
                    assert(ordered_at(s, j));
                }
            }
            sift_down(&mut self.heap, 0);
        } else {
            proof {
                assert(top == last);
            }
        }
        Some(top)
    }
}

} // verus!
