//! From predecessor links to a path.

use std::collections::HashMap;
use vstd::prelude::*;
use vstd::set_lib::lemma_len_subset;
use crate::error::SearchError;

verus! {

broadcast use vstd::std_specs::hash::group_hash_axioms;

/// The nodes met by following `prev` backwards from `node`, written from
/// the far end to `node`. The far end is the first node without a
/// predecessor. `None` if it is not reached within `fuel` links.
pub open spec fn pred_chain(prev: Map<usize, usize>, node: usize, fuel: nat) -> Option<Seq<usize>>
    decreases fuel,
{
    if !prev.contains_key(node) {
        Some(seq![node])
    } else if fuel == 0 {
        None
    } else {
        match pred_chain(prev, prev[node], (fuel - 1) as nat) {
            Some(chain) => Some(chain.push(node)),
            None => None,
        }
    }
}

/// The chain of `node`, if it begins at the start node, which is node zero:
/// the path on which a search has reached `node`. `None` if the links run
/// in a circle, or lead to a node without predecessor that is not the
/// start, as they do from a node that no search has reached.
pub open spec fn path_from_start(prev: Map<usize, usize>, node: usize) -> Option<Seq<usize>> {
    match pred_chain(prev, node, prev.len()) {
        Some(chain) => if chain[0] == 0 {
            Some(chain)
        } else {
            None
        },
        None => None,
    }
}

/// The same nodes, counted from one as they are reported.
pub open spec fn node_numbers(chain: Seq<usize>) -> Seq<usize> {
    Seq::new(chain.len(), |i: int| (chain[i] + 1) as usize)
}

/// A chain has at least one node, and at most one more than the links it
/// was allowed.
pub proof fn lemma_chain_len(prev: Map<usize, usize>, node: usize, fuel: nat)
    requires
        pred_chain(prev, node, fuel) is Some,
    ensures
        1 <= pred_chain(prev, node, fuel)->0.len() <= fuel + 1,
    decreases fuel,
{
    if prev.contains_key(node) {
        lemma_chain_len(prev, prev[node], (fuel - 1) as nat);
    }
}

/// Allowing a chain another number of links, as long as it is no fewer than
/// the chain has, changes nothing.
pub proof fn lemma_chain_fuel(prev: Map<usize, usize>, node: usize, fuel: nat, more: nat)
    requires
        pred_chain(prev, node, fuel) is Some,
        more >= pred_chain(prev, node, fuel)->0.len() - 1,
    ensures
        pred_chain(prev, node, more) == pred_chain(prev, node, fuel),
    decreases fuel,
{
    if prev.contains_key(node) {
        lemma_chain_len(prev, prev[node], (fuel - 1) as nat);
        lemma_chain_fuel(prev, prev[node], (fuel - 1) as nat, (more - 1) as nat);
    }
}

/// Every prefix of a chain is the chain of its last node, and every node of
/// a chain but the first has a predecessor.
pub proof fn lemma_chain_prefix(prev: Map<usize, usize>, node: usize, fuel: nat, i: int)
    requires
        pred_chain(prev, node, fuel) is Some,
        0 <= i < pred_chain(prev, node, fuel)->0.len(),
    ensures
        pred_chain(prev, pred_chain(prev, node, fuel)->0[i], fuel) == Some(
            pred_chain(prev, node, fuel)->0.take(i + 1),
        ),
        i >= 1 ==> prev.contains_key(pred_chain(prev, node, fuel)->0[i]),
    decreases fuel,
{
    let chain: Seq<usize> = pred_chain(prev, node, fuel)->0;
    if !prev.contains_key(node) {
        assert(chain.take(1) =~= chain);
    } else {
        let rest: Seq<usize> = pred_chain(prev, prev[node], (fuel - 1) as nat)->0;
        if i == chain.len() - 1 {
            assert(chain.take(i + 1) =~= chain);
        } else {
            lemma_chain_prefix(prev, prev[node], (fuel - 1) as nat, i);
            lemma_chain_len(prev, prev[node], (fuel - 1) as nat);
            lemma_chain_fuel(prev, rest[i], (fuel - 1) as nat, fuel);
            assert(chain.take(i + 1) =~= rest.take(i + 1));
        }
    }
}

/// The limit on the number of links takes no path away: links that lead to
/// a node without predecessor at all do so within as many steps as there
/// are links.
pub proof fn lemma_chain_within_len(prev: Map<usize, usize>, node: usize, fuel: nat)
    requires
        prev.dom().finite(),
        pred_chain(prev, node, fuel) is Some,
    ensures
        pred_chain(prev, node, prev.len()) == pred_chain(prev, node, fuel),
{
    let chain: Seq<usize> = pred_chain(prev, node, fuel)->0;
    let keys: Seq<usize> = chain.skip(1);
    lemma_chain_len(prev, node, fuel);
    assert forall|i: int, j: int| 0 <= i < j < chain.len() implies chain[i] != chain[j] by {
        lemma_chain_prefix(prev, node, fuel, i);
        lemma_chain_prefix(prev, node, fuel, j);
        assert(chain.take(i + 1).len() != chain.take(j + 1).len());
    }
    assert(keys.no_duplicates()) by {
        assert forall|i: int, j: int| 0 <= i < keys.len() && 0 <= j < keys.len() && i
            != j implies keys[i] != keys[j] by {
            if i < j {
                assert(chain[i + 1] != chain[j + 1]);
            } else {
                assert(chain[j + 1] != chain[i + 1]);
            }
        }
    }
    keys.unique_seq_to_set();
    assert(keys.to_set().subset_of(prev.dom())) by {
        assert forall|x: usize| keys.to_set().contains(x) implies prev.dom().contains(x) by {
            let i: int = choose|i: int| 0 <= i < keys.len() && keys[i] == x;
            lemma_chain_prefix(prev, node, fuel, i + 1);
        }
    }
    lemma_len_subset(keys.to_set(), prev.dom());
    lemma_chain_fuel(prev, node, fuel, prev.len());
}

/// `chain` followed by `tail`, if there is a chain.
spec fn extended(chain: Option<Seq<usize>>, tail: Seq<usize>) -> Option<Seq<usize>> {
    match chain {
        Some(c) => Some(c + tail),
        None => None,
    }
}

/// Returns the path that the predecessor links describe, from the start
/// node down to `current`, as node numbers that start at one.
///
/// Fails unless the links lead from `current` back to the start node. A
/// chain of links can pass through each key of `prev_node` at most once; one
/// that is longer runs in a circle. One that ends at another node than the
/// start belongs to a node that was never reached.
pub fn reconstruct_path(prev_node: &HashMap<usize, usize>, current: usize) -> (r: Result<
    Vec<usize>,
    SearchError,
>)
    requires
        current < usize::MAX,
        forall|k: usize| prev_node@.contains_key(k) ==> #[trigger] prev_node@[k] < usize::MAX,
    ensures
        match r {
            Ok(path) => {
                &&& path_from_start(prev_node@, current) is Some
                &&& path@ == node_numbers(path_from_start(prev_node@, current)->0)
            },
            Err(e) => {
                &&& e == SearchError::InternalInvariant
                &&& path_from_start(prev_node@, current) is None
            },
        },
{
    let limit: usize = prev_node.len();
    let mut path: Vec<usize> = Vec::new();
    path.push(current + 1);
    let mut node: usize = current;
    let mut steps: usize = 0;
    let ghost mut tail: Seq<usize> = Seq::empty();
    assert(path@ =~= node_numbers(seq![node] + tail));
    loop
        invariant
            limit == prev_node@.len(),
            steps <= limit,
            forall|k: usize| prev_node@.contains_key(k) ==> #[trigger] prev_node@[k] < usize::MAX,
            node < usize::MAX,
            pred_chain(prev_node@, current, limit as nat) == extended(
                pred_chain(prev_node@, node, (limit - steps) as nat),
                tail,
            ),
            path@ == node_numbers(seq![node] + tail),
        decreases limit - steps,
    {
        match prev_node.get(&node) {
            None => {
                assert(pred_chain(prev_node@, node, (limit - steps) as nat) == Some(seq![node]));
                assert((seq![node] + tail)[0] == node);
                if node == 0 {
                    return Ok(path);
                }
                return Err(SearchError::InternalInvariant);
            },
            Some(before) => {
                let before: usize = *before;
                if steps == limit {
                    return Err(SearchError::InternalInvariant);
                }
                proof {
                    let rest: Option<Seq<usize>> = pred_chain(
                        prev_node@,
                        before,
                        (limit - steps - 1) as nat,
                    );
                    if rest is Some {
                        assert(rest->0.push(node) + tail =~= rest->0 + (seq![node] + tail));
                    }
                    assert(node_numbers(seq![before] + (seq![node] + tail)) =~= node_numbers(
                        seq![node] + tail,
                    ).insert(0, (before + 1) as usize));
                    tail = seq![node] + tail;
                }
                path.insert(0, before + 1);
                node = before;
                steps = steps + 1;
            },
        }
    }
}

} // verus!
