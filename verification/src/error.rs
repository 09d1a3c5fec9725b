//! What can go wrong outside a search itself.

use vstd::prelude::*;

verus! {

/// The failures the library reports. Finding no path is not among them: it is
/// an ordinary outcome of a search.
#[derive(Debug, Clone, Copy, PartialEq, Eq, Structural)]
pub enum SearchError {
    /// The description of the graph is inconsistent: a count that does not
    /// match, a number that does not parse, a matrix that is not square.
    MalformedInput,
    /// A path was asked of a search that has not found one, or the
    /// predecessor links do not lead back to a node without predecessor.
    InternalInvariant,
}

} // verus!
