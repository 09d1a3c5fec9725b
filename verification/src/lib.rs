//! Shortest paths between points of the plane.
//!
//! A graph is a list of points with integer coordinates together with a
//! dense 0/1 adjacency matrix. A search runs A* from the first node to the
//! last one, with the straight-line distance as the cost of an edge and as
//! the estimate of what is left to travel. Distances are exact integers: the
//! Euclidean distance in millionths of a unit, rounded up.
//!
//! [`loader::load_graph`] reads a graph from text and [`search::find_path`]
//! searches it. [`search::SearchDriver`] takes the same search one step at a
//! time. What a search does is defined in [`model`], and what is proved of
//! it is collected in [`laws`].

pub mod error;
pub mod frontier;
pub mod geometry;
pub mod graph;
pub mod isqrt;
pub mod laws;
pub mod ledger;
pub mod loader;
pub mod model;
pub mod optimality;
pub mod outcome;
pub mod preservation;
pub mod reconstruct;
pub mod search;
pub mod walk;

pub use error::SearchError;
pub use frontier::{Frontier, NodeCost};
pub use graph::{adjacent_nodes, Graph};
pub use ledger::CostLedger;
pub use loader::load_graph;
pub use model::SearchState;
pub use outcome::SearchOutcome;
pub use reconstruct::reconstruct_path;
pub use search::{find_path, SearchDriver};
