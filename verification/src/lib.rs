//! Exact diameter of a finite, unweighted, directed graph.
//!
//! The graph is given as a vertex count `n` and a list of directed edges with
//! endpoints below `n`; the library returns the greatest shortest-path
//! distance over all ordered vertex pairs in which the second vertex is
//! reachable from the first. Pairs that are mutually unreachable contribute
//! nothing: a disconnected graph gets the greatest finite eccentricity, not a
//! sentinel.

pub mod adjacency;
pub mod bfs;
pub mod diameter;
pub mod graph;
pub mod laws;
pub mod scc;
pub mod sweep;

pub use diameter::graph_diameter;
