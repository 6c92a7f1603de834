//! Structural statistics of directed graphs.
//!
//! The crate ingests a directed graph given as a list of (source label,
//! target label) pairs, interns each distinct label to a dense zero-based
//! node id, and computes two distributions over the nodes: the out-degree
//! histogram and the histogram of distance-2 reach-counts (the number of
//! distinct nodes reachable through exactly one intermediate hop, excluding
//! the node itself and its direct successors).

pub mod graph;
pub mod hist;
pub mod intern;
pub mod loader;
pub mod stats;
