//! Graphs built from host records: directed, undirected and weighted.

pub mod builders;
pub mod construction;
pub mod cycle;
pub mod directed_graph;
pub mod edge;
pub mod graph;
pub mod laws;
pub mod node;
pub mod query;
pub mod types;
pub mod utils;
