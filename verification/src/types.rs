use vstd::prelude::*;

pub mod directed_graph;
pub mod undirected_graph;
pub mod weighted_graph;

verus! {

/// Marker of a graph whose links run from parent to child.
#[derive(Clone, Copy)]
pub struct Directed;

/// Marker of a graph whose links have no direction.
#[derive(Clone, Copy)]
pub struct Undirected;

} // verus!
