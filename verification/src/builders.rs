use vstd::prelude::*;

verus! {

/// What a record must offer to become a node of an undirected graph.
///
/// Each method is called once for each record when a graph is built. Nothing is asked of
/// what they return: the contracts of the graph speak of whatever the calls gave.
pub trait UndirectedGraphBuilder {
    /// Returns the keys of the nodes that are linked with the node.
    fn build_neighbour_keys(&self) -> Vec<String>;

    /// Returns the node key.
    fn build_node_key(&self) -> String;
}

/// What a record must offer to become a node of a directed graph.
///
/// Each method is called once for each record when a graph is built. Nothing is asked of
/// what they return: the contracts of the graph speak of whatever the calls gave.
pub trait DirectedGraphBuilder {
    /// Returns the keys of the nodes that are linked from the node.
    fn build_child_key(&self) -> Vec<String>;

    /// Returns the node key.
    fn build_node_key(&self) -> String;

    /// Returns the keys of the nodes that are linked to the node.
    fn build_parent_key(&self) -> Vec<String>;
}

} // verus!
