use crate::builders::DirectedGraphBuilder;
use crate::construction::{completed, first_of_each_key, views};
use crate::graph::{well_formed_nodes, Graph};
use crate::node::{LinksDirection, Node};
use crate::query::{
    are_copies, chosen_copies, is_leaf, is_linked_from, is_root, is_sibling_of, lacking,
    linked_from, marked, siblings_of,
};
use crate::types::directed_graph::{checked, circular};
use crate::types::Directed;
use vstd::prelude::*;

verus! {

/// A directed graph that holds its nodes and nothing else, and whose queries hand out
/// copies of the nodes.
pub struct DirectedGraph<T> where T: DirectedGraphBuilder + Clone {
    /// List of the nodes of the graph.
    pub nodes: Vec<Node<Directed, T>>,
    /// Is set to true when a graph has a circular reference or has no root nodes.
    pub has_circular_ref: bool,
}

impl<T: DirectedGraphBuilder + Clone> DirectedGraph<T> {
    /// This graph is what `new` makes of the nodes `nodes` of its records: of the nodes
    /// that share a key the first is kept, every declared link has its inverse, and each
    /// node is marked exactly if it closes a cycle.
    pub open spec fn built_from(&self, nodes: Seq<Node<Directed, T>>) -> bool {
        let kept = first_of_each_key(nodes);
        let linked = completed(views(kept));
        &&& self.nodes.len() == kept.len()
        &&& forall|i: int| 0 <= i < kept.len() ==> (#[trigger] self.nodes[i]).data == kept[i].data
        &&& self.nodes.deep_view() == checked(linked)
        &&& self.has_circular_ref == circular(linked)
    }

    /// The graph of the records `data`: one node for each key, the links completed, the
    /// nodes that close a cycle marked.
    pub fn new(data: Vec<T>) -> (graph: DirectedGraph<T>)
        ensures
            exists|nodes: Seq<Node<Directed, T>>|
                Graph::<Directed, T>::made_from(nodes, data@) && #[trigger] graph.built_from(nodes),
            well_formed_nodes(graph.nodes.deep_view()),
    {
        let built = Graph::<Directed, T>::new(data);
        let ghost nodes = choose|nodes: Seq<Node<Directed, T>>|
            Graph::<Directed, T>::made_from(nodes, data@) && #[trigger] built.built_from(nodes);
        let graph = DirectedGraph { nodes: built.nodes, has_circular_ref: built.has_circular_ref };
        assert(graph.built_from(nodes));
        graph
    }

    /// Copies of all nodes that have no parents.
    pub fn get_root_nodes(&self) -> (found: Vec<Node<Directed, T>>)
        ensures
            are_copies(found@, self.nodes@.filter(|n: Node<Directed, T>| is_root(n.deep_view()))),
    {
        let chosen = lacking(&self.nodes, LinksDirection::From);
        chosen_copies(&self.nodes, &chosen, Ghost(|n: Node<Directed, T>| is_root(n.deep_view())))
    }

    /// Copies of all nodes that have no children.
    pub fn get_leaf_nodes(&self) -> (found: Vec<Node<Directed, T>>)
        ensures
            are_copies(found@, self.nodes@.filter(|n: Node<Directed, T>| is_leaf(n.deep_view()))),
    {
        let chosen = lacking(&self.nodes, LinksDirection::To);
        chosen_copies(&self.nodes, &chosen, Ghost(|n: Node<Directed, T>| is_leaf(n.deep_view())))
    }

    /// Copies of all nodes that are marked as closing a cycle.
    pub fn get_circular_nodes(&self) -> (found: Vec<Node<Directed, T>>)
        ensures
            are_copies(found@, self.nodes@.filter(|n: Node<Directed, T>| n.is_in_circular_ref)),
    {
        let chosen = marked(&self.nodes);
        chosen_copies(&self.nodes, &chosen, Ghost(|n: Node<Directed, T>| n.is_in_circular_ref))
    }

    /// Copies of the children of `current_node`.
    pub fn get_child_nodes(&self, current_node: Node<Directed, T>) -> (found: Vec<Node<Directed, T>>)
        ensures
            are_copies(
                found@,
                self.nodes@.filter(
                    |n: Node<Directed, T>|
                        is_linked_from(current_node.deep_view(), n.deep_view(), LinksDirection::To),
                ),
            ),
    {
        let chosen = linked_from(&self.nodes, &current_node, LinksDirection::To);
        chosen_copies(
            &self.nodes,
            &chosen,
            Ghost(
                |n: Node<Directed, T>|
                    is_linked_from(current_node.deep_view(), n.deep_view(), LinksDirection::To),
            ),
        )
    }

    /// Copies of the parents of `current_node`.
    pub fn get_parent_nodes(&self, current_node: Node<Directed, T>) -> (found: Vec<Node<Directed, T>>)
        ensures
            are_copies(
                found@,
                self.nodes@.filter(
                    |n: Node<Directed, T>|
                        is_linked_from(current_node.deep_view(), n.deep_view(), LinksDirection::From),
                ),
            ),
    {
        let chosen = linked_from(&self.nodes, &current_node, LinksDirection::From);
        chosen_copies(
            &self.nodes,
            &chosen,
            Ghost(
                |n: Node<Directed, T>|
                    is_linked_from(current_node.deep_view(), n.deep_view(), LinksDirection::From),
            ),
        )
    }

    /// Copies of the nodes that have a parent in common with `current_node`.
    pub fn get_sibling_nodes(&self, current_node: Node<Directed, T>) -> (found: Vec<Node<Directed, T>>)
        ensures
            are_copies(
                found@,
                self.nodes@.filter(
                    |n: Node<Directed, T>| is_sibling_of(current_node.deep_view(), n.deep_view()),
                ),
            ),
    {
        let chosen = siblings_of(&self.nodes, &current_node);
        chosen_copies(
            &self.nodes,
            &chosen,
            Ghost(|n: Node<Directed, T>| is_sibling_of(current_node.deep_view(), n.deep_view())),
        )
    }
}

} // verus!
