use crate::edge::Edges;
use crate::node::{Node, NodeView};
use std::marker::PhantomData;
use vstd::prelude::*;

verus! {

/// The keys of a sequence of nodes, in order.
pub open spec fn node_keys(nodes: Seq<NodeView>) -> Seq<Seq<char>> {
    nodes.map_values(|n: NodeView| n.key)
}

/// No two nodes share a key, and no node links a key twice.
pub open spec fn well_formed_nodes(nodes: Seq<NodeView>) -> bool {
    &&& node_keys(nodes).no_duplicates()
    &&& forall|i: int| 0 <= i < nodes.len() ==> crate::node::distinct_links(#[trigger] nodes[i].links)
}

/// Where the first node with the key `key` stands, if there is one.
pub open spec fn place_of_key(nodes: Seq<NodeView>, key: Seq<char>) -> Option<int> {
    node_keys(nodes).index_of_first(key)
}

/// Graph structure.
pub struct Graph<GraphType, T> where T: Clone {
    /// List of the nodes of the graph.
    pub nodes: Vec<Node<GraphType, T>>,
    /// List of the links between the nodes.
    pub edges: Edges,
    /// Is set to true when a graph has a circular reference or has no root nodes.
    pub has_circular_ref: bool,
    pub graph_type: PhantomData<GraphType>,
}

/// Where the first node with the key `key` stands in `nodes`, if there is one.
pub fn find_node<GraphType, T: Clone>(nodes: &Vec<Node<GraphType, T>>, key: &String) -> (place:
    Option<usize>)
    ensures
        match place {
            Some(i) => i < nodes.len() && place_of_key(nodes.deep_view(), key@) == Some(i as int)
                && nodes[i as int].key@ == key@,
            None => place_of_key(nodes.deep_view(), key@) is None && forall|j: int|
                0 <= j < nodes.len() ==> (#[trigger] nodes[j]).key@ != key@,
        },
{
    let ghost keys = node_keys(nodes.deep_view());
    let mut i: usize = 0;
    while i < nodes.len()
        invariant
            i <= nodes.len(),
            keys == node_keys(nodes.deep_view()),
            forall|j: int| 0 <= j < i ==> #[trigger] keys[j] != key@,
        decreases nodes.len() - i,
    {
        if nodes[i].key == *key {
            proof {
                assert(keys[i as int] == key@);
                crate::edge::lemma_first_place(keys, key@, i as int);
            }
            return Some(i);
        }
        assert(keys[i as int] != key@);
        i += 1;
    }
    proof {
        crate::edge::lemma_first_place(keys, key@, nodes.len() as int);
        assert forall|j: int| 0 <= j < nodes.len() implies (#[trigger] nodes[j]).key@ != key@ by {
            assert(keys[j] != key@);
        }
    }
    None
}

impl<GraphType: Clone, T: Clone> Graph<GraphType, T> {
    /// The nodes of the graph as contracts see them.
    pub open spec fn node_views(&self) -> Seq<NodeView> {
        self.nodes.deep_view()
    }

    /// No two nodes share a key, and no node links a key twice.
    pub open spec fn wf(&self) -> bool {
        well_formed_nodes(self.node_views())
    }

    /// Add a new node in the graph, behind the nodes that are there.
    pub fn add_node(&mut self, node: Node<GraphType, T>)
        ensures
            final(self).nodes@ == old(self).nodes@.push(node),
            final(self).edges == old(self).edges,
            final(self).has_circular_ref == old(self).has_circular_ref,
    {
        self.nodes.push(node);
    }

    /// Get node by key: the first node that has the key.
    pub fn get_node_by_key(&self, key: String) -> (found: Option<&Node<GraphType, T>>)
        ensures
            match place_of_key(self.node_views(), key@) {
                Some(i) => 0 <= i < self.nodes.len() && found == Some(&self.nodes[i]),
                None => found is None,
            },
    {
        match find_node(&self.nodes, &key) {
            Some(index) => Some(&self.nodes[index]),
            None => None,
        }
    }

    /// Update a node with his key: the first node that has the key gives way to `new_node`.
    pub fn update_node_by_key(&mut self, key: String, new_node: Node<GraphType, T>)
        ensures
            final(self).nodes@ == match place_of_key(old(self).node_views(), key@) {
                Some(i) => old(self).nodes@.update(i, new_node),
                None => old(self).nodes@,
            },
            final(self).edges == old(self).edges,
            final(self).has_circular_ref == old(self).has_circular_ref,
    {
        match find_node(&self.nodes, &key) {
            Some(index) => {
                self.nodes[index] = new_node;
            },
            None => {},
        }
    }

    /// Delete a node from the graph found by his key: the first node that has the key
    /// leaves, and the last node takes its place.
    pub fn delete_node_by_key(&mut self, key: String)
        ensures
            final(self).nodes@ == match place_of_key(old(self).node_views(), key@) {
                Some(i) => old(self).nodes@.update(i, old(self).nodes@.last()).drop_last(),
                None => old(self).nodes@,
            },
            final(self).edges == old(self).edges,
            final(self).has_circular_ref == old(self).has_circular_ref,
    {
        match find_node(&self.nodes, &key) {
            Some(index) => {
                self.nodes.swap_remove(index);
            },
            None => {},
        }
    }
}

} // verus!
