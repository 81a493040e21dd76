use crate::builders::UndirectedGraphBuilder;
use crate::construction::{first_of_each_key, unique_nodes, views};
use crate::cycle::{closed_from, mark_cycles, places};
use crate::edge::Edges;
use crate::graph::Graph;
use crate::laws::building::lemma_undirected_graph_well_formed;
use crate::node::{LinksDirection, Node, NodeView};
use crate::query::{are_copies, chosen_copies, chosen_nodes, is_linked_from, linked_from, marked};
use crate::types::Undirected;
use std::marker::PhantomData;
use vstd::prelude::*;

verus! {

/// The graph holds a cycle of three nodes or more that a walk from its first node runs
/// into: the walk follows the links from node to node, passes no node twice, and its last
/// node links back to a node that the walk passed two steps earlier or more. The link back
/// to the node just left closes no cycle, nor does a link of a node to itself.
pub open spec fn winds(nodes: Seq<NodeView>) -> bool {
    nodes.len() > 0 && exists|node: int|
        0 <= node < nodes.len() && #[trigger] closed_from(
            nodes,
            LinksDirection::Both,
            3,
            seq![0],
            node,
        )
}

/// Whether a walk from the first node of `nodes` runs into a cycle of three nodes or more.
pub fn check_winding<GraphType, T: Clone>(nodes: &Vec<Node<GraphType, T>>) -> (found: bool)
    ensures
        found == winds(nodes.deep_view()),
{
    let ghost all = nodes.deep_view();
    if nodes.len() == 0 {
        return false;
    }
    let mut starts: Vec<usize> = Vec::new();
    starts.push(0);
    let marks = mark_cycles(nodes, LinksDirection::Both, 3, &starts);
    proof {
        assert(places(starts@) =~= seq![0int]);
        assert forall|m: int| 0 <= m < nodes.len() implies #[trigger] marks[m] == closed_from(
            all,
            LinksDirection::Both,
            3,
            seq![0],
            m,
        ) by {
            assert(places(starts@)[0] == 0);
            if crate::cycle::closed_from_any(all, LinksDirection::Both, 3, places(starts@), m) {
                let s = choose|s: int|
                    0 <= s < places(starts@).len() && closed_from(
                        all,
                        LinksDirection::Both,
                        3,
                        seq![#[trigger] places(starts@)[s]],
                        m,
                    );
                assert(seq![places(starts@)[s]] =~= seq![0int]);
            }
            if closed_from(all, LinksDirection::Both, 3, seq![0], m) {
                assert(seq![places(starts@)[0]] =~= seq![0int]);
            }
        }
    }
    let mut i: usize = 0;
    while i < marks.len()
        invariant
            i <= marks.len(),
            marks.len() == nodes.len(),
            all == nodes.deep_view(),
            forall|m: int|
                0 <= m < nodes.len() ==> #[trigger] marks[m] == closed_from(
                    all,
                    LinksDirection::Both,
                    3,
                    seq![0],
                    m,
                ),
            forall|m: int| 0 <= m < i ==> !(#[trigger] marks[m]),
        decreases marks.len() - i,
    {
        if marks[i] {
            assert(closed_from(all, LinksDirection::Both, 3, seq![0], i as int));
            return true;
        }
        i += 1;
    }
    assert(!winds(all)) by {
        if winds(all) {
            let node = choose|node: int|
                0 <= node < all.len() && #[trigger] closed_from(
                    all,
                    LinksDirection::Both,
                    3,
                    seq![0],
                    node,
                );
            assert(!marks[node]);
        }
    }
    false
}

impl<T: UndirectedGraphBuilder + Clone> Graph<Undirected, T> {
    /// This graph is what `from_nodes` makes of `nodes`: of the nodes that share a key
    /// the first is kept, as it is; the flag of the graph tells whether a walk from the
    /// first node runs into a cycle; and no edge is there yet.
    pub open spec fn built_from(&self, nodes: Seq<Node<Undirected, T>>) -> bool {
        &&& self.nodes@ == first_of_each_key(nodes)
        &&& self.has_circular_ref == winds(views(first_of_each_key(nodes)))
        &&& self.edges@.len() == 0
    }

    /// `nodes` holds, for each record of `data` and in the same order, the node that
    /// `Node::new` makes of it.
    pub open spec fn made_from(nodes: Seq<Node<Undirected, T>>, data: Seq<T>) -> bool {
        &&& nodes.len() == data.len()
        &&& forall|i: int| 0 <= i < data.len() ==> (#[trigger] nodes[i]).made_from(data[i])
    }

    /// Return a new [Graph] with undirected attributes and nodes build on top of datas.
    /// It will automaticaly check for any circular references.
    ///
    /// The keys and the links are those that the records give, whatever they are: the
    /// graph is what `from_nodes` makes of the nodes of the records.
    pub fn new(data: Vec<T>) -> (graph: Graph<Undirected, T>)
        ensures
            exists|nodes: Seq<Node<Undirected, T>>|
                Self::made_from(nodes, data@) && #[trigger] graph.built_from(nodes),
            graph.wf(),
    {
        let mut graph = Graph {
            nodes: Vec::new(),
            edges: Edges::new(),
            has_circular_ref: false,
            graph_type: PhantomData,
        };
        let Ghost(nodes) = graph.build_nodes(data);
        assert(graph.nodes.deep_view() =~= views(first_of_each_key(nodes)));
        graph.check_circular_ref();
        assert(Self::made_from(nodes, data@));
        assert(graph.built_from(nodes));
        proof {
            lemma_undirected_graph_well_formed(graph, nodes);
        }
        graph
    }

    /// The graph of `nodes`: of the nodes that share a key only the first is kept, and
    /// the flag of the graph is set where a walk from the first node runs into a cycle.
    pub fn from_nodes(nodes: Vec<Node<Undirected, T>>) -> (graph: Graph<Undirected, T>)
        ensures
            graph.built_from(nodes@),
            (forall|i: int| 0 <= i < nodes.len() ==> (#[trigger] nodes[i]).wf()) ==> graph.wf(),
    {
        let mut graph = Graph {
            nodes: unique_nodes(nodes),
            edges: Edges::new(),
            has_circular_ref: false,
            graph_type: PhantomData,
        };
        assert(graph.nodes.deep_view() =~= views(first_of_each_key(nodes@)));
        graph.check_circular_ref();
        proof {
            if forall|i: int| 0 <= i < nodes.len() ==> (#[trigger] nodes[i]).wf() {
                lemma_undirected_graph_well_formed(graph, nodes@);
            }
        }
        graph
    }

    /// Get every nodes that are in a graph cycle: copies of the nodes that are marked.
    pub fn get_circular_nodes(&self) -> (found: Vec<Node<Undirected, T>>)
        ensures
            are_copies(found@, self.nodes@.filter(|n: Node<Undirected, T>| n.is_in_circular_ref)),
    {
        let chosen = marked(&self.nodes);
        chosen_copies(&self.nodes, &chosen, Ghost(|n: Node<Undirected, T>| n.is_in_circular_ref))
    }

    /// Get every nodes linked with a given node.
    pub fn get_neighbour_nodes(&self, current_node: &Node<Undirected, T>) -> (found: Vec<
        &Node<Undirected, T>,
    >)
        ensures
            found@ == self.nodes@.filter(
                |n: Node<Undirected, T>|
                    is_linked_from(current_node.deep_view(), n.deep_view(), LinksDirection::Both),
            ).as_ref(),
    {
        let chosen = linked_from(&self.nodes, current_node, LinksDirection::Both);
        chosen_nodes(
            &self.nodes,
            &chosen,
            Ghost(
                |n: Node<Undirected, T>|
                    is_linked_from(current_node.deep_view(), n.deep_view(), LinksDirection::Both),
            ),
        )
    }

    /// Makes a node of each record and keeps, of the nodes that share a key, the first.
    /// Hands back the nodes that were made, the dropped ones too.
    fn build_nodes(&mut self, data: Vec<T>) -> (made: Ghost<Seq<Node<Undirected, T>>>)
        ensures
            Self::made_from(made@, data@),
            forall|i: int| 0 <= i < made@.len() ==> (#[trigger] made@[i]).wf(),
            final(self).nodes@ == first_of_each_key(made@),
            final(self).edges == old(self).edges,
            final(self).has_circular_ref == old(self).has_circular_ref,
    {
        let ghost records = data@;
        let ghost mut made: Seq<Node<Undirected, T>> = Seq::empty();
        let mut nodes: Vec<Node<Undirected, T>> = Vec::new();
        for d in it: data
            invariant
                records == it.seq(),
                nodes@ == made,
                made.len() == it.index(),
                forall|i: int| 0 <= i < made.len() ==> (#[trigger] made[i]).made_from(records[i]),
                forall|i: int| 0 <= i < made.len() ==> (#[trigger] made[i]).wf(),
        {
            let node = Node::<Undirected, T>::new(d);
            proof {
                made = made.push(node);
            }
            nodes.push(node);
        }
        self.nodes = unique_nodes(nodes);
        Ghost(made)
    }

    /// Sets the flag of the graph where a walk from the first node runs into a cycle.
    fn check_circular_ref(&mut self)
        ensures
            final(self).nodes == old(self).nodes,
            final(self).edges == old(self).edges,
            final(self).has_circular_ref == winds(old(self).nodes.deep_view()),
    {
        self.has_circular_ref = check_winding(&self.nodes);
    }
}

} // verus!
