use crate::builders::DirectedGraphBuilder;
use crate::construction::{complete_links, completed, first_of_each_key, unique_nodes, views};
use crate::cycle::{closed_from, closed_from_any, mark_cycles, places};
use crate::edge::Edges;
use crate::graph::Graph;
use crate::laws::building::lemma_directed_graph_well_formed;
use crate::node::{LinksDirection, Node, NodeView};
use crate::query::{
    chosen_nodes, count_lacking, is_leaf, is_linked_from, is_root, is_sibling_of, lacking,
    lemma_count_lacking, linked_from, marked, siblings_of,
};
use crate::types::Directed;
use std::marker::PhantomData;
use vstd::prelude::*;

verus! {

/// The graph has nodes, and each of them has a parent.
pub open spec fn rootless(nodes: Seq<NodeView>) -> bool {
    nodes.len() > 0 && forall|i: int| 0 <= i < nodes.len() ==> !is_root(#[trigger] nodes[i])
}

/// Some walk from a root along the links to children, which passes no node twice, ends
/// at a node that has `node` as a child, and `node` lies on that walk.
pub open spec fn closes_cycle(nodes: Seq<NodeView>, node: int) -> bool {
    exists|root: int|
        0 <= root < nodes.len() && is_root(#[trigger] nodes[root]) && closed_from(
            nodes,
            LinksDirection::To,
            1,
            seq![root],
            node,
        )
}

/// The graph holds a circular reference: it has nodes and no root, or some node closes
/// a cycle.
pub open spec fn circular(nodes: Seq<NodeView>) -> bool {
    rootless(nodes) || exists|node: int| 0 <= node < nodes.len() && closes_cycle(nodes, node)
}

/// The nodes after the check for cycles: each marked exactly if it closes a cycle.
pub open spec fn checked(nodes: Seq<NodeView>) -> Seq<NodeView> {
    Seq::new(
        nodes.len(),
        |i: int| NodeView { key: nodes[i].key, links: nodes[i].links, circular: closes_cycle(nodes, i) },
    )
}

/// The places of the roots, in rising order.
pub open spec fn root_places(nodes: Seq<NodeView>) -> Seq<int>
    decreases nodes.len(),
{
    if nodes.len() == 0 {
        Seq::empty()
    } else if is_root(nodes.last()) {
        root_places(nodes.drop_last()).push(nodes.len() - 1)
    } else {
        root_places(nodes.drop_last())
    }
}

/// The root places are the places of the roots.
pub proof fn lemma_root_places(nodes: Seq<NodeView>)
    ensures
        forall|k: int|
            0 <= k < root_places(nodes).len() ==> 0 <= #[trigger] root_places(nodes)[k]
                < nodes.len() && is_root(nodes[root_places(nodes)[k]]),
        forall|i: int|
            0 <= i < nodes.len() && is_root(#[trigger] nodes[i]) ==> root_places(nodes).contains(i),
    decreases nodes.len(),
{
    if nodes.len() > 0 {
        let front = nodes.drop_last();
        let roots = root_places(nodes);
        lemma_root_places(front);
        assert forall|k: int| 0 <= k < roots.len() implies 0 <= #[trigger] roots[k] < nodes.len()
            && is_root(nodes[roots[k]]) by {
            if k < root_places(front).len() {
                assert(roots[k] == root_places(front)[k]);
                assert(front[roots[k]] == nodes[roots[k]]);
            }
        }
        assert forall|i: int| 0 <= i < nodes.len() && is_root(#[trigger] nodes[i]) implies roots.contains(
            i,
        ) by {
            if i < front.len() {
                assert(front[i] == nodes[i]);
                let k = choose|k: int| 0 <= k < root_places(front).len() && root_places(front)[k] == i;
                assert(roots[k] == i);
            } else {
                assert(roots[roots.len() - 1] == i);
            }
        }
    }
}

/// A node closes a cycle exactly if a walk from one of the root places closes one at it.
pub proof fn lemma_closes_cycle(nodes: Seq<NodeView>, node: int)
    ensures
        closes_cycle(nodes, node) <==> closed_from_any(
            nodes,
            LinksDirection::To,
            1,
            root_places(nodes),
            node,
        ),
{
    let roots = root_places(nodes);
    lemma_root_places(nodes);
    if closes_cycle(nodes, node) {
        let root = choose|root: int|
            0 <= root < nodes.len() && is_root(#[trigger] nodes[root]) && closed_from(
                nodes,
                LinksDirection::To,
                1,
                seq![root],
                node,
            );
        let k = choose|k: int| 0 <= k < roots.len() && roots[k] == root;
        assert(closed_from(nodes, LinksDirection::To, 1, seq![roots[k]], node));
    }
    if closed_from_any(nodes, LinksDirection::To, 1, roots, node) {
        let k = choose|k: int|
            0 <= k < roots.len() && closed_from(
                nodes,
                LinksDirection::To,
                1,
                seq![#[trigger] roots[k]],
                node,
            );
        assert(is_root(nodes[roots[k]]));
    }
}

/// The places of the roots of `nodes`, in rising order.
pub fn roots_of<GraphType, T: Clone>(nodes: &Vec<Node<GraphType, T>>) -> (roots: Vec<usize>)
    ensures
        places(roots@) == root_places(nodes.deep_view()),
        forall|k: int| 0 <= k < roots.len() ==> roots[k] < nodes.len(),
{
    let ghost all = nodes.deep_view();
    let chosen = lacking(nodes, LinksDirection::From);
    let mut roots: Vec<usize> = Vec::new();
    assert(places(roots@) =~= root_places(all.take(0)));
    let mut i: usize = 0;
    while i < nodes.len()
        invariant
            i <= nodes.len(),
            all == nodes.deep_view(),
            chosen.len() == nodes.len(),
            forall|j: int| 0 <= j < nodes.len() ==> chosen[j] == is_root(#[trigger] all[j]),
            places(roots@) == root_places(all.take(i as int)),
            forall|k: int| 0 <= k < roots.len() ==> roots[k] < nodes.len(),
        decreases nodes.len() - i,
    {
        let ghost before = places(roots@);
        proof {
            assert(all.take(i + 1).drop_last() =~= all.take(i as int));
            assert(all.take(i + 1).last() == all[i as int]);
        }
        if chosen[i] {
            roots.push(i);
            assert(places(roots@) =~= before.push(i as int));
        }
        i += 1;
    }
    assert(all.take(nodes.len() as int) =~= all);
    roots
}

/// Marks the nodes of `nodes` that close a cycle, and tells whether the graph holds a
/// circular reference.
pub fn check_nodes<GraphType, T: Clone>(nodes: &mut Vec<Node<GraphType, T>>) -> (found: bool)
    ensures
        final(nodes).len() == old(nodes).len(),
        final(nodes).deep_view() == checked(old(nodes).deep_view()),
        forall|i: int|
            0 <= i < old(nodes).len() ==> (#[trigger] final(nodes)[i]).data == old(nodes)[i].data,
        found == circular(old(nodes).deep_view()),
{
    let ghost before = nodes@;
    let ghost all = nodes.deep_view();
    let roots = roots_of(nodes);
    let marks = mark_cycles(nodes, LinksDirection::To, 1, &roots);
    proof {
        lemma_root_places(all);
        assert forall|m: int| 0 <= m < nodes.len() implies #[trigger] marks[m] == closes_cycle(
            all,
            m,
        ) by {
            lemma_closes_cycle(all, m);
        }
    }
    let n = nodes.len();
    let mut found = roots.len() == 0 && n > 0;
    proof {
        if found {
            assert forall|i: int| 0 <= i < all.len() implies !is_root(#[trigger] all[i]) by {
                if is_root(all[i]) {
                    assert(root_places(all).contains(i));
                }
            }
        } else if n > 0 {
            assert(is_root(all[root_places(all)[0]]));
        }
    }
    let ghost rootless_found = found;
    let mut i: usize = 0;
    while i < n
        invariant
            i <= n,
            n == nodes.len(),
            n == before.len(),
            n == marks.len(),
            all.len() == n,
            forall|k: int|
                0 <= k < n ==> (#[trigger] nodes[k]).data == before[k].data && nodes[k].key
                    == before[k].key && nodes[k].links == before[k].links,
            forall|k: int| 0 <= k < n ==> (#[trigger] before[k]).deep_view() == all[k],
            forall|k: int| 0 <= k < i ==> (#[trigger] nodes[k]).is_in_circular_ref == marks[k],
            forall|m: int| 0 <= m < n ==> #[trigger] marks[m] == closes_cycle(all, m),
            found == (rootless_found || exists|k: int| 0 <= k < i && #[trigger] marks[k]),
        decreases n - i,
    {
        let ghost mine = nodes@;
        nodes[i].is_in_circular_ref = marks[i];
        proof {
            assert forall|k: int| 0 <= k < n && k != i implies nodes[k] == mine[k] by {}
        }
        if marks[i] {
            found = true;
        }
        i += 1;
    }
    assert(nodes.deep_view() =~= checked(all));
    assert(rootless_found == rootless(all));
    assert(found == circular(all)) by {
        if exists|k: int| 0 <= k < n && #[trigger] marks[k] {
            let k = choose|k: int| 0 <= k < n && #[trigger] marks[k];
            assert(closes_cycle(all, k));
        }
        if exists|node: int| 0 <= node < all.len() && closes_cycle(all, node) {
            let node = choose|node: int| 0 <= node < all.len() && closes_cycle(all, node);
            assert(marks[node]);
        }
    }
    found
}

impl<T: DirectedGraphBuilder + Clone> Graph<Directed, T> {
    /// This graph is what `from_nodes` makes of `nodes`: of the nodes that share a key
    /// the first is kept, every declared link has its inverse, each node is marked
    /// exactly if it closes a cycle, and no edge is there yet.
    pub open spec fn built_from(&self, nodes: Seq<Node<Directed, T>>) -> bool {
        let kept = first_of_each_key(nodes);
        let linked = completed(views(kept));
        &&& self.nodes.len() == kept.len()
        &&& forall|i: int| 0 <= i < kept.len() ==> (#[trigger] self.nodes[i]).data == kept[i].data
        &&& self.nodes.deep_view() == checked(linked)
        &&& self.has_circular_ref == circular(linked)
        &&& self.edges@.len() == 0
    }

    /// `nodes` holds, for each record of `data` and in the same order, the node that
    /// `Node::new` makes of it.
    pub open spec fn made_from(nodes: Seq<Node<Directed, T>>, data: Seq<T>) -> bool {
        &&& nodes.len() == data.len()
        &&& forall|i: int| 0 <= i < data.len() ==> (#[trigger] nodes[i]).made_from(data[i])
    }

    /// Return a new [Graph] with directed attributes and nodes build on top of datas.
    /// It will automaticaly build nodes relationship and check for any circular references.
    ///
    /// The keys and the links are those that the records give, whatever they are: the
    /// graph is what `from_nodes` makes of the nodes of the records.
    pub fn new(data: Vec<T>) -> (graph: Graph<Directed, T>)
        ensures
            exists|nodes: Seq<Node<Directed, T>>|
                Self::made_from(nodes, data@) && #[trigger] graph.built_from(nodes),
            graph.wf(),
    {
        let mut graph = Graph {
            nodes: Vec::new(),
            edges: Edges::new(),
            has_circular_ref: false,
            graph_type: PhantomData,
        };
        let Ghost(nodes) = graph.build_nodes(data);
        assert(graph.nodes.deep_view() =~= views(first_of_each_key(nodes)));
        graph.build_relationship();
        graph.check_circular_ref();
        assert(Self::made_from(nodes, data@));
        assert(graph.built_from(nodes));
        proof {
            lemma_directed_graph_well_formed(graph, nodes);
        }
        graph
    }

    /// The graph of `nodes`: of the nodes that share a key only the first is kept, then
    /// the links are completed and the nodes that close a cycle are marked.
    pub fn from_nodes(nodes: Vec<Node<Directed, T>>) -> (graph: Graph<Directed, T>)
        ensures
            graph.built_from(nodes@),
            (forall|i: int| 0 <= i < nodes.len() ==> (#[trigger] nodes[i]).wf()) ==> graph.wf(),
    {
        let mut graph = Graph {
            nodes: unique_nodes(nodes),
            edges: Edges::new(),
            has_circular_ref: false,
            graph_type: PhantomData,
        };
        assert(graph.nodes.deep_view() =~= views(first_of_each_key(nodes@)));
        graph.build_relationship();
        graph.check_circular_ref();
        proof {
            if forall|i: int| 0 <= i < nodes.len() ==> (#[trigger] nodes[i]).wf() {
                lemma_directed_graph_well_formed(graph, nodes@);
            }
        }
        graph
    }

    /// Whether the graph has nodes and none of them is a root: the flag is then set, and
    /// no node is marked.
    pub fn has_no_root(&self) -> (none: bool)
        ensures
            none == rootless(self.nodes.deep_view()),
    {
        let chosen = lacking(&self.nodes, LinksDirection::From);
        let ghost all = self.nodes.deep_view();
        assert forall|j: int| 0 <= j < all.len() implies chosen[j] == is_root(#[trigger] all[j]) by {
            assert(all[j] == self.nodes[j].deep_view());
        }
        let mut i: usize = 0;
        while i < chosen.len()
            invariant
                i <= chosen.len(),
                all == self.nodes.deep_view(),
                chosen.len() == all.len(),
                forall|j: int| 0 <= j < all.len() ==> chosen[j] == is_root(#[trigger] all[j]),
                forall|j: int| 0 <= j < i ==> !is_root(#[trigger] all[j]),
            decreases chosen.len() - i,
        {
            if chosen[i] {
                assert(is_root(all[i as int]));
                return false;
            }
            i += 1;
        }
        self.nodes.len() > 0
    }

    /// Get all nodes that have no parents.
    pub fn get_root_nodes(&self) -> (found: Vec<&Node<Directed, T>>)
        ensures
            found@ == self.nodes@.filter(|n: Node<Directed, T>| is_root(n.deep_view())).as_ref(),
            found.len() == count_lacking(self.nodes.deep_view(), LinksDirection::From),
    {
        proof {
            lemma_count_lacking(
                self.nodes@,
                LinksDirection::From,
                |n: Node<Directed, T>| is_root(n.deep_view()),
            );
            assert(self.nodes.deep_view() =~= self.nodes@.map_values(
                |n: Node<Directed, T>| n.deep_view(),
            ));
        }
        let chosen = lacking(&self.nodes, LinksDirection::From);
        chosen_nodes(&self.nodes, &chosen, Ghost(|n: Node<Directed, T>| is_root(n.deep_view())))
    }

    /// Get all nodes that have no children.
    pub fn get_leaf_nodes(&self) -> (found: Vec<&Node<Directed, T>>)
        ensures
            found@ == self.nodes@.filter(|n: Node<Directed, T>| is_leaf(n.deep_view())).as_ref(),
            found.len() == count_lacking(self.nodes.deep_view(), LinksDirection::To),
    {
        proof {
            lemma_count_lacking(
                self.nodes@,
                LinksDirection::To,
                |n: Node<Directed, T>| is_leaf(n.deep_view()),
            );
            assert(self.nodes.deep_view() =~= self.nodes@.map_values(
                |n: Node<Directed, T>| n.deep_view(),
            ));
        }
        let chosen = lacking(&self.nodes, LinksDirection::To);
        chosen_nodes(&self.nodes, &chosen, Ghost(|n: Node<Directed, T>| is_leaf(n.deep_view())))
    }

    /// Get every nodes that match a common parent of a given node.
    pub fn get_sibling_nodes(&self, current_node: &Node<Directed, T>) -> (found: Vec<
        &Node<Directed, T>,
    >)
        ensures
            found@ == self.nodes@.filter(
                |n: Node<Directed, T>| is_sibling_of(current_node.deep_view(), n.deep_view()),
            ).as_ref(),
    {
        let chosen = siblings_of(&self.nodes, current_node);
        chosen_nodes(
            &self.nodes,
            &chosen,
            Ghost(|n: Node<Directed, T>| is_sibling_of(current_node.deep_view(), n.deep_view())),
        )
    }

    /// Get every nodes that are in a graph cycle.
    pub fn get_circular_nodes(&self) -> (found: Vec<&Node<Directed, T>>)
        ensures
            found@ == self.nodes@.filter(|n: Node<Directed, T>| n.is_in_circular_ref).as_ref(),
    {
        let chosen = marked(&self.nodes);
        chosen_nodes(&self.nodes, &chosen, Ghost(|n: Node<Directed, T>| n.is_in_circular_ref))
    }

    /// Get every parents of a given node.
    pub fn get_parent_nodes(&self, current_node: &Node<Directed, T>) -> (found: Vec<
        &Node<Directed, T>,
    >)
        ensures
            found@ == self.nodes@.filter(
                |n: Node<Directed, T>|
                    is_linked_from(current_node.deep_view(), n.deep_view(), LinksDirection::From),
            ).as_ref(),
    {
        let chosen = linked_from(&self.nodes, current_node, LinksDirection::From);
        chosen_nodes(
            &self.nodes,
            &chosen,
            Ghost(
                |n: Node<Directed, T>|
                    is_linked_from(current_node.deep_view(), n.deep_view(), LinksDirection::From),
            ),
        )
    }

    /// Get every childs of a given node.
    pub fn get_child_nodes(&self, current_node: &Node<Directed, T>) -> (found: Vec<
        &Node<Directed, T>,
    >)
        ensures
            found@ == self.nodes@.filter(
                |n: Node<Directed, T>|
                    is_linked_from(current_node.deep_view(), n.deep_view(), LinksDirection::To),
            ).as_ref(),
    {
        let chosen = linked_from(&self.nodes, current_node, LinksDirection::To);
        chosen_nodes(
            &self.nodes,
            &chosen,
            Ghost(
                |n: Node<Directed, T>|
                    is_linked_from(current_node.deep_view(), n.deep_view(), LinksDirection::To),
            ),
        )
    }

    /// Makes a node of each record and keeps, of the nodes that share a key, the first.
    /// Hands back the nodes that were made, the dropped ones too.
    fn build_nodes(&mut self, data: Vec<T>) -> (made: Ghost<Seq<Node<Directed, T>>>)
        ensures
            Self::made_from(made@, data@),
            forall|i: int| 0 <= i < made@.len() ==> (#[trigger] made@[i]).wf(),
            final(self).nodes@ == first_of_each_key(made@),
            final(self).edges == old(self).edges,
            final(self).has_circular_ref == old(self).has_circular_ref,
    {
        let ghost records = data@;
        let ghost mut made: Seq<Node<Directed, T>> = Seq::empty();
        let mut nodes: Vec<Node<Directed, T>> = Vec::new();
        for d in it: data
            invariant
                records == it.seq(),
                nodes@ == made,
                made.len() == it.index(),
                forall|i: int| 0 <= i < made.len() ==> (#[trigger] made[i]).made_from(records[i]),
                forall|i: int| 0 <= i < made.len() ==> (#[trigger] made[i]).wf(),
        {
            let node = Node::<Directed, T>::new(d);
            proof {
                made = made.push(node);
            }
            nodes.push(node);
        }
        self.nodes = unique_nodes(nodes);
        Ghost(made)
    }

    /// Gives every declared link its inverse.
    fn build_relationship(&mut self)
        ensures
            final(self).nodes.len() == old(self).nodes.len(),
            final(self).nodes.deep_view() == completed(old(self).nodes.deep_view()),
            forall|i: int|
                0 <= i < old(self).nodes.len() ==> (#[trigger] final(self).nodes[i]).data == old(
                    self,
                ).nodes[i].data,
            final(self).edges == old(self).edges,
            final(self).has_circular_ref == old(self).has_circular_ref,
    {
        complete_links(&mut self.nodes);
    }

    /// Marks the nodes that close a cycle, and sets the flag of the graph where one does
    /// or where the graph has nodes and no root.
    fn check_circular_ref(&mut self)
        ensures
            final(self).nodes.len() == old(self).nodes.len(),
            final(self).nodes.deep_view() == checked(old(self).nodes.deep_view()),
            forall|i: int|
                0 <= i < old(self).nodes.len() ==> (#[trigger] final(self).nodes[i]).data == old(
                    self,
                ).nodes[i].data,
            final(self).edges == old(self).edges,
            final(self).has_circular_ref == circular(old(self).nodes.deep_view()),
    {
        let found = check_nodes(&mut self.nodes);
        self.has_circular_ref = found;
    }
}

} // verus!
