use crate::builders::{DirectedGraphBuilder, UndirectedGraphBuilder};
use crate::edge::{edge_views, weight_of, with_edges, Weight};
use crate::graph::Graph;
use crate::node::{keys_with, link_keys, LinksDirection, Node};
use crate::types::{Directed, Undirected};
use vstd::prelude::*;

verus! {

/// This trait implement weighted graphs.
pub trait Weighted<GraphType, T> where T: Clone {
    /// Weighs the link from `node` to the node with the key `other_node_key`.
    /// It should return (first_node_key, (second_node_key, weight_of_link)).
    /// Where a graph does not say otherwise, every link weighs 1.
    fn build_edge(&self, node: Node<GraphType, T>, other_node_key: String) -> (edge: (
        String,
        (String, Weight),
    ))
        default_ensures
            edge.0 == node.key,
            edge.1.0 == other_node_key,
            edge.1.1 == 1,
    {
        (node.key, (other_node_key, 1))
    }
}

/// The ends of the links to weigh: for each node in order, and for each of its adjacent
/// keys in order, the place of the node and the key.
pub open spec fn link_ends(adjacent: Seq<Seq<Seq<char>>>) -> Seq<(int, Seq<char>)>
    decreases adjacent.len(),
{
    if adjacent.len() == 0 {
        Seq::empty()
    } else {
        link_ends(adjacent.drop_last()) + adjacent.last().map_values(
            |key: Seq<char>| (adjacent.len() - 1, key),
        )
    }
}

/// `edge` is what `weigher` gave for the link from a copy of `source` to `target`.
pub open spec fn weighs<GraphType, T: Clone, W: Weighted<GraphType, T>>(
    weigher: &W,
    source: Node<GraphType, T>,
    target: Seq<char>,
    edge: (String, (String, Weight)),
) -> bool {
    exists|node: Node<GraphType, T>, key: String|
        {
            &&& node.deep_view() == source.deep_view()
            &&& cloned(source.data, node.data)
            &&& key@ == target
            &&& #[trigger] call_ensures(W::build_edge, (weigher, node, key), edge)
        }
}

/// `edges` are what `weigher` gave for the links from `nodes` to their `adjacent` keys,
/// one edge for each link and in the order of the links.
pub open spec fn weighed<GraphType, T: Clone, W: Weighted<GraphType, T>>(
    weigher: &W,
    nodes: Seq<Node<GraphType, T>>,
    adjacent: Seq<Seq<Seq<char>>>,
    edges: Seq<(String, (String, Weight))>,
) -> bool {
    &&& edges.len() == link_ends(adjacent).len()
    &&& forall|k: int|
        0 <= k < edges.len() ==> weighs(
            weigher,
            nodes[link_ends(adjacent)[k].0],
            link_ends(adjacent)[k].1,
            #[trigger] edges[k],
        )
}

/// Asks `weigher` for the edge of each link from a node of `nodes` to one of its
/// `adjacent` keys.
fn weigh_links<GraphType, T: Clone, W: Weighted<GraphType, T>>(
    weigher: &W,
    nodes: &Vec<Node<GraphType, T>>,
    adjacent: &Vec<Vec<String>>,
) -> (edges: Vec<(String, (String, Weight))>)
    requires
        adjacent.len() == nodes.len(),
    ensures
        weighed(weigher, nodes@, adjacent.deep_view(), edges@),
{
    let ghost all = adjacent.deep_view();
    let mut edges: Vec<(String, (String, Weight))> = Vec::new();
    let mut i: usize = 0;
    assert(all.take(0) =~= Seq::<Seq<Seq<char>>>::empty());
    while i < nodes.len()
        invariant
            i <= nodes.len(),
            adjacent.len() == nodes.len(),
            all == adjacent.deep_view(),
            weighed(weigher, nodes@, all.take(i as int), edges@),
        decreases nodes.len() - i,
    {
        let keys = &adjacent[i];
        let ghost before = edges@;
        let ghost ends_before = link_ends(all.take(i as int));
        let ghost mine = all[i as int];
        proof {
            assert(all.take(i + 1).drop_last() =~= all.take(i as int));
            assert(all.take(i + 1).last() == mine);
            assert(mine == keys.deep_view());
        }
        let mut j: usize = 0;
        while j < keys.len()
            invariant
                j <= keys.len(),
                i < nodes.len(),
                mine == keys.deep_view(),
                edges.len() == before.len() + j,
                before.len() == ends_before.len(),
                forall|k: int| 0 <= k < before.len() ==> edges[k] == before[k],
                forall|k: int|
                    0 <= k < j ==> weighs(
                        weigher,
                        nodes[i as int],
                        mine[k],
                        #[trigger] edges[before.len() + k],
                    ),
            decreases keys.len() - j,
        {
            let node = nodes[i].clone();
            let key = keys[j].clone();
            let ghost node_given = node;
            let ghost key_given = key;
            let edge = weigher.build_edge(node, key);
            proof {
                assert(call_ensures(W::build_edge, (weigher, node_given, key_given), edge));
                assert(weighs(weigher, nodes[i as int], mine[j as int], edge));
            }
            edges.push(edge);
            j += 1;
        }
        proof {
            let ends = link_ends(all.take(i + 1));
            let added = mine.map_values(|key: Seq<char>| (i as int, key));
            assert(ends == ends_before + added);
            assert forall|k: int| 0 <= k < edges.len() implies weighs(
                weigher,
                nodes@[ends[k].0],
                ends[k].1,
                #[trigger] edges[k],
            ) by {
                if k < before.len() {
                    assert(edges[k] == before[k]);
                    assert(ends[k] == ends_before[k]);
                } else {
                    assert(ends[k] == added[k - before.len()]);
                    assert(edges[k] == edges[before.len() + (k - before.len())]);
                }
            }
        }
        i += 1;
    }
    assert(all.take(nodes.len() as int) =~= all);
    edges
}

/// The keys that each node of an undirected graph is linked with.
pub open spec fn neighbour_keys<T: Clone>(nodes: Seq<Node<Undirected, T>>) -> Seq<Seq<Seq<char>>> {
    nodes.map_values(|n: Node<Undirected, T>| link_keys(n.relations()))
}

/// The keys of the children of each node of a directed graph.
pub open spec fn child_keys<T: Clone>(nodes: Seq<Node<Directed, T>>) -> Seq<Seq<Seq<char>>> {
    nodes.map_values(|n: Node<Directed, T>| keys_with(n.relations(), LinksDirection::To))
}

/// Implementation of Weighted Undirected Graph
impl<T: UndirectedGraphBuilder + Clone> Graph<Undirected, T> {
    /// Used to build edges of Weigthed Graph: asks the graph for the edge of each link
    /// from a node to one of its neighbour keys, as the graph was on entry, and inserts
    /// the edges in that order into the index. An edge that the index held is overwritten.
    pub fn build_edges(&mut self) where Self: Weighted<Undirected, T>
        ensures
            final(self).nodes == old(self).nodes,
            final(self).has_circular_ref == old(self).has_circular_ref,
            exists|edges: Seq<(String, (String, Weight))>|
                #[trigger] weighed(old(self), old(self).nodes@, neighbour_keys(old(self).nodes@), edges)
                    && final(self).edges@ == with_edges(old(self).edges@, edge_views(edges)),
    {
        let mut adjacent: Vec<Vec<String>> = Vec::new();
        let mut i: usize = 0;
        while i < self.nodes.len()
            invariant
                i <= self.nodes.len(),
                adjacent.len() == i,
                forall|k: int|
                    0 <= k < i ==> (#[trigger] adjacent[k]).deep_view() == link_keys(
                        self.nodes[k].relations(),
                    ),
            decreases self.nodes.len() - i,
        {
            adjacent.push(self.nodes[i].get_neighbour_keys());
            i += 1;
        }
        assert(adjacent.deep_view() =~= neighbour_keys(self.nodes@));
        let edges = weigh_links(&*self, &self.nodes, &adjacent);
        let ghost given = edges@;
        self.edges.insert_all(edges);
        assert(weighed(old(self), old(self).nodes@, neighbour_keys(old(self).nodes@), given));
    }

    /// Get the wheight of an edge, if the index holds that edge.
    pub fn get_edge_weight(&self, from_node_key: String, to_node_key: String) -> (weight: Option<
        Weight,
    >) where Self: Weighted<Undirected, T>
        ensures
            weight == weight_of(self.edges@, from_node_key@, to_node_key@),
    {
        self.edges.weight(&from_node_key, &to_node_key)
    }
}

/// Implementation of Weighted Directed Graph
impl<T: DirectedGraphBuilder + Clone> Graph<Directed, T> {
    /// Used to build edges of Weigthed Graph: asks the graph for the edge of each link
    /// from a node to one of its child keys, as the graph was on entry, and inserts the
    /// edges in that order into the index. An edge that the index held is overwritten.
    pub fn build_edges(&mut self) where Self: Weighted<Directed, T>
        ensures
            final(self).nodes == old(self).nodes,
            final(self).has_circular_ref == old(self).has_circular_ref,
            exists|edges: Seq<(String, (String, Weight))>|
                #[trigger] weighed(old(self), old(self).nodes@, child_keys(old(self).nodes@), edges)
                    && final(self).edges@ == with_edges(old(self).edges@, edge_views(edges)),
    {
        let mut adjacent: Vec<Vec<String>> = Vec::new();
        let mut i: usize = 0;
        while i < self.nodes.len()
            invariant
                i <= self.nodes.len(),
                adjacent.len() == i,
                forall|k: int|
                    0 <= k < i ==> (#[trigger] adjacent[k]).deep_view() == keys_with(
                        self.nodes[k].relations(),
                        LinksDirection::To,
                    ),
            decreases self.nodes.len() - i,
        {
            adjacent.push(self.nodes[i].get_child_keys());
            i += 1;
        }
        assert(adjacent.deep_view() =~= child_keys(self.nodes@));
        let edges = weigh_links(&*self, &self.nodes, &adjacent);
        let ghost given = edges@;
        self.edges.insert_all(edges);
        assert(weighed(old(self), old(self).nodes@, child_keys(old(self).nodes@), given));
    }

    /// Get the wheight of an edge, if the index holds that edge.
    pub fn get_edge_weight(&self, from_node_key: String, to_node_key: String) -> (weight: Option<
        Weight,
    >) where Self: Weighted<Directed, T>
        ensures
            weight == weight_of(self.edges@, from_node_key@, to_node_key@),
    {
        self.edges.weight(&from_node_key, &to_node_key)
    }
}

} // verus!
