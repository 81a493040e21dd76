use crate::edge::{
    edge_views, lemma_with_edge_weight, lemma_with_edge_well_formed, weight_of, well_formed,
    with_edges, EdgeView, EdgesView, Weight,
};
use crate::node::Node;
use crate::types::weighted_graph::{link_ends, weighed, weighs, Weighted};
use vstd::prelude::*;

verus! {

/// The weight that the last of `edges` from `from` to `to` gives, if there is one.
pub open spec fn last_weight(edges: Seq<EdgeView>, from: Seq<char>, to: Seq<char>) -> Option<Weight>
    decreases edges.len(),
{
    if edges.len() == 0 {
        None
    } else if edges.last().0 == from && edges.last().1 == to {
        Some(edges.last().2)
    } else {
        last_weight(edges.drop_last(), from, to)
    }
}

/// After edges have been inserted the index is well formed, and it gives for each pair
/// of keys the weight of the last edge inserted for that pair; for a pair without such an
/// edge, what it gave before.
pub proof fn lemma_with_edges(index: EdgesView, edges: Seq<EdgeView>, from: Seq<char>, to: Seq<char>)
    requires
        well_formed(index),
    ensures
        well_formed(with_edges(index, edges)),
        weight_of(with_edges(index, edges), from, to) == (match last_weight(edges, from, to) {
            Some(weight) => Some(weight),
            None => weight_of(index, from, to),
        }),
    decreases edges.len(),
{
    if edges.len() > 0 {
        let before = with_edges(index, edges.drop_last());
        let last = edges.last();
        lemma_with_edges(index, edges.drop_last(), from, to);
        lemma_with_edge_well_formed(before, last.0, last.1, last.2);
        lemma_with_edge_weight(before, last.0, last.1, last.2, from, to);
    }
}

/// Building the same edges again changes no weight.
pub proof fn lemma_edges_built_again(
    index: EdgesView,
    edges: Seq<EdgeView>,
    from: Seq<char>,
    to: Seq<char>,
)
    requires
        well_formed(index),
    ensures
        weight_of(with_edges(with_edges(index, edges), edges), from, to) == weight_of(
            with_edges(index, edges),
            from,
            to,
        ),
{
    lemma_with_edges(index, edges, from, to);
    lemma_with_edges(with_edges(index, edges), edges, from, to);
}

/// Some edge inserted for a pair of keys is the last one for it.
proof fn lemma_last_weight(edges: Seq<EdgeView>, from: Seq<char>, to: Seq<char>)
    ensures
        last_weight(edges, from, to) is Some <==> exists|k: int|
            0 <= k < edges.len() && (#[trigger] edges[k]).0 == from && edges[k].1 == to,
    decreases edges.len(),
{
    if edges.len() > 0 {
        let front = edges.drop_last();
        lemma_last_weight(front, from, to);
        if last_weight(edges, from, to) is Some {
            if edges.last().0 == from && edges.last().1 == to {
                assert(edges[edges.len() - 1].0 == from);
            } else {
                let k = choose|k: int|
                    0 <= k < front.len() && (#[trigger] front[k]).0 == from && front[k].1 == to;
                assert(edges[k].0 == from);
            }
        }
        if exists|k: int| 0 <= k < edges.len() && (#[trigger] edges[k]).0 == from && edges[k].1 == to {
            let k = choose|k: int|
                0 <= k < edges.len() && (#[trigger] edges[k]).0 == from && edges[k].1 == to;
            if k < front.len() {
                assert(front[k].0 == from);
            }
        }
    }
}

/// The ends of the links are the places of the nodes, each with one of its adjacent
/// keys, and every adjacent key of every node is among them.
proof fn lemma_link_ends(adjacent: Seq<Seq<Seq<char>>>)
    ensures
        forall|k: int|
            0 <= k < link_ends(adjacent).len() ==> 0 <= (#[trigger] link_ends(adjacent)[k]).0
                < adjacent.len() && adjacent[link_ends(adjacent)[k].0].contains(
                link_ends(adjacent)[k].1,
            ),
        forall|i: int, key: Seq<char>|
            0 <= i < adjacent.len() && adjacent[i].contains(key) ==> #[trigger] link_ends(
                adjacent,
            ).contains((i, key)),
    decreases adjacent.len(),
{
    if adjacent.len() > 0 {
        let front = adjacent.drop_last();
        let last = adjacent.len() - 1;
        let added = adjacent.last().map_values(|key: Seq<char>| (last, key));
        let ends = link_ends(adjacent);
        lemma_link_ends(front);
        assert(ends == link_ends(front) + added);
        assert forall|k: int| 0 <= k < ends.len() implies 0 <= (#[trigger] ends[k]).0 < adjacent.len()
            && adjacent[ends[k].0].contains(ends[k].1) by {
            if k < link_ends(front).len() {
                assert(ends[k] == link_ends(front)[k]);
                assert(front[ends[k].0] == adjacent[ends[k].0]);
            } else {
                let j = k - link_ends(front).len();
                assert(ends[k] == added[j]);
                assert(adjacent[last][j] == ends[k].1);
            }
        }
        assert forall|i: int, key: Seq<char>|
            0 <= i < adjacent.len() && adjacent[i].contains(key) implies #[trigger] ends.contains(
            (i, key),
        ) by {
            if i < last {
                assert(front[i] == adjacent[i]);
                assert(link_ends(front).contains((i, key)));
                let k = choose|k: int|
                    0 <= k < link_ends(front).len() && link_ends(front)[k] == (i, key);
                assert(ends[k] == (i, key));
            } else {
                let j = choose|j: int| 0 <= j < adjacent[i].len() && adjacent[i][j] == key;
                assert(added[j] == (i, key));
                assert(ends[link_ends(front).len() + j] == (i, key));
            }
        }
    }
}

/// The graph gives each edge the keys that it was asked about: the key of the node as
/// the source, and the other key as the target.
pub open spec fn keeps_keys<GraphType, T: Clone, W: Weighted<GraphType, T>>(weigher: &W) -> bool {
    forall|node: Node<GraphType, T>, key: String, edge: (String, (String, Weight))|
        #[trigger] call_ensures(W::build_edge, (weigher, node, key), edge) ==> edge.0@ == node.key@
            && edge.1.0@ == key@
}

/// An entry exists only where a link connects the two keys: where the graph gives each
/// edge the keys that it was asked about, an index that was empty holds, after the edges
/// were built, a weight for exactly the pairs of a node's key and one of its adjacent
/// keys.
pub proof fn lemma_edges_follow_links<GraphType, T: Clone, W: Weighted<GraphType, T>>(
    weigher: &W,
    nodes: Seq<Node<GraphType, T>>,
    adjacent: Seq<Seq<Seq<char>>>,
    edges: Seq<(String, (String, Weight))>,
    from: Seq<char>,
    to: Seq<char>,
)
    requires
        keeps_keys(weigher),
        adjacent.len() == nodes.len(),
        weighed(weigher, nodes, adjacent, edges),
    ensures
        weight_of(with_edges(Seq::empty(), edge_views(edges)), from, to) is Some <==> exists|i: int|
            0 <= i < nodes.len() && (#[trigger] nodes[i]).key@ == from && adjacent[i].contains(to),
{
    let seen = edge_views(edges);
    let ends = link_ends(adjacent);
    let empty = Seq::<(Seq<char>, Seq<(Seq<char>, Weight)>)>::empty();
    assert(well_formed(empty)) by {
        assert(crate::edge::source_keys(empty) =~= Seq::<Seq<char>>::empty());
    }
    assert(weight_of(empty, from, to) is None) by {
        crate::edge::source_keys(empty).index_of_first_ensures(from);
        assert(crate::edge::target_keys(Seq::empty()) =~= Seq::<Seq<char>>::empty());
        crate::edge::target_keys(Seq::empty()).index_of_first_ensures(to);
    }
    lemma_with_edges(empty, seen, from, to);
    lemma_last_weight(seen, from, to);
    lemma_link_ends(adjacent);
    assert forall|k: int| 0 <= k < edges.len() implies (#[trigger] seen[k]).0 == nodes[ends[k].0].key@
        && seen[k].1 == ends[k].1 by {
        assert(weighs(weigher, nodes[ends[k].0], ends[k].1, edges[k]));
    }
    if last_weight(seen, from, to) is Some {
        let k = choose|k: int| 0 <= k < seen.len() && (#[trigger] seen[k]).0 == from && seen[k].1 == to;
        assert(nodes[ends[k].0].key@ == from);
    }
    if exists|i: int| 0 <= i < nodes.len() && (#[trigger] nodes[i]).key@ == from && adjacent[i].contains(to) {
        let i = choose|i: int|
            0 <= i < nodes.len() && (#[trigger] nodes[i]).key@ == from && adjacent[i].contains(to);
        assert(ends.contains((i, to)));
        let k = choose|k: int| 0 <= k < ends.len() && ends[k] == (i, to);
        assert(seen[k].0 == from && seen[k].1 == to);
    }
}

} // verus!
