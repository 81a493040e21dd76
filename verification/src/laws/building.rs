use crate::builders::{DirectedGraphBuilder, UndirectedGraphBuilder};
use crate::construction::{
    completed, first_of_each_key, has_key, lemma_first_node_stays, lemma_one_node_per_key,
    lemma_same_keys, views,
};
use crate::graph::{node_keys, place_of_key, well_formed_nodes, Graph};
use crate::laws::links::{
    declares_children_only, lemma_child_gets_parent, lemma_completed_well_formed,
    lemma_counted_alike, lemma_declaration_symmetry, lemma_parent_gets_child,
};
use crate::node::{has_link, LinksDirection, Node};
use crate::query::count_lacking;
use crate::types::directed_graph::checked;
use crate::types::{Directed, Undirected};
use vstd::prelude::*;

verus! {

/// Which nodes stay depends on the keys alone: inputs that look alike keep nodes that
/// look alike.
pub proof fn lemma_kept_alike<GraphType, T: Clone>(
    a: Seq<Node<GraphType, T>>,
    b: Seq<Node<GraphType, T>>,
)
    requires
        views(a) == views(b),
    ensures
        views(first_of_each_key(a)) == views(first_of_each_key(b)),
    decreases a.len(),
{
    assert(a.len() == views(a).len());
    assert(b.len() == views(b).len());
    if a.len() > 0 {
        let last = a.len() - 1;
        assert(views(a.drop_last()) =~= views(a).drop_last());
        assert(views(b.drop_last()) =~= views(b).drop_last());
        lemma_kept_alike(a.drop_last(), b.drop_last());
        assert(a[last].deep_view() == views(a)[last]);
        assert(b[last].deep_view() == views(b)[last]);
        assert(has_key(a.drop_last(), a[last].key@) == has_key(b.drop_last(), b[last].key@)) by {
            let key = a[last].key@;
            if has_key(a.drop_last(), key) {
                let j = choose|j: int|
                    0 <= j < a.drop_last().len() && (#[trigger] a.drop_last()[j]).key@ == key;
                assert(views(a)[j] == a[j].deep_view());
                assert(views(b)[j] == b[j].deep_view());
                assert(b.drop_last()[j].key@ == key);
            }
            if has_key(b.drop_last(), key) {
                let j = choose|j: int|
                    0 <= j < b.drop_last().len() && (#[trigger] b.drop_last()[j]).key@ == key;
                assert(views(a)[j] == a[j].deep_view());
                assert(views(b)[j] == b[j].deep_view());
                assert(a.drop_last()[j].key@ == key);
            }
        }
        let kept_a = first_of_each_key(a.drop_last());
        let kept_b = first_of_each_key(b.drop_last());
        assert(views(kept_a).len() == kept_a.len());
        assert(views(kept_b).len() == kept_b.len());
        assert(views(kept_a.push(a[last])) =~= views(kept_a).push(a[last].deep_view()));
        assert(views(kept_b.push(b[last])) =~= views(kept_b).push(b[last].deep_view()));
        assert(a.last() == a[last]);
        assert(b.last() == b[last]);
    } else {
        assert(views(first_of_each_key(a)) =~= views(first_of_each_key(b)));
    }
}

/// Every node that stays is a node of the input.
pub proof fn lemma_kept_of_input<GraphType, T: Clone>(nodes: Seq<Node<GraphType, T>>, k: int) -> (j:
    int)
    requires
        0 <= k < first_of_each_key(nodes).len(),
    ensures
        0 <= j < nodes.len(),
        nodes[j] == first_of_each_key(nodes)[k],
    decreases nodes.len(),
{
    let front = nodes.drop_last();
    if k < first_of_each_key(front).len() {
        lemma_kept_of_input(front, k)
    } else {
        nodes.len() - 1
    }
}

/// Where no node of the input links a key twice, the nodes that stay are well formed.
pub proof fn lemma_kept_well_formed<GraphType, T: Clone>(nodes: Seq<Node<GraphType, T>>)
    requires
        forall|i: int| 0 <= i < nodes.len() ==> (#[trigger] nodes[i]).wf(),
    ensures
        well_formed_nodes(views(first_of_each_key(nodes))),
{
    let kept = first_of_each_key(nodes);
    lemma_one_node_per_key(nodes);
    assert forall|k: int| 0 <= k < views(kept).len() implies crate::node::distinct_links(
        #[trigger] views(kept)[k].links,
    ) by {
        let j = lemma_kept_of_input(nodes, k);
        assert(nodes[j].wf());
    }
}

/// Rebuilding gives the same graph: two directed graphs built from inputs with the same
/// keys and links in the same order have the same keys, links and marks in the same
/// order, the same flag, and no edge.
pub proof fn lemma_rebuilt_directed_alike<T: DirectedGraphBuilder + Clone>(
    first: Graph<Directed, T>,
    first_input: Seq<Node<Directed, T>>,
    second: Graph<Directed, T>,
    second_input: Seq<Node<Directed, T>>,
)
    requires
        first.built_from(first_input),
        second.built_from(second_input),
        views(first_input) == views(second_input),
    ensures
        first.nodes.deep_view() == second.nodes.deep_view(),
        first.has_circular_ref == second.has_circular_ref,
        first.edges@ == second.edges@,
{
    lemma_kept_alike(first_input, second_input);
    assert(first.edges@ =~= second.edges@);
}

/// Rebuilding gives the same graph: two undirected graphs built from inputs with the
/// same keys and links in the same order have the same keys, links and marks in the
/// same order, the same flag, and no edge.
pub proof fn lemma_rebuilt_undirected_alike<T: UndirectedGraphBuilder + Clone>(
    first: Graph<Undirected, T>,
    first_input: Seq<Node<Undirected, T>>,
    second: Graph<Undirected, T>,
    second_input: Seq<Node<Undirected, T>>,
)
    requires
        first.built_from(first_input),
        second.built_from(second_input),
        views(first_input) == views(second_input),
    ensures
        first.nodes.deep_view() == second.nodes.deep_view(),
        first.has_circular_ref == second.has_circular_ref,
        first.edges@ == second.edges@,
{
    lemma_kept_alike(first_input, second_input);
    assert(first.nodes.deep_view() =~= views(first.nodes@));
    assert(second.nodes.deep_view() =~= views(second.nodes@));
    assert(first.edges@ =~= second.edges@);
}

/// A directed graph has one node for each key of its input, and that node holds the
/// key and the record of the first node of the input with that key; no two of its
/// nodes share a key, and it has no key that the input lacks.
pub proof fn lemma_directed_one_node_per_key<T: DirectedGraphBuilder + Clone>(
    graph: Graph<Directed, T>,
    input: Seq<Node<Directed, T>>,
    key: Seq<char>,
) -> (k: int)
    requires
        graph.built_from(input),
        has_key(input, key),
    ensures
        node_keys(graph.nodes.deep_view()).no_duplicates(),
        forall|other: int|
            0 <= other < graph.nodes.len() ==> has_key(input, (#[trigger] graph.nodes[other]).key@),
        0 <= k < graph.nodes.len(),
        place_of_key(views(input), key) is Some,
        graph.nodes[k].key@ == key,
        graph.nodes[k].data == input[place_of_key(views(input), key).unwrap()].data,
        forall|other: int|
            0 <= other < graph.nodes.len() && other != k ==> (#[trigger] graph.nodes[other]).key@
                != key,
{
    let kept = first_of_each_key(input);
    let linked = completed(views(kept));
    let k = lemma_first_node_stays(input, key);
    lemma_one_node_per_key(input);
    let place = place_of_key(views(input), key).unwrap();
    node_keys(views(input)).index_of_first_ensures(key);
    assert(node_keys(views(input))[place] == input[place].key@);
    assert(node_keys(graph.nodes.deep_view()) =~= node_keys(views(kept))) by {
        assert forall|i: int| 0 <= i < kept.len() implies graph.nodes.deep_view()[i].key
            == #[trigger] views(kept)[i].key by {
            assert(checked(linked)[i].key == linked[i].key);
        }
    }
    assert forall|i: int| 0 <= i < kept.len() implies (#[trigger] graph.nodes[i]).key@
        == kept[i].key@ by {
        assert(graph.nodes.deep_view()[i].key == graph.nodes[i].key@);
        assert(checked(linked)[i].key == linked[i].key);
        assert(views(kept)[i].key == kept[i].key@);
    }
    assert forall|other: int| 0 <= other < graph.nodes.len() implies has_key(
        input,
        (#[trigger] graph.nodes[other]).key@,
    ) by {
        assert(kept[other].key@ == graph.nodes[other].key@);
        lemma_same_keys(input, graph.nodes[other].key@);
    }
    k
}

/// An undirected graph has one node for each key of its input, and that node is the
/// first node of the input with that key; no two of its nodes share a key, and it has no
/// key that the input lacks.
pub proof fn lemma_undirected_one_node_per_key<T: UndirectedGraphBuilder + Clone>(
    graph: Graph<Undirected, T>,
    input: Seq<Node<Undirected, T>>,
    key: Seq<char>,
) -> (k: int)
    requires
        graph.built_from(input),
        has_key(input, key),
    ensures
        node_keys(graph.nodes.deep_view()).no_duplicates(),
        forall|other: int|
            0 <= other < graph.nodes.len() ==> has_key(input, (#[trigger] graph.nodes[other]).key@),
        0 <= k < graph.nodes.len(),
        place_of_key(views(input), key) is Some,
        graph.nodes[k] == input[place_of_key(views(input), key).unwrap()],
        forall|other: int|
            0 <= other < graph.nodes.len() && other != k ==> (#[trigger] graph.nodes[other]).key@
                != key,
{
    let kept = first_of_each_key(input);
    let k = lemma_first_node_stays(input, key);
    lemma_one_node_per_key(input);
    assert(graph.nodes.deep_view() =~= views(kept));
    assert forall|other: int| 0 <= other < graph.nodes.len() implies has_key(
        input,
        (#[trigger] graph.nodes[other]).key@,
    ) by {
        assert(kept[other].key@ == graph.nodes[other].key@);
        lemma_same_keys(input, graph.nodes[other].key@);
    }
    k
}

/// The nodes of a directed graph are well formed, where those of its input link no key
/// twice.
pub proof fn lemma_directed_graph_well_formed<T: DirectedGraphBuilder + Clone>(
    graph: Graph<Directed, T>,
    input: Seq<Node<Directed, T>>,
)
    requires
        graph.built_from(input),
        forall|i: int| 0 <= i < input.len() ==> (#[trigger] input[i]).wf(),
    ensures
        graph.wf(),
{
    let kept = views(first_of_each_key(input));
    lemma_kept_well_formed(input);
    lemma_completed_well_formed(kept);
    let linked = completed(kept);
    assert(node_keys(checked(linked)) =~= node_keys(linked));
    assert forall|i: int| 0 <= i < linked.len() implies crate::node::distinct_links(
        #[trigger] checked(linked)[i].links,
    ) by {
        assert(checked(linked)[i].links == linked[i].links);
    }
    assert(graph.node_views() == graph.nodes.deep_view());
}

/// The nodes of an undirected graph are well formed, where those of its input link no
/// key twice.
pub proof fn lemma_undirected_graph_well_formed<T: UndirectedGraphBuilder + Clone>(
    graph: Graph<Undirected, T>,
    input: Seq<Node<Undirected, T>>,
)
    requires
        graph.built_from(input),
        forall|i: int| 0 <= i < input.len() ==> (#[trigger] input[i]).wf(),
    ensures
        graph.wf(),
{
    lemma_kept_well_formed(input);
    assert(graph.nodes.deep_view() =~= views(first_of_each_key(input)));
    assert(graph.node_views() == graph.nodes.deep_view());
}

/// Where a node that stays declares another as its child, the graph's node for that
/// other has it as a parent, whatever that other declared; and where it declares
/// another as its parent, the graph's node for that other has it as a child.
pub proof fn lemma_directed_links_both_ways<T: DirectedGraphBuilder + Clone>(
    graph: Graph<Directed, T>,
    input: Seq<Node<Directed, T>>,
    one: int,
    other: int,
)
    requires
        graph.built_from(input),
        forall|i: int| 0 <= i < input.len() ==> (#[trigger] input[i]).wf(),
        0 <= one < first_of_each_key(input).len(),
        0 <= other < first_of_each_key(input).len(),
    ensures
        graph.nodes[one].key@ == first_of_each_key(input)[one].key@,
        graph.nodes[other].key@ == first_of_each_key(input)[other].key@,
        has_link(
            first_of_each_key(input)[one].relations(),
            first_of_each_key(input)[other].key@,
            LinksDirection::To,
        ) ==> has_link(
            graph.nodes[other].relations(),
            graph.nodes[one].key@,
            LinksDirection::From,
        ),
        has_link(
            first_of_each_key(input)[one].relations(),
            first_of_each_key(input)[other].key@,
            LinksDirection::From,
        ) ==> has_link(graph.nodes[other].relations(), graph.nodes[one].key@, LinksDirection::To),
{
    let kept = first_of_each_key(input);
    let seen = views(kept);
    let linked = completed(seen);
    lemma_kept_well_formed(input);
    assert(seen[one] == kept[one].deep_view());
    assert(seen[other] == kept[other].deep_view());
    assert(graph.nodes.deep_view()[one] == graph.nodes[one].deep_view());
    assert(graph.nodes.deep_view()[other] == graph.nodes[other].deep_view());
    assert(checked(linked)[other].links == linked[other].links);
    assert(checked(linked)[one].key == seen[one].key);
    assert(checked(linked)[other].key == seen[other].key);
    if has_link(kept[one].relations(), kept[other].key@, LinksDirection::To) {
        lemma_child_gets_parent(seen, one, other);
    }
    if has_link(kept[one].relations(), kept[other].key@, LinksDirection::From) {
        lemma_parent_gets_child(seen, other, one);
    }
}

/// A graph of nodes that declare only their children and a graph of nodes that declare
/// the same children and their parents too have as many nodes, as many roots and as many
/// leaves as each other.
pub proof fn lemma_directed_declaration_symmetry<T: DirectedGraphBuilder + Clone>(
    only_children: Graph<Directed, T>,
    only_children_input: Seq<Node<Directed, T>>,
    both_ways: Graph<Directed, T>,
    both_ways_input: Seq<Node<Directed, T>>,
)
    requires
        only_children.built_from(only_children_input),
        both_ways.built_from(both_ways_input),
        forall|i: int|
            0 <= i < only_children_input.len() ==> (#[trigger] only_children_input[i]).wf(),
        forall|i: int| 0 <= i < both_ways_input.len() ==> (#[trigger] both_ways_input[i]).wf(),
        declares_children_only(
            views(first_of_each_key(only_children_input)),
            views(first_of_each_key(both_ways_input)),
        ),
    ensures
        only_children.nodes.len() == both_ways.nodes.len(),
        count_lacking(only_children.nodes.deep_view(), LinksDirection::From) == count_lacking(
            both_ways.nodes.deep_view(),
            LinksDirection::From,
        ),
        count_lacking(only_children.nodes.deep_view(), LinksDirection::To) == count_lacking(
            both_ways.nodes.deep_view(),
            LinksDirection::To,
        ),
{
    let a = views(first_of_each_key(only_children_input));
    let b = views(first_of_each_key(both_ways_input));
    lemma_kept_well_formed(only_children_input);
    lemma_kept_well_formed(both_ways_input);
    lemma_declaration_symmetry(a, b);
    lemma_counted_alike(checked(completed(a)), completed(a), LinksDirection::From);
    lemma_counted_alike(checked(completed(a)), completed(a), LinksDirection::To);
    lemma_counted_alike(checked(completed(b)), completed(b), LinksDirection::From);
    lemma_counted_alike(checked(completed(b)), completed(b), LinksDirection::To);
}

} // verus!
