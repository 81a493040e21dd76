use crate::builders::{DirectedGraphBuilder, UndirectedGraphBuilder};
use crate::construction::{completed, first_of_each_key, views};
use crate::cycle::{begins_with, closed_from, closes, is_cycle, is_walk, steps};
use crate::graph::{node_keys, Graph};
use crate::node::{LinksDirection, Node, NodeView};
use crate::query::is_root;
use crate::types::directed_graph::{checked, circular, closes_cycle, rootless};
use crate::types::undirected_graph::winds;
use crate::types::{Directed, Undirected};
use vstd::prelude::*;

verus! {

/// The walk `way` with the cycle behind it, turned so that it begins where the walk
/// ends: the walk but for its last node, then the cycle from its node at `turn` round to
/// the node before it.
pub open spec fn round_trip(way: Seq<int>, cycle: Seq<int>, turn: int) -> Seq<int> {
    way.drop_last() + cycle.skip(turn) + cycle.take(turn)
}

/// A walk that meets a cycle only at its end runs on round the cycle and closes it at
/// the node where it met it.
proof fn lemma_round_trip(
    nodes: Seq<NodeView>,
    direction: LinksDirection,
    girth: int,
    way: Seq<int>,
    cycle: Seq<int>,
)
    requires
        is_walk(nodes, direction, way),
        is_cycle(nodes, direction, cycle),
        cycle.len() >= girth,
        cycle.contains(way.last()),
        forall|i: int| 0 <= i < way.len() - 1 ==> !cycle.contains(#[trigger] way[i]),
    ensures
        closed_from(nodes, direction, girth, seq![way[0]], way.last()),
{
    let turn = cycle.index_of(way.last());
    let path = round_trip(way, cycle, turn);
    let before = way.len() - 1;
    let n = cycle.len() as int;
    assert(path.len() == before + n);
    assert forall|i: int| 0 <= i < path.len() implies #[trigger] path[i] == (if i < before {
        way[i]
    } else if i - before < n - turn {
        cycle[turn + i - before]
    } else {
        cycle[i - before - (n - turn)]
    }) by {}
    assert forall|i: int| 0 <= i < path.len() implies 0 <= #[trigger] path[i] < nodes.len() by {}
    assert forall|i: int, j: int| 0 <= i < path.len() && 0 <= j < path.len() && i != j implies path[i]
        != path[j] by {
        if i < before && j >= before {
            assert(cycle.contains(path[j]));
        }
        if j < before && i >= before {
            assert(cycle.contains(path[i]));
        }
    }
    assert forall|i: int| #![trigger path[i]] 0 <= i < path.len() - 1 implies steps(
        nodes,
        direction,
        path[i],
        path[i + 1],
    ) by {
        if i < before {
            assert(steps(nodes, direction, way[i], way[i + 1]));
        } else if i - before == n - turn - 1 {
            assert(path[i] == cycle.last());
            assert(path[i + 1] == cycle[0]);
        } else if i - before < n - turn {
            assert(steps(nodes, direction, cycle[turn + i - before], cycle[turn + i - before + 1]));
        } else {
            assert(steps(
                nodes,
                direction,
                cycle[i - before - (n - turn)],
                cycle[i - before - (n - turn) + 1],
            ));
        }
    }
    assert(is_walk(nodes, direction, path));
    assert(begins_with(path, seq![way[0]]));
    assert(path[before] == way.last());
    assert(steps(nodes, direction, path.last(), way.last())) by {
        if turn == 0 {
            assert(path.last() == cycle.last());
        } else {
            assert(path.last() == cycle[turn - 1]);
            assert(steps(nodes, direction, cycle[turn - 1], cycle[turn - 1 + 1]));
        }
    }
    assert(closes(nodes, direction, girth, path, way.last()));
}

/// A walk that ends on a cycle of `girth` nodes or more leads a walk from the same
/// start to close a cycle at one of the cycle's nodes: the first that it meets.
pub proof fn lemma_cycle_is_closed(
    nodes: Seq<NodeView>,
    direction: LinksDirection,
    girth: int,
    way: Seq<int>,
    cycle: Seq<int>,
) -> (met: int)
    requires
        is_walk(nodes, direction, way),
        is_cycle(nodes, direction, cycle),
        cycle.len() >= girth,
        cycle.contains(way.last()),
    ensures
        cycle.contains(met),
        way.contains(met),
        0 <= met < nodes.len(),
        closed_from(nodes, direction, girth, seq![way[0]], met),
    decreases way.len(),
{
    if exists|i: int| 0 <= i < way.len() - 1 && cycle.contains(#[trigger] way[i]) {
        let i = choose|i: int| 0 <= i < way.len() - 1 && cycle.contains(#[trigger] way[i]);
        let shorter = way.take(i + 1);
        assert(is_walk(nodes, direction, shorter)) by {
            assert forall|k: int| #![trigger shorter[k]] 0 <= k < shorter.len() - 1 implies steps(
                nodes,
                direction,
                shorter[k],
                shorter[k + 1],
            ) by {
                assert(steps(nodes, direction, way[k], way[k + 1]));
            }
        }
        assert(shorter.last() == way[i]);
        let met = lemma_cycle_is_closed(nodes, direction, girth, shorter, cycle);
        let k = choose|k: int| 0 <= k < shorter.len() && shorter[k] == met;
        assert(way[k] == met);
        met
    } else {
        lemma_round_trip(nodes, direction, girth, way, cycle);
        assert(way[way.len() - 1] == way.last());
        way.last()
    }
}

/// A node at which a walk from `start` closes a cycle lies on a cycle of `girth` nodes or
/// more, and a walk leads from `start` to it.
pub proof fn lemma_closed_cycle(
    nodes: Seq<NodeView>,
    direction: LinksDirection,
    girth: int,
    start: int,
    node: int,
) -> (found: (Seq<int>, Seq<int>))
    requires
        girth >= 1,
        closed_from(nodes, direction, girth, seq![start], node),
    ensures
        is_walk(nodes, direction, found.0),
        found.0[0] == start,
        found.0.last() == node,
        is_cycle(nodes, direction, found.1),
        found.1[0] == node,
        found.1.len() >= girth,
{
    let path = choose|path: Seq<int>|
        #[trigger] is_walk(nodes, direction, path) && begins_with(path, seq![start]) && closes(
            nodes,
            direction,
            girth,
            path,
            node,
        );
    let j = choose|j: int| 0 <= j < path.len() && j + girth <= path.len() && #[trigger] path[j] == node;
    let way = path.take(j + 1);
    let cycle = path.skip(j);
    assert(seq![start][0] == start);
    assert(is_walk(nodes, direction, way)) by {
        assert forall|k: int| #![trigger way[k]] 0 <= k < way.len() - 1 implies steps(
            nodes,
            direction,
            way[k],
            way[k + 1],
        ) by {
            assert(steps(nodes, direction, path[k], path[k + 1]));
        }
    }
    assert(is_walk(nodes, direction, cycle)) by {
        assert forall|k: int| #![trigger cycle[k]] 0 <= k < cycle.len() - 1 implies steps(
            nodes,
            direction,
            cycle[k],
            cycle[k + 1],
        ) by {
            assert(steps(nodes, direction, path[j + k], path[j + k + 1]));
        }
    }
    assert(cycle.last() == path.last());
    (way, cycle)
}

/// The marks play no part in a walk: nodes with the same keys and links have the same
/// steps.
proof fn lemma_marks_aside(a: Seq<NodeView>, b: Seq<NodeView>, direction: LinksDirection)
    requires
        a.len() == b.len(),
        forall|i: int| 0 <= i < a.len() ==> (#[trigger] a[i]).key == b[i].key && a[i].links == b[i].links,
    ensures
        forall|from: int, to: int|
            steps(a, direction, from, to) == #[trigger] steps(b, direction, from, to),
        forall|path: Seq<int>| is_walk(a, direction, path) == #[trigger] is_walk(b, direction, path),
        forall|cycle: Seq<int>|
            is_cycle(a, direction, cycle) == #[trigger] is_cycle(b, direction, cycle),
{
    assert(node_keys(a) =~= node_keys(b));
    assert forall|from: int, to: int|
        steps(a, direction, from, to) == #[trigger] steps(b, direction, from, to) by {}
    assert forall|path: Seq<int>|
        is_walk(a, direction, path) == #[trigger] is_walk(b, direction, path) by {
        if is_walk(a, direction, path) {
            assert forall|i: int| #![trigger path[i]] 0 <= i < path.len() - 1 implies steps(
                b,
                direction,
                path[i],
                path[i + 1],
            ) by {
                assert(steps(a, direction, path[i], path[i + 1]));
            }
        }
        if is_walk(b, direction, path) {
            assert forall|i: int| #![trigger path[i]] 0 <= i < path.len() - 1 implies steps(
                a,
                direction,
                path[i],
                path[i + 1],
            ) by {
                assert(steps(b, direction, path[i], path[i + 1]));
            }
        }
    }
}

/// A directed graph with nodes and without a root is flagged, and none of its nodes is
/// marked.
pub proof fn lemma_rootless_graph_is_flagged<T: DirectedGraphBuilder + Clone>(
    graph: Graph<Directed, T>,
    input: Seq<Node<Directed, T>>,
)
    requires
        graph.built_from(input),
        rootless(graph.nodes.deep_view()),
    ensures
        graph.has_circular_ref,
        forall|i: int| 0 <= i < graph.nodes.len() ==> !(#[trigger] graph.nodes[i]).is_in_circular_ref,
{
    let linked = completed(views(first_of_each_key(input)));
    assert forall|i: int| 0 <= i < linked.len() implies !is_root(#[trigger] linked[i]) by {
        assert(checked(linked)[i].links == linked[i].links);
        assert(!is_root(graph.nodes.deep_view()[i]));
    }
    assert(rootless(linked));
    assert forall|i: int| 0 <= i < graph.nodes.len() implies !(
    #[trigger] graph.nodes[i]).is_in_circular_ref by {
        assert(graph.nodes.deep_view()[i].circular == graph.nodes[i].is_in_circular_ref);
        assert(checked(linked)[i].circular == closes_cycle(linked, i));
    }
}

/// A cycle of a directed graph to which a walk from a root leads is found: the graph is
/// flagged, and the node of the cycle that the walk meets first is marked.
pub proof fn lemma_rooted_cycle_is_marked<T: DirectedGraphBuilder + Clone>(
    graph: Graph<Directed, T>,
    input: Seq<Node<Directed, T>>,
    way: Seq<int>,
    cycle: Seq<int>,
) -> (met: int)
    requires
        graph.built_from(input),
        is_walk(graph.nodes.deep_view(), LinksDirection::To, way),
        is_root(graph.nodes.deep_view()[way[0]]),
        is_cycle(graph.nodes.deep_view(), LinksDirection::To, cycle),
        cycle.contains(way.last()),
    ensures
        graph.has_circular_ref,
        cycle.contains(met),
        way.contains(met),
        0 <= met < graph.nodes.len(),
        graph.nodes[met].is_in_circular_ref,
{
    let linked = completed(views(first_of_each_key(input)));
    let seen = graph.nodes.deep_view();
    assert forall|i: int| 0 <= i < seen.len() implies (#[trigger] seen[i]).key == linked[i].key
        && seen[i].links == linked[i].links by {
        assert(checked(linked)[i].links == linked[i].links);
    }
    lemma_marks_aside(seen, linked, LinksDirection::To);
    assert(is_walk(linked, LinksDirection::To, way));
    assert(is_cycle(linked, LinksDirection::To, cycle));
    let met = lemma_cycle_is_closed(linked, LinksDirection::To, 1, way, cycle);
    assert(0 <= way[0] < linked.len());
    assert(is_root(linked[way[0]]));
    assert(closes_cycle(linked, met));
    assert(seen[met].circular == graph.nodes[met].is_in_circular_ref);
    assert(checked(linked)[met].circular == closes_cycle(linked, met));
    met
}

/// A marked node of a directed graph lies on a cycle, and a walk from a root leads to
/// it; the graph is then flagged.
pub proof fn lemma_marked_node_is_on_cycle<T: DirectedGraphBuilder + Clone>(
    graph: Graph<Directed, T>,
    input: Seq<Node<Directed, T>>,
    node: int,
) -> (found: (Seq<int>, Seq<int>))
    requires
        graph.built_from(input),
        0 <= node < graph.nodes.len(),
        graph.nodes[node].is_in_circular_ref,
    ensures
        graph.has_circular_ref,
        is_walk(graph.nodes.deep_view(), LinksDirection::To, found.0),
        is_root(graph.nodes.deep_view()[found.0[0]]),
        found.0.last() == node,
        is_cycle(graph.nodes.deep_view(), LinksDirection::To, found.1),
        found.1[0] == node,
{
    let linked = completed(views(first_of_each_key(input)));
    let seen = graph.nodes.deep_view();
    assert forall|i: int| 0 <= i < seen.len() implies (#[trigger] seen[i]).key == linked[i].key
        && seen[i].links == linked[i].links by {
        assert(checked(linked)[i].links == linked[i].links);
    }
    lemma_marks_aside(seen, linked, LinksDirection::To);
    assert(seen[node].circular == graph.nodes[node].is_in_circular_ref);
    assert(checked(linked)[node].circular == closes_cycle(linked, node));
    let root = choose|root: int|
        0 <= root < linked.len() && is_root(#[trigger] linked[root]) && closed_from(
            linked,
            LinksDirection::To,
            1,
            seq![root],
            node,
        );
    let found = lemma_closed_cycle(linked, LinksDirection::To, 1, root, node);
    assert(is_walk(seen, LinksDirection::To, found.0));
    assert(is_cycle(seen, LinksDirection::To, found.1));
    assert(is_root(seen[root]));
    found
}

/// A flagged directed graph has no root, or a cycle to which a walk from a root leads.
pub proof fn lemma_flagged_graph_is_circular<T: DirectedGraphBuilder + Clone>(
    graph: Graph<Directed, T>,
    input: Seq<Node<Directed, T>>,
)
    requires
        graph.built_from(input),
        graph.has_circular_ref,
    ensures
        rootless(graph.nodes.deep_view()) || exists|node: int|
            0 <= node < graph.nodes.len() && (#[trigger] graph.nodes[node]).is_in_circular_ref,
{
    let linked = completed(views(first_of_each_key(input)));
    let seen = graph.nodes.deep_view();
    if rootless(linked) {
        assert forall|i: int| 0 <= i < seen.len() implies !is_root(#[trigger] seen[i]) by {
            assert(checked(linked)[i].links == linked[i].links);
            assert(!is_root(linked[i]));
        }
    } else {
        let node = choose|node: int| 0 <= node < linked.len() && closes_cycle(linked, node);
        assert(seen[node].circular == graph.nodes[node].is_in_circular_ref);
        assert(checked(linked)[node].circular == closes_cycle(linked, node));
    }
}

/// An undirected graph is flagged exactly if a walk from its first node leads to a
/// cycle of three nodes or more.
pub proof fn lemma_winding_graph_is_flagged<T: UndirectedGraphBuilder + Clone>(
    graph: Graph<Undirected, T>,
    input: Seq<Node<Undirected, T>>,
    way: Seq<int>,
    cycle: Seq<int>,
)
    requires
        graph.built_from(input),
        is_walk(graph.nodes.deep_view(), LinksDirection::Both, way),
        way[0] == 0,
        is_cycle(graph.nodes.deep_view(), LinksDirection::Both, cycle),
        cycle.len() >= 3,
        cycle.contains(way.last()),
    ensures
        graph.has_circular_ref,
{
    let seen = graph.nodes.deep_view();
    assert(seen =~= views(first_of_each_key(input)));
    let met = lemma_cycle_is_closed(seen, LinksDirection::Both, 3, way, cycle);
    assert(winds(seen));
}

/// A flagged undirected graph holds a cycle of three nodes or more, to which a walk
/// from its first node leads.
pub proof fn lemma_flagged_graph_winds<T: UndirectedGraphBuilder + Clone>(
    graph: Graph<Undirected, T>,
    input: Seq<Node<Undirected, T>>,
) -> (found: (Seq<int>, Seq<int>))
    requires
        graph.built_from(input),
        graph.has_circular_ref,
    ensures
        is_walk(graph.nodes.deep_view(), LinksDirection::Both, found.0),
        found.0[0] == 0,
        is_cycle(graph.nodes.deep_view(), LinksDirection::Both, found.1),
        found.1[0] == found.0.last(),
        found.1.len() >= 3,
{
    let seen = graph.nodes.deep_view();
    assert(seen =~= views(first_of_each_key(input)));
    let node = choose|node: int|
        0 <= node < seen.len() && #[trigger] closed_from(seen, LinksDirection::Both, 3, seq![0], node);
    lemma_closed_cycle(seen, LinksDirection::Both, 3, 0, node)
}

} // verus!
