use crate::construction::link_exists;
use crate::node::{any_of_direction, has_direction, has_link, LinksDirection, Node, NodeView};
use vstd::prelude::*;

verus! {

/// The node has no link tagged `direction`.
pub open spec fn lacks(node: NodeView, direction: LinksDirection) -> bool {
    !has_direction(node.links, direction)
}

/// The node has no parent.
pub open spec fn is_root(node: NodeView) -> bool {
    lacks(node, LinksDirection::From)
}

/// The node has no child.
pub open spec fn is_leaf(node: NodeView) -> bool {
    lacks(node, LinksDirection::To)
}

/// How many of the nodes have no link tagged `direction`.
pub open spec fn count_lacking(nodes: Seq<NodeView>, direction: LinksDirection) -> nat
    decreases nodes.len(),
{
    if nodes.len() == 0 {
        0
    } else if lacks(nodes.last(), direction) {
        count_lacking(nodes.drop_last(), direction) + 1
    } else {
        count_lacking(nodes.drop_last(), direction)
    }
}

/// The nodes that `kept` keeps, where it keeps those without a link tagged `direction`,
/// are as many as `count_lacking` says.
pub proof fn lemma_count_lacking<GraphType, T: Clone>(
    nodes: Seq<Node<GraphType, T>>,
    direction: LinksDirection,
    kept: spec_fn(Node<GraphType, T>) -> bool,
)
    requires
        forall|n: Node<GraphType, T>| #[trigger] kept(n) == lacks(n.deep_view(), direction),
    ensures
        nodes.filter(kept).len() == count_lacking(
            nodes.map_values(|n: Node<GraphType, T>| n.deep_view()),
            direction,
        ),
    decreases nodes.len(),
{
    let views = nodes.map_values(|n: Node<GraphType, T>| n.deep_view());
    if nodes.len() == 0 {
        reveal(Seq::filter);
    } else {
        let front = nodes.drop_last();
        lemma_count_lacking(front, direction, kept);
        assert(front.push(nodes.last()) =~= nodes);
        front.lemma_filter_push(nodes.last(), kept);
        assert(views.drop_last() =~= front.map_values(|n: Node<GraphType, T>| n.deep_view()));
    }
}

/// `node` is another node than `current`, and `current` links its key with `direction`.
pub open spec fn is_linked_from(current: NodeView, node: NodeView, direction: LinksDirection) -> bool {
    node.key != current.key && has_link(current.links, node.key, direction)
}

/// The two sequences of links tag one key, at least, both as a parent.
pub open spec fn share_parent(a: Seq<crate::node::LinkView>, b: Seq<crate::node::LinkView>) -> bool {
    exists|i: int|
        0 <= i < a.len() && (#[trigger] a[i]).1 == LinksDirection::From && has_link(
            b,
            a[i].0,
            LinksDirection::From,
        )
}

/// `node` is another node than `current` and has a parent that `current` has too.
pub open spec fn is_sibling_of(current: NodeView, node: NodeView) -> bool {
    node.key != current.key && share_parent(node.links, current.links)
}

/// `copies` are copies of `nodes`, one for one: each with the key, the links and the mark
/// of the node it was made of, and a clone of its record.
pub open spec fn are_copies<GraphType, T: Clone>(
    copies: Seq<Node<GraphType, T>>,
    nodes: Seq<Node<GraphType, T>>,
) -> bool {
    &&& copies.len() == nodes.len()
    &&& forall|i: int|
        0 <= i < nodes.len() ==> (#[trigger] copies[i]).deep_view() == nodes[i].deep_view()
            && cloned(nodes[i].data, copies[i].data)
}

/// The nodes of `nodes` that are chosen, in their order.
pub(crate) fn chosen_nodes<'a, GraphType, T: Clone>(
    nodes: &'a Vec<Node<GraphType, T>>,
    chosen: &Vec<bool>,
    Ghost(kept): Ghost<spec_fn(Node<GraphType, T>) -> bool>,
) -> (found: Vec<&'a Node<GraphType, T>>)
    requires
        chosen.len() == nodes.len(),
        forall|i: int| 0 <= i < nodes.len() ==> chosen[i] == kept(#[trigger] nodes[i]),
    ensures
        found@ == nodes@.filter(kept).as_ref(),
{
    let mut found: Vec<&'a Node<GraphType, T>> = Vec::new();
    let mut i: usize = 0;
    assert(nodes@.take(0).filter(kept) =~= Seq::empty()) by {
        reveal(Seq::filter);
    }
    assert(found@ =~= nodes@.take(0).filter(kept).as_ref());
    while i < nodes.len()
        invariant
            i <= nodes.len(),
            chosen.len() == nodes.len(),
            forall|i: int| 0 <= i < nodes.len() ==> chosen[i] == kept(#[trigger] nodes[i]),
            found@ == nodes@.take(i as int).filter(kept).as_ref(),
        decreases nodes.len() - i,
    {
        proof {
            assert(nodes@.take(i + 1) =~= nodes@.take(i as int).push(nodes@[i as int]));
            nodes@.take(i as int).lemma_filter_push(nodes@[i as int], kept);
        }
        if chosen[i] {
            found.push(&nodes[i]);
            assert(found@ =~= nodes@.take(i + 1).filter(kept).as_ref());
        }
        i += 1;
    }
    assert(nodes@.take(nodes.len() as int) =~= nodes@);
    found
}

/// Copies of the nodes of `nodes` that are chosen, in their order.
pub(crate) fn chosen_copies<GraphType, T: Clone>(
    nodes: &Vec<Node<GraphType, T>>,
    chosen: &Vec<bool>,
    Ghost(kept): Ghost<spec_fn(Node<GraphType, T>) -> bool>,
) -> (found: Vec<Node<GraphType, T>>)
    requires
        chosen.len() == nodes.len(),
        forall|i: int| 0 <= i < nodes.len() ==> chosen[i] == kept(#[trigger] nodes[i]),
    ensures
        are_copies(found@, nodes@.filter(kept)),
{
    let mut found: Vec<Node<GraphType, T>> = Vec::new();
    let mut i: usize = 0;
    assert(nodes@.take(0).filter(kept) =~= Seq::empty()) by {
        reveal(Seq::filter);
    }
    while i < nodes.len()
        invariant
            i <= nodes.len(),
            chosen.len() == nodes.len(),
            forall|i: int| 0 <= i < nodes.len() ==> chosen[i] == kept(#[trigger] nodes[i]),
            are_copies(found@, nodes@.take(i as int).filter(kept)),
        decreases nodes.len() - i,
    {
        proof {
            assert(nodes@.take(i + 1) =~= nodes@.take(i as int).push(nodes@[i as int]));
            nodes@.take(i as int).lemma_filter_push(nodes@[i as int], kept);
        }
        if chosen[i] {
            found.push(nodes[i].clone());
        }
        i += 1;
    }
    assert(nodes@.take(nodes.len() as int) =~= nodes@);
    found
}

/// For each node, whether it has no link tagged `direction`.
pub fn lacking<GraphType, T: Clone>(nodes: &Vec<Node<GraphType, T>>, direction: LinksDirection) -> (chosen:
    Vec<bool>)
    ensures
        chosen.len() == nodes.len(),
        forall|i: int|
            0 <= i < nodes.len() ==> chosen[i] == lacks((#[trigger] nodes[i]).deep_view(), direction),
{
    let mut chosen: Vec<bool> = Vec::new();
    let mut i: usize = 0;
    while i < nodes.len()
        invariant
            i <= nodes.len(),
            chosen.len() == i,
            forall|j: int|
                0 <= j < i ==> chosen[j] == lacks((#[trigger] nodes[j]).deep_view(), direction),
        decreases nodes.len() - i,
    {
        chosen.push(!any_of_direction(&nodes[i].links, direction));
        i += 1;
    }
    chosen
}

/// For each node, whether it is marked as closing a cycle.
pub fn marked<GraphType, T: Clone>(nodes: &Vec<Node<GraphType, T>>) -> (chosen: Vec<bool>)
    ensures
        chosen.len() == nodes.len(),
        forall|i: int| 0 <= i < nodes.len() ==> chosen[i] == (#[trigger] nodes[i]).is_in_circular_ref,
{
    let mut chosen: Vec<bool> = Vec::new();
    let mut i: usize = 0;
    while i < nodes.len()
        invariant
            i <= nodes.len(),
            chosen.len() == i,
            forall|j: int| 0 <= j < i ==> chosen[j] == (#[trigger] nodes[j]).is_in_circular_ref,
        decreases nodes.len() - i,
    {
        chosen.push(nodes[i].is_in_circular_ref);
        i += 1;
    }
    chosen
}

/// For each node, whether it is another node than `current` whose key `current` links
/// with `direction`.
pub fn linked_from<GraphType, T: Clone>(
    nodes: &Vec<Node<GraphType, T>>,
    current: &Node<GraphType, T>,
    direction: LinksDirection,
) -> (chosen: Vec<bool>)
    ensures
        chosen.len() == nodes.len(),
        forall|i: int|
            0 <= i < nodes.len() ==> chosen[i] == is_linked_from(
                current.deep_view(),
                (#[trigger] nodes[i]).deep_view(),
                direction,
            ),
{
    let mut chosen: Vec<bool> = Vec::new();
    let mut i: usize = 0;
    while i < nodes.len()
        invariant
            i <= nodes.len(),
            chosen.len() == i,
            forall|j: int|
                0 <= j < i ==> chosen[j] == is_linked_from(
                    current.deep_view(),
                    (#[trigger] nodes[j]).deep_view(),
                    direction,
                ),
        decreases nodes.len() - i,
    {
        let other = nodes[i].key != current.key;
        chosen.push(other && link_exists(&current.links, &nodes[i].key, direction));
        i += 1;
    }
    chosen
}

/// Whether the two lists of links tag one key, at least, both as a parent.
pub fn parent_shared(a: &Vec<(String, LinksDirection)>, b: &Vec<(String, LinksDirection)>) -> (shared:
    bool)
    ensures
        shared == share_parent(a.deep_view(), b.deep_view()),
{
    let mut i: usize = 0;
    while i < a.len()
        invariant
            i <= a.len(),
            forall|j: int|
                0 <= j < i ==> !((#[trigger] a.deep_view()[j]).1 == LinksDirection::From && has_link(
                    b.deep_view(),
                    a.deep_view()[j].0,
                    LinksDirection::From,
                )),
        decreases a.len() - i,
    {
        if a[i].1 == LinksDirection::From && link_exists(b, &a[i].0, LinksDirection::From) {
            assert(a.deep_view()[i as int].1 == LinksDirection::From);
            return true;
        }
        assert(a.deep_view()[i as int] == (a[i as int].0@, a[i as int].1));
        i += 1;
    }
    false
}

/// For each node, whether it is another node than `current` and has a parent that
/// `current` has too.
pub fn siblings_of<GraphType, T: Clone>(nodes: &Vec<Node<GraphType, T>>, current: &Node<GraphType, T>) -> (chosen:
    Vec<bool>)
    ensures
        chosen.len() == nodes.len(),
        forall|i: int|
            0 <= i < nodes.len() ==> chosen[i] == is_sibling_of(
                current.deep_view(),
                (#[trigger] nodes[i]).deep_view(),
            ),
{
    let mut chosen: Vec<bool> = Vec::new();
    let mut i: usize = 0;
    while i < nodes.len()
        invariant
            i <= nodes.len(),
            chosen.len() == i,
            forall|j: int|
                0 <= j < i ==> chosen[j] == is_sibling_of(
                    current.deep_view(),
                    (#[trigger] nodes[j]).deep_view(),
                ),
        decreases nodes.len() - i,
    {
        let other = nodes[i].key != current.key;
        chosen.push(other && parent_shared(&nodes[i].links, &current.links));
        i += 1;
    }
    chosen
}

} // verus!
