use crate::construction::{completed, with_inverse_links};
use crate::graph::{node_keys, well_formed_nodes};
use crate::node::{
    distinct_links, has_direction, has_link, lemma_with_link_distinct, lemma_with_link_has,
    link_keys, LinkView, LinksDirection, NodeView,
};
use crate::query::{count_lacking, is_leaf, is_root, lacks};
use vstd::prelude::*;

verus! {

/// Some node of `others` with the key `other_key` links `key` with the tag `declared`.
pub open spec fn declares(
    others: Seq<NodeView>,
    other_key: Seq<char>,
    key: Seq<char>,
    declared: LinksDirection,
) -> bool {
    exists|k: int|
        0 <= k < others.len() && (#[trigger] others[k]).key == other_key && has_link(
            others[k].links,
            key,
            declared,
        )
}

/// Where no key is linked twice, a key has one tag at most.
pub proof fn lemma_one_tag(links: Seq<LinkView>, key: Seq<char>, a: LinksDirection, b: LinksDirection)
    requires
        distinct_links(links),
        has_link(links, key, a),
        has_link(links, key, b),
    ensures
        a == b,
{
    let i = choose|i: int| 0 <= i < links.len() && links[i] == (key, a);
    let j = choose|j: int| 0 <= j < links.len() && links[j] == (key, b);
    assert(link_keys(links)[i] == key);
    assert(link_keys(links)[j] == key);
}

/// What a node links after the inverse links were added: a key that a node of `others`
/// declares towards it has the inverse tag, every other key the tag that it had.
pub proof fn lemma_inverse_links(
    links: Seq<LinkView>,
    key: Seq<char>,
    others: Seq<NodeView>,
    declared: LinksDirection,
    inverse: LinksDirection,
    other_key: Seq<char>,
    tag: LinksDirection,
)
    requires
        distinct_links(links),
        node_keys(others).no_duplicates(),
    ensures
        distinct_links(with_inverse_links(links, key, others, declared, inverse)),
        has_link(with_inverse_links(links, key, others, declared, inverse), other_key, tag) <==> (
        if declares(others, other_key, key, declared) {
            tag == inverse
        } else {
            has_link(links, other_key, tag)
        }),
    decreases others.len(),
{
    if others.len() > 0 {
        let front = others.drop_last();
        let other = others.last();
        let before = with_inverse_links(links, key, front, declared, inverse);
        let after = with_inverse_links(links, key, others, declared, inverse);
        assert(node_keys(front).no_duplicates()) by {
            assert forall|a: int, b: int|
                0 <= a < front.len() && 0 <= b < front.len() && a != b implies node_keys(front)[a]
                != node_keys(front)[b] by {
                assert(node_keys(others)[a] != node_keys(others)[b]);
            }
        }
        lemma_inverse_links(links, key, front, declared, inverse, other_key, tag);
        lemma_inverse_links(links, key, front, declared, inverse, other_key, inverse);
        let in_front = declares(front, other_key, key, declared);
        let in_all = declares(others, other_key, key, declared);
        assert(in_front ==> in_all) by {
            if in_front {
                let k = choose|k: int|
                    0 <= k < front.len() && (#[trigger] front[k]).key == other_key && has_link(
                        front[k].links,
                        key,
                        declared,
                    );
                assert(others[k] == front[k]);
            }
        }
        if other_key == other.key {
            assert(!in_front) by {
                if in_front {
                    let k = choose|k: int|
                        0 <= k < front.len() && (#[trigger] front[k]).key == other_key && has_link(
                            front[k].links,
                            key,
                            declared,
                        );
                    assert(node_keys(others)[k] == node_keys(others)[others.len() - 1]);
                }
            }
            assert(in_all == has_link(other.links, key, declared)) by {
                if in_all {
                    let k = choose|k: int|
                        0 <= k < others.len() && (#[trigger] others[k]).key == other_key
                            && has_link(others[k].links, key, declared);
                    if k < front.len() {
                        assert(node_keys(others)[k] == node_keys(others)[others.len() - 1]);
                    }
                }
                if has_link(other.links, key, declared) {
                    assert(others[others.len() - 1].key == other_key);
                }
            }
        } else {
            assert(in_all ==> in_front) by {
                if in_all {
                    let k = choose|k: int|
                        0 <= k < others.len() && (#[trigger] others[k]).key == other_key
                            && has_link(others[k].links, key, declared);
                    assert(front[k] == others[k]);
                }
            }
        }
        if has_link(other.links, key, declared) && !has_link(before, other.key, inverse) {
            lemma_with_link_distinct(before, other.key, inverse);
            lemma_with_link_has(before, other.key, inverse, other_key, tag);
        } else if other_key == other.key && has_link(other.links, key, declared) {
            if has_link(before, other_key, tag) {
                lemma_one_tag(before, other_key, tag, inverse);
            }
        }
    }
}

/// Inverse completion: where a node declares another node as a child, that node has it
/// as a parent after completion, whether it declared so itself or not.
pub proof fn lemma_child_gets_parent(nodes: Seq<NodeView>, parent: int, child: int)
    requires
        well_formed_nodes(nodes),
        0 <= parent < nodes.len(),
        0 <= child < nodes.len(),
        has_link(nodes[parent].links, nodes[child].key, LinksDirection::To),
    ensures
        has_link(completed(nodes)[child].links, nodes[parent].key, LinksDirection::From),
{
    let key = nodes[child].key;
    let first = with_inverse_links(
        nodes[child].links,
        key,
        nodes,
        LinksDirection::To,
        LinksDirection::From,
    );
    lemma_inverse_links(
        nodes[child].links,
        key,
        nodes,
        LinksDirection::To,
        LinksDirection::From,
        nodes[parent].key,
        LinksDirection::From,
    );
    assert(declares(nodes, nodes[parent].key, key, LinksDirection::To));
    lemma_inverse_links(
        first,
        key,
        nodes,
        LinksDirection::From,
        LinksDirection::To,
        nodes[parent].key,
        LinksDirection::From,
    );
    assert(!declares(nodes, nodes[parent].key, key, LinksDirection::From)) by {
        if declares(nodes, nodes[parent].key, key, LinksDirection::From) {
            let k = choose|k: int|
                0 <= k < nodes.len() && (#[trigger] nodes[k]).key == nodes[parent].key && has_link(
                    nodes[k].links,
                    key,
                    LinksDirection::From,
                );
            if k != parent {
                assert(node_keys(nodes)[k] == node_keys(nodes)[parent]);
            }
            lemma_one_tag(nodes[parent].links, key, LinksDirection::From, LinksDirection::To);
        }
    }
}

/// Where a node declares another node as a parent, that node has it as a child after
/// completion.
pub proof fn lemma_parent_gets_child(nodes: Seq<NodeView>, parent: int, child: int)
    requires
        well_formed_nodes(nodes),
        0 <= parent < nodes.len(),
        0 <= child < nodes.len(),
        has_link(nodes[child].links, nodes[parent].key, LinksDirection::From),
    ensures
        has_link(completed(nodes)[parent].links, nodes[child].key, LinksDirection::To),
{
    let key = nodes[parent].key;
    let first = with_inverse_links(
        nodes[parent].links,
        key,
        nodes,
        LinksDirection::To,
        LinksDirection::From,
    );
    lemma_inverse_links(
        nodes[parent].links,
        key,
        nodes,
        LinksDirection::To,
        LinksDirection::From,
        nodes[child].key,
        LinksDirection::To,
    );
    lemma_inverse_links(
        first,
        key,
        nodes,
        LinksDirection::From,
        LinksDirection::To,
        nodes[child].key,
        LinksDirection::To,
    );
    assert(declares(nodes, nodes[child].key, key, LinksDirection::From));
}

/// Completion keeps the nodes well formed.
pub proof fn lemma_completed_well_formed(nodes: Seq<NodeView>)
    requires
        well_formed_nodes(nodes),
    ensures
        well_formed_nodes(completed(nodes)),
        node_keys(completed(nodes)) == node_keys(nodes),
{
    let after = completed(nodes);
    assert(node_keys(after) =~= node_keys(nodes));
    assert forall|i: int| 0 <= i < after.len() implies distinct_links(#[trigger] after[i].links) by {
        let key = nodes[i].key;
        let first = with_inverse_links(
            nodes[i].links,
            key,
            nodes,
            LinksDirection::To,
            LinksDirection::From,
        );
        lemma_inverse_links(
            nodes[i].links,
            key,
            nodes,
            LinksDirection::To,
            LinksDirection::From,
            key,
            LinksDirection::To,
        );
        lemma_inverse_links(
            first,
            key,
            nodes,
            LinksDirection::From,
            LinksDirection::To,
            key,
            LinksDirection::To,
        );
    }
}

/// `only_children` declares the children that `both_ways` declares, and no parent; the
/// parents that `both_ways` declares are those whose children it declares, and no link is
/// without direction.
pub open spec fn declares_children_only(only_children: Seq<NodeView>, both_ways: Seq<NodeView>) -> bool {
    &&& only_children.len() == both_ways.len()
    &&& forall|i: int|
        0 <= i < both_ways.len() ==> (#[trigger] only_children[i]).key == both_ways[i].key
    &&& forall|i: int, key: Seq<char>|
        0 <= i < both_ways.len() ==> (#[trigger] has_link(
            only_children[i].links,
            key,
            LinksDirection::To,
        ) <==> has_link(both_ways[i].links, key, LinksDirection::To))
    &&& forall|i: int, key: Seq<char>|
        0 <= i < both_ways.len() ==> !#[trigger] has_link(
            only_children[i].links,
            key,
            LinksDirection::From,
        )
    &&& forall|i: int, key: Seq<char>|
        0 <= i < both_ways.len() ==> !#[trigger] has_link(
            only_children[i].links,
            key,
            LinksDirection::Both,
        )
    &&& forall|i: int, key: Seq<char>|
        0 <= i < both_ways.len() ==> !#[trigger] has_link(
            both_ways[i].links,
            key,
            LinksDirection::Both,
        )
    &&& forall|i: int, key: Seq<char>|
        0 <= i < both_ways.len() && #[trigger] has_link(
            both_ways[i].links,
            key,
            LinksDirection::From,
        ) ==> declares(both_ways, key, both_ways[i].key, LinksDirection::To)
}

/// The two sequences of links tag the same keys with the same tags.
pub open spec fn same_links(a: Seq<LinkView>, b: Seq<LinkView>) -> bool {
    forall|key: Seq<char>, tag: LinksDirection|
        #![trigger has_link(a, key, tag)]
        #![trigger has_link(b, key, tag)]
        has_link(a, key, tag) <==> has_link(b, key, tag)
}

/// What node `i` links after completion, told by what the nodes declared.
proof fn lemma_completed_link(nodes: Seq<NodeView>, i: int, key: Seq<char>, tag: LinksDirection)
    requires
        well_formed_nodes(nodes),
        0 <= i < nodes.len(),
    ensures
        has_link(completed(nodes)[i].links, key, tag) <==> (if declares(
            nodes,
            key,
            nodes[i].key,
            LinksDirection::From,
        ) {
            tag == LinksDirection::To
        } else if declares(nodes, key, nodes[i].key, LinksDirection::To) {
            tag == LinksDirection::From
        } else {
            has_link(nodes[i].links, key, tag)
        }),
{
    let mine = nodes[i].key;
    let first = with_inverse_links(
        nodes[i].links,
        mine,
        nodes,
        LinksDirection::To,
        LinksDirection::From,
    );
    lemma_inverse_links(
        nodes[i].links,
        mine,
        nodes,
        LinksDirection::To,
        LinksDirection::From,
        key,
        tag,
    );
    lemma_inverse_links(first, mine, nodes, LinksDirection::From, LinksDirection::To, key, tag);
}

/// The node with a key is the only node that declares for that key.
proof fn lemma_declares_at(nodes: Seq<NodeView>, j: int, key: Seq<char>, declared: LinksDirection)
    requires
        node_keys(nodes).no_duplicates(),
        0 <= j < nodes.len(),
    ensures
        declares(nodes, nodes[j].key, key, declared) <==> has_link(nodes[j].links, key, declared),
{
    if declares(nodes, nodes[j].key, key, declared) {
        let k = choose|k: int|
            0 <= k < nodes.len() && (#[trigger] nodes[k]).key == nodes[j].key && has_link(
                nodes[k].links,
                key,
                declared,
            );
        if k != j {
            assert(node_keys(nodes)[k] == node_keys(nodes)[j]);
        }
    }
    if has_link(nodes[j].links, key, declared) {
        assert(nodes[j].key == nodes[j].key);
    }
}

/// Declaration symmetry, link by link: where one input declares only the children and
/// another the same children and their parents too, every node has the same links
/// after completion.
pub proof fn lemma_same_links_either_way(
    only_children: Seq<NodeView>,
    both_ways: Seq<NodeView>,
    i: int,
)
    requires
        well_formed_nodes(only_children),
        well_formed_nodes(both_ways),
        declares_children_only(only_children, both_ways),
        0 <= i < both_ways.len(),
    ensures
        same_links(completed(only_children)[i].links, completed(both_ways)[i].links),
{
    let a = only_children;
    let b = both_ways;
    let mine = b[i].key;
    assert forall|key: Seq<char>, tag: LinksDirection|
        has_link(completed(a)[i].links, key, tag) <==> has_link(
            completed(b)[i].links,
            key,
            tag,
        ) by {
        lemma_completed_link(a, i, key, tag);
        lemma_completed_link(b, i, key, tag);
        assert(!declares(a, key, mine, LinksDirection::From)) by {
            if declares(a, key, mine, LinksDirection::From) {
                let k = choose|k: int|
                    0 <= k < a.len() && (#[trigger] a[k]).key == key && has_link(
                        a[k].links,
                        mine,
                        LinksDirection::From,
                    );
            }
        }
        assert(declares(a, key, mine, LinksDirection::To) <==> declares(
            b,
            key,
            mine,
            LinksDirection::To,
        )) by {
            if declares(a, key, mine, LinksDirection::To) {
                let k = choose|k: int|
                    0 <= k < a.len() && (#[trigger] a[k]).key == key && has_link(
                        a[k].links,
                        mine,
                        LinksDirection::To,
                    );
                assert(b[k].key == key);
                assert(has_link(b[k].links, mine, LinksDirection::To));
            }
            if declares(b, key, mine, LinksDirection::To) {
                let k = choose|k: int|
                    0 <= k < b.len() && (#[trigger] b[k]).key == key && has_link(
                        b[k].links,
                        mine,
                        LinksDirection::To,
                    );
                assert(a[k].key == key);
                assert(has_link(a[k].links, mine, LinksDirection::To));
            }
        }
        if declares(b, key, mine, LinksDirection::From) {
            let k = choose|k: int|
                0 <= k < b.len() && (#[trigger] b[k]).key == key && has_link(
                    b[k].links,
                    mine,
                    LinksDirection::From,
                );
            assert(declares(b, mine, b[k].key, LinksDirection::To));
            lemma_declares_at(b, i, key, LinksDirection::To);
            assert(has_link(b[i].links, key, LinksDirection::To));
            assert(has_link(a[i].links, key, LinksDirection::To));
            if declares(b, key, mine, LinksDirection::To) {
                lemma_declares_at(b, k, mine, LinksDirection::To);
                lemma_one_tag(b[k].links, mine, LinksDirection::From, LinksDirection::To);
            }
            if has_link(a[i].links, key, tag) {
                lemma_one_tag(a[i].links, key, tag, LinksDirection::To);
            }
        } else if !declares(b, key, mine, LinksDirection::To) {
            match tag {
                LinksDirection::To => {},
                LinksDirection::Both => {},
                LinksDirection::From => {
                    if has_link(b[i].links, key, LinksDirection::From) {
                        assert(declares(b, key, b[i].key, LinksDirection::To));
                    }
                },
            }
        }
    }
}

/// Nodes with the same links are roots together and leaves together.
pub proof fn lemma_same_links_same_ends(a: NodeView, b: NodeView)
    requires
        same_links(a.links, b.links),
    ensures
        is_root(a) == is_root(b),
        is_leaf(a) == is_leaf(b),
{
    if has_direction(a.links, LinksDirection::From) {
        lemma_same_direction(a.links, b.links, LinksDirection::From);
    }
    if has_direction(b.links, LinksDirection::From) {
        lemma_same_direction(b.links, a.links, LinksDirection::From);
    }
    if has_direction(a.links, LinksDirection::To) {
        lemma_same_direction(a.links, b.links, LinksDirection::To);
    }
    if has_direction(b.links, LinksDirection::To) {
        lemma_same_direction(b.links, a.links, LinksDirection::To);
    }
}

/// A tag that occurs in one sequence of links occurs in another with the same links.
proof fn lemma_same_direction(a: Seq<LinkView>, b: Seq<LinkView>, direction: LinksDirection)
    requires
        same_links(a, b),
        has_direction(a, direction),
    ensures
        has_direction(b, direction),
{
    let i = choose|i: int| 0 <= i < a.len() && (#[trigger] a[i]).1 == direction;
    assert(a[i] == (a[i].0, direction));
    assert(has_link(a, a[i].0, direction));
    assert(has_link(b, a[i].0, direction));
    let j = choose|j: int| 0 <= j < b.len() && b[j] == (a[i].0, direction);
    assert(b[j].1 == direction);
}

/// Nodes that lack a tag together are counted alike.
pub proof fn lemma_counted_alike(a: Seq<NodeView>, b: Seq<NodeView>, direction: LinksDirection)
    requires
        a.len() == b.len(),
        forall|i: int|
            0 <= i < a.len() ==> lacks(#[trigger] a[i], direction)
                == lacks(b[i], direction),
    ensures
        count_lacking(a, direction) == count_lacking(b, direction),
    decreases a.len(),
{
    if a.len() > 0 {
        assert(lacks(a[a.len() - 1], direction) == lacks(
            b[a.len() - 1],
            direction,
        ));
        assert forall|i: int| 0 <= i < a.drop_last().len() implies lacks(
            #[trigger] a.drop_last()[i],
            direction,
        ) == lacks(b.drop_last()[i], direction) by {
            assert(lacks(a[i], direction) == lacks(b[i], direction));
        }
        lemma_counted_alike(a.drop_last(), b.drop_last(), direction);
    }
}

/// Declaration symmetry: a graph of nodes that declare only their children and a graph
/// of nodes that declare the same children and their parents too have, after
/// completion, as many nodes, as many roots and as many leaves as each other.
pub proof fn lemma_declaration_symmetry(only_children: Seq<NodeView>, both_ways: Seq<NodeView>)
    requires
        well_formed_nodes(only_children),
        well_formed_nodes(both_ways),
        declares_children_only(only_children, both_ways),
    ensures
        completed(only_children).len() == completed(both_ways).len(),
        count_lacking(completed(only_children), LinksDirection::From)
            == count_lacking(completed(both_ways), LinksDirection::From),
        count_lacking(completed(only_children), LinksDirection::To)
            == count_lacking(completed(both_ways), LinksDirection::To),
{
    let a = completed(only_children);
    let b = completed(both_ways);
    assert forall|i: int| 0 <= i < a.len() implies is_root(#[trigger] a[i]) == is_root(b[i])
        && is_leaf(a[i]) == is_leaf(b[i]) by {
        lemma_same_links_either_way(only_children, both_ways, i);
        lemma_same_links_same_ends(a[i], b[i]);
    }
    lemma_counted_alike(a, b, LinksDirection::From);
    lemma_counted_alike(a, b, LinksDirection::To);
}

/// Adding inverse links keeps every link in its place, with its key, and puts new links
/// behind them.
proof fn lemma_inverse_links_grow(
    links: Seq<LinkView>,
    key: Seq<char>,
    others: Seq<NodeView>,
    declared: LinksDirection,
    inverse: LinksDirection,
)
    ensures
        with_inverse_links(links, key, others, declared, inverse).len() >= links.len(),
        forall|j: int|
            0 <= j < links.len() ==> (#[trigger] with_inverse_links(
                links,
                key,
                others,
                declared,
                inverse,
            )[j]).0 == links[j].0,
    decreases others.len(),
{
    if others.len() > 0 {
        let before = with_inverse_links(links, key, others.drop_last(), declared, inverse);
        lemma_inverse_links_grow(links, key, others.drop_last(), declared, inverse);
        link_keys(before).index_of_first_ensures(others.last().key);
        let after = with_inverse_links(links, key, others, declared, inverse);
        assert forall|j: int| 0 <= j < links.len() implies (#[trigger] after[j]).0 == links[j].0 by {
            assert(before[j].0 == links[j].0);
            assert(link_keys(before)[j] == before[j].0);
        }
    }
}

/// Links only grow: after completion a node has its key and its mark, and every link that
/// it had stands in its place with its key; what completion adds stands behind them.
pub proof fn lemma_links_only_grow(nodes: Seq<NodeView>, i: int)
    requires
        0 <= i < nodes.len(),
    ensures
        completed(nodes)[i].key == nodes[i].key,
        completed(nodes)[i].circular == nodes[i].circular,
        completed(nodes)[i].links.len() >= nodes[i].links.len(),
        forall|j: int|
            0 <= j < nodes[i].links.len() ==> (#[trigger] completed(nodes)[i].links[j]).0
                == nodes[i].links[j].0,
{
    let mine = nodes[i].key;
    let first = with_inverse_links(
        nodes[i].links,
        mine,
        nodes,
        LinksDirection::To,
        LinksDirection::From,
    );
    lemma_inverse_links_grow(nodes[i].links, mine, nodes, LinksDirection::To, LinksDirection::From);
    lemma_inverse_links_grow(first, mine, nodes, LinksDirection::From, LinksDirection::To);
    assert forall|j: int| 0 <= j < nodes[i].links.len() implies (
    #[trigger] completed(nodes)[i].links[j]).0 == nodes[i].links[j].0 by {
        assert(first[j].0 == nodes[i].links[j].0);
    }
}

} // verus!
