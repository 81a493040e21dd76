use crate::graph::{find_node, node_keys};
use crate::node::{
    copy_links, has_link, put_link, with_link, LinkView, LinksDirection, Node, NodeView,
};
use vstd::prelude::*;

verus! {

/// Some node of `nodes` has the key `key`.
pub open spec fn has_key<GraphType, T: Clone>(nodes: Seq<Node<GraphType, T>>, key: Seq<char>) -> bool {
    exists|j: int| 0 <= j < nodes.len() && (#[trigger] nodes[j]).key@ == key
}

/// The nodes that stay when, of the nodes that share a key, only the first is kept.
pub open spec fn first_of_each_key<GraphType, T: Clone>(nodes: Seq<Node<GraphType, T>>) -> Seq<
    Node<GraphType, T>,
>
    decreases nodes.len(),
{
    if nodes.len() == 0 {
        Seq::empty()
    } else if has_key(nodes.drop_last(), nodes.last().key@) {
        first_of_each_key(nodes.drop_last())
    } else {
        first_of_each_key(nodes.drop_last()).push(nodes.last())
    }
}

/// The nodes as contracts see them.
pub open spec fn views<GraphType, T: Clone>(nodes: Seq<Node<GraphType, T>>) -> Seq<NodeView> {
    nodes.map_values(|n: Node<GraphType, T>| n.deep_view())
}

/// Dropping the later nodes of a key drops no key and brings none.
pub proof fn lemma_same_keys<GraphType, T: Clone>(nodes: Seq<Node<GraphType, T>>, key: Seq<char>)
    ensures
        has_key(first_of_each_key(nodes), key) <==> has_key(nodes, key),
    decreases nodes.len(),
{
    if nodes.len() > 0 {
        let front = nodes.drop_last();
        let kept = first_of_each_key(nodes);
        let kept_front = first_of_each_key(front);
        lemma_same_keys(front, key);
        lemma_same_keys(front, nodes.last().key@);
        if has_key(kept, key) {
            let k = choose|k: int| 0 <= k < kept.len() && (#[trigger] kept[k]).key@ == key;
            if k < kept_front.len() {
                assert(kept_front[k].key@ == key);
                let j = choose|j: int| 0 <= j < front.len() && (#[trigger] front[j]).key@ == key;
                assert(nodes[j].key@ == key);
            } else {
                assert(nodes[nodes.len() - 1].key@ == key);
            }
        }
        if has_key(nodes, key) {
            let j = choose|j: int| 0 <= j < nodes.len() && (#[trigger] nodes[j]).key@ == key;
            if j < front.len() {
                assert(front[j].key@ == key);
            } else if has_key(front, key) {
            } else {
                assert(kept[kept.len() - 1].key@ == key);
            }
            if has_key(front, key) {
                let k = choose|k: int|
                    0 <= k < kept_front.len() && (#[trigger] kept_front[k]).key@ == key;
                assert(kept[k].key@ == key);
            }
        }
    }
}

/// After the later nodes of each key are dropped, no two nodes share a key.
pub proof fn lemma_one_node_per_key<GraphType, T: Clone>(nodes: Seq<Node<GraphType, T>>)
    ensures
        node_keys(views(first_of_each_key(nodes))).no_duplicates(),
    decreases nodes.len(),
{
    let kept = first_of_each_key(nodes);
    let keys = node_keys(views(kept));
    if nodes.len() > 0 {
        let front = nodes.drop_last();
        let kept_front = first_of_each_key(front);
        lemma_one_node_per_key(front);
        lemma_same_keys(front, nodes.last().key@);
        assert forall|a: int, b: int| 0 <= a < keys.len() && 0 <= b < keys.len() && a != b implies keys[a]
            != keys[b] by {
            let front_keys = node_keys(views(kept_front));
            if a < kept_front.len() && b < kept_front.len() {
                assert(front_keys[a] != front_keys[b]);
            } else if a < kept_front.len() {
                assert(kept_front[a].key@ == keys[a]);
            } else {
                assert(kept_front[b].key@ == keys[b]);
            }
        }
    }
}

/// Of the nodes that share a key, the one that stays is the first in the order given:
/// for a key that occurs, exactly one node is kept, and it is the node at the first place
/// of that key.
pub proof fn lemma_first_node_stays<GraphType, T: Clone>(
    nodes: Seq<Node<GraphType, T>>,
    key: Seq<char>,
) -> (k: int)
    requires
        has_key(nodes, key),
    ensures
        0 <= k < first_of_each_key(nodes).len(),
        crate::graph::place_of_key(views(nodes), key) is Some,
        first_of_each_key(nodes)[k] == nodes[crate::graph::place_of_key(views(nodes), key).unwrap()],
        forall|other: int|
            0 <= other < first_of_each_key(nodes).len() && other != k ==> (
            #[trigger] first_of_each_key(nodes)[other]).key@ != key,
    decreases nodes.len(),
{
    let kept = first_of_each_key(nodes);
    let keys = node_keys(views(nodes));
    let front = nodes.drop_last();
    let kept_front = first_of_each_key(front);
    let front_keys = node_keys(views(front));
    lemma_one_node_per_key(nodes);
    lemma_same_keys(front, key);
    lemma_same_keys(front, nodes.last().key@);
    keys.index_of_first_ensures(key);
    front_keys.index_of_first_ensures(key);
    let j = choose|j: int| 0 <= j < nodes.len() && (#[trigger] nodes[j]).key@ == key;
    assert(keys[j] == key);
    let k = if has_key(front, key) {
        let k = lemma_first_node_stays(front, key);
        let first = front_keys.index_of_first(key).unwrap();
        assert(keys[first] == front_keys[first]);
        assert forall|i: int| 0 <= i < first implies #[trigger] keys[i] != key by {
            assert(front_keys[i] != key);
        }
        crate::edge::lemma_first_place(keys, key, first);
        assert(kept[k] == kept_front[k]);
        k
    } else {
        assert(j == nodes.len() - 1) by {
            if j < front.len() {
                assert(front[j].key@ == key);
            }
        }
        assert forall|i: int| 0 <= i < nodes.len() - 1 implies #[trigger] keys[i] != key by {
            assert(front[i].key@ == keys[i]);
        }
        crate::edge::lemma_first_place(keys, key, nodes.len() - 1);
        kept.len() - 1
    };
    assert forall|other: int| 0 <= other < kept.len() && other != k implies (#[trigger] kept[other]).key@
        != key by {
        let kept_keys = node_keys(views(kept));
        assert(kept_keys[other] == kept[other].key@);
        assert(kept_keys[k] == kept[k].key@);
        assert(kept[k].key@ == key);
    }
    k
}

/// Keeps, of the nodes that share a key, only the first, and the order of those kept.
pub fn unique_nodes<GraphType, T: Clone>(nodes: Vec<Node<GraphType, T>>) -> (kept: Vec<
    Node<GraphType, T>,
>)
    ensures
        kept@ == first_of_each_key(nodes@),
{
    let ghost all = nodes@;
    let mut kept: Vec<Node<GraphType, T>> = Vec::new();
    assert(kept@ =~= first_of_each_key(all.take(0)));
    for node in it: nodes
        invariant
            all == it.seq(),
            kept@ == first_of_each_key(all.take(it.index() as int)),
    {
        let ghost i = it.index() as int;
        let ghost front = all.take(i);
        proof {
            assert(all.take(i + 1).drop_last() =~= front);
            assert(all.take(i + 1).last() == node);
            lemma_same_keys(front, node.key@);
        }
        match find_node(&kept, &node.key) {
            Some(k) => {
                assert(has_key(kept@, node.key@));
            },
            None => {
                assert(!has_key(kept@, node.key@));
                kept.push(node);
            },
        }
    }
    assert(all.take(all.len() as int) =~= all);
    kept
}

/// The keys of the nodes that are dropped, in order: the key of each node that comes
/// behind another node with the same key.
pub open spec fn repeated_keys<GraphType, T: Clone>(nodes: Seq<Node<GraphType, T>>) -> Seq<Seq<char>>
    decreases nodes.len(),
{
    if nodes.len() == 0 {
        Seq::empty()
    } else if has_key(nodes.drop_last(), nodes.last().key@) {
        repeated_keys(nodes.drop_last()).push(nodes.last().key@)
    } else {
        repeated_keys(nodes.drop_last())
    }
}

/// The keys of the nodes that `unique_nodes` drops, one for each dropped node, in
/// order: what a host may want to report.
pub fn duplicate_keys<GraphType, T: Clone>(nodes: &Vec<Node<GraphType, T>>) -> (keys: Vec<String>)
    ensures
        keys.deep_view() == repeated_keys(nodes@),
{
    let mut keys: Vec<String> = Vec::new();
    let mut i: usize = 0;
    assert(keys.deep_view() =~= repeated_keys(nodes@.take(0)));
    while i < nodes.len()
        invariant
            i <= nodes.len(),
            keys.deep_view() == repeated_keys(nodes@.take(i as int)),
        decreases nodes.len() - i,
    {
        let ghost front = nodes@.take(i as int);
        let ghost before = keys.deep_view();
        let first = find_node(nodes, &nodes[i].key);
        proof {
            let key = nodes[i as int].key@;
            let all = node_keys(nodes.deep_view());
            assert(nodes@.take(i + 1).drop_last() =~= front);
            assert(nodes@.take(i + 1).last() == nodes[i as int]);
            all.index_of_first_ensures(key);
            assert(all[i as int] == key);
            let place = first.unwrap() as int;
            if place < i {
                assert(front[place].key@ == key);
            } else {
                assert(place == i);
                if has_key(front, key) {
                    let j = choose|j: int| 0 <= j < front.len() && (#[trigger] front[j]).key@ == key;
                    assert(all[j] == key);
                }
            }
        }
        if first != Some(i) {
            keys.push(nodes[i].key.clone());
            assert(keys.deep_view() =~= before.push(nodes[i as int].key@));
        }
        i += 1;
    }
    assert(nodes@.take(nodes.len() as int) =~= nodes@);
    keys
}

/// The links of a node with the key `key` after the inverse of every declared link
/// towards it has been added: where a node of `others` links `key` with `declared`, that
/// node's key is tagged `inverse`, unless it is tagged so already.
pub open spec fn with_inverse_links(
    links: Seq<LinkView>,
    key: Seq<char>,
    others: Seq<NodeView>,
    declared: LinksDirection,
    inverse: LinksDirection,
) -> Seq<LinkView>
    decreases others.len(),
{
    if others.len() == 0 {
        links
    } else {
        let before = with_inverse_links(links, key, others.drop_last(), declared, inverse);
        let other = others.last();
        if has_link(other.links, key, declared) && !has_link(before, other.key, inverse) {
            with_link(before, other.key, inverse)
        } else {
            before
        }
    }
}

/// The links of node `i` after completion: every node that declares it as a child has
/// become a parent, then every node that declares it as a parent has become a child.
pub open spec fn completed_links(nodes: Seq<NodeView>, i: int) -> Seq<LinkView> {
    with_inverse_links(
        with_inverse_links(
            nodes[i].links,
            nodes[i].key,
            nodes,
            LinksDirection::To,
            LinksDirection::From,
        ),
        nodes[i].key,
        nodes,
        LinksDirection::From,
        LinksDirection::To,
    )
}

/// The nodes after completion: each with its completed links, all else as it was.
pub open spec fn completed(nodes: Seq<NodeView>) -> Seq<NodeView> {
    Seq::new(
        nodes.len(),
        |i: int| NodeView { key: nodes[i].key, links: completed_links(nodes, i), circular: nodes[i].circular },
    )
}

/// Whether `links` hold `key` with the tag `direction`.
pub fn link_exists(links: &Vec<(String, LinksDirection)>, key: &String, direction: LinksDirection) -> (found:
    bool)
    ensures
        found == has_link(links.deep_view(), key@, direction),
{
    let mut i: usize = 0;
    while i < links.len()
        invariant
            i <= links.len(),
            forall|j: int| 0 <= j < i ==> #[trigger] links.deep_view()[j] != (key@, direction),
        decreases links.len() - i,
    {
        if links[i].0 == *key && links[i].1 == direction {
            assert(links.deep_view()[i as int] == (key@, direction));
            return true;
        }
        assert(links.deep_view()[i as int] != (key@, direction));
        i += 1;
    }
    false
}

/// Adds to `links`, the links of a node with the key `key`, the inverse of every link
/// that `declared` holds towards `key`: `declared[j]` are the links that the node with
/// the key `keys[j]` declared.
fn add_inverse_links(
    links: &mut Vec<(String, LinksDirection)>,
    key: &String,
    keys: &Vec<String>,
    declared: &Vec<Vec<(String, LinksDirection)>>,
    tag: LinksDirection,
    inverse: LinksDirection,
    Ghost(others): Ghost<Seq<NodeView>>,
)
    requires
        keys.len() == declared.len(),
        others.len() == keys.len(),
        forall|j: int|
            0 <= j < others.len() ==> (#[trigger] others[j]).key == keys[j]@ && others[j].links
                == declared[j].deep_view(),
    ensures
        final(links).deep_view() == with_inverse_links(
            old(links).deep_view(),
            key@,
            others,
            tag,
            inverse,
        ),
{
    let ghost start = links.deep_view();
    let mut j: usize = 0;
    while j < keys.len()
        invariant
            j <= keys.len(),
            keys.len() == declared.len(),
            others.len() == keys.len(),
            forall|j: int|
                0 <= j < others.len() ==> (#[trigger] others[j]).key == keys[j]@ && others[j].links
                    == declared[j].deep_view(),
            links.deep_view() == with_inverse_links(start, key@, others.take(j as int), tag, inverse),
        decreases keys.len() - j,
    {
        proof {
            assert(others.take(j + 1).drop_last() =~= others.take(j as int));
            assert(others.take(j + 1).last() == others[j as int]);
        }
        if link_exists(&declared[j], key, tag) && !link_exists(links, &keys[j], inverse) {
            put_link(links, keys[j].clone(), inverse);
        }
        j += 1;
    }
    assert(others.take(keys.len() as int) =~= others);
}

/// Completes the links of `nodes`: where a node declares another as a child, the other
/// gets it as a parent, and where a node declares another as a parent, the other gets it
/// as a child. Every node is completed from what the nodes declared before the call.
pub fn complete_links<GraphType, T: Clone>(nodes: &mut Vec<Node<GraphType, T>>)
    ensures
        final(nodes).len() == old(nodes).len(),
        final(nodes).deep_view() == completed(old(nodes).deep_view()),
        forall|i: int|
            0 <= i < old(nodes).len() ==> (#[trigger] final(nodes)[i]).data == old(nodes)[i].data,
{
    let ghost before = nodes@;
    let ghost declared_views = nodes.deep_view();
    let n = nodes.len();
    let mut keys: Vec<String> = Vec::new();
    let mut declared: Vec<Vec<(String, LinksDirection)>> = Vec::new();
    let mut j: usize = 0;
    while j < n
        invariant
            j <= n,
            n == nodes.len(),
            nodes@ == before,
            declared_views == nodes.deep_view(),
            keys.len() == j,
            declared.len() == j,
            forall|k: int|
                0 <= k < j ==> (#[trigger] declared_views[k]).key == keys[k]@ && declared_views[k].links
                    == declared[k].deep_view(),
        decreases n - j,
    {
        keys.push(nodes[j].key.clone());
        declared.push(copy_links(&nodes[j].links));
        j += 1;
    }
    let mut i: usize = 0;
    while i < n
        invariant
            i <= n,
            n == nodes.len(),
            n == before.len(),
            declared_views == before.map_values(|n: Node<GraphType, T>| n.deep_view()),
            declared_views.len() == n,
            keys.len() == n,
            declared.len() == n,
            forall|k: int|
                0 <= k < n ==> (#[trigger] declared_views[k]).key == keys[k]@ && declared_views[k].links
                    == declared[k].deep_view(),
            forall|k: int| 0 <= k < n ==> (#[trigger] nodes[k]).data == before[k].data,
            forall|k: int|
                0 <= k < i ==> (#[trigger] nodes[k]).deep_view() == completed(declared_views)[k],
            forall|k: int| i <= k < n ==> (#[trigger] nodes[k]).deep_view() == declared_views[k],
        decreases n - i,
    {
        let ghost mine = nodes@;
        add_inverse_links(
            &mut nodes[i].links,
            &keys[i],
            &keys,
            &declared,
            LinksDirection::To,
            LinksDirection::From,
            Ghost(declared_views),
        );
        add_inverse_links(
            &mut nodes[i].links,
            &keys[i],
            &keys,
            &declared,
            LinksDirection::From,
            LinksDirection::To,
            Ghost(declared_views),
        );
        proof {
            assert(nodes[i as int].key == mine[i as int].key);
            assert(nodes[i as int].data == mine[i as int].data);
            assert forall|k: int| 0 <= k < n && k != i implies nodes[k] == mine[k] by {}
        }
        i += 1;
    }
    assert(nodes.deep_view() =~= completed(declared_views));
    assert(declared_views =~= old(nodes).deep_view());
}

} // verus!
