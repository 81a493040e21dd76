use crate::builders::{DirectedGraphBuilder, UndirectedGraphBuilder};
use crate::types::{Directed, Undirected};
use std::marker::PhantomData;
use vstd::prelude::*;

verus! {

/// The direction of a link between two nodes, seen from the node that holds the link.
#[derive(Clone, Copy, PartialEq, Eq, Debug, Structural)]
pub enum LinksDirection {
    /// The link has no direction.
    Both,
    /// The link comes from the other node: the other node is a parent.
    From,
    /// The link goes to the other node: the other node is a child.
    To,
}

impl DeepView for LinksDirection {
    type V = LinksDirection;

    open spec fn deep_view(&self) -> LinksDirection {
        *self
    }
}

/// A link as contracts see it: the key of the other node and the direction.
pub type LinkView = (Seq<char>, LinksDirection);

/// The keys of a sequence of links, in order.
pub open spec fn link_keys(links: Seq<LinkView>) -> Seq<Seq<char>> {
    links.map_values(|l: LinkView| l.0)
}

/// No key is linked twice.
pub open spec fn distinct_links(links: Seq<LinkView>) -> bool {
    link_keys(links).no_duplicates()
}

/// `key` is linked with the tag `direction`.
pub open spec fn has_link(links: Seq<LinkView>, key: Seq<char>, direction: LinksDirection) -> bool {
    links.contains((key, direction))
}

/// Some key is linked with the tag `direction`.
pub open spec fn has_direction(links: Seq<LinkView>, direction: LinksDirection) -> bool {
    exists|i: int| 0 <= i < links.len() && (#[trigger] links[i]).1 == direction
}

/// The keys that are linked with the tag `direction`, in the order of the links.
pub open spec fn keys_with(links: Seq<LinkView>, direction: LinksDirection) -> Seq<Seq<char>>
    decreases links.len(),
{
    if links.len() == 0 {
        Seq::empty()
    } else if links.last().1 == direction {
        keys_with(links.drop_last(), direction).push(links.last().0)
    } else {
        keys_with(links.drop_last(), direction)
    }
}

/// The links after `key` has been tagged `direction`: a key that is already linked keeps
/// its place and takes the new tag, a new key goes to the end.
pub open spec fn with_link(links: Seq<LinkView>, key: Seq<char>, direction: LinksDirection) -> Seq<
    LinkView,
> {
    match link_keys(links).index_of_first(key) {
        Some(i) => links.update(i, (key, direction)),
        None => links.push((key, direction)),
    }
}

/// The links after each of `keys`, in order, has been tagged `direction`.
pub open spec fn with_links(
    links: Seq<LinkView>,
    keys: Seq<Seq<char>>,
    direction: LinksDirection,
) -> Seq<LinkView>
    decreases keys.len(),
{
    if keys.len() == 0 {
        links
    } else {
        with_link(with_links(links, keys.drop_last(), direction), keys.last(), direction)
    }
}

/// The links of a node of a directed graph that declares `parents` and `children`:
/// a key declared both ways counts as a child.
pub open spec fn directed_links(parents: Seq<Seq<char>>, children: Seq<Seq<char>>) -> Seq<
    LinkView,
> {
    with_links(
        with_links(Seq::empty(), parents, LinksDirection::From),
        children,
        LinksDirection::To,
    )
}

/// The links of a node of an undirected graph that declares `neighbours`.
pub open spec fn undirected_links(neighbours: Seq<Seq<char>>) -> Seq<LinkView> {
    with_links(Seq::empty(), neighbours, LinksDirection::Both)
}

/// The first `i` links hold no `key`, and link `i`, if there is one, holds it:
/// then `i` is where `with_link` looks.
pub proof fn lemma_first_key(links: Seq<LinkView>, key: Seq<char>, i: int)
    requires
        0 <= i <= links.len(),
        forall|j: int| 0 <= j < i ==> (#[trigger] links[j]).0 != key,
        i < links.len() ==> links[i].0 == key,
    ensures
        link_keys(links).index_of_first(key) == (if i < links.len() {
            Some(i)
        } else {
            None
        }),
{
    let keys = link_keys(links);
    keys.index_of_first_ensures(key);
    if i < links.len() {
        assert(keys[i] == key);
        match keys.index_of_first(key) {
            Some(first) => {
                if first < i {
                    assert(links[first].0 != key);
                }
            },
            None => {},
        }
    } else {
        if keys.contains(key) {
            let j = choose|j: int| 0 <= j < keys.len() && keys[j] == key;
            assert(links[j].0 != key);
        }
    }
}

/// Tagging a key keeps the keys distinct.
pub proof fn lemma_with_link_distinct(links: Seq<LinkView>, key: Seq<char>, direction: LinksDirection)
    requires
        distinct_links(links),
    ensures
        distinct_links(with_link(links, key, direction)),
{
    let keys = link_keys(links);
    let after = with_link(links, key, direction);
    keys.index_of_first_ensures(key);
    match keys.index_of_first(key) {
        Some(i) => {
            assert(link_keys(after) =~= keys);
        },
        None => {
            assert(link_keys(after) =~= keys.push(key));
            assert forall|a: int, b: int|
                0 <= a < keys.len() + 1 && 0 <= b < keys.len() + 1 && a != b implies keys.push(
                key,
            )[a] != keys.push(key)[b] by {
                if a < keys.len() && b < keys.len() {
                } else if a < keys.len() {
                    assert(keys[a] != key);
                } else {
                    assert(keys[b] != key);
                }
            }
        },
    }
}

/// What is linked after a key has been tagged: the key with its new tag and no other,
/// every other key as before.
pub proof fn lemma_with_link_has(
    links: Seq<LinkView>,
    key: Seq<char>,
    direction: LinksDirection,
    other: Seq<char>,
    tag: LinksDirection,
)
    requires
        distinct_links(links),
    ensures
        has_link(with_link(links, key, direction), other, tag) <==> (if other == key {
            tag == direction
        } else {
            has_link(links, other, tag)
        }),
{
    let keys = link_keys(links);
    let after = with_link(links, key, direction);
    keys.index_of_first_ensures(key);
    match keys.index_of_first(key) {
        Some(i) => {
            assert(after[i] == (key, direction));
            if has_link(after, other, tag) {
                let j = choose|j: int| 0 <= j < after.len() && after[j] == (other, tag);
                if j != i {
                    assert(links[j] == (other, tag));
                    assert(keys[j] == other);
                }
            }
            if other != key && has_link(links, other, tag) {
                let j = choose|j: int| 0 <= j < links.len() && links[j] == (other, tag);
                assert(after[j] == (other, tag));
            }
        },
        None => {
            assert(after[links.len() as int] == (key, direction));
            if has_link(after, other, tag) {
                let j = choose|j: int| 0 <= j < after.len() && after[j] == (other, tag);
                if j < links.len() {
                    assert(links[j] == (other, tag));
                    assert(keys[j] == other);
                }
            }
            if other != key && has_link(links, other, tag) {
                let j = choose|j: int| 0 <= j < links.len() && links[j] == (other, tag);
                assert(after[j] == (other, tag));
            }
        },
    }
}

/// A key is among the keys with a tag exactly if it is linked with that tag.
pub proof fn lemma_keys_with_has(links: Seq<LinkView>, direction: LinksDirection, key: Seq<char>)
    ensures
        keys_with(links, direction).contains(key) <==> has_link(links, key, direction),
    decreases links.len(),
{
    if links.len() > 0 {
        let front = links.drop_last();
        let rest = keys_with(front, direction);
        let all = keys_with(links, direction);
        lemma_keys_with_has(front, direction, key);
        if all.contains(key) {
            let i = choose|i: int| 0 <= i < all.len() && all[i] == key;
            if i < rest.len() {
                assert(rest[i] == key);
                let j = choose|j: int| 0 <= j < front.len() && front[j] == (key, direction);
                assert(links[j] == (key, direction));
            } else {
                assert(links[links.len() - 1] == (key, direction));
            }
        }
        if has_link(links, key, direction) {
            let j = choose|j: int| 0 <= j < links.len() && links[j] == (key, direction);
            if j < front.len() {
                assert(front[j] == (key, direction));
                let i = choose|i: int| 0 <= i < rest.len() && rest[i] == key;
                assert(all[i] == key);
            } else {
                assert(all[all.len() - 1] == key);
            }
        }
    }
}

/// Some key has a tag exactly if the keys with that tag are not empty.
pub proof fn lemma_has_direction(links: Seq<LinkView>, direction: LinksDirection)
    ensures
        has_direction(links, direction) <==> keys_with(links, direction).len() > 0,
    decreases links.len(),
{
    if links.len() > 0 {
        let front = links.drop_last();
        lemma_has_direction(front, direction);
        if has_direction(links, direction) {
            let i = choose|i: int| 0 <= i < links.len() && (#[trigger] links[i]).1 == direction;
            if i < front.len() {
                assert(front[i].1 == direction);
            }
        }
        if has_direction(front, direction) {
            let i = choose|i: int| 0 <= i < front.len() && (#[trigger] front[i]).1 == direction;
            assert(links[i].1 == direction);
        }
        if links.last().1 == direction {
            assert(links[links.len() - 1].1 == direction);
        }
    }
}

/// What contracts see of a node: its key, its links and its circular mark.
pub struct NodeView {
    pub key: Seq<char>,
    pub links: Seq<LinkView>,
    pub circular: bool,
}

/// A node of a graph: the record it was made from, its key and its links.
pub struct Node<NodeType, T: Clone> {
    /// The record that the node was made from.
    pub data: T,
    /// The key which identifies the node.
    pub key: String,
    /// The keys of the linked nodes, each once, with the direction of the link.
    pub links: Vec<(String, LinksDirection)>,
    /// Set when the node was found to close a cycle of the graph.
    pub is_in_circular_ref: bool,
    pub node_type: PhantomData<NodeType>,
}

impl<NodeType, T: Clone> DeepView for Node<NodeType, T> {
    type V = NodeView;

    open spec fn deep_view(&self) -> NodeView {
        NodeView {
            key: self.key@,
            links: self.links.deep_view(),
            circular: self.is_in_circular_ref,
        }
    }
}

impl<NodeType, T: Clone> Node<NodeType, T> {
    /// The links of the node as contracts see them.
    pub open spec fn relations(&self) -> Seq<LinkView> {
        self.links.deep_view()
    }

    /// No key is linked twice.
    pub open spec fn wf(&self) -> bool {
        distinct_links(self.relations())
    }
}

impl<NodeType, T: Clone> Clone for Node<NodeType, T> {
    /// A copy with the same key, links and mark, and a clone of the record.
    fn clone(&self) -> (copy: Self)
        ensures
            copy.deep_view() == self.deep_view(),
            cloned(self.data, copy.data),
    {
        let copy = Node {
            data: self.data.clone(),
            key: self.key.clone(),
            links: copy_links(&self.links),
            is_in_circular_ref: self.is_in_circular_ref,
            node_type: PhantomData,
        };
        copy
    }
}

/// A copy of `links`.
pub fn copy_links(links: &Vec<(String, LinksDirection)>) -> (copy: Vec<(String, LinksDirection)>)
    ensures
        copy.deep_view() == links.deep_view(),
{
    let mut copy: Vec<(String, LinksDirection)> = Vec::new();
    let mut i: usize = 0;
    while i < links.len()
        invariant
            i <= links.len(),
            copy.len() == i,
            forall|j: int| 0 <= j < i ==> (#[trigger] copy[j]).deep_view() == links[j].deep_view(),
        decreases links.len() - i,
    {
        copy.push((links[i].0.clone(), links[i].1));
        i += 1;
    }
    assert(copy.deep_view() =~= links.deep_view());
    copy
}

/// Tags `key` with `direction` in `links`: overwrites the tag of a key that is there,
/// appends a key that is not.
pub fn put_link(links: &mut Vec<(String, LinksDirection)>, key: String, direction: LinksDirection)
    ensures
        final(links).deep_view() == with_link(old(links).deep_view(), key@, direction),
{
    let ghost before = links.deep_view();
    let mut i: usize = 0;
    while i < links.len()
        invariant
            i <= links.len(),
            links.deep_view() == before,
            before == old(links).deep_view(),
            forall|j: int| 0 <= j < i ==> (#[trigger] before[j]).0 != key@,
        decreases links.len() - i,
    {
        if links[i].0 == key {
            proof {
                assert(before[i as int].0 == key@);
                lemma_first_key(before, key@, i as int);
            }
            links[i].1 = direction;
            assert(links.deep_view() =~= before.update(i as int, (key@, direction)));
            return ;
        }
        assert(before[i as int].0 != key@);
        i += 1;
    }
    proof {
        lemma_first_key(before, key@, before.len() as int);
    }
    links.push((key, direction));
    assert(links.deep_view() =~= before.push((key@, direction)));
}

/// Tags each of `keys`, in order, with `direction` in `links`.
pub fn put_links(links: &mut Vec<(String, LinksDirection)>, keys: &Vec<String>, direction: LinksDirection)
    ensures
        final(links).deep_view() == with_links(old(links).deep_view(), keys.deep_view(), direction),
{
    let ghost before = links.deep_view();
    let ghost all = keys.deep_view();
    let mut i: usize = 0;
    while i < keys.len()
        invariant
            i <= keys.len(),
            all == keys.deep_view(),
            links.deep_view() == with_links(before, all.take(i as int), direction),
        decreases keys.len() - i,
    {
        proof {
            assert(all.take(i + 1).drop_last() =~= all.take(i as int));
            assert(all.take(i + 1).last() == keys[i as int]@);
        }
        put_link(links, keys[i].clone(), direction);
        i += 1;
    }
    assert(all.take(keys.len() as int) =~= all);
}

/// The keys of `links` that are tagged `direction`, in the order of the links.
pub fn keys_of_direction(links: &Vec<(String, LinksDirection)>, direction: LinksDirection) -> (keys:
    Vec<String>)
    ensures
        keys.deep_view() == keys_with(links.deep_view(), direction),
{
    let ghost all = links.deep_view();
    let mut keys: Vec<String> = Vec::new();
    assert(keys.deep_view() =~= keys_with(all.take(0), direction));
    let mut i: usize = 0;
    while i < links.len()
        invariant
            i <= links.len(),
            all == links.deep_view(),
            keys.deep_view() == keys_with(all.take(i as int), direction),
        decreases links.len() - i,
    {
        let ghost before = keys.deep_view();
        proof {
            assert(all.take(i + 1).drop_last() =~= all.take(i as int));
            assert(all.take(i + 1).last() == all[i as int]);
        }
        if links[i].1 == direction {
            keys.push(links[i].0.clone());
            assert(keys.deep_view() =~= before.push(all[i as int].0));
        }
        i += 1;
    }
    assert(all.take(links.len() as int) =~= all);
    keys
}

/// Whether some key of `links` is tagged `direction`.
pub fn any_of_direction(links: &Vec<(String, LinksDirection)>, direction: LinksDirection) -> (found:
    bool)
    ensures
        found == has_direction(links.deep_view(), direction),
{
    let mut i: usize = 0;
    while i < links.len()
        invariant
            i <= links.len(),
            forall|j: int| 0 <= j < i ==> (#[trigger] links.deep_view()[j]).1 != direction,
        decreases links.len() - i,
    {
        if links[i].1 == direction {
            assert(links.deep_view()[i as int].1 == direction);
            return true;
        }
        assert(links.deep_view()[i as int].1 != direction);
        i += 1;
    }
    false
}

impl<T> Node<Undirected, T> where T: UndirectedGraphBuilder + Clone {
    /// This node is what `new` makes of `data`: the record itself, the key that the record
    /// gave, and a link to each neighbour key that it gave.
    pub open spec fn made_from(&self, data: T) -> bool {
        &&& self.data == data
        &&& !self.is_in_circular_ref
        &&& exists|key: String, neighbours: Vec<String>|
            {
                &&& call_ensures(T::build_node_key, (&data,), key)
                &&& call_ensures(T::build_neighbour_keys, (&data,), neighbours)
                &&& self.key@ == key@
                &&& self.relations() == undirected_links(neighbours.deep_view())
            }
    }

    /// The node of `data`, with the key and the neighbour keys that the record gives.
    pub fn new(data: T) -> (node: Node<Undirected, T>)
        ensures
            node.made_from(data),
            node.wf(),
    {
        let key = data.build_node_key();
        let neighbours = data.build_neighbour_keys();
        let ghost key_given = key;
        let ghost neighbours_given = neighbours;
        let node = Self::with_keys(data, key, neighbours);
        assert(call_ensures(T::build_node_key, (&data,), key_given));
        assert(call_ensures(T::build_neighbour_keys, (&data,), neighbours_given));
        node
    }

    /// The node of `data` under `key`, linked with each of `neighbours`.
    pub fn with_keys(data: T, key: String, neighbours: Vec<String>) -> (node: Node<Undirected, T>)
        ensures
            node.data == data,
            node.key == key,
            node.relations() == undirected_links(neighbours.deep_view()),
            !node.is_in_circular_ref,
            node.wf(),
    {
        let mut links: Vec<(String, LinksDirection)> = Vec::new();
        assert(links.deep_view() =~= Seq::<LinkView>::empty());
        put_links(&mut links, &neighbours, LinksDirection::Both);
        proof {
            lemma_with_links_distinct(Seq::empty(), neighbours.deep_view(), LinksDirection::Both);
        }
        Node { data, key, links, is_in_circular_ref: false, node_type: PhantomData }
    }

    /// The list of keys of the nodes that are linked with the node.
    pub fn get_neighbour_keys(&self) -> (keys: Vec<String>)
        ensures
            keys.deep_view() == link_keys(self.relations()),
    {
        let mut keys: Vec<String> = Vec::new();
        let mut i: usize = 0;
        while i < self.links.len()
            invariant
                i <= self.links.len(),
                keys.len() == i,
                forall|j: int| 0 <= j < i ==> (#[trigger] keys[j])@ == self.links[j].0@,
            decreases self.links.len() - i,
        {
            keys.push(self.links[i].0.clone());
            i += 1;
        }
        assert(keys.deep_view() =~= link_keys(self.relations()));
        keys
    }
}

/// Tagging keys keeps the keys distinct.
pub proof fn lemma_with_links_distinct(links: Seq<LinkView>, keys: Seq<Seq<char>>, direction: LinksDirection)
    requires
        distinct_links(links),
    ensures
        distinct_links(with_links(links, keys, direction)),
    decreases keys.len(),
{
    if keys.len() > 0 {
        lemma_with_links_distinct(links, keys.drop_last(), direction);
        lemma_with_link_distinct(
            with_links(links, keys.drop_last(), direction),
            keys.last(),
            direction,
        );
    }
}

impl<T> Node<Directed, T> where T: DirectedGraphBuilder + Clone {
    /// This node is what `new` makes of `data`: the record itself, the key that the record
    /// gave, and a link to each parent key and each child key that it gave.
    pub open spec fn made_from(&self, data: T) -> bool {
        &&& self.data == data
        &&& !self.is_in_circular_ref
        &&& exists|key: String, parents: Vec<String>, children: Vec<String>|
            {
                &&& call_ensures(T::build_node_key, (&data,), key)
                &&& call_ensures(T::build_parent_key, (&data,), parents)
                &&& call_ensures(T::build_child_key, (&data,), children)
                &&& self.key@ == key@
                &&& self.relations() == directed_links(parents.deep_view(), children.deep_view())
            }
    }

    /// The node of `data`, with the key, the parent keys and the child keys that the
    /// record gives.
    pub fn new(data: T) -> (node: Node<Directed, T>)
        ensures
            node.made_from(data),
            node.wf(),
    {
        let key = data.build_node_key();
        let parents = data.build_parent_key();
        let children = data.build_child_key();
        let ghost key_given = key;
        let ghost parents_given = parents;
        let ghost children_given = children;
        let node = Self::with_keys(data, key, parents, children);
        assert(call_ensures(T::build_node_key, (&data,), key_given));
        assert(call_ensures(T::build_parent_key, (&data,), parents_given));
        assert(call_ensures(T::build_child_key, (&data,), children_given));
        node
    }

    /// The node of `data` under `key`, with each of `parents` as a parent and each of
    /// `children` as a child; a key given both ways is a child.
    pub fn with_keys(data: T, key: String, parents: Vec<String>, children: Vec<String>) -> (node:
        Node<Directed, T>)
        ensures
            node.data == data,
            node.key == key,
            node.relations() == directed_links(parents.deep_view(), children.deep_view()),
            !node.is_in_circular_ref,
            node.wf(),
    {
        let mut links: Vec<(String, LinksDirection)> = Vec::new();
        assert(links.deep_view() =~= Seq::<LinkView>::empty());
        put_links(&mut links, &parents, LinksDirection::From);
        put_links(&mut links, &children, LinksDirection::To);
        proof {
            lemma_with_links_distinct(Seq::empty(), parents.deep_view(), LinksDirection::From);
            lemma_with_links_distinct(
                with_links(Seq::empty(), parents.deep_view(), LinksDirection::From),
                children.deep_view(),
                LinksDirection::To,
            );
        }
        Node { data, key, links, is_in_circular_ref: false, node_type: PhantomData }
    }

    /// The list of keys of the nodes that are linked to the node.
    pub fn get_parent_keys(&self) -> (keys: Vec<String>)
        ensures
            keys.deep_view() == keys_with(self.relations(), LinksDirection::From),
    {
        keys_of_direction(&self.links, LinksDirection::From)
    }

    /// The list of keys of the nodes that are linked from the node.
    pub fn get_child_keys(&self) -> (keys: Vec<String>)
        ensures
            keys.deep_view() == keys_with(self.relations(), LinksDirection::To),
    {
        keys_of_direction(&self.links, LinksDirection::To)
    }

    /// Makes `key` a parent of the node, whatever it was before.
    pub fn add_parent(&mut self, key: String)
        ensures
            final(self).relations() == with_link(old(self).relations(), key@, LinksDirection::From),
            final(self).data == old(self).data,
            final(self).key == old(self).key,
            final(self).is_in_circular_ref == old(self).is_in_circular_ref,
            old(self).wf() ==> final(self).wf(),
    {
        proof {
            if self.wf() {
                lemma_with_link_distinct(self.relations(), key@, LinksDirection::From);
            }
        }
        put_link(&mut self.links, key, LinksDirection::From);
    }

    /// Makes `key` a child of the node, whatever it was before.
    pub fn add_child(&mut self, key: String)
        ensures
            final(self).relations() == with_link(old(self).relations(), key@, LinksDirection::To),
            final(self).data == old(self).data,
            final(self).key == old(self).key,
            final(self).is_in_circular_ref == old(self).is_in_circular_ref,
            old(self).wf() ==> final(self).wf(),
    {
        proof {
            if self.wf() {
                lemma_with_link_distinct(self.relations(), key@, LinksDirection::To);
            }
        }
        put_link(&mut self.links, key, LinksDirection::To);
    }

    /// Whether the node has one parent or more.
    pub fn has_parents(&self) -> (found: bool)
        ensures
            found == has_direction(self.relations(), LinksDirection::From),
    {
        any_of_direction(&self.links, LinksDirection::From)
    }

    /// Whether the node has one child or more.
    pub fn has_children(&self) -> (found: bool)
        ensures
            found == has_direction(self.relations(), LinksDirection::To),
    {
        any_of_direction(&self.links, LinksDirection::To)
    }
}

} // verus!
