use crate::graph::{find_node, place_of_key};
use crate::node::{has_link, keys_of_direction, keys_with, LinksDirection, Node, NodeView};
use vstd::prelude::*;

verus! {

/// Node `from` holds a link tagged `direction` to the key of node `to`, and `to` is the
/// node that this key stands for.
pub open spec fn steps(nodes: Seq<NodeView>, direction: LinksDirection, from: int, to: int) -> bool {
    &&& 0 <= from < nodes.len()
    &&& 0 <= to < nodes.len()
    &&& has_link(nodes[from].links, nodes[to].key, direction)
    &&& place_of_key(nodes, nodes[to].key) == Some(to)
}

/// `path` lists the places of nodes, none twice, each linked to the next by a link tagged
/// `direction`.
pub open spec fn is_walk(nodes: Seq<NodeView>, direction: LinksDirection, path: Seq<int>) -> bool {
    &&& path.len() > 0
    &&& forall|i: int| 0 <= i < path.len() ==> 0 <= #[trigger] path[i] < nodes.len()
    &&& path.no_duplicates()
    &&& forall|i: int|
        #![trigger path[i]]
        0 <= i < path.len() - 1 ==> steps(nodes, direction, path[i], path[i + 1])
}

/// `cycle` is a walk whose last node links back to its first.
pub open spec fn is_cycle(nodes: Seq<NodeView>, direction: LinksDirection, cycle: Seq<int>) -> bool {
    is_walk(nodes, direction, cycle) && steps(nodes, direction, cycle.last(), cycle[0])
}

/// `path` begins with `start`.
pub open spec fn begins_with(path: Seq<int>, start: Seq<int>) -> bool {
    &&& start.len() <= path.len()
    &&& forall|i: int| 0 <= i < start.len() ==> path[i] == start[i]
}

/// The last node of `path` links back to `node`, which lies on the path: this closes a
/// cycle of at least `girth` nodes.
pub open spec fn closes(
    nodes: Seq<NodeView>,
    direction: LinksDirection,
    girth: int,
    path: Seq<int>,
    node: int,
) -> bool {
    &&& steps(nodes, direction, path.last(), node)
    &&& exists|j: int| 0 <= j < path.len() && j + girth <= path.len() && #[trigger] path[j] == node
}

/// Some walk that begins with `start` closes a cycle of at least `girth` nodes at `node`.
pub open spec fn closed_from(
    nodes: Seq<NodeView>,
    direction: LinksDirection,
    girth: int,
    start: Seq<int>,
    node: int,
) -> bool {
    exists|path: Seq<int>|
        #[trigger] is_walk(nodes, direction, path) && begins_with(path, start) && closes(
            nodes,
            direction,
            girth,
            path,
            node,
        )
}

/// Some walk that begins at one of `starts` closes a cycle of at least `girth` nodes at
/// `node`.
pub open spec fn closed_from_any(
    nodes: Seq<NodeView>,
    direction: LinksDirection,
    girth: int,
    starts: Seq<int>,
    node: int,
) -> bool {
    exists|s: int|
        0 <= s < starts.len() && closed_from(nodes, direction, girth, seq![#[trigger] starts[s]], node)
}

/// The places as integers.
pub open spec fn places(path: Seq<usize>) -> Seq<int> {
    path.map_values(|i: usize| i as int)
}

/// What following the link to `key` from the end of the walk `here` finds at `node`: a
/// cycle closed at once, where the key stands for a node of the walk, and else whatever
/// the longer walk closes.
pub open spec fn found_by(
    nodes: Seq<NodeView>,
    direction: LinksDirection,
    girth: int,
    here: Seq<int>,
    key: Seq<char>,
    node: int,
) -> bool {
    match place_of_key(nodes, key) {
        None => false,
        Some(next) => if here.contains(next) {
            next == node && here.index_of(next) + girth <= here.len()
        } else {
            closed_from(nodes, direction, girth, here.push(next), node)
        },
    }
}

/// What following the links to `keys` from the end of the walk `here` finds at `node`.
pub open spec fn found_among(
    nodes: Seq<NodeView>,
    direction: LinksDirection,
    girth: int,
    here: Seq<int>,
    keys: Seq<Seq<char>>,
    node: int,
) -> bool
    decreases keys.len(),
{
    if keys.len() == 0 {
        false
    } else {
        found_among(nodes, direction, girth, here, keys.drop_last(), node) || found_by(
            nodes,
            direction,
            girth,
            here,
            keys.last(),
            node,
        )
    }
}

/// Something is found among the keys exactly if it is found by one of them.
proof fn lemma_found_among(
    nodes: Seq<NodeView>,
    direction: LinksDirection,
    girth: int,
    here: Seq<int>,
    keys: Seq<Seq<char>>,
    node: int,
)
    ensures
        found_among(nodes, direction, girth, here, keys, node) <==> exists|k: int|
            0 <= k < keys.len() && found_by(nodes, direction, girth, here, #[trigger] keys[k], node),
    decreases keys.len(),
{
    if keys.len() > 0 {
        let front = keys.drop_last();
        lemma_found_among(nodes, direction, girth, here, front, node);
        if found_among(nodes, direction, girth, here, keys, node) {
            if found_among(nodes, direction, girth, here, front, node) {
                let k = choose|k: int|
                    0 <= k < front.len() && found_by(
                        nodes,
                        direction,
                        girth,
                        here,
                        #[trigger] front[k],
                        node,
                    );
                assert(keys[k] == front[k]);
            } else {
                assert(keys[keys.len() - 1] == keys.last());
            }
        }
        if exists|k: int|
            0 <= k < keys.len() && found_by(nodes, direction, girth, here, #[trigger] keys[k], node) {
            let k = choose|k: int|
                0 <= k < keys.len() && found_by(
                    nodes,
                    direction,
                    girth,
                    here,
                    #[trigger] keys[k],
                    node,
                );
            if k < front.len() {
                assert(front[k] == keys[k]);
            }
        }
    }
}

/// A walk is no longer than the graph has nodes.
pub proof fn lemma_walk_bounded(nodes: Seq<NodeView>, direction: LinksDirection, path: Seq<int>)
    requires
        is_walk(nodes, direction, path),
    ensures
        path.len() <= nodes.len(),
{
    let range = vstd::set_lib::set_int_range(0, nodes.len() as int);
    vstd::set_lib::lemma_int_range(0, nodes.len() as int);
    path.unique_seq_to_set();
    assert(path.to_set().subset_of(range)) by {
        assert forall|x: int| path.to_set().contains(x) implies range.contains(x) by {
            let i = choose|i: int| 0 <= i < path.len() && path[i] == x;
            assert(0 <= path[i] < nodes.len());
        }
    }
    vstd::set_lib::lemma_len_subset(path.to_set(), range);
}

/// A walk can go on to a node that it has not passed and that its last node links to.
proof fn lemma_walk_goes_on(nodes: Seq<NodeView>, direction: LinksDirection, path: Seq<int>, next: int)
    requires
        is_walk(nodes, direction, path),
        steps(nodes, direction, path.last(), next),
        !path.contains(next),
    ensures
        is_walk(nodes, direction, path.push(next)),
{
    let longer = path.push(next);
    assert forall|i: int| 0 <= i < longer.len() implies 0 <= #[trigger] longer[i] < nodes.len() by {
        if i < path.len() {
            assert(longer[i] == path[i]);
        }
    }
    assert forall|a: int, b: int| 0 <= a < longer.len() && 0 <= b < longer.len() && a != b implies longer[a]
        != longer[b] by {
        if a < path.len() && b < path.len() {
            assert(path[a] != path[b]);
        } else if a < path.len() {
            assert(path[a] != next);
        } else {
            assert(path[b] != next);
        }
    }
    assert forall|i: int| #![trigger longer[i]] 0 <= i < longer.len() - 1 implies steps(
        nodes,
        direction,
        longer[i],
        longer[i + 1],
    ) by {
        if i < path.len() - 1 {
            assert(longer[i] == path[i]);
            assert(longer[i + 1] == path[i + 1]);
        }
    }
}

/// What a walk closes, told by the links of its last node: a cycle is closed from `here`
/// exactly if following one of the links of the last node finds it.
proof fn lemma_closed_from_unfolds(
    nodes: Seq<NodeView>,
    direction: LinksDirection,
    girth: int,
    here: Seq<int>,
    node: int,
)
    requires
        is_walk(nodes, direction, here),
    ensures
        closed_from(nodes, direction, girth, here, node) <==> found_among(
            nodes,
            direction,
            girth,
            here,
            keys_with(nodes[here.last()].links, direction),
            node,
        ),
{
    let last = here.last();
    let keys = keys_with(nodes[last].links, direction);
    lemma_found_among(nodes, direction, girth, here, keys, node);
    if closed_from(nodes, direction, girth, here, node) {
        let path = choose|path: Seq<int>|
            #[trigger] is_walk(nodes, direction, path) && begins_with(path, here) && closes(
                nodes,
                direction,
                girth,
                path,
                node,
            );
        let next = if path.len() == here.len() {
            node
        } else {
            path[here.len() as int]
        };
        assert(steps(nodes, direction, last, next)) by {
            if path.len() == here.len() {
                assert(path.last() == here.last());
            } else {
                assert(path[here.len() - 1] == here[here.len() - 1]);
            }
        }
        crate::node::lemma_keys_with_has(nodes[last].links, direction, nodes[next].key);
        let k = choose|k: int| 0 <= k < keys.len() && keys[k] == nodes[next].key;
        assert(found_by(nodes, direction, girth, here, keys[k], node)) by {
            if path.len() == here.len() {
                assert(path =~= here);
                let j = choose|j: int|
                    0 <= j < path.len() && j + girth <= path.len() && #[trigger] path[j] == node;
                assert(here[j] == node);
                assert(here.contains(node));
                assert(here.index_of(node) == j);
            } else {
                if here.contains(next) {
                    let j = choose|j: int| 0 <= j < here.len() && here[j] == next;
                    assert(path[j] == next);
                }
                let longer = here.push(next);
                assert(begins_with(path, longer)) by {
                    assert forall|i: int| 0 <= i < longer.len() implies path[i] == longer[i] by {
                        if i < here.len() {
                            assert(path[i] == here[i]);
                        }
                    }
                }
            }
        }
    }
    if exists|k: int|
        0 <= k < keys.len() && found_by(nodes, direction, girth, here, #[trigger] keys[k], node) {
        let k = choose|k: int|
            0 <= k < keys.len() && found_by(nodes, direction, girth, here, #[trigger] keys[k], node);
        let next = place_of_key(nodes, keys[k]).unwrap();
        crate::graph::node_keys(nodes).index_of_first_ensures(keys[k]);
        assert(nodes[next].key == keys[k]);
        crate::node::lemma_keys_with_has(nodes[last].links, direction, keys[k]);
        assert(keys.contains(keys[k]));
        assert(steps(nodes, direction, last, next));
        if here.contains(next) {
            let j = here.index_of(next);
            assert(here[j] == node);
            assert(closes(nodes, direction, girth, here, node));
            assert(is_walk(nodes, direction, here) && begins_with(here, here));
        } else {
            let longer = here.push(next);
            let path = choose|path: Seq<int>|
                #[trigger] is_walk(nodes, direction, path) && begins_with(path, longer) && closes(
                    nodes,
                    direction,
                    girth,
                    path,
                    node,
                );
            assert(begins_with(path, here)) by {
                assert forall|i: int| 0 <= i < here.len() implies path[i] == here[i] by {
                    assert(longer[i] == here[i]);
                }
            }
        }
    }
}

/// Where `place` stands in `path`, if it does.
fn place_in(path: &Vec<usize>, place: usize) -> (found: Option<usize>)
    ensures
        match found {
            Some(j) => j < path.len() && path[j as int] == place,
            None => !places(path@).contains(place as int),
        },
{
    let mut j: usize = 0;
    while j < path.len()
        invariant
            j <= path.len(),
            forall|i: int| 0 <= i < j ==> path[i] != place,
        decreases path.len() - j,
    {
        if path[j] == place {
            return Some(j);
        }
        j += 1;
    }
    assert(!places(path@).contains(place as int)) by {
        if places(path@).contains(place as int) {
            let i = choose|i: int| 0 <= i < path.len() && places(path@)[i] == place as int;
            assert(path[i] != place);
        }
    }
    None
}

/// Follows every walk that begins with `path` and marks each node at which one of them
/// closes a cycle of at least `girth` nodes.
///
/// The walks follow the links tagged `direction`. A walk never passes a node twice, so
/// the calls nest no deeper than the graph has nodes.
pub fn recurse_check<GraphType, T: Clone>(
    nodes: &Vec<Node<GraphType, T>>,
    direction: LinksDirection,
    girth: usize,
    path: &mut Vec<usize>,
    marks: &mut Vec<bool>,
)
    requires
        is_walk(nodes.deep_view(), direction, places(old(path)@)),
        old(marks).len() == nodes.len(),
    ensures
        final(path)@ == old(path)@,
        final(marks).len() == nodes.len(),
        forall|m: int|
            0 <= m < nodes.len() ==> #[trigger] final(marks)[m] == (old(marks)[m] || closed_from(
                nodes.deep_view(),
                direction,
                girth as int,
                places(old(path)@),
                m,
            )),
    decreases nodes.len() - old(path).len(),
{
    let ghost views = nodes.deep_view();
    let ghost here = places(path@);
    let ghost marks_before = marks@;
    proof {
        lemma_walk_bounded(views, direction, here);
    }
    let last = path[path.len() - 1];
    assert(here.last() == last as int);
    let keys = keys_of_direction(&nodes[last].links, direction);
    let ghost all = keys.deep_view();
    assert(all.take(0) =~= Seq::<Seq<char>>::empty());
    let mut k: usize = 0;
    while k < keys.len()
        invariant
            k <= keys.len(),
            views == nodes.deep_view(),
            here == places(path@),
            path@ == old(path)@,
            marks.len() == nodes.len(),
            is_walk(views, direction, here),
            here.len() <= nodes.len(),
            here.last() == last as int,
            last < nodes.len(),
            all == keys.deep_view(),
            all == keys_with(views[last as int].links, direction),
            forall|m: int|
                0 <= m < nodes.len() ==> #[trigger] marks[m] == (marks_before[m] || found_among(
                    views,
                    direction,
                    girth as int,
                    here,
                    all.take(k as int),
                    m,
                )),
        decreases keys.len() - k,
    {
        let ghost marks_here = marks@;
        proof {
            assert(all.take(k + 1).drop_last() =~= all.take(k as int));
            assert(all.take(k + 1).last() == keys[k as int]@);
        }
        match find_node(nodes, &keys[k]) {
            None => {},
            Some(next) => {
                proof {
                    crate::node::lemma_keys_with_has(views[last as int].links, direction, keys[k as int]@);
                    assert(all[k as int] == keys[k as int]@);
                    assert(views[next as int].key == keys[k as int]@);
                    assert(steps(views, direction, last as int, next as int));
                }
                match place_in(path, next) {
                    Some(j) => {
                        proof {
                            assert(here[j as int] == next as int);
                            assert(here.contains(next as int));
                            assert(here.index_of(next as int) == j as int);
                        }
                        if path.len() - j >= girth {
                            marks[next] = true;
                        }
                    },
                    None => {
                        proof {
                            lemma_walk_goes_on(views, direction, here, next as int);
                            lemma_walk_bounded(views, direction, here.push(next as int));
                        }
                        path.push(next);
                        assert(places(path@) =~= here.push(next as int));
                        recurse_check(nodes, direction, girth, path, marks);
                        path.pop();
                        assert(path@ =~= old(path)@);
                    },
                }
            },
        }
        k += 1;
    }
    proof {
        assert(all.take(keys.len() as int) =~= all);
        assert forall|m: int| 0 <= m < nodes.len() implies #[trigger] marks[m] == (marks_before[m]
            || closed_from(views, direction, girth as int, here, m)) by {
            lemma_closed_from_unfolds(views, direction, girth as int, here, m);
        }
    }
}

/// Marks each node at which a walk that begins at one of `starts` closes a cycle of at
/// least `girth` nodes.
pub fn mark_cycles<GraphType, T: Clone>(
    nodes: &Vec<Node<GraphType, T>>,
    direction: LinksDirection,
    girth: usize,
    starts: &Vec<usize>,
) -> (marks: Vec<bool>)
    requires
        forall|s: int| 0 <= s < starts.len() ==> starts[s] < nodes.len(),
    ensures
        marks.len() == nodes.len(),
        forall|m: int|
            0 <= m < nodes.len() ==> #[trigger] marks[m] == closed_from_any(
                nodes.deep_view(),
                direction,
                girth as int,
                places(starts@),
                m,
            ),
{
    let ghost views = nodes.deep_view();
    let mut marks: Vec<bool> = Vec::new();
    let mut i: usize = 0;
    while i < nodes.len()
        invariant
            i <= nodes.len(),
            marks.len() == i,
            forall|m: int| 0 <= m < i ==> !(#[trigger] marks[m]),
        decreases nodes.len() - i,
    {
        marks.push(false);
        i += 1;
    }
    let mut path: Vec<usize> = Vec::new();
    let mut s: usize = 0;
    while s < starts.len()
        invariant
            s <= starts.len(),
            views == nodes.deep_view(),
            path.len() == 0,
            marks.len() == nodes.len(),
            forall|s: int| 0 <= s < starts.len() ==> starts[s] < nodes.len(),
            forall|m: int|
                0 <= m < nodes.len() ==> #[trigger] marks[m] == closed_from_any(
                    views,
                    direction,
                    girth as int,
                    places(starts@).take(s as int),
                    m,
                ),
        decreases starts.len() - s,
    {
        let ghost marks_here = marks@;
        path.push(starts[s]);
        assert(places(path@) =~= seq![starts[s as int] as int]);
        assert(is_walk(views, direction, places(path@)));
        recurse_check(nodes, direction, girth, &mut path, &mut marks);
        path.pop();
        proof {
            let before = places(starts@).take(s as int);
            let now = places(starts@).take(s + 1);
            assert forall|m: int| 0 <= m < nodes.len() implies #[trigger] marks[m] == closed_from_any(
                views,
                direction,
                girth as int,
                now,
                m,
            ) by {
                let here = seq![starts[s as int] as int];
                assert(now[s as int] == starts[s as int] as int);
                if closed_from_any(views, direction, girth as int, before, m) {
                    let t = choose|t: int|
                        0 <= t < before.len() && closed_from(
                            views,
                            direction,
                            girth as int,
                            seq![#[trigger] before[t]],
                            m,
                        );
                    assert(now[t] == before[t]);
                }
                if closed_from_any(views, direction, girth as int, now, m) {
                    let t = choose|t: int|
                        0 <= t < now.len() && closed_from(
                            views,
                            direction,
                            girth as int,
                            seq![#[trigger] now[t]],
                            m,
                        );
                    if t < s {
                        assert(before[t] == now[t]);
                    }
                }
            }
        }
        s += 1;
    }
    assert(places(starts@).take(starts.len() as int) =~= places(starts@));
    marks
}

} // verus!
