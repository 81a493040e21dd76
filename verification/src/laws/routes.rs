use crate::edge::{weight_of, EdgesView};
use crate::utils::frontier::Path;
use crate::utils::route::{connects, is_prefix, is_route, lemma_prefix_weighs_less, route_weight};
use crate::utils::search::is_best_route;
use vstd::prelude::*;

verus! {

/// `keys` name one node after another, and the index holds an edge from each to the
/// next. A key may come more than once.
pub open spec fn is_chain(edges: EdgesView, keys: Seq<Seq<char>>) -> bool {
    &&& keys.len() > 0
    &&& forall|i: int|
        #![trigger keys[i]]
        0 <= i < keys.len() - 1 ==> weight_of(edges, keys[i], keys[i + 1]) is Some
}

/// A sequence of keys weighs what it weighs up to a key and from that key on.
proof fn lemma_weight_splits(edges: EdgesView, keys: Seq<Seq<char>>, k: int)
    requires
        0 <= k < keys.len(),
    ensures
        route_weight(edges, keys) == route_weight(edges, keys.take(k + 1)) + route_weight(
            edges,
            keys.skip(k),
        ),
    decreases keys.len(),
{
    if k == keys.len() - 1 {
        assert(keys.take(k + 1) =~= keys);
        assert(keys.skip(k).len() == 1);
    } else {
        let front = keys.drop_last();
        lemma_weight_splits(edges, front, k);
        assert(front.take(k + 1) =~= keys.take(k + 1));
        assert(front.skip(k) =~= keys.skip(k).drop_last());
        let rest = keys.skip(k);
        assert(rest.last() == keys.last());
        assert(rest[rest.len() - 2] == keys[keys.len() - 2]);
    }
}

/// The keys without the round from place `i` to place `j`, where the same key stands.
pub open spec fn without_round(keys: Seq<Seq<char>>, i: int, j: int) -> Seq<Seq<char>> {
    keys.take(i) + keys.skip(j)
}

/// A chain that comes back to a key is a chain without that round too, with the same
/// ends and no more weight.
proof fn lemma_without_round(edges: EdgesView, keys: Seq<Seq<char>>, i: int, j: int)
    requires
        is_chain(edges, keys),
        0 <= i < j < keys.len(),
        keys[i] == keys[j],
    ensures
        is_chain(edges, without_round(keys, i, j)),
        without_round(keys, i, j).len() < keys.len(),
        without_round(keys, i, j).first() == keys.first(),
        without_round(keys, i, j).last() == keys.last(),
        route_weight(edges, without_round(keys, i, j)) <= route_weight(edges, keys),
{
    let cut = without_round(keys, i, j);
    assert forall|k: int| 0 <= k < cut.len() implies #[trigger] cut[k] == (if k < i {
        keys[k]
    } else {
        keys[k + (j - i)]
    }) by {}
    assert forall|k: int| #![trigger cut[k]] 0 <= k < cut.len() - 1 implies weight_of(
        edges,
        cut[k],
        cut[k + 1],
    ) is Some by {
        if k < i {
            assert(weight_of(edges, keys[k], keys[k + 1]) is Some);
        } else {
            assert(weight_of(edges, keys[k + (j - i)], keys[k + (j - i) + 1]) is Some);
        }
    }
    lemma_weight_splits(edges, keys, i);
    lemma_weight_splits(edges, keys.skip(i), j - i);
    lemma_weight_splits(edges, cut, i);
    assert(cut.take(i + 1) =~= keys.take(i + 1));
    assert(cut.skip(i) =~= keys.skip(j));
    assert(keys.skip(i).skip(j - i) =~= keys.skip(j));
}

/// A chain holds a route between its ends: one that passes no key twice, weighs no
/// more, and weighs no more before its last edge.
pub proof fn lemma_chain_holds_route(edges: EdgesView, keys: Seq<Seq<char>>) -> (route: Seq<
    Seq<char>,
>)
    requires
        is_chain(edges, keys),
    ensures
        is_route(edges, route),
        route.first() == keys.first(),
        route.last() == keys.last(),
        route_weight(edges, route) <= route_weight(edges, keys),
        route_weight(edges, route.drop_last()) <= route_weight(edges, keys.drop_last()),
    decreases keys.len(),
{
    if keys.no_duplicates() {
        keys
    } else {
        let (a, b) = choose|a: int, b: int|
            0 <= a < keys.len() && 0 <= b < keys.len() && a != b && keys[a] == keys[b];
        let i = if a < b {
            a
        } else {
            b
        };
        let j = if a < b {
            b
        } else {
            a
        };
        let cut = without_round(keys, i, j);
        lemma_without_round(edges, keys, i, j);
        let route = lemma_chain_holds_route(edges, cut);
        assert(route_weight(edges, cut.drop_last()) <= route_weight(edges, keys.drop_last())) by {
            let front = keys.drop_last();
            if j < keys.len() - 1 {
                assert(is_chain(edges, front)) by {
                    assert forall|k: int| #![trigger front[k]] 0 <= k < front.len() - 1 implies weight_of(
                        edges,
                        front[k],
                        front[k + 1],
                    ) is Some by {
                        assert(weight_of(edges, keys[k], keys[k + 1]) is Some);
                    }
                }
                lemma_without_round(edges, front, i, j);
                assert(without_round(front, i, j) =~= cut.drop_last());
            } else {
                assert(cut.drop_last() =~= keys.take(i));
                assert(is_prefix(keys.take(i), front));
                lemma_prefix_weighs_less(edges, keys.take(i), front);
            }
        }
        route
    }
}

/// Where a search finds no path, no chain of edges leads from the origin to the
/// destination, whatever keys it passes and however often.
pub proof fn lemma_nothing_found_is_out_of_reach(
    edges: EdgesView,
    origin: Seq<char>,
    dest: Seq<char>,
    keys: Seq<Seq<char>>,
)
    requires
        is_best_route(edges, origin, dest, None),
        keys.len() > 0,
        keys.first() == origin,
        keys.last() == dest,
    ensures
        !is_chain(edges, keys),
{
    if is_chain(edges, keys) {
        let route = lemma_chain_holds_route(edges, keys);
        assert(connects(edges, route, origin, dest));
    }
}

/// Where a search finds a path, no chain of edges from the origin to the destination
/// weighs less before its last edge than the path does before its own.
pub proof fn lemma_found_is_lightest(
    edges: EdgesView,
    origin: Seq<char>,
    dest: Seq<char>,
    path: Path,
    keys: Seq<Seq<char>>,
)
    requires
        is_best_route(edges, origin, dest, Some(path)),
        is_chain(edges, keys),
        keys.first() == origin,
        keys.last() == dest,
    ensures
        route_weight(edges, path@.drop_last()) <= route_weight(edges, keys.drop_last()),
{
    let route = lemma_chain_holds_route(edges, keys);
    assert(connects(edges, route, origin, dest));
}

} // verus!
