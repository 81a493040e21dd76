use crate::edge::{
    all_targets, edge_count, lemma_weight_is_target, weight_of, EdgesView,
};
use vstd::prelude::*;

verus! {

/// `keys` name one node after another, none twice, and the index holds an edge from each
/// to the next.
pub open spec fn is_route(edges: EdgesView, keys: Seq<Seq<char>>) -> bool {
    &&& keys.len() > 0
    &&& keys.no_duplicates()
    &&& forall|i: int|
        #![trigger keys[i]]
        0 <= i < keys.len() - 1 ==> weight_of(edges, keys[i], keys[i + 1]) is Some
}

/// `keys` is a route from `origin` to `dest`.
pub open spec fn connects(
    edges: EdgesView,
    keys: Seq<Seq<char>>,
    origin: Seq<char>,
    dest: Seq<char>,
) -> bool {
    is_route(edges, keys) && keys.first() == origin && keys.last() == dest
}

/// The sum of the weights of the edges from each key to the next.
pub open spec fn route_weight(edges: EdgesView, keys: Seq<Seq<char>>) -> nat
    decreases keys.len(),
{
    if keys.len() <= 1 {
        0
    } else {
        route_weight(edges, keys.drop_last()) + (match weight_of(
            edges,
            keys[keys.len() - 2],
            keys.last(),
        ) {
            Some(weight) => weight as nat,
            None => 0,
        })
    }
}

/// `short` is the beginning of `long`.
pub open spec fn is_prefix(short: Seq<Seq<char>>, long: Seq<Seq<char>>) -> bool {
    &&& short.len() <= long.len()
    &&& forall|i: int| 0 <= i < short.len() ==> short[i] == long[i]
}

/// A route goes on over an edge to a key that it has not passed, and weighs that edge
/// more.
pub proof fn lemma_route_goes_on(edges: EdgesView, keys: Seq<Seq<char>>, next: Seq<char>)
    requires
        is_route(edges, keys),
        weight_of(edges, keys.last(), next) is Some,
        !keys.contains(next),
    ensures
        is_route(edges, keys.push(next)),
        route_weight(edges, keys.push(next)) == route_weight(edges, keys) + weight_of(
            edges,
            keys.last(),
            next,
        ).unwrap(),
{
    let longer = keys.push(next);
    assert forall|a: int, b: int| 0 <= a < longer.len() && 0 <= b < longer.len() && a != b implies longer[a]
        != longer[b] by {
        if a < keys.len() && b < keys.len() {
            assert(keys[a] != keys[b]);
        } else if a < keys.len() {
            assert(keys[a] != next);
        } else {
            assert(keys[b] != next);
        }
    }
    assert forall|i: int| #![trigger longer[i]] 0 <= i < longer.len() - 1 implies weight_of(
        edges,
        longer[i],
        longer[i + 1],
    ) is Some by {
        if i < keys.len() - 1 {
            assert(longer[i] == keys[i]);
            assert(longer[i + 1] == keys[i + 1]);
        }
    }
    assert(longer.drop_last() =~= keys);
}

/// The beginning of a route is a route.
pub proof fn lemma_route_begins(edges: EdgesView, keys: Seq<Seq<char>>, n: int)
    requires
        is_route(edges, keys),
        1 <= n <= keys.len(),
    ensures
        is_route(edges, keys.take(n)),
        is_prefix(keys.take(n), keys),
{
    let front = keys.take(n);
    assert forall|a: int, b: int| 0 <= a < front.len() && 0 <= b < front.len() && a != b implies front[a]
        != front[b] by {
        assert(keys[a] != keys[b]);
    }
    assert forall|i: int| #![trigger front[i]] 0 <= i < front.len() - 1 implies weight_of(
        edges,
        front[i],
        front[i + 1],
    ) is Some by {
        assert(front[i] == keys[i]);
        assert(front[i + 1] == keys[i + 1]);
    }
}

/// The beginning of a sequence of keys weighs no more than the whole.
pub proof fn lemma_prefix_weighs_less(edges: EdgesView, short: Seq<Seq<char>>, long: Seq<Seq<char>>)
    requires
        is_prefix(short, long),
    ensures
        route_weight(edges, short) <= route_weight(edges, long),
    decreases long.len(),
{
    if short.len() == long.len() {
        assert(short =~= long);
    } else if long.len() > 1 {
        lemma_prefix_weighs_less(edges, short, long.drop_last());
    }
}

/// A route of `n` keys weighs at most `n - 1` times the largest weight.
pub proof fn lemma_route_weight_bound(edges: EdgesView, keys: Seq<Seq<char>>)
    requires
        keys.len() > 0,
    ensures
        route_weight(edges, keys) <= (keys.len() - 1) * 0xffff_ffff_ffff_ffff,
    decreases keys.len(),
{
    if keys.len() > 1 {
        lemma_route_weight_bound(edges, keys.drop_last());
    }
}

/// Keys that are distinct and all among `pool` are no more than `pool` holds.
pub proof fn lemma_distinct_among(keys: Seq<Seq<char>>, pool: Seq<Seq<char>>)
    requires
        keys.no_duplicates(),
        forall|i: int| 0 <= i < keys.len() ==> pool.contains(#[trigger] keys[i]),
    ensures
        keys.len() <= pool.len(),
{
    keys.unique_seq_to_set();
    pool.lemma_cardinality_of_set();
    vstd::seq_lib::seq_to_set_is_finite(pool);
    assert(keys.to_set().subset_of(pool.to_set())) by {
        assert forall|x: Seq<char>| keys.to_set().contains(x) implies pool.to_set().contains(x) by {
            let i = choose|i: int| 0 <= i < keys.len() && keys[i] == x;
            assert(pool.contains(keys[i]));
        }
    }
    vstd::set_lib::lemma_len_subset(keys.to_set(), pool.to_set());
}

/// A route has at most one key more than the index has edges.
pub proof fn lemma_route_length(edges: EdgesView, keys: Seq<Seq<char>>)
    requires
        is_route(edges, keys),
    ensures
        keys.len() <= edge_count(edges) + 1,
{
    let rest = keys.drop_first();
    let pool = all_targets(edges);
    crate::edge::lemma_all_targets(edges);
    assert forall|a: int, b: int| 0 <= a < rest.len() && 0 <= b < rest.len() && a != b implies rest[a]
        != rest[b] by {
        assert(keys[a + 1] != keys[b + 1]);
    }
    assert forall|i: int| 0 <= i < rest.len() implies pool.contains(#[trigger] rest[i]) by {
        assert(rest[i] == keys[i + 1]);
        assert(weight_of(edges, keys[i], keys[i + 1]) is Some);
        lemma_weight_is_target(edges, keys[i], keys[i + 1]);
    }
    lemma_distinct_among(rest, pool);
}

} // verus!
