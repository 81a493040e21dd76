use crate::edge::{
    edge_count, lemma_weight_is_target, target_keys, targets_of, weight_of, EdgesView,
};
use crate::utils::frontier::{
    all_candidates, covered, followed, fruitless, grown, is_candidate, lemma_power_positive,
    lemma_total_grown, lemma_total_without, potential, reaches_all, searches, total, Path,
};
use crate::utils::route::{
    connects, is_prefix, is_route, lemma_prefix_weighs_less, lemma_route_begins,
    lemma_route_goes_on, lemma_route_length, route_weight,
};
use vstd::prelude::*;

verus! {

/// What a search from `origin` to `dest` owes.
///
/// Where it finds a path, the path is a route from `origin` to `dest` with the weight of
/// that route, and no route from `origin` to `dest` weighs less before its last edge than
/// the path does before its own. Where it finds none, there is no route.
pub open spec fn is_best_route(
    edges: EdgesView,
    origin: Seq<char>,
    dest: Seq<char>,
    found: Option<Path>,
) -> bool {
    match found {
        Some(path) => {
            &&& connects(edges, path@, origin, dest)
            &&& path.weight == route_weight(edges, path@)
            &&& forall|other: Seq<Seq<char>>| #[trigger]
                connects(edges, other, origin, dest) ==> route_weight(edges, path@.drop_last())
                    <= route_weight(edges, other.drop_last())
        },
        None => forall|other: Seq<Seq<char>>| !#[trigger] connects(edges, other, origin, dest),
    }
}

/// A route from `origin` to another key `dest` is, before its last edge, a route that the
/// search follows, and its last edge leads from there to `dest`.
pub proof fn lemma_before_last(
    edges: EdgesView,
    origin: Seq<char>,
    dest: Seq<char>,
    keys: Seq<Seq<char>>,
)
    requires
        connects(edges, keys, origin, dest),
        origin != dest,
    ensures
        searches(edges, origin, dest, keys.drop_last()),
        weight_of(edges, keys.drop_last().last(), dest) is Some,
{
    let front = keys.drop_last();
    assert(keys.len() >= 2);
    lemma_route_begins(edges, keys, keys.len() - 1);
    assert(keys.take(keys.len() - 1) =~= front);
    assert(!front.contains(dest)) by {
        if front.contains(dest) {
            let i = choose|i: int| 0 <= i < front.len() && front[i] == dest;
            assert(keys[i] == keys[keys.len() - 1]);
        }
    }
    assert(keys[keys.len() - 2] == front.last());
    assert(weight_of(edges, keys[keys.len() - 2], keys[keys.len() - 2 + 1]) is Some);
}

/// A route that the search follows goes on over an edge to a key other than `dest` that
/// it has not passed.
pub proof fn lemma_search_goes_on(
    edges: EdgesView,
    origin: Seq<char>,
    dest: Seq<char>,
    here: Seq<Seq<char>>,
    next: Seq<char>,
)
    requires
        searches(edges, origin, dest, here),
        weight_of(edges, here.last(), next) is Some,
        next != dest,
        !here.contains(next),
    ensures
        searches(edges, origin, dest, here.push(next)),
        route_weight(edges, here.push(next)) == route_weight(edges, here) + weight_of(
            edges,
            here.last(),
            next,
        ).unwrap(),
{
    lemma_route_goes_on(edges, here, next);
    let longer = here.push(next);
    assert(!longer.contains(dest)) by {
        if longer.contains(dest) {
            let i = choose|i: int| 0 <= i < longer.len() && longer[i] == dest;
            if i < here.len() {
                assert(here[i] == dest);
            }
        }
    }
    assert(longer.first() == here.first());
}

/// What the search knows of a path of its frontier.
pub proof fn lemma_candidate(edges: EdgesView, origin: Seq<char>, dest: Seq<char>, path: Path)
    requires
        is_candidate(edges, origin, dest, path),
    ensures
        searches(edges, origin, dest, path@),
        path.weight == route_weight(edges, path@),
        path@.len() > 0,
{
    reveal(is_candidate);
}

/// A path that is a route the search follows, with its weight, is fit for the frontier.
pub proof fn lemma_is_candidate(edges: EdgesView, origin: Seq<char>, dest: Seq<char>, path: Path)
    requires
        searches(edges, origin, dest, path@),
        path.weight == route_weight(edges, path@),
    ensures
        is_candidate(edges, origin, dest, path),
{
    reveal(is_candidate);
}

/// Before any target is followed nothing is owed.
pub proof fn lemma_follow_start(
    edges: EdgesView,
    origin: Seq<char>,
    dest: Seq<char>,
    here: Seq<Seq<char>>,
    targets: Seq<(Seq<char>, u64)>,
    frontier: Seq<Path>,
)
    ensures
        followed(here, dest, targets, 0, frontier.len() as int, frontier),
        grown(edges, origin, dest, here, frontier.len() as int, frontier),
{
    reveal(is_candidate);
    reveal(followed);
    reveal(grown);
}

/// A target that `here` has passed is followed without a new path.
pub proof fn lemma_follow_skip(
    here: Seq<Seq<char>>,
    dest: Seq<char>,
    targets: Seq<(Seq<char>, u64)>,
    k: int,
    n: int,
    frontier: Seq<Path>,
)
    requires
        followed(here, dest, targets, k, n, frontier),
        0 <= k < targets.len(),
        targets[k].0 != dest,
        here.contains(targets[k].0),
    ensures
        followed(here, dest, targets, k + 1, n, frontier),
{
    reveal(followed);
}

/// A target that `here` has not passed is followed by the path that goes on to it.
pub proof fn lemma_follow_push(
    edges: EdgesView,
    origin: Seq<char>,
    dest: Seq<char>,
    here: Seq<Seq<char>>,
    targets: Seq<(Seq<char>, u64)>,
    k: int,
    n: int,
    frontier: Seq<Path>,
    path: Path,
)
    requires
        followed(here, dest, targets, k, n, frontier),
        grown(edges, origin, dest, here, n, frontier),
        0 <= k < targets.len(),
        0 <= n <= frontier.len(),
        targets[k].0 != dest,
        is_candidate(edges, origin, dest, path),
        path@ == here.push(targets[k].0),
    ensures
        followed(here, dest, targets, k + 1, n, frontier.push(path)),
        grown(edges, origin, dest, here, n, frontier.push(path)),
        frontier.push(path).take(n) == frontier.take(n),
{
    reveal(is_candidate);
    reveal(followed);
    reveal(grown);
    let longer = frontier.push(path);
    assert(longer.take(n) =~= frontier.take(n));
    assert forall|i: int| 0 <= i < k + 1 implies (#[trigger] targets[i]).0 != dest && (
    here.contains(targets[i].0) || exists|j: int|
        n <= j < longer.len() && (#[trigger] longer[j])@ == here.push(targets[i].0)) by {
        if i < k {
            if !here.contains(targets[i].0) {
                let j = choose|j: int|
                    n <= j < frontier.len() && (#[trigger] frontier[j])@ == here.push(
                        targets[i].0,
                    );
                assert(longer[j] == frontier[j]);
            }
        } else {
            assert(longer[longer.len() - 1]@ == here.push(targets[k].0));
        }
    }
    assert forall|j: int| n <= j < longer.len() implies is_candidate(
        edges,
        origin,
        dest,
        #[trigger] longer[j],
    ) && longer[j]@.len() == here.len() + 1 by {
        if j < frontier.len() {
            assert(longer[j] == frontier[j]);
        }
    }
}

/// When all the targets of the end of `here` are followed, none of them is `dest`, and
/// every edge that the search may follow from there has its path.
pub proof fn lemma_follow_done(
    edges: EdgesView,
    here: Seq<Seq<char>>,
    dest: Seq<char>,
    n: int,
    frontier: Seq<Path>,
)
    requires
        followed(
            here,
            dest,
            targets_of(edges, here.last()),
            targets_of(edges, here.last()).len() as int,
            n,
            frontier,
        ),
    ensures
        weight_of(edges, here.last(), dest) is None,
        reaches_all(edges, here, dest, n, frontier),
{
    reveal(followed);
    reveal(reaches_all);
    let targets = targets_of(edges, here.last());
    let keys = target_keys(targets);
    assert(!keys.contains(dest)) by {
        if keys.contains(dest) {
            let i = choose|i: int| 0 <= i < keys.len() && keys[i] == dest;
            assert(targets[i].0 == dest);
        }
    }
    keys.index_of_first_ensures(dest);
    assert forall|next: Seq<char>|
        (#[trigger] weight_of(edges, here.last(), next)) is Some && next != dest && !here.contains(
            next,
        ) implies exists|j: int|
        n <= j < frontier.len() && (#[trigger] frontier[j])@ == here.push(next) by {
        lemma_weight_is_target(edges, here.last(), next);
        let i = choose|i: int| 0 <= i < keys.len() && keys[i] == next;
        assert(targets[i].0 == next);
    }
}

/// The search starts well with the path of the origin alone.
pub proof fn lemma_search_starts(edges: EdgesView, origin: Seq<char>, dest: Seq<char>, first: Path)
    requires
        first@ == seq![origin],
        first.weight == 0,
        origin != dest,
    ensures
        all_candidates(edges, origin, dest, seq![first]),
        covered(edges, origin, dest, Set::empty(), seq![first]),
        fruitless(edges, dest, Set::empty()),
{
    reveal(is_candidate);
    reveal(all_candidates);
    reveal(covered);
    reveal(fruitless);
    let frontier = seq![first];
    assert(!first@.contains(dest)) by {
        if first@.contains(dest) {
            let i = choose|i: int| 0 <= i < first@.len() && first@[i] == dest;
        }
    }
    assert(is_route(edges, first@));
    assert forall|keys: Seq<Seq<char>>| #[trigger]
        searches(edges, origin, dest, keys) implies exists|i: int|
        0 <= i < frontier.len() && is_prefix((#[trigger] frontier[i])@, keys) by {
        assert(is_prefix(frontier[0]@, keys));
    }
}

/// The path over the first edge to `dest` from the lightest path of the frontier is the
/// best route in the sense of `is_best_route`.
pub proof fn lemma_found_is_best(
    edges: EdgesView,
    origin: Seq<char>,
    dest: Seq<char>,
    expanded: Set<Seq<Seq<char>>>,
    frontier: Seq<Path>,
    place: int,
    path: Path,
)
    requires
        origin != dest,
        all_candidates(edges, origin, dest, frontier),
        covered(edges, origin, dest, expanded, frontier),
        fruitless(edges, dest, expanded),
        0 <= place < frontier.len(),
        forall|i: int|
            0 <= i < frontier.len() ==> frontier[place].weight <= (#[trigger] frontier[i]).weight,
        path@ == frontier[place]@.push(dest),
        is_route(edges, path@),
        path.weight == route_weight(edges, path@),
    ensures
        is_best_route(edges, origin, dest, Some(path)),
{
    reveal(is_candidate);
    reveal(all_candidates);
    reveal(covered);
    reveal(fruitless);
    let here = frontier[place]@;
    assert(is_candidate(edges, origin, dest, frontier[place]));
    assert(path@.drop_last() =~= here);
    assert(path@.first() == here.first());
    assert forall|other: Seq<Seq<char>>| #[trigger]
        connects(edges, other, origin, dest) implies route_weight(edges, path@.drop_last())
        <= route_weight(edges, other.drop_last()) by {
        let front = other.drop_last();
        lemma_before_last(edges, origin, dest, other);
        assert(!expanded.contains(front));
        let i = choose|i: int|
            0 <= i < frontier.len() && is_prefix((#[trigger] frontier[i])@, front);
        assert(is_candidate(edges, origin, dest, frontier[i]));
        lemma_prefix_weighs_less(edges, frontier[i]@, front);
    }
}

/// After the path at `place` was taken out of the frontier and expanded without an edge
/// to `dest`, the search goes on well with the paths that are left and those that grew.
pub proof fn lemma_search_goes_well(
    edges: EdgesView,
    origin: Seq<char>,
    dest: Seq<char>,
    expanded: Set<Seq<Seq<char>>>,
    before: Seq<Path>,
    place: int,
    after: Seq<Path>,
)
    requires
        all_candidates(edges, origin, dest, before),
        covered(edges, origin, dest, expanded, before),
        fruitless(edges, dest, expanded),
        0 <= place < before.len(),
        before.len() - 1 <= after.len(),
        after.take(before.len() - 1) == before.update(place, before.last()).drop_last(),
        grown(edges, origin, dest, before[place]@, before.len() - 1, after),
        reaches_all(edges, before[place]@, dest, before.len() - 1, after),
        weight_of(edges, before[place]@.last(), dest) is None,
    ensures
        all_candidates(edges, origin, dest, after),
        covered(edges, origin, dest, expanded.insert(before[place]@), after),
        fruitless(edges, dest, expanded.insert(before[place]@)),
{
    reveal(is_candidate);
    reveal(all_candidates);
    reveal(covered);
    reveal(fruitless);
    reveal(grown);
    reveal(reaches_all);
    let here = before[place]@;
    let rest = before.update(place, before.last()).drop_last();
    let now = expanded.insert(here);
    assert forall|i: int| 0 <= i < after.len() implies is_candidate(
        edges,
        origin,
        dest,
        #[trigger] after[i],
    ) by {
        if i < rest.len() {
            assert(after[i] == after.take(rest.len() as int)[i]);
            if i == place {
                assert(rest[i] == before.last());
            } else {
                assert(rest[i] == before[i]);
            }
        }
    }
    assert(is_candidate(edges, origin, dest, before[place]));
    assert forall|keys: Seq<Seq<char>>| #[trigger]
        searches(edges, origin, dest, keys) implies now.contains(keys) || exists|i: int|
        0 <= i < after.len() && is_prefix((#[trigger] after[i])@, keys) by {
        if !expanded.contains(keys) {
            let i = choose|i: int|
                0 <= i < before.len() && is_prefix((#[trigger] before[i])@, keys);
            if i != place {
                let j = if i == before.len() - 1 {
                    place
                } else {
                    i
                };
                assert(rest[j] == before[i]);
                assert(after[j] == after.take(rest.len() as int)[j]);
                assert(is_prefix(after[j]@, keys));
            } else if keys.len() == here.len() {
                assert(keys =~= here);
            } else {
                let next = keys[here.len() as int];
                assert(keys[here.len() - 1] == here.last());
                assert(weight_of(edges, keys[here.len() - 1], keys[here.len() - 1 + 1]) is Some);
                assert(next != dest) by {
                    if next == dest {
                        assert(keys.contains(dest));
                    }
                }
                assert(!here.contains(next)) by {
                    if here.contains(next) {
                        let a = choose|a: int| 0 <= a < here.len() && here[a] == next;
                        assert(keys[a] == next);
                    }
                }
                let j = choose|j: int|
                    rest.len() <= j < after.len() && (#[trigger] after[j])@ == here.push(next);
                assert(is_prefix(after[j]@, keys));
            }
        }
    }
    assert forall|keys: Seq<Seq<char>>| #[trigger]
        now.contains(keys) implies weight_of(edges, keys.last(), dest) is None by {
        if !expanded.contains(keys) {
            assert(keys == here);
        }
    }
}

/// Expanding a path brings the search nearer to its end: the paths that grow out of it
/// count for less together than the path did.
pub proof fn lemma_search_advances(
    edges: EdgesView,
    origin: Seq<char>,
    dest: Seq<char>,
    before: Seq<Path>,
    place: int,
    after: Seq<Path>,
)
    requires
        all_candidates(edges, origin, dest, before),
        0 <= place < before.len(),
        before.len() - 1 <= after.len(),
        after.len() - (before.len() - 1) <= edge_count(edges),
        after.take(before.len() - 1) == before.update(place, before.last()).drop_last(),
        grown(edges, origin, dest, before[place]@, before.len() - 1, after),
    ensures
        total(edge_count(edges) + 1, edge_count(edges) + 2, after) < total(
            edge_count(edges) + 1,
            edge_count(edges) + 2,
            before,
        ),
{
    reveal(is_candidate);
    reveal(all_candidates);
    reveal(grown);
    let base = edge_count(edges) + 1;
    let top = edge_count(edges) + 2;
    let here = before[place]@;
    assert(is_candidate(edges, origin, dest, before[place]));
    lemma_route_length(edges, here);
    lemma_total_without(base, top, before, place);
    lemma_total_grown(base, top, after, before.len() - 1, here.len() + 1);
    let each = potential(base, top, here.len() + 1);
    let more = after.len() - (before.len() - 1);
    lemma_power_positive(base, (top - here.len() - 1) as nat);
    assert(potential(base, top, here.len()) == base * each);
    assert(more * each < base * each) by (nonlinear_arith)
        requires
            0 <= more < base,
            each >= 1,
    ;
}

/// When no path is left to follow, there is no route.
pub proof fn lemma_none_left(
    edges: EdgesView,
    origin: Seq<char>,
    dest: Seq<char>,
    expanded: Set<Seq<Seq<char>>>,
)
    requires
        origin != dest,
        covered(edges, origin, dest, expanded, Seq::empty()),
        fruitless(edges, dest, expanded),
    ensures
        is_best_route(edges, origin, dest, None),
{
    reveal(covered);
    reveal(fruitless);
    assert forall|other: Seq<Seq<char>>| !#[trigger] connects(edges, other, origin, dest) by {
        if connects(edges, other, origin, dest) {
            lemma_before_last(edges, origin, dest, other);
            assert(expanded.contains(other.drop_last()));
        }
    }
}

} // verus!
