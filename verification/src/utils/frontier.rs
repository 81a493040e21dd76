use crate::edge::{weight_of, EdgesView};
use crate::utils::route::{is_prefix, is_route, route_weight};
use vstd::prelude::*;

verus! {

/// Struct describing the smalest path returned by dijkstra: the keys of the nodes from
/// the origin to the destination, and the sum of the weights of the edges between them.
#[derive(Debug)]
pub struct Path {
    pub nodes: Vec<String>,
    pub weight: u128,
}

impl View for Path {
    type V = Seq<Seq<char>>;

    open spec fn view(&self) -> Seq<Seq<char>> {
        self.nodes.deep_view()
    }
}

/// A copy of `keys`.
pub fn copy_keys(keys: &Vec<String>) -> (copy: Vec<String>)
    ensures
        copy.deep_view() == keys.deep_view(),
{
    let mut copy: Vec<String> = Vec::new();
    let mut i: usize = 0;
    while i < keys.len()
        invariant
            i <= keys.len(),
            copy.len() == i,
            forall|j: int| 0 <= j < i ==> (#[trigger] copy[j])@ == keys[j]@,
        decreases keys.len() - i,
    {
        copy.push(keys[i].clone());
        i += 1;
    }
    assert(copy.deep_view() =~= keys.deep_view());
    copy
}

/// Whether `key` is one of `keys`.
pub fn holds_key(keys: &Vec<String>, key: &String) -> (found: bool)
    ensures
        found == keys.deep_view().contains(key@),
{
    let mut i: usize = 0;
    while i < keys.len()
        invariant
            i <= keys.len(),
            forall|j: int| 0 <= j < i ==> #[trigger] keys.deep_view()[j] != key@,
        decreases keys.len() - i,
    {
        if keys[i] == *key {
            assert(keys.deep_view()[i as int] == key@);
            return true;
        }
        assert(keys.deep_view()[i as int] != key@);
        i += 1;
    }
    false
}

impl Clone for Path {
    /// A path with the same keys and the same weight.
    fn clone(&self) -> (copy: Self)
        ensures
            copy@ == self@,
            copy.weight == self.weight,
    {
        Path { nodes: copy_keys(&self.nodes), weight: self.weight }
    }
}

impl Path {
    /// The path that goes on from this one to `key`, over an edge that weighs `weight`.
    pub fn new_path_with(&self, key: &String, weight: u64) -> (longer: Path)
        requires
            self.weight + weight <= u128::MAX,
        ensures
            longer@ == self@.push(key@),
            longer.weight == self.weight + weight,
    {
        let mut nodes = copy_keys(&self.nodes);
        nodes.push(key.clone());
        assert(nodes.deep_view() =~= self@.push(key@));
        Path { nodes, weight: self.weight + (weight as u128) }
    }
}

/// `keys` is a route from `origin` that does not pass `dest`: what the search follows.
pub open spec fn searches(
    edges: EdgesView,
    origin: Seq<char>,
    dest: Seq<char>,
    keys: Seq<Seq<char>>,
) -> bool {
    is_route(edges, keys) && keys.first() == origin && !keys.contains(dest)
}

/// `path` is a route that the search follows, with the weight of that route.
#[verifier::opaque]
pub open spec fn is_candidate(edges: EdgesView, origin: Seq<char>, dest: Seq<char>, path: Path) -> bool {
    searches(edges, origin, dest, path@) && path.weight == route_weight(edges, path@)
}

/// Every path of the frontier is a route that the search follows, with its weight.
#[verifier::opaque]
pub open spec fn all_candidates(
    edges: EdgesView,
    origin: Seq<char>,
    dest: Seq<char>,
    frontier: Seq<Path>,
) -> bool {
    forall|i: int|
        0 <= i < frontier.len() ==> is_candidate(edges, origin, dest, #[trigger] frontier[i])
}

/// Every route that the search follows has been expanded, or begins with a path of the
/// frontier.
#[verifier::opaque]
pub open spec fn covered(
    edges: EdgesView,
    origin: Seq<char>,
    dest: Seq<char>,
    expanded: Set<Seq<Seq<char>>>,
    frontier: Seq<Path>,
) -> bool {
    forall|keys: Seq<Seq<char>>| #[trigger]
        searches(edges, origin, dest, keys) ==> expanded.contains(keys) || exists|i: int|
            0 <= i < frontier.len() && is_prefix((#[trigger] frontier[i])@, keys)
}

/// No expanded route has an edge to `dest`.
#[verifier::opaque]
pub open spec fn fruitless(edges: EdgesView, dest: Seq<char>, expanded: Set<Seq<Seq<char>>>) -> bool {
    forall|keys: Seq<Seq<char>>| #[trigger]
        expanded.contains(keys) ==> weight_of(edges, keys.last(), dest) is None
}

/// The paths behind the first `n` are routes that the search follows, each one key
/// longer than `here`.
#[verifier::opaque]
pub open spec fn grown(
    edges: EdgesView,
    origin: Seq<char>,
    dest: Seq<char>,
    here: Seq<Seq<char>>,
    n: int,
    frontier: Seq<Path>,
) -> bool {
    forall|j: int|
        n <= j < frontier.len() ==> is_candidate(edges, origin, dest, #[trigger] frontier[j])
            && frontier[j]@.len() == here.len() + 1
}

/// None of the first `k` targets is `dest`, and for each of them that `here` has not
/// passed, the path that goes on to it stands behind the first `n` paths.
#[verifier::opaque]
pub open spec fn followed(
    here: Seq<Seq<char>>,
    dest: Seq<char>,
    targets: Seq<(Seq<char>, u64)>,
    k: int,
    n: int,
    frontier: Seq<Path>,
) -> bool {
    forall|i: int|
        0 <= i < k ==> (#[trigger] targets[i]).0 != dest && (here.contains(targets[i].0)
            || exists|j: int|
            n <= j < frontier.len() && (#[trigger] frontier[j])@ == here.push(targets[i].0))
}

/// For each edge from the end of `here` to a key other than `dest` that `here` has not
/// passed, the path that goes on over it stands behind the first `n` paths.
#[verifier::opaque]
pub open spec fn reaches_all(
    edges: EdgesView,
    here: Seq<Seq<char>>,
    dest: Seq<char>,
    n: int,
    frontier: Seq<Path>,
) -> bool {
    forall|next: Seq<char>|
        (#[trigger] weight_of(edges, here.last(), next)) is Some && next != dest && !here.contains(
            next,
        ) ==> exists|j: int|
            n <= j < frontier.len() && (#[trigger] frontier[j])@ == here.push(next)
}

/// `base` to the power of `exponent`.
pub open spec fn power(base: nat, exponent: nat) -> nat
    decreases exponent,
{
    if exponent == 0 {
        1
    } else {
        base * power(base, (exponent - 1) as nat)
    }
}

/// What a path of `length` keys still counts for, where no path has more than `top - 1`
/// keys: more than all the paths together that can grow out of it.
pub open spec fn potential(base: nat, top: nat, length: nat) -> nat {
    power(base, (top - length) as nat)
}

/// What the paths of a frontier count for together.
pub open spec fn total(base: nat, top: nat, frontier: Seq<Path>) -> nat
    decreases frontier.len(),
{
    if frontier.len() == 0 {
        0
    } else {
        total(base, top, frontier.drop_last()) + potential(base, top, frontier.last()@.len())
    }
}

/// A power of a positive base is positive.
pub proof fn lemma_power_positive(base: nat, exponent: nat)
    requires
        base >= 1,
    ensures
        power(base, exponent) >= 1,
    decreases exponent,
{
    if exponent > 0 {
        lemma_power_positive(base, (exponent - 1) as nat);
        let rest = power(base, (exponent - 1) as nat);
        assert(base * rest >= 1) by (nonlinear_arith)
            requires
                base >= 1,
                rest >= 1,
        ;
    }
}

/// Putting another path in a place changes the total by what the two paths count for.
pub proof fn lemma_total_update(base: nat, top: nat, frontier: Seq<Path>, i: int, path: Path)
    requires
        0 <= i < frontier.len(),
    ensures
        total(base, top, frontier.update(i, path)) + potential(base, top, frontier[i]@.len())
            == total(base, top, frontier) + potential(base, top, path@.len()),
    decreases frontier.len(),
{
    let after = frontier.update(i, path);
    if i == frontier.len() - 1 {
        assert(after.drop_last() =~= frontier.drop_last());
    } else {
        lemma_total_update(base, top, frontier.drop_last(), i, path);
        assert(after.drop_last() =~= frontier.drop_last().update(i, path));
    }
}

/// Taking a path out, with the last path moved into its place, takes what it counts for
/// off the total.
pub proof fn lemma_total_without(base: nat, top: nat, frontier: Seq<Path>, i: int)
    requires
        0 <= i < frontier.len(),
    ensures
        total(base, top, frontier.update(i, frontier.last()).drop_last()) + potential(
            base,
            top,
            frontier[i]@.len(),
        ) == total(base, top, frontier),
{
    let moved = frontier.update(i, frontier.last());
    lemma_total_update(base, top, frontier, i, frontier.last());
    assert(moved.last() == frontier.last());
}

/// Paths of one length behind the first `n` paths add what each counts for, once for
/// each of them.
pub proof fn lemma_total_grown(base: nat, top: nat, frontier: Seq<Path>, n: int, length: nat)
    requires
        0 <= n <= frontier.len(),
        forall|j: int| n <= j < frontier.len() ==> (#[trigger] frontier[j])@.len() == length,
    ensures
        total(base, top, frontier) == total(base, top, frontier.take(n)) + (frontier.len() - n)
            * potential(base, top, length),
    decreases frontier.len() - n,
{
    let each = potential(base, top, length);
    if n == frontier.len() {
        assert(frontier.take(n) =~= frontier);
        assert(0 * each == 0) by (nonlinear_arith);
    } else {
        let front = frontier.drop_last();
        lemma_total_grown(base, top, front, n, length);
        assert(front.take(n) =~= frontier.take(n));
        let more = front.len() - n;
        assert((more + 1) * each == more * each + each) by (nonlinear_arith);
    }
}

} // verus!

