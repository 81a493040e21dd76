use crate::edge::{
    edge_count, lemma_targets_count, lemma_targets_weigh, targets_of, weight_of, well_formed, Edges,
};
use crate::graph::Graph;
use crate::types::weighted_graph::Weighted;
pub use crate::utils::frontier::Path;
use crate::utils::frontier::{
    all_candidates, covered, followed, fruitless, grown, holds_key, is_candidate, reaches_all,
    searches, total,
};
use crate::utils::route::{is_route, lemma_route_goes_on, lemma_route_weight_bound, route_weight};
use crate::utils::search::{
    is_best_route, lemma_candidate, lemma_follow_done, lemma_follow_push, lemma_follow_skip,
    lemma_follow_start, lemma_found_is_best, lemma_is_candidate, lemma_none_left,
    lemma_search_advances, lemma_search_goes_on, lemma_search_goes_well, lemma_search_starts,
};
use vstd::prelude::*;

verus! {

/// Dijkstra's algorithm is an path finding algorithm: it finds a path between two nodes
/// of a weighted graph, following the lightest path first.
///
/// The struct holds the frontier of the search: the paths that it may still follow.
pub struct Dijkstra {
    paths: Vec<Path>,
}

/// Where the lightest path of `paths` stands.
fn lightest(paths: &Vec<Path>) -> (place: usize)
    requires
        paths.len() > 0,
    ensures
        place < paths.len(),
        forall|i: int|
            0 <= i < paths.len() ==> paths[place as int].weight <= (#[trigger] paths[i]).weight,
{
    let mut place: usize = 0;
    let mut i: usize = 1;
    while i < paths.len()
        invariant
            1 <= i <= paths.len(),
            place < i,
            forall|j: int| 0 <= j < i ==> paths[place as int].weight <= (#[trigger] paths[j]).weight,
        decreases paths.len() - i,
    {
        if paths[i].weight < paths[place].weight {
            place = i;
        }
        i += 1;
    }
    place
}

impl Dijkstra {
    /// Follows every edge from the end of `current`. Where one leads to `dest_key`, hands
    /// back the path to it. Otherwise puts into the frontier, for each edge to a key
    /// that `current` has not passed, the path that goes on over it.
    fn expand(
        &mut self,
        edges: &Edges,
        current: &Path,
        dest_key: &String,
        Ghost(origin): Ghost<Seq<char>>,
    ) -> (found: Option<Path>)
        requires
            is_candidate(edges@, origin, dest_key@, *current),
        ensures
            match found {
                Some(path) => {
                    &&& path@ == current@.push(dest_key@)
                    &&& is_route(edges@, path@)
                    &&& path.weight == route_weight(edges@, path@)
                },
                None => {
                    &&& weight_of(edges@, current@.last(), dest_key@) is None
                    &&& old(self).paths.len() <= final(self).paths.len()
                    &&& final(self).paths.len() - old(self).paths.len() <= edge_count(edges@)
                    &&& final(self).paths@.take(old(self).paths.len() as int) == old(self).paths@
                    &&& grown(
                        edges@,
                        origin,
                        dest_key@,
                        current@,
                        old(self).paths.len() as int,
                        final(self).paths@,
                    )
                    &&& reaches_all(
                        edges@,
                        current@,
                        dest_key@,
                        old(self).paths.len() as int,
                        final(self).paths@,
                    )
                },
            },
    {
        let ghost e = edges@;
        let ghost here = current@;
        let ghost dest = dest_key@;
        let ghost start = self.paths@;
        let ghost n = self.paths.len() as int;
        proof {
            use_type_invariant(edges);
            edges.lemma_well_formed();
            lemma_candidate(e, origin, dest, *current);
        }
        let last = current.nodes.len() - 1;
        assert(here.last() == current.nodes[last as int]@);
        let targets = edges.targets(&current.nodes[last]);
        let ghost all = targets.deep_view();
        proof {
            lemma_targets_count(e, here.last());
            lemma_route_weight_bound(e, here);
            assert(here.len() == current.nodes.len());
            lemma_follow_start(e, origin, dest, here, all, start);
            assert(start.take(n) =~= start);
        }
        let mut k: usize = 0;
        while k < targets.len()
            invariant
                k <= targets.len(),
                e == edges@,
                dest == dest_key@,
                well_formed(e),
                here == current@,
                here.len() == current.nodes.len(),
                searches(e, origin, dest, here),
                current.weight == route_weight(e, here),
                all == targets.deep_view(),
                all == targets_of(e, here.last()),
                all.len() <= edge_count(e),
                route_weight(e, here) <= (here.len() - 1) * 0xffff_ffff_ffff_ffff,
                n == start.len(),
                n <= self.paths.len(),
                self.paths.len() - n <= k,
                self.paths@.take(n) == start,
                grown(e, origin, dest, here, n, self.paths@),
                followed(here, dest, all, k as int, n, self.paths@),
            decreases targets.len() - k,
        {
            let ghost paths_before = self.paths@;
            let ghost next = all[k as int].0;
            proof {
                lemma_targets_weigh(e, here.last(), k as int);
                assert(targets[k as int].0@ == next);
            }
            if targets[k].0 == *dest_key {
                proof {
                    lemma_route_goes_on(e, here, dest);
                }
                let path = current.new_path_with(&targets[k].0, targets[k].1);
                return Some(path);
            } else if holds_key(&current.nodes, &targets[k].0) {
                proof {
                    lemma_follow_skip(here, dest, all, k as int, n, paths_before);
                }
            } else {
                proof {
                    lemma_search_goes_on(e, origin, dest, here, next);
                }
                let path = current.new_path_with(&targets[k].0, targets[k].1);
                proof {
                    lemma_is_candidate(e, origin, dest, path);
                    lemma_follow_push(e, origin, dest, here, all, k as int, n, paths_before, path);
                }
                self.paths.push(path);
            }
            k += 1;
        }
        proof {
            lemma_follow_done(e, here, dest, n, self.paths@);
        }
        None
    }

    /// Take a weighted graph and nodes keys in parameters and return the path found
    /// between them, if there is one.
    ///
    /// See [`Dijkstra::search_edges`] for what is found.
    pub fn search<GraphType, T: Clone>(
        g: Graph<GraphType, T>,
        origin_key: String,
        dest_key: String,
    ) -> (found: Option<Path>) where Graph<GraphType, T>: Weighted<GraphType, T>
        ensures
            is_best_route(g.edges@, origin_key@, dest_key@, found),
            origin_key@ == dest_key@ ==> found is Some && found.unwrap()@ == seq![origin_key@]
                && found.unwrap().weight == 0,
    {
        Dijkstra::search_edges(&g.edges, origin_key, dest_key)
    }

    /// Searches the index `edges` for a path from `origin_key` to `dest_key`.
    ///
    /// A search from a key to itself finds the path of that one key, of weight 0. Any
    /// other search follows the lightest path of its frontier first, and ends with the
    /// first edge that leads to `dest_key`. It finds a path exactly if there is a route;
    /// the path weighs, before its last edge, no more than any route does before its
    /// own last edge. The frontier holds whole paths, so the search can take a time that
    /// grows with the number of routes from the origin, not only with the number of nodes.
    pub fn search_edges(edges: &Edges, origin_key: String, dest_key: String) -> (found: Option<
        Path,
    >)
        ensures
            is_best_route(edges@, origin_key@, dest_key@, found),
            origin_key@ == dest_key@ ==> found is Some && found.unwrap()@ == seq![origin_key@]
                && found.unwrap().weight == 0,
    {
        let ghost e = edges@;
        let ghost origin = origin_key@;
        let ghost dest = dest_key@;
        proof {
            use_type_invariant(edges);
            edges.lemma_well_formed();
        }
        let same = origin_key == dest_key;
        let mut nodes: Vec<String> = Vec::new();
        nodes.push(origin_key);
        assert(nodes.deep_view() =~= seq![origin]);
        let first = Path { nodes, weight: 0 };
        if same {
            assert(is_route(e, first@));
            assert(first@.drop_last() =~= Seq::<Seq<char>>::empty());
            return Some(first);
        }
        let ghost mut expanded: Set<Seq<Seq<char>>> = Set::empty();
        let mut instance = Dijkstra { paths: Vec::new() };
        proof {
            lemma_search_starts(e, origin, dest, first);
        }
        instance.paths.push(first);
        assert(instance.paths@ =~= seq![first]);
        while instance.paths.len() > 0
            invariant
                e == edges@,
                origin != dest,
                origin == origin_key@,
                dest == dest_key@,
                all_candidates(e, origin, dest, instance.paths@),
                covered(e, origin, dest, expanded, instance.paths@),
                fruitless(e, dest, expanded),
            decreases total(edge_count(e) + 1, edge_count(e) + 2, instance.paths@),
        {
            let ghost before = instance.paths@;
            let place = lightest(&instance.paths);
            let current = instance.paths.swap_remove(place);
            assert(current == before[place as int]);
            proof {
                reveal(all_candidates);
                assert(is_candidate(e, origin, dest, before[place as int]));
            }
            match instance.expand(edges, &current, &dest_key, Ghost(origin)) {
                Some(path) => {
                    proof {
                        lemma_found_is_best(e, origin, dest, expanded, before, place as int, path);
                    }
                    return Some(path);
                },
                None => {
                    proof {
                        let after = instance.paths@;
                        lemma_search_goes_well(e, origin, dest, expanded, before, place as int, after);
                        lemma_search_advances(e, origin, dest, before, place as int, after);
                        expanded = expanded.insert(before[place as int]@);
                    }
                },
            }
        }
        proof {
            assert(instance.paths@ =~= Seq::<Path>::empty());
            lemma_none_left(e, origin, dest, expanded);
        }
        None
    }
}

} // verus!
