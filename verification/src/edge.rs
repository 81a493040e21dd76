use vstd::prelude::*;

verus! {

/// The weight of a link.
pub type Weight = u64;

/// The targets of one source as contracts see them: each target key with the weight of
/// the edge, in the order in which the targets were first inserted.
pub type TargetsView = Seq<(Seq<char>, Weight)>;

/// The edge index as contracts see it: each source key with its targets, in the order in
/// which the sources were first inserted.
pub type EdgesView = Seq<(Seq<char>, TargetsView)>;

/// The source keys of an index, in order.
pub open spec fn source_keys(edges: EdgesView) -> Seq<Seq<char>> {
    edges.map_values(|e: (Seq<char>, TargetsView)| e.0)
}

/// The target keys of one source, in order.
pub open spec fn target_keys(targets: TargetsView) -> Seq<Seq<char>> {
    targets.map_values(|t: (Seq<char>, Weight)| t.0)
}

/// No source occurs twice, and no target occurs twice under one source.
pub open spec fn well_formed(edges: EdgesView) -> bool {
    &&& source_keys(edges).no_duplicates()
    &&& forall|i: int| 0 <= i < edges.len() ==> target_keys(#[trigger] edges[i].1).no_duplicates()
}

/// The targets of `source`: none where `source` is no source of the index.
pub open spec fn targets_of(edges: EdgesView, source: Seq<char>) -> TargetsView {
    match source_keys(edges).index_of_first(source) {
        Some(i) => edges[i].1,
        None => Seq::empty(),
    }
}

/// The weight that `targets` give for `target`, if any.
pub open spec fn weight_in(targets: TargetsView, target: Seq<char>) -> Option<Weight> {
    match target_keys(targets).index_of_first(target) {
        Some(i) => Some(targets[i].1),
        None => None,
    }
}

/// The weight of the edge from `from` to `to`, if the index holds one.
pub open spec fn weight_of(edges: EdgesView, from: Seq<char>, to: Seq<char>) -> Option<Weight> {
    weight_in(targets_of(edges, from), to)
}

/// The targets after `target` has been given `weight`: a target that is there keeps its
/// place and takes the new weight, a new target goes to the end.
pub open spec fn with_target(targets: TargetsView, target: Seq<char>, weight: Weight) -> TargetsView {
    match target_keys(targets).index_of_first(target) {
        Some(i) => targets.update(i, (target, weight)),
        None => targets.push((target, weight)),
    }
}

/// The index after the edge from `source` to `target` has been given `weight`: a source
/// that is there keeps its place, a new source goes to the end.
pub open spec fn with_edge(
    edges: EdgesView,
    source: Seq<char>,
    target: Seq<char>,
    weight: Weight,
) -> EdgesView {
    match source_keys(edges).index_of_first(source) {
        Some(i) => edges.update(i, (source, with_target(edges[i].1, target, weight))),
        None => edges.push((source, seq![(target, weight)])),
    }
}

/// An edge as contracts see it: the source key, the target key and the weight.
pub type EdgeView = (Seq<char>, Seq<char>, Weight);

/// What contracts see of an edge that is handed over as a source key beside a pair of
/// target key and weight.
pub open spec fn edge_view(edge: (String, (String, Weight))) -> EdgeView {
    (edge.0@, edge.1.0@, edge.1.1)
}

/// What contracts see of a sequence of edges.
pub open spec fn edge_views(edges: Seq<(String, (String, Weight))>) -> Seq<EdgeView> {
    edges.map_values(|e: (String, (String, Weight))| edge_view(e))
}

/// The index after each edge of `edges`, in order, has been inserted.
pub open spec fn with_edges(index: EdgesView, edges: Seq<EdgeView>) -> EdgesView
    decreases edges.len(),
{
    if edges.len() == 0 {
        index
    } else {
        with_edge(with_edges(index, edges.drop_last()), edges.last().0, edges.last().1, edges.last().2)
    }
}

/// The number of edges of an index.
pub open spec fn edge_count(edges: EdgesView) -> nat
    decreases edges.len(),
{
    if edges.len() == 0 {
        0
    } else {
        edge_count(edges.drop_last()) + edges.last().1.len()
    }
}

/// The target keys of all sources, source after source.
pub open spec fn all_targets(edges: EdgesView) -> Seq<Seq<char>>
    decreases edges.len(),
{
    if edges.len() == 0 {
        Seq::empty()
    } else {
        all_targets(edges.drop_last()) + target_keys(edges.last().1)
    }
}

/// There are as many target keys as edges, and the targets of each source are among them.
pub proof fn lemma_all_targets(edges: EdgesView)
    ensures
        all_targets(edges).len() == edge_count(edges),
        forall|i: int, k: int|
            #![trigger edges[i].1[k]]
            0 <= i < edges.len() && 0 <= k < edges[i].1.len() ==> all_targets(edges).contains(
                edges[i].1[k].0,
            ),
        forall|i: int| 0 <= i < edges.len() ==> (#[trigger] edges[i]).1.len() <= edge_count(edges),
    decreases edges.len(),
{
    if edges.len() > 0 {
        let front = edges.drop_last();
        let all = all_targets(edges);
        lemma_all_targets(front);
        assert forall|i: int, k: int|
            #![trigger edges[i].1[k]]
            0 <= i < edges.len() && 0 <= k < edges[i].1.len() implies all.contains(
            edges[i].1[k].0,
        ) by {
            if i < front.len() {
                assert(front[i] == edges[i]);
                let key = front[i].1[k].0;
                assert(all_targets(front).contains(key));
                let j = choose|j: int| 0 <= j < all_targets(front).len() && all_targets(front)[j] == key;
                assert(all[j] == key);
            } else {
                assert(all[all_targets(front).len() + k] == target_keys(edges.last().1)[k]);
            }
        }
        assert forall|i: int| 0 <= i < edges.len() implies (#[trigger] edges[i]).1.len()
            <= edge_count(edges) by {
            if i < front.len() {
                assert(front[i] == edges[i]);
            }
        }
    }
}

/// Where the index gives a weight from `from` to `to`, `to` is a target of `from`, and
/// so one of all the target keys.
pub proof fn lemma_weight_is_target(edges: EdgesView, from: Seq<char>, to: Seq<char>)
    requires
        weight_of(edges, from, to) is Some,
    ensures
        target_keys(targets_of(edges, from)).contains(to),
        all_targets(edges).contains(to),
        targets_of(edges, from).len() <= edge_count(edges),
{
    lemma_all_targets(edges);
    source_keys(edges).index_of_first_ensures(from);
    let targets = targets_of(edges, from);
    target_keys(targets).index_of_first_ensures(to);
    match source_keys(edges).index_of_first(from) {
        Some(i) => {
            let k = target_keys(targets).index_of_first(to).unwrap();
            assert(edges[i].1[k].0 == to);
        },
        None => {
            assert(target_keys(targets) =~= Seq::<Seq<char>>::empty());
        },
    }
}

/// No source has more targets than the index has edges.
pub proof fn lemma_targets_count(edges: EdgesView, from: Seq<char>)
    ensures
        targets_of(edges, from).len() <= edge_count(edges),
{
    lemma_all_targets(edges);
    source_keys(edges).index_of_first_ensures(from);
}

/// In a well formed index the targets of a source are distinct, and each stands for the
/// weight of its edge.
pub proof fn lemma_targets_weigh(edges: EdgesView, from: Seq<char>, k: int)
    requires
        well_formed(edges),
        0 <= k < targets_of(edges, from).len(),
    ensures
        target_keys(targets_of(edges, from)).no_duplicates(),
        weight_of(edges, from, targets_of(edges, from)[k].0) == Some(targets_of(edges, from)[k].1),
{
    source_keys(edges).index_of_first_ensures(from);
    let targets = targets_of(edges, from);
    let keys = target_keys(targets);
    assert(keys.no_duplicates());
    assert(keys[k] == targets[k].0);
    assert forall|j: int| 0 <= j < k implies #[trigger] keys[j] != targets[k].0 by {}
    lemma_first_place(keys, targets[k].0, k);
}

/// The first `i` keys are not `key`, and key `i`, if there is one, is: then `i` is the
/// first place of `key`.
pub proof fn lemma_first_place(keys: Seq<Seq<char>>, key: Seq<char>, i: int)
    requires
        0 <= i <= keys.len(),
        forall|j: int| 0 <= j < i ==> #[trigger] keys[j] != key,
        i < keys.len() ==> keys[i] == key,
    ensures
        keys.index_of_first(key) == (if i < keys.len() {
            Some(i)
        } else {
            None
        }),
{
    keys.index_of_first_ensures(key);
    if i < keys.len() {
        match keys.index_of_first(key) {
            Some(first) => {
                if first < i {
                    assert(keys[first] != key);
                }
            },
            None => {},
        }
    } else {
        if keys.contains(key) {
            let j = choose|j: int| 0 <= j < keys.len() && keys[j] == key;
            assert(keys[j] != key);
        }
    }
}

/// Giving a target a weight keeps the targets distinct.
pub proof fn lemma_with_target_distinct(targets: TargetsView, target: Seq<char>, weight: Weight)
    requires
        target_keys(targets).no_duplicates(),
    ensures
        target_keys(with_target(targets, target, weight)).no_duplicates(),
{
    let keys = target_keys(targets);
    let after = with_target(targets, target, weight);
    keys.index_of_first_ensures(target);
    match keys.index_of_first(target) {
        Some(i) => {
            assert(target_keys(after) =~= keys);
        },
        None => {
            assert(target_keys(after) =~= keys.push(target));
            assert forall|a: int, b: int|
                0 <= a < keys.len() + 1 && 0 <= b < keys.len() + 1 && a != b implies keys.push(
                target,
            )[a] != keys.push(target)[b] by {
                if a < keys.len() && b < keys.len() {
                } else if a < keys.len() {
                    assert(keys[a] != target);
                } else {
                    assert(keys[b] != target);
                }
            }
        },
    }
}

/// Inserting an edge keeps an index well formed.
pub proof fn lemma_with_edge_well_formed(
    edges: EdgesView,
    source: Seq<char>,
    target: Seq<char>,
    weight: Weight,
)
    requires
        well_formed(edges),
    ensures
        well_formed(with_edge(edges, source, target, weight)),
{
    let keys = source_keys(edges);
    let after = with_edge(edges, source, target, weight);
    keys.index_of_first_ensures(source);
    match keys.index_of_first(source) {
        Some(i) => {
            assert(source_keys(after) =~= keys);
            lemma_with_target_distinct(edges[i].1, target, weight);
            assert forall|k: int| 0 <= k < after.len() implies target_keys(
                #[trigger] after[k].1,
            ).no_duplicates() by {
                if k != i {
                    assert(after[k] == edges[k]);
                }
            }
        },
        None => {
            assert(source_keys(after) =~= keys.push(source));
            assert forall|a: int, b: int|
                0 <= a < keys.len() + 1 && 0 <= b < keys.len() + 1 && a != b implies keys.push(
                source,
            )[a] != keys.push(source)[b] by {
                if a < keys.len() && b < keys.len() {
                } else if a < keys.len() {
                    assert(keys[a] != source);
                } else {
                    assert(keys[b] != source);
                }
            }
            assert forall|k: int| 0 <= k < after.len() implies target_keys(
                #[trigger] after[k].1,
            ).no_duplicates() by {
                if k < edges.len() {
                    assert(after[k] == edges[k]);
                } else {
                    assert(target_keys(after[k].1) =~= seq![target]);
                }
            }
        },
    }
}

/// After an insertion the inserted edge has the weight given, and every other edge the
/// weight it had.
pub proof fn lemma_with_edge_weight(
    edges: EdgesView,
    source: Seq<char>,
    target: Seq<char>,
    weight: Weight,
    from: Seq<char>,
    to: Seq<char>,
)
    requires
        well_formed(edges),
    ensures
        weight_of(with_edge(edges, source, target, weight), from, to) == (if from == source && to
            == target {
            Some(weight)
        } else {
            weight_of(edges, from, to)
        }),
{
    let keys = source_keys(edges);
    let after = with_edge(edges, source, target, weight);
    keys.index_of_first_ensures(source);
    keys.index_of_first_ensures(from);
    source_keys(after).index_of_first_ensures(from);
    match keys.index_of_first(source) {
        Some(i) => {
            assert(source_keys(after) =~= keys);
            if from == source {
                let before = edges[i].1;
                let now = with_target(before, target, weight);
                assert(targets_of(after, from) == now);
                lemma_with_target_weight(before, target, weight, to);
            } else {
                let k = keys.index_of_first(from);
                if k is Some {
                    assert(after[k.unwrap()] == edges[k.unwrap()]);
                }
            }
        },
        None => {
            assert(source_keys(after) =~= keys.push(source));
            if from == source {
                lemma_first_place(source_keys(after), from, keys.len() as int);
                let now = seq![(target, weight)];
                assert(targets_of(after, from) == now);
                assert(target_keys(now) =~= seq![target]);
                lemma_first_place(target_keys(now), to, if to == target {
                    0
                } else {
                    1
                });
                assert(targets_of(edges, from) == Seq::<(Seq<char>, Weight)>::empty());
                assert(target_keys(Seq::<(Seq<char>, Weight)>::empty()) =~= Seq::<
                    Seq<char>,
                >::empty());
                lemma_first_place(Seq::<Seq<char>>::empty(), to, 0);
            } else {
                match keys.index_of_first(from) {
                    Some(k) => {
                        lemma_first_place(source_keys(after), from, k);
                        assert(after[k] == edges[k]);
                    },
                    None => {
                        assert(!source_keys(after).contains(from)) by {
                            if source_keys(after).contains(from) {
                                let j = choose|j: int|
                                    0 <= j < source_keys(after).len() && source_keys(after)[j]
                                        == from;
                                if j < keys.len() {
                                    assert(keys[j] == from);
                                }
                            }
                        }
                    },
                }
            }
        },
    }
}

/// After a target was given a weight it has that weight, and every other target the
/// weight it had.
pub proof fn lemma_with_target_weight(
    targets: TargetsView,
    target: Seq<char>,
    weight: Weight,
    to: Seq<char>,
)
    requires
        target_keys(targets).no_duplicates(),
    ensures
        weight_in(with_target(targets, target, weight), to) == (if to == target {
            Some(weight)
        } else {
            weight_in(targets, to)
        }),
{
    let keys = target_keys(targets);
    let after = with_target(targets, target, weight);
    keys.index_of_first_ensures(target);
    keys.index_of_first_ensures(to);
    target_keys(after).index_of_first_ensures(to);
    match keys.index_of_first(target) {
        Some(i) => {
            assert(target_keys(after) =~= keys);
            if to != target {
                let k = keys.index_of_first(to);
                if k is Some {
                    assert(after[k.unwrap()] == targets[k.unwrap()]);
                }
            }
        },
        None => {
            assert(target_keys(after) =~= keys.push(target));
            if to == target {
                lemma_first_place(target_keys(after), to, keys.len() as int);
            } else {
                match keys.index_of_first(to) {
                    Some(k) => {
                        lemma_first_place(target_keys(after), to, k);
                        assert(after[k] == targets[k]);
                    },
                    None => {
                        assert(!target_keys(after).contains(to)) by {
                            if target_keys(after).contains(to) {
                                let j = choose|j: int|
                                    0 <= j < target_keys(after).len() && target_keys(after)[j]
                                        == to;
                                if j < keys.len() {
                                    assert(keys[j] == to);
                                }
                            }
                        }
                    },
                }
            }
        },
    }
}

/// The links between the nodes of a graph, each with its weight: an index from source key
/// to target key to weight. It holds each pair of keys at most once.
pub struct Edges {
    entries: Vec<(String, Vec<(String, Weight)>)>,
}

impl View for Edges {
    type V = EdgesView;

    closed spec fn view(&self) -> EdgesView {
        self.entries.deep_view()
    }
}

impl Edges {
    /// What holds of every index: no source occurs twice, and no target twice under
    /// one source.
    #[verifier::type_invariant]
    pub closed spec fn holds_each_pair_once(&self) -> bool {
        well_formed(self.entries.deep_view())
    }

    /// An index without edges.
    pub fn new() -> (edges: Edges)
        ensures
            edges@ == Seq::<(Seq<char>, TargetsView)>::empty(),
    {
        let entries: Vec<(String, Vec<(String, Weight)>)> = Vec::new();
        assert(entries.deep_view() =~= Seq::<(Seq<char>, TargetsView)>::empty());
        assert(source_keys(entries.deep_view()) =~= Seq::<Seq<char>>::empty());
        Edges { entries }
    }

    /// An index that holds each pair once is well formed as contracts see it.
    pub proof fn lemma_well_formed(&self)
        requires
            self.holds_each_pair_once(),
        ensures
            well_formed(self@),
    {
    }

    /// Where `source` stands among the sources, if it does.
    fn source_place(&self, source: &String) -> (place: Option<usize>)
        ensures
            match place {
                Some(i) => source_keys(self@).index_of_first(source@) == Some(i as int) && i
                    < self.entries.len(),
                None => source_keys(self@).index_of_first(source@) is None,
            },
    {
        let mut i: usize = 0;
        while i < self.entries.len()
            invariant
                i <= self.entries.len(),
                forall|j: int| 0 <= j < i ==> #[trigger] source_keys(self@)[j] != source@,
            decreases self.entries.len() - i,
        {
            if self.entries[i].0 == *source {
                proof {
                    assert(source_keys(self@)[i as int] == source@);
                    lemma_first_place(source_keys(self@), source@, i as int);
                }
                return Some(i);
            }
            assert(source_keys(self@)[i as int] != source@);
            i += 1;
        }
        proof {
            lemma_first_place(source_keys(self@), source@, self.entries.len() as int);
        }
        None
    }

    /// Gives the edge from `source` to `target` the weight `weight`, whether the index
    /// held that edge or not.
    pub fn insert(&mut self, source: String, target: String, weight: Weight)
        ensures
            final(self)@ == with_edge(old(self)@, source@, target@, weight),
    {
        proof {
            use_type_invariant(&*self);
            lemma_with_edge_well_formed(self@, source@, target@, weight);
        }
        let ghost before = self@;
        let place = self.source_place(&source);
        let mut entries: Vec<(String, Vec<(String, Weight)>)> = Vec::new();
        assert(entries.deep_view() =~= Seq::<(Seq<char>, TargetsView)>::empty());
        assert(source_keys(entries.deep_view()) =~= Seq::<Seq<char>>::empty());
        core::mem::swap(&mut self.entries, &mut entries);
        match place {
            Some(i) => {
                proof {
                    source_keys(before).index_of_first_ensures(source@);
                }
                let ghost mine = entries@;
                put_target(&mut entries[i].1, target, weight);
                assert(entries.deep_view() =~= with_edge(before, source@, target@, weight)) by {
                    assert forall|j: int| 0 <= j < entries.len() implies #[trigger] entries.deep_view()[j]
                        == with_edge(before, source@, target@, weight)[j] by {
                        assert(before[j] == mine[j].deep_view());
                        if j != i {
                            assert(entries@[j] == mine[j]);
                        }
                    }
                }
            },
            None => {
                let mut targets: Vec<(String, Weight)> = Vec::new();
                targets.push((target, weight));
                assert(targets.deep_view() =~= seq![(target@, weight)]);
                entries.push((source, targets));
                assert(entries.deep_view() =~= with_edge(before, source@, target@, weight));
            },
        }
        core::mem::swap(&mut self.entries, &mut entries);
    }

    /// Inserts each edge of `edges`, in order: a later edge between two keys overwrites
    /// an earlier one.
    pub fn insert_all(&mut self, edges: Vec<(String, (String, Weight))>)
        ensures
            final(self)@ == with_edges(old(self)@, edge_views(edges@)),
    {
        let ghost all = edge_views(edges@);
        let ghost before = self@;
        assert(all.take(0) =~= Seq::<EdgeView>::empty());
        for edge in it: edges
            invariant
                all == edge_views(it.seq()),
                self@ == with_edges(before, all.take(it.index() as int)),
        {
            proof {
                let i = it.index() as int;
                assert(all.take(i + 1).drop_last() =~= all.take(i));
                assert(all.take(i + 1).last() == edge_view(edge));
            }
            self.insert(edge.0, edge.1.0, edge.1.1);
        }
        assert(all.take(all.len() as int) =~= all);
    }

    /// The weight of the edge from `from` to `to`, if the index holds one.
    pub fn weight(&self, from: &String, to: &String) -> (weight: Option<Weight>)
        ensures
            weight == weight_of(self@, from@, to@),
    {
        match self.source_place(from) {
            Some(i) => {
                match target_place(&self.entries[i].1, to) {
                    Some(k) => Some(self.entries[i].1[k].1),
                    None => None,
                }
            },
            None => {
                proof {
                    assert(target_keys(Seq::<(Seq<char>, Weight)>::empty()) =~= Seq::<
                        Seq<char>,
                    >::empty());
                    lemma_first_place(Seq::<Seq<char>>::empty(), to@, 0);
                }
                None
            },
        }
    }

    /// The targets of `source` with their weights, in the order in which they were first
    /// inserted.
    pub fn targets(&self, source: &String) -> (targets: Vec<(String, Weight)>)
        ensures
            targets.deep_view() == targets_of(self@, source@),
    {
        let mut targets: Vec<(String, Weight)> = Vec::new();
        match self.source_place(source) {
            Some(i) => {
                let found = &self.entries[i].1;
                let mut k: usize = 0;
                while k < found.len()
                    invariant
                        k <= found.len(),
                        targets.len() == k,
                        forall|j: int|
                            0 <= j < k ==> (#[trigger] targets[j]).deep_view()
                                == found[j].deep_view(),
                    decreases found.len() - k,
                {
                    targets.push((found[k].0.clone(), found[k].1));
                    k += 1;
                }
                assert(targets.deep_view() =~= found.deep_view());
                assert(self.entries.deep_view()[i as int].1 == found.deep_view());
            },
            None => {
                assert(targets.deep_view() =~= Seq::<(Seq<char>, Weight)>::empty());
            },
        }
        targets
    }

    /// The number of sources.
    pub fn len(&self) -> (n: usize)
        ensures
            n == self@.len(),
    {
        self.entries.len()
    }

    /// Whether the index holds no edge.
    pub fn is_empty(&self) -> (empty: bool)
        ensures
            empty == (self@.len() == 0),
    {
        self.entries.len() == 0
    }
}

/// Gives `target` the weight `weight` in `targets`: overwrites the weight of a target that
/// is there, appends a target that is not.
fn put_target(targets: &mut Vec<(String, Weight)>, target: String, weight: Weight)
    ensures
        final(targets).deep_view() == with_target(old(targets).deep_view(), target@, weight),
{
    let ghost before = targets.deep_view();
    match target_place(targets, &target) {
        Some(k) => {
            proof {
                target_keys(before).index_of_first_ensures(target@);
                assert(target_keys(before)[k as int] == before[k as int].0);
            }
            targets[k].1 = weight;
            assert(targets.deep_view() =~= before.update(k as int, (target@, weight)));
        },
        None => {
            targets.push((target, weight));
            assert(targets.deep_view() =~= before.push((target@, weight)));
        },
    }
}

/// Where `target` stands among `targets`, if it does.
fn target_place(targets: &Vec<(String, Weight)>, target: &String) -> (place: Option<usize>)
    ensures
        match place {
            Some(k) => target_keys(targets.deep_view()).index_of_first(target@) == Some(k as int)
                && k < targets.len(),
            None => target_keys(targets.deep_view()).index_of_first(target@) is None,
        },
{
    let ghost keys = target_keys(targets.deep_view());
    let mut k: usize = 0;
    while k < targets.len()
        invariant
            k <= targets.len(),
            keys == target_keys(targets.deep_view()),
            forall|j: int| 0 <= j < k ==> #[trigger] keys[j] != target@,
        decreases targets.len() - k,
    {
        if targets[k].0 == *target {
            proof {
                assert(keys[k as int] == target@);
                lemma_first_place(keys, target@, k as int);
            }
            return Some(k);
        }
        assert(keys[k as int] != target@);
        k += 1;
    }
    proof {
        lemma_first_place(keys, target@, targets.len() as int);
    }
    None
}

} // verus!
