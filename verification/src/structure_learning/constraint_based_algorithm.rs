//! Constraint-based structure learning, and the cache of fitted parameters
//! that it works with.

use crate::parameter_learning::ParameterLearning;
use crate::process::NetworkProcess;
use crate::params::ParamsModel;
use crate::sets::{
    all_but, ascending, lemma_ascending_unique, lemma_increasing_fits,
    lemma_increasing_no_duplicates, lemma_members_of_longer, list_without, lists_ascending,
    same_list, set_of, sorted_members, strictly_increasing,
};
use crate::structure_learning::hypothesis_test::HypothesisTest;
use crate::structure_learning::{commit, others, StructureLearningAlgorithm};
use crate::tools::Dataset;
use itertools::Itertools;
use std::collections::BTreeSet;
use vstd::prelude::*;

verus! {

/// What the cache holds for the parent sets of one size class: at most one
/// value per parent set.
///
/// The values are kept in a list, each beside the parent set it is held for,
/// listed smallest node first. Nothing is known of how a set of nodes hashes
/// or how two of them are ordered, so a map keyed by parent sets could
/// promise nothing of what it holds.
pub(crate) struct Generation<V> {
    entries: Vec<(Vec<usize>, V)>,
}

impl<V> Generation<V> {
    /// Whether the entry at position `i` is the one for the parent set `s`.
    spec fn stands_at(&self, s: Set<usize>, i: int) -> bool {
        0 <= i < self.entries@.len() && self.entries@[i].0@.to_set() == s
    }

    /// A position at which the entry for the parent set `s` stands.
    spec fn slot(&self, s: Set<usize>) -> int {
        choose|i: int| self.stands_at(s, i)
    }

    /// The values held, by parent set.
    pub closed spec fn view(&self) -> Map<Set<usize>, V> {
        Map::new(
            |s: Set<usize>| exists|i: int| self.stands_at(s, i),
            |s: Set<usize>| self.entries@[self.slot(s)].1,
        )
    }

    #[verifier::type_invariant]
    spec fn keys_are_distinct(&self) -> bool {
        &&& forall|i: int|
            0 <= i < self.entries@.len() ==> strictly_increasing((#[trigger] self.entries@[i]).0@)
        &&& forall|i: int, j: int|
            0 <= i < j < self.entries@.len() ==> (#[trigger] self.entries@[i]).0@ != (
            #[trigger] self.entries@[j]).0@
    }

    /// A generation that holds nothing.
    pub fn new() -> (generation: Generation<V>)
        ensures
            generation@ == Map::<Set<usize>, V>::empty(),
    {
        let generation = Generation { entries: Vec::new() };
        assert(generation@ =~= Map::<Set<usize>, V>::empty());
        generation
    }

    /// Where the entry for the parent set listed in `key` stands, if there
    /// is one.
    fn position(&self, key: &Vec<usize>) -> (at: Option<usize>)
        requires
            strictly_increasing(key@),
        ensures
            at is Some <==> self@.contains_key(key@.to_set()),
            at matches Some(i) ==> i < self.entries@.len() && self.entries@[i as int].0@ == key@
                && self.entries@[i as int].1 == self@[key@.to_set()],
    {
        proof {
            use_type_invariant(self);
        }
        let mut i: usize = 0;
        while i < self.entries.len()
            invariant
                i <= self.entries@.len(),
                strictly_increasing(key@),
                self.keys_are_distinct(),
                forall|j: int| 0 <= j < i ==> (#[trigger] self.entries@[j]).0@ != key@,
            decreases self.entries@.len() - i,
        {
            if same_list(&self.entries[i].0, key) {
                proof {
                    self.lemma_entry(i as int);
                }
                return Some(i);
            }
            i += 1;
        }
        proof {
            if self@.contains_key(key@.to_set()) {
                let j = self.slot(key@.to_set());
                assert(self.stands_at(key@.to_set(), j));
                lemma_ascending_unique(self.entries@[j].0@, key@);
            }
        }
        None
    }

    /// The entry at position `i` is what the generation holds for its key.
    proof fn lemma_entry(&self, i: int)
        requires
            self.keys_are_distinct(),
            0 <= i < self.entries@.len(),
        ensures
            self@.contains_key(self.entries@[i].0@.to_set()),
            self@[self.entries@[i].0@.to_set()] == self.entries@[i].1,
    {
        let s = self.entries@[i].0@.to_set();
        assert(self.stands_at(s, i));
        let j = self.slot(s);
        lemma_ascending_unique(self.entries@[j].0@, self.entries@[i].0@);
        if i < j {
            assert(self.entries@[i].0@ != self.entries@[j].0@);
        }
        if j < i {
            assert(self.entries@[j].0@ != self.entries@[i].0@);
        }
        assert(i == j);
    }

    /// The value held for the parent set listed in `key`, if any.
    pub fn get(&self, key: &Vec<usize>) -> (value: Option<&V>)
        requires
            strictly_increasing(key@),
        ensures
            value is Some <==> self@.contains_key(key@.to_set()),
            value matches Some(v) ==> *v == self@[key@.to_set()],
    {
        match self.position(key) {
            Some(i) => Some(&self.entries[i].1),
            None => None,
        }
    }

    /// Holds `value` for the parent set listed in `key`, for which nothing
    /// is held yet.
    pub fn insert(&mut self, key: Vec<usize>, value: V)
        requires
            strictly_increasing(key@),
            !old(self)@.contains_key(key@.to_set()),
        ensures
            final(self)@ == old(self)@.insert(key@.to_set(), value),
    {
        proof {
            use_type_invariant(&*self);
            assert forall|i: int| 0 <= i < self.entries@.len() implies (
            #[trigger] self.entries@[i]).0@ != key@ by {
                self.lemma_entry(i);
            }
        }
        let ghost before = *self;
        let mut entries: Vec<(Vec<usize>, V)> = Vec::new();
        std::mem::swap(&mut self.entries, &mut entries);
        entries.push((key, value));
        self.entries = entries;
        proof {
            let after = *self;
            assert(after.keys_are_distinct());
            assert forall|s: Set<usize>|
                after@.contains_key(s) <==> before@.insert(key@.to_set(), value).contains_key(
                    s,
                ) by {
                if after@.contains_key(s) {
                    let i = after.slot(s);
                    assert(after.stands_at(s, i));
                    if i < before.entries@.len() {
                        assert(before.stands_at(s, i));
                    }
                }
                if before@.contains_key(s) {
                    let i = before.slot(s);
                    assert(before.stands_at(s, i));
                    assert(after.stands_at(s, i));
                }
                if s == key@.to_set() {
                    assert(after.stands_at(s, after.entries@.len() - 1));
                }
            }
            assert forall|s: Set<usize>| after@.contains_key(s) implies after@[s] == before@.insert(
                key@.to_set(),
                value,
            )[s] by {
                if s == key@.to_set() {
                    after.lemma_entry(after.entries@.len() - 1);
                } else {
                    let i = before.slot(s);
                    assert(before.stands_at(s, i));
                    before.lemma_entry(i);
                    assert(after.entries@[i] == before.entries@[i]);
                    after.lemma_entry(i);
                }
            }
            assert(after@ =~= before@.insert(key@.to_set(), value));
        }
    }
}

/// The content of a cache: what it holds for the parent sets of at most
/// `frontier` members (`small`) and for larger ones (`big`), and how often it
/// had to turn to the estimator (`fits`).
pub struct CacheModel<V> {
    pub small: Map<Set<usize>, V>,
    pub big: Map<Set<usize>, V>,
    pub frontier: nat,
    pub fits: nat,
}

impl<V> CacheModel<V> {
    /// The cache as a request for a parent set of `size` members finds it:
    /// where `size` exceeds the frontier by more than one, the frontier moves
    /// up by one, what was held for the larger sets is now held as small, and
    /// nothing is held for larger sets.
    pub open spec fn turned(self, size: nat) -> CacheModel<V> {
        if size > self.frontier + 1 {
            CacheModel {
                small: self.big,
                big: Map::empty(),
                frontier: self.frontier + 1,
                fits: self.fits,
            }
        } else {
            self
        }
    }

    /// What a request for `parents` finds held, if anything.
    pub open spec fn answer(self, parents: Set<usize>) -> Option<V> {
        let turned = self.turned(parents.len());
        let held = if parents.len() > turned.frontier {
            turned.big
        } else {
            turned.small
        };
        if held.contains_key(parents) {
            Some(held[parents])
        } else {
            None
        }
    }

    /// The cache after a request for `parents`, where the estimator yields
    /// `fitted` if it is turned to.
    pub open spec fn after_fit(self, parents: Set<usize>, fitted: V) -> CacheModel<V> {
        let turned = self.turned(parents.len());
        if self.answer(parents) is Some {
            turned
        } else if parents.len() > turned.frontier {
            CacheModel { big: turned.big.insert(parents, fitted), fits: turned.fits + 1, ..turned }
        } else {
            CacheModel {
                small: turned.small.insert(parents, fitted),
                fits: turned.fits + 1,
                ..turned
            }
        }
    }
}

/// Asking again is answered from the cache: after a request for a parent set
/// that exceeds the frontier by at most two members, a second request for the
/// same parent set finds the value that the first one returned, does not turn
/// to the estimator, and leaves the cache as it is.
pub proof fn lemma_refit_is_cached<V>(
    cache: CacheModel<V>,
    parents: Set<usize>,
    first: V,
    second: V,
)
    requires
        parents.finite(),
        parents.len() <= cache.frontier + 2,
    ensures
        cache.after_fit(parents, first).answer(parents) == Some(
            match cache.answer(parents) {
                Some(held) => held,
                None => first,
            },
        ),
        cache.after_fit(parents, first).after_fit(parents, second) == cache.after_fit(
            parents,
            first,
        ),
{
    let once = cache.after_fit(parents, first);
    assert(once.turned(parents.len()) == once);
}

/// A memory of fitted parameters by parent set, in two generations: one for
/// the parent sets of at most as many members as a frontier says, one for
/// larger ones. A request for a parent set that exceeds the frontier by more
/// than one member moves the frontier up by one and drops the older
/// generation.
pub struct Cache<'a, P: ParameterLearning> {
    parameter_learning: &'a P,
    cache_persistent_small: Generation<P::Fitted>,
    cache_persistent_big: Generation<P::Fitted>,
    parent_set_size_small: usize,
    fits: Ghost<nat>,
}

impl<'a, P: ParameterLearning> Cache<'a, P> {
    /// What the cache holds.
    pub closed spec fn view(&self) -> CacheModel<P::Fitted> {
        CacheModel {
            small: self.cache_persistent_small@,
            big: self.cache_persistent_big@,
            frontier: self.parent_set_size_small as nat,
            fits: self.fits@,
        }
    }

    /// The estimator that the cache turns to.
    pub closed spec fn estimator(&self) -> P {
        *self.parameter_learning
    }

    /// Whether everything that the cache holds was fitted for `node` over
    /// the given nodes and data: each value held for a parent set is what the
    /// estimator fits for `node` conditioned on that parent set.
    pub open spec fn holds_fits_of(
        &self,
        nodes: Seq<ParamsModel>,
        dataset: Dataset<P::Time>,
        node: usize,
    ) -> bool {
        &&& forall|parents: Set<usize>| #[trigger]
            self@.small.contains_key(parents) ==> self@.small[parents] == self.estimator().fitted(
                nodes,
                dataset,
                node,
                parents,
            )
        &&& forall|parents: Set<usize>| #[trigger]
            self@.big.contains_key(parents) ==> self@.big[parents] == self.estimator().fitted(
                nodes,
                dataset,
                node,
                parents,
            )
    }

    #[verifier::type_invariant]
    spec fn frontier_can_move(&self) -> bool {
        self.parent_set_size_small < usize::MAX
    }

    /// An empty cache in front of the estimator `parameter_learning`.
    pub fn new(parameter_learning: &'a P) -> (cache: Cache<'a, P>)
        ensures
            cache.estimator() == *parameter_learning,
            cache@ == (CacheModel::<P::Fitted> {
                small: Map::empty(),
                big: Map::empty(),
                frontier: 0,
                fits: 0,
            }),
            forall|nodes: Seq<ParamsModel>, dataset: Dataset<P::Time>, node: usize| #[trigger]
                cache.holds_fits_of(nodes, dataset, node),
    {
        Cache {
            parameter_learning,
            cache_persistent_small: Generation::new(),
            cache_persistent_big: Generation::new(),
            parent_set_size_small: 0,
            fits: Ghost(0),
        }
    }

    /// The parameters of `node` conditioned on `parent_set`: what the cache
    /// holds for that parent set, or else what the estimator yields for it,
    /// which the cache then holds.
    pub fn fit<N: NetworkProcess>(
        &mut self,
        net: &N,
        dataset: &Dataset<P::Time>,
        node: usize,
        parent_set: Option<BTreeSet<usize>>,
    ) -> (fitted: &P::Fitted)
        requires
            parent_set is Some,
            net.well_formed(),
            node < net.nodes().len(),
            forall|p: usize| parent_set->0@.contains(p) ==> p < net.nodes().len(),
        ensures
            final(self).estimator() == old(self).estimator(),
            old(self)@.answer(parent_set->0@) matches Some(held) ==> *fitted == held,
            old(self)@.answer(parent_set->0@) is None ==> *fitted == old(self).estimator().fitted(
                net.nodes(),
                *dataset,
                node,
                parent_set->0@,
            ),
            final(self)@ == old(self)@.after_fit(parent_set->0@, *fitted),
            old(self).holds_fits_of(net.nodes(), *dataset, node) ==> final(self).holds_fits_of(
                net.nodes(),
                *dataset,
                node,
            ),
            old(self).holds_fits_of(net.nodes(), *dataset, node) ==> *fitted
                == old(self).estimator().fitted(net.nodes(), *dataset, node, parent_set->0@),
    {
        proof {
            use_type_invariant(&*self);
        }
        let parents = match parent_set {
            Some(parents) => parents,
            None => unreached(),
        };
        let key = sorted_members(&parents);
        let parent_set_len = key.len();
        if parent_set_len > self.parent_set_size_small + 1 {
            std::mem::swap(&mut self.cache_persistent_small, &mut self.cache_persistent_big);
            self.cache_persistent_big = Generation::new();
            self.parent_set_size_small += 1;
        }
        assert(self@ == (CacheModel { fits: old(self)@.fits, ..old(self)@.turned(parents@.len()) }));
        if parent_set_len > self.parent_set_size_small {
            if self.cache_persistent_big.get(&key).is_none() {
                let params = self.parameter_learning.fit(net, dataset, node, Some(parents));
                let mut generation: Generation<P::Fitted> = Generation::new();
                std::mem::swap(&mut self.cache_persistent_big, &mut generation);
                generation.insert(key.clone(), params);
                self.cache_persistent_big = generation;
                self.fits = Ghost((self.fits@ + 1) as nat);
            }
            match self.cache_persistent_big.get(&key) {
                Some(held) => held,
                None => unreached(),
            }
        } else {
            if self.cache_persistent_small.get(&key).is_none() {
                let params = self.parameter_learning.fit(net, dataset, node, Some(parents));
                let mut generation: Generation<P::Fitted> = Generation::new();
                std::mem::swap(&mut self.cache_persistent_small, &mut generation);
                generation.insert(key.clone(), params);
                self.cache_persistent_small = generation;
                self.fits = Ghost((self.fits@ + 1) as nat);
            }
            match self.cache_persistent_small.get(&key) {
                Some(held) => held,
                None => unreached(),
            }
        }
    }
}

#[verifier::external_type_specification]
#[verifier::external_body]
#[verifier::reject_recursive_types(I)]
pub struct ExCombinations<I: Iterator>(itertools::Combinations<I>);

/// The selections that an iterator over the selections of nodes from a pool
/// has still to hand out, the next one first.
pub uninterp spec fn pending_selections(
    selections: itertools::Combinations<std::vec::IntoIter<usize>>,
) -> Seq<Seq<usize>>;

/// `itertools::Itertools::combinations` over the nodes of `pool`, which are
/// listed smallest first: each selection to come lists `size` nodes of the
/// pool, smallest first, and every set of `size` nodes of the pool is among
/// them. The call keeps `size` positions in the pool at hand, so no more are
/// asked for than the pool has nodes.
#[verifier::external_body]
fn selections_of(
    pool: Vec<usize>,
    size: usize,
) -> (selections: itertools::Combinations<std::vec::IntoIter<usize>>)
    requires
        strictly_increasing(pool@),
        size <= pool@.len(),
    ensures
        forall|i: int|
            0 <= i < pending_selections(selections).len() ==> (strictly_increasing(
                #[trigger] pending_selections(selections)[i],
            ) && pending_selections(selections)[i].len() == size && pending_selections(
                selections,
            )[i].to_set().subset_of(pool@.to_set())),
        forall|chosen: Set<usize>|
            (chosen.finite() && chosen.len() == size && #[trigger] chosen.subset_of(
                pool@.to_set(),
            )) ==> exists|i: int|
                0 <= i < pending_selections(selections).len() && (#[trigger] pending_selections(
                    selections,
                )[i]).to_set() == chosen,
{
    pool.into_iter().combinations(size)
}

/// `Iterator::next` of `itertools::Combinations`: the next selection, if one
/// is left, which is then no longer to come.
#[verifier::external_body]
fn next_selection(
    selections: &mut itertools::Combinations<std::vec::IntoIter<usize>>,
) -> (selection: Option<Vec<usize>>)
    ensures
        selection is None <==> pending_selections(*old(selections)).len() == 0,
        selection is Some ==> selection->0@ == pending_selections(*old(selections))[0],
        selection is Some ==> pending_selections(*final(selections)) == pending_selections(
            *old(selections),
        ).drop_first(),
        selection is None ==> pending_selections(*final(selections)) == pending_selections(
            *old(selections),
        ),
{
    selections.next()
}

/// Whether some separation set of `size` nodes, taken from the candidates
/// other than `parent`, makes `independent` hold of `parent`.
pub open spec fn separable(
    independent: spec_fn(usize, Set<usize>) -> bool,
    candidates: Set<usize>,
    parent: usize,
    size: nat,
) -> bool {
    exists|chosen: Set<usize>|
        chosen.finite() && chosen.len() == size && chosen.subset_of(candidates.remove(parent))
            && #[trigger] independent(parent, chosen)
}

/// Whether a node stays a candidate in a round: it does unless some
/// separation set of `size` nodes, taken from the other candidates of the
/// round, separates it from the node.
pub open spec fn stays(
    independent: spec_fn(usize, Set<usize>) -> bool,
    candidates: Set<usize>,
    size: nat,
) -> spec_fn(usize) -> bool {
    |parent: usize| !separable(independent, candidates, parent, size)
}

/// The candidates that one round leaves.
pub open spec fn pruned(
    independent: spec_fn(usize, Set<usize>) -> bool,
    candidates: Set<usize>,
    size: nat,
) -> Set<usize> {
    candidates.filter(stays(independent, candidates, size))
}

/// The most rounds that a search can still take which stands at `count`
/// candidates and goes on with separation sets of `size` nodes.
pub open spec fn rounds_left(count: nat, size: nat) -> nat {
    if size < count {
        (count - size) as nat
    } else {
        0
    }
}

/// The parents that the search leaves when it stands at `candidates` and goes
/// on with separation sets of `size` nodes: rounds follow one another, with
/// separation sets one node larger each time, while the candidates are more
/// than the nodes of a separation set.
pub open spec fn search(
    independent: spec_fn(usize, Set<usize>) -> bool,
    candidates: Set<usize>,
    size: nat,
) -> Set<usize>
    decreases rounds_left(candidates.len(), size),
    when candidates.finite()
{
    if size < candidates.len() {
        proof {
            candidates.lemma_len_filter(stays(independent, candidates, size));
        }
        search(independent, pruned(independent, candidates, size), size + 1)
    } else {
        candidates
    }
}

/// The search only ever drops candidates.
pub proof fn lemma_search_keeps_candidates(
    independent: spec_fn(usize, Set<usize>) -> bool,
    candidates: Set<usize>,
    size: nat,
)
    requires
        candidates.finite(),
    ensures
        search(independent, candidates, size).subset_of(candidates),
        search(independent, candidates, size).finite(),
    decreases rounds_left(candidates.len(), size),
{
    if size < candidates.len() {
        candidates.lemma_len_filter(stays(independent, candidates, size));
        lemma_search_keeps_candidates(
            independent,
            pruned(independent, candidates, size),
            size + 1,
        );
    }
}

/// A parent that the search keeps depends on the node whatever else is
/// known: no set of the other parents that the search keeps, of at least as
/// many members as the separation sets that the search starts with, makes
/// `independent` hold of it.
pub proof fn lemma_kept_parents_are_not_separated(
    independent: spec_fn(usize, Set<usize>) -> bool,
    candidates: Set<usize>,
    size: nat,
    parent: usize,
    chosen: Set<usize>,
)
    requires
        candidates.finite(),
        search(independent, candidates, size).contains(parent),
        chosen.subset_of(search(independent, candidates, size).remove(parent)),
        chosen.finite(),
        chosen.len() >= size,
    ensures
        !independent(parent, chosen),
    decreases rounds_left(candidates.len(), size),
{
    lemma_search_keeps_candidates(independent, candidates, size);
    if size < candidates.len() {
        let left = pruned(independent, candidates, size);
        candidates.lemma_len_filter(stays(independent, candidates, size));
        lemma_search_keeps_candidates(independent, left, size + 1);
        if chosen.len() == size {
            assert(left.contains(parent));
            assert(!separable(independent, candidates, parent, size));
            assert(chosen.subset_of(candidates.remove(parent)));
        } else {
            lemma_kept_parents_are_not_separated(independent, left, size + 1, parent, chosen);
        }
    } else {
        vstd::set_lib::lemma_len_subset(chosen, candidates.remove(parent));
    }
}

/// A candidate that the search drops has been separated from the node: some
/// set of other candidates makes `independent` hold of it.
pub proof fn lemma_dropped_candidates_are_separated(
    independent: spec_fn(usize, Set<usize>) -> bool,
    candidates: Set<usize>,
    size: nat,
    parent: usize,
)
    requires
        candidates.finite(),
        candidates.contains(parent),
        !search(independent, candidates, size).contains(parent),
    ensures
        exists|chosen: Set<usize>|
            chosen.finite() && chosen.subset_of(candidates.remove(parent)) && #[trigger] independent(
                parent,
                chosen,
            ),
    decreases rounds_left(candidates.len(), size),
{
    if size < candidates.len() {
        let left = pruned(independent, candidates, size);
        candidates.lemma_len_filter(stays(independent, candidates, size));
        if left.contains(parent) {
            lemma_dropped_candidates_are_separated(independent, left, size + 1, parent);
            let chosen = choose|chosen: Set<usize>|
                chosen.finite() && chosen.subset_of(left.remove(parent)) && #[trigger] independent(
                    parent,
                    chosen,
                );
            assert(chosen.subset_of(candidates.remove(parent)));
        } else {
            assert(separable(independent, candidates, parent, size));
            let chosen = choose|chosen: Set<usize>|
                chosen.finite() && chosen.len() == size && chosen.subset_of(
                    candidates.remove(parent),
                ) && #[trigger] independent(parent, chosen);
            assert(chosen.finite() && chosen.subset_of(candidates.remove(parent)) && independent(
                parent,
                chosen,
            ));
        }
    }
}

/// Tells `kept`, the candidates of a round that no test has separated from
/// the node so far, the outcome of the tests of `parent` against one
/// separation set: a parent that the tests find independent of the node
/// leaves, and needs no further test in this round.
pub fn settle(kept: &mut BTreeSet<usize>, parent: usize, independent: bool) -> (done: bool)
    ensures
        done == independent,
        final(kept)@ == if independent {
            old(kept)@.remove(parent)
        } else {
            old(kept)@
        },
{
    if independent {
        kept.remove(&parent);
    }
    independent
}

/// Whether the search goes on to separation sets of `size` nodes: it does
/// while there are more candidates than that.
pub fn another_round(candidates: &BTreeSet<usize>, size: usize) -> (more: bool)
    ensures
        more == (size < candidates@.len()),
        candidates@.finite(),
        lists_ascending(ascending(candidates@), candidates@),
        ascending(candidates@).len() == candidates@.len(),
{
    let listed = sorted_members(candidates);
    size < listed.len()
}

/// Continuous-time PC: learns the parents of each node by removing, from
/// all the other nodes, those that two tests find independent of it given
/// some separation set, with separation sets of growing size.
#[allow(non_snake_case)]
pub struct CTPC<P: ParameterLearning, F: HypothesisTest<P>, C: HypothesisTest<P>> {
    parameter_learning: P,
    Ftest: F,
    Chi2test: C,
}

impl<P: ParameterLearning, F: HypothesisTest<P>, C: HypothesisTest<P>> CTPC<P, F, C> {
    /// The estimator that fits the parameters which the tests compare.
    pub closed spec fn estimator(&self) -> P {
        self.parameter_learning
    }

    /// The test that is asked first.
    pub closed spec fn first_test(&self) -> F {
        self.Ftest
    }

    /// The test that is asked where the first one finds independence.
    pub closed spec fn second_test(&self) -> C {
        self.Chi2test
    }

    /// What the two tests together say of a candidate parent of `child_node`
    /// and a separation set: whether both find the two nodes independent.
    pub open spec fn independent(
        &self,
        nodes: Seq<ParamsModel>,
        dataset: Dataset<P::Time>,
        child_node: usize,
    ) -> spec_fn(usize, Set<usize>) -> bool {
        |parent_node: usize, separation_set: Set<usize>|
            self.first_test().verdict(nodes, dataset, child_node, parent_node, separation_set)
                && self.second_test().verdict(
                nodes,
                dataset,
                child_node,
                parent_node,
                separation_set,
            )
    }

    /// The parents that the search leaves `child_node` in a network of the
    /// given nodes: the search starts from all the other nodes, with empty
    /// separation sets.
    pub open spec fn learned_parents(
        &self,
        nodes: Seq<ParamsModel>,
        dataset: Dataset<P::Time>,
        child_node: usize,
    ) -> Set<usize> {
        search(self.independent(nodes, dataset, child_node), others(nodes.len(), child_node), 0)
    }

    /// The algorithm with the given estimator and the given two tests.
    #[allow(non_snake_case)]
    pub fn new(parameter_learning: P, Ftest: F, Chi2test: C) -> (ctpc: CTPC<P, F, C>)
        ensures
            ctpc.estimator() == parameter_learning,
            ctpc.first_test() == Ftest,
            ctpc.second_test() == Chi2test,
    {
        CTPC { parameter_learning, Ftest, Chi2test }
    }

    /// Whether some separation set of `size` nodes, taken from the candidates
    /// listed in `listed` other than `parent_node`, makes both tests find
    /// `child_node` independent of `parent_node`. The separation sets are
    /// tried in the order in which they are selected, up to the first that
    /// does.
    fn separates<N: NetworkProcess>(
        &self,
        net: &N,
        dataset: &Dataset<P::Time>,
        child_node: usize,
        parent_node: usize,
        listed: &Vec<usize>,
        size: usize,
        cache: &mut Cache<P>,
    ) -> (separated: bool)
        requires
            net.well_formed(),
            child_node < net.nodes().len(),
            strictly_increasing(listed@),
            listed@.to_set().contains(parent_node),
            listed@.to_set().subset_of(others(net.nodes().len(), child_node)),
            size < listed@.len(),
            old(cache).holds_fits_of(net.nodes(), *dataset, child_node),
        ensures
            final(cache).holds_fits_of(net.nodes(), *dataset, child_node),
            separated == separable(
                self.independent(net.nodes(), *dataset, child_node),
                listed@.to_set(),
                parent_node,
                size as nat,
            ),
    {
        let ghost independent = self.independent(net.nodes(), *dataset, child_node);
        let ghost candidates = listed@.to_set();
        let pool = list_without(listed, parent_node);
        proof {
            lemma_increasing_no_duplicates(listed@);
            lemma_increasing_no_duplicates(pool@);
            listed@.unique_seq_to_set();
            pool@.unique_seq_to_set();
            vstd::seq_lib::seq_to_set_is_finite(listed@);
        }
        let mut selections = selections_of(pool, size);
        let ghost all = pending_selections(selections);
        let ghost mut tried: int = 0;
        let mut separated = false;
        let mut exhausted = false;
        while !separated && !exhausted
            invariant
                net.well_formed(),
                child_node < net.nodes().len(),
                parent_node < net.nodes().len(),
                parent_node != child_node,
                cache.holds_fits_of(net.nodes(), *dataset, child_node),
                independent == self.independent(net.nodes(), *dataset, child_node),
                candidates == listed@.to_set(),
                candidates.subset_of(others(net.nodes().len(), child_node)),
                0 <= tried <= all.len(),
                pending_selections(selections) == all.skip(tried),
                forall|i: int|
                    0 <= i < all.len() ==> (strictly_increasing(#[trigger] all[i]) && all[i].len()
                        == size && all[i].to_set().subset_of(candidates.remove(parent_node))),
                !separated ==> forall|i: int|
                    0 <= i < tried ==> !independent(parent_node, (#[trigger] all[i]).to_set()),
                exhausted ==> tried == all.len(),
                separated ==> separable(independent, candidates, parent_node, size as nat),
            decreases
                    all.len() - tried + if separated || exhausted {
                        0int
                    } else {
                        1int
                    },
        {
            match next_selection(&mut selections) {
                None => {
                    exhausted = true;
                },
                Some(selection) => {
                    let separation_set = set_of(&selection);
                    proof {
                        assert(selection@ == all[tried]);
                        assert(all.skip(tried).drop_first() =~= all.skip(tried + 1));
                        assert(strictly_increasing(all[tried]));
                    }
                    separated =
                    self.Ftest.call(net, child_node, parent_node, &separation_set, dataset, cache)
                        && self.Chi2test.call(
                        net,
                        child_node,
                        parent_node,
                        &separation_set,
                        dataset,
                        cache,
                    );
                    proof {
                        assert(separated == independent(parent_node, separation_set@));
                        if separated {
                            lemma_increasing_no_duplicates(selection@);
                            selection@.unique_seq_to_set();
                            vstd::seq_lib::seq_to_set_is_finite(selection@);
                        }
                        tried = tried + 1;
                    }
                },
            }
        }
        proof {
            if !separated {
                if separable(independent, candidates, parent_node, size as nat) {
                    let chosen = choose|chosen: Set<usize>|
                        chosen.finite() && chosen.len() == size && chosen.subset_of(
                            candidates.remove(parent_node),
                        ) && #[trigger] independent(parent_node, chosen);
                    assert(chosen.subset_of(pool@.to_set()));
                    let i = choose|i: int| 0 <= i < all.len() && (#[trigger] all[i]).to_set() == chosen;
                    assert(!independent(parent_node, all[i].to_set()));
                }
            }
        }
        separated
    }

    /// The candidates of one round that stay parents of `child_node` after
    /// every one of them has been tested against the separation sets of
    /// `size` nodes taken from the other candidates of the round.
    fn round<N: NetworkProcess>(
        &self,
        net: &N,
        dataset: &Dataset<P::Time>,
        child_node: usize,
        candidates: &BTreeSet<usize>,
        size: usize,
        cache: &mut Cache<P>,
    ) -> (kept: BTreeSet<usize>)
        requires
            net.well_formed(),
            child_node < net.nodes().len(),
            candidates@.subset_of(others(net.nodes().len(), child_node)),
            size < candidates@.len(),
            old(cache).holds_fits_of(net.nodes(), *dataset, child_node),
        ensures
            final(cache).holds_fits_of(net.nodes(), *dataset, child_node),
            kept@ == pruned(
                self.independent(net.nodes(), *dataset, child_node),
                candidates@,
                size as nat,
            ),
    {
        let ghost independent = self.independent(net.nodes(), *dataset, child_node);
        let listed = sorted_members(candidates);
        let mut kept = candidates.clone();
        let mut k: usize = 0;
        while k < listed.len()
            invariant
                k <= listed@.len(),
                net.well_formed(),
                child_node < net.nodes().len(),
                independent == self.independent(net.nodes(), *dataset, child_node),
                strictly_increasing(listed@),
                listed@.to_set() == candidates@,
                size < listed@.len(),
                candidates@.subset_of(others(net.nodes().len(), child_node)),
                cache.holds_fits_of(net.nodes(), *dataset, child_node),
                forall|x: usize|
                    kept@.contains(x) <==> (candidates@.contains(x) && !(listed@.take(
                        k as int,
                    ).to_set().contains(x) && separable(
                        independent,
                        candidates@,
                        x,
                        size as nat,
                    ))),
            decreases listed@.len() - k,
        {
            let parent_node = listed[k];
            proof {
                assert(listed@.to_set().contains(parent_node));
                lemma_members_of_longer(listed@, k as int);
            }
            let separated = self.separates(
                net,
                dataset,
                child_node,
                parent_node,
                &listed,
                size,
                cache,
            );
            let _ = settle(&mut kept, parent_node, separated);
            k += 1;
        }
        proof {
            assert(listed@.take(k as int) =~= listed@);
            assert(kept@ =~= pruned(independent, candidates@, size as nat));
        }
        kept
    }

    /// The parents that the search leaves `child_node`.
    pub fn parent_set_of<N: NetworkProcess>(
        &self,
        net: &N,
        dataset: &Dataset<P::Time>,
        child_node: usize,
    ) -> (parents: BTreeSet<usize>)
        requires
            net.well_formed(),
            child_node < net.nodes().len(),
        ensures
            parents@ == self.learned_parents(net.nodes(), *dataset, child_node),
            parents@.subset_of(others(net.nodes().len(), child_node)),
    {
        let ghost independent = self.independent(net.nodes(), *dataset, child_node);
        let mut cache = Cache::new(&self.parameter_learning);
        let count = net.get_number_of_nodes();
        let mut candidate_parent_set = all_but(count, child_node);
        assert(candidate_parent_set@ =~= others(count as nat, child_node));
        let mut separation_set_size: usize = 0;
        while another_round(&candidate_parent_set, separation_set_size)
            invariant
                net.well_formed(),
                count == net.nodes().len(),
                child_node < count,
                separation_set_size <= count,
                cache.holds_fits_of(net.nodes(), *dataset, child_node),
                independent == self.independent(net.nodes(), *dataset, child_node),
                candidate_parent_set@.subset_of(others(count as nat, child_node)),
                search(independent, candidate_parent_set@, separation_set_size as nat) == search(
                    independent,
                    others(count as nat, child_node),
                    0,
                ),
            decreases count - separation_set_size,
        {
            proof {
                let listed = ascending(candidate_parent_set@);
                assert forall|i: int| 0 <= i < listed.len() implies #[trigger] listed[i]
                    < count by {
                    assert(listed.to_set().contains(listed[i]));
                }
                lemma_increasing_fits(listed, count as int);
            }
            candidate_parent_set =
            self.round(
                net,
                dataset,
                child_node,
                &candidate_parent_set,
                separation_set_size,
                &mut cache,
            );
            separation_set_size += 1;
        }
        candidate_parent_set
    }
}

impl<P: ParameterLearning, F: HypothesisTest<P>, C: HypothesisTest<P>> StructureLearningAlgorithm for CTPC<
    P,
    F,
    C,
> {
    type Time = P::Time;

    fn fit_transform<N: NetworkProcess>(&self, net: N, dataset: &Dataset<P::Time>) -> (learned: N)
        ensures
            forall|p: int, c: int|
                #[trigger] learned.has_edge(p, c) <==> (0 <= c < net.nodes().len() && 0 <= p
                    <= usize::MAX && self.learned_parents(net.nodes(), *dataset, c as usize).contains(
                    p as usize,
                )),
    {
        let mut learned = net;
        learned.initialize_adj_matrix();
        let count = learned.get_number_of_nodes();
        let mut learned_parent_sets: Vec<BTreeSet<usize>> = Vec::new();
        let mut child_node: usize = 0;
        while child_node < count
            invariant
                child_node <= count,
                count == learned.nodes().len(),
                learned.nodes() == net.nodes(),
                learned.well_formed(),
                learned_parent_sets@.len() == child_node,
                forall|i: int|
                    0 <= i < child_node ==> (#[trigger] learned_parent_sets@[i])@.subset_of(
                        others(count as nat, i as usize),
                    ) && learned_parent_sets@[i]@ == self.learned_parents(
                        net.nodes(),
                        *dataset,
                        i as usize,
                    ),
            decreases count - child_node,
        {
            let parents = self.parent_set_of(&learned, dataset, child_node);
            learned_parent_sets.push(parents);
            child_node += 1;
        }
        commit(learned, &learned_parent_sets)
    }
}

} // verus!
