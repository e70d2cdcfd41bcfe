//! Score-based structure learning by hill climbing.

use crate::params::ParamsModel;
use crate::process::NetworkProcess;
use crate::structure_learning::score_function::ScoreFunction;
use crate::structure_learning::{commit, others, StructureLearningAlgorithm};
use crate::tools::Dataset;
use std::collections::BTreeSet;
use vstd::prelude::*;

verus! {

/// Tries the other membership of `parent` in `parent_set`: a member leaves;
/// a node that is no member joins, unless the set already has
/// `max_parent_set` members. Says whether `parent` was a member.
pub fn toggle(
    parent_set: &mut BTreeSet<usize>,
    parent: usize,
    max_parent_set: usize,
) -> (is_removed: bool)
    ensures
        is_removed == old(parent_set)@.contains(parent),
        final(parent_set)@ == if old(parent_set)@.contains(parent) {
            old(parent_set)@.remove(parent)
        } else if old(parent_set)@.len() < max_parent_set {
            old(parent_set)@.insert(parent)
        } else {
            old(parent_set)@
        },
{
    let is_removed = parent_set.remove(&parent);
    proof {
        if !is_removed {
            assert(parent_set@ =~= old(parent_set)@);
        }
    }
    if !is_removed && parent_set.len() < max_parent_set {
        parent_set.insert(parent);
    }
    is_removed
}

/// Takes back what `toggle` tried with `parent`: a node that had left
/// joins again; a node that was no member leaves, if it had joined.
pub fn undo(parent_set: &mut BTreeSet<usize>, parent: usize, is_removed: bool)
    ensures
        final(parent_set)@ == if is_removed {
            old(parent_set)@.insert(parent)
        } else {
            old(parent_set)@.remove(parent)
        },
{
    if is_removed {
        parent_set.insert(parent);
    } else {
        parent_set.remove(&parent);
    }
}

/// Taking back a toggle restores the parent set.
pub proof fn lemma_undo_restores(parent_set: Set<usize>, parent: usize, max_parent_set: usize)
    ensures
        ({
            let toggled = if parent_set.contains(parent) {
                parent_set.remove(parent)
            } else if parent_set.len() < max_parent_set {
                parent_set.insert(parent)
            } else {
                parent_set
            };
            if parent_set.contains(parent) {
                toggled.insert(parent)
            } else {
                toggled.remove(parent)
            }
        }) == parent_set,
{
    if parent_set.contains(parent) {
        assert(parent_set.remove(parent).insert(parent) =~= parent_set);
    } else {
        assert(parent_set.insert(parent).remove(parent) =~= parent_set);
        assert(parent_set.remove(parent) =~= parent_set);
    }
}

/// The parent set that `toggle` leaves.
pub open spec fn toggled(
    parent_set: Set<usize>,
    parent: usize,
    max_parent_set: usize,
) -> Set<usize> {
    if parent_set.contains(parent) {
        parent_set.remove(parent)
    } else if parent_set.len() < max_parent_set {
        parent_set.insert(parent)
    } else {
        parent_set
    }
}

/// Where a search stands: at a parent set, and at its score.
pub struct Standing<V> {
    pub parent_set: Set<usize>,
    pub score: V,
}

/// Hill climbing: learns the parents of each node by toggling the
/// membership of one candidate at a time and keeping a change only where it
/// raises the score. A pass over all candidates follows another while the
/// last pass has raised the score.
pub struct HillClimbing<S: ScoreFunction> {
    score_function: S,
    max_parent_set: Option<usize>,
}

impl<S: ScoreFunction> HillClimbing<S> {
    /// The limit on the size of a parent set, if any.
    pub closed spec fn limit(&self) -> Option<usize> {
        self.max_parent_set
    }

    /// The score function.
    pub closed spec fn scoring(&self) -> S {
        self.score_function
    }

    /// The size that no parent set may exceed in a network of `count` nodes:
    /// the limit that was given, or else the number of nodes.
    pub open spec fn bound(&self, count: nat) -> usize {
        match self.limit() {
            Some(limit) => limit,
            None => count as usize,
        }
    }

    /// Where the search for the parents of `node` stands after it has tried
    /// `parent` from `standing`: at the parent set with the membership of
    /// `parent` toggled where that has a higher score, and else where it
    /// stood.
    pub open spec fn tried(
        &self,
        nodes: Seq<ParamsModel>,
        dataset: Dataset<S::Time>,
        node: usize,
        standing: Standing<S::Score>,
        parent: usize,
    ) -> Standing<S::Score> {
        let parent_set = toggled(standing.parent_set, parent, self.bound(nodes.len()));
        let score = self.scoring().score(nodes, dataset, node, parent_set);
        if self.scoring().lower(standing.score, score) {
            Standing { parent_set, score }
        } else {
            standing
        }
    }

    /// Where the search stands after a pass has tried, from `standing`, the
    /// nodes below `upto` other than `node`, in increasing order.
    pub open spec fn swept(
        &self,
        nodes: Seq<ParamsModel>,
        dataset: Dataset<S::Time>,
        node: usize,
        standing: Standing<S::Score>,
        upto: nat,
    ) -> Standing<S::Score>
        decreases upto,
    {
        if upto == 0 {
            standing
        } else {
            let before = self.swept(nodes, dataset, node, standing, (upto - 1) as nat);
            if upto - 1 == node {
                before
            } else {
                self.tried(nodes, dataset, node, before, (upto - 1) as usize)
            }
        }
    }

    /// Where the search stands in the end, when it stands at `standing`, had
    /// the score `previous` before its last pass, and may make `passes` more
    /// passes: a pass follows while the last one has raised the score.
    pub open spec fn climbed(
        &self,
        nodes: Seq<ParamsModel>,
        dataset: Dataset<S::Time>,
        node: usize,
        standing: Standing<S::Score>,
        previous: S::Score,
        passes: nat,
    ) -> Standing<S::Score>
        decreases passes,
    {
        if passes > 0 && self.scoring().lower(previous, standing.score) {
            self.climbed(
                nodes,
                dataset,
                node,
                self.swept(nodes, dataset, node, standing, nodes.len()),
                standing.score,
                (passes - 1) as nat,
            )
        } else {
            standing
        }
    }

    /// The parents that the search leaves `node`: it starts from no parents
    /// and from a score below all others, and makes passes until one of them
    /// does not raise the score, or until it has made as many passes as a
    /// machine word counts.
    pub open spec fn learned_parents(
        &self,
        nodes: Seq<ParamsModel>,
        dataset: Dataset<S::Time>,
        node: usize,
    ) -> Set<usize> {
        self.climbed(
            nodes,
            dataset,
            node,
            Standing {
                parent_set: Set::empty(),
                score: self.scoring().score(nodes, dataset, node, Set::empty()),
            },
            self.scoring().floor(),
            usize::MAX as nat,
        ).parent_set
    }

    /// Whether the search ends because a pass has not raised the score,
    /// rather than because it has made all the passes it may make.
    pub open spec fn settles(
        &self,
        nodes: Seq<ParamsModel>,
        dataset: Dataset<S::Time>,
        node: usize,
        standing: Standing<S::Score>,
        previous: S::Score,
        passes: nat,
    ) -> bool
        decreases passes,
    {
        if passes > 0 && self.scoring().lower(previous, standing.score) {
            self.settles(
                nodes,
                dataset,
                node,
                self.swept(nodes, dataset, node, standing, nodes.len()),
                standing.score,
                (passes - 1) as nat,
            )
        } else {
            !self.scoring().lower(previous, standing.score)
        }
    }

    /// Whether the order of the scores is transitive: a score that is lower
    /// than a second one is lower than every score that the second one is
    /// lower than.
    pub open spec fn lower_is_transitive(&self) -> bool {
        forall|a: S::Score, b: S::Score, c: S::Score|
            #![trigger self.scoring().lower(a, b), self.scoring().lower(b, c)]
            self.scoring().lower(a, b) && self.scoring().lower(b, c) ==> self.scoring().lower(a, c)
    }

    /// Whether a standing has the score of its parent set.
    pub open spec fn is_scored(
        &self,
        nodes: Seq<ParamsModel>,
        dataset: Dataset<S::Time>,
        node: usize,
        standing: Standing<S::Score>,
    ) -> bool {
        standing.score == self.scoring().score(nodes, dataset, node, standing.parent_set)
    }

    /// Whether `parent_set` is a local optimum for `node`: toggling the
    /// membership of any one other node does not raise the score.
    pub open spec fn is_local_optimum(
        &self,
        nodes: Seq<ParamsModel>,
        dataset: Dataset<S::Time>,
        node: usize,
        parent_set: Set<usize>,
    ) -> bool {
        forall|parent: usize|
            parent < nodes.len() && parent != node ==> !self.scoring().lower(
                self.scoring().score(nodes, dataset, node, parent_set),
                self.scoring().score(
                    nodes,
                    dataset,
                    node,
                    #[trigger] toggled(parent_set, parent, self.bound(nodes.len())),
                ),
            )
    }

    /// A pass either raises the score or changes nothing: where the score
    /// after the pass is not higher than before, the search stands where it
    /// stood, and none of the nodes tried has raised the score.
    pub proof fn lemma_swept_rises_or_rests(
        &self,
        nodes: Seq<ParamsModel>,
        dataset: Dataset<S::Time>,
        node: usize,
        prior: Standing<S::Score>,
        upto: nat,
    )
        requires
            self.lower_is_transitive(),
            self.is_scored(nodes, dataset, node, prior),
        ensures
            self.is_scored(nodes, dataset, node, self.swept(nodes, dataset, node, prior, upto)),
            self.scoring().lower(
                prior.score,
                self.swept(nodes, dataset, node, prior, upto).score,
            ) || (self.swept(nodes, dataset, node, prior, upto) == prior && forall|parent: usize|
                parent < upto && parent != node ==> !self.scoring().lower(
                    prior.score,
                    self.scoring().score(
                        nodes,
                        dataset,
                        node,
                        #[trigger] toggled(prior.parent_set, parent, self.bound(nodes.len())),
                    ),
                )),
        decreases upto,
    {
        if upto > 0 {
            self.lemma_swept_rises_or_rests(nodes, dataset, node, prior, (upto - 1) as nat);
            let before = self.swept(nodes, dataset, node, prior, (upto - 1) as nat);
            let after = self.swept(nodes, dataset, node, prior, upto);
            if upto - 1 != node {
                let parent = (upto - 1) as usize;
                let tried = toggled(before.parent_set, parent, self.bound(nodes.len()));
                let score = self.scoring().score(nodes, dataset, node, tried);
                if self.scoring().lower(before.score, score) {
                    if before != prior {
                        assert(self.scoring().lower(prior.score, before.score)
                            && self.scoring().lower(before.score, score));
                    }
                    assert(self.scoring().lower(prior.score, after.score));
                }
            }
        }
    }

    /// A search that settles ends at a local optimum, where the order of
    /// the scores is transitive: it stands, with the score `previous`, where
    /// the pass before has left it.
    pub proof fn lemma_climbed_rests_at_optimum(
        &self,
        nodes: Seq<ParamsModel>,
        dataset: Dataset<S::Time>,
        node: usize,
        prior: Standing<S::Score>,
        passes: nat,
    )
        requires
            self.lower_is_transitive(),
            self.is_scored(nodes, dataset, node, prior),
            self.settles(
                nodes,
                dataset,
                node,
                self.swept(nodes, dataset, node, prior, nodes.len()),
                prior.score,
                passes,
            ),
        ensures
            self.is_local_optimum(
                nodes,
                dataset,
                node,
                self.climbed(
                    nodes,
                    dataset,
                    node,
                    self.swept(nodes, dataset, node, prior, nodes.len()),
                    prior.score,
                    passes,
                ).parent_set,
            ),
        decreases passes,
    {
        let standing = self.swept(nodes, dataset, node, prior, nodes.len());
        self.lemma_swept_rises_or_rests(nodes, dataset, node, prior, nodes.len());
        if passes > 0 && self.scoring().lower(prior.score, standing.score) {
            self.lemma_climbed_rests_at_optimum(nodes, dataset, node, standing, (passes - 1) as nat);
        } else {
            assert(standing == prior);
        }
    }

    /// Hill climbing ends at a local optimum: where the order of the scores
    /// is transitive, the score of no parents lies above the lowest score,
    /// and the search settles, no toggle of a single node raises the score
    /// of the parents that `node` is left with.
    pub proof fn lemma_search_ends_at_local_optimum(
        &self,
        nodes: Seq<ParamsModel>,
        dataset: Dataset<S::Time>,
        node: usize,
    )
        requires
            self.lower_is_transitive(),
            self.scoring().lower(
                self.scoring().floor(),
                self.scoring().score(nodes, dataset, node, Set::empty()),
            ),
            self.settles(
                nodes,
                dataset,
                node,
                Standing {
                    parent_set: Set::empty(),
                    score: self.scoring().score(nodes, dataset, node, Set::empty()),
                },
                self.scoring().floor(),
                usize::MAX as nat,
            ),
        ensures
            self.is_local_optimum(
                nodes,
                dataset,
                node,
                self.learned_parents(nodes, dataset, node),
            ),
    {
        let start = Standing {
            parent_set: Set::<usize>::empty(),
            score: self.scoring().score(nodes, dataset, node, Set::empty()),
        };
        self.lemma_climbed_rests_at_optimum(nodes, dataset, node, start, (usize::MAX - 1) as nat);
    }

    /// A search that stands at a parent set within the limit stays within
    /// the limit when it tries a node.
    pub proof fn lemma_tried_respects_limit(
        &self,
        nodes: Seq<ParamsModel>,
        dataset: Dataset<S::Time>,
        node: usize,
        standing: Standing<S::Score>,
        parent: usize,
    )
        requires
            standing.parent_set.finite(),
            standing.parent_set.len() <= self.bound(nodes.len()),
        ensures
            self.tried(nodes, dataset, node, standing, parent).parent_set.finite(),
            self.tried(nodes, dataset, node, standing, parent).parent_set.len() <= self.bound(
                nodes.len(),
            ),
    {
    }

    /// A search that stands at a parent set within the limit stays within
    /// the limit through a pass.
    pub proof fn lemma_swept_respects_limit(
        &self,
        nodes: Seq<ParamsModel>,
        dataset: Dataset<S::Time>,
        node: usize,
        standing: Standing<S::Score>,
        upto: nat,
    )
        requires
            standing.parent_set.finite(),
            standing.parent_set.len() <= self.bound(nodes.len()),
        ensures
            self.swept(nodes, dataset, node, standing, upto).parent_set.finite(),
            self.swept(nodes, dataset, node, standing, upto).parent_set.len() <= self.bound(
                nodes.len(),
            ),
        decreases upto,
    {
        if upto > 0 {
            self.lemma_swept_respects_limit(nodes, dataset, node, standing, (upto - 1) as nat);
            let before = self.swept(nodes, dataset, node, standing, (upto - 1) as nat);
            if upto - 1 != node {
                self.lemma_tried_respects_limit(nodes, dataset, node, before, (upto - 1) as usize);
            }
        }
    }

    /// A search that stands at a parent set within the limit ends at one
    /// within the limit.
    pub proof fn lemma_climbed_respects_limit(
        &self,
        nodes: Seq<ParamsModel>,
        dataset: Dataset<S::Time>,
        node: usize,
        standing: Standing<S::Score>,
        previous: S::Score,
        passes: nat,
    )
        requires
            standing.parent_set.finite(),
            standing.parent_set.len() <= self.bound(nodes.len()),
        ensures
            self.climbed(nodes, dataset, node, standing, previous, passes).parent_set.finite(),
            self.climbed(nodes, dataset, node, standing, previous, passes).parent_set.len()
                <= self.bound(nodes.len()),
        decreases passes,
    {
        if passes > 0 && self.scoring().lower(previous, standing.score) {
            self.lemma_swept_respects_limit(nodes, dataset, node, standing, nodes.len());
            self.lemma_climbed_respects_limit(
                nodes,
                dataset,
                node,
                self.swept(nodes, dataset, node, standing, nodes.len()),
                standing.score,
                (passes - 1) as nat,
            );
        }
    }

    /// The limit on the size of a parent set is respected: no node is
    /// learned more parents than the limit allows.
    pub proof fn lemma_limit_is_respected(
        &self,
        nodes: Seq<ParamsModel>,
        dataset: Dataset<S::Time>,
        node: usize,
    )
        ensures
            self.learned_parents(nodes, dataset, node).finite(),
            self.learned_parents(nodes, dataset, node).len() <= self.bound(nodes.len()),
    {
        self.lemma_climbed_respects_limit(
            nodes,
            dataset,
            node,
            Standing {
                parent_set: Set::empty(),
                score: self.scoring().score(nodes, dataset, node, Set::empty()),
            },
            self.scoring().floor(),
            usize::MAX as nat,
        );
    }

    /// The algorithm with the given score and, if any, the given limit on
    /// the size of a parent set.
    pub fn new(score_function: S, max_parent_set: Option<usize>) -> (hill_climbing: HillClimbing<S>)
        ensures
            hill_climbing.limit() == max_parent_set,
            hill_climbing.scoring() == score_function,
    {
        HillClimbing { score_function, max_parent_set }
    }

    /// One pass over the candidates for `node`: every other node, in
    /// increasing order, has its membership in `parent_set` toggled, and the
    /// change is taken back unless it raises the score. Returns the score of
    /// the parent set that is left.
    pub fn sweep<N: NetworkProcess>(
        &self,
        net: &N,
        dataset: &Dataset<S::Time>,
        node: usize,
        parent_set: &mut BTreeSet<usize>,
        current_score: S::Score,
    ) -> (score: S::Score)
        requires
            net.well_formed(),
            node < net.nodes().len(),
            old(parent_set)@.subset_of(others(net.nodes().len(), node)),
        ensures
            final(parent_set)@.subset_of(others(net.nodes().len(), node)),
            (Standing { parent_set: final(parent_set)@, score }) == self.swept(
                net.nodes(),
                *dataset,
                node,
                Standing { parent_set: old(parent_set)@, score: current_score },
                net.nodes().len(),
            ),
    {
        let count = net.get_number_of_nodes();
        let max_parent_set = match self.max_parent_set {
            Some(limit) => limit,
            None => count,
        };
        let ghost start = Standing { parent_set: old(parent_set)@, score: current_score };
        let mut current_score = current_score;
        let mut parent: usize = 0;
        while parent < count
            invariant
                parent <= count,
                count == net.nodes().len(),
                max_parent_set == self.bound(count as nat),
                net.well_formed(),
                node < count,
                parent_set@.subset_of(others(count as nat, node)),
                (Standing { parent_set: parent_set@, score: current_score }) == self.swept(
                    net.nodes(),
                    *dataset,
                    node,
                    start,
                    parent as nat,
                ),
            decreases count - parent,
        {
            if parent != node {
                let ghost before = parent_set@;
                let is_removed = toggle(parent_set, parent, max_parent_set);
                let tmp_score = self.score_function.call(net, node, parent_set, dataset);
                if self.score_function.is_lower(&current_score, &tmp_score) {
                    current_score = tmp_score;
                } else {
                    undo(parent_set, parent, is_removed);
                    proof {
                        lemma_undo_restores(before, parent, max_parent_set);
                    }
                }
            }
            parent += 1;
        }
        current_score
    }

    /// The parents that the search leaves `node`.
    pub fn parent_set_of<N: NetworkProcess>(
        &self,
        net: &N,
        dataset: &Dataset<S::Time>,
        node: usize,
    ) -> (parents: BTreeSet<usize>)
        requires
            net.well_formed(),
            node < net.nodes().len(),
        ensures
            parents@ == self.learned_parents(net.nodes(), *dataset, node),
            parents@.subset_of(others(net.nodes().len(), node)),
    {
        let mut parent_set: BTreeSet<usize> = BTreeSet::new();
        let mut current_score = self.score_function.call(net, node, &parent_set, dataset);
        let mut old_score = self.score_function.lowest();
        let mut passes: usize = usize::MAX;
        while passes > 0 && self.score_function.is_lower(&old_score, &current_score)
            invariant
                net.well_formed(),
                node < net.nodes().len(),
                parent_set@.subset_of(others(net.nodes().len(), node)),
                self.climbed(
                    net.nodes(),
                    *dataset,
                    node,
                    Standing { parent_set: parent_set@, score: current_score },
                    old_score,
                    passes as nat,
                ) == self.climbed(
                    net.nodes(),
                    *dataset,
                    node,
                    Standing {
                        parent_set: Set::empty(),
                        score: self.scoring().score(net.nodes(), *dataset, node, Set::empty()),
                    },
                    self.scoring().floor(),
                    usize::MAX as nat,
                ),
            decreases passes,
        {
            old_score = current_score;
            current_score = self.sweep(net, dataset, node, &mut parent_set, current_score);
            passes -= 1;
        }
        parent_set
    }
}

impl<S: ScoreFunction> StructureLearningAlgorithm for HillClimbing<S> {
    type Time = S::Time;

    fn fit_transform<N: NetworkProcess>(&self, net: N, dataset: &Dataset<S::Time>) -> (learned: N)
        ensures
            forall|p: int, c: int|
                #[trigger] learned.has_edge(p, c) <==> (0 <= c < net.nodes().len() && 0 <= p
                    <= usize::MAX && self.learned_parents(net.nodes(), *dataset, c as usize).contains(
                    p as usize,
                )),
    {
        let mut learned = net;
        learned.initialize_adj_matrix();
        let count = learned.get_number_of_nodes();
        let mut learned_parent_sets: Vec<BTreeSet<usize>> = Vec::new();
        let mut node: usize = 0;
        while node < count
            invariant
                node <= count,
                count == learned.nodes().len(),
                learned.nodes() == net.nodes(),
                learned.well_formed(),
                learned_parent_sets@.len() == node,
                forall|i: int|
                    0 <= i < node ==> (#[trigger] learned_parent_sets@[i])@.subset_of(
                        others(count as nat, i as usize),
                    ) && learned_parent_sets@[i]@ == self.learned_parents(
                        net.nodes(),
                        *dataset,
                        i as usize,
                    ),
            decreases count - node,
        {
            let parents = self.parent_set_of(&learned, dataset, node);
            learned_parent_sets.push(parents);
            node += 1;
        }
        commit(learned, &learned_parent_sets)
    }
}

} // verus!
