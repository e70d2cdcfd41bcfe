//! Scores of candidate parent sets.

use crate::params::ParamsModel;
use crate::process::NetworkProcess;
use crate::tools::Dataset;
use std::collections::BTreeSet;
use vstd::prelude::*;

verus! {

/// A score that says how well a parent set explains the data of a node. The
/// higher the score, the better the parent set.
///
/// A score function answers by the nodes, the data, the node and the parent
/// set, and by nothing else: asked the same again, it answers the same. So
/// does its comparison of two scores. Nothing here holds an implementation
/// to that: what is proved of a search holds for score functions that keep
/// to it.
pub trait ScoreFunction: Sized {
    /// What stands for an instant in the datasets that are read.
    type Time;

    /// What a score is.
    type Score: Copy;

    /// The score of `parent_set` as the parents of `node`. Which score that
    /// is, is left to each score function.
    open spec fn score(
        &self,
        nodes: Seq<ParamsModel>,
        dataset: Dataset<Self::Time>,
        node: usize,
        parent_set: Set<usize>,
    ) -> Self::Score {
        arbitrary::<
            spec_fn(Self, Seq<ParamsModel>, Dataset<Self::Time>, usize, Set<usize>) -> Self::Score,
        >()(*self, nodes, dataset, node, parent_set)
    }

    /// The score that `lowest` returns.
    open spec fn floor(&self) -> Self::Score {
        arbitrary::<spec_fn(Self) -> Self::Score>()(*self)
    }

    /// Whether `first` is strictly lower than `second`. Which order that
    /// is, is left to each score function.
    open spec fn lower(&self, first: Self::Score, second: Self::Score) -> bool {
        arbitrary::<spec_fn(Self, Self::Score, Self::Score) -> bool>()(*self, first, second)
    }

    /// The score of `parent_set` as the parents of `node`.
    fn call<N: NetworkProcess>(
        &self,
        net: &N,
        node: usize,
        parent_set: &BTreeSet<usize>,
        dataset: &Dataset<Self::Time>,
    ) -> (score: Self::Score)
        requires
            net.well_formed(),
            node < net.nodes().len(),
            !parent_set@.contains(node),
            forall|p: usize| parent_set@.contains(p) ==> p < net.nodes().len(),
        ensures
            score == self.score(net.nodes(), *dataset, node, parent_set@),
    ;

    /// A score that lies below the score of every parent set.
    fn lowest(&self) -> (score: Self::Score)
        ensures
            score == self.floor(),
    ;

    /// Whether `first` is strictly lower than `second`.
    fn is_lower(&self, first: &Self::Score, second: &Self::Score) -> (lower: bool)
        ensures
            lower == self.lower(*first, *second),
    ;
}

/// The number of free parameters of a node whose counts have the given
/// shape: for every parent configuration and every state of the node, one
/// rate for each of the other states. There is none where the node has no
/// state, or where the number exceeds the machine word.
pub fn parameter_count(shape: (usize, usize, usize)) -> (count: Option<usize>)
    ensures
        count is Some <==> (shape.2 >= 1 && shape.0 * shape.1 * (shape.2 - 1) <= usize::MAX),
        count matches Some(n) ==> n == shape.0 * shape.1 * (shape.2 - 1),
{
    if shape.2 == 0 {
        return None;
    }
    let others = shape.2 - 1;
    if others == 0 {
        assert(shape.0 * shape.1 * 0 == 0) by (nonlinear_arith);
        return Some(0);
    }
    match shape.0.checked_mul(shape.1) {
        Some(tables) => tables.checked_mul(others),
        None => {
            proof {
                let tables = shape.0 as int * shape.1 as int;
                assert(tables <= tables * others) by (nonlinear_arith)
                    requires
                        tables >= 0,
                        others >= 1,
                ;
            }
            None
        },
    }
}

} // verus!
