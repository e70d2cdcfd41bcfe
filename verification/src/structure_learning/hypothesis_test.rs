//! Tests of conditional independence between two nodes.

use crate::indexing::{
    as_naturals, configuration_index, configuration_space, lemma_index_below_space,
    lemma_index_of_both, lemma_valid_on_parts, space_of, valid_on,
};
use crate::parameter_learning::ParameterLearning;
use crate::params::ParamsModel;
use crate::process::{cardinalities, cardinality_list, NetworkProcess};
use crate::sets::{ascending, lemma_increasing_no_duplicates, sorted_members};
use crate::structure_learning::constraint_based_algorithm::Cache;
use crate::tools::Dataset;
use std::collections::BTreeSet;
use vstd::prelude::*;

verus! {

/// A statistical test of whether a node depends on one of its candidate
/// parents once a separation set is conditioned on.
///
/// A test answers by the nodes, the data and the three things it is asked
/// about, and by nothing else: asked the same again, it answers the same.
/// The cache that it is handed only spares it work: it holds nothing but
/// parameters fitted for the same child over the same nodes and data, and the
/// test leaves it so. Nothing here holds an implementation to that: what is
/// proved of a search holds for tests that keep to it.
pub trait HypothesisTest<P: ParameterLearning>: Sized {
    /// The answer of the test: whether it finds `child_node` independent of
    /// `parent_node` given the nodes in `separation_set`. Which answer that
    /// is, is left to each test.
    open spec fn verdict(
        &self,
        nodes: Seq<ParamsModel>,
        dataset: Dataset<P::Time>,
        child_node: usize,
        parent_node: usize,
        separation_set: Set<usize>,
    ) -> bool {
        arbitrary::<
            spec_fn(Self, Seq<ParamsModel>, Dataset<P::Time>, usize, usize, Set<usize>) -> bool,
        >()(*self, nodes, dataset, child_node, parent_node, separation_set)
    }

    /// Whether the test finds `child_node` independent of `parent_node`
    /// given the nodes in `separation_set`. The parameters that the test
    /// needs are fitted through `cache`.
    fn call<N: NetworkProcess>(
        &self,
        net: &N,
        child_node: usize,
        parent_node: usize,
        separation_set: &BTreeSet<usize>,
        dataset: &Dataset<P::Time>,
        cache: &mut Cache<P>,
    ) -> (independent: bool)
        requires
            net.well_formed(),
            child_node < net.nodes().len(),
            parent_node < net.nodes().len(),
            parent_node != child_node,
            !separation_set@.contains(child_node),
            !separation_set@.contains(parent_node),
            forall|x: usize| separation_set@.contains(x) ==> x < net.nodes().len(),
            old(cache).holds_fits_of(net.nodes(), *dataset, child_node),
        ensures
            final(cache).holds_fits_of(net.nodes(), *dataset, child_node),
            independent == self.verdict(
                net.nodes(),
                *dataset,
                child_node,
                parent_node,
                separation_set@,
            ),
    ;
}

/// The row of parameters conditioned on a separation set that goes with row
/// `row` of parameters conditioned on the separation set and one more
/// parent: the rows of the larger model are numbered with the parent as one
/// more digit, of `cardinality` values, above the `stride` joint states of
/// the nodes before it; leaving that digit out gives the row of the smaller
/// model.
pub open spec fn matched_row_of(row: nat, stride: nat, cardinality: nat) -> nat {
    (row % stride + (row / (stride * cardinality)) * stride) as nat
}

/// The row of the smaller model that goes with row `row` of the larger one.
pub fn matched_row(row: usize, stride: usize, cardinality: usize) -> (matched: usize)
    requires
        stride > 0,
        cardinality > 0,
        stride * cardinality <= usize::MAX,
    ensures
        matched == matched_row_of(row as nat, stride as nat, cardinality as nat),
        matched <= row,
{
    let span = stride * cardinality;
    proof {
        let q = row as int / span as int;
        let r = row as int % span as int;
        assert(span > 0) by (nonlinear_arith)
            requires
                span == stride * cardinality,
                stride > 0,
                cardinality > 0,
        ;
        vstd::arithmetic::div_mod::lemma_fundamental_div_mod(row as int, span as int);
        vstd::arithmetic::div_mod::lemma_mod_pos_bound(row as int, span as int);
        vstd::arithmetic::div_mod::lemma_mod_pos_bound(row as int, stride as int);
        vstd::arithmetic::div_mod::lemma_fundamental_div_mod(row as int, stride as int);
        vstd::arithmetic::div_mod::lemma_div_pos_is_pos(row as int, span as int);
        vstd::arithmetic::div_mod::lemma_div_pos_is_pos(row as int, stride as int);
        let low = row as int % stride as int;
        let t = row as int / stride as int;
        assert(row == span * q + r);
        assert(row == stride * t + low);
        assert(q * stride <= span * q) by (nonlinear_arith)
            requires
                span == stride * cardinality,
                cardinality >= 1,
                q >= 0,
                stride >= 0,
        ;
        assert(low <= r) by {
            // The remainder by the stride is the remainder by the stride of
            // the remainder by the span.
            vstd::arithmetic::div_mod::lemma_mod_mod(row as int, stride as int, cardinality as int);
            vstd::arithmetic::div_mod::lemma_mod_decreases(r as nat, stride as nat);
        }
        assert(low + q * stride <= row);
    }
    row % stride + (row / span) * stride
}

/// The nodes of `separation_set` together with `parent_node`, smallest
/// first.
pub open spec fn extended_list(separation_set: Set<usize>, parent_node: usize) -> Seq<usize> {
    ascending(separation_set.insert(parent_node))
}

/// The number of joint states of the nodes that come before `parent_node`
/// when it is listed, smallest first, among the nodes of `separation_set`:
/// the weight of the digit of `parent_node` in the row numbers of parameters
/// conditioned on all of them. There is none where the machine word does not
/// hold it.
pub fn partial_cardinality_product<N: NetworkProcess>(
    net: &N,
    separation_set: &BTreeSet<usize>,
    parent_node: usize,
) -> (product: Option<usize>)
    requires
        net.well_formed(),
        parent_node < net.nodes().len(),
        forall|x: usize| separation_set@.contains(x) ==> x < net.nodes().len(),
    ensures
        extended_list(separation_set@, parent_node).contains(parent_node),
        product is Some <==> configuration_space(
            extended_list(separation_set@, parent_node).take(
                extended_list(separation_set@, parent_node).index_of(parent_node),
            ),
            cardinalities(net.nodes()),
        ) <= usize::MAX,
        product matches Some(stride) ==> stride == configuration_space(
            extended_list(separation_set@, parent_node).take(
                extended_list(separation_set@, parent_node).index_of(parent_node),
            ),
            cardinalities(net.nodes()),
        ),
{
    let mut extended = separation_set.clone();
    extended.insert(parent_node);
    let listed = sorted_members(&extended);
    let cards = cardinality_list(net);
    proof {
        assert(listed@.to_set().contains(parent_node));
        lemma_increasing_no_duplicates(listed@);
    }
    let mut before: Vec<usize> = Vec::new();
    let mut k: usize = 0;
    while k < listed.len() && listed[k] != parent_node
        invariant
            k <= listed@.len(),
            before@ == listed@.take(k as int),
            forall|i: int| 0 <= i < k ==> listed@[i] != parent_node,
        decreases listed@.len() - k,
    {
        before.push(listed[k]);
        proof {
            assert(listed@.take(k + 1) =~= listed@.take(k as int).push(listed@[k as int]));
        }
        k += 1;
    }
    proof {
        let at = listed@.index_of(parent_node);
        assert(0 <= at < listed@.len() && listed@[at] == parent_node);
        assert(k < listed@.len());
        assert(at == k);
        assert forall|i: int| 0 <= i < before@.len() implies #[trigger] before@[i] < cards@.len() by {
            assert(listed@.to_set().contains(listed@[i]));
            assert(cards@.len() == as_naturals(cards@).len());
        }
    }
    space_of(&before, &cards)
}

/// Whether `compare` finds every row of the larger of two nested models
/// alike the row of the smaller model that goes with it. The rows of the
/// larger model are compared in increasing order, up to the first that
/// `compare` finds different.
pub fn rows_agree<F: Fn(usize, usize) -> bool>(
    rows: usize,
    stride: usize,
    cardinality: usize,
    compare: F,
) -> (agree: bool)
    requires
        stride > 0,
        cardinality > 0,
        stride * cardinality <= usize::MAX,
        forall|i: usize, j: usize| j < rows && i <= j ==> call_requires(compare, (i, j)),
    ensures
        agree ==> forall|j: usize|
            j < rows ==> call_ensures(
                compare,
                (matched_row_of(j as nat, stride as nat, cardinality as nat) as usize, j),
                true,
            ),
        !agree ==> exists|j: usize|
            j < rows && call_ensures(
                compare,
                (matched_row_of(j as nat, stride as nat, cardinality as nat) as usize, j),
                false,
            ),
{
    let mut j: usize = 0;
    while j < rows
        invariant
            j <= rows,
            stride > 0,
            cardinality > 0,
            stride * cardinality <= usize::MAX,
            forall|a: usize, b: usize| b < rows && a <= b ==> call_requires(compare, (a, b)),
            forall|b: usize|
                b < j ==> call_ensures(
                    compare,
                    (matched_row_of(b as nat, stride as nat, cardinality as nat) as usize, b),
                    true,
                ),
        decreases rows - j,
    {
        let i = matched_row(j, stride, cardinality);
        if !compare(i, j) {
            return false;
        }
        j += 1;
    }
    true
}

/// Leaving a parent out of a parent set leaves its digit out of the row
/// number: for nodes listed as `extended` and their joint state under
/// `state`, the row matched with the row for all of them is the row for the
/// list without its entry at `at`.
pub proof fn lemma_matched_row_leaves_out(
    extended: Seq<usize>,
    at: int,
    state: Seq<usize>,
    cards: Seq<nat>,
)
    requires
        0 <= at < extended.len(),
        valid_on(extended, state, cards),
    ensures
        matched_row_of(
            configuration_index(extended, state, cards),
            configuration_space(extended.take(at), cards),
            cards[extended[at] as int],
        ) == configuration_index(extended.remove(at), state, cards),
{
    let low = extended.take(at);
    let high = extended.skip(at + 1);
    let parent = extended[at];
    let middle = seq![parent];
    assert(extended =~= (low + middle) + high);
    assert(extended.remove(at) =~= low + high);
    lemma_valid_on_parts(low + middle, high, state, cards);
    lemma_valid_on_parts(low, middle, state, cards);
    lemma_index_of_both(low + middle, high, state, cards);
    lemma_index_of_both(low, middle, state, cards);
    lemma_index_of_both(low, high, state, cards);
    lemma_index_below_space(low, state, cards);
    let stride = configuration_space(low, cards) as int;
    let c = cards[parent as int] as int;
    let x = state[parent as int] as int;
    let i_low = configuration_index(low, state, cards) as int;
    let i_high = configuration_index(high, state, cards) as int;
    let big = configuration_index(extended, state, cards) as int;
    assert(middle.drop_last() =~= Seq::<usize>::empty());
    assert(middle.last() == parent);
    assert(configuration_space(middle, cards) == c) by {
        let nothing = middle.drop_last();
        assert(nothing.len() == 0);
        assert(configuration_space(nothing, cards) == 1);
        assert(1 * c == c) by (nonlinear_arith);
    }
    assert(configuration_index(middle, state, cards) == x) by {
        let nothing = middle.drop_last();
        assert(nothing.len() == 0);
        assert(configuration_index(nothing, state, cards) == 0);
        assert(configuration_space(nothing, cards) == 1);
        assert(x * 1 == x) by (nonlinear_arith);
    }
    assert(middle[0] == parent);
    assert(x < c);
    assert(big == i_low + stride * x + (stride * c) * i_high);
    assert(big == (x + c * i_high) * stride + i_low) by (nonlinear_arith)
        requires
            big == i_low + stride * x + (stride * c) * i_high,
    ;
    vstd::arithmetic::div_mod::lemma_fundamental_div_mod_converse(
        big,
        stride,
        x + c * i_high,
        i_low,
    );
    assert(0 <= i_low + stride * x < stride * c) by (nonlinear_arith)
        requires
            0 <= i_low < stride,
            0 <= x < c,
    ;
    assert(big == i_high * (stride * c) + (i_low + stride * x)) by (nonlinear_arith)
        requires
            big == i_low + stride * x + (stride * c) * i_high,
    ;
    vstd::arithmetic::div_mod::lemma_fundamental_div_mod_converse(
        big,
        stride * c,
        i_high,
        i_low + stride * x,
    );
    assert(i_low + i_high * stride == i_low + stride * i_high) by (nonlinear_arith);
}

} // verus!
