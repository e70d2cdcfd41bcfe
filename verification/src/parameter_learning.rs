//! Sufficient statistics of a node, and what an estimator of parameters is.
//!
//! The statistics counted here are the transitions of a node between its
//! states, by configuration of a set of parents. The time a node spends in
//! each state is a sum of real numbers, which the caller forms with the row
//! numbers that `index_of` gives.

use crate::indexing::{
    as_naturals, configuration_index, configuration_space, index_of, is_valid_on, space_of,
    valid_on,
};
use crate::process::{cardinalities, cardinality_list, NetworkProcess};
use crate::sets::{ascending, sorted_members};
use crate::storage::{
    count_bytes, counts_fit, event_dims, event_entries, stack_fits, transition_dims,
    transition_entries, EventTable, TransitionCounts,
};
use crate::tools::Dataset;
use crate::params::{ParamsModel, ParamsTrait};
use std::collections::BTreeSet;
use vstd::prelude::*;

verus! {

/// The parents that a fit conditions on: the nodes in `parent_set` or,
/// without one, those among the first `count` nodes that `has_edge` gives
/// `node` as parents.
pub open spec fn conditioned_on(
    parent_set: Option<Set<usize>>,
    count: nat,
    has_edge: spec_fn(int, int) -> bool,
    node: usize,
) -> Set<usize> {
    match parent_set {
        Some(parents) => parents,
        None => Set::new(|p: usize| p < count && has_edge(p as int, node as int)),
    }
}

/// A way to fit the parameters of a node to data.
///
/// An estimator answers by the nodes, the data, the node and the parents
/// that it conditions on, and by nothing else: asked the same again, it
/// answers the same. Nothing here holds an implementation to that: what is
/// proved of a cache holds for estimators that keep to it.
pub trait ParameterLearning: Sized {
    /// What stands for an instant in the datasets that are read.
    type Time;

    /// What a fit yields.
    type Fitted;

    /// The parameters that the estimator fits for `node` conditioned on the
    /// nodes in `parents`. Which parameters those are, is left to each
    /// estimator.
    open spec fn fitted(
        &self,
        nodes: Seq<ParamsModel>,
        dataset: Dataset<Self::Time>,
        node: usize,
        parents: Set<usize>,
    ) -> Self::Fitted {
        arbitrary::<
            spec_fn(Self, Seq<ParamsModel>, Dataset<Self::Time>, usize, Set<usize>) -> Self::Fitted,
        >()(*self, nodes, dataset, node, parents)
    }

    /// The parameters of `node` fitted to `dataset`, conditioned on the
    /// nodes in `parent_set` or, without one, on the parents that `net` gives
    /// the node.
    fn fit<N: NetworkProcess>(
        &self,
        net: &N,
        dataset: &Dataset<Self::Time>,
        node: usize,
        parent_set: Option<BTreeSet<usize>>,
    ) -> (fitted: Self::Fitted)
        requires
            net.well_formed(),
            node < net.nodes().len(),
            parent_set is None ==> net.has_structure(),
            parent_set matches Some(parents) ==> forall|p: usize|
                parents@.contains(p) ==> p < net.nodes().len(),
        ensures
            fitted == self.fitted(
                net.nodes(),
                *dataset,
                node,
                conditioned_on(
                    match parent_set {
                        Some(parents) => Some(parents@),
                        None => None,
                    },
                    net.nodes().len(),
                    |p: int, c: int| net.has_edge(p, c),
                    node,
                ),
            ),
    ;
}

/// Whether the step from the sample `before` to the sample `after` moves
/// `node` from state `x` to another state `y` while the nodes listed in
/// `parents` are in the joint state numbered `u`.
pub open spec fn is_move(
    before: Seq<usize>,
    after: Seq<usize>,
    node: int,
    parents: Seq<usize>,
    cards: Seq<nat>,
    u: int,
    x: int,
    y: int,
) -> bool {
    &&& before[node] == x
    &&& after[node] == y
    &&& x != y
    &&& configuration_index(parents, before, cards) == u
}

/// The number of moves of `node` from `x` to `y` under configuration `u`
/// among the first `steps` steps of the samples `rows`.
pub open spec fn moves_within(
    rows: Seq<Seq<usize>>,
    steps: int,
    node: int,
    parents: Seq<usize>,
    cards: Seq<nat>,
    u: int,
    x: int,
    y: int,
) -> nat
    decreases steps,
{
    if steps <= 0 {
        0
    } else {
        moves_within(rows, steps - 1, node, parents, cards, u, x, y) + if is_move(
            rows[steps - 1],
            rows[steps],
            node,
            parents,
            cards,
            u,
            x,
            y,
        ) {
            1nat
        } else {
            0nat
        }
    }
}

/// The number of steps between consecutive samples of a run of `samples`
/// samples.
pub open spec fn steps_of(samples: int) -> int {
    if samples <= 0 {
        0
    } else {
        samples - 1
    }
}

/// The number of moves of `node` from `x` to `y` under configuration `u` in
/// the first `count` of the runs `runs`.
pub open spec fn moves_in(
    runs: Seq<Seq<Seq<usize>>>,
    count: int,
    node: int,
    parents: Seq<usize>,
    cards: Seq<nat>,
    u: int,
    x: int,
    y: int,
) -> nat
    decreases count,
{
    if count <= 0 {
        0
    } else {
        moves_in(runs, count - 1, node, parents, cards, u, x, y) + moves_within(
            runs[count - 1],
            steps_of(runs[count - 1].len() as int),
            node,
            parents,
            cards,
            u,
            x,
            y,
        )
    }
}

/// The number of steps in the first `count` of the runs `runs`.
pub open spec fn steps_in(runs: Seq<Seq<Seq<usize>>>, count: int) -> nat
    decreases count,
{
    if count <= 0 {
        0
    } else {
        (steps_in(runs, count - 1) + steps_of(runs[count - 1].len() as int)) as nat
    }
}

/// No more moves are counted than steps are looked at.
pub proof fn lemma_moves_within_bound(
    rows: Seq<Seq<usize>>,
    steps: int,
    node: int,
    parents: Seq<usize>,
    cards: Seq<nat>,
    u: int,
    x: int,
    y: int,
)
    requires
        0 <= steps,
    ensures
        moves_within(rows, steps, node, parents, cards, u, x, y) <= steps,
    decreases steps,
{
    if steps > 0 {
        lemma_moves_within_bound(rows, steps - 1, node, parents, cards, u, x, y);
    }
}

/// No more moves are counted than the runs have steps.
pub proof fn lemma_moves_in_bound(
    runs: Seq<Seq<Seq<usize>>>,
    count: int,
    node: int,
    parents: Seq<usize>,
    cards: Seq<nat>,
    u: int,
    x: int,
    y: int,
)
    requires
        0 <= count,
    ensures
        moves_in(runs, count, node, parents, cards, u, x, y) <= steps_in(runs, count),
    decreases count,
{
    if count > 0 {
        lemma_moves_in_bound(runs, count - 1, node, parents, cards, u, x, y);
        lemma_moves_within_bound(
            runs[count - 1],
            steps_of(runs[count - 1].len() as int),
            node,
            parents,
            cards,
            u,
            x,
            y,
        );
    }
}

/// The steps of the first runs are among the steps of all runs.
pub proof fn lemma_steps_in_monotone(runs: Seq<Seq<Seq<usize>>>, count: int, all: int)
    requires
        0 <= count <= all,
    ensures
        steps_in(runs, count) <= steps_in(runs, all),
    decreases all - count,
{
    if count < all {
        lemma_steps_in_monotone(runs, count, all - 1);
    }
}

/// Whether the samples `rows` of one run can be counted for `node` with the
/// parents `parents`: where the run has a step, every sample gives `node` a
/// state of its domain, and every sample but the last gives each parent one
/// of its own.
pub open spec fn run_is_countable(
    rows: Seq<Seq<usize>>,
    node: int,
    parents: Seq<usize>,
    cards: Seq<nat>,
) -> bool {
    rows.len() >= 2 ==> {
        &&& forall|k: int|
            0 <= k < rows.len() ==> node < (#[trigger] rows[k]).len() && rows[k][node]
                < cards[node]
        &&& forall|k: int| 0 <= k < rows.len() - 1 ==> valid_on(parents, #[trigger] rows[k], cards)
    }
}

/// Whether the transitions of `node` under the parents in `parent_set` can
/// be counted over the runs `runs`: the parents are nodes of the network, the
/// array of counts can be allocated, every run can be counted, and the runs
/// have no more steps than a count can hold.
pub open spec fn countable(
    cards: Seq<nat>,
    runs: Seq<Seq<Seq<usize>>>,
    node: int,
    parent_set: Set<usize>,
) -> bool {
    &&& 0 <= node < cards.len()
    &&& cards[node] <= usize::MAX
    &&& forall|p: usize| parent_set.contains(p) ==> p < cards.len()
    &&& configuration_space(ascending(parent_set), cards) <= usize::MAX
    &&& stack_fits(
        configuration_space(ascending(parent_set), cards) as usize,
        cards[node] as usize,
        cards[node] as usize,
        count_bytes(),
    )
    &&& forall|t: int|
        0 <= t < runs.len() ==> run_is_countable(
            #[trigger] runs[t],
            node,
            ascending(parent_set),
            cards,
        )
    &&& steps_in(runs, runs.len() as int) <= usize::MAX
}

/// Whether the samples of one run can be counted for `node` with the parents
/// listed in `parents`.
fn run_can_be_counted(
    events: &EventTable,
    node: usize,
    parents: &Vec<usize>,
    cards: &Vec<usize>,
) -> (countable: bool)
    requires
        node < cards@.len(),
    ensures
        countable == run_is_countable(
            event_entries(*events),
            node as int,
            parents@,
            as_naturals(cards@),
        ),
{
    let samples = events.samples();
    if samples < 2 {
        return true;
    }
    let ghost rows = event_entries(*events);
    let ghost radices = as_naturals(cards@);
    let mut k: usize = 0;
    while k < samples
        invariant
            k <= samples,
            samples >= 2,
            events.well_formed(),
            samples == event_dims(*events).0,
            rows == event_entries(*events),
            rows.len() == samples,
            radices == as_naturals(cards@),
            node < cards@.len(),
            forall|i: int|
                0 <= i < k ==> node < (#[trigger] rows[i]).len() && rows[i][node as int]
                    < radices[node as int],
            forall|i: int| 0 <= i < k && i < samples - 1 ==> valid_on(parents@, #[trigger] rows[i], radices),
        decreases samples - k,
    {
        let row = events.row(k);
        if node >= row.len() || row[node] >= cards[node] {
            proof {
                assert(row@ == rows[k as int]);
            }
            return false;
        }
        if k < samples - 1 && !is_valid_on(parents, &row, cards) {
            return false;
        }
        k += 1;
    }
    true
}

/// Whether the transitions of `node` under the parents in `parent_set` can
/// be counted over `dataset`.
pub fn can_count<N: NetworkProcess, T>(
    net: &N,
    dataset: &Dataset<T>,
    node: usize,
    parent_set: &BTreeSet<usize>,
) -> (possible: bool)
    requires
        net.well_formed(),
    ensures
        possible == countable(cardinalities(net.nodes()), dataset.events(), node as int, parent_set@),
{
    let ghost cards = cardinalities(net.nodes());
    let ghost runs = dataset.events();
    let count = net.get_number_of_nodes();
    assert(cards.len() == count);
    if node >= count {
        return false;
    }
    let parents = sorted_members(parent_set);
    let mut j: usize = 0;
    while j < parents.len()
        invariant
            j <= parents@.len(),
            cards == cardinalities(net.nodes()),
            runs == dataset.events(),
            cards.len() == count,
            parents@.to_set() == parent_set@,
            forall|i: int| 0 <= i < j ==> #[trigger] parents@[i] < count,
        decreases parents@.len() - j,
    {
        if parents[j] >= count {
            proof {
                let x = parents@[j as int];
                assert(parents@.to_set().contains(x));
                assert(parent_set@.contains(x) && !(x < cards.len()));
            }
            return false;
        }
        j += 1;
    }
    proof {
        assert forall|p: usize| parent_set@.contains(p) implies p < count by {
            let i = choose|i: int| 0 <= i < parents@.len() && parents@[i] == p;
        }
    }
    let card_list = cardinality_list(net);
    assert(card_list@.len() == as_naturals(card_list@).len());
    let space = match space_of(&parents, &card_list) {
        Some(space) => space,
        None => {
            return false;
        },
    };
    if !counts_fit(space, card_list[node], card_list[node]) {
        return false;
    }
    let trajectories = dataset.get_trajectories();
    let mut t: usize = 0;
    while t < trajectories.len()
        invariant
            t <= trajectories@.len(),
            trajectories@ == dataset.trajectories(),
            runs == dataset.events(),
            runs.len() == trajectories@.len(),
            as_naturals(card_list@) == cards,
            cards == cardinalities(net.nodes()),
            node < card_list@.len(),
            parents@ == ascending(parent_set@),
            forall|i: int| 0 <= i < t ==> run_is_countable(#[trigger] runs[i], node as int, parents@, cards),
        decreases trajectories@.len() - t,
    {
        let events = trajectories[t].get_events();
        proof {
            assert(runs[t as int] == trajectories@[t as int].events());
        }
        if !run_can_be_counted(events, node, &parents, &card_list) {
            proof {
                assert(0 <= t < runs.len());
                assert(!run_is_countable(runs[t as int], node as int, ascending(parent_set@), cards));
            }
            return false;
        }
        t += 1;
    }
    sample_size(dataset).is_some()
}

/// Whether `counts` holds, for `node` and the parents listed in `parents`,
/// the moves found in the first `done` runs of `runs` and in the first
/// `steps` steps of the samples `rows`.
pub open spec fn counts_match(
    counts: Seq<Seq<Seq<usize>>>,
    runs: Seq<Seq<Seq<usize>>>,
    done: int,
    rows: Seq<Seq<usize>>,
    steps: int,
    node: int,
    parents: Seq<usize>,
    cards: Seq<nat>,
) -> bool {
    forall|u: int, x: int, y: int|
        0 <= u < configuration_space(parents, cards) && 0 <= x < cards[node] && 0 <= y
            < cards[node] ==> (#[trigger] counts[u][x][y]) == moves_in(
            runs,
            done,
            node,
            parents,
            cards,
            u,
            x,
            y,
        ) + moves_within(rows, steps, node, parents, cards, u, x, y)
}

/// The transition counts of `node` conditioned on the parents in
/// `parent_set`: one table per joint state of the parents, whose cell
/// `[x][y]` holds the number of steps in the dataset that move `node` from
/// `x` to `y` while the parents are in that joint state.
pub fn sufficient_statistics<N: NetworkProcess, T>(
    net: &N,
    dataset: &Dataset<T>,
    node: usize,
    parent_set: &BTreeSet<usize>,
) -> (m: TransitionCounts)
    requires
        net.well_formed(),
        countable(cardinalities(net.nodes()), dataset.events(), node as int, parent_set@),
    ensures
        m.well_formed(),
        transition_dims(m).0 == configuration_space(
            ascending(parent_set@),
            cardinalities(net.nodes()),
        ),
        transition_dims(m).1 == net.nodes()[node as int].cardinality,
        transition_dims(m).2 == net.nodes()[node as int].cardinality,
        forall|u: int, x: int, y: int|
            0 <= u < transition_dims(m).0 && 0 <= x < transition_dims(m).1 && 0 <= y
                < transition_dims(m).2 ==> (#[trigger] transition_entries(m)[u][x][y]) == moves_in(
                dataset.events(),
                dataset.events().len() as int,
                node as int,
                ascending(parent_set@),
                cardinalities(net.nodes()),
                u,
                x,
                y,
            ),
{
    let ghost cards = cardinalities(net.nodes());
    let ghost runs = dataset.events();
    let parents = sorted_members(parent_set);
    let ghost listed = parents@;
    let card_list = cardinality_list(net);
    let node_domain = card_list[node];
    proof {
        assert forall|k: int| 0 <= k < listed.len() implies #[trigger] listed[k]
            < card_list@.len() by {
            assert(listed.to_set().contains(listed[k]));
        }
    }
    let space = match space_of(&parents, &card_list) {
        Some(space) => space,
        None => unreached(),
    };
    let mut m = TransitionCounts::zeros(space, node_domain, node_domain);
    let trajectories = dataset.get_trajectories();
    let mut t: usize = 0;
    while t < trajectories.len()
        invariant
            t <= trajectories@.len(),
            trajectories@ == dataset.trajectories(),
            dataset.well_formed(),
            runs == dataset.events(),
            runs.len() == trajectories@.len(),
            cards == cardinalities(net.nodes()),
            as_naturals(card_list@) == cards,
            listed == parents@,
            listed == ascending(parent_set@),
            countable(cards, runs, node as int, parent_set@),
            node_domain == cards[node as int],
            space == configuration_space(listed, cards),
            transition_dims(m) == (space, node_domain, node_domain),
            m.well_formed(),
            counts_match(
                transition_entries(m),
                runs,
                t as int,
                Seq::empty(),
                0,
                node as int,
                listed,
                cards,
            ),
        decreases trajectories@.len() - t,
    {
        let events = trajectories[t].get_events();
        let samples = events.samples();
        let ghost rows = runs[t as int];
        proof {
            assert(rows == trajectories@[t as int].events());
            assert(run_is_countable(rows, node as int, listed, cards));
            lemma_steps_in_monotone(runs, t + 1, runs.len() as int);
        }
        if samples >= 2 {
            let mut before = events.row(0);
            let mut k: usize = 0;
            while k < samples - 1
                invariant
                    k <= samples - 1,
                    samples >= 2,
                    samples == rows.len(),
                    samples == event_dims(*events).0,
                    rows == crate::storage::event_entries(*events),
                    rows == runs[t as int],
                    t < runs.len(),
                    before@ == rows[k as int],
                    cards == cardinalities(net.nodes()),
                    as_naturals(card_list@) == cards,
                    listed == parents@,
                    run_is_countable(rows, node as int, listed, cards),
                    0 <= node < cards.len(),
                    node_domain == cards[node as int],
                    space == configuration_space(listed, cards),
                    transition_dims(m) == (space, node_domain, node_domain),
                    m.well_formed(),
                    steps_in(runs, t + 1) <= usize::MAX,
                    counts_match(
                        transition_entries(m),
                        runs,
                        t as int,
                        rows,
                        k as int,
                        node as int,
                        listed,
                        cards,
                    ),
                decreases samples - 1 - k,
            {
                let after = events.row(k + 1);
                let from = before[node];
                let to = after[node];
                if from != to {
                    let u = index_of(&parents, &before, &card_list);
                    let seen = m.get(u, from, to);
                    proof {
                        lemma_moves_in_bound(
                            runs,
                            t as int,
                            node as int,
                            listed,
                            cards,
                            u as int,
                            from as int,
                            to as int,
                        );
                        lemma_moves_within_bound(
                            rows,
                            k as int,
                            node as int,
                            listed,
                            cards,
                            u as int,
                            from as int,
                            to as int,
                        );
                        assert(steps_in(runs, t + 1) == steps_in(runs, t as int) + (samples - 1));
                    }
                    let ghost earlier = transition_entries(m);
                    m.set(u, from, to, seen + 1);
                    proof {
                        let now = transition_entries(m);
                        assert forall|a: int, b: int, c: int|
                            0 <= a < space && 0 <= b < node_domain && 0 <= c
                                < node_domain implies (#[trigger] now[a][b][c]) == moves_in(
                            runs,
                            t as int,
                            node as int,
                            listed,
                            cards,
                            a,
                            b,
                            c,
                        ) + moves_within(rows, k + 1, node as int, listed, cards, a, b, c) by {
                            assert(earlier[a][b][c] == moves_in(
                                runs,
                                t as int,
                                node as int,
                                listed,
                                cards,
                                a,
                                b,
                                c,
                            ) + moves_within(rows, k as int, node as int, listed, cards, a, b, c));
                        }
                        assert forall|d: int|
                            0 <= d < space implies crate::storage::is_table(
                            #[trigger] now[d],
                            node_domain as int,
                            node_domain as int,
                        ) by {
                            assert(crate::storage::is_table(
                                earlier[d],
                                node_domain as int,
                                node_domain as int,
                            ));
                        }
                    }
                } else {
                    proof {
                        let now = transition_entries(m);
                        assert forall|a: int, b: int, c: int|
                            0 <= a < space && 0 <= b < node_domain && 0 <= c
                                < node_domain implies (#[trigger] now[a][b][c]) == moves_in(
                            runs,
                            t as int,
                            node as int,
                            listed,
                            cards,
                            a,
                            b,
                            c,
                        ) + moves_within(rows, k + 1, node as int, listed, cards, a, b, c) by {}
                    }
                }
                before = after;
                k += 1;
            }
        }
        proof {
            let now = transition_entries(m);
            assert forall|a: int, b: int, c: int|
                0 <= a < space && 0 <= b < node_domain && 0 <= c < node_domain implies (
            #[trigger] now[a][b][c]) == moves_in(
                runs,
                t + 1,
                node as int,
                listed,
                cards,
                a,
                b,
                c,
            ) + moves_within(Seq::empty(), 0, node as int, listed, cards, a, b, c) by {
                assert(steps_of(rows.len() as int) == if samples >= 2 {
                    samples - 1
                } else {
                    0
                });
            }
        }
        t += 1;
    }
    m
}

/// The sum of `f` over the numbers below `n`.
pub open spec fn sum_below(f: spec_fn(int) -> nat, n: int) -> nat
    decreases n,
{
    if n <= 0 {
        0
    } else {
        sum_below(f, n - 1) + f(n - 1)
    }
}

/// The sum of a function over more numbers is no less.
pub proof fn lemma_sum_grows(f: spec_fn(int) -> nat, n: int, m: int)
    requires
        n <= m,
    ensures
        sum_below(f, n) <= sum_below(f, m),
    decreases m - n,
{
    if n < m {
        lemma_sum_grows(f, n, m - 1);
    }
}

/// The number of times that a node has left state `x` under the
/// configuration `u` of its parents: the sum of the counts of its moves from
/// `x` to each state. There is none where the array has no such row, or
/// where the machine word does not hold the sum.
pub fn transitions_from(counts: &TransitionCounts, u: usize, x: usize) -> (total: Option<usize>)
    ensures
        total is Some <==> (u < transition_dims(*counts).0 && x < transition_dims(*counts).1
            && sum_below(
            |y: int| transition_entries(*counts)[u as int][x as int][y] as nat,
            transition_dims(*counts).2 as int,
        ) <= usize::MAX),
        total matches Some(n) ==> n == sum_below(
            |y: int| transition_entries(*counts)[u as int][x as int][y] as nat,
            transition_dims(*counts).2 as int,
        ),
{
    let (depth, rows, cols) = counts.shape();
    if u >= depth || x >= rows {
        return None;
    }
    let ghost held = |y: int| transition_entries(*counts)[u as int][x as int][y] as nat;
    let mut total: usize = 0;
    let mut y: usize = 0;
    while y < cols
        invariant
            y <= cols,
            (depth, rows, cols) == transition_dims(*counts),
            u < depth,
            x < rows,
            held == |y: int| transition_entries(*counts)[u as int][x as int][y] as nat,
            total == sum_below(held, y as int),
        decreases cols - y,
    {
        let count = match counts.count(u, x, y) {
            Some(count) => count,
            None => unreached(),
        };
        assert(held(y as int) == count);
        match total.checked_add(count) {
            Some(sum) => {
                total = sum;
            },
            None => {
                proof {
                    lemma_sum_grows(held, y + 1, cols as int);
                }
                return None;
            },
        }
        y += 1;
    }
    Some(total)
}

/// The sum of all the counts that `counts` holds for one parent
/// configuration: a table of `card` rows and `card` columns.
pub open spec fn total_count(counts: Seq<Seq<usize>>, card: int) -> nat {
    sum_below(|x: int| sum_below(|y: int| counts[x][y] as nat, card), card)
}

/// The number of steps among the first `steps` of the samples `rows` at
/// which `node` changes its state.
pub open spec fn changes_within(rows: Seq<Seq<usize>>, steps: int, node: int) -> nat
    decreases steps,
{
    if steps <= 0 {
        0
    } else {
        changes_within(rows, steps - 1, node) + if rows[steps - 1][node] != rows[steps][node] {
            1nat
        } else {
            0nat
        }
    }
}

/// Functions that agree below `n` have the same sum below `n`.
pub proof fn lemma_sum_agrees(f: spec_fn(int) -> nat, g: spec_fn(int) -> nat, n: int)
    requires
        forall|i: int| 0 <= i < n ==> #[trigger] f(i) == g(i),
    ensures
        sum_below(f, n) == sum_below(g, n),
    decreases n,
{
    if n > 0 {
        lemma_sum_agrees(f, g, n - 1);
    }
}

/// Where `f` is one more than `g` at `a` and agrees with it elsewhere below
/// `n`, its sum below `n` is one more.
pub proof fn lemma_sum_raised(f: spec_fn(int) -> nat, g: spec_fn(int) -> nat, n: int, a: int)
    requires
        0 <= a < n,
        f(a) == g(a) + 1,
        forall|i: int| 0 <= i < n && i != a ==> #[trigger] f(i) == g(i),
    ensures
        sum_below(f, n) == sum_below(g, n) + 1,
    decreases n,
{
    if a == n - 1 {
        lemma_sum_agrees(f, g, n - 1);
    } else {
        lemma_sum_raised(f, g, n - 1, a);
    }
}

/// A function that is zero below `n` sums to zero below `n`.
pub proof fn lemma_sum_of_zeros(f: spec_fn(int) -> nat, n: int)
    requires
        forall|i: int| 0 <= i < n ==> #[trigger] f(i) == 0,
    ensures
        sum_below(f, n) == 0,
    decreases n,
{
    if n > 0 {
        lemma_sum_of_zeros(f, n - 1);
    }
}

/// The moves of a node between all pairs of its states, under the one
/// configuration that no parents have, are as many as its changes of state.
pub proof fn lemma_moves_sum_to_changes(
    rows: Seq<Seq<usize>>,
    steps: int,
    node: int,
    cards: Seq<nat>,
)
    requires
        0 <= steps < rows.len(),
        0 <= node < cards.len(),
        forall|k: int|
            0 <= k <= steps ==> node < (#[trigger] rows[k]).len() && rows[k][node] < cards[node],
    ensures
        sum_below(
            |x: int|
                sum_below(
                    |y: int| moves_within(rows, steps, node, Seq::empty(), cards, 0, x, y),
                    cards[node] as int,
                ),
            cards[node] as int,
        ) == changes_within(rows, steps, node),
    decreases steps,
{
    let card = cards[node] as int;
    let none = Seq::<usize>::empty();
    let now = |x: int| sum_below(|y: int| moves_within(rows, steps, node, none, cards, 0, x, y), card);
    if steps == 0 {
        assert forall|x: int| 0 <= x < card implies #[trigger] now(x) == 0 by {
            lemma_sum_of_zeros(|y: int| moves_within(rows, steps, node, none, cards, 0, x, y), card);
        }
        lemma_sum_of_zeros(now, card);
    } else {
        lemma_moves_sum_to_changes(rows, steps - 1, node, cards);
        let earlier = |x: int|
            sum_below(|y: int| moves_within(rows, steps - 1, node, none, cards, 0, x, y), card);
        let a = rows[steps - 1][node] as int;
        let b = rows[steps][node] as int;
        assert(configuration_index(none, rows[steps - 1], cards) == 0);
        if a != b {
            assert forall|x: int| 0 <= x < card && x != a implies #[trigger] now(x) == earlier(
                x,
            ) by {
                lemma_sum_agrees(
                    |y: int| moves_within(rows, steps, node, none, cards, 0, x, y),
                    |y: int| moves_within(rows, steps - 1, node, none, cards, 0, x, y),
                    card,
                );
            }
            assert(now(a) == earlier(a) + 1) by {
                lemma_sum_raised(
                    |y: int| moves_within(rows, steps, node, none, cards, 0, a, y),
                    |y: int| moves_within(rows, steps - 1, node, none, cards, 0, a, y),
                    card,
                    b,
                );
            }
            lemma_sum_raised(now, earlier, card, a);
        } else {
            assert forall|x: int| 0 <= x < card implies #[trigger] now(x) == earlier(x) by {
                lemma_sum_agrees(
                    |y: int| moves_within(rows, steps, node, none, cards, 0, x, y),
                    |y: int| moves_within(rows, steps - 1, node, none, cards, 0, x, y),
                    card,
                );
            }
            lemma_sum_agrees(now, earlier, card);
        }
    }
}

/// Conservation of transitions: for a dataset of one trajectory and a node
/// taken without parents, the counts that `sufficient_statistics` returns
/// add up to the number of steps of the trajectory at which the node changes
/// its state.
pub proof fn lemma_counts_conserve_changes(
    counts: Seq<Seq<Seq<usize>>>,
    rows: Seq<Seq<usize>>,
    node: int,
    cards: Seq<nat>,
)
    requires
        0 <= node < cards.len(),
        run_is_countable(rows, node, Seq::empty(), cards),
        counts.len() == 1,
        forall|x: int, y: int|
            0 <= x < cards[node] && 0 <= y < cards[node] ==> (#[trigger] counts[0][x][y])
                == moves_in(seq![rows], 1, node, Seq::empty(), cards, 0, x, y),
    ensures
        total_count(counts[0], cards[node] as int) == changes_within(
            rows,
            steps_of(rows.len() as int),
            node,
        ),
{
    let card = cards[node] as int;
    let none = Seq::<usize>::empty();
    let steps = steps_of(rows.len() as int);
    let held = |x: int| sum_below(|y: int| counts[0][x][y] as nat, card);
    let moved = |x: int| sum_below(|y: int| moves_within(rows, steps, node, none, cards, 0, x, y), card);
    assert(seq![rows][0] == rows);
    assert forall|x: int| 0 <= x < card implies #[trigger] held(x) == moved(x) by {
        assert forall|y: int| 0 <= y < card implies counts[0][x][y] as nat == moves_within(
            rows,
            steps,
            node,
            none,
            cards,
            0,
            x,
            y,
        ) by {
            assert(counts[0][x][y] == moves_in(seq![rows], 1, node, none, cards, 0, x, y));
            assert(moves_in(seq![rows], 0, node, none, cards, 0, x, y) == 0);
        }
        lemma_sum_agrees(
            |y: int| counts[0][x][y] as nat,
            |y: int| moves_within(rows, steps, node, none, cards, 0, x, y),
            card,
        );
    }
    lemma_sum_agrees(held, moved, card);
    if rows.len() >= 2 {
        lemma_moves_sum_to_changes(rows, steps, node, cards);
    } else {
        assert forall|x: int| 0 <= x < card implies #[trigger] moved(x) == 0 by {
            lemma_sum_of_zeros(
                |y: int| moves_within(rows, steps, node, none, cards, 0, x, y),
                card,
            );
        }
        lemma_sum_of_zeros(moved, card);
    }
}

/// Where the residence times of `node` go: for every trajectory of the
/// dataset and every step of it, the parent configuration and the state of
/// `node` before the step. The time between the two samples of the step is
/// time that `node` has spent in that state under that configuration.
pub fn residence_cells<N: NetworkProcess, T>(
    net: &N,
    dataset: &Dataset<T>,
    node: usize,
    parent_set: &BTreeSet<usize>,
) -> (cells: Vec<Vec<(usize, usize)>>)
    requires
        net.well_formed(),
        countable(cardinalities(net.nodes()), dataset.events(), node as int, parent_set@),
    ensures
        cells@.len() == dataset.events().len(),
        forall|t: int|
            0 <= t < cells@.len() ==> (#[trigger] cells@[t])@.len() == steps_of(
                dataset.events()[t].len() as int,
            ),
        forall|t: int, k: int|
            0 <= t < cells@.len() && 0 <= k < cells@[t]@.len() ==> {
                &&& (#[trigger] cells@[t]@[k]).0 == configuration_index(
                    ascending(parent_set@),
                    dataset.events()[t][k],
                    cardinalities(net.nodes()),
                )
                &&& cells@[t]@[k].0 < configuration_space(
                    ascending(parent_set@),
                    cardinalities(net.nodes()),
                )
                &&& cells@[t]@[k].1 == dataset.events()[t][k][node as int]
                &&& cells@[t]@[k].1 < net.nodes()[node as int].cardinality
            },
{
    let ghost cards = cardinalities(net.nodes());
    let ghost runs = dataset.events();
    let parents = sorted_members(parent_set);
    let card_list = cardinality_list(net);
    let trajectories = dataset.get_trajectories();
    let mut cells: Vec<Vec<(usize, usize)>> = Vec::new();
    let mut t: usize = 0;
    while t < trajectories.len()
        invariant
            t <= trajectories@.len(),
            trajectories@ == dataset.trajectories(),
            runs == dataset.events(),
            runs.len() == trajectories@.len(),
            cards == cardinalities(net.nodes()),
            as_naturals(card_list@) == cards,
            parents@ == ascending(parent_set@),
            countable(cards, runs, node as int, parent_set@),
            cells@.len() == t,
            forall|i: int| 0 <= i < t ==> (#[trigger] cells@[i])@.len() == steps_of(runs[i].len() as int),
            forall|i: int, k: int|
                0 <= i < t && 0 <= k < cells@[i]@.len() ==> {
                    &&& (#[trigger] cells@[i]@[k]).0 == configuration_index(
                        parents@,
                        runs[i][k],
                        cards,
                    )
                    &&& cells@[i]@[k].0 < configuration_space(parents@, cards)
                    &&& cells@[i]@[k].1 == runs[i][k][node as int]
                    &&& cells@[i]@[k].1 < cards[node as int]
                },
        decreases trajectories@.len() - t,
    {
        let events = trajectories[t].get_events();
        let samples = events.samples();
        let ghost rows = runs[t as int];
        proof {
            assert(rows == trajectories@[t as int].events());
            assert(run_is_countable(rows, node as int, parents@, cards));
        }
        let mut run: Vec<(usize, usize)> = Vec::new();
        if samples >= 2 {
            let mut k: usize = 0;
            while k < samples - 1
                invariant
                    k <= samples - 1,
                    samples >= 2,
                    samples == rows.len(),
                    samples == event_dims(*events).0,
                    rows == event_entries(*events),
                    as_naturals(card_list@) == cards,
                    run_is_countable(rows, node as int, parents@, cards),
                    configuration_space(parents@, cards) <= usize::MAX,
                    run@.len() == k,
                    forall|j: int|
                        0 <= j < k ==> {
                            &&& (#[trigger] run@[j]).0 == configuration_index(
                                parents@,
                                rows[j],
                                cards,
                            )
                            &&& run@[j].0 < configuration_space(parents@, cards)
                            &&& run@[j].1 == rows[j][node as int]
                            &&& run@[j].1 < cards[node as int]
                        },
                decreases samples - 1 - k,
            {
                let before = events.row(k);
                let u = index_of(&parents, &before, &card_list);
                run.push((u, before[node]));
                k += 1;
            }
        }
        cells.push(run);
        t += 1;
    }
    cells
}

/// The number of steps between consecutive samples over all the
/// trajectories of `dataset`, where the machine word holds it.
pub fn sample_size<T>(dataset: &Dataset<T>) -> (size: Option<usize>)
    ensures
        size is Some <==> steps_in(dataset.events(), dataset.events().len() as int) <= usize::MAX,
        size matches Some(n) ==> n == steps_in(dataset.events(), dataset.events().len() as int),
{
    let trajectories = dataset.get_trajectories();
    let ghost runs = dataset.events();
    let mut size: usize = 0;
    let mut t: usize = 0;
    while t < trajectories.len()
        invariant
            t <= trajectories@.len(),
            trajectories@ == dataset.trajectories(),
            runs == dataset.events(),
            runs.len() == trajectories@.len(),
            size == steps_in(runs, t as int),
        decreases trajectories@.len() - t,
    {
        let samples = trajectories[t].get_events().samples();
        proof {
            trajectories@[t as int].lemma_well_formed();
            assert(runs[t as int] == trajectories@[t as int].events());
            assert(steps_of(runs[t as int].len() as int) == if samples == 0 {
                0
            } else {
                samples - 1
            });
        }
        let steps = if samples == 0 {
            0
        } else {
            samples - 1
        };
        match size.checked_add(steps) {
            Some(sum) => {
                size = sum;
            },
            None => {
                proof {
                    lemma_steps_in_monotone(runs, t + 1, runs.len() as int);
                }
                return None;
            },
        }
        t += 1;
    }
    Some(size)
}

} // verus!
