//! The mixed-radix numbering of the joint states of a set of parents.
//!
//! Parents are taken in increasing order of their index. The first parent is
//! the least significant digit: the state of each parent is weighted by the
//! product of the cardinalities of the parents before it.

use crate::params::StateType;
use vstd::prelude::*;

verus! {

/// The states that `state` holds, as numbers.
pub open spec fn state_values(state: Seq<StateType>) -> Seq<usize> {
    state.map_values(|s: StateType| s->0)
}

/// The cardinalities `cards`, as natural numbers.
pub open spec fn as_naturals(cards: Seq<usize>) -> Seq<nat> {
    cards.map_values(|c: usize| c as nat)
}

/// Whether `state` gives every node listed in `parents` a state of its
/// domain.
pub open spec fn valid_on(parents: Seq<usize>, state: Seq<usize>, cards: Seq<nat>) -> bool {
    forall|k: int|
        0 <= k < parents.len() ==> {
            &&& #[trigger] parents[k] < cards.len()
            &&& parents[k] < state.len()
            &&& state[parents[k] as int] < cards[parents[k] as int]
        }
}

/// The number of joint states of the nodes listed in `parents`: the product
/// of their cardinalities.
pub open spec fn configuration_space(parents: Seq<usize>, cards: Seq<nat>) -> nat
    decreases parents.len(),
{
    if parents.len() == 0 {
        1
    } else {
        configuration_space(parents.drop_last(), cards) * cards[parents.last() as int]
    }
}

/// The number that stands for the joint state that `state` gives to the
/// nodes listed in `parents`.
pub open spec fn configuration_index(
    parents: Seq<usize>,
    state: Seq<usize>,
    cards: Seq<nat>,
) -> nat
    decreases parents.len(),
{
    if parents.len() == 0 {
        0
    } else {
        configuration_index(parents.drop_last(), state, cards) + (state[parents.last() as int] as nat)
            * configuration_space(parents.drop_last(), cards)
    }
}

/// Where every listed node has at least one state, a part of the list spans
/// no more joint states than the whole list.
pub proof fn lemma_space_of_prefix(parents: Seq<usize>, cards: Seq<nat>, k: int)
    requires
        0 <= k <= parents.len(),
        forall|i: int| 0 <= i < parents.len() ==> cards[#[trigger] parents[i] as int] >= 1,
    ensures
        1 <= configuration_space(parents.take(k), cards) <= configuration_space(parents, cards),
    decreases parents.len() - k,
{
    if k == parents.len() {
        assert(parents.take(k) =~= parents);
        lemma_space_positive(parents, cards);
    } else {
        lemma_space_of_prefix(parents, cards, k + 1);
        let longer = parents.take(k + 1);
        assert(longer.drop_last() =~= parents.take(k));
        assert(longer.last() == parents[k]);
        let s = configuration_space(parents.take(k), cards);
        let c = cards[parents[k] as int];
        lemma_space_positive(parents.take(k), cards);
        assert(s <= s * c) by (nonlinear_arith)
            requires
                s >= 1,
                c >= 1,
        ;
    }
}

/// Where every listed node has at least one state, the list spans at least
/// one joint state.
pub proof fn lemma_space_positive(parents: Seq<usize>, cards: Seq<nat>)
    requires
        forall|i: int| 0 <= i < parents.len() ==> cards[#[trigger] parents[i] as int] >= 1,
    ensures
        configuration_space(parents, cards) >= 1,
    decreases parents.len(),
{
    if parents.len() > 0 {
        lemma_space_positive(parents.drop_last(), cards);
        let s = configuration_space(parents.drop_last(), cards);
        let c = cards[parents.last() as int];
        assert(s * c >= 1) by (nonlinear_arith)
            requires
                s >= 1,
                c >= 1,
        ;
    }
}

/// The number of a joint state lies below the number of joint states.
pub proof fn lemma_index_below_space(parents: Seq<usize>, state: Seq<usize>, cards: Seq<nat>)
    requires
        valid_on(parents, state, cards),
    ensures
        configuration_index(parents, state, cards) < configuration_space(parents, cards),
    decreases parents.len(),
{
    if parents.len() > 0 {
        let front = parents.drop_last();
        assert forall|k: int| 0 <= k < front.len() implies {
            &&& #[trigger] front[k] < cards.len()
            &&& front[k] < state.len()
            &&& state[front[k] as int] < cards[front[k] as int]
        } by {
            assert(front[k] == parents[k]);
        }
        lemma_index_below_space(front, state, cards);
        let i = configuration_index(front, state, cards);
        let s = configuration_space(front, cards);
        let x = state[parents.last() as int] as nat;
        let c = cards[parents.last() as int];
        assert(parents[parents.len() - 1] == parents.last());
        assert(i + x * s < s * c) by (nonlinear_arith)
            requires
                i < s,
                x < c,
        ;
    }
}

/// The first `count` nodes, in order.
pub open spec fn all_nodes(count: nat) -> Seq<usize> {
    Seq::new(count, |i: int| i as usize)
}

/// The number of a joint state of listed nodes is the same under two states
/// that agree on the listed nodes.
pub proof fn lemma_index_ignores_others(
    parents: Seq<usize>,
    first: Seq<usize>,
    second: Seq<usize>,
    cards: Seq<nat>,
)
    requires
        forall|k: int|
            0 <= k < parents.len() ==> (#[trigger] parents[k]) < first.len() && parents[k]
                < second.len() && first[parents[k] as int] == second[parents[k] as int],
    ensures
        configuration_index(parents, first, cards) == configuration_index(parents, second, cards),
    decreases parents.len(),
{
    if parents.len() > 0 {
        let front = parents.drop_last();
        assert forall|k: int| 0 <= k < front.len() implies (#[trigger] front[k]) < first.len()
            && front[k] < second.len() && first[front[k] as int] == second[front[k] as int] by {
            assert(front[k] == parents[k]);
        }
        lemma_index_ignores_others(front, first, second, cards);
        assert(parents[parents.len() - 1] == parents.last());
    }
}

/// A state that is valid on a list of nodes is valid on every part of it.
pub proof fn lemma_valid_on_parts(a: Seq<usize>, b: Seq<usize>, state: Seq<usize>, cards: Seq<nat>)
    requires
        valid_on(a + b, state, cards),
    ensures
        valid_on(a, state, cards),
        valid_on(b, state, cards),
{
    assert forall|k: int| 0 <= k < a.len() implies {
        &&& #[trigger] a[k] < cards.len()
        &&& a[k] < state.len()
        &&& state[a[k] as int] < cards[a[k] as int]
    } by {
        assert((a + b)[k] == a[k]);
    }
    assert forall|k: int| 0 <= k < b.len() implies {
        &&& #[trigger] b[k] < cards.len()
        &&& b[k] < state.len()
        &&& state[b[k] as int] < cards[b[k] as int]
    } by {
        assert((a + b)[a.len() + k] == b[k]);
    }
}

/// The nodes of two lists, one after the other, have as many joint states as
/// the product says, and the number of a joint state is the number for the
/// first list plus, weighted by the joint states of the first list, the
/// number for the second.
pub proof fn lemma_index_of_both(a: Seq<usize>, b: Seq<usize>, state: Seq<usize>, cards: Seq<nat>)
    ensures
        configuration_space(a + b, cards) == configuration_space(a, cards) * configuration_space(
            b,
            cards,
        ),
        configuration_index(a + b, state, cards) == configuration_index(a, state, cards)
            + configuration_space(a, cards) * configuration_index(b, state, cards),
    decreases b.len(),
{
    let sa = configuration_space(a, cards);
    if b.len() == 0 {
        assert(a + b =~= a);
        assert(sa * 1 == sa) by (nonlinear_arith);
        assert(sa * 0 == 0) by (nonlinear_arith);
    } else {
        let front = b.drop_last();
        assert((a + b).drop_last() =~= a + front);
        assert((a + b).last() == b.last());
        lemma_index_of_both(a, front, state, cards);
        let sf = configuration_space(front, cards);
        let c = cards[b.last() as int];
        let x = state[b.last() as int] as nat;
        let ia = configuration_index(a, state, cards);
        let ifr = configuration_index(front, state, cards);
        assert((sa * sf) * c == sa * (sf * c)) by (nonlinear_arith);
        assert(ia + sa * ifr + x * (sa * sf) == ia + sa * (ifr + x * sf)) by (nonlinear_arith);
    }
}

/// The number of the joint state that `state` gives to the nodes listed in
/// `parents`, where `cards` holds the cardinality of every node: the states
/// of the listed nodes, each weighted by the product of the cardinalities of
/// the nodes listed before it.
pub fn index_of(parents: &Vec<usize>, state: &Vec<usize>, cards: &Vec<usize>) -> (index: usize)
    requires
        valid_on(parents@, state@, as_naturals(cards@)),
        configuration_space(parents@, as_naturals(cards@)) <= usize::MAX,
    ensures
        index == configuration_index(parents@, state@, as_naturals(cards@)),
        index < configuration_space(parents@, as_naturals(cards@)),
{
    let ghost radices = as_naturals(cards@);
    let mut index: usize = 0;
    let mut stride: usize = 1;
    let mut k: usize = 0;
    while k < parents.len()
        invariant
            k <= parents@.len(),
            radices == as_naturals(cards@),
            valid_on(parents@, state@, radices),
            configuration_space(parents@, radices) <= usize::MAX,
            index == configuration_index(parents@.take(k as int), state@, radices),
            stride == configuration_space(parents@.take(k as int), radices),
        decreases parents@.len() - k,
    {
        let x = parents[k];
        let digit = state[x];
        let radix = cards[x];
        proof {
            let longer = parents@.take(k + 1);
            assert(longer.drop_last() =~= parents@.take(k as int));
            assert(longer.last() == x);
            assert(parents@[k as int] == x);
            assert(radices[x as int] == radix);
            assert forall|i: int| 0 <= i < longer.len() implies {
                &&& #[trigger] longer[i] < radices.len()
                &&& longer[i] < state@.len()
                &&& state@[longer[i] as int] < radices[longer[i] as int]
            } by {
                assert(longer[i] == parents@[i]);
            }
            lemma_index_below_space(longer, state@, radices);
            assert forall|i: int| 0 <= i < parents@.len() implies radices[#[trigger] parents@[i] as int]
                >= 1 by {}
            lemma_space_of_prefix(parents@, radices, k + 1);
            assert(digit * stride <= index + digit * stride) by (nonlinear_arith)
                requires
                    index >= 0,
            ;
        }
        index = index + digit * stride;
        stride = stride * radix;
        k += 1;
    }
    proof {
        assert(parents@.take(k as int) =~= parents@);
        lemma_index_below_space(parents@, state@, radices);
    }
    index
}

/// Where one of the listed nodes has no state at all, the list has no joint
/// state.
pub proof fn lemma_space_with_empty_domain(parents: Seq<usize>, cards: Seq<nat>, j: int)
    requires
        0 <= j < parents.len(),
        cards[parents[j] as int] == 0,
    ensures
        configuration_space(parents, cards) == 0,
    decreases parents.len(),
{
    let front = parents.drop_last();
    if j == parents.len() - 1 {
        let s = configuration_space(front, cards);
        assert(s * 0 == 0) by (nonlinear_arith);
    } else {
        assert(front[j] == parents[j]);
        lemma_space_with_empty_domain(front, cards, j);
        let c = cards[parents.last() as int];
        assert(0 * c == 0) by (nonlinear_arith);
    }
}

/// The number of joint states of the nodes listed in `parents`: the product
/// of their cardinalities, where the machine word holds it.
pub fn space_of(parents: &Vec<usize>, cards: &Vec<usize>) -> (space: Option<usize>)
    requires
        forall|k: int| 0 <= k < parents@.len() ==> #[trigger] parents@[k] < cards@.len(),
    ensures
        space is Some <==> configuration_space(parents@, as_naturals(cards@)) <= usize::MAX,
        space matches Some(n) ==> n == configuration_space(parents@, as_naturals(cards@)),
{
    let ghost radices = as_naturals(cards@);
    let mut j: usize = 0;
    while j < parents.len()
        invariant
            j <= parents@.len(),
            radices == as_naturals(cards@),
            forall|i: int| 0 <= i < parents@.len() ==> #[trigger] parents@[i] < cards@.len(),
            forall|i: int| 0 <= i < j ==> radices[#[trigger] parents@[i] as int] >= 1,
        decreases parents@.len() - j,
    {
        if cards[parents[j]] == 0 {
            proof {
                lemma_space_with_empty_domain(parents@, radices, j as int);
            }
            return Some(0);
        }
        j += 1;
    }
    let mut space: usize = 1;
    let mut k: usize = 0;
    while k < parents.len()
        invariant
            k <= parents@.len(),
            radices == as_naturals(cards@),
            forall|i: int| 0 <= i < parents@.len() ==> #[trigger] parents@[i] < cards@.len(),
            forall|i: int| 0 <= i < parents@.len() ==> radices[#[trigger] parents@[i] as int] >= 1,
            space == configuration_space(parents@.take(k as int), radices),
        decreases parents@.len() - k,
    {
        let radix = cards[parents[k]];
        proof {
            let longer = parents@.take(k + 1);
            assert(longer.drop_last() =~= parents@.take(k as int));
            assert(longer.last() == parents@[k as int]);
            lemma_space_of_prefix(parents@, radices, k + 1);
        }
        match space.checked_mul(radix) {
            Some(product) => {
                space = product;
            },
            None => {
                return None;
            },
        }
        k += 1;
    }
    assert(parents@.take(k as int) =~= parents@);
    Some(space)
}

/// Whether `state` gives every node listed in `parents` a state of its
/// domain, where `cards` holds the cardinality of every node.
pub fn is_valid_on(parents: &Vec<usize>, state: &Vec<usize>, cards: &Vec<usize>) -> (valid: bool)
    ensures
        valid == valid_on(parents@, state@, as_naturals(cards@)),
{
    let mut k: usize = 0;
    while k < parents.len()
        invariant
            k <= parents@.len(),
            valid_on(parents@.take(k as int), state@, as_naturals(cards@)),
        decreases parents@.len() - k,
    {
        let x = parents[k];
        if x >= cards.len() || x >= state.len() || state[x] >= cards[x] {
            proof {
                assert(parents@[k as int] == x);
            }
            return false;
        }
        proof {
            let longer = parents@.take(k + 1);
            assert forall|i: int| 0 <= i < longer.len() implies {
                &&& #[trigger] longer[i] < as_naturals(cards@).len()
                &&& longer[i] < state@.len()
                &&& state@[longer[i] as int] < as_naturals(cards@)[longer[i] as int]
            } by {
                if i < k {
                    assert(parents@.take(k as int)[i] == longer[i]);
                }
            }
        }
        k += 1;
    }
    assert(parents@.take(k as int) =~= parents@);
    true
}

/// The state of every node in `state`, as a number.
pub fn values_of(state: &Vec<StateType>) -> (values: Vec<usize>)
    ensures
        values@ == state_values(state@),
{
    let mut values: Vec<usize> = Vec::new();
    let mut x: usize = 0;
    while x < state.len()
        invariant
            x <= state@.len(),
            values@.len() == x,
            forall|i: int| 0 <= i < x ==> #[trigger] values@[i] == state@[i]->0,
        decreases state@.len() - x,
    {
        let StateType::Discrete(value) = state[x];
        values.push(value);
        x += 1;
    }
    assert(values@ =~= state_values(state@));
    values
}

} // verus!
