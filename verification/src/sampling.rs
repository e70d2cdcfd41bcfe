//! Forward sampling of a network: the discrete side.
//!
//! A sampler walks a network from state to state. Which node moves next, and
//! when, is decided by exponential clocks, whose readings are real numbers:
//! the caller draws them, schedules them here, and names the node whose clock
//! rings first. The sampler keeps the state of the network, knows which nodes
//! are without a scheduled move, and applies each move.

use crate::params::{ParamsTrait, StateType};
use crate::process::{cardinalities, NetworkProcess, NetworkProcessState};
use vstd::prelude::*;

verus! {

/// One sample of a trajectory: the state of the network at an instant.
#[derive(Clone, Debug)]
pub struct Sample<T> {
    pub t: T,
    pub state: NetworkProcessState,
}

/// A source of samples that can be started anew.
pub trait Sampler {
    /// Whether the sampler is consistent with the process that it samples.
    spec fn ready(&self) -> bool;

    /// Restarts the sampler from its initial state.
    fn reset(&mut self)
        requires
            old(self).ready(),
        ensures
            final(self).ready(),
    ;
}

/// Whether `state` gives each of the nodes a state of its domain.
pub open spec fn is_state_of(state: Seq<StateType>, cards: Seq<nat>) -> bool {
    &&& state.len() == cards.len()
    &&& forall|i: int| 0 <= i < state.len() ==> (#[trigger] state[i])->0 < cards[i]
}

/// Whether `state` gives each node of `net` a state of its domain.
pub fn is_state<N: NetworkProcess>(net: &N, state: &NetworkProcessState) -> (valid: bool)
    requires
        net.well_formed(),
    ensures
        valid == is_state_of(state@, cardinalities(net.nodes())),
{
    let count = net.get_number_of_nodes();
    if state.len() != count {
        return false;
    }
    let mut node: usize = 0;
    while node < count
        invariant
            node <= count,
            count == net.nodes().len(),
            state@.len() == count,
            net.well_formed(),
            forall|i: int| 0 <= i < node ==> (#[trigger] state@[i])->0 < net.nodes()[i].cardinality,
        decreases count - node,
    {
        let StateType::Discrete(value) = state[node];
        if value >= net.get_node(node).get_reserved_space_as_parent() {
            return false;
        }
        node += 1;
    }
    true
}

/// Whether every node of `net` has a state to be in.
pub fn has_states<N: NetworkProcess>(net: &N) -> (inhabited: bool)
    requires
        net.well_formed(),
    ensures
        inhabited == (forall|i: int|
            0 <= i < net.nodes().len() ==> (#[trigger] net.nodes()[i]).cardinality > 0),
{
    let count = net.get_number_of_nodes();
    let mut node: usize = 0;
    while node < count
        invariant
            node <= count,
            count == net.nodes().len(),
            net.well_formed(),
            forall|i: int| 0 <= i < node ==> (#[trigger] net.nodes()[i]).cardinality > 0,
        decreases count - node,
    {
        if net.get_node(node).get_reserved_space_as_parent() == 0 {
            return false;
        }
        node += 1;
    }
    true
}

/// The state that a draw among the other states of a node stands for: the
/// draw numbers the states of the node with its current state left out.
pub open spec fn drawn_state(drawn: usize, current: usize) -> int {
    if drawn < current {
        drawn as int
    } else {
        drawn + 1
    }
}

/// The state that a draw among the other states of a node stands for.
pub fn skip_current(drawn: usize, current: usize) -> (next: usize)
    requires
        drawn < usize::MAX,
    ensures
        next == drawn_state(drawn, current),
        next != current,
{
    if drawn < current {
        drawn
    } else {
        drawn + 1
    }
}

/// Where a walk stands: at an instant, in a state of the network, with the
/// moves that are scheduled.
pub struct Walk<T> {
    pub time: T,
    pub state: Seq<StateType>,
    pub schedule: Seq<Option<T>>,
}

/// One step of a walk: a move of a node is scheduled for an instant, or a
/// node whose move is scheduled makes its move to a state.
pub enum Step<T> {
    Schedule { node: usize, time: T },
    Move { node: usize, next_state: StateType },
}

/// Where a walk stands after a step. A scheduled move takes its place in the
/// schedule. A move takes the walk to the instant it was scheduled for,
/// changes the state of the node, and leaves the node and its children,
/// which `has_edge` tells, without a scheduled move.
pub open spec fn after_step<T>(
    walk: Walk<T>,
    has_edge: spec_fn(int, int) -> bool,
    step: Step<T>,
) -> Walk<T> {
    match step {
        Step::Schedule { node, time } => Walk {
            schedule: walk.schedule.update(node as int, Some(time)),
            ..walk
        },
        Step::Move { node, next_state } => Walk {
            time: walk.schedule[node as int]->0,
            state: walk.state.update(node as int, next_state),
            schedule: Seq::new(
                walk.schedule.len(),
                |i: int|
                    if i == node || has_edge(node as int, i) {
                        None
                    } else {
                        walk.schedule[i]
                    },
            ),
        },
    }
}

/// Where a walk stands after the steps `steps`, taken in order.
pub open spec fn after_steps<T>(
    walk: Walk<T>,
    has_edge: spec_fn(int, int) -> bool,
    steps: Seq<Step<T>>,
) -> Walk<T>
    decreases steps.len(),
{
    if steps.len() == 0 {
        walk
    } else {
        after_steps(after_step(walk, has_edge, steps[0]), has_edge, steps.drop_first())
    }
}

/// The samples that a walk hands out along the steps `steps`: at each move,
/// the instant and the state that the walk stood at before the move.
pub open spec fn emitted<T>(
    walk: Walk<T>,
    has_edge: spec_fn(int, int) -> bool,
    steps: Seq<Step<T>>,
) -> Seq<(T, Seq<StateType>)>
    decreases steps.len(),
{
    if steps.len() == 0 {
        Seq::empty()
    } else {
        let rest = emitted(after_step(walk, has_edge, steps[0]), has_edge, steps.drop_first());
        if steps[0] is Move {
            seq![(walk.time, walk.state)] + rest
        } else {
            rest
        }
    }
}

/// A sampler that follows the network forward in time, one move of one node
/// at a time.
pub struct ForwardSampler<'a, N: NetworkProcess, T: Copy> {
    net: &'a N,
    rng: rand_chacha::ChaCha8Rng,
    origin: T,
    current_time: T,
    current_state: NetworkProcessState,
    next_transitions: Vec<Option<T>>,
    initial_state: Option<NetworkProcessState>,
}

impl<'a, N: NetworkProcess, T: Copy> ForwardSampler<'a, N, T> {
    /// The process that is sampled.
    pub closed spec fn net(&self) -> &N {
        self.net
    }

    /// The generator that the sampler draws from.
    pub closed spec fn generator(&self) -> rand_chacha::ChaCha8Rng {
        self.rng
    }

    /// The instant at which every run starts.
    pub closed spec fn origin(&self) -> T {
        self.origin
    }

    /// The instant that the sampler has reached.
    pub closed spec fn time(&self) -> T {
        self.current_time
    }

    /// The state that the network is in.
    pub closed spec fn state(&self) -> Seq<StateType> {
        self.current_state@
    }

    /// The instant of the next move of each node, where one is scheduled.
    pub closed spec fn schedule(&self) -> Seq<Option<T>> {
        self.next_transitions@
    }

    /// The state that every run starts from, if it is fixed.
    pub closed spec fn initial_state(&self) -> Option<Seq<StateType>> {
        match self.initial_state {
            Some(state) => Some(state@),
            None => None,
        }
    }

    /// Where the walk of the sampler stands.
    pub open spec fn walk(&self) -> Walk<T> {
        Walk { time: self.time(), state: self.state(), schedule: self.schedule() }
    }

    /// The edges of the network that is sampled.
    pub open spec fn edges(&self) -> spec_fn(int, int) -> bool {
        |parent: int, child: int| self.net().has_edge(parent, child)
    }

    /// Walks depend on nothing but where they start and the steps they
    /// take: two samplers of the same network that stand alike hand out the
    /// same samples along the same steps, and stand alike after them. All
    /// that chance decides of a walk are the instants and the states of its
    /// steps.
    pub proof fn lemma_equal_steps_give_equal_samples(
        &self,
        other: &ForwardSampler<'a, N, T>,
        steps: Seq<Step<T>>,
    )
        requires
            self.net() == other.net(),
            self.walk() == other.walk(),
        ensures
            emitted(self.walk(), self.edges(), steps) == emitted(
                other.walk(),
                other.edges(),
                steps,
            ),
            after_steps(self.walk(), self.edges(), steps) == after_steps(
                other.walk(),
                other.edges(),
                steps,
            ),
    {
        assert(self.edges() == other.edges());
    }

    /// Whether network, state and schedule fit together: the network is well
    /// formed and every node has a state to be in; the current state, and
    /// the initial state where it is fixed, give every node a state of its
    /// domain; and the schedule has an entry for every node.
    pub open spec fn well_formed(&self) -> bool {
        &&& self.net().well_formed()
        &&& forall|i: int|
            0 <= i < self.net().nodes().len() ==> (#[trigger] self.net().nodes()[i]).cardinality > 0
        &&& is_state_of(self.state(), cardinalities(self.net().nodes()))
        &&& self.schedule().len() == self.net().nodes().len()
        &&& self.initial_state() matches Some(state) ==> is_state_of(
            state,
            cardinalities(self.net().nodes()),
        )
    }

    /// A sampler of `net` that draws from `rng` and starts every run at the
    /// instant `origin`, from `initial_state` or, without one, from a state
    /// drawn uniformly.
    pub fn new(
        net: &'a N,
        rng: rand_chacha::ChaCha8Rng,
        origin: T,
        initial_state: Option<NetworkProcessState>,
    ) -> (sampler: ForwardSampler<'a, N, T>)
        requires
            net.well_formed(),
            forall|i: int| 0 <= i < net.nodes().len() ==> (#[trigger] net.nodes()[i]).cardinality > 0,
            initial_state matches Some(state) ==> is_state_of(state@, cardinalities(net.nodes())),
        ensures
            sampler.well_formed(),
            sampler.net() == net,
            sampler.origin() == origin,
            sampler.time() == origin,
            sampler.initial_state() == match initial_state {
                Some(state) => Some(state@),
                None => None,
            },
            initial_state matches Some(state) ==> sampler.state() == state@,
            forall|i: int| 0 <= i < sampler.schedule().len() ==> sampler.schedule()[i] is None,
    {
        let mut sampler = ForwardSampler {
            net,
            rng,
            origin,
            current_time: origin,
            current_state: Vec::new(),
            next_transitions: Vec::new(),
            initial_state,
        };
        sampler.restart();
        sampler
    }

    /// Puts the sampler at the start of a run.
    fn restart(&mut self)
        requires
            old(self).net().well_formed(),
            forall|i: int|
                0 <= i < old(self).net().nodes().len() ==> (#[trigger] old(
                    self,
                ).net().nodes()[i]).cardinality > 0,
            old(self).initial_state() matches Some(state) ==> is_state_of(
                state,
                cardinalities(old(self).net().nodes()),
            ),
        ensures
            final(self).well_formed(),
            final(self).net() == old(self).net(),
            final(self).origin() == old(self).origin(),
            final(self).initial_state() == old(self).initial_state(),
            final(self).time() == old(self).origin(),
            old(self).initial_state() matches Some(state) ==> final(self).state() == state,
            forall|i: int| 0 <= i < final(self).schedule().len() ==> final(self).schedule()[i] is None,
    {
        self.current_time = self.origin;
        let count = self.net.get_number_of_nodes();
        let mut state: NetworkProcessState = Vec::new();
        let mut schedule: Vec<Option<T>> = Vec::new();
        let mut node: usize = 0;
        while node < count
            invariant
                node <= count,
                count == self.net().nodes().len(),
                self.net() == old(self).net(),
                self.origin() == old(self).origin(),
                self.time() == old(self).origin(),
                self.initial_state() == old(self).initial_state(),
                self.net().well_formed(),
                forall|i: int|
                    0 <= i < count ==> (#[trigger] self.net().nodes()[i]).cardinality > 0,
                self.initial_state() matches Some(fixed) ==> is_state_of(
                    fixed,
                    cardinalities(self.net().nodes()),
                ),
                state@.len() == node,
                schedule@.len() == node,
                forall|i: int| 0 <= i < node ==> (#[trigger] schedule@[i]) is None,
                forall|i: int|
                    0 <= i < node ==> (#[trigger] state@[i])->0 < self.net().nodes()[i].cardinality,
                self.initial_state() matches Some(fixed) ==> state@ == fixed.take(node as int),
            decreases count - node,
        {
            let drawn = match &self.initial_state {
                Some(fixed) => fixed[node],
                None => self.net.get_node(node).get_random_state_uniform(&mut self.rng),
            };
            state.push(drawn);
            schedule.push(None);
            proof {
                if self.initial_state() is Some {
                    let fixed = self.initial_state()->0;
                    assert(fixed.take(node + 1) =~= fixed.take(node as int).push(fixed[node as int]));
                }
            }
            node += 1;
        }
        proof {
            if self.initial_state() is Some {
                let fixed = self.initial_state()->0;
                assert(fixed.take(node as int) =~= fixed);
            }
        }
        self.current_state = state;
        self.next_transitions = schedule;
    }
}

impl<'a, N: NetworkProcess, T: Copy> ForwardSampler<'a, N, T> {
    /// The generator that the sampler draws from, for the draws of the
    /// caller.
    pub fn rng(&mut self) -> (rng: &mut rand_chacha::ChaCha8Rng)
        ensures
            *rng == old(self).generator(),
            final(self).generator() == *final(rng),
            final(self).net() == old(self).net(),
            final(self).origin() == old(self).origin(),
            final(self).time() == old(self).time(),
            final(self).state() == old(self).state(),
            final(self).schedule() == old(self).schedule(),
            final(self).initial_state() == old(self).initial_state(),
    {
        &mut self.rng
    }

    /// The instant that the sampler has reached.
    pub fn current_time(&self) -> (time: T)
        ensures
            time == self.time(),
    {
        self.current_time
    }

    /// The state that the network is in.
    pub fn current_state(&self) -> (state: &NetworkProcessState)
        ensures
            state@ == self.state(),
    {
        &self.current_state
    }

    /// The instant of the next move of each node, where one is scheduled.
    pub fn next_transitions(&self) -> (schedule: &Vec<Option<T>>)
        ensures
            schedule@ == self.schedule(),
    {
        &self.next_transitions
    }

    /// Schedules the next move of `node` for the instant `time`.
    pub fn schedule_transition(&mut self, node: usize, time: T)
        requires
            old(self).well_formed(),
            node < old(self).schedule().len(),
        ensures
            final(self).well_formed(),
            final(self).net() == old(self).net(),
            final(self).origin() == old(self).origin(),
            final(self).time() == old(self).time(),
            final(self).state() == old(self).state(),
            final(self).initial_state() == old(self).initial_state(),
            final(self).schedule() == old(self).schedule().update(node as int, Some(time)),
            final(self).walk() == after_step(
                old(self).walk(),
                old(self).edges(),
                Step::Schedule { node, time },
            ),
    {
        self.next_transitions[node] = Some(time);
    }

    /// Lets `node`, whose move is scheduled, make its move to `next_state`:
    /// the sampler reaches the instant of the move, the node changes its
    /// state, and the node and its children are left without a scheduled
    /// move, since their rates depend on the state that changed. Returns
    /// the sample that the sampler stood at before the move.
    pub fn advance(&mut self, node: usize, next_state: StateType) -> (sample: Sample<T>)
        requires
            old(self).well_formed(),
            old(self).net().has_structure(),
            node < old(self).schedule().len(),
            old(self).schedule()[node as int] is Some,
            next_state->0 < old(self).net().nodes()[node as int].cardinality,
        ensures
            final(self).well_formed(),
            final(self).net() == old(self).net(),
            final(self).origin() == old(self).origin(),
            final(self).initial_state() == old(self).initial_state(),
            sample.t == old(self).time(),
            sample.state@ == old(self).state(),
            final(self).time() == old(self).schedule()[node as int]->0,
            final(self).state() == old(self).state().update(node as int, next_state),
            final(self).schedule().len() == old(self).schedule().len(),
            forall|i: int|
                0 <= i < old(self).schedule().len() ==> #[trigger] final(self).schedule()[i] == if i
                    == node || old(self).net().has_edge(node as int, i) {
                    None
                } else {
                    old(self).schedule()[i]
                },
            final(self).walk() == after_step(
                old(self).walk(),
                old(self).edges(),
                Step::Move { node, next_state },
            ),
    {
        let ret_time = self.current_time;
        let ret_state = self.current_state.clone();
        let moment = match self.next_transitions[node] {
            Some(moment) => moment,
            None => unreached(),
        };
        self.current_time = moment;
        self.current_state[node] = next_state;
        self.next_transitions[node] = None;
        let count = self.next_transitions.len();
        let children = crate::sets::sorted_members(&self.net.get_children_set(node));
        let mut k: usize = 0;
        while k < children.len()
            invariant
                k <= children@.len(),
                count == old(self).schedule().len(),
                node < count,
                self.net() == old(self).net(),
                self.origin() == old(self).origin(),
                self.initial_state() == old(self).initial_state(),
                self.time() == old(self).schedule()[node as int]->0,
                self.state() == old(self).state().update(node as int, next_state),
                self.schedule().len() == count,
                count == self.net().nodes().len(),
                children@.to_set() == Set::new(
                    |c: usize| c < self.net().nodes().len() && self.net().has_edge(node as int, c as int),
                ),
                forall|i: int|
                    0 <= i < count ==> #[trigger] self.schedule()[i] == if i == node || (0 <= i
                        <= usize::MAX && children@.take(k as int).to_set().contains(i as usize)) {
                        None
                    } else {
                        old(self).schedule()[i]
                    },
            decreases children@.len() - k,
        {
            let child = children[k];
            proof {
                assert(children@.to_set().contains(child));
                crate::sets::lemma_members_of_longer(children@, k as int);
            }
            self.next_transitions[child] = None;
            k += 1;
        }
        proof {
            assert(children@.take(k as int) =~= children@);
            assert(ret_state@ =~= old(self).state());
            assert(self.walk().schedule =~= after_step(
                old(self).walk(),
                old(self).edges(),
                Step::Move { node, next_state },
            ).schedule);
        }
        Sample { t: ret_time, state: ret_state }
    }
}

impl<'a, N: NetworkProcess, T: Copy> Sampler for ForwardSampler<'a, N, T> {
    open spec fn ready(&self) -> bool {
        self.well_formed()
    }

    fn reset(&mut self)
        ensures
            final(self).net() == old(self).net(),
            final(self).origin() == old(self).origin(),
            final(self).initial_state() == old(self).initial_state(),
            final(self).time() == old(self).origin(),
            old(self).initial_state() matches Some(state) ==> final(self).state() == state,
            forall|i: int| 0 <= i < final(self).schedule().len() ==> final(self).schedule()[i] is None,
    {
        self.restart();
    }
}

} // verus!
