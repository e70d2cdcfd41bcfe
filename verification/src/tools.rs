//! Observed trajectories and collections of them.

use crate::storage::{event_dims, event_entries, EventTable};
use vstd::prelude::*;

verus! {

/// One observed run of a process: the instants at which it was sampled and
/// the state of every variable at each of them. The library reads the states;
/// the instants are carried for the caller, whatever type stands for them.
pub struct Trajectory<T> {
    time: Vec<T>,
    events: EventTable,
}

impl<T> Trajectory<T> {
    /// The instants, in the order of the samples.
    pub closed spec fn time(&self) -> Seq<T> {
        self.time@
    }

    /// The states: one row per sample, one column per variable.
    pub closed spec fn events(&self) -> Seq<Seq<usize>> {
        event_entries(self.events)
    }

    /// The number of samples.
    pub closed spec fn samples(&self) -> nat {
        event_dims(self.events).0 as nat
    }

    /// The number of variables.
    pub closed spec fn variables(&self) -> nat {
        event_dims(self.events).1 as nat
    }

    /// Whether there is one instant per sample, and one state per sample and
    /// variable.
    pub closed spec fn well_formed(&self) -> bool {
        &&& self.events.well_formed()
        &&& self.time@.len() == event_dims(self.events).0
    }

    #[verifier::type_invariant]
    spec fn holds_together(&self) -> bool {
        self.well_formed()
    }

    /// Whether instants and states can make a trajectory: there is one
    /// instant for every row of states.
    pub fn fit_together(time: &Vec<T>, events: &EventTable) -> (fit: bool)
        ensures
            fit == (time@.len() == event_dims(*events).0),
    {
        time.len() == events.samples()
    }

    /// The trajectory with the given instants and states.
    pub fn new(time: Vec<T>, events: EventTable) -> (trajectory: Trajectory<T>)
        requires
            time@.len() == event_dims(events).0,
        ensures
            trajectory.well_formed(),
            trajectory.time() == time@,
            trajectory.events() == event_entries(events),
            trajectory.samples() == event_dims(events).0,
            trajectory.variables() == event_dims(events).1,
    {
        let _ = events.samples();
        Trajectory { time, events }
    }

    /// The instants.
    pub fn get_time(&self) -> (time: &Vec<T>)
        ensures
            time@ == self.time(),
            self.well_formed(),
    {
        proof {
            use_type_invariant(self);
        }
        &self.time
    }

    /// The states.
    pub fn get_events(&self) -> (events: &EventTable)
        ensures
            event_entries(*events) == self.events(),
            event_dims(*events).0 == self.samples(),
            event_dims(*events).1 == self.variables(),
            events.well_formed(),
            self.well_formed(),
    {
        proof {
            use_type_invariant(self);
        }
        &self.events
    }

    /// Facts that hold of every well-formed trajectory.
    pub proof fn lemma_well_formed(&self)
        requires
            self.well_formed(),
        ensures
            self.time().len() == self.samples(),
            self.events().len() == self.samples(),
            forall|k: int| 0 <= k < self.samples() ==> (#[trigger] self.events()[k]).len() == self.variables(),
            self.samples() <= usize::MAX,
            self.variables() <= usize::MAX,
    {
    }
}

impl<T: Clone> Clone for Trajectory<T> {
    fn clone(&self) -> (copy: Trajectory<T>)
        ensures
            copy.well_formed(),
            copy.events() == self.events(),
            copy.samples() == self.samples(),
            copy.variables() == self.variables(),
            copy.time().len() == self.time().len(),
            forall|i: int|
                0 <= i < self.time().len() ==> cloned(self.time()[i], #[trigger] copy.time()[i]),
    {
        proof {
            use_type_invariant(self);
        }
        Trajectory { time: self.time.clone(), events: self.events.clone() }
    }
}

/// Whether all of `trajectories` are well formed and describe the same
/// number of variables.
pub open spec fn describe_one_process<T>(trajectories: Seq<Trajectory<T>>) -> bool {
    &&& forall|k: int| 0 <= k < trajectories.len() ==> (#[trigger] trajectories[k]).well_formed()
    &&& forall|k: int|
        0 <= k < trajectories.len() ==> (#[trigger] trajectories[k]).variables()
            == trajectories[0].variables()
}

/// Trajectories of one process: at least one, all over the same variables.
pub struct Dataset<T> {
    trajectories: Vec<Trajectory<T>>,
}

impl<T> Dataset<T> {
    /// The trajectories.
    pub closed spec fn trajectories(&self) -> Seq<Trajectory<T>> {
        self.trajectories@
    }

    /// The states of every trajectory: one table of samples per trajectory.
    pub open spec fn events(&self) -> Seq<Seq<Seq<usize>>> {
        self.trajectories().map_values(|t: Trajectory<T>| t.events())
    }

    /// Whether there is a trajectory, and all describe the same variables.
    pub open spec fn well_formed(&self) -> bool {
        &&& self.trajectories().len() > 0
        &&& describe_one_process(self.trajectories())
    }

    #[verifier::type_invariant]
    spec fn holds_together(&self) -> bool {
        self.well_formed()
    }

    /// The number of variables that the trajectories describe.
    pub open spec fn variables(&self) -> nat {
        self.trajectories()[0].variables()
    }

    /// Whether `trajectories` can make a dataset: there is at least one, and
    /// all describe the same number of variables.
    pub fn belong_together(trajectories: &Vec<Trajectory<T>>) -> (fit: bool)
        ensures
            fit ==> trajectories@.len() > 0 && describe_one_process(trajectories@),
            !fit ==> trajectories@.len() == 0 || exists|k: int|
                0 <= k < trajectories@.len() && (#[trigger] trajectories@[k]).variables()
                    != trajectories@[0].variables(),
    {
        if trajectories.len() == 0 {
            return false;
        }
        let variables = trajectories[0].get_events().variables();
        let mut k: usize = 0;
        while k < trajectories.len()
            invariant
                k <= trajectories@.len(),
                trajectories@.len() > 0,
                variables == trajectories@[0].variables(),
                forall|i: int| 0 <= i < k ==> (#[trigger] trajectories@[i]).well_formed(),
                forall|i: int| 0 <= i < k ==> (#[trigger] trajectories@[i]).variables() == variables,
            decreases trajectories@.len() - k,
        {
            if trajectories[k].get_events().variables() != variables {
                return false;
            }
            k += 1;
        }
        true
    }

    /// The dataset of the given trajectories.
    pub fn new(trajectories: Vec<Trajectory<T>>) -> (dataset: Dataset<T>)
        requires
            trajectories@.len() > 0,
            describe_one_process(trajectories@),
        ensures
            dataset.well_formed(),
            dataset.trajectories() == trajectories@,
    {
        Dataset { trajectories }
    }

    /// The trajectories.
    pub fn get_trajectories(&self) -> (trajectories: &Vec<Trajectory<T>>)
        ensures
            trajectories@ == self.trajectories(),
            self.well_formed(),
    {
        proof {
            use_type_invariant(self);
        }
        &self.trajectories
    }
}

impl<T: Clone> Clone for Dataset<T> {
    fn clone(&self) -> (copy: Dataset<T>)
        ensures
            copy.well_formed(),
            copy.trajectories().len() == self.trajectories().len(),
            forall|k: int|
                0 <= k < self.trajectories().len() ==> (#[trigger] copy.trajectories()[k]).events()
                    == self.trajectories()[k].events(),
            forall|k: int|
                0 <= k < self.trajectories().len() ==> (#[trigger] copy.trajectories()[k]).time().len()
                    == self.trajectories()[k].time().len(),
            forall|k: int, i: int|
                0 <= k < self.trajectories().len() && 0 <= i < self.trajectories()[k].time().len()
                    ==> cloned(
                    self.trajectories()[k].time()[i],
                    #[trigger] copy.trajectories()[k].time()[i],
                ),
    {
        proof {
            use_type_invariant(self);
        }
        let mut copies: Vec<Trajectory<T>> = Vec::new();
        let mut k: usize = 0;
        while k < self.trajectories.len()
            invariant
                k <= self.trajectories@.len(),
                self.well_formed(),
                copies@.len() == k,
                forall|i: int|
                    0 <= i < k ==> {
                        &&& (#[trigger] copies@[i]).well_formed()
                        &&& copies@[i].events() == self.trajectories@[i].events()
                        &&& copies@[i].variables() == self.trajectories@[i].variables()
                        &&& copies@[i].time().len() == self.trajectories@[i].time().len()
                    },
                forall|i: int, j: int|
                    0 <= i < k && 0 <= j < self.trajectories@[i].time().len() ==> cloned(
                        self.trajectories@[i].time()[j],
                        #[trigger] copies@[i].time()[j],
                    ),
            decreases self.trajectories@.len() - k,
        {
            copies.push(self.trajectories[k].clone());
            k += 1;
        }
        Dataset { trajectories: copies }
    }
}

} // verus!
