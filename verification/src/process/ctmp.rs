//! A process of one node without parents.

use crate::params::{Params, ParamsModel, StateType};
use crate::process::{NetworkError, NetworkProcess, NetworkProcessState};
use std::collections::BTreeSet;
use vstd::prelude::*;

verus! {

/// A continuous-time Markov process: a single node, never any edge.
pub struct CtmpProcess {
    param: Option<Params>,
}

impl CtmpProcess {
    /// A process without its node.
    pub fn new() -> (process: CtmpProcess)
        ensures
            process.well_formed(),
            process.nodes().len() == 0,
    {
        CtmpProcess { param: None }
    }
}

impl NetworkProcess for CtmpProcess {
    open spec fn well_formed(&self) -> bool {
        true
    }

    closed spec fn nodes(&self) -> Seq<ParamsModel> {
        match self.param {
            None => Seq::empty(),
            Some(p) => seq![p@],
        }
    }

    open spec fn supports_structure() -> bool {
        false
    }

    open spec fn capacity() -> Option<nat> {
        Some(1)
    }

    open spec fn has_structure(&self) -> bool {
        self.nodes().len() == 1
    }

    open spec fn has_edge(&self, parent: int, child: int) -> bool {
        false
    }

    open spec fn param_index_defined(&self, node: int, state: Seq<StateType>) -> bool {
        node == 0 && state.len() >= 1
    }

    open spec fn param_index(&self, node: int, state: Seq<StateType>) -> nat {
        state[0]->0 as nat
    }

    fn structure_supported() -> (supported: bool) {
        false
    }

    fn is_structured(&self) -> (structured: bool) {
        self.param.is_some()
    }

    fn initialize_adj_matrix(&mut self) {
        unreached()
    }

    fn add_node(&mut self, n: Params) -> (outcome: Result<usize, NetworkError>)
        ensures
            outcome is Ok ==> final(self).nodes() == seq![n@],
    {
        match self.param {
            None => {
                self.param = Some(n);
                assert(self.nodes().take(0) =~= old(self).nodes());
                Ok(0)
            },
            Some(_) => Err(
                NetworkError::NodeInsertionError("CtmpProcess has only one node".to_string()),
            ),
        }
    }

    fn add_edge(&mut self, parent: usize, child: usize) {
        unreached()
    }

    fn get_node_indices(&self) -> (indices: std::ops::Range<usize>) {
        match self.param {
            None => 0..0,
            Some(_) => 0..1,
        }
    }

    fn get_number_of_nodes(&self) -> (count: usize) {
        match self.param {
            None => 0,
            Some(_) => 1,
        }
    }

    fn get_node(&self, node_idx: usize) -> (node: &Params) {
        self.param.as_ref().unwrap()
    }

    fn get_node_mut(&mut self, node_idx: usize) -> (node: &mut Params) {
        self.param.as_mut().unwrap()
    }

    fn has_param_index(&self, node: usize, current_state: &NetworkProcessState) -> (defined: bool) {
        node == 0 && current_state.len() >= 1
    }

    fn get_param_index_network(
        &self,
        node: usize,
        current_state: &NetworkProcessState,
    ) -> (index: usize) {
        match current_state[0] {
            StateType::Discrete(x) => x,
        }
    }

    fn get_param_index_from_custom_parent_set(
        &self,
        current_state: &NetworkProcessState,
        parent_set: &BTreeSet<usize>,
    ) -> (index: usize) {
        unreached()
    }

    fn get_parent_set(&self, node: usize) -> (parents: BTreeSet<usize>) {
        let parents = BTreeSet::new();
        assert(parents@ =~= Set::new(
            |p: usize| p < self.nodes().len() && self.has_edge(p as int, node as int),
        ));
        parents
    }

    fn get_children_set(&self, node: usize) -> (children: BTreeSet<usize>) {
        let children = BTreeSet::new();
        assert(children@ =~= Set::new(
            |c: usize| c < self.nodes().len() && self.has_edge(node as int, c as int),
        ));
        children
    }
}

} // verus!
