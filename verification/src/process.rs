//! Processes over a set of nodes: what every kind of network offers.

pub mod ctbn;
pub mod ctmp;

use crate::indexing::{
    as_naturals, configuration_index, configuration_space, is_valid_on, space_of, state_values,
    valid_on, values_of,
};
use crate::params::{Params, ParamsModel, ParamsTrait, StateType};
use crate::sets::{ascending, sorted_members};
use std::collections::BTreeSet;
use vstd::prelude::*;

verus! {

/// What can go wrong when a network is built.
#[derive(Debug)]
pub enum NetworkError {
    NodeInsertionError(String),
}

/// One state per node, by node index.
pub type NetworkProcessState = Vec<StateType>;

/// The cardinalities of the nodes, by node index.
pub open spec fn cardinalities(nodes: Seq<ParamsModel>) -> Seq<nat> {
    nodes.map_values(|p: ParamsModel| p.cardinality)
}

/// The block `p` with its matrix and its statistics forgotten.
pub open spec fn cleared(p: ParamsModel) -> ParamsModel {
    ParamsModel { cim: None, transitions: None, ..p }
}

/// Whether an adjacency matrix over `n` nodes can be allocated.
pub open spec fn order_fits(n: nat) -> bool {
    2 * n * n <= isize::MAX
}

/// Whether the joint states of the nodes in `parent_set` can be numbered for
/// `state`: `state` gives each of them a state of its domain, and the number
/// of joint states fits the machine word.
pub open spec fn numbers_states(
    nodes: Seq<ParamsModel>,
    parent_set: Set<usize>,
    state: Seq<StateType>,
) -> bool {
    &&& valid_on(ascending(parent_set), state_values(state), cardinalities(nodes))
    &&& configuration_space(ascending(parent_set), cardinalities(nodes)) <= usize::MAX
}

/// A process over nodes with discrete states, each with its parameter block,
/// and with directed edges between the nodes where the kind of process has
/// any.
pub trait NetworkProcess: Sized {
    /// Whether the representation is consistent.
    spec fn well_formed(&self) -> bool;

    /// The parameter blocks of the nodes, by node index.
    spec fn nodes(&self) -> Seq<ParamsModel>;

    /// Whether this kind of process has edges and parent sets to choose.
    spec fn supports_structure() -> bool;

    /// The greatest number of nodes that this kind of process holds, if it
    /// has a limit.
    spec fn capacity() -> Option<nat>;

    /// Whether the parent and children sets of the nodes are defined.
    spec fn has_structure(&self) -> bool;

    /// Whether there is an edge from `parent` to `child`.
    spec fn has_edge(&self, parent: int, child: int) -> bool;

    /// Whether the row of the parameters of `node` under `state` is defined.
    spec fn param_index_defined(&self, node: int, state: Seq<StateType>) -> bool;

    /// The row of the parameters of `node` that applies under `state`.
    spec fn param_index(&self, node: int, state: Seq<StateType>) -> nat;

    /// Whether this kind of process has edges and parent sets to choose.
    fn structure_supported() -> (supported: bool)
        ensures
            supported == Self::supports_structure(),
    ;

    /// Whether the parent and children sets of the nodes are defined.
    fn is_structured(&self) -> (structured: bool)
        requires
            self.well_formed(),
        ensures
            structured == self.has_structure(),
    ;

    /// Starts the structure anew: afterwards every node is without parents.
    fn initialize_adj_matrix(&mut self)
        requires
            old(self).well_formed(),
            Self::supports_structure(),
            order_fits(old(self).nodes().len()),
        ensures
            final(self).well_formed(),
            final(self).nodes() == old(self).nodes(),
            final(self).has_structure(),
            forall|p: int, c: int| !final(self).has_edge(p, c),
    ;

    /// Adds a node and returns its index, where the process has room for it.
    /// A process that has taken a node is left without any edge.
    fn add_node(&mut self, n: Params) -> (outcome: Result<usize, NetworkError>)
        requires
            old(self).well_formed(),
        ensures
            final(self).well_formed(),
            outcome is Ok <==> (Self::capacity() matches Some(limit) ==> old(self).nodes().len()
                < limit),
            outcome matches Ok(index) ==> {
                &&& index == old(self).nodes().len()
                &&& final(self).nodes().len() == index + 1
                &&& final(self).nodes().take(index as int) == old(self).nodes()
                &&& final(self).nodes()[index as int].label == n@.label
                &&& final(self).nodes()[index as int].cardinality == n@.cardinality
            },
            outcome is Err ==> final(self).nodes() == old(self).nodes(),
            outcome is Err ==> final(self).has_structure() == old(self).has_structure(),
            forall|p: int, c: int|
                #[trigger] final(self).has_edge(p, c) ==> outcome is Err && old(self).has_edge(
                    p,
                    c,
                ),
    ;

    /// Adds the edge from `parent` to `child`. The parameters of `child`
    /// are forgotten, since they no longer fit its parent set.
    fn add_edge(&mut self, parent: usize, child: usize)
        requires
            old(self).well_formed(),
            Self::supports_structure(),
            order_fits(old(self).nodes().len()),
            parent < old(self).nodes().len(),
            child < old(self).nodes().len(),
        ensures
            final(self).well_formed(),
            final(self).has_structure(),
            final(self).nodes() == old(self).nodes().update(
                child as int,
                cleared(old(self).nodes()[child as int]),
            ),
            forall|p: int, c: int|
                #[trigger] final(self).has_edge(p, c) <==> (old(self).has_edge(p, c) || (p
                    == parent && c == child)),
    ;

    /// The indices of the nodes.
    fn get_node_indices(&self) -> (indices: std::ops::Range<usize>)
        requires
            self.well_formed(),
        ensures
            indices.start == 0,
            indices.end == self.nodes().len(),
    ;

    /// The number of nodes.
    fn get_number_of_nodes(&self) -> (count: usize)
        requires
            self.well_formed(),
        ensures
            count == self.nodes().len(),
    ;

    /// The parameter block of a node.
    fn get_node(&self, node_idx: usize) -> (node: &Params)
        requires
            self.well_formed(),
            node_idx < self.nodes().len(),
        ensures
            node@ == self.nodes()[node_idx as int],
    ;

    /// The parameter block of a node, to change it in place.
    fn get_node_mut(&mut self, node_idx: usize) -> (node: &mut Params)
        requires
            old(self).well_formed(),
            node_idx < old(self).nodes().len(),
        ensures
            node@ == old(self).nodes()[node_idx as int],
            final(self).well_formed(),
            final(self).nodes() == old(self).nodes().update(node_idx as int, final(node)@),
            final(self).has_structure() == old(self).has_structure(),
            forall|p: int, c: int| final(self).has_edge(p, c) == old(self).has_edge(p, c),
    ;

    /// Whether the row of the parameters of `node` under `current_state` is
    /// defined.
    fn has_param_index(&self, node: usize, current_state: &NetworkProcessState) -> (defined: bool)
        requires
            self.well_formed(),
        ensures
            defined == self.param_index_defined(node as int, current_state@),
    ;

    /// The row of the parameters of `node` that applies when the network is
    /// in `current_state`.
    fn get_param_index_network(
        &self,
        node: usize,
        current_state: &NetworkProcessState,
    ) -> (index: usize)
        requires
            self.well_formed(),
            self.param_index_defined(node as int, current_state@),
        ensures
            index == self.param_index(node as int, current_state@),
    ;

    /// The row that applies under `current_state` in parameters conditioned
    /// on `parent_set` in place of the parents that the network gives the
    /// node.
    fn get_param_index_from_custom_parent_set(
        &self,
        current_state: &NetworkProcessState,
        parent_set: &BTreeSet<usize>,
    ) -> (index: usize)
        requires
            self.well_formed(),
            Self::supports_structure(),
            numbers_states(self.nodes(), parent_set@, current_state@),
        ensures
            index == configuration_index(
                ascending(parent_set@),
                state_values(current_state@),
                cardinalities(self.nodes()),
            ),
    ;

    /// The nodes with an edge into `node`.
    fn get_parent_set(&self, node: usize) -> (parents: BTreeSet<usize>)
        requires
            self.well_formed(),
            self.has_structure(),
            node < self.nodes().len(),
        ensures
            parents@ == Set::new(
                |p: usize| p < self.nodes().len() && self.has_edge(p as int, node as int),
            ),
    ;

    /// The nodes that `node` has an edge into.
    fn get_children_set(&self, node: usize) -> (children: BTreeSet<usize>)
        requires
            self.well_formed(),
            self.has_structure(),
            node < self.nodes().len(),
        ensures
            children@ == Set::new(
                |c: usize| c < self.nodes().len() && self.has_edge(node as int, c as int),
            ),
    ;
}

/// Whether an adjacency matrix over `count` nodes can be allocated.
pub fn structure_fits(count: usize) -> (fit: bool)
    ensures
        fit == order_fits(count as nat),
{
    let limit: usize = isize::MAX as usize;
    match count.checked_mul(count) {
        None => {
            proof {
                assert(2 * count * count == 2 * (count * count)) by (nonlinear_arith);
            }
            false
        },
        Some(cells) => match cells.checked_mul(2) {
            None => {
                proof {
                    assert(2 * count * count == cells * 2) by (nonlinear_arith)
                        requires
                            cells == count * count,
                    ;
                }
                false
            },
            Some(bytes) => {
                proof {
                    assert(2 * count * count == bytes) by (nonlinear_arith)
                        requires
                            cells == count * count,
                            bytes == cells * 2,
                    ;
                }
                bytes <= limit
            },
        },
    }
}

/// The cardinality of every node of `net`, by node index.
pub fn cardinality_list<N: NetworkProcess>(net: &N) -> (cards: Vec<usize>)
    requires
        net.well_formed(),
    ensures
        as_naturals(cards@) == cardinalities(net.nodes()),
{
    let count = net.get_number_of_nodes();
    let mut cards: Vec<usize> = Vec::new();
    let mut x: usize = 0;
    while x < count
        invariant
            x <= count,
            count == net.nodes().len(),
            net.well_formed(),
            cards@.len() == x,
            forall|i: int| 0 <= i < x ==> #[trigger] cards@[i] == net.nodes()[i].cardinality,
        decreases count - x,
    {
        cards.push(net.get_node(x).get_reserved_space_as_parent());
        x += 1;
    }
    assert(as_naturals(cards@) =~= cardinalities(net.nodes()));
    cards
}

/// Whether the joint states of the nodes in `parent_set` can be numbered for
/// `current_state`.
pub fn numbers<N: NetworkProcess>(
    net: &N,
    current_state: &NetworkProcessState,
    parent_set: &BTreeSet<usize>,
) -> (defined: bool)
    requires
        net.well_formed(),
    ensures
        defined == numbers_states(net.nodes(), parent_set@, current_state@),
{
    let parents = sorted_members(parent_set);
    let cards = cardinality_list(net);
    let values = values_of(current_state);
    if !is_valid_on(&parents, &values, &cards) {
        return false;
    }
    space_of(&parents, &cards).is_some()
}

} // verus!
