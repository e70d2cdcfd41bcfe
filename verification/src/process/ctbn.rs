//! Continuous-time Bayesian networks.

use crate::indexing::{
    all_nodes, as_naturals, configuration_index, configuration_space, index_of, is_valid_on,
    lemma_index_ignores_others, space_of, state_values, valid_on, values_of,
};
use crate::params::{Params, ParamsModel, ParamsTrait, StateType};
use crate::process::{
    cardinalities, cleared, numbers_states, NetworkError, NetworkProcess, NetworkProcessState,
};
use crate::sets::{
    ascending, lemma_ascending_is, lists_ascending, set_of, sorted_members, strictly_increasing,
};
use crate::storage::{adjacency_entries, AdjacencyMatrix};
use std::collections::BTreeSet;
use vstd::prelude::*;

verus! {

/// The positions below `k` at which `marks` holds a mark, smallest first.
pub open spec fn marked_below(marks: Seq<u16>, k: int) -> Seq<usize>
    decreases k,
{
    if k <= 0 {
        Seq::empty()
    } else if marks[k - 1] > 0 {
        marked_below(marks, k - 1).push((k - 1) as usize)
    } else {
        marked_below(marks, k - 1)
    }
}

/// `marked_below` lists exactly the marked positions below `k`, in
/// increasing order.
pub proof fn lemma_marked_below(marks: Seq<u16>, k: int)
    requires
        0 <= k <= marks.len() <= usize::MAX,
    ensures
        strictly_increasing(marked_below(marks, k)),
        forall|i: int|
            0 <= i < marked_below(marks, k).len() ==> (#[trigger] marked_below(marks, k)[i]) < k,
        forall|p: usize|
            marked_below(marks, k).contains(p) <==> (p < k && #[trigger] marks[p as int] > 0),
    decreases k,
{
    if k > 0 {
        lemma_marked_below(marks, k - 1);
        let front = marked_below(marks, k - 1);
        let all = marked_below(marks, k);
        if marks[k - 1] > 0 {
            assert forall|p: usize| all.contains(p) <==> (p < k && #[trigger] marks[p as int]
                > 0) by {
                if all.contains(p) {
                    let i = choose|i: int| 0 <= i < all.len() && all[i] == p;
                    if i < front.len() {
                        assert(front[i] == p);
                        assert(front.contains(p));
                    }
                }
                if p < k && marks[p as int] > 0 {
                    if p == k - 1 {
                        assert(all[all.len() - 1] == p);
                    } else {
                        assert(front.contains(p));
                        let i = choose|i: int| 0 <= i < front.len() && front[i] == p;
                        assert(all[i] == p);
                    }
                }
            }
        }
    }
}

/// A network of nodes with discrete states and directed edges between them.
///
/// The position of a node among the nodes is also its row and its column in
/// the adjacency matrix.
pub struct CtbnNetwork {
    adj_matrix: Option<AdjacencyMatrix>,
    nodes: Vec<Params>,
}

impl CtbnNetwork {
    /// The nodes with a mark in the column of `node`.
    pub open spec fn marked_parents(&self, node: int) -> Set<usize> {
        Set::new(|p: usize| p < self.nodes().len() && self.has_edge(p as int, node))
    }

    /// A network without nodes.
    pub fn new() -> (net: CtbnNetwork)
        ensures
            net.well_formed(),
            net.nodes().len() == 0,
            !net.has_structure(),
    {
        CtbnNetwork { adj_matrix: None, nodes: Vec::new() }
    }

    /// The state of each of the variables in the joint state numbered
    /// `state`, where `variables_domain` holds the cardinality of every
    /// variable and all variables are numbered together, the first being the
    /// least significant digit: the inverse of the numbering of joint states.
    pub fn idx_to_state(variables_domain: &Vec<usize>, state: usize) -> (array_state: Vec<usize>)
        requires
            forall|i: int| 0 <= i < variables_domain@.len() ==> #[trigger] variables_domain@[i] > 0,
        ensures
            array_state@.len() == variables_domain@.len(),
            valid_on(
                all_nodes(variables_domain@.len()),
                array_state@,
                as_naturals(variables_domain@),
            ),
            configuration_index(
                all_nodes(variables_domain@.len()),
                array_state@,
                as_naturals(variables_domain@),
            ) == state as int % configuration_space(
                all_nodes(variables_domain@.len()),
                as_naturals(variables_domain@),
            ) as int,
    {
        let ghost cards = as_naturals(variables_domain@);
        let ghost count = variables_domain@.len();
        let ghost mut stride: int = 1;
        let mut rest = state;
        let mut array_state: Vec<usize> = Vec::new();
        let mut idx: usize = 0;
        while idx < variables_domain.len()
            invariant
                idx <= count,
                count == variables_domain@.len(),
                cards == as_naturals(variables_domain@),
                forall|i: int| 0 <= i < count ==> #[trigger] variables_domain@[i] > 0,
                array_state@.len() == idx,
                forall|i: int| 0 <= i < idx ==> #[trigger] array_state@[i] < variables_domain@[i],
                stride == configuration_space(all_nodes(idx as nat), cards),
                stride >= 1,
                state == configuration_index(all_nodes(idx as nat), array_state@, cards) + stride
                    * rest,
                configuration_index(all_nodes(idx as nat), array_state@, cards) < stride,
            decreases count - idx,
        {
            let var = variables_domain[idx];
            let digit = rest % var;
            let ghost before = array_state@;
            array_state.push(digit);
            proof {
                let longer = all_nodes((idx + 1) as nat);
                let shorter = all_nodes(idx as nat);
                assert(longer.drop_last() =~= shorter);
                assert(longer.last() == idx);
                lemma_index_ignores_others(shorter, before, array_state@, cards);
                vstd::arithmetic::div_mod::lemma_fundamental_div_mod(rest as int, var as int);
                let q = rest as int / var as int;
                let i0 = configuration_index(shorter, before, cards) as int;
                assert(cards[idx as int] == var);
                assert(state == i0 + digit * stride + (stride * var) * q) by (nonlinear_arith)
                    requires
                        state == i0 + stride * rest,
                        rest == var * q + digit,
                ;
                assert(i0 + digit * stride < stride * var) by (nonlinear_arith)
                    requires
                        0 <= i0 < stride,
                        0 <= digit < var,
                ;
                assert(stride * var >= 1) by (nonlinear_arith)
                    requires
                        stride >= 1,
                        var >= 1,
                ;
                stride = stride * var;
            }
            rest = rest / var;
            idx += 1;
        }
        proof {
            let all = all_nodes(count);
            assert forall|k: int| 0 <= k < all.len() implies {
                &&& #[trigger] all[k] < cards.len()
                &&& all[k] < array_state@.len()
                &&& array_state@[all[k] as int] < cards[all[k] as int]
            } by {
                assert(array_state@[k] < variables_domain@[k]);
            }
            vstd::arithmetic::div_mod::lemma_fundamental_div_mod_converse(
                state as int,
                stride,
                rest as int,
                configuration_index(all, array_state@, cards) as int,
            );
        }
        array_state
    }

    /// The adjacency matrix, once the structure has been started.
    pub fn get_adj_matrix(&self) -> (matrix: Option<&AdjacencyMatrix>)
        ensures
            matrix is Some <==> self.has_structure(),
            matrix matches Some(m) ==> forall|p: int, c: int|
                0 <= p < self.nodes().len() && 0 <= c < self.nodes().len() ==> (self.has_edge(p, c)
                    <==> #[trigger] adjacency_entries(*m)[p][c] > 0),
    {
        self.adj_matrix.as_ref()
    }

    /// Whether there is an edge from `parent` to `child`.
    pub fn is_edge(&self, parent: usize, child: usize) -> (edge: bool)
        requires
            self.well_formed(),
        ensures
            edge == self.has_edge(parent as int, child as int),
    {
        match &self.adj_matrix {
            Some(m) => {
                if parent < self.nodes.len() && child < self.nodes.len() {
                    m.row(parent)[child] > 0
                } else {
                    false
                }
            },
            None => false,
        }
    }

    /// The marked rows of the column of `node`, smallest first.
    fn parent_list(&self, node: usize) -> (parents: Vec<usize>)
        requires
            self.well_formed(),
            self.has_structure(),
            node < self.nodes().len(),
        ensures
            lists_ascending(parents@, self.marked_parents(node as int)),
            parents@ == ascending(self.marked_parents(node as int)),
            forall|k: int| 0 <= k < parents@.len() ==> #[trigger] parents@[k] < self.nodes().len(),
    {
        let marks = match &self.adj_matrix {
            Some(m) => m.column(node),
            None => Vec::new(),
        };
        let mut parents: Vec<usize> = Vec::new();
        let mut p: usize = 0;
        while p < marks.len()
            invariant
                p <= marks@.len(),
                parents@ == marked_below(marks@, p as int),
            decreases marks@.len() - p,
        {
            if marks[p] > 0 {
                parents.push(p);
            }
            p += 1;
        }
        proof {
            lemma_marked_below(marks@, marks@.len() as int);
            assert(parents@.to_set() =~= self.marked_parents(node as int)) by {
                assert forall|q: usize|
                    parents@.to_set().contains(q) <==> self.marked_parents(node as int).contains(
                        q,
                    ) by {
                    if q < marks@.len() {
                        assert(marks@[q as int] == adjacency_entries(
                            self.adj_matrix->0,
                        )[q as int][node as int]);
                    }
                }
            }
            lemma_ascending_is(parents@, self.marked_parents(node as int));
        }
        parents
    }
}

impl CtbnNetwork {
    /// The cardinality of every node, by node index.
    fn cardinality_list(&self) -> (cards: Vec<usize>)
        ensures
            as_naturals(cards@) == cardinalities(self.nodes()),
    {
        let mut cards: Vec<usize> = Vec::new();
        let mut x: usize = 0;
        while x < self.nodes.len()
            invariant
                x <= self.nodes@.len(),
                cards@.len() == x,
                forall|i: int| 0 <= i < x ==> #[trigger] cards@[i] == self.nodes()[i].cardinality,
            decreases self.nodes@.len() - x,
        {
            cards.push(self.nodes[x].get_reserved_space_as_parent());
            x += 1;
        }
        assert(as_naturals(cards@) =~= cardinalities(self.nodes()));
        cards
    }
}

impl NetworkProcess for CtbnNetwork {
    closed spec fn well_formed(&self) -> bool {
        self.adj_matrix matches Some(m) ==> m.has_order(self.nodes@.len() as int)
    }

    closed spec fn nodes(&self) -> Seq<ParamsModel> {
        self.nodes@.map_values(|p: Params| p@)
    }

    open spec fn supports_structure() -> bool {
        true
    }

    open spec fn capacity() -> Option<nat> {
        None
    }

    closed spec fn has_structure(&self) -> bool {
        self.adj_matrix is Some
    }

    closed spec fn has_edge(&self, parent: int, child: int) -> bool {
        &&& self.adj_matrix is Some
        &&& 0 <= parent < self.nodes@.len()
        &&& 0 <= child < self.nodes@.len()
        &&& adjacency_entries(self.adj_matrix->0)[parent][child] > 0
    }

    open spec fn param_index_defined(&self, node: int, state: Seq<StateType>) -> bool {
        &&& self.has_structure()
        &&& 0 <= node < self.nodes().len()
        &&& numbers_states(self.nodes(), self.marked_parents(node), state)
    }

    open spec fn param_index(&self, node: int, state: Seq<StateType>) -> nat {
        configuration_index(
            ascending(self.marked_parents(node)),
            state_values(state),
            cardinalities(self.nodes()),
        )
    }

    fn structure_supported() -> (supported: bool) {
        true
    }

    fn is_structured(&self) -> (structured: bool) {
        self.adj_matrix.is_some()
    }

    fn initialize_adj_matrix(&mut self) {
        let order = self.nodes.len();
        proof {
            let n = self.nodes().len();
            assert(2 * (n * n) == 2 * n * n) by (nonlinear_arith);
        }
        self.adj_matrix = Some(AdjacencyMatrix::zeros(order));
    }

    fn add_node(&mut self, n: Params) -> (outcome: Result<usize, NetworkError>)
        ensures
            outcome is Ok,
            final(self).nodes() == old(self).nodes().push(cleared(n@)),
            !final(self).has_structure(),
    {
        let mut n = n;
        n.reset_params();
        self.adj_matrix = None;
        self.nodes.push(n);
        proof {
            assert(self.nodes() =~= old(self).nodes().push(cleared(n@)));
            assert(self.nodes().take(old(self).nodes().len() as int) =~= old(self).nodes());
        }
        Ok(self.nodes.len() - 1)
    }

    fn add_edge(&mut self, parent: usize, child: usize) {
        if self.adj_matrix.is_none() {
            self.initialize_adj_matrix();
        }
        let ghost before = adjacency_entries(self.adj_matrix->0);
        let ghost started = *self;
        assert forall|p: int, c: int|
            0 <= p < self.nodes@.len() && 0 <= c < self.nodes@.len() implies (old(self).has_edge(
                p,
                c,
            ) <==> #[trigger] before[p][c] > 0) by {
            assert(started.has_edge(p, c) <==> old(self).has_edge(p, c));
        }
        match &mut self.adj_matrix {
            Some(network) => {
                network.set(parent, child, 1);
            },
            None => {},
        }
        self.nodes[child].reset_params();
        proof {
            let after = adjacency_entries(self.adj_matrix->0);
            assert(after == before.update(
                parent as int,
                before[parent as int].update(child as int, 1),
            ));
            assert(self.nodes@.len() == old(self).nodes@.len());
            assert(self.nodes() =~= old(self).nodes().update(
                child as int,
                cleared(old(self).nodes()[child as int]),
            ));
            assert forall|p: int, c: int| #[trigger]
                self.has_edge(p, c) <==> (old(self).has_edge(p, c) || (p == parent && c
                    == child)) by {
                if 0 <= p < self.nodes@.len() && 0 <= c < self.nodes@.len() {
                    if p == parent {
                        assert(after[p] == before[p].update(child as int, 1));
                    } else {
                        assert(after[p] == before[p]);
                    }
                }
            }
        }
    }

    fn get_node_indices(&self) -> (indices: std::ops::Range<usize>) {
        0..self.nodes.len()
    }

    fn get_number_of_nodes(&self) -> (count: usize) {
        self.nodes.len()
    }

    fn get_node(&self, node_idx: usize) -> (node: &Params) {
        &self.nodes[node_idx]
    }

    fn get_node_mut(&mut self, node_idx: usize) -> (node: &mut Params) {
        &mut self.nodes[node_idx]
    }

    fn has_param_index(&self, node: usize, current_state: &NetworkProcessState) -> (defined: bool) {
        if self.adj_matrix.is_none() || node >= self.nodes.len() {
            return false;
        }
        let parents = self.parent_list(node);
        let cards = self.cardinality_list();
        if !is_valid_on(&parents, &values_of(current_state), &cards) {
            return false;
        }
        space_of(&parents, &cards).is_some()
    }

    fn get_param_index_network(
        &self,
        node: usize,
        current_state: &NetworkProcessState,
    ) -> (index: usize) {
        let parents = self.parent_list(node);
        index_of(&parents, &values_of(current_state), &self.cardinality_list())
    }

    fn get_param_index_from_custom_parent_set(
        &self,
        current_state: &NetworkProcessState,
        parent_set: &BTreeSet<usize>,
    ) -> (index: usize) {
        let parents = sorted_members(parent_set);
        index_of(&parents, &values_of(current_state), &self.cardinality_list())
    }

    fn get_parent_set(&self, node: usize) -> (parents: BTreeSet<usize>) {
        set_of(&self.parent_list(node))
    }

    fn get_children_set(&self, node: usize) -> (children: BTreeSet<usize>) {
        let marks = match &self.adj_matrix {
            Some(m) => m.row(node),
            None => Vec::new(),
        };
        let mut children: BTreeSet<usize> = BTreeSet::new();
        let mut c: usize = 0;
        while c < marks.len()
            invariant
                c <= marks@.len(),
                marks@.len() == self.nodes().len(),
                self.has_structure(),
                self.well_formed(),
                node < self.nodes().len(),
                marks@ == adjacency_entries(self.adj_matrix->0)[node as int],
                children@ == Set::new(
                    |x: usize| x < c && self.has_edge(node as int, x as int),
                ),
            decreases marks@.len() - c,
        {
            if marks[c] > 0 {
                children.insert(c);
            }
            proof {
                assert(children@ =~= Set::new(
                    |x: usize| x < c + 1 && self.has_edge(node as int, x as int),
                ));
            }
            c += 1;
        }
        assert(children@ =~= Set::new(
            |x: usize| x < self.nodes().len() && self.has_edge(node as int, x as int),
        ));
        children
    }
}

} // verus!
