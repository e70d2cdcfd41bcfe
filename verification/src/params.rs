//! Parameter blocks of the nodes of a network.
//!
//! A block keeps what the structural side of the library reads of a node:
//! its label, its domain, its transition counts and a summary of its
//! conditional intensity matrix. The rates themselves are real numbers and
//! are kept by the caller next to the block.

use crate::storage::TransitionCounts;
use rand::Rng;
use std::collections::BTreeSet;
use vstd::prelude::*;

verus! {

#[verifier::external_type_specification]
#[verifier::external_body]
pub struct ExChaCha8Rng(rand_chacha::ChaCha8Rng);

/// `rand::Rng::gen_range` over `0..bound` on a ChaCha generator: some index
/// below `bound`. The call panics on an empty range, which the precondition
/// leaves out.
#[verifier::external_body]
pub(crate) fn uniform_below(rng: &mut rand_chacha::ChaCha8Rng, bound: usize) -> (k: usize)
    requires
        bound > 0,
    ensures
        k < bound,
{
    rng.gen_range(0..bound)
}

/// The text that reports a matrix of the given shape for a domain of
/// `domain_size` states.
pub uninterp spec fn shape_report(
    configurations: usize,
    rows: usize,
    columns: usize,
    domain_size: usize,
) -> Seq<char>;

/// `format!` of the shape, as a list, and of the domain size into the report
/// of a shape mismatch.
#[verifier::external_body]
fn format_shape_report(
    configurations: usize,
    rows: usize,
    columns: usize,
    domain_size: usize,
) -> (text: String)
    ensures
        text@ == shape_report(configurations, rows, columns, domain_size),
{
    format!(
        "Incompatible shape {:?} with domain {:?}",
        [configurations, rows, columns],
        domain_size
    )
}

/// What can go wrong with the parameters of a node.
#[derive(Debug, PartialEq, Clone)]
pub enum ParamsError {
    UnsupportedMethod(String),
    ParametersNotInitialized(String),
    InvalidCIM(String),
}

/// The state of one variable.
#[derive(Clone, Copy, Debug, PartialEq, Eq, Hash, Structural)]
pub enum StateType {
    Discrete(usize),
}

/// What the library reads of a conditional intensity matrix: its three axis
/// lengths (parent configurations, source states, target states), whether
/// some diagonal rate is positive, and whether some row fails to sum to zero
/// within the tolerance.
#[derive(Clone, Copy, Debug, PartialEq, Eq, Structural)]
pub struct CimSummary {
    pub configurations: usize,
    pub rows: usize,
    pub columns: usize,
    pub positive_diagonal: bool,
    pub unbalanced_row: bool,
}

/// The first rule that a matrix breaks, in the order in which the rules are
/// checked.
pub enum CimDefect {
    NotInitialized,
    Shape,
    Diagonal,
    RowSum,
}

/// The first rule broken by the matrix `cim` of a node with `cardinality`
/// states, if any: the matrix must be set, its two inner axes must have the
/// length of the domain, no diagonal rate may be positive, and every row must
/// sum to zero.
pub open spec fn cim_defect(cim: Option<CimSummary>, cardinality: nat) -> Option<CimDefect> {
    match cim {
        None => Some(CimDefect::NotInitialized),
        Some(c) => if c.rows != cardinality || c.columns != cardinality {
            Some(CimDefect::Shape)
        } else if c.positive_diagonal {
            Some(CimDefect::Diagonal)
        } else if c.unbalanced_row {
            Some(CimDefect::RowSum)
        } else {
            None
        },
    }
}

/// Whether `error` is the report of `defect` for the matrix `cim` of a node
/// with `cardinality` states.
pub open spec fn reports(
    error: ParamsError,
    defect: CimDefect,
    cim: Option<CimSummary>,
    cardinality: nat,
) -> bool {
    match defect {
        CimDefect::NotInitialized => error matches ParamsError::ParametersNotInitialized(text)
            && text@ == "CIM not initialized"@,
        CimDefect::Shape => error matches ParamsError::InvalidCIM(text) && cim is Some && text@
            == shape_report(
            cim->0.configurations,
            cim->0.rows,
            cim->0.columns,
            cardinality as usize,
        ),
        CimDefect::Diagonal => error matches ParamsError::InvalidCIM(text) && text@
            == "The diagonal of each cim must be non-positive"@,
        CimDefect::RowSum => error matches ParamsError::InvalidCIM(text) && text@
            == "The sum of each row must be 0"@,
    }
}

/// The mathematical content of a parameter block.
pub struct ParamsModel {
    pub label: Seq<char>,
    pub cardinality: nat,
    pub cim: Option<CimSummary>,
    pub transitions: Option<TransitionCounts>,
}

/// What every kind of parameter block offers.
pub trait ParamsTrait: View<V = ParamsModel> {
    /// Forgets the matrix and the statistics; label and domain stay.
    fn reset_params(&mut self)
        ensures
            final(self)@ == (ParamsModel { cim: None, transitions: None, ..old(self)@ }),
    ;

    /// A state of the node drawn uniformly from its domain.
    fn get_random_state_uniform(&self, rng: &mut rand_chacha::ChaCha8Rng) -> (state: StateType)
        requires
            self@.cardinality > 0,
        ensures
            state->0 < self@.cardinality,
    ;

    /// The number of states of the node: the factor by which it multiplies
    /// the parent configurations of each of its children.
    fn get_reserved_space_as_parent(&self) -> (cardinality: usize)
        ensures
            cardinality == self@.cardinality,
    ;

    /// The index that stands for `state` in the arrays of the node.
    fn state_to_index(&self, state: &StateType) -> (index: usize)
        ensures
            index == state->0,
    ;

    /// Checks the matrix against the domain, and reports the first rule it
    /// breaks.
    fn validate_params(&self) -> (outcome: Result<(), ParamsError>)
        ensures
            outcome is Ok <==> cim_defect(self@.cim, self@.cardinality) is None,
            outcome matches Err(error) ==> reports(
                error,
                cim_defect(self@.cim, self@.cardinality)->0,
                self@.cim,
                self@.cardinality,
            ),
    ;

    /// The label of the node.
    fn get_label(&self) -> (label: &String)
        ensures
            label@ == self@.label,
    ;
}

/// The parameters of a node with finitely many states that changes state in
/// continuous time.
#[derive(Clone)]
pub struct DiscreteStatesContinousTimeParams {
    label: String,
    domain: BTreeSet<String>,
    cim: Option<CimSummary>,
    transitions: Option<TransitionCounts>,
}

impl View for DiscreteStatesContinousTimeParams {
    type V = ParamsModel;

    closed spec fn view(&self) -> ParamsModel {
        ParamsModel {
            label: self.label@,
            cardinality: self.domain.len() as nat,
            cim: self.cim,
            transitions: self.transitions,
        }
    }
}

impl DiscreteStatesContinousTimeParams {
    /// A block with the given label and domain, and nothing else set.
    pub fn new(
        label: String,
        domain: BTreeSet<String>,
    ) -> (params: DiscreteStatesContinousTimeParams)
        ensures
            params@.label == label@,
            params@.cardinality == domain.len(),
            params@.cim is None,
            params@.transitions is None,
    {
        DiscreteStatesContinousTimeParams { label, domain, cim: None, transitions: None }
    }

    /// The summary of the matrix, if one is set.
    pub fn get_cim(&self) -> (cim: &Option<CimSummary>)
        ensures
            *cim == self@.cim,
    {
        &self.cim
    }

    /// Sets the matrix if it passes validation; otherwise leaves the block
    /// without a matrix and reports the first rule that `cim` breaks.
    pub fn set_cim(&mut self, cim: CimSummary) -> (outcome: Result<(), ParamsError>)
        ensures
            outcome is Ok <==> cim_defect(Some(cim), old(self)@.cardinality) is None,
            outcome is Ok ==> final(self)@ == (ParamsModel { cim: Some(cim), ..old(self)@ }),
            outcome is Err ==> final(self)@ == (ParamsModel { cim: None, ..old(self)@ }),
            outcome matches Err(error) ==> reports(
                error,
                cim_defect(Some(cim), old(self)@.cardinality)->0,
                Some(cim),
                old(self)@.cardinality,
            ),
    {
        self.cim = Some(cim);
        match self.validate_params() {
            Ok(()) => Ok(()),
            Err(e) => {
                self.cim = None;
                Err(e)
            },
        }
    }

    /// Sets the matrix without validating it.
    pub fn set_cim_unchecked(&mut self, cim: CimSummary)
        ensures
            final(self)@ == (ParamsModel { cim: Some(cim), ..old(self)@ }),
    {
        self.cim = Some(cim);
    }

    /// The transition counts, if set.
    pub fn get_transitions(&self) -> (transitions: &Option<TransitionCounts>)
        ensures
            *transitions == self@.transitions,
    {
        &self.transitions
    }

    /// Sets the transition counts.
    pub fn set_transitions(&mut self, transitions: TransitionCounts)
        ensures
            final(self)@ == (ParamsModel { transitions: Some(transitions), ..old(self)@ }),
    {
        self.transitions = Some(transitions);
    }
}

impl ParamsTrait for DiscreteStatesContinousTimeParams {
    fn reset_params(&mut self) {
        self.cim = None;
        self.transitions = None;
    }

    fn get_random_state_uniform(&self, rng: &mut rand_chacha::ChaCha8Rng) -> (state: StateType) {
        StateType::Discrete(uniform_below(rng, self.domain.len()))
    }

    fn get_reserved_space_as_parent(&self) -> (cardinality: usize) {
        self.domain.len()
    }

    fn state_to_index(&self, state: &StateType) -> (index: usize) {
        match state {
            StateType::Discrete(val) => *val,
        }
    }

    fn validate_params(&self) -> (outcome: Result<(), ParamsError>) {
        let domain_size = self.domain.len();
        match self.cim {
            None => Err(ParamsError::ParametersNotInitialized("CIM not initialized".to_string())),
            Some(cim) => {
                if cim.rows != domain_size || cim.columns != domain_size {
                    Err(
                        ParamsError::InvalidCIM(
                            format_shape_report(
                                cim.configurations,
                                cim.rows,
                                cim.columns,
                                domain_size,
                            ),
                        ),
                    )
                } else if cim.positive_diagonal {
                    Err(
                        ParamsError::InvalidCIM(
                            "The diagonal of each cim must be non-positive".to_string(),
                        ),
                    )
                } else if cim.unbalanced_row {
                    Err(ParamsError::InvalidCIM("The sum of each row must be 0".to_string()))
                } else {
                    Ok(())
                }
            },
        }
    }

    fn get_label(&self) -> (label: &String) {
        &self.label
    }
}

/// The parameters of a node, of whichever kind the library supports.
#[derive(Clone)]
pub enum Params {
    DiscreteStatesContinousTime(DiscreteStatesContinousTimeParams),
}

impl View for Params {
    type V = ParamsModel;

    open spec fn view(&self) -> ParamsModel {
        match self {
            Params::DiscreteStatesContinousTime(p) => p@,
        }
    }
}

impl ParamsTrait for Params {
    fn reset_params(&mut self) {
        match self {
            Params::DiscreteStatesContinousTime(p) => p.reset_params(),
        }
    }

    fn get_random_state_uniform(&self, rng: &mut rand_chacha::ChaCha8Rng) -> (state: StateType) {
        match self {
            Params::DiscreteStatesContinousTime(p) => p.get_random_state_uniform(rng),
        }
    }

    fn get_reserved_space_as_parent(&self) -> (cardinality: usize) {
        match self {
            Params::DiscreteStatesContinousTime(p) => p.get_reserved_space_as_parent(),
        }
    }

    fn state_to_index(&self, state: &StateType) -> (index: usize) {
        match self {
            Params::DiscreteStatesContinousTime(p) => p.state_to_index(state),
        }
    }

    fn validate_params(&self) -> (outcome: Result<(), ParamsError>) {
        match self {
            Params::DiscreteStatesContinousTime(p) => p.validate_params(),
        }
    }

    fn get_label(&self) -> (label: &String) {
        match self {
            Params::DiscreteStatesContinousTime(p) => p.get_label(),
        }
    }
}

} // verus!
