//! Continuous-time Bayesian networks: their structure, the statistics that
//! their parameters are estimated from, and the search for their edges.
//!
//! A continuous-time Bayesian network is a directed graph over variables with
//! finitely many states. Each variable changes state at rates that depend on
//! the states of its parents. This library holds the discrete side of such
//! networks:
//!
//! - `params`: the parameter block of a node: label, domain, transition
//!   counts, and what there is to know of its matrix of rates;
//! - `process`: networks of nodes, with their edges and with the numbering of
//!   the joint states of a parent set;
//! - `tools`: trajectories and datasets;
//! - `parameter_learning`: the transition counts of a node under a parent
//!   set, and what an estimator is;
//! - `sampling`: the walk of a network from state to state;
//! - `structure_learning`: the cache of fitted parameters, the
//!   constraint-based search (CTPC) and the score-based search (hill
//!   climbing) for the parents of each node;
//! - `indexing`, `sets`, `storage`: the numbering of joint states, sets of
//!   nodes, and the arrays that the rest is stored in.
//!
//! Rates, times and test statistics are real numbers. They stay with the
//! caller, who hands the library what it reads of them: a summary of a
//! matrix of rates, the verdict of a hypothesis test, the comparison of two
//! scores.

pub mod indexing;
pub mod parameter_learning;
pub mod params;
pub mod process;
pub mod sampling;
pub mod sets;
pub mod storage;
pub mod structure_learning;
pub mod tools;
