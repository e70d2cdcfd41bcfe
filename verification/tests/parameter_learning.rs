use rectbn::parameter_learning::{
    can_count, residence_cells, sample_size, sufficient_statistics, transitions_from,
};
use rectbn::params::{DiscreteStatesContinousTimeParams, Params};
use rectbn::process::ctbn::CtbnNetwork;
use rectbn::process::NetworkProcess;
use rectbn::storage::{EventTable, TransitionCounts};
use rectbn::tools::{Dataset, Trajectory};
use std::collections::BTreeSet;

fn network(cardinalities: &[usize]) -> CtbnNetwork {
    let mut net = CtbnNetwork::new();
    for (index, cardinality) in cardinalities.iter().enumerate() {
        let domain: BTreeSet<String> = (0..*cardinality).map(|x| x.to_string()).collect();
        net.add_node(Params::DiscreteStatesContinousTime(
            DiscreteStatesContinousTimeParams::new(index.to_string(), domain),
        ))
        .unwrap();
    }
    net
}

fn trajectory(rows: &[&[usize]]) -> Trajectory<f64> {
    let rows: Vec<Vec<usize>> = rows.iter().map(|r| r.to_vec()).collect();
    let time: Vec<f64> = (0..rows.len()).map(|k| k as f64 * 0.5).collect();
    Trajectory::new(time, EventTable::from_rows(&rows).unwrap())
}

fn total(counts: &TransitionCounts) -> usize {
    let (depth, rows, cols) = counts.shape();
    let mut sum = 0;
    for u in 0..depth {
        for x in 0..rows {
            for y in 0..cols {
                sum += counts.count(u, x, y).unwrap();
            }
        }
    }
    sum
}

#[test]
fn counts_without_parents() {
    let net = network(&[3]);
    let dataset = Dataset::new(vec![trajectory(&[&[0], &[1], &[1], &[2], &[0], &[1]])]);
    assert!(can_count(&net, &dataset, 0, &BTreeSet::new()));
    let m = sufficient_statistics(&net, &dataset, 0, &BTreeSet::new());
    assert_eq!((1, 3, 3), m.shape());
    assert_eq!(Some(2), m.count(0, 0, 1));
    assert_eq!(Some(1), m.count(0, 1, 2));
    assert_eq!(Some(1), m.count(0, 2, 0));
    assert_eq!(Some(0), m.count(0, 0, 2));
    assert_eq!(Some(0), m.count(0, 1, 0));
    assert_eq!(Some(0), m.count(0, 2, 1));
    // A node that stays where it is makes no transition.
    assert_eq!(Some(0), m.count(0, 0, 0));
    assert_eq!(Some(0), m.count(0, 1, 1));
    assert_eq!(Some(0), m.count(0, 2, 2));
    assert_eq!(None, m.count(1, 0, 0));
    assert_eq!(None, m.count(0, 3, 0));
    assert_eq!(None, m.count(0, 0, 3));
}

#[test]
fn counts_add_up_to_the_changes_of_state() {
    let net = network(&[3, 2]);
    let rows: &[&[usize]] =
        &[&[0, 0], &[1, 0], &[1, 1], &[2, 1], &[2, 0], &[0, 0], &[0, 1], &[1, 1]];
    let dataset = Dataset::new(vec![trajectory(rows)]);
    let m = sufficient_statistics(&net, &dataset, 0, &BTreeSet::new());
    let changes = rows.windows(2).filter(|w| w[0][0] != w[1][0]).count();
    assert_eq!(4, changes);
    assert_eq!(changes, total(&m));
    let m = sufficient_statistics(&net, &dataset, 1, &BTreeSet::new());
    let changes = rows.windows(2).filter(|w| w[0][1] != w[1][1]).count();
    assert_eq!(3, changes);
    assert_eq!(changes, total(&m));
}

#[test]
fn counts_are_kept_apart_by_parent_configuration() {
    let net = network(&[2, 3, 2]);
    let dataset = Dataset::new(vec![
        trajectory(&[&[0, 0, 0], &[1, 0, 0], &[1, 2, 0], &[0, 2, 1], &[1, 2, 1]]),
        trajectory(&[&[1, 1, 1], &[0, 1, 1], &[1, 1, 0]]),
    ]);
    let parents = BTreeSet::from([1, 2]);
    assert!(can_count(&net, &dataset, 0, &parents));
    let m = sufficient_statistics(&net, &dataset, 0, &parents);
    assert_eq!((6, 2, 2), m.shape());
    // The row is the state of node 1 plus three times the state of node 2,
    // both taken before the step.
    assert_eq!(Some(1), m.count(0, 0, 1));
    assert_eq!(Some(1), m.count(2, 1, 0));
    assert_eq!(Some(1), m.count(5, 0, 1));
    assert_eq!(Some(1), m.count(4, 1, 0));
    assert_eq!(Some(1), m.count(4, 0, 1));
    assert_eq!(5, total(&m));
    // The same steps, counted under node 2 alone.
    let m = sufficient_statistics(&net, &dataset, 0, &BTreeSet::from([2]));
    assert_eq!((2, 2, 2), m.shape());
    assert_eq!(Some(1), m.count(0, 0, 1));
    assert_eq!(Some(1), m.count(0, 1, 0));
    assert_eq!(Some(2), m.count(1, 0, 1));
    assert_eq!(Some(1), m.count(1, 1, 0));
}

#[test]
fn trajectories_of_one_sample_have_no_step() {
    let net = network(&[2]);
    let dataset = Dataset::new(vec![trajectory(&[&[1]]), trajectory(&[&[0]])]);
    assert_eq!(Some(0), sample_size(&dataset));
    assert!(can_count(&net, &dataset, 0, &BTreeSet::new()));
    let m = sufficient_statistics(&net, &dataset, 0, &BTreeSet::new());
    assert_eq!((1, 2, 2), m.shape());
    assert_eq!(0, total(&m));
}

#[test]
fn sample_size_counts_the_steps() {
    let dataset = Dataset::new(vec![
        trajectory(&[&[0], &[1], &[1]]),
        trajectory(&[&[0], &[1], &[1], &[0]]),
        trajectory(&[&[0]]),
    ]);
    assert_eq!(Some(5), sample_size(&dataset));
}

#[test]
fn data_outside_the_domains_cannot_be_counted() {
    let net = network(&[2, 2]);
    let good = Dataset::new(vec![trajectory(&[&[0, 0], &[1, 1]])]);
    assert!(can_count(&net, &good, 0, &BTreeSet::from([1])));
    // No such node, no such parent.
    assert!(!can_count(&net, &good, 2, &BTreeSet::new()));
    assert!(!can_count(&net, &good, 0, &BTreeSet::from([2])));
    // A state of the node outside its domain.
    let bad = Dataset::new(vec![trajectory(&[&[0, 0], &[2, 1]])]);
    assert!(!can_count(&net, &bad, 0, &BTreeSet::new()));
    assert!(can_count(&net, &bad, 1, &BTreeSet::new()));
    // A state of a parent outside its domain, before a step.
    let bad = Dataset::new(vec![trajectory(&[&[0, 3], &[1, 1]])]);
    assert!(!can_count(&net, &bad, 0, &BTreeSet::from([1])));
    assert!(can_count(&net, &bad, 0, &BTreeSet::new()));
    // Too few variables.
    let bad = Dataset::new(vec![trajectory(&[&[0], &[1]])]);
    assert!(!can_count(&net, &bad, 1, &BTreeSet::new()));
}

#[test]
fn every_step_has_one_cell_for_its_duration() {
    let net = network(&[2, 3, 2]);
    let dataset = Dataset::new(vec![
        trajectory(&[&[0, 0, 0], &[1, 0, 0], &[1, 2, 0], &[0, 2, 1], &[1, 2, 1]]),
        trajectory(&[&[1, 1, 1]]),
        trajectory(&[&[1, 1, 1], &[0, 1, 1], &[1, 1, 0]]),
    ]);
    let cells = residence_cells(&net, &dataset, 0, &BTreeSet::from([1, 2]));
    assert_eq!(
        vec![
            vec![(0, 0), (0, 1), (2, 1), (5, 0)],
            vec![],
            vec![(4, 1), (4, 0)],
        ],
        cells
    );
    let cells = residence_cells(&net, &dataset, 1, &BTreeSet::new());
    assert_eq!(
        vec![vec![(0, 0), (0, 0), (0, 2), (0, 2)], vec![], vec![(0, 1), (0, 1)]],
        cells
    );
    // The durations of the steps add up to the duration of the trajectory.
    let mut total = 0.0;
    for (trj, run) in dataset.get_trajectories().iter().zip(cells.iter()) {
        for (k, _) in run.iter().enumerate() {
            total += trj.get_time()[k + 1] - trj.get_time()[k];
        }
    }
    assert_eq!(2.0 + 0.0 + 1.0, total);
}

#[test]
fn a_copy_of_a_block_keeps_its_counts() {
    let net = network(&[3]);
    let dataset = Dataset::new(vec![trajectory(&[&[0], &[1], &[2], &[1]])]);
    let m = sufficient_statistics(&net, &dataset, 0, &BTreeSet::new());
    let Params::DiscreteStatesContinousTime(block) = net.get_node(0);
    let mut block = block.clone();
    block.set_transitions(m);
    let copy = block.clone();
    let counts = copy.get_transitions().as_ref().unwrap();
    assert_eq!((1, 3, 3), counts.shape());
    assert_eq!(Some(1), counts.count(0, 0, 1));
    assert_eq!(Some(1), counts.count(0, 1, 2));
    assert_eq!(Some(1), counts.count(0, 2, 1));
    assert_eq!(Some(0), counts.count(0, 1, 0));
}

#[test]
fn transitions_from_a_state_are_the_sum_of_its_row() {
    let net = network(&[3, 2]);
    let dataset = Dataset::new(vec![trajectory(&[
        &[0, 0],
        &[1, 0],
        &[0, 0],
        &[2, 1],
        &[0, 1],
        &[1, 1],
        &[2, 1],
    ])]);
    let m = sufficient_statistics(&net, &dataset, 0, &BTreeSet::from([1]));
    assert_eq!((2, 3, 3), m.shape());
    assert_eq!(Some(2), transitions_from(&m, 0, 0));
    assert_eq!(Some(1), transitions_from(&m, 0, 1));
    assert_eq!(Some(0), transitions_from(&m, 0, 2));
    assert_eq!(Some(1), transitions_from(&m, 1, 0));
    assert_eq!(Some(1), transitions_from(&m, 1, 1));
    assert_eq!(Some(1), transitions_from(&m, 1, 2));
    assert_eq!(None, transitions_from(&m, 2, 0));
    assert_eq!(None, transitions_from(&m, 0, 3));
}
