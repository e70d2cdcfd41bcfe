use rectbn::storage::EventTable;
use rectbn::structure_learning::describes;
use rectbn::tools::{Dataset, Trajectory};
use rectbn::params::{DiscreteStatesContinousTimeParams, Params};
use rectbn::process::ctbn::CtbnNetwork;
use rectbn::process::NetworkProcess;
use std::collections::BTreeSet;

fn events(rows: &[&[usize]]) -> EventTable {
    let rows: Vec<Vec<usize>> = rows.iter().map(|r| r.to_vec()).collect();
    EventTable::from_rows(&rows).unwrap()
}

#[test]
fn event_table_keeps_rows_and_shape() {
    let table = events(&[&[0, 3], &[1, 2], &[4, 5]]);
    assert_eq!(3, table.samples());
    assert_eq!(2, table.variables());
    assert_eq!(Some(vec![0, 3]), table.sample(0));
    assert_eq!(Some(vec![1, 2]), table.sample(1));
    assert_eq!(Some(vec![4, 5]), table.sample(2));
    assert_eq!(None, table.sample(3));
    let copy = table.clone();
    assert_eq!(Some(vec![4, 5]), copy.sample(2));
    assert_eq!(3, copy.samples());
}

#[test]
fn event_table_needs_rows_of_one_length() {
    assert!(EventTable::from_rows(&vec![vec![0, 1], vec![2]]).is_none());
    assert!(EventTable::from_rows(&vec![vec![0], vec![1, 2]]).is_none());
    let empty = EventTable::from_rows(&vec![]).unwrap();
    assert_eq!(0, empty.samples());
    assert_eq!(0, empty.variables());
    let narrow = EventTable::from_rows(&vec![vec![], vec![]]).unwrap();
    assert_eq!(2, narrow.samples());
    assert_eq!(0, narrow.variables());
}

#[test]
fn trajectory_needs_one_instant_per_sample() {
    // One row of states for two instants.
    let time = vec![0.0, 0.2];
    let table = events(&[&[0, 3]]);
    assert!(!Trajectory::fit_together(&time, &table));
    let table = events(&[&[0, 3], &[1, 2]]);
    assert!(Trajectory::fit_together(&time, &table));
    let trajectory = Trajectory::new(time, table);
    assert_eq!(&vec![0.0, 0.2], trajectory.get_time());
    assert_eq!(2, trajectory.get_events().samples());
    assert_eq!(Some(vec![1, 2]), trajectory.get_events().sample(1));
}

#[test]
fn dataset_needs_trajectories_over_the_same_variables() {
    let t1 = Trajectory::new(vec![0.0, 0.2], events(&[&[0, 3], &[1, 2]]));
    let t2 = Trajectory::new(vec![0.0, 0.2], events(&[&[0, 3, 3], &[1, 2, 3]]));
    assert!(!Dataset::belong_together(&vec![t1.clone(), t2.clone()]));
    assert!(Dataset::belong_together(&vec![t1.clone(), t1.clone()]));
    assert!(Dataset::belong_together(&vec![t2.clone()]));
    let none: Vec<Trajectory<f64>> = vec![];
    assert!(!Dataset::belong_together(&none));
    let dataset = Dataset::new(vec![t1.clone(), t1]);
    assert_eq!(2, dataset.get_trajectories().len());
    let copy = dataset.clone();
    assert_eq!(2, copy.get_trajectories().len());
    assert_eq!(Some(vec![1, 2]), copy.get_trajectories()[1].get_events().sample(1));
}

#[test]
fn dataset_describes_a_network_of_as_many_nodes() {
    let dataset = Dataset::new(vec![Trajectory::new(
        vec![0u32, 1],
        events(&[&[0, 1, 0], &[1, 1, 0]]),
    )]);
    let mut net = CtbnNetwork::new();
    for label in ["a", "b"] {
        let domain: BTreeSet<String> = (0..2).map(|x: usize| x.to_string()).collect();
        net.add_node(Params::DiscreteStatesContinousTime(
            DiscreteStatesContinousTimeParams::new(label.to_string(), domain),
        ))
        .unwrap();
    }
    assert!(!describes(&net, &dataset));
    let domain: BTreeSet<String> = (0..2).map(|x: usize| x.to_string()).collect();
    net.add_node(Params::DiscreteStatesContinousTime(
        DiscreteStatesContinousTimeParams::new("c".to_string(), domain),
    ))
    .unwrap();
    assert!(describes(&net, &dataset));
}
