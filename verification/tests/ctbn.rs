use rectbn::params::{DiscreteStatesContinousTimeParams, Params, ParamsTrait, StateType};
use rectbn::process::ctbn::CtbnNetwork;
use rectbn::process::{numbers, NetworkProcess};
use std::collections::BTreeSet;

fn generate_discrete_time_continous_node(label: String, cardinality: usize) -> Params {
    let domain: BTreeSet<String> = (0..cardinality).map(|x| x.to_string()).collect();
    Params::DiscreteStatesContinousTime(DiscreteStatesContinousTimeParams::new(label, domain))
}

fn state(values: &[usize]) -> Vec<StateType> {
    values.iter().map(|x| StateType::Discrete(*x)).collect()
}

#[test]
fn define_simpe_ctbn() {
    let _ = CtbnNetwork::new();
    assert!(true);
}

#[test]
fn add_node_to_ctbn() {
    let mut net = CtbnNetwork::new();
    let n1 = net
        .add_node(generate_discrete_time_continous_node(String::from("n1"), 2))
        .unwrap();
    assert_eq!(&String::from("n1"), net.get_node(n1).get_label());
}

#[test]
fn add_edge_to_ctbn() {
    let mut net = CtbnNetwork::new();
    let n1 = net
        .add_node(generate_discrete_time_continous_node(String::from("n1"), 2))
        .unwrap();
    let n2 = net
        .add_node(generate_discrete_time_continous_node(String::from("n2"), 2))
        .unwrap();
    net.add_edge(n1, n2);
    let cs = net.get_children_set(n1);
    assert_eq!(&n2, cs.iter().next().unwrap());
}

#[test]
fn children_and_parents() {
    let mut net = CtbnNetwork::new();
    let n1 = net
        .add_node(generate_discrete_time_continous_node(String::from("n1"), 2))
        .unwrap();
    let n2 = net
        .add_node(generate_discrete_time_continous_node(String::from("n2"), 2))
        .unwrap();
    net.add_edge(n1, n2);
    let cs = net.get_children_set(n1);
    assert_eq!(&n2, cs.iter().next().unwrap());
    let ps = net.get_parent_set(n2);
    assert_eq!(&n1, ps.iter().next().unwrap());
}

#[test]
fn compute_index_ctbn() {
    let mut net = CtbnNetwork::new();
    let n1 = net
        .add_node(generate_discrete_time_continous_node(String::from("n1"), 2))
        .unwrap();
    let n2 = net
        .add_node(generate_discrete_time_continous_node(String::from("n2"), 2))
        .unwrap();
    let n3 = net
        .add_node(generate_discrete_time_continous_node(String::from("n3"), 2))
        .unwrap();
    net.add_edge(n1, n2);
    net.add_edge(n3, n2);
    let idx = net.get_param_index_network(
        n2,
        &vec![
            StateType::Discrete(1),
            StateType::Discrete(1),
            StateType::Discrete(1),
        ],
    );
    assert_eq!(3, idx);

    let idx = net.get_param_index_network(
        n2,
        &vec![
            StateType::Discrete(0),
            StateType::Discrete(1),
            StateType::Discrete(1),
        ],
    );
    assert_eq!(2, idx);

    let idx = net.get_param_index_network(
        n2,
        &vec![
            StateType::Discrete(1),
            StateType::Discrete(1),
            StateType::Discrete(0),
        ],
    );
    assert_eq!(1, idx);
}

#[test]
fn compute_index_from_custom_parent_set() {
    let mut net = CtbnNetwork::new();
    let _n1 = net
        .add_node(generate_discrete_time_continous_node(String::from("n1"), 2))
        .unwrap();
    let _n2 = net
        .add_node(generate_discrete_time_continous_node(String::from("n2"), 2))
        .unwrap();
    let _n3 = net
        .add_node(generate_discrete_time_continous_node(String::from("n3"), 2))
        .unwrap();

    let idx = net.get_param_index_from_custom_parent_set(
        &vec![
            StateType::Discrete(0),
            StateType::Discrete(0),
            StateType::Discrete(1),
        ],
        &BTreeSet::from([1]),
    );
    assert_eq!(0, idx);

    let idx = net.get_param_index_from_custom_parent_set(
        &vec![
            StateType::Discrete(0),
            StateType::Discrete(0),
            StateType::Discrete(1),
        ],
        &BTreeSet::from([1, 2]),
    );
    assert_eq!(2, idx);
}

#[test]
fn mixed_radix_index_weights_each_parent_by_the_parents_before_it() {
    let mut net = CtbnNetwork::new();
    for (label, cardinality) in [("a", 2), ("b", 3), ("c", 4), ("d", 5)] {
        net.add_node(generate_discrete_time_continous_node(label.to_string(), cardinality))
            .unwrap();
    }
    // Parents 0 (2 states), 1 (3 states) and 2 (4 states): 1 + 2 * 2 + 3 * 6.
    let idx =
        net.get_param_index_from_custom_parent_set(&state(&[1, 2, 3, 4]), &BTreeSet::from([0, 1, 2]));
    assert_eq!(23, idx);
    // Parents 1 and 3: 2 + 4 * 3.
    let idx =
        net.get_param_index_from_custom_parent_set(&state(&[1, 2, 3, 4]), &BTreeSet::from([1, 3]));
    assert_eq!(14, idx);
    // No parents: the one row.
    let idx = net.get_param_index_from_custom_parent_set(&state(&[1, 2, 3, 4]), &BTreeSet::new());
    assert_eq!(0, idx);
}

#[test]
fn network_index_agrees_with_the_custom_index_over_the_parent_set() {
    let mut net = CtbnNetwork::new();
    for (label, cardinality) in [("a", 2), ("b", 3), ("c", 4)] {
        net.add_node(generate_discrete_time_continous_node(label.to_string(), cardinality))
            .unwrap();
    }
    net.add_edge(0, 2);
    net.add_edge(1, 2);
    for a in 0..2 {
        for b in 0..3 {
            let s = state(&[a, b, 0]);
            assert!(net.has_param_index(2, &s));
            assert_eq!(
                net.get_param_index_from_custom_parent_set(&s, &net.get_parent_set(2)),
                net.get_param_index_network(2, &s)
            );
            assert_eq!(a + 2 * b, net.get_param_index_network(2, &s));
        }
    }
}

#[test]
fn index_is_undefined_without_structure_or_for_states_outside_the_domain() {
    let mut net = CtbnNetwork::new();
    for (label, cardinality) in [("a", 2), ("b", 3)] {
        net.add_node(generate_discrete_time_continous_node(label.to_string(), cardinality))
            .unwrap();
    }
    assert!(!net.has_param_index(1, &state(&[0, 0])));
    net.add_edge(0, 1);
    assert!(net.has_param_index(1, &state(&[1, 0])));
    assert!(!net.has_param_index(1, &state(&[2, 0])));
    assert!(!net.has_param_index(2, &state(&[0, 0])));
    assert!(numbers(&net, &state(&[1, 2]), &BTreeSet::from([0, 1])));
    assert!(!numbers(&net, &state(&[1, 3]), &BTreeSet::from([0, 1])));
    assert!(!numbers(&net, &state(&[1, 2]), &BTreeSet::from([0, 5])));
}

#[test]
fn adding_a_node_invalidates_the_structure() {
    let mut net = CtbnNetwork::new();
    net.add_node(generate_discrete_time_continous_node("a".to_string(), 2)).unwrap();
    net.add_node(generate_discrete_time_continous_node("b".to_string(), 2)).unwrap();
    assert!(net.get_adj_matrix().is_none());
    assert!(!net.is_structured());
    assert!(CtbnNetwork::structure_supported());
    net.initialize_adj_matrix();
    assert!(net.is_structured());
    assert!(net.get_adj_matrix().is_some());
    assert!(net.get_parent_set(0).is_empty());
    assert!(net.get_parent_set(1).is_empty());
    net.add_edge(0, 1);
    assert_eq!(BTreeSet::from([0]), net.get_parent_set(1));
    let index = net.add_node(generate_discrete_time_continous_node("c".to_string(), 2)).unwrap();
    assert_eq!(2, index);
    assert_eq!(3, net.get_number_of_nodes());
    assert_eq!(0..3, net.get_node_indices());
    assert!(net.get_adj_matrix().is_none());
    net.initialize_adj_matrix();
    assert!(net.get_parent_set(1).is_empty());
}

#[test]
fn edges_can_be_asked_for() {
    let mut net = CtbnNetwork::new();
    for label in ["a", "b", "c"] {
        net.add_node(generate_discrete_time_continous_node(label.to_string(), 2)).unwrap();
    }
    assert!(!net.is_edge(0, 1));
    net.add_edge(0, 1);
    net.add_edge(2, 1);
    assert!(net.is_edge(0, 1));
    assert!(net.is_edge(2, 1));
    assert!(!net.is_edge(1, 0));
    assert!(!net.is_edge(1, 2));
    assert!(!net.is_edge(0, 2));
    assert!(!net.is_edge(0, 3));
    assert!(!net.is_edge(3, 0));
    assert_eq!(BTreeSet::from([0, 2]), net.get_parent_set(1));
    assert_eq!(BTreeSet::new(), net.get_children_set(1));
}

#[test]
fn adding_an_edge_forgets_the_parameters_of_the_child() {
    let mut net = CtbnNetwork::new();
    for label in ["a", "b"] {
        net.add_node(generate_discrete_time_continous_node(label.to_string(), 2)).unwrap();
    }
    let summary = rectbn::params::CimSummary {
        configurations: 1,
        rows: 2,
        columns: 2,
        positive_diagonal: false,
        unbalanced_row: false,
    };
    for node in 0..2 {
        let Params::DiscreteStatesContinousTime(p) = net.get_node_mut(node);
        assert_eq!(Ok(()), p.set_cim(summary));
    }
    net.add_edge(0, 1);
    assert_eq!(Ok(()), net.get_node(0).validate_params());
    assert!(net.get_node(1).validate_params().is_err());
    assert_eq!("b", net.get_node(1).get_label());
}

#[test]
fn idx_to_state_inverts_the_index() {
    let domain = vec![2usize, 3, 4];
    assert_eq!(vec![0, 0, 0], CtbnNetwork::idx_to_state(&domain, 0));
    assert_eq!(vec![1, 2, 3], CtbnNetwork::idx_to_state(&domain, 23));
    assert_eq!(vec![1, 0, 1], CtbnNetwork::idx_to_state(&domain, 7));
    let mut net = CtbnNetwork::new();
    for (label, cardinality) in [("a", 2), ("b", 3), ("c", 4)] {
        net.add_node(generate_discrete_time_continous_node(label.to_string(), cardinality))
            .unwrap();
    }
    let all = BTreeSet::from([0, 1, 2]);
    for index in 0..24 {
        let values = CtbnNetwork::idx_to_state(&domain, index);
        assert_eq!(index, net.get_param_index_from_custom_parent_set(&state(&values), &all));
    }
    // Beyond the joint states the index wraps around.
    assert_eq!(vec![1, 0, 0], CtbnNetwork::idx_to_state(&domain, 25));
}
