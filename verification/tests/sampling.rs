use rand::SeedableRng;
use rand_chacha::ChaCha8Rng;
use rectbn::params::{DiscreteStatesContinousTimeParams, Params, StateType};
use rectbn::process::ctbn::CtbnNetwork;
use rectbn::process::NetworkProcess;
use rectbn::sampling::{skip_current, ForwardSampler, Sampler};
use std::collections::BTreeSet;

fn network(cardinalities: &[usize]) -> CtbnNetwork {
    let mut net = CtbnNetwork::new();
    for (index, cardinality) in cardinalities.iter().enumerate() {
        let domain: BTreeSet<String> = (0..*cardinality).map(|x| x.to_string()).collect();
        net.add_node(Params::DiscreteStatesContinousTime(
            DiscreteStatesContinousTimeParams::new(index.to_string(), domain),
        ))
        .unwrap();
    }
    net
}

fn state(values: &[usize]) -> Vec<StateType> {
    values.iter().map(|x| StateType::Discrete(*x)).collect()
}

#[test]
fn sampler_starts_at_the_initial_state() {
    let mut net = network(&[2, 3]);
    net.add_edge(0, 1);
    let s0 = state(&[1, 2]);
    let sampler = ForwardSampler::new(&net, ChaCha8Rng::seed_from_u64(1994), 0.0, Some(s0.clone()));
    assert_eq!(0.0, sampler.current_time());
    assert_eq!(&s0, sampler.current_state());
    assert_eq!(&vec![None, None], sampler.next_transitions());
}

#[test]
fn sampler_draws_an_initial_state_of_the_domains() {
    let net = network(&[2, 3, 1]);
    let mut sampler = ForwardSampler::new(&net, ChaCha8Rng::seed_from_u64(7), 0u64, None);
    for _ in 0..200 {
        let drawn = sampler.current_state().clone();
        assert_eq!(3, drawn.len());
        let StateType::Discrete(a) = drawn[0];
        let StateType::Discrete(b) = drawn[1];
        assert!(a < 2);
        assert!(b < 3);
        assert_eq!(StateType::Discrete(0), drawn[2]);
        sampler.reset();
    }
}

#[test]
fn samplers_with_one_seed_draw_the_same_states() {
    let net = network(&[4, 5, 6]);
    let mut first = ForwardSampler::new(&net, ChaCha8Rng::seed_from_u64(42), 0u64, None);
    let mut second = ForwardSampler::new(&net, ChaCha8Rng::seed_from_u64(42), 0u64, None);
    for _ in 0..50 {
        assert_eq!(first.current_state(), second.current_state());
        first.reset();
        second.reset();
    }
}

#[test]
fn a_move_changes_one_node_and_unschedules_it_and_its_children() {
    let mut net = network(&[2, 3, 2, 2]);
    net.add_edge(0, 1);
    net.add_edge(0, 3);
    net.add_edge(1, 2);
    let s0 = state(&[0, 0, 0, 0]);
    let mut sampler =
        ForwardSampler::new(&net, ChaCha8Rng::seed_from_u64(1), 0.0, Some(s0.clone()));
    for (node, time) in [(0, 0.5), (1, 0.7), (2, 0.9), (3, 1.1)] {
        sampler.schedule_transition(node, time);
    }
    assert_eq!(
        &vec![Some(0.5), Some(0.7), Some(0.9), Some(1.1)],
        sampler.next_transitions()
    );
    let sample = sampler.advance(0, StateType::Discrete(1));
    // The sample is where the sampler stood before the move.
    assert_eq!(0.0, sample.t);
    assert_eq!(s0, sample.state);
    assert_eq!(0.5, sampler.current_time());
    assert_eq!(&state(&[1, 0, 0, 0]), sampler.current_state());
    assert_eq!(&vec![None, None, Some(0.9), None], sampler.next_transitions());
    let sample = sampler.advance(2, StateType::Discrete(1));
    assert_eq!(0.5, sample.t);
    assert_eq!(state(&[1, 0, 0, 0]), sample.state);
    assert_eq!(0.9, sampler.current_time());
    assert_eq!(&state(&[1, 0, 1, 0]), sampler.current_state());
    assert_eq!(&vec![None, None, None, None], sampler.next_transitions());
}

#[test]
fn reset_restores_the_initial_sample() {
    let mut net = network(&[2, 2]);
    net.add_edge(0, 1);
    let s0 = state(&[1, 0]);
    let mut sampler = ForwardSampler::new(&net, ChaCha8Rng::seed_from_u64(3), 0.0, Some(s0.clone()));
    sampler.schedule_transition(1, 2.5);
    sampler.advance(1, StateType::Discrete(1));
    sampler.schedule_transition(0, 3.0);
    assert_eq!(2.5, sampler.current_time());
    sampler.reset();
    assert_eq!(0.0, sampler.current_time());
    assert_eq!(&s0, sampler.current_state());
    assert_eq!(&vec![None, None], sampler.next_transitions());
}

#[test]
fn a_draw_among_the_other_states_skips_the_current_one() {
    assert_eq!(0, skip_current(0, 2));
    assert_eq!(1, skip_current(1, 2));
    assert_eq!(3, skip_current(2, 2));
    assert_eq!(4, skip_current(3, 2));
    assert_eq!(1, skip_current(0, 0));
}

#[test]
fn samplers_that_take_the_same_steps_hand_out_the_same_samples() {
    let mut net = network(&[2, 3, 2]);
    net.add_edge(0, 1);
    net.add_edge(1, 2);
    let s0 = state(&[0, 2, 1]);
    let mut a = ForwardSampler::new(&net, ChaCha8Rng::seed_from_u64(11), 0.0, Some(s0.clone()));
    let mut b = ForwardSampler::new(&net, ChaCha8Rng::seed_from_u64(11), 0.0, Some(s0.clone()));
    let steps = [(0, 0.25, 1), (1, 0.5, 0), (2, 0.75, 0), (1, 1.5, 1), (0, 2.0, 0)];
    for (node, time, next) in steps {
        for node in 0..3 {
            if a.next_transitions()[node].is_none() {
                a.schedule_transition(node, time + node as f64);
                b.schedule_transition(node, time + node as f64);
            }
        }
        a.schedule_transition(node, time);
        b.schedule_transition(node, time);
        let from_a = a.advance(node, StateType::Discrete(next));
        let from_b = b.advance(node, StateType::Discrete(next));
        assert_eq!(from_a.t.to_bits(), from_b.t.to_bits());
        assert_eq!(from_a.state, from_b.state);
        assert_eq!(a.current_state(), b.current_state());
        assert_eq!(a.next_transitions(), b.next_transitions());
    }
    assert_eq!(2.0, a.current_time());
    assert_eq!(&state(&[0, 1, 0]), a.current_state());
}
