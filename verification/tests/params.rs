use ndarray::{arr3, Array3, Axis};
use rand::SeedableRng;
use rand_chacha::ChaCha8Rng;
use rectbn::params::{
    CimSummary, DiscreteStatesContinousTimeParams, Params, ParamsError, ParamsTrait, StateType,
};
use std::collections::BTreeSet;

fn generate_discrete_time_continous_params(
    label: String,
    cardinality: usize,
) -> DiscreteStatesContinousTimeParams {
    let domain: BTreeSet<String> = (0..cardinality).map(|x| x.to_string()).collect();
    DiscreteStatesContinousTimeParams::new(label, domain)
}

/// What the library reads of a matrix of rates.
fn summary(cim: &Array3<f64>) -> CimSummary {
    CimSummary {
        configurations: cim.shape()[0],
        rows: cim.shape()[1],
        columns: cim.shape()[2],
        positive_diagonal: cim
            .axis_iter(Axis(0))
            .any(|x| x.diag().iter().any(|x| x > &0.0)),
        unbalanced_row: cim
            .sum_axis(Axis(2))
            .iter()
            .any(|x| !(f64::abs(*x) <= f64::EPSILON.sqrt())),
    }
}

fn create_ternary_discrete_time_continous_param() -> DiscreteStatesContinousTimeParams {
    let mut params = generate_discrete_time_continous_params("A".to_string(), 3);

    let cim = arr3(&[[[-3.0, 2.0, 1.0], [1.0, -5.0, 4.0], [2.3, 1.7, -4.0]]]);

    params.set_cim(summary(&cim)).unwrap();
    params
}

#[test]
fn test_get_label() {
    let param = create_ternary_discrete_time_continous_param();
    assert_eq!(&String::from("A"), param.get_label())
}

#[test]
fn test_uniform_generation() {
    let param = create_ternary_discrete_time_continous_param();
    let mut rng = ChaCha8Rng::seed_from_u64(6347747169756259);
    let mut zeros = 0;
    for _ in 0..10000 {
        let StateType::Discrete(val) = param.get_random_state_uniform(&mut rng);
        assert!(val < 3);
        if val == 0 {
            zeros += 1;
        }
    }
    let zero_freq = zeros as f64 / 10000.0;
    assert!((1.0 / 3.0 - zero_freq).abs() <= 0.01);
}

#[test]
fn test_validate_params_valid_cim() {
    let param = create_ternary_discrete_time_continous_param();

    assert_eq!(Ok(()), param.validate_params());
}

#[test]
fn test_validate_params_valid_cim_with_huge_values() {
    let mut param = generate_discrete_time_continous_params("A".to_string(), 3);
    let cim = arr3(&[[
        [-2e10, 1e10, 1e10],
        [1.5e10, -3e10, 1.5e10],
        [1e10, 1e10, -2e10],
    ]]);
    let result = param.set_cim(summary(&cim));
    assert_eq!(Ok(()), result);
}

#[test]
fn test_validate_params_cim_not_initialized() {
    let param = generate_discrete_time_continous_params("A".to_string(), 3);
    assert_eq!(
        Err(ParamsError::ParametersNotInitialized(String::from(
            "CIM not initialized",
        ))),
        param.validate_params()
    );
}

#[test]
fn test_validate_params_wrong_shape() {
    let mut param = generate_discrete_time_continous_params("A".to_string(), 4);
    let cim = arr3(&[[[-3.0, 2.0, 1.0], [1.0, -5.0, 4.0], [2.3, 1.7, -4.0]]]);
    let result = param.set_cim(summary(&cim));
    assert_eq!(
        Err(ParamsError::InvalidCIM(String::from(
            "Incompatible shape [1, 3, 3] with domain 4"
        ))),
        result
    );
}

#[test]
fn test_validate_params_positive_diag() {
    let mut param = generate_discrete_time_continous_params("A".to_string(), 3);
    let cim = arr3(&[[[2.0, -3.0, 1.0], [1.0, -5.0, 4.0], [2.3, 1.7, -4.0]]]);
    let result = param.set_cim(summary(&cim));
    assert_eq!(
        Err(ParamsError::InvalidCIM(String::from(
            "The diagonal of each cim must be non-positive",
        ))),
        result
    );
}

#[test]
fn test_validate_params_row_not_sum_to_zero() {
    let mut param = generate_discrete_time_continous_params("A".to_string(), 3);
    let cim = arr3(&[[[-3.0, 2.0, 1.0], [1.0, -5.0, 4.0], [2.3, 1.701, -4.0]]]);
    let result = param.set_cim(summary(&cim));
    assert_eq!(
        Err(ParamsError::InvalidCIM(String::from(
            "The sum of each row must be 0"
        ))),
        result
    );
}

#[test]
fn rejected_matrix_leaves_the_block_without_one() {
    let mut param = create_ternary_discrete_time_continous_param();
    assert!(param.get_cim().is_some());
    let wrong = CimSummary {
        configurations: 1,
        rows: 3,
        columns: 3,
        positive_diagonal: true,
        unbalanced_row: false,
    };
    assert!(param.set_cim(wrong).is_err());
    assert_eq!(&None, param.get_cim());
    let right = CimSummary { positive_diagonal: false, ..wrong };
    assert_eq!(Ok(()), param.set_cim(right));
    assert_eq!(&Some(right), param.get_cim());
    assert_eq!(Ok(()), param.validate_params());
}

#[test]
fn rules_are_checked_in_order() {
    let mut param = generate_discrete_time_continous_params("A".to_string(), 2);
    let all_wrong = CimSummary {
        configurations: 2,
        rows: 2,
        columns: 3,
        positive_diagonal: true,
        unbalanced_row: true,
    };
    assert_eq!(
        Err(ParamsError::InvalidCIM(String::from("Incompatible shape [2, 2, 3] with domain 2"))),
        param.set_cim(all_wrong)
    );
    let shaped = CimSummary { columns: 2, ..all_wrong };
    assert_eq!(
        Err(ParamsError::InvalidCIM(String::from(
            "The diagonal of each cim must be non-positive"
        ))),
        param.set_cim(shaped)
    );
    let signed = CimSummary { positive_diagonal: false, ..shaped };
    assert_eq!(
        Err(ParamsError::InvalidCIM(String::from("The sum of each row must be 0"))),
        param.set_cim(signed)
    );
}

#[test]
fn unchecked_setter_takes_any_matrix_and_validation_finds_it() {
    let mut param = generate_discrete_time_continous_params("A".to_string(), 2);
    let wrong = CimSummary {
        configurations: 1,
        rows: 2,
        columns: 2,
        positive_diagonal: false,
        unbalanced_row: true,
    };
    param.set_cim_unchecked(wrong);
    assert_eq!(&Some(wrong), param.get_cim());
    assert!(param.validate_params().is_err());
}

#[test]
fn reset_forgets_matrix_and_statistics_and_keeps_label_and_domain() {
    let mut param = Params::DiscreteStatesContinousTime(create_ternary_discrete_time_continous_param());
    assert_eq!(Ok(()), param.validate_params());
    param.reset_params();
    assert!(param.validate_params().is_err());
    assert_eq!("A", param.get_label());
    assert_eq!(3, param.get_reserved_space_as_parent());
    assert_eq!(2, param.state_to_index(&StateType::Discrete(2)));
    let Params::DiscreteStatesContinousTime(inner) = &param;
    assert!(inner.get_cim().is_none());
    assert!(inner.get_transitions().is_none());
}

#[test]
fn a_matrix_with_a_row_that_sums_to_no_number_is_rejected() {
    let mut param = generate_discrete_time_continous_params("A".to_string(), 2);
    let cim = arr3(&[[[-1.0, 1.0], [f64::NAN, -2.0]]]);
    let result = param.set_cim(summary(&cim));
    assert_eq!(
        Err(ParamsError::InvalidCIM(String::from(
            "The sum of each row must be 0"
        ))),
        result
    );
    assert_eq!(&None, param.get_cim());
}
