use notears::acyclicity::{validate_square_weights, AcyclicityError};
use notears::scoring::{validate_loss_inputs, ScoringError};
use notears::types::{dag_status, validate_iteration_limits, DagStatus, IterationLimitError};
use notears::utils::{
    validate_data_matrix, validate_data_weight_compatibility, validate_exponential_input,
    validate_weight_matrix, UtilError,
};
use notears::{validate_learning_dimensions, DataShapeError};

#[test]
fn types_test_optimization_config_valid() {
    assert_eq!(validate_iteration_limits(1000, 50, 10), Ok(()));
}

#[test]
fn types_test_optimization_config_invalid_outer_iterations() {
    let result = validate_iteration_limits(0, 50, 10);
    assert!(result.is_err());
}

#[test]
fn integration_tests_test_optimization_config_valid() {
    assert!(validate_iteration_limits(1000, 50, 10).is_ok());
}

#[test]
fn integration_tests_test_optimization_config_invalid_outer_iterations() {
    let result = validate_iteration_limits(0, 50, 10);
    assert!(result.is_err());
}

#[test]
fn iteration_limits_report_the_first_zero() {
    assert_eq!(
        validate_iteration_limits(0, 0, 0),
        Err(IterationLimitError::InvalidMaxOuterIterations(0))
    );
    assert_eq!(
        validate_iteration_limits(5, 0, 0),
        Err(IterationLimitError::InvalidMaxLbfgsIterations(0))
    );
    assert_eq!(
        validate_iteration_limits(5, 5, 0),
        Err(IterationLimitError::InvalidLbfgsMemory(0))
    );
}

#[test]
fn test_non_square_matrix_error() {
    // [[0.0, 0.1, 0.2], [-0.1, 0.0, 0.3]] is 2 x 3.
    assert_eq!(
        validate_square_weights((2, 3)),
        Err(AcyclicityError::NonSquareMatrix { rows: 2, cols: 3 })
    );
}

#[test]
fn square_weights_give_their_side() {
    assert_eq!(validate_square_weights((3, 3)), Ok(3));
    assert_eq!(validate_square_weights((0, 0)), Ok(0));
}

#[test]
fn test_dimension_mismatch() {
    // data [[1, 2, 3], [4, 5, 6]] against 2 x 2 weights
    assert!(validate_loss_inputs((2, 3), (2, 2)).is_err());
}

#[test]
fn test_loss_dimension_mismatch() {
    assert_eq!(
        validate_loss_inputs((2, 3), (2, 2)),
        Err(ScoringError::DimensionMismatch { data_vars: 3, weight_dim: 2 })
    );
}

#[test]
fn loss_inputs_need_square_weights_and_samples() {
    assert_eq!(validate_loss_inputs((4, 2), (2, 3)), Err(ScoringError::NonSquareWeight));
    assert_eq!(validate_loss_inputs((1, 2), (2, 3)), Err(ScoringError::NonSquareWeight));
    assert_eq!(validate_loss_inputs((0, 2), (2, 2)), Err(ScoringError::EmptyData));
    assert_eq!(validate_loss_inputs((1, 0), (0, 0)), Err(ScoringError::EmptyData));
    assert_eq!(validate_loss_inputs((2, 2), (2, 2)), Ok(()));
}

#[test]
fn test_matrix_exponential_dimension_validation() {
    // [[1, 2], [3, 4], [5, 6]] is 3 x 2.
    let result = validate_exponential_input((3, 2));
    assert!(result.is_err());
}

#[test]
fn test_matrix_exponential_large_dimension_validation() {
    // 1 x 1 is accepted
    let result = validate_exponential_input((1, 1));
    assert!(result.is_ok());
}

#[test]
fn exponential_input_bounds() {
    assert_eq!(validate_exponential_input((500, 500)), Ok(500));
    assert_eq!(validate_exponential_input((501, 501)), Err(UtilError::NumericalError));
    assert_eq!(
        validate_exponential_input((3, 2)),
        Err(UtilError::NonSquareMatrix { rows: 3, cols: 2 })
    );
}

#[test]
fn weight_matrix_validation() {
    assert_eq!(validate_weight_matrix((3, 3), None), Ok(()));
    assert_eq!(validate_weight_matrix((3, 3), Some(3)), Ok(()));
    assert_eq!(
        validate_weight_matrix((3, 3), Some(4)),
        Err(UtilError::InvalidDimensions {
            expected_rows: 4,
            expected_cols: 4,
            actual_rows: 3,
            actual_cols: 3
        })
    );
    assert_eq!(
        validate_weight_matrix((2, 3), Some(2)),
        Err(UtilError::NonSquareMatrix { rows: 2, cols: 3 })
    );
}

#[test]
fn data_weight_compatibility() {
    assert_eq!(validate_data_weight_compatibility((10, 4), 4), Ok(()));
    assert_eq!(
        validate_data_weight_compatibility((10, 4), 5),
        Err(UtilError::DimensionMismatch { data_vars: 4, weight_dim: 5 })
    );
}

#[test]
fn data_matrix_needs_samples_and_variables() {
    assert_eq!(validate_data_matrix((0, 3)), Err(UtilError::InvalidDataMatrix));
    assert_eq!(validate_data_matrix((3, 0)), Err(UtilError::InvalidDataMatrix));
    assert_eq!(validate_data_matrix((3, 2)), Ok(()));
}

#[test]
fn test_learn_dag_empty_data() {
    let err = validate_learning_dimensions(0, 3);
    assert!(err.is_err());
    assert_eq!(err, Err(DataShapeError::Empty));
}

#[test]
fn test_learn_dag_insufficient_samples() {
    // d = 5 variables but only n = 2 samples (underdetermined)
    let err = validate_learning_dimensions(2, 5);
    assert_eq!(err, Err(DataShapeError::Underdetermined { n: 2, d: 5 }));
}

#[test]
fn test_learn_dag_high_dimension() {
    // d = 501 exceeds safety limit
    let err = validate_learning_dimensions(1000, 501);
    assert_eq!(err, Err(DataShapeError::TooManyVariables { d: 501 }));
}

#[test]
fn learning_dimensions_accept_the_limit() {
    assert_eq!(validate_learning_dimensions(500, 500), Ok(()));
    assert_eq!(validate_learning_dimensions(20, 3), Ok(()));
}

#[test]
fn dag_status_covers_the_four_cases() {
    assert_eq!(dag_status(true, true), DagStatus::Pass);
    assert_eq!(dag_status(false, false), DagStatus::Fail);
    assert_eq!(dag_status(false, true), DagStatus::ConstraintWarn);
    assert_eq!(dag_status(true, false), DagStatus::TopologyWarn);
}
