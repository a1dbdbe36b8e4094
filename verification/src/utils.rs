//! Shape validation for the matrices that the numerical routines take.

use vstd::prelude::*;

pub use crate::dag::is_acyclic_adjacency;

verus! {

/// Largest matrix side that the matrix exponential accepts.
pub const MAX_EXPONENTIAL_DIM: usize = 500;

/// Error types for utility operations.
#[derive(Debug, Clone, Copy, PartialEq, Eq)]
pub enum UtilError {
    /// A matrix of the wrong shape.
    InvalidDimensions {
        expected_rows: usize,
        expected_cols: usize,
        actual_rows: usize,
        actual_cols: usize,
    },
    /// A matrix that should be square is not.
    NonSquareMatrix { rows: usize, cols: usize },
    /// A data matrix without samples or without variables.
    InvalidDataMatrix,
    /// The data has another number of variables than the weight matrix.
    DimensionMismatch { data_vars: usize, weight_dim: usize },
    /// NaN or Inf came out of a computation, or the input is too large for it.
    NumericalError,
}

/// Checks that a weight matrix of shape `shape = (rows, cols)` is square
/// and, when `expected_dim` is given, that it is `expected_dim x expected_dim`.
pub fn validate_weight_matrix(shape: (usize, usize), expected_dim: Option<usize>) -> (r: Result<(), UtilError>)
    ensures
        shape.0 != shape.1 ==> r == Err::<(), UtilError>(UtilError::NonSquareMatrix { rows: shape.0, cols: shape.1 }),
        shape.0 == shape.1 ==> r == match expected_dim {
            Some(d) => if shape.0 != d {
                Err(UtilError::InvalidDimensions {
                    expected_rows: d,
                    expected_cols: d,
                    actual_rows: shape.0,
                    actual_cols: shape.1,
                })
            } else {
                Ok(())
            },
            None => Ok(()),
        },
{
    let (n, m) = shape;
    if n != m {
        return Err(UtilError::NonSquareMatrix { rows: n, cols: m });
    }
    if let Some(d) = expected_dim {
        if n != d {
            return Err(
                UtilError::InvalidDimensions {
                    expected_rows: d,
                    expected_cols: d,
                    actual_rows: n,
                    actual_cols: m,
                },
            );
        }
    }
    Ok(())
}

/// Checks that a data matrix of shape `data_shape = (samples, variables)`
/// has as many variables as the weight matrix has rows.
pub fn validate_data_weight_compatibility(data_shape: (usize, usize), weight_dim: usize) -> (r: Result<(), UtilError>)
    ensures
        r == if data_shape.1 != weight_dim {
            Err(UtilError::DimensionMismatch { data_vars: data_shape.1, weight_dim })
        } else {
            Ok::<(), UtilError>(())
        },
{
    let (_, d) = data_shape;
    if d != weight_dim {
        return Err(UtilError::DimensionMismatch { data_vars: d, weight_dim });
    }
    Ok(())
}

/// The check that the matrix exponential makes of its input's shape: it
/// must be square, with side at most `MAX_EXPONENTIAL_DIM`. Returns the side.
pub fn validate_exponential_input(shape: (usize, usize)) -> (r: Result<usize, UtilError>)
    ensures
        r == if shape.0 != shape.1 {
            Err(UtilError::NonSquareMatrix { rows: shape.0, cols: shape.1 })
        } else if shape.0 > MAX_EXPONENTIAL_DIM {
            Err(UtilError::NumericalError)
        } else {
            Ok::<usize, UtilError>(shape.0)
        },
{
    let (n, m) = shape;
    if n != m {
        return Err(UtilError::NonSquareMatrix { rows: n, cols: m });
    }
    if n > MAX_EXPONENTIAL_DIM {
        return Err(UtilError::NumericalError);
    }
    Ok(n)
}

/// The check that standardization makes of its data's shape
/// `(samples, variables)`: both must be positive.
pub fn validate_data_matrix(shape: (usize, usize)) -> (r: Result<(), UtilError>)
    ensures
        r == if shape.0 == 0 || shape.1 == 0 {
            Err(UtilError::InvalidDataMatrix)
        } else {
            Ok::<(), UtilError>(())
        },
{
    if shape.0 == 0 || shape.1 == 0 {
        return Err(UtilError::InvalidDataMatrix);
    }
    Ok(())
}

} // verus!
