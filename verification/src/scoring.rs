//! Errors and shape checks of the loss functions.

use vstd::prelude::*;

verus! {

/// Error types for loss computation.
#[derive(Debug, Clone, Copy, PartialEq, Eq)]
pub enum ScoringError {
    /// The data has another number of variables than the (square) weight
    /// matrix has rows.
    DimensionMismatch { data_vars: usize, weight_dim: usize },
    /// The data has no samples or no variables.
    EmptyData,
    /// The weight matrix is not square.
    NonSquareWeight,
}

/// The shape check that the squared loss and its gradient make, for data
/// of shape `(samples, variables)` and a weight matrix of shape
/// `(rows, cols)`, in this order: the weight matrix must be square (else
/// `NonSquareWeight`), have as many rows as the data has variables (else
/// `DimensionMismatch`), and the data must have samples and variables
/// (else `EmptyData`).
pub fn validate_loss_inputs(data_shape: (usize, usize), weight_shape: (usize, usize)) -> (r: Result<(), ScoringError>)
    ensures
        r == if weight_shape.0 != weight_shape.1 {
            Err(ScoringError::NonSquareWeight)
        } else if data_shape.1 != weight_shape.0 {
            Err(ScoringError::DimensionMismatch { data_vars: data_shape.1, weight_dim: weight_shape.0 })
        } else if data_shape.0 == 0 || data_shape.1 == 0 {
            Err(ScoringError::EmptyData)
        } else {
            Ok::<(), ScoringError>(())
        },
{
    let (n, d) = data_shape;
    let (w_rows, w_cols) = weight_shape;
    if w_rows != w_cols {
        return Err(ScoringError::NonSquareWeight);
    }
    if d != w_rows {
        return Err(ScoringError::DimensionMismatch { data_vars: d, weight_dim: w_rows });
    }
    if n == 0 || d == 0 {
        return Err(ScoringError::EmptyData);
    }
    Ok(())
}

} // verus!
