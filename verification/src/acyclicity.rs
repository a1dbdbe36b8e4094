//! Errors and shape checks of the acyclicity constraint h(W).

use vstd::prelude::*;

verus! {

/// Error types for acyclicity operations.
#[derive(Debug, Clone, PartialEq, Eq)]
pub enum AcyclicityError {
    /// The weight matrix is not square.
    NonSquareMatrix { rows: usize, cols: usize },
    /// The matrix exponential failed; the message says how.
    NumericalError(String),
}

/// The shape check that h(W) and its gradient make: the weight matrix of
/// shape `shape = (rows, cols)` must be square. Returns the number of nodes.
pub fn validate_square_weights(shape: (usize, usize)) -> (r: Result<usize, AcyclicityError>)
    ensures
        r == if shape.0 != shape.1 {
            Err(AcyclicityError::NonSquareMatrix { rows: shape.0, cols: shape.1 })
        } else {
            Ok::<usize, AcyclicityError>(shape.0)
        },
{
    let (n, m) = shape;
    if n != m {
        return Err(AcyclicityError::NonSquareMatrix { rows: n, cols: m });
    }
    Ok(n)
}

} // verus!
