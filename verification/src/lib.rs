//! # NOTEARS: learning DAG structure from observational data
//!
//! The verified core of the NOTEARS library: the binary adjacency matrices
//! of learned graphs (their edges, edge counts and acyclicity, decided by
//! Kahn's algorithm), and the shape and limit checks that guard the
//! numerical routines.
//!
//! - `adjacency` - adjacency matrices, edges and edge counts
//! - `dag` - acyclicity of the graph of an adjacency matrix
//! - `acyclicity` - errors and shape checks of h(W)
//! - `scoring` - errors and shape checks of the loss functions
//! - `types` - the iteration limits of the optimizer's configuration
//! - `utils` - shape validation of weight and data matrices

pub mod acyclicity;
pub mod adjacency;
pub mod dag;
pub mod scoring;
pub mod types;
pub mod utils;

pub use adjacency::AdjacencyMatrix;
pub use dag::is_acyclic_adjacency;

use vstd::prelude::*;

verus! {

/// Largest number of variables that learning accepts.
pub const MAX_VARIABLES: usize = 500;

/// Why data of a given shape cannot be learned from.
#[derive(Debug, Clone, Copy, PartialEq, Eq)]
pub enum DataShapeError {
    /// No samples or no variables.
    Empty,
    /// Fewer samples than variables.
    Underdetermined { n: usize, d: usize },
    /// More than `MAX_VARIABLES` variables.
    TooManyVariables { d: usize },
}

/// The dimension checks that learning makes of `n` samples of `d`
/// variables, in this order: both positive, `n >= d`, `d <= MAX_VARIABLES`.
pub fn validate_learning_dimensions(n: usize, d: usize) -> (r: Result<(), DataShapeError>)
    ensures
        r == if n == 0 || d == 0 {
            Err(DataShapeError::Empty)
        } else if n < d {
            Err(DataShapeError::Underdetermined { n, d })
        } else if d > MAX_VARIABLES {
            Err(DataShapeError::TooManyVariables { d })
        } else {
            Ok::<(), DataShapeError>(())
        },
{
    if n == 0 || d == 0 {
        return Err(DataShapeError::Empty);
    }
    if n < d {
        return Err(DataShapeError::Underdetermined { n, d });
    }
    if d > MAX_VARIABLES {
        return Err(DataShapeError::TooManyVariables { d });
    }
    Ok(())
}

} // verus!
