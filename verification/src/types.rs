//! The integer part of the optimizer's configuration checks, and the
//! verdict of a DAG validation.

use vstd::prelude::*;

verus! {

/// An iteration limit of the optimizer that was given as zero; it carries
/// the offending value.
#[derive(Debug, Clone, Copy, PartialEq, Eq)]
pub enum IterationLimitError {
    /// `max_outer_iterations` must be positive.
    InvalidMaxOuterIterations(usize),
    /// `max_lbfgs_iterations` must be positive.
    InvalidMaxLbfgsIterations(usize),
    /// `lbfgs_memory` must be positive.
    InvalidLbfgsMemory(usize),
}

/// Checks, in this order, that the outer iteration limit, the inner
/// iteration limit and the L-BFGS memory are positive; reports the first
/// that is not.
pub fn validate_iteration_limits(
    max_outer_iterations: usize,
    max_lbfgs_iterations: usize,
    lbfgs_memory: usize,
) -> (r: Result<(), IterationLimitError>)
    ensures
        r == if max_outer_iterations == 0 {
            Err(IterationLimitError::InvalidMaxOuterIterations(max_outer_iterations))
        } else if max_lbfgs_iterations == 0 {
            Err(IterationLimitError::InvalidMaxLbfgsIterations(max_lbfgs_iterations))
        } else if lbfgs_memory == 0 {
            Err(IterationLimitError::InvalidLbfgsMemory(lbfgs_memory))
        } else {
            Ok::<(), IterationLimitError>(())
        },
{
    if max_outer_iterations == 0 {
        return Err(IterationLimitError::InvalidMaxOuterIterations(max_outer_iterations));
    }
    if max_lbfgs_iterations == 0 {
        return Err(IterationLimitError::InvalidMaxLbfgsIterations(max_lbfgs_iterations));
    }
    if lbfgs_memory == 0 {
        return Err(IterationLimitError::InvalidLbfgsMemory(lbfgs_memory));
    }
    Ok(())
}

/// The verdict of a DAG validation, from its two acyclicity checks.
#[derive(Debug, Clone, Copy, PartialEq, Eq)]
pub enum DagStatus {
    /// Both checks confirm acyclicity: a valid DAG.
    Pass,
    /// Neither check confirms acyclicity: cycles detected.
    Fail,
    /// h(W) is above the tolerance, but the topological sort finds no cycle.
    ConstraintWarn,
    /// h(W) is within the tolerance, but the topological sort finds a cycle.
    TopologyWarn,
}

/// Which status a validation reports, given whether h(W) is within the
/// tolerance and whether the topological sort found no cycle.
pub fn dag_status(acyclic_by_constraint: bool, acyclic_by_topological_sort: bool) -> (r: DagStatus)
    ensures
        r == if acyclic_by_constraint && acyclic_by_topological_sort {
            DagStatus::Pass
        } else if !acyclic_by_constraint && !acyclic_by_topological_sort {
            DagStatus::Fail
        } else if !acyclic_by_constraint {
            DagStatus::ConstraintWarn
        } else {
            DagStatus::TopologyWarn
        },
{
    if acyclic_by_constraint && acyclic_by_topological_sort {
        DagStatus::Pass
    } else if !acyclic_by_constraint && !acyclic_by_topological_sort {
        DagStatus::Fail
    } else if !acyclic_by_constraint {
        DagStatus::ConstraintWarn
    } else {
        DagStatus::TopologyWarn
    }
}

} // verus!
