use vstd::prelude::*;

use crate::solver::matrix::error::MatrixError;

verus! {

/// Errors of the linear solvers.
#[derive(Debug, Clone, PartialEq, Eq)]
pub enum SolverError {
    Matrix(MatrixError),
}

impl From<MatrixError> for SolverError {
    fn from(e: MatrixError) -> (r: SolverError) {
        SolverError::Matrix(e)
    }
}

impl vstd::std_specs::convert::FromSpecImpl<MatrixError> for SolverError {
    open spec fn obeys_from_spec() -> bool {
        true
    }

    open spec fn from_spec(v: MatrixError) -> SolverError {
        SolverError::Matrix(v)
    }
}

} // verus!
