use vstd::prelude::*;

use crate::solver::utils::SolverOverflowError;

verus! {

/// The ways the sparse LU solver can fail.
#[derive(Debug, Clone, Copy, PartialEq, Eq)]
pub enum KluError {
    /// The leading dimension `d` of the right-hand sides is below `n`.
    InvalidLeadingDimension { d: usize, n: usize },
    /// The right-hand side buffer holds fewer than `d * nrhs` entries.
    RhsTooSmall { required: usize, d: usize, nrhs: usize, actual: usize },
    /// Only square matrices can be factored.
    NonSquareMatrix { nrows: usize, ncols: usize },
    /// The matrix has no full structural matching.
    StructurallySingular,
    /// A zero pivot was met in the given block.
    SingularAtBlock { block: usize },
    /// A column holds the same row twice.
    DuplicateEntry { col: usize, row: usize },
    /// A size computation overflowed.
    Overflow(SolverOverflowError),
    /// The problem exceeds a limit of the solver.
    TooLarge { context: &'static str },
}

impl KluError {
    /// The overflow error for what was being sized.
    pub fn overflow(context: &'static str) -> (r: KluError)
        ensures
            r == KluError::Overflow(SolverOverflowError::Overflow { context }),
    {
        KluError::Overflow(SolverOverflowError::Overflow { context })
    }
}

} // verus!
