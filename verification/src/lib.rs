use vstd::prelude::*;

pub mod devices;
pub mod raw_writer;
pub mod setup_pattern;
pub mod solver;
pub mod union_find;

verus! {

/// The integration rule of the transient analysis.
#[derive(Debug, Clone, Copy, PartialEq, Eq, Structural)]
pub enum TransientIntegrator {
    BackwardEuler,
    Trapezoidal,
}

} // verus!
