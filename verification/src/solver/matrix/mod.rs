use vstd::prelude::*;

pub mod builder;
pub mod csc;
pub mod csr;
pub mod error;
pub mod mtx;
pub mod sort;
pub mod transpose;

verus! {

/// Shape of a sparse matrix.
#[derive(Debug, Clone, Copy, PartialEq, Eq, Structural)]
pub struct Dim {
    pub nrows: usize,
    pub ncols: usize,
}

} // verus!
