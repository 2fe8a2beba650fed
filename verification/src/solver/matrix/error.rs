use vstd::prelude::*;

verus! {

/// Errors raised while building or validating a compressed sparse column matrix.
#[derive(Debug, Clone, Copy, PartialEq, Eq, Structural)]
pub enum CscError {
    OutOfBoundsIndex { index: usize, max: usize },
    InvalidColumnPointersLength { expected: usize, actual: usize },
    InvalidColumnPointers { index: usize, expected: usize, actual: usize },
    RowIndicesValuesLengthMismatch { values: usize, row_indices: usize },
    RowsNotStrictlyIncreasing { index: usize, expected: usize, actual: usize },
}

/// Errors raised while validating a compressed sparse row matrix.
#[derive(Debug, Clone, Copy, PartialEq, Eq, Structural)]
pub enum CsrError {
    OutOfBoundsIndex { index: usize, max: usize },
    InvalidRowPointersLength { expected: usize, actual: usize },
    InvalidRowPointers { index: usize, expected: usize, actual: usize },
    ColumnIndicesValuesLengthMismatch { values: usize, column_indices: usize },
    ColumnsNotStrictlyIncreasing { index: usize, expected: usize, actual: usize },
}

/// Errors raised while reading a MatrixMarket coordinate file.
#[derive(Debug, Clone, PartialEq, Eq)]
pub enum MatrixMarketError {
    InvalidBanner(String),
    UnsupportedType(String),
    InvalidSizeLine(String),
    InvalidEntry { line: usize, msg: String },
    EntryCountMismatch { expected: usize, actual: usize },
}

/// Any matrix error.
#[derive(Debug, Clone, PartialEq, Eq)]
pub enum MatrixError {
    Csc(CscError),
    Csr(CsrError),
    MatrixMarket(MatrixMarketError),
}

} // verus!
