use vstd::prelude::*;

use crate::solver::matrix::csc::{lemma_monotone_steps, pattern_has, pattern_wf};
use crate::solver::matrix::error::CsrError;
use crate::solver::matrix::Dim;

verus! {

/// Compressed Sparse Row matrix
/// - row pointers are the indices of the start and end of each row
/// - column indices are the indices of the columns of the non zero values
/// - values are the non zero values
#[derive(Debug, Clone)]
pub struct CsrMatrix<V> {
    pub dim: Dim,
    /// Row pointers, len = nrows + 1
    pub row_pointers: Vec<usize>,
    /// Column indices, len = nnz
    pub column_indices: Vec<usize>,
    /// Nonzero values, len = nnz
    pub values: Vec<V>,
}

impl<V> CsrMatrix<V> {
    pub open spec fn spec_nnz(&self) -> nat {
        self.column_indices@.len()
    }

    /// Pointers, column indices and values are consistent (the canonical CSR form).
    pub open spec fn wf(&self) -> bool {
        &&& pattern_wf(
            self.row_pointers@,
            self.column_indices@,
            self.dim.nrows as int,
            self.dim.ncols as int,
        )
        &&& self.values@.len() == self.column_indices@.len()
    }

    /// The stored entry at `(row, col)` exists.
    pub open spec fn has_entry(&self, row: int, col: int) -> bool {
        pattern_has(self.row_pointers@, self.column_indices@, col, row)
    }

    pub open spec fn row_ok(&self, i: int) -> bool {
        let rp = self.row_pointers@;
        let ci = self.column_indices@;
        &&& rp[i] <= rp[i + 1] <= ci.len()
        &&& forall|p: int| rp[i] <= p < rp[i + 1] ==> #[trigger] ci[p] < self.dim.ncols
        &&& forall|p: int, q: int| rp[i] <= p < q < rp[i + 1] ==> #[trigger] ci[p] < #[trigger] ci[q]
    }

    /// number of non zero values
    pub fn nnz(&self) -> (r: usize)
        ensures
            r == self.spec_nnz(),
    {
        self.column_indices.len()
    }

    /// Checks that the matrix is in canonical CSR form; on failure, reports the
    /// first violation found when scanning the pointers, the lengths and then
    /// the rows in order.
    pub fn check_invariants(&self) -> (r: Result<(), CsrError>)
        requires
            self.dim.nrows < usize::MAX,
        ensures
            r is Ok <==> self.wf(),
            self.row_pointers@.len() != self.dim.nrows + 1 ==> r == Err::<(), CsrError>(
                CsrError::InvalidRowPointersLength {
                    expected: (self.dim.nrows + 1) as usize,
                    actual: self.row_pointers@.len() as usize,
                },
            ),
            self.row_pointers@.len() == self.dim.nrows + 1 && self.row_pointers@[0] != 0 ==> r
                == Err::<(), CsrError>(
                CsrError::InvalidRowPointers { index: 0, expected: 0, actual: self.row_pointers@[0] },
            ),
            self.row_pointers@.len() == self.dim.nrows + 1 && self.row_pointers@[0] == 0
                && self.row_pointers@[self.dim.nrows as int] != self.spec_nnz() ==> r == Err::<
                (),
                CsrError,
            >(
                CsrError::InvalidRowPointers {
                    index: self.dim.nrows,
                    expected: self.spec_nnz() as usize,
                    actual: self.row_pointers@[self.dim.nrows as int],
                },
            ),
            self.row_pointers@.len() == self.dim.nrows + 1 && self.row_pointers@[0] == 0
                && self.row_pointers@[self.dim.nrows as int] == self.spec_nnz()
                && self.values@.len() != self.spec_nnz() ==> r == Err::<(), CsrError>(
                CsrError::ColumnIndicesValuesLengthMismatch {
                    values: self.values@.len() as usize,
                    column_indices: self.spec_nnz() as usize,
                },
            ),
            r matches Err(CsrError::InvalidRowPointers { index, expected, actual }) ==> (index == 0
                || index == self.dim.nrows || (self.row_pointers@[index as int] == expected
                && self.row_pointers@[index + 1] == actual && (expected > actual || actual
                > self.spec_nnz()))),
            r matches Err(CsrError::OutOfBoundsIndex { index, max }) ==> max == self.dim.ncols
                && index >= max && self.column_indices@.contains(index),
            r matches Err(CsrError::ColumnsNotStrictlyIncreasing { index, expected, actual }) ==> index
                < self.dim.nrows && actual <= expected,
    {
        let nrows = self.dim.nrows;
        let nnz = self.column_indices.len();
        if self.row_pointers.len() != nrows + 1 {
            return Err(
                CsrError::InvalidRowPointersLength {
                    expected: nrows + 1,
                    actual: self.row_pointers.len(),
                },
            );
        }
        if self.row_pointers[0] != 0 {
            return Err(
                CsrError::InvalidRowPointers { index: 0, expected: 0, actual: self.row_pointers[0] },
            );
        }
        if self.row_pointers[nrows] != nnz {
            return Err(
                CsrError::InvalidRowPointers {
                    index: nrows,
                    expected: nnz,
                    actual: self.row_pointers[nrows],
                },
            );
        }
        if self.column_indices.len() != self.row_pointers[nrows] {
            return Err(
                CsrError::ColumnIndicesValuesLengthMismatch {
                    values: self.row_pointers[nrows],
                    column_indices: self.column_indices.len(),
                },
            );
        }
        if self.column_indices.len() != self.values.len() {
            return Err(
                CsrError::ColumnIndicesValuesLengthMismatch {
                    values: self.values.len(),
                    column_indices: self.column_indices.len(),
                },
            );
        }
        // per-row sorted & in-range
        let ghost rp = self.row_pointers@;
        let ghost ci = self.column_indices@;
        let mut i: usize = 0;
        while i < nrows
            invariant
                i <= nrows,
                nrows == self.dim.nrows,
                nnz == ci.len(),
                rp == self.row_pointers@,
                ci == self.column_indices@,
                rp.len() == nrows + 1,
                rp[0] == 0,
                rp[nrows as int] == nnz,
                self.values@.len() == nnz,
                forall|ii: int| 0 <= ii < i ==> #[trigger] self.row_ok(ii),
            decreases nrows - i,
        {
            let start = self.row_pointers[i];
            let end = self.row_pointers[i + 1];
            if start > end || end > nnz {
                proof {
                    self.lemma_not_wf_at(i as int);
                }
                return Err(CsrError::InvalidRowPointers { index: i, expected: start, actual: end });
            }
            let mut p = start;
            let mut has_prev = false;
            let mut prev: usize = 0;
            while p < end
                invariant
                    start <= p <= end <= nnz,
                    i < nrows,
                    nrows == self.dim.nrows,
                    rp.len() == nrows + 1,
                    rp[0] == 0,
                    rp[nrows as int] == nnz,
                    self.values@.len() == nnz,
                    forall|ii: int| 0 <= ii < i ==> #[trigger] self.row_ok(ii),
                    nnz == ci.len(),
                    ci == self.column_indices@,
                    start == rp[i as int],
                    end == rp[i + 1],
                    rp == self.row_pointers@,
                    has_prev <==> p > start,
                    has_prev ==> prev == ci[p - 1],
                    forall|q: int| start <= q < p ==> #[trigger] ci[q] < self.dim.ncols,
                    forall|q: int, t: int| start <= q < t < p ==> #[trigger] ci[q] < #[trigger] ci[t],
                decreases end - p,
            {
                let c = self.column_indices[p];
                if c >= self.dim.ncols {
                    proof {
                        assert(ci[p as int] == c);
                        assert(ci.contains(c));
                        self.lemma_not_wf_at(i as int);
                    }
                    return Err(CsrError::OutOfBoundsIndex { index: c, max: self.dim.ncols });
                }
                if has_prev {
                    if c <= prev {
                        proof {
                            self.lemma_not_wf_at(i as int);
                        }
                        return Err(
                            CsrError::ColumnsNotStrictlyIncreasing {
                                index: i,
                                expected: prev,
                                actual: c,
                            },
                        );
                    }
                }
                proof {
                    assert forall|q: int, t: int| start <= q < t < p + 1 implies #[trigger] ci[q]
                        < #[trigger] ci[t] by {
                        if t == p && q < p - 1 {
                            assert(ci[q] < ci[p - 1]);
                        }
                    }
                }
                prev = c;
                has_prev = true;
                p = p + 1;
            }
            i = i + 1;
        }
        proof {
            self.lemma_wf_from_rows();
        }
        Ok(())
    }

    proof fn lemma_not_wf_at(&self, i: int)
        requires
            0 <= i < self.dim.nrows,
            self.row_pointers@.len() == self.dim.nrows + 1,
            !self.row_ok(i),
        ensures
            !self.wf(),
    {
        if self.wf() {
            let rp = self.row_pointers@;
            assert(rp[i] <= rp[i + 1]);
            assert(rp[i + 1] <= rp[self.dim.nrows as int]);
            assert forall|p: int| rp[i] <= p < rp[i + 1] implies #[trigger] self.column_indices@[p]
                < self.dim.ncols by {
                assert(self.column_indices@[p] < self.dim.ncols && rp[i] == rp[i]);
            }
            assert forall|p: int, q: int| rp[i] <= p < q < rp[i + 1] implies #[trigger] self.column_indices@[p]
                < #[trigger] self.column_indices@[q] by {
                assert(self.column_indices@[p] < self.column_indices@[q] && rp[i] == rp[i]);
            }
        }
    }

    proof fn lemma_wf_from_rows(&self)
        requires
            self.row_pointers@.len() == self.dim.nrows + 1,
            self.row_pointers@[0] == 0,
            self.row_pointers@[self.dim.nrows as int] == self.spec_nnz(),
            self.values@.len() == self.spec_nnz(),
            forall|ii: int| 0 <= ii < self.dim.nrows ==> #[trigger] self.row_ok(ii),
        ensures
            self.wf(),
    {
        let rp = self.row_pointers@;
        let n = self.dim.nrows as int;
        assert forall|k: int| 0 <= k < n implies #[trigger] rp[k] <= rp[k + 1] by {
            assert(self.row_ok(k));
        }
        assert forall|i: int, j: int| 0 <= i <= j <= n implies #[trigger] rp[i] <= #[trigger] rp[j] by {
            lemma_monotone_steps(rp, i, j, n);
        }
        assert forall|j: int, p: int|
            0 <= j < n && rp[j] <= p < rp[j + 1] implies #[trigger] self.column_indices@[p]
            < self.dim.ncols && #[trigger] rp[j] == rp[j] by {
            assert(self.row_ok(j));
        }
        assert forall|j: int, p: int, q: int|
            0 <= j < n && rp[j] <= p < q < rp[j + 1] implies #[trigger] self.column_indices@[p]
            < #[trigger] self.column_indices@[q] && #[trigger] rp[j] == rp[j] by {
            assert(self.row_ok(j));
        }
    }

    /// Return (column_indices, values) slice for row i
    pub fn row(&self, i: usize) -> (r: (&[usize], &[V]))
        requires
            self.wf(),
            i < self.dim.nrows,
        ensures
            r.0@ == self.column_indices@.subrange(
                self.row_pointers@[i as int] as int,
                self.row_pointers@[i + 1] as int,
            ),
            r.1@ == self.values@.subrange(
                self.row_pointers@[i as int] as int,
                self.row_pointers@[i + 1] as int,
            ),
    {
        let s = self.row_pointers[i];
        let e = self.row_pointers[i + 1];
        proof {
            assert(self.row_pointers@[i + 1] <= self.row_pointers@[self.dim.nrows as int]);
        }
        (&self.column_indices.as_slice()[s..e], &self.values.as_slice()[s..e])
    }

    /// Position of the first entry of row `i`.
    pub fn row_start(&self, i: usize) -> (r: usize)
        requires
            i < self.row_pointers@.len(),
        ensures
            r == self.row_pointers@[i as int],
    {
        self.row_pointers[i]
    }

    /// Column index of the entry stored at position `k`.
    pub fn col_index(&self, k: usize) -> (r: usize)
        requires
            k < self.column_indices@.len(),
        ensures
            r == self.column_indices@[k as int],
    {
        self.column_indices[k]
    }
}

} // verus!
