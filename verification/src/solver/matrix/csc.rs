use vstd::prelude::*;

use crate::solver::matrix::error::CscError;
use crate::solver::matrix::Dim;

verus! {

/// Compressed Sparse Column matrix
/// - column pointers are the indices of the start and end of each column
/// - row indices are the indices of the rows of the non zero values
/// - values are the non zero values
#[derive(Debug, Clone)]
pub struct CscMatrix<V> {
    pub dim: Dim,
    /// Column pointers, len = ncols + 1
    pub column_pointers: Vec<usize>,
    /// Row indices, len = nnz
    pub row_indices: Vec<usize>,
    /// Nonzero values, len = nnz
    pub values: Vec<V>,
}

/// `cp` is a nondecreasing sequence of positions that starts at 0 and ends at `nnz`,
/// with one more entry than there are columns.
pub open spec fn pointers_wf(cp: Seq<usize>, ncols: int, nnz: int) -> bool {
    &&& cp.len() == ncols + 1
    &&& cp[0] == 0
    &&& cp[ncols] == nnz
    &&& forall|i: int, j: int| 0 <= i <= j <= ncols ==> #[trigger] cp[i] <= #[trigger] cp[j]
}

/// Within each column (between consecutive pointers) the row indices are
/// below `nrows` and strictly increasing.
pub open spec fn columns_sorted(cp: Seq<usize>, ri: Seq<usize>, ncols: int, nrows: int) -> bool {
    &&& forall|j: int, p: int|
        0 <= j < ncols && cp[j] <= p < cp[j + 1] ==> #[trigger] ri[p] < nrows && #[trigger] cp[j]
            == cp[j]
    &&& forall|j: int, p: int, q: int|
        0 <= j < ncols && cp[j] <= p < q < cp[j + 1] ==> #[trigger] ri[p] < #[trigger] ri[q]
            && #[trigger] cp[j] == cp[j]
}

/// A compressed pattern `(cp, ri)` of an `nrows`-by-`ncols` matrix.
pub open spec fn pattern_wf(cp: Seq<usize>, ri: Seq<usize>, ncols: int, nrows: int) -> bool {
    &&& pointers_wf(cp, ncols, ri.len() as int)
    &&& columns_sorted(cp, ri, ncols, nrows)
}

/// Column `j` of the pattern `(cp, ri)` holds row `i`.
pub open spec fn pattern_has(cp: Seq<usize>, ri: Seq<usize>, i: int, j: int) -> bool {
    exists|p: int| cp[j] <= p < cp[j + 1] && #[trigger] ri[p] == i
}

impl<V> CscMatrix<V> {
    pub open spec fn spec_nnz(&self) -> nat {
        self.row_indices@.len()
    }

    /// Pointers, row indices and values are consistent (the canonical CSC form).
    pub open spec fn wf(&self) -> bool {
        &&& pattern_wf(
            self.column_pointers@,
            self.row_indices@,
            self.dim.ncols as int,
            self.dim.nrows as int,
        )
        &&& self.values@.len() == self.row_indices@.len()
    }

    /// The stored entry at `(row, col)` exists.
    pub open spec fn has_entry(&self, row: int, col: int) -> bool {
        pattern_has(self.column_pointers@, self.row_indices@, row, col)
    }

    /// Number of stored entries.
    pub fn nnz(&self) -> (r: usize)
        ensures
            r == self.spec_nnz(),
    {
        self.row_indices.len()
    }

    pub open spec fn column_ok(&self, j: int) -> bool {
        let cp = self.column_pointers@;
        let ri = self.row_indices@;
        &&& cp[j] <= cp[j + 1] <= ri.len()
        &&& forall|p: int| cp[j] <= p < cp[j + 1] ==> #[trigger] ri[p] < self.dim.nrows
        &&& forall|p: int, q: int| cp[j] <= p < q < cp[j + 1] ==> #[trigger] ri[p] < #[trigger] ri[q]
    }

    /// Checks that the matrix is in canonical CSC form; on failure, reports the
    /// first violation found when scanning the pointers, the lengths and then
    /// the columns in order.
    pub fn check_invariants(&self) -> (r: Result<(), CscError>)
        requires
            self.dim.ncols < usize::MAX,
        ensures
            r is Ok <==> self.wf(),
            self.column_pointers@.len() != self.dim.ncols + 1 ==> r == Err::<(), CscError>(
                CscError::InvalidColumnPointersLength {
                    expected: (self.dim.ncols + 1) as usize,
                    actual: self.column_pointers@.len() as usize,
                },
            ),
            self.column_pointers@.len() == self.dim.ncols + 1 && self.column_pointers@[0] != 0
                ==> r == Err::<(), CscError>(
                CscError::InvalidColumnPointers {
                    index: 0,
                    expected: 0,
                    actual: self.column_pointers@[0],
                },
            ),
            self.column_pointers@.len() == self.dim.ncols + 1 && self.column_pointers@[0] == 0
                && self.column_pointers@[self.dim.ncols as int] != self.spec_nnz() ==> r == Err::<
                (),
                CscError,
            >(
                CscError::InvalidColumnPointers {
                    index: self.dim.ncols,
                    expected: self.spec_nnz() as usize,
                    actual: self.column_pointers@[self.dim.ncols as int],
                },
            ),
            self.column_pointers@.len() == self.dim.ncols + 1 && self.column_pointers@[0] == 0
                && self.column_pointers@[self.dim.ncols as int] == self.spec_nnz()
                && self.values@.len() != self.spec_nnz() ==> r == Err::<(), CscError>(
                CscError::RowIndicesValuesLengthMismatch {
                    values: self.values@.len() as usize,
                    row_indices: self.spec_nnz() as usize,
                },
            ),
            r matches Err(CscError::InvalidColumnPointers { index, expected, actual }) ==> (index
                == 0 || index == self.dim.ncols || (self.column_pointers@[index as int] == expected
                && self.column_pointers@[index + 1] == actual && (expected > actual || actual
                > self.spec_nnz()))),
            r matches Err(CscError::OutOfBoundsIndex { index, max }) ==> max == self.dim.nrows
                && index >= max && self.row_indices@.contains(index),
            r matches Err(CscError::RowsNotStrictlyIncreasing { index, expected, actual }) ==> index
                < self.dim.ncols && actual <= expected,
    {
        let ncols = self.dim.ncols;
        let nnz = self.row_indices.len();
        if self.column_pointers.len() != ncols + 1 {
            return Err(
                CscError::InvalidColumnPointersLength {
                    expected: ncols + 1,
                    actual: self.column_pointers.len(),
                },
            );
        }
        if self.column_pointers[0] != 0 {
            return Err(
                CscError::InvalidColumnPointers {
                    index: 0,
                    expected: 0,
                    actual: self.column_pointers[0],
                },
            );
        }
        if self.column_pointers[ncols] != nnz {
            return Err(
                CscError::InvalidColumnPointers {
                    index: ncols,
                    expected: nnz,
                    actual: self.column_pointers[ncols],
                },
            );
        }
        if self.row_indices.len() != self.values.len() {
            return Err(
                CscError::RowIndicesValuesLengthMismatch {
                    values: self.values.len(),
                    row_indices: self.row_indices.len(),
                },
            );
        }
        // per-column sorted & in-range
        let ghost cp = self.column_pointers@;
        let ghost ri = self.row_indices@;
        let mut j: usize = 0;
        while j < ncols
            invariant
                j <= ncols,
                ncols == self.dim.ncols,
                nnz == ri.len(),
                cp == self.column_pointers@,
                ri == self.row_indices@,
                cp.len() == ncols + 1,
                cp[0] == 0,
                cp[ncols as int] == nnz,
                self.values@.len() == nnz,
                forall|jj: int| 0 <= jj < j ==> #[trigger] self.column_ok(jj),
            decreases ncols - j,
        {
            let start = self.column_pointers[j];
            let end = self.column_pointers[j + 1];
            if start > end || end > nnz {
                proof {
                    self.lemma_not_wf_at(j as int);
                }
                return Err(CscError::InvalidColumnPointers { index: j, expected: start, actual: end });
            }
            let mut p = start;
            let mut has_prev = false;
            let mut prev: usize = 0;
            while p < end
                invariant
                    start <= p <= end <= nnz,
                    j < ncols,
                    ncols == self.dim.ncols,
                    cp.len() == ncols + 1,
                    cp[0] == 0,
                    cp[ncols as int] == nnz,
                    self.values@.len() == nnz,
                    forall|jj: int| 0 <= jj < j ==> #[trigger] self.column_ok(jj),
                    nnz == ri.len(),
                    ri == self.row_indices@,
                    start == cp[j as int],
                    end == cp[j + 1],
                    cp == self.column_pointers@,
                    has_prev <==> p > start,
                    has_prev ==> prev == ri[p - 1],
                    forall|q: int| start <= q < p ==> #[trigger] ri[q] < self.dim.nrows,
                    forall|q: int, t: int| start <= q < t < p ==> #[trigger] ri[q] < #[trigger] ri[t],
                decreases end - p,
            {
                let r = self.row_indices[p];
                if r >= self.dim.nrows {
                    proof {
                        assert(ri[p as int] == r);
                        assert(ri.contains(r));
                        self.lemma_not_wf_at(j as int);
                    }
                    return Err(CscError::OutOfBoundsIndex { index: r, max: self.dim.nrows });
                }
                if has_prev {
                    if r <= prev {
                        proof {
                            self.lemma_not_wf_at(j as int);
                        }
                        return Err(
                            CscError::RowsNotStrictlyIncreasing { index: j, expected: prev, actual: r },
                        );
                    }
                }
                proof {
                    assert forall|q: int, t: int| start <= q < t < p + 1 implies #[trigger] ri[q]
                        < #[trigger] ri[t] by {
                        if t == p && q < p - 1 {
                            assert(ri[q] < ri[p - 1]);
                        }
                    }
                }
                prev = r;
                has_prev = true;
                p = p + 1;
            }
            j = j + 1;
        }
        proof {
            self.lemma_wf_from_columns();
        }
        Ok(())
    }

    /// The matrix is square.
    pub fn is_square(&self) -> (r: bool)
        ensures
            r == (self.dim.nrows == self.dim.ncols),
    {
        self.dim.nrows == self.dim.ncols
    }

    /// Position of the first entry of column `j` (or the end of the matrix when `j == ncols`).
    pub fn col_start(&self, j: usize) -> (r: usize)
        requires
            j < self.column_pointers@.len(),
        ensures
            r == self.column_pointers@[j as int],
    {
        self.column_pointers[j]
    }

    /// Position one past the last entry of column `j`.
    pub fn col_end(&self, j: usize) -> (r: usize)
        requires
            j + 1 < self.column_pointers@.len(),
        ensures
            r == self.column_pointers@[j + 1],
    {
        let len = self.column_pointers.len();
        self.column_pointers[j + 1]
    }

    /// Row index of the entry stored at position `p`.
    pub fn row_index(&self, p: usize) -> (r: usize)
        requires
            p < self.row_indices@.len(),
        ensures
            r == self.row_indices@[p as int],
    {
        self.row_indices[p]
    }

    /// Return (row_indices, values) slice for column j
    pub fn col(&self, j: usize) -> (r: (&[usize], &[V]))
        requires
            self.wf(),
            j < self.dim.ncols,
        ensures
            r.0@ == self.row_indices@.subrange(
                self.column_pointers@[j as int] as int,
                self.column_pointers@[j + 1] as int,
            ),
            r.1@ == self.values@.subrange(
                self.column_pointers@[j as int] as int,
                self.column_pointers@[j + 1] as int,
            ),
    {
        let s = self.column_pointers[j];
        let e = self.column_pointers[j + 1];
        proof {
            assert(self.column_pointers@[j + 1] <= self.column_pointers@[self.dim.ncols as int]);
        }
        (&self.row_indices.as_slice()[s..e], &self.values.as_slice()[s..e])
    }

    /// Apply a column permutation: returns A(:, q) where q maps new_j -> old_j (i.e., A * P)
    pub fn permute_columns(&self, q: &[usize]) -> (r: CscMatrix<V>)
        where
            V: Copy,
        requires
            self.wf(),
            q@.len() == self.dim.ncols,
            forall|k: int| 0 <= k < q@.len() ==> #[trigger] q@[k] < self.dim.ncols,
            selected_len(self.column_pointers@, q@, q@.len() as int) <= usize::MAX,
        ensures
            r.dim == self.dim,
            r.column_pointers@.len() == self.dim.ncols + 1,
            r.column_pointers@[0] == 0,
            r.values@.len() == r.row_indices@.len(),
            forall|k: int|
                0 <= k <= q@.len() ==> #[trigger] r.column_pointers@[k] == selected_len(
                    self.column_pointers@,
                    q@,
                    k,
                ),
            forall|k: int|
                0 <= k < q@.len() ==> #[trigger] r.row_indices@.subrange(
                    r.column_pointers@[k] as int,
                    r.column_pointers@[k + 1] as int,
                ) == self.row_indices@.subrange(
                    self.column_pointers@[q@[k] as int] as int,
                    self.column_pointers@[q@[k] + 1] as int,
                ),
            forall|k: int|
                0 <= k < q@.len() ==> #[trigger] r.values@.subrange(
                    r.column_pointers@[k] as int,
                    r.column_pointers@[k + 1] as int,
                ) == self.values@.subrange(
                    self.column_pointers@[q@[k] as int] as int,
                    self.column_pointers@[q@[k] + 1] as int,
                ),
            r.wf(),
    {
        let ncols = self.dim.ncols;
        let mut column_pointers: Vec<usize> = Vec::with_capacity(self.column_pointers.len());
        column_pointers.push(0);
        let mut row_indices: Vec<usize> = Vec::with_capacity(self.nnz());
        let mut values: Vec<V> = Vec::with_capacity(self.nnz());
        let ghost cp = self.column_pointers@;
        let ghost ri = self.row_indices@;
        let ghost vs = self.values@;
        let mut k: usize = 0;
        while k < ncols
            invariant
                self.wf(),
                ncols == self.dim.ncols,
                cp == self.column_pointers@,
                ri == self.row_indices@,
                vs == self.values@,
                q@.len() == ncols,
                forall|t: int| 0 <= t < q@.len() ==> #[trigger] q@[t] < ncols,
                selected_len(cp, q@, q@.len() as int) <= usize::MAX,
                k <= ncols,
                column_pointers@.len() == k + 1,
                row_indices@.len() == values@.len(),
                row_indices@.len() == column_pointers@[k as int],
                forall|t: int| 0 <= t <= k ==> #[trigger] column_pointers@[t] == selected_len(cp, q@, t),
                forall|t: int|
                    0 <= t < k ==> #[trigger] row_indices@.subrange(
                        column_pointers@[t] as int,
                        column_pointers@[t + 1] as int,
                    ) == ri.subrange(cp[q@[t] as int] as int, cp[q@[t] + 1] as int),
                forall|t: int|
                    0 <= t < k ==> #[trigger] values@.subrange(
                        column_pointers@[t] as int,
                        column_pointers@[t + 1] as int,
                    ) == vs.subrange(cp[q@[t] as int] as int, cp[q@[t] + 1] as int),
            decreases ncols - k,
        {
            let old_j = q[k];
            let s = self.column_pointers[old_j];
            let e = self.column_pointers[old_j + 1];
            proof {
                assert(cp[old_j + 1] <= cp[ncols as int]);
                lemma_selected_len_monotone(cp, q@, k as int + 1, q@.len() as int, ncols as int);
                assert(selected_len(cp, q@, k + 1) == selected_len(cp, q@, k as int) + (e - s));
            }
            let ghost before_r = row_indices@;
            let ghost before_v = values@;
            let mut p = s;
            while p < e
                invariant
                    s <= p <= e <= ri.len(),
                    ri == self.row_indices@,
                    vs == self.values@,
                    vs.len() == ri.len(),
                    row_indices@ == before_r + ri.subrange(s as int, p as int),
                    values@ == before_v + vs.subrange(s as int, p as int),
                decreases e - p,
            {
                row_indices.push(self.row_indices[p]);
                values.push(self.values[p]);
                proof {
                    assert(ri.subrange(s as int, p + 1) == ri.subrange(s as int, p as int).push(
                        ri[p as int],
                    ));
                    assert(vs.subrange(s as int, p + 1) == vs.subrange(s as int, p as int).push(
                        vs[p as int],
                    ));
                }
                p = p + 1;
            }
            let last = column_pointers[k];
            column_pointers.push(last + (e - s));
            proof {
                lemma_extend_columns(before_r, row_indices@, column_pointers@, ri, cp, q@, k as int, ncols as int);
                lemma_extend_columns(before_v, values@, column_pointers@, vs, cp, q@, k as int, ncols as int);
            }
            k = k + 1;
        }
        let r = CscMatrix { dim: self.dim, column_pointers, row_indices, values };
        proof {
            lemma_permuted_wf(self, q@, &r);
        }
        r
    }

    /// A well-formed matrix has every column in order.
    proof fn lemma_not_wf_at(&self, j: int)
        requires
            0 <= j < self.dim.ncols,
            self.column_pointers@.len() == self.dim.ncols + 1,
            !self.column_ok(j),
        ensures
            !self.wf(),
    {
        if self.wf() {
            let cp = self.column_pointers@;
            assert(cp[j] <= cp[j + 1]);
            assert(cp[j + 1] <= cp[self.dim.ncols as int]);
            assert forall|p: int| cp[j] <= p < cp[j + 1] implies #[trigger] self.row_indices@[p]
                < self.dim.nrows by {
                assert(self.row_indices@[p] < self.dim.nrows && cp[j] == cp[j]);
            }
            assert forall|p: int, q: int| cp[j] <= p < q < cp[j + 1] implies #[trigger] self.row_indices@[p]
                < #[trigger] self.row_indices@[q] by {
                assert(self.row_indices@[p] < self.row_indices@[q] && cp[j] == cp[j]);
            }
        }
    }

    /// Columns that are each in order make a well-formed matrix.
    proof fn lemma_wf_from_columns(&self)
        requires
            self.column_pointers@.len() == self.dim.ncols + 1,
            self.column_pointers@[0] == 0,
            self.column_pointers@[self.dim.ncols as int] == self.spec_nnz(),
            self.values@.len() == self.spec_nnz(),
            forall|jj: int| 0 <= jj < self.dim.ncols ==> #[trigger] self.column_ok(jj),
        ensures
            self.wf(),
    {
        let cp = self.column_pointers@;
        let n = self.dim.ncols as int;
        assert forall|k: int| 0 <= k < n implies #[trigger] cp[k] <= cp[k + 1] by {
            assert(self.column_ok(k));
        }
        assert forall|i: int, j: int| 0 <= i <= j <= n implies #[trigger] cp[i] <= #[trigger] cp[j] by {
            lemma_monotone_steps(cp, i, j, n);
        }
        assert forall|j: int, p: int|
            0 <= j < n && cp[j] <= p < cp[j + 1] implies #[trigger] self.row_indices@[p]
            < self.dim.nrows && #[trigger] cp[j] == cp[j] by {
            assert(self.column_ok(j));
        }
        assert forall|j: int, p: int, q: int|
            0 <= j < n && cp[j] <= p < q < cp[j + 1] implies #[trigger] self.row_indices@[p]
            < #[trigger] self.row_indices@[q] && #[trigger] cp[j] == cp[j] by {
            assert(self.column_ok(j));
        }
    }
}

/// Total length of the columns `q[0..k]` of the pattern with pointers `cp`.
pub open spec fn selected_len(cp: Seq<usize>, q: Seq<usize>, k: int) -> int
    decreases k,
{
    if k <= 0 {
        0
    } else {
        selected_len(cp, q, k - 1) + (cp[q[k - 1] + 1] - cp[q[k - 1] as int])
    }
}

proof fn lemma_selected_len_monotone(cp: Seq<usize>, q: Seq<usize>, a: int, b: int, n: int)
    requires
        0 <= a <= b <= q.len(),
        pointers_wf(cp, n, cp[n] as int),
        forall|t: int| 0 <= t < q.len() ==> #[trigger] q[t] < n,
    ensures
        0 <= selected_len(cp, q, a) <= selected_len(cp, q, b),
    decreases b,
{
    if a < b {
        lemma_selected_len_monotone(cp, q, a, b - 1, n);
        assert(cp[q[b - 1] as int] <= cp[q[b - 1] + 1]);
    } else if a > 0 {
        lemma_selected_len_monotone(cp, q, a - 1, a - 1, n);
        assert(cp[q[a - 1] as int] <= cp[q[a - 1] + 1]);
    }
}

/// Appending the source column `q[k]` to columns already copied keeps the earlier ones.
proof fn lemma_extend_columns<T>(
    before: Seq<T>,
    after: Seq<T>,
    ck: Seq<usize>,
    src: Seq<T>,
    cp: Seq<usize>,
    q: Seq<usize>,
    k: int,
    n: int,
)
    requires
        0 <= k < q.len(),
        pointers_wf(cp, n, cp[n] as int),
        cp[n] <= src.len(),
        forall|t: int| 0 <= t < q.len() ==> #[trigger] q[t] < n,
        ck.len() == k + 2,
        forall|t: int| 0 <= t <= k + 1 ==> #[trigger] ck[t] == selected_len(cp, q, t),
        before.len() == ck[k],
        after == before + src.subrange(cp[q[k] as int] as int, cp[q[k] + 1] as int),
        forall|t: int|
            0 <= t < k ==> #[trigger] before.subrange(ck[t] as int, ck[t + 1] as int) == src.subrange(
                cp[q[t] as int] as int,
                cp[q[t] + 1] as int,
            ),
    ensures
        forall|t: int|
            0 <= t <= k ==> #[trigger] after.subrange(ck[t] as int, ck[t + 1] as int) == src.subrange(
                cp[q[t] as int] as int,
                cp[q[t] + 1] as int,
            ),
{
    assert(cp[q[k] as int] <= cp[q[k] + 1] <= cp[n]);
    assert forall|t: int| 0 <= t <= k implies #[trigger] after.subrange(ck[t] as int, ck[t + 1] as int)
        == src.subrange(cp[q[t] as int] as int, cp[q[t] + 1] as int) by {
        lemma_selected_len_monotone(cp, q, t, t + 1, n);
        lemma_selected_len_monotone(cp, q, t + 1, k + 1, n);
        if t < k {
            lemma_selected_len_monotone(cp, q, t + 1, k, n);
            assert(after.subrange(ck[t] as int, ck[t + 1] as int) =~= before.subrange(
                ck[t] as int,
                ck[t + 1] as int,
            ));
        } else {
            assert(after.subrange(ck[t] as int, ck[t + 1] as int) =~= src.subrange(
                cp[q[t] as int] as int,
                cp[q[t] + 1] as int,
            ));
        }
    }
}

/// Taking whole columns of a well-formed matrix gives a well-formed matrix.
#[verifier::spinoff_prover]
#[verifier::rlimit(40)]
proof fn lemma_permuted_wf<V>(a: &CscMatrix<V>, q: Seq<usize>, r: &CscMatrix<V>)
    requires
        a.wf(),
        q.len() == a.dim.ncols,
        forall|k: int| 0 <= k < q.len() ==> #[trigger] q[k] < a.dim.ncols,
        r.dim == a.dim,
        r.column_pointers@.len() == a.dim.ncols + 1,
        r.values@.len() == r.row_indices@.len(),
        r.row_indices@.len() == r.column_pointers@[a.dim.ncols as int],
        forall|k: int|
            0 <= k <= q.len() ==> #[trigger] r.column_pointers@[k] == selected_len(
                a.column_pointers@,
                q,
                k,
            ),
        forall|k: int|
            0 <= k < q.len() ==> #[trigger] r.row_indices@.subrange(
                r.column_pointers@[k] as int,
                r.column_pointers@[k + 1] as int,
            ) == a.row_indices@.subrange(
                a.column_pointers@[q[k] as int] as int,
                a.column_pointers@[q[k] + 1] as int,
            ),
    ensures
        r.wf(),
{
    let n = a.dim.ncols as int;
    let cp = a.column_pointers@;
    let rcp = r.column_pointers@;
    let ri = a.row_indices@;
    let rri = r.row_indices@;
    assert forall|i: int, j: int| 0 <= i <= j <= n implies #[trigger] rcp[i] <= #[trigger] rcp[j] by {
        lemma_selected_len_monotone(cp, q, i, j, n);
    }
    assert forall|j: int, p: int|
        0 <= j < n && rcp[j] <= p < rcp[j + 1] implies #[trigger] rri[p] < a.dim.nrows
        && #[trigger] rcp[j] == rcp[j] by {
        let o = q[j] as int;
        let off = p - rcp[j];
        assert(rri.subrange(rcp[j] as int, rcp[j + 1] as int)[off] == rri[p]);
        assert(ri[cp[o] + off] < a.dim.nrows && cp[o] == cp[o]);
    }
    assert forall|j: int, p: int, t: int|
        0 <= j < n && rcp[j] <= p < t < rcp[j + 1] implies #[trigger] rri[p] < #[trigger] rri[t]
        && #[trigger] rcp[j] == rcp[j] by {
        let o = q[j] as int;
        assert(rri.subrange(rcp[j] as int, rcp[j + 1] as int)[p - rcp[j]] == rri[p]);
        assert(rri.subrange(rcp[j] as int, rcp[j + 1] as int)[t - rcp[j]] == rri[t]);
        assert(ri[cp[o] + (p - rcp[j])] < ri[cp[o] + (t - rcp[j])] && cp[o] == cp[o]);
    }
}

/// Two strictly increasing sequences with the same elements are equal.
proof fn lemma_sorted_unique(s: Seq<usize>, t: Seq<usize>)
    requires
        forall|i: int, j: int| 0 <= i < j < s.len() ==> #[trigger] s[i] < #[trigger] s[j],
        forall|i: int, j: int| 0 <= i < j < t.len() ==> #[trigger] t[i] < #[trigger] t[j],
        forall|x: usize| s.contains(x) <==> t.contains(x),
    ensures
        s == t,
    decreases s.len(),
{
    if s.len() == 0 {
        if t.len() > 0 {
            assert(t.contains(t[0]));
        }
        assert(s =~= t);
    } else {
        assert(s.contains(s[0]));
        assert(t.len() > 0);
        assert(t.contains(t[0]));
        let a = choose|k: int| 0 <= k < t.len() && t[k] == s[0];
        let b = choose|k: int| 0 <= k < s.len() && s[k] == t[0];
        if a > 0 {
            assert(t[0] < t[a]);
        }
        if b > 0 {
            assert(s[0] < s[b]);
        }
        assert(s[0] == t[0]);
        let s2 = s.drop_first();
        let t2 = t.drop_first();
        assert forall|x: usize| s2.contains(x) <==> t2.contains(x) by {
            if s2.contains(x) {
                let k = choose|k: int| 0 <= k < s2.len() && s2[k] == x;
                assert(s[k + 1] == x && s[0] < s[k + 1]);
                assert(t.contains(x));
                let k2 = choose|k2: int| 0 <= k2 < t.len() && t[k2] == x;
                assert(k2 != 0);
                assert(t2[k2 - 1] == x);
            }
            if t2.contains(x) {
                let k = choose|k: int| 0 <= k < t2.len() && t2[k] == x;
                assert(t[k + 1] == x && t[0] < t[k + 1]);
                assert(s.contains(x));
                let k2 = choose|k2: int| 0 <= k2 < s.len() && s[k2] == x;
                assert(k2 != 0);
                assert(s2[k2 - 1] == x);
            }
        }
        assert forall|i: int, j: int| 0 <= i < j < s2.len() implies #[trigger] s2[i] < #[trigger] s2[j] by {
            assert(s[i + 1] < s[j + 1]);
        }
        assert forall|i: int, j: int| 0 <= i < j < t2.len() implies #[trigger] t2[i] < #[trigger] t2[j] by {
            assert(t[i + 1] < t[j + 1]);
        }
        lemma_sorted_unique(s2, t2);
        assert(s =~= seq![s[0]] + s2);
        assert(t =~= seq![t[0]] + t2);
    }
}

/// A compressed pattern is determined by the entries it holds: two
/// well-formed patterns of the same shape holding the same entries are equal.
pub proof fn lemma_pattern_unique(cp1: Seq<usize>, ri1: Seq<usize>, cp2: Seq<usize>, ri2: Seq<usize>, ncols: int, nrows: int)
    requires
        0 <= ncols,
        pattern_wf(cp1, ri1, ncols, nrows),
        pattern_wf(cp2, ri2, ncols, nrows),
        forall|i: int, j: int| #![trigger pattern_has(cp1, ri1, i, j)] #![trigger pattern_has(cp2, ri2, i, j)] 0 <= i < nrows && 0 <= j < ncols ==> (pattern_has(cp1, ri1, i, j) <==> pattern_has(cp2, ri2, i, j)),
    ensures
        cp1 == cp2,
        ri1 == ri2,
{
    lemma_pattern_unique_upto(cp1, ri1, cp2, ri2, ncols, nrows, ncols);
    assert(cp1 =~= cp2);
    assert(ri1.len() == cp1[ncols]);
    assert forall|p: int| 0 <= p < ri1.len() implies ri1[p] == ri2[p] by {
        lemma_column_of(cp1, ncols, p);
        let j = choose|j: int| 0 <= j < ncols && #[trigger] cp1[j] <= p < cp1[j + 1];
        lemma_pattern_unique_upto(cp1, ri1, cp2, ri2, ncols, nrows, j + 1);
    }
    assert(ri1 =~= ri2);
}

/// Every position below `cp[n]` lies in some column.
pub proof fn lemma_column_of(cp: Seq<usize>, n: int, p: int)
    requires
        0 <= n,
        cp.len() == n + 1,
        cp[0] == 0,
        0 <= p < cp[n],
        forall|i: int, j: int| 0 <= i <= j <= n ==> #[trigger] cp[i] <= #[trigger] cp[j],
    ensures
        exists|j: int| 0 <= j < n && #[trigger] cp[j] <= p < cp[j + 1],
    decreases n,
{
    if n == 0 {
    } else if p >= cp[n - 1] {
        assert(cp[n - 1] <= p < cp[n]);
    } else {
        lemma_column_of(cp.subrange(0, n), n - 1, p);
        let j = choose|j: int| 0 <= j < n - 1 && #[trigger] cp.subrange(0, n)[j] <= p < cp.subrange(0, n)[j + 1];
        assert(cp[j] <= p < cp[j + 1]);
    }
}

/// The columns before `k` of two such patterns agree: the same pointers,
/// and the same rows at every position before `cp[k]`.
proof fn lemma_pattern_unique_upto(cp1: Seq<usize>, ri1: Seq<usize>, cp2: Seq<usize>, ri2: Seq<usize>, ncols: int, nrows: int, k: int)
    requires
        pattern_wf(cp1, ri1, ncols, nrows),
        pattern_wf(cp2, ri2, ncols, nrows),
        forall|i: int, j: int| #![trigger pattern_has(cp1, ri1, i, j)] #![trigger pattern_has(cp2, ri2, i, j)] 0 <= i < nrows && 0 <= j < ncols ==> (pattern_has(cp1, ri1, i, j) <==> pattern_has(cp2, ri2, i, j)),
        0 <= k <= ncols,
    ensures
        forall|j: int| 0 <= j <= k ==> #[trigger] cp1[j] == cp2[j],
        forall|p: int| 0 <= p < cp1[k] ==> #[trigger] ri1[p] == ri2[p],
    decreases k,
{
    if k > 0 {
        let j = k - 1;
        lemma_pattern_unique_upto(cp1, ri1, cp2, ri2, ncols, nrows, j);
        let s = ri1.subrange(cp1[j] as int, cp1[j + 1] as int);
        let t = ri2.subrange(cp2[j] as int, cp2[j + 1] as int);
        assert(cp1[j] <= cp1[j + 1] && cp1[j + 1] <= cp1[ncols]);
        assert(cp2[j] <= cp2[j + 1] && cp2[j + 1] <= cp2[ncols]);
        assert forall|a: int, b: int| 0 <= a < b < s.len() implies #[trigger] s[a] < #[trigger] s[b] by {
            assert(ri1[cp1[j] + a] < ri1[cp1[j] + b] && cp1[j] == cp1[j]);
        }
        assert forall|a: int, b: int| 0 <= a < b < t.len() implies #[trigger] t[a] < #[trigger] t[b] by {
            assert(ri2[cp2[j] + a] < ri2[cp2[j] + b] && cp2[j] == cp2[j]);
        }
        assert forall|x: usize| s.contains(x) <==> t.contains(x) by {
            if s.contains(x) {
                let a = choose|a: int| 0 <= a < s.len() && s[a] == x;
                let p = cp1[j] + a;
                assert(ri1[p] == x && ri1[p] < nrows && cp1[j] == cp1[j]);
                assert(pattern_has(cp1, ri1, x as int, j));
                assert(pattern_has(cp2, ri2, x as int, j));
                let q = choose|q: int| cp2[j] <= q < cp2[j + 1] && #[trigger] ri2[q] == x;
                assert(t[q - cp2[j]] == x);
            }
            if t.contains(x) {
                let a = choose|a: int| 0 <= a < t.len() && t[a] == x;
                let p = cp2[j] + a;
                assert(ri2[p] == x && ri2[p] < nrows && cp2[j] == cp2[j]);
                assert(pattern_has(cp2, ri2, x as int, j));
                assert(pattern_has(cp1, ri1, x as int, j));
                let q = choose|q: int| cp1[j] <= q < cp1[j + 1] && #[trigger] ri1[q] == x;
                assert(s[q - cp1[j]] == x);
            }
        }
        lemma_sorted_unique(s, t);
        assert(s.len() == t.len());
        assert(cp1[k] == cp2[k]);
        assert forall|p: int| 0 <= p < cp1[k] implies #[trigger] ri1[p] == ri2[p] by {
            if p >= cp1[j] {
                assert(s[p - cp1[j]] == ri1[p]);
                assert(t[p - cp2[j]] == ri2[p]);
            }
        }
    }
}


/// Pointers that never decrease from one column to the next are monotone.
pub proof fn lemma_monotone_steps(cp: Seq<usize>, i: int, j: int, n: int)
    requires
        0 <= i <= j <= n,
        n < cp.len(),
        forall|k: int| 0 <= k < n ==> #[trigger] cp[k] <= cp[k + 1],
    ensures
        cp[i] <= cp[j],
    decreases j - i,
{
    if i < j {
        lemma_monotone_steps(cp, i, j - 1, n);
        assert(cp[j - 1] <= cp[j]);
    }
}

} // verus!
