use vstd::prelude::*;

use crate::solver::label_sort::count_label;
use crate::solver::label_sort::label_pos;
use crate::solver::label_sort::label_start;
use crate::solver::label_sort::lemma_count_mono;
use crate::solver::label_sort::lemma_count_strict;
use crate::solver::label_sort::lemma_pos_distinct;
use crate::solver::label_sort::lemma_pos_onto;
use crate::solver::label_sort::lemma_pos_range;
use crate::solver::label_sort::lemma_place_label;
use crate::solver::label_sort::lemma_start_mono;
use crate::solver::label_sort::lemma_start_total;
use crate::solver::matrix::csc::CscMatrix;
use crate::solver::matrix::csr::CsrMatrix;

verus! {

/// `a` is well formed; kept folded so that its quantifiers stay out of the
/// proofs that do not need them.
#[verifier::opaque]
pub open spec fn csc_ok<V>(a: &CscMatrix<V>) -> bool {
    a.wf()
}

/// Pointer facts of a folded well-formed matrix.
pub proof fn lemma_csc_pointers<V>(a: &CscMatrix<V>, j: int)
    requires
        csc_ok(a),
        0 <= j < a.dim.ncols,
    ensures
        a.column_pointers@.len() == a.dim.ncols + 1,
        a.column_pointers@[0] == 0,
        a.column_pointers@[a.dim.ncols as int] == a.spec_nnz(),
        a.column_pointers@[j] <= a.column_pointers@[j + 1] <= a.spec_nnz(),
        a.values@.len() == a.spec_nnz(),
{
    reveal(csc_ok);
    assert(a.column_pointers@[j + 1] <= a.column_pointers@[a.dim.ncols as int]);
}

/// Column pointers of a folded well-formed matrix never decrease.
pub proof fn lemma_csc_mono<V>(a: &CscMatrix<V>, i: int, j: int)
    requires
        csc_ok(a),
        0 <= i <= j <= a.dim.ncols,
    ensures
        a.column_pointers@[i] <= a.column_pointers@[j],
{
    reveal(csc_ok);
}

/// Every stored position of a well-formed matrix lies in one column.
proof fn lemma_column_of<V>(a: &CscMatrix<V>, p: int) -> (j: int)
    requires
        csc_ok(a),
        0 <= p < a.row_indices@.len(),
    ensures
        0 <= j < a.dim.ncols,
        a.column_pointers@[j] <= p < a.column_pointers@[j + 1],
{
    reveal(csc_ok);
    lemma_column_from(a, p, 0)
}

proof fn lemma_column_from<V>(a: &CscMatrix<V>, p: int, j0: int) -> (j: int)
    requires
        a.wf(),
        0 <= j0 <= a.dim.ncols,
        a.column_pointers@[j0] <= p < a.row_indices@.len(),
    ensures
        j0 <= j < a.dim.ncols,
        a.column_pointers@[j] <= p < a.column_pointers@[j + 1],
    decreases a.dim.ncols - j0,
{
    if j0 == a.dim.ncols {
        assert(a.column_pointers@[j0] == a.row_indices@.len());
        j0
    } else if p < a.column_pointers@[j0 + 1] {
        j0
    } else {
        lemma_column_from(a, p, j0 + 1)
    }
}

/// Within a row, the entries of a column-ordered pattern come from
/// increasing columns as their positions increase.
proof fn lemma_columns_ascend<V>(a: &CscMatrix<V>, p1: int, j1: int, p2: int, j2: int)
    requires
        csc_ok(a),
        0 <= j1 < a.dim.ncols,
        0 <= j2 < a.dim.ncols,
        a.column_pointers@[j1] <= p1 < a.column_pointers@[j1 + 1],
        a.column_pointers@[j2] <= p2 < a.column_pointers@[j2 + 1],
        p1 < p2,
        a.row_indices@[p1] == a.row_indices@[p2],
    ensures
        j1 < j2,
{
    reveal(csc_ok);
    let cp = a.column_pointers@;
    if j2 < j1 {
        assert(cp[j2 + 1] <= cp[j1]);
    } else if j1 == j2 {
        assert(a.row_indices@[p1] < a.row_indices@[p2]);
    }
}

/// What the counting sort by row leaves: row pointers at the block starts,
/// and each stored entry's column at its place.
pub open spec fn csr_placed<V>(a: &CscMatrix<V>, r: &CsrMatrix<V>) -> bool {
    &&& r.dim == a.dim
    &&& r.row_pointers@.len() == a.dim.nrows + 1
    &&& r.column_indices@.len() == a.spec_nnz()
    &&& r.values@.len() == a.spec_nnz()
    &&& forall|i: int| 0 <= i <= a.dim.nrows ==> #[trigger] r.row_pointers@[i] == label_start(a.row_indices@, a.spec_nnz() as int, i)
    &&& forall|j: int, p: int|
        #![trigger r.column_indices@[label_pos(a.row_indices@, a.spec_nnz() as int, p)], a.column_pointers@[j]]
        0 <= j < a.dim.ncols && a.column_pointers@[j] <= p < a.column_pointers@[j + 1] ==> r.column_indices@[label_pos(
            a.row_indices@,
            a.spec_nnz() as int,
            p,
        )] == j
}

/// All row indices of a well-formed matrix are below its number of rows, and
/// the blocks of rows fill all the places.
proof fn lemma_rows_below<V>(a: &CscMatrix<V>)
    requires
        csc_ok(a),
    ensures
        forall|p: int| 0 <= p < a.spec_nnz() ==> #[trigger] a.row_indices@[p] < a.dim.nrows,
        label_start(a.row_indices@, a.spec_nnz() as int, a.dim.nrows as int) == a.spec_nnz(),
{
    assert forall|p: int| 0 <= p < a.spec_nnz() implies #[trigger] a.row_indices@[p] < a.dim.nrows by {
        let j = lemma_column_of(a, p);
        reveal(csc_ok);
        assert(a.column_pointers@[j] == a.column_pointers@[j]);
    }
    lemma_start_total(a.row_indices@, a.spec_nnz() as int, a.dim.nrows as int);
}

/// Place `k` of row `i` holds a stored entry of row `i`.
proof fn lemma_place_source<V>(a: &CscMatrix<V>, r: &CsrMatrix<V>, i: int, k: int) -> (p: int)
    requires
        csc_ok(a),
        csr_placed(a, r),
        0 <= i < a.dim.nrows,
        r.row_pointers@[i] <= k < r.row_pointers@[i + 1],
    ensures
        0 <= p < a.spec_nnz(),
        label_pos(a.row_indices@, a.spec_nnz() as int, p) == k,
        a.row_indices@[p] == i,
{
    let ri = a.row_indices@;
    let nnz = a.spec_nnz() as int;
    let m = a.dim.nrows as int;
    lemma_rows_below(a);
    lemma_start_mono(ri, nnz, i + 1, m);
    lemma_pos_onto(ri, nnz, m, k);
    let p = choose|p: int| 0 <= p < nnz && #[trigger] label_pos(ri, nnz, p) == k;
    lemma_place_label(ri, nnz, p, i);
    p
}

proof fn lemma_csr_pointers<V>(a: &CscMatrix<V>, r: &CsrMatrix<V>)
    requires
        csc_ok(a),
        csr_placed(a, r),
    ensures
        crate::solver::matrix::csc::pointers_wf(r.row_pointers@, a.dim.nrows as int, a.spec_nnz() as int),
{
    let rp = r.row_pointers@;
    lemma_rows_below(a);
    crate::solver::label_sort::lemma_start_zero(a.row_indices@, 0);
    assert forall|i1: int, i2: int| 0 <= i1 <= i2 <= a.dim.nrows implies #[trigger] rp[i1] <= #[trigger] rp[i2] by {
        lemma_start_mono(a.row_indices@, a.spec_nnz() as int, i1, i2);
    }
}

#[verifier::rlimit(40)]
proof fn lemma_csr_rows<V>(a: &CscMatrix<V>, r: &CsrMatrix<V>)
    requires
        csc_ok(a),
        csr_placed(a, r),
    ensures
        crate::solver::matrix::csc::columns_sorted(r.row_pointers@, r.column_indices@, a.dim.nrows as int, a.dim.ncols as int),
{
    let m = a.dim.nrows as int;
    let nnz = a.spec_nnz() as int;
    let ri = a.row_indices@;
    let rp = r.row_pointers@;
    let ci = r.column_indices@;
    assert forall|i: int, k: int| 0 <= i < m && rp[i] <= k < rp[i + 1] implies #[trigger] ci[k] < a.dim.ncols
        && #[trigger] rp[i] == rp[i] by {
        let p = lemma_place_source(a, r, i, k);
        let j = lemma_column_of(a, p);
        assert(a.column_pointers@[j] == a.column_pointers@[j]);
    }
    assert forall|i: int, k1: int, k2: int| 0 <= i < m && rp[i] <= k1 < k2 < rp[i + 1] implies #[trigger] ci[k1]
        < #[trigger] ci[k2] && #[trigger] rp[i] == rp[i] by {
        let p1 = lemma_place_source(a, r, i, k1);
        let p2 = lemma_place_source(a, r, i, k2);
        let j1 = lemma_column_of(a, p1);
        let j2 = lemma_column_of(a, p2);
        assert(a.column_pointers@[j1] == a.column_pointers@[j1]);
        assert(a.column_pointers@[j2] == a.column_pointers@[j2]);
        reveal(label_pos);
        if p2 < p1 {
            lemma_count_strict(ri, i, p2, p1);
        }
        lemma_columns_ascend(a, p1, j1, p2, j2);
    }
}

#[verifier::rlimit(40)]
proof fn lemma_csr_entries<V>(a: &CscMatrix<V>, r: &CsrMatrix<V>, i: int, j: int)
    requires
        csc_ok(a),
        csr_placed(a, r),
        0 <= i < a.dim.nrows,
        0 <= j < a.dim.ncols,
    ensures
        r.has_entry(i, j) <==> a.has_entry(i, j),
{
    let m = a.dim.nrows as int;
    let nnz = a.spec_nnz() as int;
    let ri = a.row_indices@;
    let cp = a.column_pointers@;
    let rp = r.row_pointers@;
    let ci = r.column_indices@;
    if r.has_entry(i, j) {
        let k = choose|k: int| rp[i] <= k < rp[i + 1] && #[trigger] ci[k] == j;
        let p = lemma_place_source(a, r, i, k);
        let jp = lemma_column_of(a, p);
        assert(cp[jp] == cp[jp]);
        assert(ci[label_pos(ri, nnz, p)] == jp);
        assert(cp[j] <= p < cp[j + 1] && ri[p] == i);
    }
    if a.has_entry(i, j) {
        let p = choose|p: int| cp[j] <= p < cp[j + 1] && #[trigger] ri[p] == i;
        lemma_csc_pointers(a, j);
        lemma_rows_below(a);
        lemma_pos_range(ri, nnz, p);
        lemma_start_mono(ri, nnz, i + 1, m);
        let k = label_pos(ri, nnz, p);
        assert(ci[k] == j);
        assert(rp[i] <= k < rp[i + 1]);
    }
}

/// The rows of a matrix placed by a counting sort on the row index form its
/// compressed sparse row form.
proof fn lemma_csr_result<V>(a: &CscMatrix<V>, r: &CsrMatrix<V>)
    requires
        a.wf(),
        csr_placed(a, r),
    ensures
        r.wf(),
        forall|i: int, j: int| 0 <= i < a.dim.nrows && 0 <= j < a.dim.ncols ==> (r.has_entry(i, j) <==> a.has_entry(i, j)),
{
    assert(csc_ok(a)) by {
        reveal(csc_ok);
    }
    lemma_csr_pointers(a, r);
    lemma_csr_rows(a, r);
    assert forall|i: int, j: int| 0 <= i < a.dim.nrows && 0 <= j < a.dim.ncols implies (r.has_entry(i, j) <==> a.has_entry(i, j)) by {
        lemma_csr_entries(a, r, i, j);
    }
}

/// Each stored entry of `a`, at position `p` of column `j`, has its column
/// and value at place `label_pos(p)` of `r`: the places of row `i` follow
/// those of the rows before it, in increasing position order.
pub open spec fn csr_entries_placed<V>(a: &CscMatrix<V>, r: &CsrMatrix<V>) -> bool {
    forall|j: int, p: int|
        #![trigger r.column_indices@[label_pos(a.row_indices@, a.spec_nnz() as int, p)], a.column_pointers@[j]]
        0 <= j < a.dim.ncols && a.column_pointers@[j] <= p < a.column_pointers@[j + 1] ==> r.column_indices@[label_pos(
            a.row_indices@,
            a.spec_nnz() as int,
            p,
        )] == j && r.values@[label_pos(a.row_indices@, a.spec_nnz() as int, p)] == a.values@[p]
}

/// The placed rows of `a` are its compressed sparse row form, with each
/// entry's column and value at its place.
proof fn lemma_transpose_done<V>(a: &CscMatrix<V>, r: &CsrMatrix<V>)
    requires
        a.wf(),
        r.dim == a.dim,
        r.row_pointers@.len() == a.dim.nrows + 1,
        r.column_indices@.len() == a.spec_nnz(),
        r.values@.len() == a.spec_nnz(),
        forall|i: int| 0 <= i <= a.dim.nrows ==> #[trigger] r.row_pointers@[i] == label_start(a.row_indices@, a.spec_nnz() as int, i),
        csr_entries_placed(a, r),
    ensures
        r.wf(),
        forall|i: int, j: int| 0 <= i < a.dim.nrows && 0 <= j < a.dim.ncols ==> (r.has_entry(i, j) <==> a.has_entry(i, j)),
        csr_entries_placed(a, r),
{
    lemma_csr_result(a, r);
}

impl<V: Copy> CscMatrix<V> {
    /// The same matrix in compressed sparse row form: the entries of row `i`
    /// in increasing column order, each with its value.
    #[verifier::rlimit(60)]
    pub fn transpose_to_csr(&self) -> (r: CsrMatrix<V>)
        requires
            self.wf(),
            self.dim.nrows < usize::MAX,
        ensures
            r.wf(),
            r.dim == self.dim,
            forall|i: int, j: int| 0 <= i < self.dim.nrows && 0 <= j < self.dim.ncols ==> (r.has_entry(i, j) <==> self.has_entry(i, j)),
            forall|i: int| 0 <= i <= self.dim.nrows ==> #[trigger] r.row_pointers@[i] == label_start(self.row_indices@, self.spec_nnz() as int, i),
            csr_entries_placed(self, &r),
    {
        let m = self.dim.nrows;
        let n = self.dim.ncols;
        let nnz = self.nnz();
        let ghost ri = self.row_indices@;
        let ghost cp = self.column_pointers@;
        proof {
            assert(csc_ok(self)) by {
                reveal(csc_ok);
            }
            lemma_rows_below(self);
        }
        // count the entries of each row
        let mut rp: Vec<usize> = vec![0usize; m + 1];
        let mut p: usize = 0;
        while p < nnz
            invariant
                p <= nnz,
                nnz == ri.len(),
                ri == self.row_indices@,
                rp@.len() == m + 1,
                rp@[0] == 0,
                forall|q: int| 0 <= q < nnz ==> #[trigger] ri[q] < m,
                forall|k: int| 1 <= k <= m ==> #[trigger] rp@[k] == count_label(ri, k - 1, p as int),
            decreases nnz - p,
        {
            let r = self.row_indices[p];
            proof {
                lemma_count_mono(ri, r as int, 0, p as int);
            }
            rp.set(r + 1, rp[r + 1] + 1);
            proof {
                assert forall|k: int| 1 <= k <= m implies #[trigger] rp@[k] == count_label(ri, k - 1, p + 1) by {
                    if k != r + 1 {
                        assert(rp@[k] == count_label(ri, k - 1, p as int));
                    }
                }
            }
            p = p + 1;
        }
        // prefix sums: the first place of each row
        let mut i: usize = 0;
        while i < m
            invariant
                i <= m,
                nnz == ri.len(),
                rp@.len() == m + 1,
                label_start(ri, nnz as int, m as int) == nnz,
                forall|k: int| 0 <= k <= i ==> #[trigger] rp@[k] == label_start(ri, nnz as int, k),
                forall|k: int| i < k <= m ==> #[trigger] rp@[k] == count_label(ri, k - 1, nnz as int),
            decreases m - i,
        {
            proof {
                lemma_start_mono(ri, nnz as int, i + 1, m as int);
            }
            let s = rp[i + 1] + rp[i];
            rp.set(i + 1, s);
            i = i + 1;
        }
        // the next free place of each row
        let mut next: Vec<usize> = Vec::new();
        let mut i: usize = 0;
        while i < m
            invariant
                i <= m,
                rp@.len() == m + 1,
                next@.len() == i,
                forall|k: int| 0 <= k < i ==> #[trigger] next@[k] == rp@[k],
            decreases m - i,
        {
            next.push(rp[i]);
            i = i + 1;
        }
        let mut ci: Vec<usize> = vec![0usize; nnz];
        let mut cx: Vec<V> = Vec::new();
        let mut p: usize = 0;
        while p < nnz
            invariant
                p <= nnz,
                nnz == self.values@.len(),
                cx@.len() == p,
                forall|q: int| 0 <= q < p ==> #[trigger] cx@[q] == self.values@[q],
            decreases nnz - p,
        {
            cx.push(self.values[p]);
            p = p + 1;
        }
        let mut j: usize = 0;
        while j < n
            invariant
                j <= n,
                n == self.dim.ncols,
                csc_ok(self),
                nnz == ri.len(),
                ri == self.row_indices@,
                cp == self.column_pointers@,
                forall|q: int| 0 <= q < nnz ==> #[trigger] ri[q] < m,
                label_start(ri, nnz as int, m as int) == nnz,
                next@.len() == m,
                ci@.len() == nnz,
                cx@.len() == nnz,
                self.values@.len() == nnz,
                j < n ==> cp[j as int] <= nnz,
                forall|k: int| 0 <= k < m ==> #[trigger] next@[k] == label_start(ri, nnz as int, k) + count_label(ri, k, cp[j as int] as int),
                forall|jj: int, q: int|
                    #![trigger ci@[label_pos(ri, nnz as int, q)], cp[jj]]
                    0 <= jj < j && cp[jj] <= q < cp[jj + 1] ==> ci@[label_pos(ri, nnz as int, q)] == jj && cx@[label_pos(
                        ri,
                        nnz as int,
                        q,
                    )] == self.values@[q],
            decreases n - j,
        {
            proof {
                lemma_csc_pointers(self, j as int);
            }
            let end = self.col_end(j);
            let mut p = self.col_start(j);
            proof {
                lemma_csc_pointers(self, j as int);
            }
            while p < end
                invariant
                    cp[j as int] <= p <= end,
                    end == cp[j + 1],
                    end <= nnz,
                    j < n,
                    n == self.dim.ncols,
                    csc_ok(self),
                    nnz == ri.len(),
                    ri == self.row_indices@,
                    cp == self.column_pointers@,
                    forall|q: int| 0 <= q < nnz ==> #[trigger] ri[q] < m,
                    label_start(ri, nnz as int, m as int) == nnz,
                    next@.len() == m,
                    ci@.len() == nnz,
                    cx@.len() == nnz,
                    self.values@.len() == nnz,
                    forall|k: int| 0 <= k < m ==> #[trigger] next@[k] == label_start(ri, nnz as int, k) + count_label(ri, k, p as int),
                    forall|jj: int, q: int|
                        #![trigger ci@[label_pos(ri, nnz as int, q)], cp[jj]]
                        0 <= jj < j && cp[jj] <= q < cp[jj + 1] ==> ci@[label_pos(ri, nnz as int, q)] == jj && cx@[label_pos(
                            ri,
                            nnz as int,
                            q,
                        )] == self.values@[q],
                    forall|q: int|
                        cp[j as int] <= q < p ==> #[trigger] ci@[label_pos(ri, nnz as int, q)] == j && cx@[label_pos(ri, nnz as int, q)]
                            == self.values@[q],
                decreases end - p,
            {
                let r = self.row_indices[p];
                let k = next[r];
                proof {
                    lemma_pos_range(ri, nnz as int, p as int);
                    lemma_start_mono(ri, nnz as int, r + 1, m as int);
                    reveal(label_pos);
                    assert(k == label_pos(ri, nnz as int, p as int));
                }
                let ghost ci0 = ci@;
                let ghost cx0 = cx@;
                ci.set(k, j);
                cx.set(k, self.values[p]);
                next.set(r, k + 1);
                proof {
                    assert forall|q: int| 0 <= q < p && cp[0] <= q implies label_pos(ri, nnz as int, q) != k by {
                        lemma_pos_distinct(ri, nnz as int, q, p as int);
                    }
                    assert forall|jj: int, q: int|
                        #![trigger ci@[label_pos(ri, nnz as int, q)], cp[jj]]
                        0 <= jj < j && cp[jj] <= q < cp[jj + 1] implies ci@[label_pos(ri, nnz as int, q)] == jj && cx@[label_pos(
                            ri,
                            nnz as int,
                            q,
                        )] == self.values@[q] by {
                        lemma_csc_mono(self, jj + 1, j as int);
                        lemma_pos_distinct(ri, nnz as int, q, p as int);
                        lemma_pos_range(ri, nnz as int, q);
                        lemma_start_mono(ri, nnz as int, ri[q] + 1, m as int);
                        assert(ci0[label_pos(ri, nnz as int, q)] == jj);
                    }
                    assert forall|kk: int| 0 <= kk < m implies #[trigger] next@[kk] == label_start(ri, nnz as int, kk) + count_label(ri, kk, p + 1) by {
                        if kk != r {
                            assert(next@[kk] == label_start(ri, nnz as int, kk) + count_label(ri, kk, p as int));
                        }
                    }
                }
                let ghost p0 = p as int;
                p = p + 1;
                proof {
                    assert(ci@[label_pos(ri, nnz as int, p0)] == j && cx@[label_pos(ri, nnz as int, p0)] == self.values@[p0]);
                    assert forall|q: int|
                        cp[j as int] <= q < p implies #[trigger] ci@[label_pos(ri, nnz as int, q)] == j && cx@[label_pos(ri, nnz as int, q)]
                            == self.values@[q] by {
                        if q < p0 {
                            lemma_pos_distinct(ri, nnz as int, q, p0);
                            lemma_pos_range(ri, nnz as int, q);
                            lemma_start_mono(ri, nnz as int, ri[q] + 1, m as int);
                            assert(ci0[label_pos(ri, nnz as int, q)] == j);
                            assert(cx0[label_pos(ri, nnz as int, q)] == self.values@[q]);
                        }
                    }
                }
            }
            proof {
                assert forall|jj: int, q: int|
                    #![trigger ci@[label_pos(ri, nnz as int, q)], cp[jj]]
                    0 <= jj < j + 1 && cp[jj] <= q < cp[jj + 1] implies ci@[label_pos(ri, nnz as int, q)] == jj && cx@[label_pos(
                        ri,
                        nnz as int,
                        q,
                    )] == self.values@[q] by {
                    if jj == j {
                        assert(ci@[label_pos(ri, nnz as int, q)] == j);
                    }
                }
                if j + 1 < n {
                    lemma_csc_pointers(self, j + 1);
                }
            }
            j = j + 1;
        }
        let r = CsrMatrix { dim: self.dim, row_pointers: rp, column_indices: ci, values: cx };
        proof {
            lemma_transpose_done(self, &r);
        }
        r
    }
}

} // verus!
