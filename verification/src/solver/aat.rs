use vstd::prelude::*;

use crate::solver::matrix::csc::CscMatrix;
use crate::solver::matrix::transpose::csc_ok;
use crate::solver::matrix::transpose::lemma_csc_pointers;

verus! {

// The pattern of A + A^T without its diagonal, for a square matrix A in
// compressed sparse column form. Each column is scanned once: its entries
// above the diagonal in order, and, for each such entry (row, col), the
// entries of column `row` below the diagonal up to row `col`; what remains
// below the diagonal is taken at the end. Every off-diagonal pair {i, j} of
// A + A^T is met exactly once.

/// Rows `i` and `j` are neighbours in A + A^T (off the diagonal).
pub open spec fn aat_pair<V>(a: &CscMatrix<V>, i: int, j: int) -> bool {
    i != j && (a.has_entry(i, j) || a.has_entry(j, i))
}

/// The neighbours of `v` in A + A^T.
pub open spec fn aat_neighbors<V>(a: &CscMatrix<V>, v: int) -> Set<int> {
    Set::new(|u: int| 0 <= u < a.dim.ncols && aat_pair(a, u, v))
}

/// The rows `i < j` for which both `(i, j)` and `(j, i)` are stored.
pub open spec fn both_rows<V>(a: &CscMatrix<V>, j: int) -> Set<int> {
    Set::new(|i: int| 0 <= i < j && a.has_entry(i, j) && a.has_entry(j, i))
}

/// The diagonal entries stored in the columns below `c`.
pub open spec fn diagonal_before<V>(a: &CscMatrix<V>, c: int) -> Set<int> {
    Set::new(|k: int| 0 <= k < c && a.has_entry(k, k))
}

/// The progress of the scan: columns below `c` are done; in column `c` the
/// entries above the diagonal in rows below `ub` are done; in column `k`
/// the entries below the diagonal in rows up to `mb[k]` are done.
pub struct AatScan {
    pub c: int,
    pub ub: int,
    pub mb: Seq<int>,
}

/// The entry `(i, j)` above the diagonal has been met.
pub open spec fn upper_done(s: AatScan, i: int, j: int) -> bool {
    j < s.c || (j == s.c && i < s.ub)
}

/// The pair `{i, j}`, `i < j`, has been met.
pub open spec fn met<V>(a: &CscMatrix<V>, s: AatScan, i: int, j: int) -> bool {
    (a.has_entry(i, j) && upper_done(s, i, j)) || (a.has_entry(j, i) && j <= s.mb[i])
}

/// The neighbours of `v` met so far.
pub open spec fn met_neighbors<V>(a: &CscMatrix<V>, s: AatScan, v: int) -> Set<int> {
    Set::new(
        |u: int|
            0 <= u < a.dim.ncols && u != v && (if u < v {
                met(a, s, u, v)
            } else {
                met(a, s, v, u)
            }),
    )
}

/// The pairs met with both entries stored, in column `j`.
pub open spec fn both_met<V>(a: &CscMatrix<V>, s: AatScan, j: int) -> Set<int> {
    Set::new(|i: int| 0 <= i < j && a.has_entry(i, j) && a.has_entry(j, i) && upper_done(s, i, j))
}

/// `p` is the first position of column `k` whose row is above `bound` (or
/// the end of the column).
pub open spec fn first_above<V>(a: &CscMatrix<V>, k: int, bound: int, p: int) -> bool {
    let cp = a.column_pointers@;
    &&& cp[k] <= p <= cp[k + 1]
    &&& forall|q: int| cp[k] <= q < p ==> #[trigger] a.row_indices@[q] <= bound
    &&& p < cp[k + 1] ==> a.row_indices@[p] > bound
}

/// What holds throughout the scan, with `last[k]` the scan position of the
/// entries of column `k` below the diagonal.
pub open spec fn scan_inv<V>(a: &CscMatrix<V>, s: AatScan, last: Seq<isize>) -> bool {
    let n = a.dim.ncols as int;
    &&& 0 <= s.c <= n
    &&& 0 <= s.ub <= n
    &&& s.mb.len() == n
    &&& last.len() >= n
    &&& forall|k: int|
        0 <= k < s.c ==> k <= #[trigger] s.mb[k] <= n && (s.mb[k] >= s.c ==> (s.c == n || (s.mb[k] == s.c && k < s.ub)))
            && first_above(a, k, s.mb[k], last[k] as int)
    &&& forall|k: int| s.c <= k < n ==> #[trigger] s.mb[k] == k
    &&& forall|i: int, j: int|
        0 <= i < j < n && #[trigger] a.has_entry(i, j) && upper_done(s, i, j) ==> #[trigger] s.mb[i] >= j
}

/// The entries of a column are below the number of rows and strictly
/// increasing.
proof fn lemma_sorted<V>(a: &CscMatrix<V>, k: int, p: int, q: int)
    requires
        csc_ok(a),
        0 <= k < a.dim.ncols,
        a.column_pointers@[k] <= p < a.column_pointers@[k + 1],
        a.column_pointers@[k] <= q < a.column_pointers@[k + 1],
    ensures
        a.row_indices@[p] < a.dim.nrows,
        p < q ==> a.row_indices@[p] < a.row_indices@[q],
{
    reveal(csc_ok);
    assert(a.column_pointers@[k] == a.column_pointers@[k]);
}

/// A row of column `k` lies at some position of it.
proof fn lemma_entry_at<V>(a: &CscMatrix<V>, i: int, k: int) -> (p: int)
    requires
        a.has_entry(i, k),
    ensures
        a.column_pointers@[k] <= p < a.column_pointers@[k + 1],
        a.row_indices@[p] == i,
{
    choose|p: int| a.column_pointers@[k] <= p < a.column_pointers@[k + 1] && #[trigger] a.row_indices@[p] == i
}

/// Column `k` has no entry with a row in `(bound, next)`, when `p` is its first
/// position above `bound` and `next` is the row there (or the end).
proof fn lemma_gap<V>(a: &CscMatrix<V>, k: int, bound: int, p: int, j: int)
    requires
        csc_ok(a),
        0 <= k < a.dim.ncols,
        first_above(a, k, bound, p),
        bound < j,
        p == a.column_pointers@[k + 1] || j < a.row_indices@[p],
    ensures
        !a.has_entry(j, k),
{
    if a.has_entry(j, k) {
        let q = lemma_entry_at(a, j, k);
        if q < p {
            assert(a.row_indices@[q] <= bound);
        } else if q > p {
            lemma_sorted(a, k, p, q);
        }
    }
}

/// The state after consuming the next entry below the diagonal in column
/// `row`, at row `rr`: the pair `{row, rr}` is met.
pub open spec fn consume_state(s: AatScan, row: int, rr: int) -> AatScan {
    AatScan { mb: s.mb.update(row, rr), ..s }
}

proof fn lemma_consume<V>(a: &CscMatrix<V>, s: AatScan, last: Seq<isize>, row: int)
    requires
        csc_ok(a),
        a.dim.nrows == a.dim.ncols,
        scan_inv(a, s, last),
        0 <= row < s.c,
        last[row] < a.column_pointers@[row + 1],
        a.row_indices@[last[row] as int] < s.c || s.c == a.dim.ncols,
        a.spec_nnz() <= isize::MAX,
    ensures
        ({
            let rr = a.row_indices@[last[row] as int] as int;
            let s2 = consume_state(s, row, rr);
            &&& row < rr < a.dim.ncols
            &&& scan_inv(a, s2, last.update(row, (last[row] + 1) as isize))
            &&& !met(a, s, row, rr)
            &&& forall|i: int, j: int| 0 <= i < j < a.dim.ncols ==> #[trigger] met(a, s2, i, j) == (met(a, s, i, j) || (i == row && j == rr))
            &&& forall|j: int| #[trigger] both_met(a, s2, j) == both_met(a, s, j)
        }),
{
    let n = a.dim.ncols as int;
    let p = last[row] as int;
    let rr = a.row_indices@[p] as int;
    let s2 = consume_state(s, row, rr);
    let last2 = last.update(row, (p + 1) as isize);
    assert(first_above(a, row, s.mb[row], p));
    lemma_csc_pointers(a, row);
    assert(last2[row] as int == p + 1);
    lemma_sorted(a, row, p, p);
    assert(row < rr < n);
    assert(first_above(a, row, rr, p + 1)) by {
        if p + 1 < a.column_pointers@[row + 1] {
            lemma_sorted(a, row, p, p + 1);
        }
    }
    assert(!met(a, s, row, rr)) by {
        if a.has_entry(row, rr) && upper_done(s, row, rr) {
            assert(s.mb[row] >= rr);
        }
    }
    assert forall|i: int, j: int| 0 <= i < j < n implies #[trigger] met(a, s2, i, j) == (met(a, s, i, j) || (i == row && j == rr)) by {
        if i == row && j != rr && a.has_entry(j, i) && s.mb[row] < j <= rr {
            lemma_gap(a, row, s.mb[row], p, j);
        }
        if i == row && j == rr {
            assert(a.row_indices@[p] == rr);
            assert(a.has_entry(rr, row));
        }
    }
    assert forall|j: int| #[trigger] both_met(a, s2, j) == both_met(a, s, j) by {
        assert(both_met(a, s2, j) =~= both_met(a, s, j));
    }
    assert(scan_inv(a, s2, last2)) by {
        assert forall|k: int|
            0 <= k < s2.c implies k <= #[trigger] s2.mb[k] <= n && (s2.mb[k] >= s2.c ==> (s2.c == n || (s2.mb[k] == s2.c
                && k < s2.ub))) && first_above(a, k, s2.mb[k], last2[k] as int) by {
            if k != row {
                assert(s2.mb[k] == s.mb[k]);
            }
        }
        assert forall|i: int, j: int|
            0 <= i < j < n && #[trigger] a.has_entry(i, j) && upper_done(s2, i, j) implies #[trigger] s2.mb[i] >= j by {
            assert(s.mb[i] >= j);
        }
    }
}

/// The state after finishing the entry `(row, c)` above the diagonal: its
/// pair is met, and column `row` is done below the diagonal up to row `c`.
pub open spec fn finish_upper_state(s: AatScan, row: int) -> AatScan {
    AatScan { ub: row + 1, mb: s.mb.update(row, s.c), ..s }
}

proof fn lemma_finish_upper<V>(a: &CscMatrix<V>, s: AatScan, last: Seq<isize>, row: int, lastpos: int)
    requires
        csc_ok(a),
        a.dim.nrows == a.dim.ncols,
        scan_inv(a, s, last),
        0 <= row < s.c,
        s.c < a.dim.ncols,
        s.ub <= row,
        a.has_entry(row, s.c),
        forall|i: int| s.ub <= i < row ==> !#[trigger] a.has_entry(i, s.c),
        last[row] == a.column_pointers@[row + 1] || a.row_indices@[last[row] as int] >= s.c,
        lastpos == (if last[row] < a.column_pointers@[row + 1] && a.row_indices@[last[row] as int] == s.c {
            last[row] + 1
        } else {
            last[row] as int
        }),
        lastpos <= isize::MAX,
    ensures
        ({
            let s2 = finish_upper_state(s, row);
            &&& scan_inv(a, s2, last.update(row, lastpos as isize))
            &&& !met(a, s, row, s.c)
            &&& forall|i: int, j: int| 0 <= i < j < a.dim.ncols ==> #[trigger] met(a, s2, i, j) == (met(a, s, i, j) || (i == row && j == s.c))
            &&& forall|j: int| j != s.c ==> #[trigger] both_met(a, s2, j) == both_met(a, s, j)
            &&& both_met(a, s2, s.c) == (if a.has_entry(s.c, row) {
                both_met(a, s, s.c).insert(row)
            } else {
                both_met(a, s, s.c)
            })
            &&& (lastpos == last[row] + 1) == a.has_entry(s.c, row)
        }),
{
    let n = a.dim.ncols as int;
    let c = s.c;
    let p0 = last[row] as int;
    let s2 = finish_upper_state(s, row);
    let last2 = last.update(row, lastpos as isize);
    assert(first_above(a, row, s.mb[row], p0));
    assert(s.mb[row] < c);
    assert(first_above(a, row, c, lastpos)) by {
        if p0 < a.column_pointers@[row + 1] && a.row_indices@[p0] == c {
            if lastpos < a.column_pointers@[row + 1] {
                lemma_sorted(a, row, p0, lastpos);
            }
        }
    }
    assert((lastpos == p0 + 1) == a.has_entry(c, row)) by {
        if a.has_entry(c, row) && !(p0 < a.column_pointers@[row + 1] && a.row_indices@[p0] == c) {
            lemma_gap(a, row, s.mb[row], p0, c);
        }
        if p0 < a.column_pointers@[row + 1] && a.row_indices@[p0] == c {
            lemma_sorted(a, row, p0, p0);
            assert(a.has_entry(c, row));
        }
    }
    assert(!met(a, s, row, c));
    assert forall|i: int, j: int| 0 <= i < j < n implies #[trigger] met(a, s2, i, j) == (met(a, s, i, j) || (i == row && j == c)) by {
        if i == row && j != c && a.has_entry(j, i) && s.mb[row] < j <= c {
            lemma_gap(a, row, s.mb[row], p0, j);
        }
        if j == c && s.ub <= i < row && a.has_entry(i, j) {
            assert(!a.has_entry(i, c));
        }
    }
    assert forall|j: int| j != c implies #[trigger] both_met(a, s2, j) == both_met(a, s, j) by {
        assert(both_met(a, s2, j) =~= both_met(a, s, j));
    }
    assert(both_met(a, s2, c) =~= (if a.has_entry(c, row) {
        both_met(a, s, c).insert(row)
    } else {
        both_met(a, s, c)
    })) by {
        assert forall|i: int| s.ub <= i < row implies !#[trigger] a.has_entry(i, c) by {}
    }
    assert(scan_inv(a, s2, last2)) by {
        assert forall|k: int|
            0 <= k < s2.c implies k <= #[trigger] s2.mb[k] <= n && (s2.mb[k] >= s2.c ==> (s2.c == n || (s2.mb[k] == s2.c
                && k < s2.ub))) && first_above(a, k, s2.mb[k], last2[k] as int) by {
            if k != row {
                assert(s2.mb[k] == s.mb[k]);
            }
        }
        assert forall|i: int, j: int|
            0 <= i < j < n && #[trigger] a.has_entry(i, j) && upper_done(s2, i, j) implies #[trigger] s2.mb[i] >= j by {
            if i != row && !(j == c && s.ub <= i) {
                assert(s.mb[i] >= j);
            }
            if j == c && s.ub <= i < row {
                assert(!a.has_entry(i, c));
            }
        }
    }
}

/// The state after finishing column `c`.
pub open spec fn column_done_state(s: AatScan) -> AatScan {
    AatScan { c: s.c + 1, ub: 0, mb: s.mb }
}

proof fn lemma_column_done<V>(a: &CscMatrix<V>, s: AatScan, last: Seq<isize>, pos: int)
    requires
        csc_ok(a),
        a.dim.nrows == a.dim.ncols,
        scan_inv(a, s, last),
        s.c < a.dim.ncols,
        first_above(a, s.c, s.c, pos),
        forall|i: int| s.ub <= i < s.c ==> !#[trigger] a.has_entry(i, s.c),
        pos <= isize::MAX,
    ensures
        ({
            let s2 = column_done_state(s);
            &&& scan_inv(a, s2, last.update(s.c, pos as isize))
            &&& forall|i: int, j: int| 0 <= i < j < a.dim.ncols ==> #[trigger] met(a, s2, i, j) == met(a, s, i, j)
            &&& forall|j: int| #[trigger] both_met(a, s2, j) == both_met(a, s, j)
        }),
{
    let n = a.dim.ncols as int;
    let c = s.c;
    let s2 = column_done_state(s);
    let last2 = last.update(c, pos as isize);
    assert forall|i: int, j: int| 0 <= i < j < n implies #[trigger] met(a, s2, i, j) == met(a, s, i, j) by {
        if j == c && s.ub <= i && a.has_entry(i, j) {
            assert(!a.has_entry(i, c));
        }
    }
    assert forall|j: int| #[trigger] both_met(a, s2, j) == both_met(a, s, j) by {
        assert forall|i: int| s.ub <= i < c implies !#[trigger] a.has_entry(i, s.c) by {}
        assert(both_met(a, s2, j) =~= both_met(a, s, j));
    }
    assert(scan_inv(a, s2, last2)) by {
        assert forall|k: int|
            0 <= k < s2.c implies k <= #[trigger] s2.mb[k] <= n && (s2.mb[k] >= s2.c ==> (s2.c == n || (s2.mb[k] == s2.c
                && k < s2.ub))) && first_above(a, k, s2.mb[k], last2[k] as int) by {
            if k < c {
                assert(s.mb[k] <= c);
            } else {
                assert(s.mb[k] == k);
            }
        }
        assert forall|i: int, j: int|
            0 <= i < j < n && #[trigger] a.has_entry(i, j) && upper_done(s2, i, j) implies #[trigger] s2.mb[i] >= j by {
            if j == c && s.ub <= i {
                assert(!a.has_entry(i, c));
            }
        }
    }
}

/// Meeting a new pair `{x, y}` adds one neighbour to each of `x` and `y`.
proof fn lemma_neighbors_grow<V>(a: &CscMatrix<V>, s: AatScan, s2: AatScan, x: int, y: int, v: int)
    requires
        0 <= x < y < a.dim.ncols,
        0 <= v < a.dim.ncols,
        !met(a, s, x, y),
        forall|i: int, j: int| 0 <= i < j < a.dim.ncols ==> #[trigger] met(a, s2, i, j) == (met(a, s, i, j) || (i == x && j == y)),
    ensures
        met_neighbors(a, s, v).finite(),
        met_neighbors(a, s2, v).len() <= a.dim.ncols,
        met_neighbors(a, s2, v).len() == met_neighbors(a, s, v).len() + (if v == x || v == y {
            1int
        } else {
            0int
        }),
{
    let n = a.dim.ncols as int;
    vstd::set_lib::lemma_int_range(0, n);
    assert(met_neighbors(a, s, v).subset_of(vstd::set_lib::set_int_range(0, n)));
    vstd::set_lib::lemma_len_subset(met_neighbors(a, s, v), vstd::set_lib::set_int_range(0, n));
    assert(met_neighbors(a, s2, v).subset_of(vstd::set_lib::set_int_range(0, n)));
    vstd::set_lib::lemma_len_subset(met_neighbors(a, s2, v), vstd::set_lib::set_int_range(0, n));
    if v == x {
        assert(met_neighbors(a, s2, v) =~= met_neighbors(a, s, v).insert(y));
    } else if v == y {
        assert(met_neighbors(a, s2, v) =~= met_neighbors(a, s, v).insert(x));
    } else {
        assert(met_neighbors(a, s2, v) =~= met_neighbors(a, s, v));
    }
}

/// Neighbour sets are unchanged when the met pairs are.
proof fn lemma_neighbors_same<V>(a: &CscMatrix<V>, s: AatScan, s2: AatScan, v: int)
    requires
        0 <= v < a.dim.ncols,
        forall|i: int, j: int| 0 <= i < j < a.dim.ncols ==> #[trigger] met(a, s2, i, j) == met(a, s, i, j),
    ensures
        met_neighbors(a, s2, v) == met_neighbors(a, s, v),
{
    assert forall|u: int| #[trigger] met_neighbors(a, s2, v).contains(u) <==> met_neighbors(a, s, v).contains(u) by {
        if u < v {
            if 0 <= u {
                assert(met(a, s2, u, v) == met(a, s, u, v));
            }
        } else if u > v {
            if u < a.dim.ncols && 0 <= v {
                assert(met(a, s2, v, u) == met(a, s, v, u));
            }
        }
    }
    assert(met_neighbors(a, s2, v) =~= met_neighbors(a, s, v));
}

/// The state before the scan.
pub open spec fn start_state(n: int) -> AatScan {
    AatScan { c: 0, ub: 0, mb: Seq::new(n as nat, |k: int| k) }
}

proof fn lemma_start<V>(a: &CscMatrix<V>, last: Seq<isize>)
    requires
        last.len() >= a.dim.ncols,
    ensures
        scan_inv(a, start_state(a.dim.ncols as int), last),
        forall|i: int, j: int| 0 <= i < j < a.dim.ncols ==> !#[trigger] met(a, start_state(a.dim.ncols as int), i, j),
        forall|v: int| 0 <= v < a.dim.ncols ==> #[trigger] met_neighbors(a, start_state(a.dim.ncols as int), v) == Set::<int>::empty(),
        forall|j: int| #[trigger] both_met(a, start_state(a.dim.ncols as int), j) == Set::<int>::empty(),
{
    let s = start_state(a.dim.ncols as int);
    assert forall|v: int| 0 <= v < a.dim.ncols implies #[trigger] met_neighbors(a, s, v) == Set::<int>::empty() by {
        assert(met_neighbors(a, s, v) =~= Set::<int>::empty());
    }
    assert forall|j: int| #[trigger] both_met(a, s, j) == Set::<int>::empty() by {
        assert(both_met(a, s, j) =~= Set::<int>::empty());
    }
}

/// The state after the entries of column `k` below the diagonal are all done.
pub open spec fn close_state(s: AatScan, k: int, n: int) -> AatScan {
    AatScan { mb: s.mb.update(k, n), ..s }
}

proof fn lemma_close<V>(a: &CscMatrix<V>, s: AatScan, last: Seq<isize>, k: int)
    requires
        csc_ok(a),
        a.dim.nrows == a.dim.ncols,
        scan_inv(a, s, last),
        s.c == a.dim.ncols,
        0 <= k < a.dim.ncols,
        last[k] == a.column_pointers@[k + 1],
    ensures
        scan_inv(a, close_state(s, k, a.dim.ncols as int), last),
        forall|i: int, j: int| 0 <= i < j < a.dim.ncols ==> #[trigger] met(a, close_state(s, k, a.dim.ncols as int), i, j) == met(a, s, i, j),
        forall|j: int| #[trigger] both_met(a, close_state(s, k, a.dim.ncols as int), j) == both_met(a, s, j),
{
    let n = a.dim.ncols as int;
    let s2 = close_state(s, k, n);
    assert(first_above(a, k, s.mb[k], last[k] as int));
    lemma_csc_pointers(a, k);
    assert forall|i: int, j: int| 0 <= i < j < n implies #[trigger] met(a, s2, i, j) == met(a, s, i, j) by {
        if i == k && a.has_entry(j, k) && s.mb[k] < j {
            lemma_gap(a, k, s.mb[k], last[k] as int, j);
        }
    }
    assert forall|j: int| #[trigger] both_met(a, s2, j) == both_met(a, s, j) by {
        assert(both_met(a, s2, j) =~= both_met(a, s, j));
    }
    assert(scan_inv(a, s2, last)) by {
        assert forall|kk: int|
            0 <= kk < s2.c implies kk <= #[trigger] s2.mb[kk] <= n && (s2.mb[kk] >= s2.c ==> (s2.c == n || (s2.mb[kk] == s2.c
                && kk < s2.ub))) && first_above(a, kk, s2.mb[kk], last[kk] as int) by {
            if kk != k {
                assert(s2.mb[kk] == s.mb[kk]);
            } else {
                assert(first_above(a, k, s.mb[k], last[k] as int));
                assert forall|q: int| a.column_pointers@[k] <= q < last[k] implies #[trigger] a.row_indices@[q] <= n by {
                    lemma_csc_pointers(a, k);
                    lemma_sorted(a, k, q, q);
                }
            }
        }
        assert forall|i: int, j: int|
            0 <= i < j < n && #[trigger] a.has_entry(i, j) && upper_done(s2, i, j) implies #[trigger] s2.mb[i] >= j by {
            assert(s.mb[i] >= j);
        }
    }
}

/// When every column is done, the met pairs are the pairs of A + A^T.
proof fn lemma_scan_complete<V>(a: &CscMatrix<V>, s: AatScan, last: Seq<isize>)
    requires
        scan_inv(a, s, last),
        s.c == a.dim.ncols,
        forall|k: int| 0 <= k < a.dim.ncols ==> #[trigger] s.mb[k] == a.dim.ncols,
    ensures
        forall|v: int| 0 <= v < a.dim.ncols ==> #[trigger] met_neighbors(a, s, v) == aat_neighbors(a, v),
        forall|j: int| 0 <= j < a.dim.ncols ==> #[trigger] both_met(a, s, j) == both_rows(a, j),
{
    let n = a.dim.ncols as int;
    assert forall|v: int| 0 <= v < n implies #[trigger] met_neighbors(a, s, v) == aat_neighbors(a, v) by {
        assert(met_neighbors(a, s, v) =~= aat_neighbors(a, v));
    }
    assert forall|j: int| 0 <= j < n implies #[trigger] both_met(a, s, j) == both_rows(a, j) by {
        assert(both_met(a, s, j) =~= both_rows(a, j));
    }
}

/// The sizes of the sets of met pairs with both entries, over columns below `k`.
pub open spec fn both_met_sum<V>(a: &CscMatrix<V>, s: AatScan, k: int) -> nat
    decreases k,
{
    if k <= 0 {
        0
    } else {
        both_met_sum(a, s, k - 1) + both_met(a, s, k - 1).len()
    }
}

/// The sizes of the sets of rows with both entries, over columns below `k`.
pub open spec fn both_sum<V>(a: &CscMatrix<V>, k: int) -> nat
    decreases k,
{
    if k <= 0 {
        0
    } else {
        both_sum(a, k - 1) + both_rows(a, k - 1).len()
    }
}

/// The sizes of the neighbour sets of the rows below `k`.
pub open spec fn aat_degree_sum<V>(a: &CscMatrix<V>, k: int) -> nat
    decreases k,
{
    if k <= 0 {
        0
    } else {
        aat_degree_sum(a, k - 1) + aat_neighbors(a, k - 1).len()
    }
}

/// The sum of the values of `s`.
pub open spec fn seq_sum(s: Seq<usize>) -> nat
    decreases s.len(),
{
    if s.len() == 0 {
        0
    } else {
        seq_sum(s.drop_last()) + s.last() as nat
    }
}

proof fn lemma_both_sum_same<V>(a: &CscMatrix<V>, s: AatScan, s2: AatScan, k: int)
    requires
        forall|j: int| #[trigger] both_met(a, s2, j) == both_met(a, s, j),
    ensures
        both_met_sum(a, s2, k) == both_met_sum(a, s, k),
    decreases k,
{
    if k > 0 {
        lemma_both_sum_same(a, s, s2, k - 1);
        assert(both_met(a, s2, k - 1) == both_met(a, s, k - 1));
    }
}

proof fn lemma_both_sum_insert<V>(a: &CscMatrix<V>, s: AatScan, s2: AatScan, c: int, row: int, k: int)
    requires
        0 <= row < c < k,
        forall|j: int| j != c ==> #[trigger] both_met(a, s2, j) == both_met(a, s, j),
        both_met(a, s2, c) == both_met(a, s, c).insert(row),
        !both_met(a, s, c).contains(row),
    ensures
        both_met_sum(a, s2, k) == both_met_sum(a, s, k) + 1,
    decreases k,
{
    if k - 1 > c {
        lemma_both_sum_insert(a, s, s2, c, row, k - 1);
        assert(both_met(a, s2, k - 1) == both_met(a, s, k - 1));
    } else {
        assert(k - 1 == c);
        assert forall|j: int| #[trigger] both_met(a, s2, j) == both_met(a, s, j) || j == c by {}
        lemma_both_sum_prefix(a, s, s2, c);
        vstd::set_lib::lemma_int_range(0, c);
        assert(both_met(a, s, c).subset_of(vstd::set_lib::set_int_range(0, c)));
        vstd::set_lib::lemma_len_subset(both_met(a, s, c), vstd::set_lib::set_int_range(0, c));
    }
}

proof fn lemma_both_sum_prefix<V>(a: &CscMatrix<V>, s: AatScan, s2: AatScan, k: int)
    requires
        forall|j: int| j < k ==> #[trigger] both_met(a, s2, j) == both_met(a, s, j),
    ensures
        both_met_sum(a, s2, k) == both_met_sum(a, s, k),
    decreases k,
{
    if k > 0 {
        lemma_both_sum_prefix(a, s, s2, k - 1);
        assert(both_met(a, s2, k - 1) == both_met(a, s, k - 1));
    }
}

proof fn lemma_both_sum_final<V>(a: &CscMatrix<V>, s: AatScan, k: int)
    requires
        forall|j: int| 0 <= j < k ==> #[trigger] both_met(a, s, j) == both_rows(a, j),
    ensures
        both_met_sum(a, s, k) == both_sum(a, k),
    decreases k,
{
    if k > 0 {
        lemma_both_sum_final(a, s, k - 1);
        assert(both_met(a, s, k - 1) == both_rows(a, k - 1));
    }
}

/// A neighbour set holds at most `n` rows.
proof fn lemma_neighbors_bound<V>(a: &CscMatrix<V>, s: AatScan, v: int)
    ensures
        met_neighbors(a, s, v).finite(),
        met_neighbors(a, s, v).len() <= a.dim.ncols,
{
    let n = a.dim.ncols as int;
    vstd::set_lib::lemma_int_range(0, n);
    assert(met_neighbors(a, s, v).subset_of(vstd::set_lib::set_int_range(0, n)));
    vstd::set_lib::lemma_len_subset(met_neighbors(a, s, v), vstd::set_lib::set_int_range(0, n));
}

/// Counts of the pattern of A + A^T: stored diagonal entries, pairs stored
/// on both sides of the diagonal, and off-diagonal entries of A + A^T.
#[derive(Debug, Clone, Copy, PartialEq, Eq, Structural)]
pub struct AatInfo {
    pub nz_diagonal: usize,
    pub nz_both: usize,
    pub nz_aat: usize,
}

/// The counts `lens[v]` of met neighbours, with one more for `extra_a` and
/// `extra_b` (an entry counted before its pair is recorded as met).
pub open spec fn lens_ok<V>(a: &CscMatrix<V>, s: AatScan, lens: Seq<usize>, extra_a: int, extra_b: int) -> bool {
    &&& lens.len() >= a.dim.ncols
    &&& forall|v: int| 0 <= v < a.dim.ncols ==> #[trigger] lens[v] == met_neighbors(a, s, v).len() + (if v == extra_a || v == extra_b {
        1int
    } else {
        0int
    })
}

/// Recording a met pair whose two counts were already raised.
proof fn lemma_lens_record<V>(a: &CscMatrix<V>, s: AatScan, s2: AatScan, lens: Seq<usize>, x: int, y: int)
    requires
        0 <= x < y < a.dim.ncols,
        !met(a, s, x, y),
        forall|i: int, j: int| 0 <= i < j < a.dim.ncols ==> #[trigger] met(a, s2, i, j) == (met(a, s, i, j) || (i == x && j == y)),
        lens_ok(a, s, lens, x, y),
    ensures
        lens_ok(a, s2, lens, -1, -1),
{
    assert forall|v: int| 0 <= v < a.dim.ncols implies #[trigger] lens[v] == met_neighbors(a, s2, v).len() + (if v == -1 || v
        == -1 {
        1int
    } else {
        0int
    }) by {
        lemma_neighbors_grow(a, s, s2, x, y, v);
    }
}

/// Raising the counts of `x` and `y` for a pair met now, while `ea`/`eb` are
/// still ahead.
proof fn lemma_lens_step<V>(
    a: &CscMatrix<V>,
    s: AatScan,
    s2: AatScan,
    lens: Seq<usize>,
    lens2: Seq<usize>,
    x: int,
    y: int,
    ea: int,
    eb: int,
)
    requires
        0 <= x < y < a.dim.ncols,
        !met(a, s, x, y),
        forall|i: int, j: int| 0 <= i < j < a.dim.ncols ==> #[trigger] met(a, s2, i, j) == (met(a, s, i, j) || (i == x && j == y)),
        lens_ok(a, s, lens, ea, eb),
        lens2.len() == lens.len(),
        forall|v: int| 0 <= v < lens.len() ==> #[trigger] lens2[v] == lens[v] + (if v == x || v == y {
            1int
        } else {
            0int
        }),
    ensures
        lens_ok(a, s2, lens2, ea, eb),
{
    assert forall|v: int| 0 <= v < a.dim.ncols implies #[trigger] lens2[v] == met_neighbors(a, s2, v).len() + (if v == ea || v
        == eb {
        1int
    } else {
        0int
    }) by {
        lemma_neighbors_grow(a, s, s2, x, y, v);
    }
}

/// The diagonal entries below `c + 1` are those below `c` and possibly `c`.
proof fn lemma_diag_step<V>(a: &CscMatrix<V>, c: int)
    requires
        0 <= c,
    ensures
        diagonal_before(a, c).finite(),
        diagonal_before(a, c).len() <= c,
        diagonal_before(a, c + 1).len() == diagonal_before(a, c).len() + (if a.has_entry(c, c) {
            1int
        } else {
            0int
        }),
{
    vstd::set_lib::lemma_int_range(0, c);
    assert(diagonal_before(a, c).subset_of(vstd::set_lib::set_int_range(0, c)));
    vstd::set_lib::lemma_len_subset(diagonal_before(a, c), vstd::set_lib::set_int_range(0, c));
    if a.has_entry(c, c) {
        assert(diagonal_before(a, c + 1) =~= diagonal_before(a, c).insert(c));
    } else {
        assert(diagonal_before(a, c + 1) =~= diagonal_before(a, c));
    }
}

/// Pairs met with both entries are pairs of A + A^T, so their count is at most
/// the sum of the neighbour counts.
proof fn lemma_both_bound<V>(a: &CscMatrix<V>, s: AatScan, k: int)
    requires
        0 <= k <= a.dim.ncols,
    ensures
        both_met_sum(a, s, k) <= aat_degree_sum(a, k),
    decreases k,
{
    if k > 0 {
        lemma_both_bound(a, s, k - 1);
        let j = k - 1;
        let n = a.dim.ncols as int;
        vstd::set_lib::lemma_int_range(0, n);
        assert(aat_neighbors(a, j).subset_of(vstd::set_lib::set_int_range(0, n)));
        vstd::set_lib::lemma_len_subset(aat_neighbors(a, j), vstd::set_lib::set_int_range(0, n));
        assert(both_met(a, s, j).subset_of(aat_neighbors(a, j)));
        vstd::set_lib::lemma_len_subset(both_met(a, s, j), aat_neighbors(a, j));
    }
}

/// The sum of a prefix of the counts.
proof fn lemma_sum_prefix<V>(a: &CscMatrix<V>, lens: Seq<usize>, k: int)
    requires
        0 <= k <= lens.len(),
        lens.len() >= a.dim.ncols,
        forall|v: int| 0 <= v < a.dim.ncols ==> #[trigger] lens[v] == aat_neighbors(a, v).len(),
        forall|v: int| a.dim.ncols <= v < lens.len() ==> #[trigger] lens[v] == 0,
    ensures
        seq_sum(lens.take(k)) == aat_degree_sum(a, if k < a.dim.ncols {
            k
        } else {
            a.dim.ncols as int
        }),
    decreases k,
{
    if k > 0 {
        lemma_sum_prefix(a, lens, k - 1);
        assert(lens.take(k).drop_last() =~= lens.take(k - 1));
    }
}

/// With no pair met, no pair with both entries is counted.
proof fn lemma_both_zero<V>(a: &CscMatrix<V>, s: AatScan, k: int)
    requires
        forall|j: int| #[trigger] both_met(a, s, j) == Set::<int>::empty(),
    ensures
        both_met_sum(a, s, k) == 0,
    decreases k,
{
    if k > 0 {
        lemma_both_zero(a, s, k - 1);
        assert(both_met(a, s, k - 1) == Set::<int>::empty());
    }
}

/// A pair of A + A^T with both entries, not met yet, leaves room for one
/// more in the count.
proof fn lemma_both_room<V>(a: &CscMatrix<V>, s: AatScan, row: int, col: int, k: int)
    requires
        0 <= row < col < k <= a.dim.ncols,
        !both_met(a, s, col).contains(row),
        a.has_entry(row, col),
    ensures
        both_met_sum(a, s, k) + 1 <= aat_degree_sum(a, k),
    decreases k,
{
    let n = a.dim.ncols as int;
    let j = k - 1;
    vstd::set_lib::lemma_int_range(0, n);
    assert(aat_neighbors(a, j).subset_of(vstd::set_lib::set_int_range(0, n)));
    vstd::set_lib::lemma_len_subset(aat_neighbors(a, j), vstd::set_lib::set_int_range(0, n));
    if j == col {
        lemma_both_bound(a, s, j);
        assert(both_met(a, s, j).insert(row).subset_of(aat_neighbors(a, j)));
        vstd::set_lib::lemma_len_subset(both_met(a, s, j).insert(row), aat_neighbors(a, j));
        assert(both_met(a, s, j).subset_of(aat_neighbors(a, j)));
        vstd::set_lib::lemma_len_subset(both_met(a, s, j), aat_neighbors(a, j));
    } else {
        lemma_both_room(a, s, row, col, k - 1);
        assert(both_met(a, s, j).subset_of(aat_neighbors(a, j)));
        vstd::set_lib::lemma_len_subset(both_met(a, s, j), aat_neighbors(a, j));
    }
}

/// The sum of the neighbour counts grows with the rows counted.
pub proof fn lemma_degree_mono<V>(a: &CscMatrix<V>, k1: int, k2: int)
    requires
        0 <= k1 <= k2,
    ensures
        aat_degree_sum(a, k1) <= aat_degree_sum(a, k2),
    decreases k2 - k1,
{
    if k1 < k2 {
        lemma_degree_mono(a, k1, k2 - 1);
    }
}

/// Counts the entries of each column of the pattern of A + A^T without its
/// diagonal: `column_lengths[v]` becomes the number of neighbours of `v`
/// (rows `u != v` with `(u, v)` or `(v, u)` stored), and the rest of the
/// slice 0. Also counts the stored diagonal entries, the pairs stored on
/// both sides of the diagonal, and the sum of the column counts.
/// `last_columns_positions` is a workspace.
pub fn aat_first_phase<V>(a: &CscMatrix<V>, column_lengths: &mut [usize], last_columns_positions: &mut [isize]) -> (info: AatInfo)
    requires
        a.wf(),
        a.dim.nrows == a.dim.ncols,
        a.dim.ncols <= isize::MAX,
        a.spec_nnz() <= isize::MAX,
        old(column_lengths)@.len() >= a.dim.ncols,
        old(last_columns_positions)@.len() >= a.dim.ncols,
        aat_degree_sum(a, a.dim.ncols as int) <= usize::MAX,
    ensures
        final(column_lengths)@.len() == old(column_lengths)@.len(),
        final(last_columns_positions)@.len() == old(last_columns_positions)@.len(),
        forall|v: int| 0 <= v < a.dim.ncols ==> #[trigger] final(column_lengths)@[v] == aat_neighbors(a, v).len(),
        forall|v: int| a.dim.ncols <= v < final(column_lengths)@.len() ==> #[trigger] final(column_lengths)@[v] == 0,
        info.nz_diagonal == diagonal_before(a, a.dim.ncols as int).len(),
        info.nz_both == both_sum(a, a.dim.ncols as int),
        info.nz_aat == aat_degree_sum(a, a.dim.ncols as int),
{
    let n = a.dim.ncols;
    let mut i: usize = 0;
    while i < last_columns_positions.len()
        invariant
            i <= last_columns_positions@.len(),
            last_columns_positions@.len() == old(last_columns_positions)@.len(),
        decreases last_columns_positions@.len() - i,
    {
        last_columns_positions[i] = -1;
        i = i + 1;
    }
    let mut i: usize = 0;
    while i < column_lengths.len()
        invariant
            i <= column_lengths@.len(),
            column_lengths@.len() == old(column_lengths)@.len(),
            forall|v: int| 0 <= v < i ==> #[trigger] column_lengths@[v] == 0,
        decreases column_lengths@.len() - i,
    {
        column_lengths[i] = 0;
        i = i + 1;
    }
    let ghost mut s = start_state(n as int);
    proof {
        lemma_start(a, last_columns_positions@);
        assert(csc_ok(a)) by {
            reveal(csc_ok);
        }
        lemma_both_sum_prefix(a, s, s, n as int);
        assert(both_met_sum(a, s, n as int) == 0) by {
            lemma_both_zero(a, s, n as int);
        }
        assert(diagonal_before(a, 0) =~= Set::<int>::empty());
    }
    let mut nz_diagonal: usize = 0;
    let mut nz_both: usize = 0;
    let mut col: usize = 0;
    while col < n
        invariant
            csc_ok(a),
            n == a.dim.ncols,
            a.dim.nrows == n,
            n <= isize::MAX,
            a.spec_nnz() <= isize::MAX,
            aat_degree_sum(a, n as int) <= usize::MAX,
            col <= n,
            s.c == col,
            s.ub == 0,
            scan_inv(a, s, last_columns_positions@),
            last_columns_positions@.len() == old(last_columns_positions)@.len(),
            old(last_columns_positions)@.len() >= n,
            lens_ok(a, s, column_lengths@, -1, -1),
            column_lengths@.len() == old(column_lengths)@.len(),
            forall|v: int| n <= v < column_lengths@.len() ==> #[trigger] column_lengths@[v] == 0,
            nz_diagonal == diagonal_before(a, col as int).len(),
            nz_both == both_met_sum(a, s, n as int),
        decreases n - col,
    {
        proof {
            lemma_csc_pointers(a, col as int);
            lemma_diag_step(a, col as int);
        }
        let mut pos = a.col_start(col);
        let end = a.col_end(col);
        let mut diag = false;
        while pos < end
            invariant_except_break
                first_above(a, col as int, s.ub - 1, pos as int),
                !diag,
            invariant
                csc_ok(a),
                n == a.dim.ncols,
                a.dim.nrows == n,
                n <= isize::MAX,
                a.spec_nnz() <= isize::MAX,
                aat_degree_sum(a, n as int) <= usize::MAX,
                col < n,
                s.c == col,
                0 <= s.ub <= col,
                a.column_pointers@[col as int] <= pos <= end,
                end == a.column_pointers@[col + 1],
                end <= a.spec_nnz(),
                scan_inv(a, s, last_columns_positions@),
                last_columns_positions@.len() == old(last_columns_positions)@.len(),
                old(last_columns_positions)@.len() >= n,
                lens_ok(a, s, column_lengths@, -1, -1),
                column_lengths@.len() == old(column_lengths)@.len(),
                forall|v: int| n <= v < column_lengths@.len() ==> #[trigger] column_lengths@[v] == 0,
                nz_both == both_met_sum(a, s, n as int),
                nz_diagonal == diagonal_before(a, col as int).len() + (if diag { 1int } else { 0int }),
                diagonal_before(a, col as int).len() <= col,
            ensures
                first_above(a, col as int, col as int, pos as int),
                forall|i: int| s.ub <= i < col ==> !#[trigger] a.has_entry(i, col as int),
                diag == a.has_entry(col as int, col as int),
            decreases end - pos,
        {
            let row = a.row_index(pos);
            proof {
                lemma_sorted(a, col as int, pos as int, pos as int);
            }
            if row < col {
                proof {
                    lemma_neighbors_bound(a, s, row as int);
                    lemma_neighbors_bound(a, s, col as int);
                }
                column_lengths[row] = column_lengths[row] + 1;
                column_lengths[col] = column_lengths[col] + 1;
                let ghost upos = pos as int;
                pos = pos + 1;
                proof {
                    // the entries of column `col` in rows from `ub` up to `row`
                    assert forall|i: int| s.ub <= i < row implies !#[trigger] a.has_entry(i, col as int) by {
                        lemma_gap(a, col as int, s.ub - 1, upos, i);
                    }
                    assert(a.has_entry(row as int, col as int));
                    assert(first_above(a, row as int, s.mb[row as int], last_columns_positions@[row as int] as int));
                    lemma_csc_pointers(a, row as int);
                }
                // the entries of column `row` below the diagonal, up to row `col`
                let mut rpos = last_columns_positions[row] as usize;
                let rend = a.col_end(row);
                let mut both_hit = false;
                let ghost s_row = s;
                while rpos < rend
                    invariant_except_break
                        !both_hit,
                    invariant
                        csc_ok(a),
                        n == a.dim.ncols,
                        a.dim.nrows == n,
                        n <= isize::MAX,
                        a.spec_nnz() <= isize::MAX,
                        aat_degree_sum(a, n as int) <= usize::MAX,
                        col < n,
                        row < col,
                        s.c == col,
                        s.ub == s_row.ub,
                        s.ub <= row,
                        rend == a.column_pointers@[row + 1],
                        rend <= a.spec_nnz(),
                        rpos <= rend,
                        scan_inv(a, s, last_columns_positions@.update(row as int, (if both_hit { rpos - 1 } else { rpos as int }) as isize)),
                        last_columns_positions@.len() == old(last_columns_positions)@.len(),
                        old(last_columns_positions)@.len() >= n,
                        lens_ok(a, s, column_lengths@, row as int, col as int),
                        column_lengths@.len() == old(column_lengths)@.len(),
                        forall|v: int| n <= v < column_lengths@.len() ==> #[trigger] column_lengths@[v] == 0,
                        nz_both == both_met_sum(a, s, n as int) + (if both_hit { 1int } else { 0int }),
                        both_met_sum(a, s, n as int) < aat_degree_sum(a, n as int) || !both_hit,
                        both_hit ==> rpos >= 1 && a.row_indices@[rpos - 1] == col,
                        forall|i: int| s.ub <= i < row ==> !#[trigger] a.has_entry(i, col as int),
                        a.has_entry(row as int, col as int),
                    ensures
                        rpos == rend || a.row_indices@[rpos as int] > col || both_hit,
                    decreases rend - rpos,
                {
                    let rr = a.row_index(rpos);
                    if rr < col {
                        let ghost lv = last_columns_positions@.update(row as int, rpos as isize);
                        proof {
                            assert(lv[row as int] as int == rpos as int);
                            lemma_consume(a, s, lv, row as int);
                            lemma_neighbors_bound(a, s, rr as int);
                            lemma_neighbors_bound(a, s, row as int);
                        }
                        let ghost lens0 = column_lengths@;
                        column_lengths[rr] = column_lengths[rr] + 1;
                        column_lengths[row] = column_lengths[row] + 1;
                        proof {
                            let s2 = consume_state(s, row as int, rr as int);
                            lemma_lens_step(a, s, s2, lens0, column_lengths@, row as int, rr as int, row as int, col as int);
                            lemma_both_sum_same(a, s, s2, n as int);
                            assert(lv.update(row as int, (rpos + 1) as isize) =~= last_columns_positions@.update(row as int, (rpos + 1) as isize));
                            s = s2;
                        }
                        rpos = rpos + 1;
                    } else if rr == col {
                        proof {
                            // the pair {row, col} is met with both entries
                            lemma_both_bound(a, s, n as int);
                            lemma_both_room(a, s, row as int, col as int, n as int);
                        }
                        rpos = rpos + 1;
                        nz_both = nz_both + 1;
                        both_hit = true;
                        break;
                    } else {
                        break;
                    }
                }
                let ghost p0: int = if both_hit { rpos - 1 } else { rpos as int };
                last_columns_positions[row] = rpos as isize;
                proof {
                    let lv = last_columns_positions@.update(row as int, p0 as isize);
                    lemma_finish_upper(a, s, lv, row as int, rpos as int);
                    let s2 = finish_upper_state(s, row as int);
                    assert(lv.update(row as int, rpos as isize) =~= last_columns_positions@);
                    lemma_lens_record(a, s, s2, column_lengths@, row as int, col as int);
                    if both_hit {
                        lemma_both_sum_insert(a, s, s2, col as int, row as int, n as int);
                    } else {
                        assert forall|j: int| #[trigger] both_met(a, s2, j) == both_met(a, s, j) by {
                            if j == col {
                                assert(!a.has_entry(col as int, row as int));
                            }
                        }
                        lemma_both_sum_same(a, s, s2, n as int);
                    }
                    s = s2;
                    assert(first_above(a, col as int, s.ub - 1, pos as int)) by {
                        if pos < end {
                            lemma_sorted(a, col as int, upos, pos as int);
                        }
                    }
                }
            } else if row == col {
                proof {
                    assert forall|i: int| s.ub <= i < col implies !#[trigger] a.has_entry(i, col as int) by {
                        lemma_gap(a, col as int, s.ub - 1, pos as int, i);
                    }
                    if pos + 1 < end {
                        lemma_sorted(a, col as int, pos as int, pos + 1);
                    }
                }
                nz_diagonal = nz_diagonal + 1;
                pos = pos + 1;
                diag = true;
                break;
            } else {
                proof {
                    assert forall|i: int| s.ub <= i < col implies !#[trigger] a.has_entry(i, col as int) by {
                        lemma_gap(a, col as int, s.ub - 1, pos as int, i);
                    }
                    assert(!a.has_entry(col as int, col as int)) by {
                        lemma_gap(a, col as int, s.ub - 1, pos as int, col as int);
                    }
                }
                break;
            }
        }
        last_columns_positions[col] = pos as isize;
        proof {
            lemma_column_done(a, s, last_columns_positions@.update(col as int, pos as isize), pos as int);
            assert(last_columns_positions@.update(col as int, pos as isize) =~= last_columns_positions@);
            let s2 = column_done_state(s);
            assert forall|v: int| 0 <= v < n implies #[trigger] column_lengths@[v] == met_neighbors(a, s2, v).len() + (if v == -1
                || v == -1 {
                1int
            } else {
                0int
            }) by {
                lemma_neighbors_same(a, s, s2, v);
            }
            lemma_both_sum_same(a, s, s2, n as int);
            s = s2;
        }
        col = col + 1;
    }
    // the entries below the diagonal not met yet
    let mut col: usize = 0;
    let ghost mut lg = last_columns_positions@;
    while col < n
        invariant
            csc_ok(a),
            n == a.dim.ncols,
            a.dim.nrows == n,
            n <= isize::MAX,
            a.spec_nnz() <= isize::MAX,
            col <= n,
            s.c == n,
            scan_inv(a, s, lg),
            lg.len() >= n,
            forall|k: int| col <= k < n ==> #[trigger] lg[k] == last_columns_positions@[k],
            forall|k: int| 0 <= k < col ==> #[trigger] s.mb[k] == n,
            last_columns_positions@.len() == old(last_columns_positions)@.len(),
            old(last_columns_positions)@.len() >= n,
            lens_ok(a, s, column_lengths@, -1, -1),
            column_lengths@.len() == old(column_lengths)@.len(),
            forall|v: int| n <= v < column_lengths@.len() ==> #[trigger] column_lengths@[v] == 0,
            nz_both == both_met_sum(a, s, n as int),
        decreases n - col,
    {
        proof {
            lemma_csc_pointers(a, col as int);
            assert(first_above(a, col as int, s.mb[col as int], lg[col as int] as int));
        }
        let mut pos = last_columns_positions[col] as usize;
        let end = a.col_end(col);
        while pos < end
            invariant
                csc_ok(a),
                n == a.dim.ncols,
                a.dim.nrows == n,
                n <= isize::MAX,
                a.spec_nnz() <= isize::MAX,
                col < n,
                s.c == n,
                end == a.column_pointers@[col + 1],
                end <= a.spec_nnz(),
                pos <= end,
                lg[col as int] == pos,
                scan_inv(a, s, lg),
                lg.len() >= n,
                forall|k: int| col < k < n ==> #[trigger] lg[k] == last_columns_positions@[k],
                forall|k: int| 0 <= k < col ==> #[trigger] s.mb[k] == n,
                lens_ok(a, s, column_lengths@, -1, -1),
                column_lengths@.len() == old(column_lengths)@.len(),
                forall|v: int| n <= v < column_lengths@.len() ==> #[trigger] column_lengths@[v] == 0,
                nz_both == both_met_sum(a, s, n as int),
            decreases end - pos,
        {
            let row = a.row_index(pos);
            proof {
                lemma_consume(a, s, lg, col as int);
                lemma_neighbors_bound(a, s, row as int);
                lemma_neighbors_bound(a, s, col as int);
            }
            let ghost lens0 = column_lengths@;
            column_lengths[row] = column_lengths[row] + 1;
            column_lengths[col] = column_lengths[col] + 1;
            proof {
                let s2 = consume_state(s, col as int, row as int);
                lemma_lens_step(a, s, s2, lens0, column_lengths@, col as int, row as int, -1, -1);
                lemma_both_sum_same(a, s, s2, n as int);
                s = s2;
                lg = lg.update(col as int, (pos + 1) as isize);
            }
            pos = pos + 1;
        }
        proof {
            lemma_close(a, s, lg, col as int);
            let s2 = close_state(s, col as int, n as int);
            assert forall|v: int| 0 <= v < n implies #[trigger] column_lengths@[v] == met_neighbors(a, s2, v).len() + (if v == -1
                || v == -1 {
                1int
            } else {
                0int
            }) by {
                lemma_neighbors_same(a, s, s2, v);
            }
            lemma_both_sum_same(a, s, s2, n as int);
            s = s2;
        }
        col = col + 1;
    }
    proof {
        lemma_scan_complete(a, s, lg);
        lemma_both_sum_final(a, s, n as int);
    }
    // the sum of the column counts
    let mut nz_aat: usize = 0;
    let mut v: usize = 0;
    proof {
        assert forall|w: int| 0 <= w < n implies #[trigger] column_lengths@[w] == aat_neighbors(a, w).len() by {}
        lemma_sum_prefix(a, column_lengths@, column_lengths@.len() as int);
        assert(column_lengths@.take(column_lengths@.len() as int) =~= column_lengths@);
    }
    while v < column_lengths.len()
        invariant
            v <= column_lengths@.len(),
            nz_aat == seq_sum(column_lengths@.take(v as int)),
            seq_sum(column_lengths@) == aat_degree_sum(a, n as int),
            aat_degree_sum(a, n as int) <= usize::MAX,
            n == a.dim.ncols,
            column_lengths@.len() >= n,
            forall|w: int| 0 <= w < n ==> #[trigger] column_lengths@[w] == aat_neighbors(a, w).len(),
            forall|w: int| n <= w < column_lengths@.len() ==> #[trigger] column_lengths@[w] == 0,
        decreases column_lengths@.len() - v,
    {
        proof {
            lemma_sum_prefix(a, column_lengths@, v + 1);
            assert(column_lengths@.take(v + 1).drop_last() =~= column_lengths@.take(v as int));
            lemma_degree_mono(a, if v + 1 < n { v + 1 } else { n as int }, n as int);
        }
        nz_aat = nz_aat + column_lengths[v];
        v = v + 1;
    }
    AatInfo { nz_diagonal, nz_both, nz_aat }
}


/// One past the last place of the segment of `v`: the start of the next
/// segment, or `free` for the last one.
pub open spec fn seg_end(pe: Seq<usize>, free: int, n: int, v: int) -> int {
    if v + 1 < n {
        pe[v + 1] as int
    } else {
        free
    }
}

/// The segments `pe[v]..seg_end(v)` lie in a slice of length `len`, one after
/// another, each sized for the neighbours of `v`.
pub open spec fn segs_layout<V>(a: &CscMatrix<V>, pe: Seq<usize>, free: int, len: int) -> bool {
    let n = a.dim.ncols as int;
    &&& pe.len() >= n
    &&& free <= len
    &&& forall|v: int| 0 <= v < n ==> #[trigger] seg_end(pe, free, n, v) - pe[v] == aat_neighbors(a, v).len()
}

/// Place `p` lies in the segment of some column.
pub open spec fn in_segs(pe: Seq<usize>, free: int, n: int, p: int) -> bool {
    exists|v: int| 0 <= v < n && pe[v] <= p < #[trigger] seg_end(pe, free, n, v)
}

/// The places `lo..hi` of `rows` list, without repeats, exactly the set `t`.
pub open spec fn lists_exactly(rows: Seq<usize>, lo: int, hi: int, t: Set<int>) -> bool {
    &&& t.finite()
    &&& hi - lo == t.len()
    &&& forall|p: int| lo <= p < hi ==> t.contains(#[trigger] rows[p] as int)
    &&& forall|u: int| t.contains(u) ==> exists|p: int| lo <= p < hi && #[trigger] rows[p] as int == u
    &&& forall|p1: int, p2: int| lo <= p1 < p2 < hi ==> #[trigger] rows[p1] != #[trigger] rows[p2]
}

/// The segment of column `v` lists exactly its neighbours in A + A^T.
pub open spec fn column_listed<V>(a: &CscMatrix<V>, rows: Seq<usize>, pe: Seq<usize>, free: int, v: int) -> bool {
    lists_exactly(rows, pe[v] as int, seg_end(pe, free, a.dim.ncols as int, v), aat_neighbors(a, v))
}

/// The neighbours of `v` written so far: those met, and the other end of the
/// pair `{x, y}` when `v` is one of its ends (a pair written before it is
/// recorded as met).
pub open spec fn seg_target<V>(a: &CscMatrix<V>, s: AatScan, v: int, x: int, y: int) -> Set<int> {
    if v == x {
        met_neighbors(a, s, v).insert(y)
    } else if v == y {
        met_neighbors(a, s, v).insert(x)
    } else {
        met_neighbors(a, s, v)
    }
}

/// The filled part `pe[v]..cur[v]` of the segment of `v` lists exactly `t`.
pub open spec fn seg_holds(rows: Seq<usize>, pe: Seq<usize>, cur: Seq<usize>, free: int, n: int, v: int, t: Set<int>) -> bool {
    &&& pe[v] <= cur[v] <= seg_end(pe, free, n, v)
    &&& lists_exactly(rows, pe[v] as int, cur[v] as int, t)
}

/// Every segment holds the neighbours written so far.
pub open spec fn segs_ok<V>(a: &CscMatrix<V>, s: AatScan, rows: Seq<usize>, pe: Seq<usize>, cur: Seq<usize>, free: int, x: int, y: int) -> bool {
    let n = a.dim.ncols as int;
    &&& cur.len() >= n
    &&& forall|v: int| 0 <= v < n ==> #[trigger] seg_holds(rows, pe, cur, free, n, v, seg_target(a, s, v, x, y))
}

/// What the second phase leaves alone: places outside the segments, and
/// entries of `cur` past the columns.
pub open spec fn fill_frame<V>(a: &CscMatrix<V>, rows: Seq<usize>, rows0: Seq<usize>, pe: Seq<usize>, cur: Seq<usize>, cur0: Seq<usize>, free: int) -> bool {
    let n = a.dim.ncols as int;
    &&& segs_layout(a, pe, free, rows0.len() as int)
    &&& rows.len() == rows0.len()
    &&& cur.len() == cur0.len()
    &&& cur0.len() >= n
    &&& forall|v: int| n <= v < cur.len() ==> #[trigger] cur[v] == cur0[v]
    &&& forall|p: int| 0 <= p < rows.len() && !in_segs(pe, free, n, p) ==> #[trigger] rows[p] == rows0[p]
}

/// A neighbour set is finite, with at most `n` rows.
proof fn lemma_aat_finite<V>(a: &CscMatrix<V>, v: int)
    ensures
        aat_neighbors(a, v).finite(),
        aat_neighbors(a, v).len() <= a.dim.ncols,
{
    let n = a.dim.ncols as int;
    vstd::set_lib::lemma_int_range(0, n);
    assert(aat_neighbors(a, v).subset_of(vstd::set_lib::set_int_range(0, n)));
    vstd::set_lib::lemma_len_subset(aat_neighbors(a, v), vstd::set_lib::set_int_range(0, n));
}

/// The segments follow one another and end by `free`.
proof fn lemma_layout_order<V>(a: &CscMatrix<V>, pe: Seq<usize>, free: int, len: int, v: int, w: int)
    requires
        segs_layout(a, pe, free, len),
        0 <= v < w < a.dim.ncols,
    ensures
        seg_end(pe, free, a.dim.ncols as int, v) <= pe[w],
    decreases w - v,
{
    let n = a.dim.ncols as int;
    if v + 1 < w {
        lemma_layout_order(a, pe, free, len, v + 1, w);
        assert(seg_end(pe, free, n, v + 1) - pe[v + 1] == aat_neighbors(a, v + 1).len());
    }
}

proof fn lemma_layout_end<V>(a: &CscMatrix<V>, pe: Seq<usize>, free: int, len: int, v: int)
    requires
        segs_layout(a, pe, free, len),
        0 <= v < a.dim.ncols,
    ensures
        pe[v] <= seg_end(pe, free, a.dim.ncols as int, v) <= free,
    decreases a.dim.ncols - v,
{
    let n = a.dim.ncols as int;
    assert(seg_end(pe, free, n, v) - pe[v] == aat_neighbors(a, v).len());
    if v + 1 < n {
        lemma_layout_end(a, pe, free, len, v + 1);
    }
}

/// Distinct segments do not overlap.
proof fn lemma_layout_apart<V>(a: &CscMatrix<V>, pe: Seq<usize>, free: int, len: int, v: int, w: int, p: int)
    requires
        segs_layout(a, pe, free, len),
        0 <= v < a.dim.ncols,
        0 <= w < a.dim.ncols,
        v != w,
        pe[v] <= p < seg_end(pe, free, a.dim.ncols as int, v),
    ensures
        !(pe[w] <= p < seg_end(pe, free, a.dim.ncols as int, w)),
{
    if v < w {
        lemma_layout_order(a, pe, free, len, v, w);
    } else {
        lemma_layout_order(a, pe, free, len, w, v);
    }
}

/// Appending a new element `u` at `hi`.
proof fn lemma_push(rows: Seq<usize>, rows2: Seq<usize>, lo: int, hi: int, t: Set<int>, u: int)
    requires
        lists_exactly(rows, lo, hi, t),
        !t.contains(u),
        0 <= lo <= hi < rows2.len(),
        forall|p: int| lo <= p < hi ==> rows2[p] == rows[p],
        rows2[hi] as int == u,
    ensures
        lists_exactly(rows2, lo, hi + 1, t.insert(u)),
{
    let t2 = t.insert(u);
    assert forall|p: int| lo <= p < hi + 1 implies t2.contains(#[trigger] rows2[p] as int) by {
        if p < hi {
            assert(rows2[p] == rows[p]);
            assert(t.contains(rows[p] as int));
        }
    }
    assert forall|w: int| t2.contains(w) implies exists|p: int| lo <= p < hi + 1 && #[trigger] rows2[p] as int == w by {
        if w == u {
            assert(rows2[hi] as int == u);
        } else {
            assert(t.contains(w));
            let p = choose|p: int| lo <= p < hi && #[trigger] rows[p] as int == w;
            assert(rows2[p] == rows[p]);
        }
    }
    assert forall|p1: int, p2: int| lo <= p1 < p2 < hi + 1 implies #[trigger] rows2[p1] != #[trigger] rows2[p2] by {
        assert(rows2[p1] == rows[p1]);
        assert(t.contains(rows[p1] as int));
        if p2 < hi {
            assert(rows2[p2] == rows[p2]);
        }
    }
}

/// A segment whose places are unchanged lists the same set.
proof fn lemma_keep(rows: Seq<usize>, rows2: Seq<usize>, lo: int, hi: int, t: Set<int>)
    requires
        lists_exactly(rows, lo, hi, t),
        forall|p: int| lo <= p < hi ==> rows2[p] == rows[p],
    ensures
        lists_exactly(rows2, lo, hi, t),
{
    assert forall|p: int| lo <= p < hi implies t.contains(#[trigger] rows2[p] as int) by {
        assert(rows2[p] == rows[p]);
    }
    assert forall|w: int| t.contains(w) implies exists|p: int| lo <= p < hi && #[trigger] rows2[p] as int == w by {
        let p = choose|p: int| lo <= p < hi && #[trigger] rows[p] as int == w;
        assert(rows2[p] == rows[p]);
    }
    assert forall|p1: int, p2: int| lo <= p1 < p2 < hi implies #[trigger] rows2[p1] != #[trigger] rows2[p2] by {
        assert(rows2[p1] == rows[p1]);
        assert(rows2[p2] == rows[p2]);
    }
}

/// Writing `y` at the filled end of the segment of `x`, and `x` at that of
/// `y`, adds each to the other's listed set.
proof fn lemma_pair_write<V>(
    a: &CscMatrix<V>,
    rows: Seq<usize>,
    rows0: Seq<usize>,
    pe: Seq<usize>,
    cur: Seq<usize>,
    cur0: Seq<usize>,
    free: int,
    t1: spec_fn(int) -> Set<int>,
    t2: spec_fn(int) -> Set<int>,
    x: int,
    y: int,
)
    requires
        fill_frame(a, rows, rows0, pe, cur, cur0, free),
        free <= usize::MAX,
        0 <= x < a.dim.ncols,
        0 <= y < a.dim.ncols,
        x != y,
        forall|v: int| 0 <= v < a.dim.ncols ==> #[trigger] seg_holds(rows, pe, cur, free, a.dim.ncols as int, v, t1(v)),
        forall|v: int| 0 <= v < a.dim.ncols ==> #[trigger] t2(v).subset_of(aat_neighbors(a, v)),
        t2(x) == t1(x).insert(y),
        !t1(x).contains(y),
        t2(y) == t1(y).insert(x),
        !t1(y).contains(x),
        forall|v: int| 0 <= v < a.dim.ncols && v != x && v != y ==> #[trigger] t2(v) == t1(v),
    ensures
        cur[x] < seg_end(pe, free, a.dim.ncols as int, x) <= rows.len(),
        cur[y] < seg_end(pe, free, a.dim.ncols as int, y) <= rows.len(),
        in_segs(pe, free, a.dim.ncols as int, cur[x] as int),
        in_segs(pe, free, a.dim.ncols as int, cur[y] as int),
        ({
            let rows2 = rows.update(cur[x] as int, y as usize).update(cur[y] as int, x as usize);
            let cur2 = cur.update(x, (cur[x] + 1) as usize).update(y, (cur[y] + 1) as usize);
            &&& forall|v: int| 0 <= v < a.dim.ncols ==> #[trigger] seg_holds(rows2, pe, cur2, free, a.dim.ncols as int, v, t2(v))
            &&& fill_frame(a, rows2, rows0, pe, cur2, cur0, free)
        }),
{
    let n = a.dim.ncols as int;
    let cx = cur[x] as int;
    let cy = cur[y] as int;
    assert(seg_holds(rows, pe, cur, free, n, x, t1(x)));
    assert(seg_holds(rows, pe, cur, free, n, y, t1(y)));
    lemma_aat_finite(a, x);
    lemma_aat_finite(a, y);
    assert(t2(x).subset_of(aat_neighbors(a, x)));
    assert(t2(y).subset_of(aat_neighbors(a, y)));
    vstd::set_lib::lemma_len_subset(t2(x), aat_neighbors(a, x));
    vstd::set_lib::lemma_len_subset(t2(y), aat_neighbors(a, y));
    assert(seg_end(pe, free, n, x) - pe[x] == aat_neighbors(a, x).len());
    assert(seg_end(pe, free, n, y) - pe[y] == aat_neighbors(a, y).len());
    lemma_layout_end(a, pe, free, rows.len() as int, x);
    lemma_layout_end(a, pe, free, rows.len() as int, y);
    assert(cx < seg_end(pe, free, n, x));
    assert(cy < seg_end(pe, free, n, y));
    lemma_layout_apart(a, pe, free, rows.len() as int, x, y, cx);
    let rows2 = rows.update(cx, y as usize).update(cy, x as usize);
    let cur2 = cur.update(x, (cx + 1) as usize).update(y, (cy + 1) as usize);
    assert forall|v: int| 0 <= v < n implies #[trigger] seg_holds(rows2, pe, cur2, free, n, v, t2(v)) by {
        assert(seg_holds(rows, pe, cur, free, n, v, t1(v)));
        if v == x {
            assert forall|p: int| pe[x] <= p < cx implies rows2[p] == rows[p] by {
                lemma_layout_apart(a, pe, free, rows.len() as int, x, y, p);
            }
            lemma_push(rows, rows2, pe[x] as int, cx, t1(x), y);
        } else if v == y {
            assert forall|p: int| pe[y] <= p < cy implies rows2[p] == rows[p] by {
                lemma_layout_apart(a, pe, free, rows.len() as int, y, x, p);
            }
            lemma_push(rows, rows2, pe[y] as int, cy, t1(y), x);
        } else {
            lemma_layout_end(a, pe, free, rows.len() as int, v);
            assert forall|p: int| pe[v] <= p < cur[v] implies rows2[p] == rows[p] by {
                lemma_layout_apart(a, pe, free, rows.len() as int, v, x, p);
                lemma_layout_apart(a, pe, free, rows.len() as int, v, y, p);
            }
            lemma_keep(rows, rows2, pe[v] as int, cur[v] as int, t1(v));
        }
    }
    assert(in_segs(pe, free, n, cx));
    assert(in_segs(pe, free, n, cy));
    assert forall|p: int| 0 <= p < rows2.len() && !in_segs(pe, free, n, p) implies #[trigger] rows2[p] == rows0[p] by {
        assert(rows[p] == rows0[p]);
    }
}

/// The neighbours met so far are neighbours in A + A^T.
proof fn lemma_met_sub<V>(a: &CscMatrix<V>, s: AatScan, v: int)
    ensures
        met_neighbors(a, s, v).subset_of(aat_neighbors(a, v)),
{
}

/// The neighbours met after meeting the pair `{x, y}`.
proof fn lemma_met_grow<V>(a: &CscMatrix<V>, s: AatScan, s2: AatScan, x: int, y: int, v: int)
    requires
        0 <= x < y < a.dim.ncols,
        0 <= v < a.dim.ncols,
        forall|i: int, j: int| 0 <= i < j < a.dim.ncols ==> #[trigger] met(a, s2, i, j) == (met(a, s, i, j) || (i == x && j == y)),
    ensures
        met_neighbors(a, s2, v) == (if v == x {
            met_neighbors(a, s, v).insert(y)
        } else if v == y {
            met_neighbors(a, s, v).insert(x)
        } else {
            met_neighbors(a, s, v)
        }),
{
    let n = a.dim.ncols as int;
    let goal = if v == x {
        met_neighbors(a, s, v).insert(y)
    } else if v == y {
        met_neighbors(a, s, v).insert(x)
    } else {
        met_neighbors(a, s, v)
    };
    assert forall|u: int| #[trigger] met_neighbors(a, s2, v).contains(u) <==> goal.contains(u) by {
        if 0 <= u < v {
            assert(met(a, s2, u, v) == (met(a, s, u, v) || (u == x && v == y)));
        } else if v < u < n {
            assert(met(a, s2, v, u) == (met(a, s, v, u) || (v == x && u == y)));
        }
    }
    assert(met_neighbors(a, s2, v) =~= goal);
}

/// Writing the pair `{x, y}` before it is met: the targets gain it as extra.
proof fn lemma_target_extra<V>(a: &CscMatrix<V>, s: AatScan, x: int, y: int)
    requires
        0 <= x < y < a.dim.ncols,
        !met(a, s, x, y),
        aat_pair(a, x, y),
    ensures
        forall|v: int| 0 <= v < a.dim.ncols ==> #[trigger] seg_target(a, s, v, x, y).subset_of(aat_neighbors(a, v)),
        seg_target(a, s, x, x, y) == seg_target(a, s, x, -1, -1).insert(y),
        !seg_target(a, s, x, -1, -1).contains(y),
        seg_target(a, s, y, x, y) == seg_target(a, s, y, -1, -1).insert(x),
        !seg_target(a, s, y, -1, -1).contains(x),
        forall|v: int| 0 <= v < a.dim.ncols && v != x && v != y ==> #[trigger] seg_target(a, s, v, x, y) == seg_target(a, s, v, -1, -1),
{
    assert forall|v: int| 0 <= v < a.dim.ncols implies #[trigger] seg_target(a, s, v, x, y).subset_of(aat_neighbors(a, v)) by {
        lemma_met_sub(a, s, v);
    }
}

/// Meeting a pair `{x, y}` other than the extra one `{ex, ey}`.
proof fn lemma_target_step<V>(a: &CscMatrix<V>, s: AatScan, s2: AatScan, x: int, y: int, ex: int, ey: int)
    requires
        0 <= x < y < a.dim.ncols,
        !met(a, s, x, y),
        forall|i: int, j: int| 0 <= i < j < a.dim.ncols ==> #[trigger] met(a, s2, i, j) == (met(a, s, i, j) || (i == x && j == y)),
        (ex == -1 && ey == -1) || (0 <= ex < ey < a.dim.ncols && aat_pair(a, ex, ey) && !met(a, s2, ex, ey)),
    ensures
        forall|v: int| 0 <= v < a.dim.ncols ==> #[trigger] seg_target(a, s2, v, ex, ey).subset_of(aat_neighbors(a, v)),
        seg_target(a, s2, x, ex, ey) == seg_target(a, s, x, ex, ey).insert(y),
        !seg_target(a, s, x, ex, ey).contains(y),
        seg_target(a, s2, y, ex, ey) == seg_target(a, s, y, ex, ey).insert(x),
        !seg_target(a, s, y, ex, ey).contains(x),
        forall|v: int| 0 <= v < a.dim.ncols && v != x && v != y ==> #[trigger] seg_target(a, s2, v, ex, ey) == seg_target(a, s, v, ex, ey),
{
    lemma_met_grow(a, s, s2, x, y, x);
    lemma_met_grow(a, s, s2, x, y, y);
    assert forall|v: int| 0 <= v < a.dim.ncols implies #[trigger] seg_target(a, s2, v, ex, ey).subset_of(aat_neighbors(a, v)) by {
        lemma_met_sub(a, s2, v);
    }
    assert(met(a, s2, x, y));
    assert forall|v: int| 0 <= v < a.dim.ncols && v != x && v != y implies #[trigger] seg_target(a, s2, v, ex, ey) == seg_target(a, s, v, ex, ey) by {
        lemma_met_grow(a, s, s2, x, y, v);
    }
    if x == ex {
        assert(seg_target(a, s2, x, ex, ey) =~= seg_target(a, s, x, ex, ey).insert(y));
    }
    if x == ey {
        assert(seg_target(a, s2, x, ex, ey) =~= seg_target(a, s, x, ex, ey).insert(y));
    }
    if y == ex {
        assert(seg_target(a, s2, y, ex, ey) =~= seg_target(a, s, y, ex, ey).insert(x));
    }
    if y == ey {
        assert(seg_target(a, s2, y, ex, ey) =~= seg_target(a, s, y, ex, ey).insert(x));
    }
}

/// Recording the extra pair `{x, y}` as met leaves the targets as they are.
proof fn lemma_target_record<V>(a: &CscMatrix<V>, s: AatScan, s2: AatScan, x: int, y: int)
    requires
        0 <= x < y < a.dim.ncols,
        forall|i: int, j: int| 0 <= i < j < a.dim.ncols ==> #[trigger] met(a, s2, i, j) == (met(a, s, i, j) || (i == x && j == y)),
    ensures
        forall|v: int| 0 <= v < a.dim.ncols ==> #[trigger] seg_target(a, s2, v, -1, -1) == seg_target(a, s, v, x, y),
{
    assert forall|v: int| 0 <= v < a.dim.ncols implies #[trigger] seg_target(a, s2, v, -1, -1) == seg_target(a, s, v, x, y) by {
        lemma_met_grow(a, s, s2, x, y, v);
    }
}

/// The targets are unchanged when the met pairs are.
proof fn lemma_target_same<V>(a: &CscMatrix<V>, s: AatScan, s2: AatScan, ex: int, ey: int)
    requires
        forall|i: int, j: int| 0 <= i < j < a.dim.ncols ==> #[trigger] met(a, s2, i, j) == met(a, s, i, j),
    ensures
        forall|v: int| 0 <= v < a.dim.ncols ==> #[trigger] seg_target(a, s2, v, ex, ey) == seg_target(a, s, v, ex, ey),
{
    assert forall|v: int| 0 <= v < a.dim.ncols implies #[trigger] seg_target(a, s2, v, ex, ey) == seg_target(a, s, v, ex, ey) by {
        lemma_neighbors_same(a, s, s2, v);
    }
}

/// Fills the pattern of A + A^T without its diagonal, for the segments laid
/// out after the first phase: the segment of column `v` of `aat_rows` starts
/// at `pe[v]` and ends where the next one starts (`free_position` for the
/// last), and is sized for the neighbours of `v`. Each segment receives the
/// neighbours of its column, each once, in the order of the scan;
/// `current_pos[v]` starts at `pe[v]` and ends at the end of the segment.
/// Places outside the segments are left alone; `last_columns_positions` is a
/// workspace.
pub fn aat_second_phase<V>(
    a: &CscMatrix<V>,
    free_position: usize,
    aat_rows: &mut [usize],
    current_pos: &mut [usize],
    pe: &[usize],
    last_columns_positions: &mut [isize],
)
    requires
        a.wf(),
        a.dim.nrows == a.dim.ncols,
        a.dim.ncols <= isize::MAX,
        a.spec_nnz() <= isize::MAX,
        segs_layout(a, pe@, free_position as int, old(aat_rows)@.len() as int),
        old(current_pos)@.len() >= a.dim.ncols,
        forall|v: int| 0 <= v < a.dim.ncols ==> #[trigger] old(current_pos)@[v] == pe@[v],
        old(last_columns_positions)@.len() >= a.dim.ncols,
    ensures
        final(aat_rows)@.len() == old(aat_rows)@.len(),
        final(current_pos)@.len() == old(current_pos)@.len(),
        final(last_columns_positions)@.len() == old(last_columns_positions)@.len(),
        forall|v: int| 0 <= v < a.dim.ncols ==> #[trigger] column_listed(a, final(aat_rows)@, pe@, free_position as int, v),
        forall|v: int|
            0 <= v < a.dim.ncols ==> #[trigger] final(current_pos)@[v] == seg_end(pe@, free_position as int, a.dim.ncols as int, v),
        forall|v: int| a.dim.ncols <= v < final(current_pos)@.len() ==> #[trigger] final(current_pos)@[v] == old(current_pos)@[v],
        forall|p: int|
            0 <= p < final(aat_rows)@.len() && !in_segs(pe@, free_position as int, a.dim.ncols as int, p)
                ==> #[trigger] final(aat_rows)@[p] == old(aat_rows)@[p],
{
    let n = a.dim.ncols;
    let ghost mut s = start_state(n as int);
    proof {
        lemma_start(a, last_columns_positions@);
        assert(csc_ok(a)) by {
            reveal(csc_ok);
        }
        assert forall|v: int| 0 <= v < n implies #[trigger] seg_holds(
            aat_rows@,
            pe@,
            current_pos@,
            free_position as int,
            n as int,
            v,
            seg_target(a, s, v, -1, -1),
        ) by {
            lemma_layout_end(a, pe@, free_position as int, aat_rows@.len() as int, v);
            assert(seg_target(a, s, v, -1, -1) == Set::<int>::empty());
        }
    }
    let mut col: usize = 0;
    while col < n
        invariant
            csc_ok(a),
            n == a.dim.ncols,
            a.dim.nrows == n,
            n <= isize::MAX,
            a.spec_nnz() <= isize::MAX,
            col <= n,
            s.c == col,
            s.ub == 0,
            scan_inv(a, s, last_columns_positions@),
            last_columns_positions@.len() == old(last_columns_positions)@.len(),
            old(last_columns_positions)@.len() >= n,
            segs_ok(a, s, aat_rows@, pe@, current_pos@, free_position as int, -1, -1),
            fill_frame(a, aat_rows@, old(aat_rows)@, pe@, current_pos@, old(current_pos)@, free_position as int),
        decreases n - col,
    {
        proof {
            lemma_csc_pointers(a, col as int);
        }
        let mut pos = a.col_start(col);
        let end = a.col_end(col);
        while pos < end
            invariant_except_break
                first_above(a, col as int, s.ub - 1, pos as int),
            invariant
                csc_ok(a),
                n == a.dim.ncols,
                a.dim.nrows == n,
                n <= isize::MAX,
                a.spec_nnz() <= isize::MAX,
                col < n,
                s.c == col,
                0 <= s.ub <= col,
                a.column_pointers@[col as int] <= pos <= end,
                end == a.column_pointers@[col + 1],
                end <= a.spec_nnz(),
                scan_inv(a, s, last_columns_positions@),
                last_columns_positions@.len() == old(last_columns_positions)@.len(),
                old(last_columns_positions)@.len() >= n,
                segs_ok(a, s, aat_rows@, pe@, current_pos@, free_position as int, -1, -1),
                fill_frame(a, aat_rows@, old(aat_rows)@, pe@, current_pos@, old(current_pos)@, free_position as int),
            ensures
                first_above(a, col as int, col as int, pos as int),
                forall|i: int| s.ub <= i < col ==> !#[trigger] a.has_entry(i, col as int),
            decreases end - pos,
        {
            let row = a.row_index(pos);
            proof {
                lemma_sorted(a, col as int, pos as int, pos as int);
            }
            if row < col {
                proof {
                    assert(a.row_indices@[pos as int] == row);
                    assert(a.has_entry(row as int, col as int));
                    assert(s.mb[row as int] < col);
                    assert(!met(a, s, row as int, col as int));
                    lemma_target_extra(a, s, row as int, col as int);
                }
                let ghost rows_b = aat_rows@;
                let ghost cur_b = current_pos@;
                let ghost t2 = |v: int| seg_target(a, s, v, row as int, col as int);
                proof {
                    lemma_pair_write(
                        a,
                        rows_b,
                        old(aat_rows)@,
                        pe@,
                        cur_b,
                        old(current_pos)@,
                        free_position as int,
                        |v: int| seg_target(a, s, v, -1, -1),
                        t2,
                        row as int,
                        col as int,
                    );
                    lemma_layout_end(a, pe@, free_position as int, aat_rows@.len() as int, row as int);
                    lemma_layout_end(a, pe@, free_position as int, aat_rows@.len() as int, col as int);
                }
                let pr = current_pos[row];
                let pc = current_pos[col];
                aat_rows[pr] = col;
                aat_rows[pc] = row;
                current_pos[row] = pr + 1;
                current_pos[col] = pc + 1;
                proof {
                    assert(aat_rows@ =~= rows_b.update(pr as int, col).update(pc as int, row));
                    assert(current_pos@ =~= cur_b.update(row as int, (pr + 1) as usize).update(col as int, (pc + 1) as usize));
                    assert forall|v: int| 0 <= v < n implies #[trigger] seg_holds(
                        aat_rows@,
                        pe@,
                        current_pos@,
                        free_position as int,
                        n as int,
                        v,
                        seg_target(a, s, v, row as int, col as int),
                    ) by {
                        assert(seg_holds(aat_rows@, pe@, current_pos@, free_position as int, n as int, v, t2(v)));
                    }
                }
                let ghost upos = pos as int;
                pos = pos + 1;
                proof {
                    // the entries of column `col` in rows from `ub` up to `row`
                    assert forall|i: int| s.ub <= i < row implies !#[trigger] a.has_entry(i, col as int) by {
                        lemma_gap(a, col as int, s.ub - 1, upos, i);
                    }
                    assert(first_above(a, row as int, s.mb[row as int], last_columns_positions@[row as int] as int));
                    lemma_csc_pointers(a, row as int);
                }
                // the entries of column `row` below the diagonal, up to row `col`
                let mut rpos = last_columns_positions[row] as usize;
                let rend = a.col_end(row);
                let mut both_hit = false;
                let ghost s_row = s;
                while rpos < rend
                    invariant_except_break
                        !both_hit,
                    invariant
                        csc_ok(a),
                        n == a.dim.ncols,
                        a.dim.nrows == n,
                        n <= isize::MAX,
                        a.spec_nnz() <= isize::MAX,
                        col < n,
                        row < col,
                        s.c == col,
                        s.ub == s_row.ub,
                        s.ub <= row,
                        rend == a.column_pointers@[row + 1],
                        rend <= a.spec_nnz(),
                        rpos <= rend,
                        scan_inv(
                            a,
                            s,
                            last_columns_positions@.update(row as int, (if both_hit { rpos - 1 } else { rpos as int }) as isize),
                        ),
                        last_columns_positions@.len() == old(last_columns_positions)@.len(),
                        old(last_columns_positions)@.len() >= n,
                        segs_ok(a, s, aat_rows@, pe@, current_pos@, free_position as int, row as int, col as int),
                        fill_frame(a, aat_rows@, old(aat_rows)@, pe@, current_pos@, old(current_pos)@, free_position as int),
                        !met(a, s, row as int, col as int),
                        both_hit ==> rpos >= 1 && a.row_indices@[rpos - 1] == col,
                        forall|i: int| s.ub <= i < row ==> !#[trigger] a.has_entry(i, col as int),
                        a.has_entry(row as int, col as int),
                    ensures
                        rpos == rend || a.row_indices@[rpos as int] > col || both_hit,
                    decreases rend - rpos,
                {
                    let rr = a.row_index(rpos);
                    if rr < col {
                        let ghost lv = last_columns_positions@.update(row as int, rpos as isize);
                        proof {
                            assert(lv[row as int] as int == rpos as int);
                            lemma_consume(a, s, lv, row as int);
                            lemma_target_step(a, s, consume_state(s, row as int, rr as int), row as int, rr as int, row as int, col as int);
                        }
                        let ghost rows_b = aat_rows@;
                        let ghost cur_b = current_pos@;
                        let ghost s2 = consume_state(s, row as int, rr as int);
                        let ghost t2 = |v: int| seg_target(a, s2, v, row as int, col as int);
                        proof {
                            lemma_pair_write(
                                a,
                                rows_b,
                                old(aat_rows)@,
                                pe@,
                                cur_b,
                                old(current_pos)@,
                                free_position as int,
                                |v: int| seg_target(a, s, v, row as int, col as int),
                                t2,
                                rr as int,
                                row as int,
                            );
                            lemma_layout_end(a, pe@, free_position as int, aat_rows@.len() as int, row as int);
                            lemma_layout_end(a, pe@, free_position as int, aat_rows@.len() as int, rr as int);
                        }
                        let p1 = current_pos[rr];
                        let p2 = current_pos[row];
                        aat_rows[p1] = row;
                        aat_rows[p2] = rr;
                        current_pos[rr] = p1 + 1;
                        current_pos[row] = p2 + 1;
                        proof {
                            assert(aat_rows@ =~= rows_b.update(p1 as int, row).update(p2 as int, rr));
                            assert(current_pos@ =~= cur_b.update(rr as int, (p1 + 1) as usize).update(row as int, (p2 + 1) as usize));
                            assert forall|v: int| 0 <= v < n implies #[trigger] seg_holds(
                                aat_rows@,
                                pe@,
                                current_pos@,
                                free_position as int,
                                n as int,
                                v,
                                seg_target(a, s2, v, row as int, col as int),
                            ) by {
                                assert(seg_holds(aat_rows@, pe@, current_pos@, free_position as int, n as int, v, t2(v)));
                            }
                            assert(lv.update(row as int, (rpos + 1) as isize) =~= last_columns_positions@.update(
                                row as int,
                                (rpos + 1) as isize,
                            ));
                            s = s2;
                        }
                        rpos = rpos + 1;
                    } else if rr == col {
                        rpos = rpos + 1;
                        both_hit = true;
                        break;
                    } else {
                        break;
                    }
                }
                let ghost p0: int = if both_hit { rpos - 1 } else { rpos as int };
                last_columns_positions[row] = rpos as isize;
                proof {
                    let lv = last_columns_positions@.update(row as int, p0 as isize);
                    lemma_finish_upper(a, s, lv, row as int, rpos as int);
                    let s2 = finish_upper_state(s, row as int);
                    assert(lv.update(row as int, rpos as isize) =~= last_columns_positions@);
                    lemma_target_record(a, s, s2, row as int, col as int);
                    s = s2;
                    assert(first_above(a, col as int, s.ub - 1, pos as int)) by {
                        if pos < end {
                            lemma_sorted(a, col as int, upos, pos as int);
                        }
                    }
                }
            } else if row == col {
                proof {
                    assert forall|i: int| s.ub <= i < col implies !#[trigger] a.has_entry(i, col as int) by {
                        lemma_gap(a, col as int, s.ub - 1, pos as int, i);
                    }
                    if pos + 1 < end {
                        lemma_sorted(a, col as int, pos as int, pos + 1);
                    }
                }
                pos = pos + 1;
                break;
            } else {
                proof {
                    assert forall|i: int| s.ub <= i < col implies !#[trigger] a.has_entry(i, col as int) by {
                        lemma_gap(a, col as int, s.ub - 1, pos as int, i);
                    }
                }
                break;
            }
        }
        last_columns_positions[col] = pos as isize;
        proof {
            lemma_column_done(a, s, last_columns_positions@.update(col as int, pos as isize), pos as int);
            assert(last_columns_positions@.update(col as int, pos as isize) =~= last_columns_positions@);
            let s2 = column_done_state(s);
            lemma_target_same(a, s, s2, -1, -1);
            s = s2;
        }
        col = col + 1;
    }
    // the entries below the diagonal not met yet
    let mut col: usize = 0;
    let ghost mut lg = last_columns_positions@;
    while col < n
        invariant
            csc_ok(a),
            n == a.dim.ncols,
            a.dim.nrows == n,
            n <= isize::MAX,
            a.spec_nnz() <= isize::MAX,
            col <= n,
            s.c == n,
            scan_inv(a, s, lg),
            lg.len() >= n,
            forall|k: int| col <= k < n ==> #[trigger] lg[k] == last_columns_positions@[k],
            forall|k: int| 0 <= k < col ==> #[trigger] s.mb[k] == n,
            last_columns_positions@.len() == old(last_columns_positions)@.len(),
            old(last_columns_positions)@.len() >= n,
            segs_ok(a, s, aat_rows@, pe@, current_pos@, free_position as int, -1, -1),
            fill_frame(a, aat_rows@, old(aat_rows)@, pe@, current_pos@, old(current_pos)@, free_position as int),
        decreases n - col,
    {
        proof {
            lemma_csc_pointers(a, col as int);
            assert(first_above(a, col as int, s.mb[col as int], lg[col as int] as int));
        }
        let mut pos = last_columns_positions[col] as usize;
        let end = a.col_end(col);
        while pos < end
            invariant
                csc_ok(a),
                n == a.dim.ncols,
                a.dim.nrows == n,
                n <= isize::MAX,
                a.spec_nnz() <= isize::MAX,
                col < n,
                s.c == n,
                end == a.column_pointers@[col + 1],
                end <= a.spec_nnz(),
                pos <= end,
                lg[col as int] == pos,
                scan_inv(a, s, lg),
                lg.len() >= n,
                forall|k: int| col < k < n ==> #[trigger] lg[k] == last_columns_positions@[k],
                forall|k: int| 0 <= k < col ==> #[trigger] s.mb[k] == n,
                segs_ok(a, s, aat_rows@, pe@, current_pos@, free_position as int, -1, -1),
                fill_frame(a, aat_rows@, old(aat_rows)@, pe@, current_pos@, old(current_pos)@, free_position as int),
            decreases end - pos,
        {
            let row = a.row_index(pos);
            proof {
                lemma_consume(a, s, lg, col as int);
                lemma_target_step(a, s, consume_state(s, col as int, row as int), col as int, row as int, -1, -1);
            }
            let ghost rows_b = aat_rows@;
            let ghost cur_b = current_pos@;
            let ghost s2 = consume_state(s, col as int, row as int);
            let ghost t2 = |v: int| seg_target(a, s2, v, -1, -1);
            proof {
                lemma_pair_write(
                    a,
                    rows_b,
                    old(aat_rows)@,
                    pe@,
                    cur_b,
                    old(current_pos)@,
                    free_position as int,
                    |v: int| seg_target(a, s, v, -1, -1),
                    t2,
                    row as int,
                    col as int,
                );
                lemma_layout_end(a, pe@, free_position as int, aat_rows@.len() as int, row as int);
                lemma_layout_end(a, pe@, free_position as int, aat_rows@.len() as int, col as int);
            }
            let p1 = current_pos[row];
            let p2 = current_pos[col];
            aat_rows[p1] = col;
            aat_rows[p2] = row;
            current_pos[row] = p1 + 1;
            current_pos[col] = p2 + 1;
            proof {
                assert(aat_rows@ =~= rows_b.update(p1 as int, col).update(p2 as int, row));
                assert(current_pos@ =~= cur_b.update(row as int, (p1 + 1) as usize).update(col as int, (p2 + 1) as usize));
                assert forall|v: int| 0 <= v < n implies #[trigger] seg_holds(
                    aat_rows@,
                    pe@,
                    current_pos@,
                    free_position as int,
                    n as int,
                    v,
                    seg_target(a, s2, v, -1, -1),
                ) by {
                    assert(seg_holds(aat_rows@, pe@, current_pos@, free_position as int, n as int, v, t2(v)));
                }
                s = s2;
                lg = lg.update(col as int, (pos + 1) as isize);
            }
            pos = pos + 1;
        }
        proof {
            lemma_close(a, s, lg, col as int);
            let s2 = close_state(s, col as int, n as int);
            lemma_target_same(a, s, s2, -1, -1);
            s = s2;
        }
        col = col + 1;
    }
    proof {
        lemma_scan_complete(a, s, lg);
        assert forall|v: int| 0 <= v < n implies #[trigger] current_pos@[v] == seg_end(pe@, free_position as int, n as int, v) by {
            assert(seg_holds(aat_rows@, pe@, current_pos@, free_position as int, n as int, v, seg_target(a, s, v, -1, -1)));
            assert(seg_end(pe@, free_position as int, n as int, v) - pe@[v] == aat_neighbors(a, v).len());
        }
        assert forall|v: int| 0 <= v < n implies #[trigger] column_listed(a, aat_rows@, pe@, free_position as int, v) by {
            assert(seg_holds(aat_rows@, pe@, current_pos@, free_position as int, n as int, v, seg_target(a, s, v, -1, -1)));
            assert(current_pos@[v] == seg_end(pe@, free_position as int, n as int, v));
        }
    }
}

} // verus!
