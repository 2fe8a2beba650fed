use vstd::prelude::*;

pub mod amd;
pub mod btf;
pub mod dump;
pub mod dump_read;
pub mod dump_cmp;
pub mod error;

verus! {

/// Statistics of a numeric factorization.
#[derive(Debug, Clone, Default)]
pub struct KluNumericMetrics {
    /// Number of workspace growth reallocations during factorization.
    pub nrealloc: usize,
    /// Number of off-diagonal pivots chosen.
    pub noffdiag: usize,
    /// First `k` at which a zero pivot `U(k,k)` was met, in the permuted system.
    pub numerical_rank: Option<usize>,
    /// Column of the input matrix that corresponds to `numerical_rank`.
    pub singular_col: Option<usize>,
}

/// Column `j` of the pattern ascends and all its row indices are below `n`.
pub open spec fn klu_column_ok(n: int, cp: Seq<usize>, ri: Seq<usize>, j: int) -> bool {
    &&& cp[j] <= cp[j + 1]
    &&& forall|p: int| cp[j] <= p < cp[j + 1] ==> #[trigger] ri[p] < n
}

/// The compressed pattern `(column_pointers, row_indices)` of an `n`-by-`n`
/// matrix is usable by the solver: `n > 0`, the pointers start at 0 and
/// ascend, and every row index is below `n`.
pub open spec fn klu_valid_spec(n: int, cp: Seq<usize>, ri: Seq<usize>) -> bool {
    &&& n > 0
    &&& cp[0] == 0
    &&& forall|j: int| 0 <= j < n ==> #[trigger] klu_column_ok(n, cp, ri, j)
}

/// The columns before `j` pass the checks.
pub open spec fn klu_valid_upto(n: int, cp: Seq<usize>, ri: Seq<usize>, j: int) -> bool {
    forall|k: int| 0 <= k < j ==> #[trigger] klu_column_ok(n, cp, ri, k)
}

/// Reading the pattern column by column stays within `row_indices` up to the
/// first column that fails a check.
#[verifier::opaque]
pub open spec fn klu_scan_safe(n: int, cp: Seq<usize>, ri: Seq<usize>) -> bool {
    forall|j: int|
        0 <= j < n && cp[0] == 0 && klu_valid_upto(n, cp, ri, j) && #[trigger] cp[j] <= cp[j + 1] ==> cp[j + 1] <= ri.len()
}

/// All row indices at positions `p1..p2` are below `n`.
fn rows_below(n: usize, row_indices: &[usize], p1: usize, p2: usize) -> (r: bool)
    requires
        p1 <= p2 <= row_indices@.len(),
    ensures
        r == (forall|p: int| p1 <= p < p2 ==> #[trigger] row_indices@[p] < n),
{
    let mut p = p1;
    while p < p2
        invariant
            p1 <= p <= p2,
            p2 <= row_indices@.len(),
            forall|q: int| p1 <= q < p ==> #[trigger] row_indices@[q] < n,
        decreases p2 - p,
    {
        if row_indices[p] >= n {
            return false;
        }
        p = p + 1;
    }
    true
}

/// Checks the compressed pattern of an `n`-by-`n` matrix (see `klu_valid_spec`).
pub fn klu_valid(n: usize, column_pointers: &[usize], row_indices: &[usize]) -> (r: bool)
    requires
        n > 0 ==> column_pointers@.len() >= n + 1,
        klu_scan_safe(n as int, column_pointers@, row_indices@),
    ensures
        r == klu_valid_spec(n as int, column_pointers@, row_indices@),
{
    if n == 0 {
        return false;
    }
    if column_pointers[0] != 0 {
        return false;
    }
    let ghost cp = column_pointers@;
    let ghost ri = row_indices@;
    let mut j: usize = 0;
    while j < n
        invariant
            0 <= j <= n,
            cp == column_pointers@,
            ri == row_indices@,
            cp.len() >= n + 1,
            cp[0] == 0,
            klu_valid_upto(n as int, cp, ri, j as int),
            klu_scan_safe(n as int, cp, ri),
        decreases n - j,
    {
        let p1 = column_pointers[j];
        let p2 = column_pointers[j + 1];
        if p1 > p2 {
            proof {
                assert(!klu_column_ok(n as int, cp, ri, j as int));
            }
            return false;
        }
        proof {
            reveal(klu_scan_safe);
            assert(cp[j as int] <= cp[j + 1]);
        }
        if !rows_below(n, row_indices, p1, p2) {
            proof {
                assert(!klu_column_ok(n as int, cp, ri, j as int));
            }
            return false;
        }
        proof {
            assert(klu_column_ok(n as int, cp, ri, j as int));
        }
        j = j + 1;
    }
    true
}

} // verus!
