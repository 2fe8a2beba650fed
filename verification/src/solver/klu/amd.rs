use vstd::prelude::*;

use crate::solver::aat::aat_degree_sum;
use crate::solver::aat::aat_first_phase;
use crate::solver::aat::aat_neighbors;
use crate::solver::aat::aat_second_phase;
use crate::solver::aat::lemma_degree_mono;
use crate::solver::aat::seg_end;
use crate::solver::aat::segs_layout;
use crate::solver::amd::AmdControl;
use crate::solver::amd_core::AmdError;
use crate::solver::amd_core::AmdReport;
use crate::solver::amd_core::lemma_unlisted_below;
use crate::solver::amd_core::pivots_account;
use crate::solver::matrix::csc::CscMatrix;
use crate::solver::utils::is_permutation;

verus! {

/// The size of the AMD workspace for `nzaat` entries of A + A^T: the
/// entries, a fifth more as elbow room, and seven arrays of `n`.
pub open spec fn amd_workspace(nzaat: int, n: int) -> int {
    nzaat + nzaat / 5 + 7 * n
}

/// `n` zeros.
fn zeros(n: usize) -> (r: Vec<usize>)
    ensures
        r@.len() == n,
        forall|i: int| 0 <= i < n ==> #[trigger] r@[i] == 0,
{
    let mut r: Vec<usize> = Vec::new();
    let mut i: usize = 0;
    while i < n
        invariant
            i <= n,
            r@.len() == i,
            forall|j: int| 0 <= j < i ==> #[trigger] r@[j] == 0,
        decreases n - i,
    {
        r.push(0);
        i = i + 1;
    }
    r
}

/// `n` copies of `v`.
fn filled(n: usize, v: isize) -> (r: Vec<isize>)
    ensures
        r@.len() == n,
{
    let mut r: Vec<isize> = Vec::new();
    let mut i: usize = 0;
    while i < n
        invariant
            i <= n,
            r@.len() == i,
        decreases n - i,
    {
        r.push(v);
        i = i + 1;
    }
    r
}

/// The AMD ordering of a square matrix with sorted columns and no
/// duplicates, on the pattern of A + A^T: the pattern is counted and laid
/// out in adjacency lists (`aat_first_phase`, `aat_second_phase`), with a
/// fifth of elbow room, and ordered by `amd` with the default control.
/// `permutation[k]` becomes the column at position `k`.
pub fn amd<V>(a: &CscMatrix<V>, permutation: &mut [isize]) -> (r: Result<AmdReport, AmdError>)
    requires
        a.wf(),
        a.dim.nrows == a.dim.ncols,
        a.dim.ncols <= isize::MAX,
        a.spec_nnz() <= isize::MAX,
        old(permutation)@.len() >= a.dim.ncols,
        amd_workspace(aat_degree_sum(a, a.dim.ncols as int) as int, a.dim.ncols as int) <= isize::MAX,
    ensures
        r is Ok ==> is_permutation(final(permutation)@, a.dim.ncols as int),
        r matches Ok(rep) ==> exists|u: int| 0 <= u <= a.dim.ncols && #[trigger] pivots_account(rep.pivots@, a.dim.ncols as int, u),
{
    let n = a.dim.ncols;
    let ghost total = aat_degree_sum(a, n as int);
    // column_lengths[i]: the number of entries of column i of A + A^T
    // without the diagonal
    let mut column_lengths = zeros(n);
    let mut inverse_permutation = filled(n, 0);
    let info = aat_first_phase(a, &mut column_lengths, permutation);
    let nzaat = info.nz_aat;
    // amd works best with some elbow room
    let workspace_size = nzaat + nzaat / 5 + 7 * n;
    let iwlen = workspace_size - 6 * n;
    let mut nv = filled(n, 0);
    let mut head = filled(n, 0);
    let mut elen = filled(n, 0);
    let mut degree = filled(n, 0);
    let mut w = filled(n, 0);
    // the lists of A + A^T one after another
    let mut pe_u = zeros(n);
    let mut free_position: usize = 0;
    let mut col: usize = 0;
    while col < n
        invariant
            col <= n,
            n == a.dim.ncols,
            pe_u@.len() == n,
            column_lengths@.len() == n,
            total == aat_degree_sum(a, n as int),
            total <= usize::MAX,
            forall|v: int| 0 <= v < n ==> #[trigger] column_lengths@[v] == aat_neighbors(a, v).len(),
            forall|v: int| 0 <= v < col ==> #[trigger] pe_u@[v] == aat_degree_sum(a, v),
            free_position == aat_degree_sum(a, col as int),
        decreases n - col,
    {
        pe_u.set(col, free_position);
        proof {
            lemma_degree_mono(a, col + 1, n as int);
        }
        free_position = free_position + column_lengths[col];
        col = col + 1;
    }
    let mut current_pos = pe_u.clone();
    let mut rows = zeros(iwlen);
    proof {
        assert(free_position == nzaat);
        assert forall|v: int| 0 <= v < n implies #[trigger] seg_end(pe_u@, free_position as int, n as int, v) - pe_u@[v]
            == aat_neighbors(a, v).len() by {
            if v + 1 < n {
                assert(pe_u@[v + 1] == aat_degree_sum(a, v + 1));
            }
        }
        assert(segs_layout(a, pe_u@, free_position as int, rows@.len() as int));
    }
    aat_second_phase(a, free_position, &mut rows, &mut current_pos, &pe_u, &mut w);
    // the lists and their starts as signed indices
    let mut iw = filled(iwlen, 0);
    let mut k: usize = 0;
    while k < iwlen
        invariant
            k <= iwlen,
            iw@.len() == iwlen,
            rows@.len() == iwlen,
        decreases iwlen - k,
    {
        iw.set(k, rows[k] as isize);
        k = k + 1;
    }
    let mut pe = filled(n, 0);
    let mut k: usize = 0;
    while k < n
        invariant
            k <= n,
            pe@.len() == n,
            pe_u@.len() == n,
        decreases n - k,
    {
        pe.set(k, pe_u[k] as isize);
        k = k + 1;
    }
    let control = AmdControl::default();
    let ghost lens = column_lengths@;
    let ghost dense = control.get_dense_spec(n as int);
    let r = crate::solver::amd_core::amd(
        n,
        &mut pe,
        &mut iw,
        &mut column_lengths,
        iwlen,
        free_position,
        &mut nv,
        &mut inverse_permutation,
        permutation,
        &mut head,
        &mut elen,
        &mut degree,
        &mut w,
        control,
    );
    proof {
        if r is Ok {
            lemma_unlisted_below(lens, dense, n as int);
            let p = permutation@;
            assert forall|i: int, j: int| 0 <= i < n && 0 <= j < n && i != j implies #[trigger] p[i] != #[trigger] p[j] by {
                assert(inverse_permutation@[p[i] as int] == i);
                assert(inverse_permutation@[p[j] as int] == j);
            }
        }
    }
    r
}

} // verus!
