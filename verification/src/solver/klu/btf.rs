use vstd::prelude::*;

use crate::solver::btf_max_transversal::btf_max_transversal;
use crate::solver::btf_max_transversal::is_matching;
use crate::solver::btf_max_transversal::matched_rows;
use crate::solver::btf_scc::blocks_in_order;
use crate::solver::btf_scc::blocks_ok;
use crate::solver::btf_scc::blocks_strong;
use crate::solver::btf_scc::blocks_upper;
use crate::solver::btf_scc::btf_scc;
use crate::solver::btf_scc::graph_ok;
use crate::solver::btf_scc::qcol;
use crate::solver::matrix::csc::CscMatrix;
use crate::solver::utils::flip;
use crate::solver::utils::spec_flip;
use crate::solver::utils::spec_unflip;

verus! {

/// Column `c` is matched to some row below `upto`.
pub open spec fn col_matched(perm: Seq<isize>, upto: int, c: int) -> bool {
    exists|r: int| 0 <= r < upto && perm[r] == c
}

/// The rows below `n` left unmatched.
pub open spec fn unmatched_rows(perm: Seq<isize>, n: int) -> Set<int> {
    Set::new(|r: int| 0 <= r < n && perm[r] == -1)
}

/// The columns below `n` left unmatched.
pub open spec fn unmatched_cols(perm: Seq<isize>, n: int) -> Set<int> {
    Set::new(|c: int| 0 <= c < n && !col_matched(perm, n, c))
}

/// The unmatched rows from `lo` on.
pub open spec fn rows_left(perm: Seq<isize>, lo: int, n: int) -> Set<int> {
    Set::new(|r: int| lo <= r < n && perm[r] == -1)
}

/// `qc` completes a matching of `nmatch` rows of the square matrix `a` to a
/// column permutation: `unflip(qc[0..n])` is a permutation of `0..n`, each
/// matched row `i` keeps its column `qc[i] >= 0`, a stored entry, and each of
/// the other rows gets an unmatched column in flipped form.
pub open spec fn btf_completion<V>(a: &CscMatrix<V>, qc: Seq<isize>, nmatch: int) -> bool {
    let n = a.dim.ncols as int;
    &&& qc.len() >= n
    &&& forall|i: int| 0 <= i < n ==> #[trigger] qc[i] != -1 && qc[i] > isize::MIN && 0 <= spec_unflip(qc[i] as int) < n
    &&& forall|i: int, j: int|
        0 <= i < j < n ==> spec_unflip(#[trigger] qc[i] as int) != spec_unflip(#[trigger] qc[j] as int)
    &&& forall|i: int| 0 <= i < n && #[trigger] qc[i] >= 0 ==> a.has_entry(i, qc[i] as int)
    &&& Set::new(|i: int| 0 <= i < n && qc[i] >= 0).len() == nmatch
}

/// The column permutation `q` and the blocks `(p, r)` come from a completed
/// matching: `q[k] = qc[p[k]]`, and the matrix is block upper triangular
/// under the graph of `qc`, and each of its blocks is strongly connected.
pub open spec fn btf_result<V>(a: &CscMatrix<V>, q: Seq<isize>, p: Seq<isize>, r: Seq<usize>, nmatch: int, nb: int) -> bool {
    exists|qc: Seq<isize>|
        #![trigger btf_completion(a, qc, nmatch)]
        btf_completion(a, qc, nmatch) && blocks_upper(a, qc, p, r, nb) && blocks_strong(a, qc, p, r, nb) && forall|k: int|
            0 <= k < a.dim.ncols ==> #[trigger] q[k] == qc[p[k] as int]
}

/// In a square matrix, a matching leaves as many rows as columns unmatched,
/// and the matched and unmatched rows together are all the rows.
proof fn lemma_unmatched_counts<V>(a: &CscMatrix<V>, perm: Seq<isize>)
    requires
        is_matching(a, perm),
        a.dim.nrows == a.dim.ncols,
    ensures
        unmatched_rows(perm, a.dim.ncols as int).len() == unmatched_cols(perm, a.dim.ncols as int).len(),
        unmatched_rows(perm, a.dim.ncols as int).len() + matched_rows(perm, a.dim.nrows as int).len() == a.dim.ncols,
        unmatched_rows(perm, a.dim.ncols as int).finite(),
{
    reveal(is_matching);
    let n = a.dim.ncols as int;
    let range = vstd::set_lib::set_int_range(0, n);
    vstd::set_lib::lemma_int_range(0, n);
    let mr = matched_rows(perm, n);
    let ur = unmatched_rows(perm, n);
    let uc = unmatched_cols(perm, n);
    let mc = Set::new(|c: int| 0 <= c < n && col_matched(perm, n, c));
    assert(mr.subset_of(range));
    assert(ur.subset_of(range));
    assert(uc.subset_of(range));
    assert(mc.subset_of(range));
    vstd::set_lib::lemma_len_subset(mr, range);
    vstd::set_lib::lemma_len_subset(ur, range);
    vstd::set_lib::lemma_len_subset(uc, range);
    vstd::set_lib::lemma_len_subset(mc, range);
    assert(mr + ur =~= range);
    vstd::set_lib::lemma_set_disjoint_lens(mr, ur);
    assert(mc + uc =~= range);
    vstd::set_lib::lemma_set_disjoint_lens(mc, uc);
    let f = |r: int| perm[r] as int;
    assert(vstd::relations::injective_on(f, mr)) by {
        assert forall|x: int, y: int| mr.contains(x) && mr.contains(y) && #[trigger] f(x) == #[trigger] f(y) implies x
            == y by {
            if x != y {
                assert(perm[x] != perm[y]);
            }
        }
    }
    assert(mr.map(f) =~= mc) by {
        assert forall|c: int| mc.contains(c) implies #[trigger] mr.map(f).contains(c) by {
            let r = choose|r: int| 0 <= r < n && perm[r] == c;
            assert(mr.contains(r) && f(r) == c);
        }
        assert forall|c: int| #[trigger] mr.map(f).contains(c) implies mc.contains(c) by {
            let r = choose|r: int| mr.contains(r) && f(r) == c;
            assert(0 <= perm[r] < n);
        }
    }
    vstd::set_lib::lemma_map_size(mr, mc, f);
}

/// A list of distinct values has as many elements as its set of values.
proof fn lemma_list_len(l: Seq<usize>, s: Set<int>)
    requires
        forall|i: int, j: int| 0 <= i < j < l.len() ==> #[trigger] l[i] != #[trigger] l[j],
        forall|i: int| 0 <= i < l.len() ==> s.contains(#[trigger] l[i] as int),
        forall|c: int| #[trigger] s.contains(c) ==> exists|i: int| 0 <= i < l.len() && l[i] == c,
    ensures
        l.len() == s.len(),
{
    let t = l.map_values(|x: usize| x as int);
    assert(t.no_duplicates()) by {
        assert forall|i: int, j: int| 0 <= i < t.len() && 0 <= j < t.len() && i != j implies t[i] != t[j] by {
            if i < j {
                assert(l[i] != l[j]);
            } else {
                assert(l[j] != l[i]);
            }
        }
    }
    t.unique_seq_to_set();
    assert(t.to_set() =~= s) by {
        assert forall|c: int| #[trigger] s.contains(c) implies t.to_set().contains(c) by {
            let i = choose|i: int| 0 <= i < l.len() && l[i] == c;
            assert(t[i] == c);
        }
    }
}

/// Removing the first row of what is left.
proof fn lemma_rows_left_step(perm: Seq<isize>, lo: int, n: int)
    requires
        0 <= lo < n,
    ensures
        rows_left(perm, lo, n).finite(),
        perm[lo] == -1 ==> rows_left(perm, lo + 1, n).len() + 1 == rows_left(perm, lo, n).len(),
        perm[lo] != -1 ==> rows_left(perm, lo + 1, n).len() == rows_left(perm, lo, n).len(),
{
    let range = vstd::set_lib::set_int_range(lo, n);
    vstd::set_lib::lemma_int_range(lo, n);
    assert(rows_left(perm, lo, n).subset_of(range));
    vstd::set_lib::lemma_len_subset(rows_left(perm, lo, n), range);
    if perm[lo] == -1 {
        assert(rows_left(perm, lo + 1, n) =~= rows_left(perm, lo, n).remove(lo));
    } else {
        assert(rows_left(perm, lo + 1, n) =~= rows_left(perm, lo, n));
    }
}

/// Structural analysis for the block triangular form of a square matrix:
/// a maximum matching of rows to columns, its completion to a column
/// permutation (unmatched rows take the unmatched columns, flipped), and the
/// strongly connected blocks of the matched graph. Returns the number of
/// matched rows and the number of blocks; `row_permutations`, `blocks` and
/// `column_permutations` receive the symmetric permutation, the block
/// boundaries and the permuted completed matching.
pub fn btf<V>(
    a: &CscMatrix<V>,
    row_permutations: &mut [isize],
    column_permutations: &mut [isize],
    blocks: &mut [usize],
) -> (r: (usize, usize))
    requires
        a.wf(),
        a.dim.nrows == a.dim.ncols,
        a.dim.ncols < isize::MAX,
        old(row_permutations)@.len() >= a.dim.ncols,
        old(column_permutations)@.len() >= a.dim.ncols,
        old(blocks)@.len() >= a.dim.ncols + 1,
    ensures
        r.0 <= a.dim.ncols,
        forall|q: Seq<isize>| #[trigger] is_matching(a, q) ==> matched_rows(q, a.dim.nrows as int).len() <= r.0,
        final(row_permutations)@.len() == old(row_permutations)@.len(),
        final(column_permutations)@.len() == old(column_permutations)@.len(),
        final(blocks)@.len() == old(blocks)@.len(),
        blocks_ok(final(row_permutations)@, final(blocks)@, a.dim.ncols as int, r.1 as int),
        blocks_in_order(final(row_permutations)@, final(blocks)@, r.1 as int),
        btf_result(a, final(column_permutations)@, final(row_permutations)@, final(blocks)@, r.0 as int, r.1 as int),
{
    let n = a.dim.ncols;
    let number_of_matches = btf_max_transversal(a, column_permutations);
    let ghost perm = column_permutations@;
    proof {
        lemma_unmatched_counts(a, perm);
        reveal(is_matching);
    }
    let ghost mut idx: Seq<int> = Seq::new(n as nat, |i: int| 0);
    let ghost mut nbad0: int = 0;
    let ghost mut ulist: Seq<usize> = Seq::empty();
    if number_of_matches < n {
        // flag the matched columns
        let mut flag: Vec<usize> = vec![0; n];
        let mut col: usize = 0;
        while col < n
            invariant
                col <= n,
                n == a.dim.ncols,
                perm == column_permutations@,
                perm.len() >= n,
                is_matching(a, perm),
                a.dim.nrows == n,
                flag@.len() == n,
                forall|c: int| 0 <= c < n ==> (#[trigger] flag@[c] != 0) == col_matched(perm, col as int, c),
            decreases n - col,
        {
            let j = column_permutations[col];
            proof {
                reveal(is_matching);
            }
            if j != -1 {
                flag.set(j as usize, 1);
            }
            proof {
                assert forall|c: int| 0 <= c < n implies (#[trigger] flag@[c] != 0) == col_matched(perm, col + 1, c) by {
                    if col_matched(perm, col + 1, c) && !col_matched(perm, col as int, c) {
                        assert(perm[col as int] == c);
                    }
                    if col_matched(perm, col as int, c) {
                        let r = choose|r: int| 0 <= r < col && perm[r] == c;
                        assert(0 <= r < col + 1 && perm[r] == c);
                    }
                }
            }
            col = col + 1;
        }
        // list the unmatched columns, last one first
        let mut nbadcol: usize = 0;
        let mut unmatched: Vec<usize> = vec![0; n];
        let mut j: usize = n;
        while j > 0
            invariant
                j <= n,
                n == a.dim.ncols,
                nbadcol <= n - j,
                flag@.len() == n,
                unmatched@.len() == n,
                forall|c: int| 0 <= c < n ==> (#[trigger] flag@[c] != 0) == col_matched(perm, n as int, c),
                forall|i: int| 0 <= i < nbadcol ==> j <= #[trigger] unmatched@[i] < n && !col_matched(perm, n as int, unmatched@[i] as int),
                forall|i1: int, i2: int| 0 <= i1 < i2 < nbadcol ==> #[trigger] unmatched@[i1] > #[trigger] unmatched@[i2],
                forall|c: int| j <= c < n && !col_matched(perm, n as int, c) ==> exists|i: int| 0 <= i < nbadcol && #[trigger] unmatched@[i] == c,
            decreases j,
        {
            j = j - 1;
            let ghost u0 = unmatched@;
            let ghost nb0 = nbadcol as int;
            if flag[j] == 0 {
                unmatched.set(nbadcol, j);
                nbadcol = nbadcol + 1;
            }
            proof {
                assert((flag@[j as int] != 0) == col_matched(perm, n as int, j as int));
                assert forall|c: int| j <= c < n && !col_matched(perm, n as int, c) implies exists|i: int|
                    0 <= i < nbadcol && #[trigger] unmatched@[i] == c by {
                    if c == j {
                        assert(unmatched@[nbadcol - 1] == c);
                    } else {
                        let i = choose|i: int| 0 <= i < nb0 && #[trigger] u0[i] == c;
                        assert(unmatched@[i] == c);
                    }
                }
            }
        }
        proof {
            ulist = unmatched@.take(nbadcol as int);
            nbad0 = nbadcol as int;
            assert forall|i1: int, i2: int| 0 <= i1 < i2 < ulist.len() implies #[trigger] ulist[i1] != #[trigger] ulist[i2] by {
                assert(unmatched@[i1] > unmatched@[i2]);
            }
            assert forall|c: int| #[trigger] unmatched_cols(perm, n as int).contains(c) implies exists|i: int|
                0 <= i < ulist.len() && ulist[i] == c by {
                let i = choose|i: int| 0 <= i < nbadcol && #[trigger] unmatched@[i] == c;
                assert(ulist[i] == c);
            }
            lemma_list_len(ulist, unmatched_cols(perm, n as int));
            assert(rows_left(perm, 0, n as int) =~= unmatched_rows(perm, n as int));
        }
        // give each unmatched row an unmatched column
        let mut col: usize = 0;
        while col < n
            invariant
                col <= n,
                n == a.dim.ncols,
                a.dim.nrows == n,
                is_matching(a, perm),
                nbadcol <= nbad0 <= n,
                ulist.len() == nbad0,
                forall|i: int| 0 <= i < nbadcol ==> #[trigger] unmatched@[i] == ulist[i],
                unmatched@.len() == n,
                forall|i: int| 0 <= i < nbad0 ==> #[trigger] ulist[i] < n && !col_matched(perm, n as int, ulist[i] as int),
                forall|i1: int, i2: int| 0 <= i1 < i2 < nbad0 ==> #[trigger] ulist[i1] != #[trigger] ulist[i2],
                nbadcol == rows_left(perm, col as int, n as int).len(),
                column_permutations@.len() == perm.len(),
                perm.len() >= n,
                n < isize::MAX,
                idx.len() == n,
                forall|r: int| col <= r < n ==> #[trigger] column_permutations@[r] == perm[r],
                forall|r: int| 0 <= r < col && perm[r] != -1 ==> #[trigger] column_permutations@[r] == perm[r],
                forall|r: int|
                    0 <= r < col && perm[r] == -1 ==> nbadcol <= #[trigger] idx[r] < nbad0 && column_permutations@[r]
                        == spec_flip(ulist[idx[r]] as int),
                forall|r1: int, r2: int|
                    0 <= r1 < r2 < col && perm[r1] == -1 && perm[r2] == -1 ==> #[trigger] idx[r1] != #[trigger] idx[r2],
            decreases n - col,
        {
            proof {
                lemma_rows_left_step(perm, col as int, n as int);
            }
            if column_permutations[col] == -1 && nbadcol > 0 {
                let j = unmatched[nbadcol - 1];
                nbadcol = nbadcol - 1;
                column_permutations[col] = flip(j as isize);
                proof {
                    idx = idx.update(col as int, nbadcol as int);
                }
            }
            col = col + 1;
        }
    } else {
        proof {
            // every row is matched
            let ur = unmatched_rows(perm, n as int);
            assert(ur.len() == 0);
            assert forall|r: int| 0 <= r < n implies perm[r] != -1 by {
                if perm[r] == -1 {
                    assert(ur.contains(r));
                    vstd::set_lib::lemma_set_empty_equivalency_len(ur);
                }
            }
        }
    }
    let ghost qc = column_permutations@;
    proof {
        reveal(is_matching);
        assert forall|i: int| 0 <= i < n implies #[trigger] qc[i] != -1 && qc[i] > isize::MIN && 0 <= spec_unflip(
            qc[i] as int,
        ) < n by {
            if perm[i] == -1 {
                assert(number_of_matches < n);
                assert(0 <= idx[i] < nbad0);
                assert(qc[i] == spec_flip(ulist[idx[i]] as int));
                assert(ulist[idx[i]] < n);
            } else {
                assert(qc[i] == perm[i]);
                assert(0 <= perm[i] < n);
            }
        }
        assert forall|i: int, j: int| 0 <= i < j < n implies spec_unflip(#[trigger] qc[i] as int) != spec_unflip(
            #[trigger] qc[j] as int,
        ) by {
            if perm[i] != -1 && perm[j] != -1 {
                assert(perm[i] != perm[j]);
            } else if perm[i] == -1 && perm[j] == -1 {
                assert(idx[i] != idx[j]);
                assert(ulist[idx[i]] != ulist[idx[j]]) by {
                    if idx[i] < idx[j] {
                        assert(ulist[idx[i]] != ulist[idx[j]]);
                    } else {
                        assert(ulist[idx[j]] != ulist[idx[i]]);
                    }
                }
            } else if perm[i] != -1 {
                assert(col_matched(perm, n as int, perm[i] as int));
                assert(!col_matched(perm, n as int, ulist[idx[j]] as int));
            } else {
                assert(col_matched(perm, n as int, perm[j] as int));
                assert(!col_matched(perm, n as int, ulist[idx[i]] as int));
            }
        }
        assert(Set::new(|i: int| 0 <= i < n && qc[i] >= 0) =~= matched_rows(perm, n as int)) by {
            assert forall|i: int| 0 <= i < n implies (qc[i] >= 0) == (perm[i] != -1) by {
                if perm[i] == -1 {
                    assert(0 <= idx[i] < nbad0);
                }
            }
        }
        assert forall|i: int| 0 <= i < n && #[trigger] qc[i] >= 0 implies a.has_entry(i, qc[i] as int) by {
            if perm[i] == -1 {
                assert(0 <= idx[i] < nbad0);
            }
        }
        assert(btf_completion(a, qc, number_of_matches as int));
        assert forall|x: int| 0 <= x < n implies #[trigger] qc[x] > isize::MIN && 0 <= qcol(qc, x) < n by {
            assert(qc[x] != -1);
        }
        assert(graph_ok(a, qc));
    }
    let number_of_scc_blocks = btf_scc(a, column_permutations, row_permutations, blocks);
    proof {
        assert(btf_completion(a, qc, number_of_matches as int) && blocks_upper(a, qc, row_permutations@, blocks@, number_of_scc_blocks as int)
            && blocks_strong(a, qc, row_permutations@, blocks@, number_of_scc_blocks as int));
    }
    (number_of_matches, number_of_scc_blocks)
}

} // verus!
