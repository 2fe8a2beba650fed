use vstd::prelude::*;

use crate::solver::btf_max_transversal::flipped_path;
use crate::solver::btf_max_transversal::in_column;
use crate::solver::btf_max_transversal::is_matching;
use crate::solver::btf_max_transversal::matched_rows;
use crate::solver::btf_max_transversal::stack_ok;
use crate::solver::matrix::csc::CscMatrix;

verus! {

// What the augmenting-path search of the maximum transversal has seen, for
// the certificate it leaves when it finds no path: the columns it marked are
// closed under the matching. Closed sets of columns bound every matching,
// which makes the transversal maximum.

/// Column `c` is matched to some row below `nrows`.
pub open spec fn col_used(perm: Seq<isize>, nrows: int, c: int) -> bool {
    exists|r: int| 0 <= r < nrows && perm[r] == c
}

/// The set `s` of columns is closed under the matching `perm`: every row
/// stored in a column of `s` is matched, to a column of `s`.
pub open spec fn cols_closed<V>(m: &CscMatrix<V>, perm: Seq<isize>, s: Set<int>) -> bool {
    &&& forall|c: int| #[trigger] s.contains(c) ==> 0 <= c < m.dim.ncols
    &&& forall|c: int, p: int|
        #![trigger s.contains(c), m.row_indices@[p]]
        s.contains(c) && m.column_pointers@[c] <= p < m.column_pointers@[c + 1] ==> perm[m.row_indices@[p] as int] != -1
            && s.contains(perm[m.row_indices@[p] as int] as int)
}

/// Closed sets of columns stay closed together.
pub proof fn lemma_closed_union<V>(m: &CscMatrix<V>, perm: Seq<isize>, s1: Set<int>, s2: Set<int>)
    requires
        cols_closed(m, perm, s1),
        cols_closed(m, perm, s2),
    ensures
        cols_closed(m, perm, s1 + s2),
{
    let u = s1 + s2;
    assert forall|c: int, p: int|
        #![trigger u.contains(c), m.row_indices@[p]]
        u.contains(c) && m.column_pointers@[c] <= p < m.column_pointers@[c + 1] implies perm[m.row_indices@[p] as int] != -1
            && u.contains(perm[m.row_indices@[p] as int] as int) by {
        if s1.contains(c) {
            assert(s1.contains(perm[m.row_indices@[p] as int] as int));
        } else {
            assert(s2.contains(perm[m.row_indices@[p] as int] as int));
        }
    }
}

/// The columns marked by the search started at `current`.
pub open spec fn marked_cols(visited: Seq<usize>, current: usize, n: int) -> Set<int> {
    Set::new(|x: int| 0 <= x < n && visited[x] == current)
}

/// Marked columns that are each closed under the matching form a closed
/// set.
pub proof fn lemma_marked_closed<V>(m: &CscMatrix<V>, perm: Seq<isize>, visited: Seq<usize>, current: usize)
    requires
        visited.len() == m.dim.ncols,
        forall|c: int| 0 <= c < m.dim.ncols && #[trigger] visited[c] == current ==> col_closed(m, perm, visited, current, c),
    ensures
        cols_closed(m, perm, marked_cols(visited, current, m.dim.ncols as int)),
{
    reveal(col_closed);
    let s = marked_cols(visited, current, m.dim.ncols as int);
    assert forall|c: int, p: int|
        #![trigger s.contains(c), m.row_indices@[p]]
        s.contains(c) && m.column_pointers@[c] <= p < m.column_pointers@[c + 1] implies perm[m.row_indices@[p] as int] != -1
            && s.contains(perm[m.row_indices@[p] as int] as int) by {
        assert(visited[c] == current);
        assert(col_closed(m, perm, visited, current, c));
        assert(target_marked(m, perm, visited, current, p));
    }
}

/// An augmenting path never enters a closed set of columns.
pub proof fn lemma_path_avoids_closed<V>(
    m: &CscMatrix<V>,
    perm: Seq<isize>,
    after: Seq<isize>,
    current: usize,
    h: int,
    cs: Seq<usize>,
    rs: Seq<usize>,
    s: Set<int>,
    i: int,
)
    requires
        flipped_path(m, perm, after, current, h, cs, rs),
        cols_closed(m, perm, s),
        0 <= i <= h,
    ensures
        !s.contains(cs[i] as int),
    decreases h - i,
{
    reveal(flipped_path);
    if s.contains(cs[i] as int) {
        assert(in_column(m, rs[i] as int, cs[i] as int));
        let p = choose|p: int|
            m.column_pointers@[cs[i] as int] <= p < m.column_pointers@[cs[i] + 1] && #[trigger] m.row_indices@[p] == rs[i];
        assert(perm[m.row_indices@[p] as int] != -1 && s.contains(perm[m.row_indices@[p] as int] as int));
        if i < h {
            assert(perm[rs[i] as int] == cs[i + 1]);
            lemma_path_avoids_closed(m, perm, after, current, h, cs, rs, s, i + 1);
        }
    }
}

/// Flipping an augmenting path from `current`: `current` becomes matched,
/// every matched column stays matched, and every closed set of columns
/// stays closed (the path cannot meet one).
pub proof fn lemma_flip_keeps<V>(
    m: &CscMatrix<V>,
    perm: Seq<isize>,
    after: Seq<isize>,
    current: usize,
    h: int,
    cs: Seq<usize>,
    rs: Seq<usize>,
)
    requires
        flipped_path(m, perm, after, current, h, cs, rs),
    ensures
        col_used(after, m.dim.nrows as int, current as int),
        forall|c: int| 0 <= c && col_used(perm, m.dim.nrows as int, c) ==> col_used(after, m.dim.nrows as int, c),
        forall|s: Set<int>| cols_closed(m, perm, s) ==> cols_closed(m, after, s),
{
    reveal(flipped_path);
    reveal(is_matching);
    let nr = m.dim.nrows as int;
    assert(after[rs[0] as int] == cs[0] as isize);
    assert(0 <= rs[0] < nr && after[rs[0] as int] == current);
    assert forall|c: int| 0 <= c && col_used(perm, nr, c) implies col_used(after, nr, c) by {
        let r = choose|r: int| 0 <= r < nr && perm[r] == c;
        if exists|i: int| -1 < i <= h && rs[i] == r {
            let i = choose|i: int| -1 < i <= h && rs[i] == r;
            if i == h {
                assert(perm[rs[h] as int] == -1);
            } else {
                assert(perm[rs[i] as int] == cs[i + 1]);
                let r2 = rs[i + 1] as int;
                assert(after[r2] == cs[i + 1] as isize);
                assert(0 <= r2 < nr && after[r2] == c);
                assert(col_used(after, nr, c));
            }
        } else {
            assert(r < perm.len());
            assert(forall|i: int| -1 < i <= h ==> #[trigger] rs[i] != r);
            assert(after[r] == perm[r]);
            assert(col_used(after, nr, c));
        }
    }
    assert forall|s: Set<int>| cols_closed(m, perm, s) implies cols_closed(m, after, s) by {
        assert forall|c: int, p: int|
            #![trigger s.contains(c), m.row_indices@[p]]
            s.contains(c) && m.column_pointers@[c] <= p < m.column_pointers@[c + 1] implies after[m.row_indices@[p] as int] != -1
                && s.contains(after[m.row_indices@[p] as int] as int) by {
            let r = m.row_indices@[p] as int;
            assert(perm[r] != -1 && s.contains(perm[r] as int));
            if exists|i: int| -1 < i <= h && rs[i] == r {
                let i = choose|i: int| -1 < i <= h && rs[i] == r;
                if i == h {
                    assert(perm[rs[h] as int] == -1);
                } else {
                    assert(perm[rs[i] as int] == cs[i + 1]);
                    lemma_path_avoids_closed(m, perm, after, current, h, cs, rs, s, i + 1);
                }
            } else {
                assert(after[r] == perm[r]);
            }
        }
    }
}

/// No matching is larger than a matching `mt` for which some closed set
/// `u` holds every column that `mt` leaves unmatched: a column of `u` can
/// only be matched to a row that `mt` matches within `u`, and `mt` matches
/// every column outside `u`.
pub proof fn lemma_matching_bound<V>(m: &CscMatrix<V>, mt: Seq<isize>, u: Set<int>, q: Seq<isize>)
    requires
        is_matching(m, mt),
        is_matching(m, q),
        cols_closed(m, mt, u),
        forall|c: int| 0 <= c < m.dim.ncols ==> col_used(mt, m.dim.nrows as int, c) || u.contains(c),
    ensures
        matched_rows(q, m.dim.nrows as int).len() <= matched_rows(mt, m.dim.nrows as int).len(),
{
    reveal(is_matching);
    let nr = m.dim.nrows as int;
    let n = m.dim.ncols as int;
    let mq = matched_rows(q, nr);
    let mm = matched_rows(mt, nr);
    vstd::set_lib::lemma_int_range(0, nr);
    vstd::set_lib::lemma_int_range(0, n);
    let rows = vstd::set_lib::set_int_range(0, nr);
    let cols = vstd::set_lib::set_int_range(0, n);
    let a = mq.filter(|r: int| u.contains(q[r] as int));
    let a2 = mq.filter(|r: int| !u.contains(q[r] as int));
    let b = mm.filter(|r: int| u.contains(mt[r] as int));
    let b2 = mm.filter(|r: int| !u.contains(mt[r] as int));
    let c2 = cols.filter(|c: int| !u.contains(c));
    assert(mq.subset_of(rows));
    assert(mm.subset_of(rows));
    vstd::set_lib::lemma_len_subset(mq, rows);
    vstd::set_lib::lemma_len_subset(mm, rows);
    assert(mq =~= a + a2);
    assert(mm =~= b + b2);
    vstd::set_lib::lemma_len_subset(a, mq);
    vstd::set_lib::lemma_len_subset(a2, mq);
    vstd::set_lib::lemma_len_subset(b, mm);
    vstd::set_lib::lemma_len_subset(b2, mm);
    vstd::set_lib::lemma_set_disjoint_lens(a, a2);
    vstd::set_lib::lemma_set_disjoint_lens(b, b2);
    // the rows matched by q into u are matched by mt into u
    assert(a.subset_of(b)) by {
        assert forall|r: int| a.contains(r) implies b.contains(r) by {
            let c = q[r] as int;
            assert(m.has_entry(r, c));
            let p = choose|p: int| m.column_pointers@[c] <= p < m.column_pointers@[c + 1] && #[trigger] m.row_indices@[p] == r;
            assert(mt[m.row_indices@[p] as int] != -1 && u.contains(mt[m.row_indices@[p] as int] as int));
        }
    }
    vstd::set_lib::lemma_len_subset(a, b);
    // q sends the other rows injectively to columns outside u
    let fq = |r: int| q[r] as int;
    assert(vstd::relations::injective_on(fq, a2)) by {
        assert forall|r1: int, r2: int| a2.contains(r1) && a2.contains(r2) && #[trigger] fq(r1) == #[trigger] fq(r2) implies r1 == r2 by {
            if r1 != r2 {
                assert(q[r1] != q[r2]);
            }
        }
    }
    vstd::set_lib::lemma_map_size(a2, a2.map(fq), fq);
    assert(a2.map(fq).subset_of(c2)) by {
        assert forall|c: int| a2.map(fq).contains(c) implies c2.contains(c) by {
            let r = choose|r: int| a2.contains(r) && fq(r) == c;
        }
    }
    assert(c2.subset_of(cols));
    vstd::set_lib::lemma_len_subset(c2, cols);
    vstd::set_lib::lemma_len_subset(a2.map(fq), c2);
    // mt matches every column outside u, from the rows of b2
    let fm = |r: int| mt[r] as int;
    assert(vstd::relations::injective_on(fm, b2)) by {
        assert forall|r1: int, r2: int| b2.contains(r1) && b2.contains(r2) && #[trigger] fm(r1) == #[trigger] fm(r2) implies r1 == r2 by {
            if r1 != r2 {
                assert(mt[r1] != mt[r2]);
            }
        }
    }
    vstd::set_lib::lemma_map_size(b2, b2.map(fm), fm);
    assert(c2.subset_of(b2.map(fm))) by {
        assert forall|c: int| c2.contains(c) implies b2.map(fm).contains(c) by {
            assert(col_used(mt, nr, c));
            let r = choose|r: int| 0 <= r < nr && mt[r] == c;
            assert(b2.contains(r) && fm(r) == c);
        }
    }
    vstd::set_lib::lemma_len_subset(c2, b2.map(fm));
}

/// The row stored at position `p` is matched to a column marked by the
/// search started at `current`.
pub open spec fn target_marked<V>(m: &CscMatrix<V>, perm: Seq<isize>, visited: Seq<usize>, current: usize, p: int) -> bool {
    let x = perm[m.row_indices@[p] as int] as int;
    0 <= x < visited.len() && visited[x] == current
}

/// Every row of column `c` is matched to a marked column.
#[verifier::opaque]
pub open spec fn marked_targets<V>(m: &CscMatrix<V>, perm: Seq<isize>, visited: Seq<usize>, current: usize, c: int) -> bool {
    forall|p: int|
        m.column_pointers@[c] <= p < m.column_pointers@[c + 1] ==> #[trigger] target_marked(m, perm, visited, current, p)
}

/// Column `c` is closed under the matching: every row of it is matched, to a
/// column marked by the search started at `current`.
#[verifier::opaque]
pub open spec fn col_closed<V>(m: &CscMatrix<V>, perm: Seq<isize>, visited: Seq<usize>, current: usize, c: int) -> bool {
    forall|p: int|
        m.column_pointers@[c] <= p < m.column_pointers@[c + 1] ==> perm[m.row_indices@[p] as int] != -1
            && #[trigger] target_marked(m, perm, visited, current, p)
}

/// What the search has seen: a marked column off the stack has all its rows
/// matched to marked columns; so have the rows scanned so far of the columns
/// on the stack (below the row followed up from each lower level).
#[verifier::opaque]
pub open spec fn search_closed<V>(
    m: &CscMatrix<V>,
    perm: Seq<isize>,
    current: usize,
    head: int,
    cs: Seq<usize>,
    ps: Seq<usize>,
    visited: Seq<usize>,
) -> bool {
    let cp = m.column_pointers@;
    &&& forall|c: int|
        0 <= c < m.dim.ncols && #[trigger] visited[c] == current && (forall|i: int| 0 <= i <= head ==> cs[i] != c)
            ==> marked_targets(m, perm, visited, current, c)
    &&& forall|i: int, p: int|
        #![trigger ps[i], target_marked(m, perm, visited, current, p)]
        0 <= i < head && cp[cs[i] as int] <= p < ps[i] - 1 ==> target_marked(m, perm, visited, current, p)
    &&& head >= 0 && visited[cs[head] as int] == current ==> forall|p: int|
        cp[cs[head] as int] <= p < ps[head] ==> #[trigger] target_marked(m, perm, visited, current, p)
}

pub proof fn lemma_closed_init<V>(m: &CscMatrix<V>, perm: Seq<isize>, current: usize, cs: Seq<usize>, ps: Seq<usize>, visited: Seq<usize>)
    requires
        visited.len() == m.dim.ncols,
        current < m.dim.ncols,
        cs[0] == current,
        forall|c: int| 0 <= c < m.dim.ncols ==> #[trigger] visited[c] != current,
    ensures
        search_closed(m, perm, current, 0, cs, ps, visited),
{
    reveal(search_closed);
    reveal(marked_targets);
}

/// Marking the column on top of the stack, whose scan starts over.
pub proof fn lemma_closed_mark<V>(
    m: &CscMatrix<V>,
    perm: Seq<isize>,
    current: usize,
    head: int,
    cs: Seq<usize>,
    ps: Seq<usize>,
    visited: Seq<usize>,
)
    requires
        search_closed(m, perm, current, head, cs, ps, visited),
        0 <= head < ps.len(),
        visited.len() == m.dim.ncols,
        0 <= cs[head] < visited.len(),
    ensures
        search_closed(
            m,
            perm,
            current,
            head,
            cs,
            ps.update(head, m.column_pointers@[cs[head] as int]),
            visited.update(cs[head] as int, current),
        ),
{
    reveal(search_closed);
    reveal(marked_targets);
    let v2 = visited.update(cs[head] as int, current);
    let ps2 = ps.update(head, m.column_pointers@[cs[head] as int]);
    assert forall|p: int| #[trigger] target_marked(m, perm, visited, current, p) implies target_marked(m, perm, v2, current, p) by {
        let x = perm[m.row_indices@[p] as int] as int;
        if x != cs[head] as int {
            assert(v2[x] == visited[x]);
        }
    }
    assert forall|c: int|
        0 <= c < m.dim.ncols && #[trigger] v2[c] == current && (forall|i: int| 0 <= i <= head ==> cs[i] != c)
            implies marked_targets(m, perm, v2, current, c) by {
        assert(cs[head] != c);
        assert(visited[c] == current);
        assert forall|p: int| m.column_pointers@[c] <= p < m.column_pointers@[c + 1] implies #[trigger] target_marked(m, perm, v2, current, p) by {
            assert(target_marked(m, perm, visited, current, p));
        }
    }
    assert forall|i: int, p: int|
        #![trigger ps2[i], target_marked(m, perm, v2, current, p)]
        0 <= i < head && m.column_pointers@[cs[i] as int] <= p < ps2[i] - 1 implies target_marked(m, perm, v2, current, p) by {
        assert(ps2[i] == ps[i]);
        assert(target_marked(m, perm, visited, current, p));
    }
}

/// Following the row at position `p` of the marked top column, whose rows
/// from its scan position up to `p` go to marked columns.
pub proof fn lemma_closed_push<V>(
    m: &CscMatrix<V>,
    perm: Seq<isize>,
    current: usize,
    head: int,
    cs: Seq<usize>,
    ps: Seq<usize>,
    visited: Seq<usize>,
    p: int,
    col2: usize,
)
    requires
        search_closed(m, perm, current, head, cs, ps, visited),
        0 <= head,
        head + 1 < cs.len(),
        head < ps.len(),
        visited[cs[head] as int] == current,
        visited[col2 as int] != current,
        0 <= p < usize::MAX,
        forall|q: int| ps[head] <= q < p ==> #[trigger] target_marked(m, perm, visited, current, q),
    ensures
        search_closed(m, perm, current, head + 1, cs.update(head + 1, col2), ps.update(head, (p + 1) as usize), visited),
{
    reveal(search_closed);
    reveal(marked_targets);
    let cs2 = cs.update(head + 1, col2);
    let ps2 = ps.update(head, (p + 1) as usize);
    let cp = m.column_pointers@;
    assert forall|c: int|
        0 <= c < m.dim.ncols && #[trigger] visited[c] == current && (forall|i: int| 0 <= i <= head + 1 ==> cs2[i] != c)
            implies marked_targets(m, perm, visited, current, c) by {
        assert forall|i: int| 0 <= i <= head implies cs[i] != c by {
            assert(cs2[i] != c);
        }
    }
    assert forall|i: int, q: int|
        #![trigger ps2[i], target_marked(m, perm, visited, current, q)]
        0 <= i < head + 1 && cp[cs2[i] as int] <= q < ps2[i] - 1 implies target_marked(m, perm, visited, current, q) by {
        if i < head {
            assert(ps2[i] == ps[i] && cs2[i] == cs[i]);
        } else {
            assert(cs2[i] == cs[head]);
            if q >= ps[head] {
                assert(target_marked(m, perm, visited, current, q));
            }
        }
    }
}

/// Going back from the marked top column, all of whose rows from its scan
/// position on go to marked columns.
pub proof fn lemma_closed_pop<V>(
    m: &CscMatrix<V>,
    perm: Seq<isize>,
    current: usize,
    head: int,
    cs: Seq<usize>,
    rs: Seq<usize>,
    ps: Seq<usize>,
    visited: Seq<usize>,
)
    requires
        search_closed(m, perm, current, head, cs, ps, visited),
        stack_ok(m, perm, current, head, cs, rs, ps, visited),
        visited.len() == m.dim.ncols,
        0 <= head,
        visited[cs[head] as int] == current,
        forall|q: int|
            ps[head] <= q < m.column_pointers@[cs[head] + 1] ==> #[trigger] target_marked(m, perm, visited, current, q),
    ensures
        search_closed(m, perm, current, head - 1, cs, ps, visited),
{
    reveal(search_closed);
    reveal(marked_targets);
    reveal(stack_ok);
    let cp = m.column_pointers@;
    assert(marked_targets(m, perm, visited, current, cs[head] as int)) by {
        assert forall|q: int| cp[cs[head] as int] <= q < cp[cs[head] + 1] implies #[trigger] target_marked(m, perm, visited, current, q) by {
            if q >= ps[head] {
                assert(target_marked(m, perm, visited, current, q));
            }
        }
    }
    assert forall|c: int|
        0 <= c < m.dim.ncols && #[trigger] visited[c] == current && (forall|i: int| 0 <= i <= head - 1 ==> cs[i] != c)
            implies marked_targets(m, perm, visited, current, c) by {
        if c != cs[head] {
            assert forall|i: int| 0 <= i <= head implies cs[i] != c by {
                if i < head {
                    assert(cs[i] != c);
                }
            }
        }
    }
    if head >= 1 {
        let t = head - 1;
        assert(visited[cs[t] as int] == current);
        assert forall|q: int| cp[cs[t] as int] <= q < ps[t] implies #[trigger] target_marked(m, perm, visited, current, q) by {
            if q < ps[t] - 1 {
                assert(target_marked(m, perm, visited, current, q));
            } else {
                assert(ps[t] == ps[t]);
                assert(perm[rs[t] as int] == cs[t + 1]);
            }
        }
    }
}

} // verus!
