use vstd::prelude::*;

use crate::solver::matrix::csc::CscMatrix;
use crate::solver::matrix::csc::pattern_has;

use crate::solver::btf_search::col_closed;
use crate::solver::btf_search::col_used;
use crate::solver::btf_search::cols_closed;
use crate::solver::btf_search::lemma_flip_keeps;
use crate::solver::btf_search::lemma_closed_union;
use crate::solver::btf_search::lemma_marked_closed;
use crate::solver::btf_search::lemma_matching_bound;
use crate::solver::btf_search::marked_cols;
use crate::solver::btf_search::lemma_closed_init;
use crate::solver::btf_search::lemma_closed_mark;
use crate::solver::btf_search::lemma_closed_pop;
use crate::solver::btf_search::lemma_closed_push;
use crate::solver::btf_search::marked_targets;
use crate::solver::btf_search::search_closed;
use crate::solver::btf_search::target_marked;

verus! {

/// `perm[r]` is the column matched to row `r` of `m`, or -1 when `r` is unmatched:
/// every match is a stored entry, and no column is matched twice.
#[verifier::opaque]
pub open spec fn is_matching<V>(m: &CscMatrix<V>, perm: Seq<isize>) -> bool {
    &&& perm.len() >= m.dim.nrows
    &&& forall|r: int|
        0 <= r < m.dim.nrows && #[trigger] perm[r] != -1 ==> 0 <= perm[r] < m.dim.ncols
            && m.has_entry(r, perm[r] as int)
    &&& forall|r1: int, r2: int|
        0 <= r1 < m.dim.nrows && 0 <= r2 < m.dim.nrows && r1 != r2 && #[trigger] perm[r1] != -1
            ==> perm[r1] != #[trigger] perm[r2]
    &&& forall|r: int| m.dim.nrows <= r < perm.len() ==> #[trigger] perm[r] == -1
}

proof fn lemma_matching_range<V>(m: &CscMatrix<V>, perm: Seq<isize>, r: int)
    requires
        is_matching(m, perm),
    ensures
        perm.len() >= m.dim.nrows,
        0 <= r < m.dim.nrows && perm[r] != -1 ==> 0 <= perm[r] < m.dim.ncols && m.has_entry(r, perm[r] as int),
{
    reveal(is_matching);
}

proof fn lemma_matching_injective<V>(m: &CscMatrix<V>, perm: Seq<isize>, r1: int, r2: int)
    requires
        is_matching(m, perm),
        0 <= r1 < m.dim.nrows,
        0 <= r2 < m.dim.nrows,
        r1 != r2,
        perm[r1] != -1,
    ensures
        perm[r1] != perm[r2],
{
    reveal(is_matching);
}

/// The rows below `nrows` that are matched.
pub open spec fn matched_rows(perm: Seq<isize>, nrows: int) -> Set<int> {
    Set::new(|r: int| 0 <= r < nrows && perm[r] != -1)
}

/// All matched columns are below `bound`.
pub open spec fn matched_below<V>(m: &CscMatrix<V>, perm: Seq<isize>, bound: int) -> bool {
    forall|r: int| 0 <= r < m.dim.nrows && #[trigger] perm[r] != -1 ==> perm[r] < bound
}

/// The rows stored in column `c` before position `cheap[c]` are all matched.
#[verifier::opaque]
spec fn cheap_ok<V>(m: &CscMatrix<V>, perm: Seq<isize>, cheap: Seq<usize>) -> bool {
    let cp = m.column_pointers@;
    &&& cheap.len() == m.dim.ncols
    &&& forall|c: int|
        0 <= c < m.dim.ncols ==> cp[c] <= #[trigger] cheap[c] <= cp[c + 1]
    &&& forall|c: int, p: int|
        0 <= c < m.dim.ncols && cp[c] <= p < #[trigger] cheap[c] ==> perm[#[trigger] m.row_indices@[p] as int] != -1
}

proof fn lemma_cheap_facts<V>(m: &CscMatrix<V>, perm: Seq<isize>, cheap: Seq<usize>)
    requires
        cheap_ok(m, perm, cheap),
    ensures
        cheap.len() == m.dim.ncols,
        forall|c: int| 0 <= c < m.dim.ncols ==> m.column_pointers@[c] <= #[trigger] cheap[c] <= m.column_pointers@[c + 1],
{
    reveal(cheap_ok);
}

/// Once the greedy scan of column `col` has reached its end, all its rows are matched.
proof fn lemma_cheap_full<V>(m: &CscMatrix<V>, perm: Seq<isize>, cheap: Seq<usize>, col: int)
    requires
        cheap_ok(m, perm, cheap),
        0 <= col < m.dim.ncols,
        cheap[col] == m.column_pointers@[col + 1],
    ensures
        forall|p: int|
            m.column_pointers@[col] <= p < m.column_pointers@[col + 1] ==> perm[#[trigger] m.row_indices@[p] as int] != -1,
{
    reveal(cheap_ok);
}

/// After the flip every row that was matched, and the free row, are matched.
proof fn lemma_cheap_after_flip<V>(m: &CscMatrix<V>, perm: Seq<isize>, after: Seq<isize>, cheap: Seq<usize>, free: int)
    requires
        m.wf(),
        cheap_ok_but(m, perm, cheap, free),
        0 <= free < m.dim.nrows,
        after[free] != -1,
        forall|r: int| 0 <= r < m.dim.nrows && perm[r] != -1 ==> #[trigger] after[r] != -1,
    ensures
        cheap_ok(m, after, cheap),
{
    reveal(cheap_ok);
    reveal(cheap_ok_but);
    let cp = m.column_pointers@;
    assert forall|c: int, p: int|
        0 <= c < m.dim.ncols && cp[c] <= p < #[trigger] cheap[c] implies after[#[trigger] m.row_indices@[p] as int] != -1 by {
        let r = m.row_indices@[p] as int;
        assert(r < m.dim.nrows && cp[c] == cp[c]);
        assert(perm[r] != -1 || r == free);
    }
}

/// Every greedy position lies in its column, and a column marked by the
/// search from `current` has been scanned to its end.
#[verifier::opaque]
spec fn marks_ok<V>(m: &CscMatrix<V>, cheap: Seq<usize>, visited: Seq<usize>, current: usize) -> bool {
    let cp = m.column_pointers@;
    &&& cheap.len() == m.dim.ncols
    &&& visited.len() == m.dim.ncols
    &&& forall|c: int| 0 <= c < m.dim.ncols ==> cp[c] <= #[trigger] cheap[c] <= cp[c + 1]
    &&& forall|c: int| 0 <= c < m.dim.ncols && #[trigger] visited[c] == current ==> cheap[c] == cp[c + 1]
}

proof fn lemma_marks_init<V>(m: &CscMatrix<V>, perm: Seq<isize>, cheap: Seq<usize>, visited: Seq<usize>, current: usize)
    requires
        cheap_ok(m, perm, cheap),
        visited.len() == m.dim.ncols,
        forall|c: int| 0 <= c < m.dim.ncols ==> #[trigger] visited[c] != current,
    ensures
        marks_ok(m, cheap, visited, current),
{
    reveal(marks_ok);
    reveal(cheap_ok);
}

proof fn lemma_marks_visit<V>(m: &CscMatrix<V>, cheap: Seq<usize>, visited: Seq<usize>, current: usize, col: int, x: usize)
    requires
        marks_ok(m, cheap, visited, current),
        0 <= col < m.dim.ncols,
        x == m.column_pointers@[col + 1],
        m.column_pointers@[col] <= m.column_pointers@[col + 1],
    ensures
        marks_ok(m, cheap.update(col, x), visited.update(col, current), current),
{
    reveal(marks_ok);
}

proof fn lemma_marks_full<V>(m: &CscMatrix<V>, cheap: Seq<usize>, visited: Seq<usize>, current: usize, col: int)
    requires
        marks_ok(m, cheap, visited, current),
        0 <= col < m.dim.ncols,
        visited[col] == current,
    ensures
        cheap[col] == m.column_pointers@[col + 1],
{
    reveal(marks_ok);
}

/// The columns not yet marked by the search started at `current`.
pub open spec fn unvisited(visited: Seq<usize>, current: usize, n: int) -> Set<int> {
    Set::new(|c: int| 0 <= c < n && visited[c] != current)
}

proof fn lemma_unvisited_finite(visited: Seq<usize>, current: usize, n: int)
    requires
        n >= 0,
    ensures
        unvisited(visited, current, n).finite(),
        unvisited(visited, current, n).len() <= n,
{
    vstd::set_lib::lemma_int_range(0, n);
    assert(unvisited(visited, current, n).subset_of(vstd::set_lib::set_int_range(0, n)));
    vstd::set_lib::lemma_len_subset(unvisited(visited, current, n), vstd::set_lib::set_int_range(0, n));
}

proof fn lemma_matched_finite(perm: Seq<isize>, n: int)
    requires
        n >= 0,
    ensures
        matched_rows(perm, n).finite(),
{
    vstd::set_lib::lemma_int_range(0, n);
    assert(matched_rows(perm, n).subset_of(vstd::set_lib::set_int_range(0, n)));
    vstd::set_lib::lemma_len_subset(matched_rows(perm, n), vstd::set_lib::set_int_range(0, n));
}

/// Search state of an augmenting-path search from `current`: the stack holds
/// columns `cs[0..=head]`, starting at `current`; for every level below the top,
/// `rs[i]` is a row of column `cs[i]` (stored just before `ps[i]`) that is
/// matched to the next column on the stack.
#[verifier::opaque]
pub open spec fn stack_ok<V>(
    m: &CscMatrix<V>,
    perm: Seq<isize>,
    current: usize,
    head: int,
    cs: Seq<usize>,
    rs: Seq<usize>,
    ps: Seq<usize>,
    visited: Seq<usize>,
) -> bool {
    let n = m.dim.ncols as int;
    let cp = m.column_pointers@;
    let ri = m.row_indices@;
    &&& -1 <= head < n
    &&& cs.len() == n
    &&& ps.len() == n
    &&& rs.len() == m.dim.nrows
    &&& head >= 0 ==> cs[0] == current
    &&& forall|i: int| 0 <= i <= head ==> #[trigger] cs[i] < n
    &&& forall|i: int, j: int| 0 <= i < j <= head ==> #[trigger] cs[i] != #[trigger] cs[j]
    &&& forall|i: int| 0 <= i < head ==> visited[#[trigger] cs[i] as int] == current
    &&& forall|i: int|
        #![trigger ps[i]]
        #![trigger rs[i]]
        0 <= i < head ==> {
            &&& cp[cs[i] as int] < ps[i] <= cp[cs[i] + 1]
            &&& rs[i] < m.dim.nrows
            &&& ri[ps[i] - 1] == rs[i]
            &&& perm[rs[i] as int] == cs[i + 1]
        }
}

/// When the top column of the stack has been marked, its scan position lies inside it.
pub open spec fn top_ok<V>(m: &CscMatrix<V>, current: usize, head: int, cs: Seq<usize>, ps: Seq<usize>, visited: Seq<usize>) -> bool {
    head >= 0 && visited[cs[head] as int] == current ==> m.column_pointers@[cs[head] as int] <= ps[head]
        <= m.column_pointers@[cs[head] + 1]
}

proof fn lemma_stack_init<V>(m: &CscMatrix<V>, perm: Seq<isize>, current: usize, cs: Seq<usize>, rs: Seq<usize>, ps: Seq<usize>, visited: Seq<usize>)
    requires
        current < m.dim.ncols,
        cs.len() == m.dim.ncols,
        ps.len() == m.dim.ncols,
        rs.len() == m.dim.nrows,
        cs[0] == current,
    ensures
        stack_ok(m, perm, current, 0, cs, rs, ps, visited),
{
    reveal(stack_ok);
}

proof fn lemma_stack_facts<V>(m: &CscMatrix<V>, perm: Seq<isize>, current: usize, head: int, cs: Seq<usize>, rs: Seq<usize>, ps: Seq<usize>, visited: Seq<usize>)
    requires
        stack_ok(m, perm, current, head, cs, rs, ps, visited),
    ensures
        -1 <= head < m.dim.ncols,
        cs.len() == m.dim.ncols,
        ps.len() == m.dim.ncols,
        rs.len() == m.dim.nrows,
        head >= 0 ==> cs[0] == current && cs[head] < m.dim.ncols,
        forall|i: int| 0 <= i < head ==> visited[#[trigger] cs[i] as int] == current,
{
    reveal(stack_ok);
}

proof fn lemma_stack_mark<V>(m: &CscMatrix<V>, perm: Seq<isize>, current: usize, head: int, cs: Seq<usize>, rs: Seq<usize>, ps: Seq<usize>, visited: Seq<usize>, c: int)
    requires
        stack_ok(m, perm, current, head, cs, rs, ps, visited),
        visited.len() == m.dim.ncols,
        0 <= c < visited.len(),
    ensures
        stack_ok(m, perm, current, head, cs, rs, ps, visited.update(c, current)),
{
    reveal(stack_ok);
    let v2 = visited.update(c, current);
    assert forall|i: int| 0 <= i < head implies v2[#[trigger] cs[i] as int] == current by {
        assert(visited[cs[i] as int] == current);
        if cs[i] as int != c {
            assert(v2[cs[i] as int] == visited[cs[i] as int]);
        }
    }
}

proof fn lemma_stack_set_top_row<V>(m: &CscMatrix<V>, perm: Seq<isize>, current: usize, head: int, cs: Seq<usize>, rs: Seq<usize>, ps: Seq<usize>, visited: Seq<usize>, row: usize)
    requires
        stack_ok(m, perm, current, head, cs, rs, ps, visited),
        head >= 0,
        head < rs.len(),
    ensures
        stack_ok(m, perm, current, head, cs, rs.update(head, row), ps, visited),
{
    reveal(stack_ok);
    let r2 = rs.update(head, row);
    assert forall|i: int| #![trigger ps[i]] #![trigger r2[i]] 0 <= i < head implies {
        &&& m.column_pointers@[cs[i] as int] < ps[i] <= m.column_pointers@[cs[i] + 1]
        &&& r2[i] < m.dim.nrows
        &&& m.row_indices@[ps[i] - 1] == r2[i]
        &&& perm[r2[i] as int] == cs[i + 1]
    } by {
        assert(ps[i] == ps[i]);
    }
}

proof fn lemma_stack_set_top_pos<V>(m: &CscMatrix<V>, perm: Seq<isize>, current: usize, head: int, cs: Seq<usize>, rs: Seq<usize>, ps: Seq<usize>, visited: Seq<usize>, x: usize)
    requires
        stack_ok(m, perm, current, head, cs, rs, ps, visited),
        head >= 0,
        head < ps.len(),
    ensures
        stack_ok(m, perm, current, head, cs, rs, ps.update(head, x), visited),
{
    reveal(stack_ok);
    let p2 = ps.update(head, x);
    assert forall|i: int| #![trigger p2[i]] #![trigger rs[i]] 0 <= i < head implies {
        &&& m.column_pointers@[cs[i] as int] < p2[i] <= m.column_pointers@[cs[i] + 1]
        &&& rs[i] < m.dim.nrows
        &&& m.row_indices@[p2[i] - 1] == rs[i]
        &&& perm[rs[i] as int] == cs[i + 1]
    } by {
        assert(ps[i] == ps[i]);
    }
}

proof fn lemma_stack_push<V>(m: &CscMatrix<V>, perm: Seq<isize>, current: usize, head: int, cs: Seq<usize>, rs: Seq<usize>, ps: Seq<usize>, visited: Seq<usize>, p: int, col2: usize)
    requires
        stack_ok(m, perm, current, head, cs, rs, ps, visited),
        0 <= head,
        head + 1 < m.dim.ncols,
        head < m.dim.nrows,
        visited[cs[head] as int] == current,
        m.column_pointers@[cs[head] as int] <= p < m.column_pointers@[cs[head] + 1],
        m.row_indices@[p] < m.dim.nrows,
        perm[m.row_indices@[p] as int] == col2,
        col2 < m.dim.ncols,
        visited[col2 as int] != current,
    ensures
        stack_ok(m, perm, current, head + 1, cs.update(head + 1, col2), rs.update(head, m.row_indices@[p]), ps.update(head, (p + 1) as usize), visited),
{
    reveal(stack_ok);
    let cs2 = cs.update(head + 1, col2);
    let rs2 = rs.update(head, m.row_indices@[p]);
    let ps2 = ps.update(head, (p + 1) as usize);
    assert forall|i: int, j: int| 0 <= i < j <= head + 1 implies #[trigger] cs2[i] != #[trigger] cs2[j] by {
        if j == head + 1 {
            if i < head {
                assert(visited[cs[i] as int] == current);
            }
        } else {
            assert(cs[i] != cs[j]);
        }
    }
    assert forall|i: int| 0 <= i < head + 1 implies visited[#[trigger] cs2[i] as int] == current by {
        if i < head {
            assert(visited[cs[i] as int] == current);
        }
    }
    assert forall|i: int| #![trigger ps2[i]] #![trigger rs2[i]] 0 <= i < head + 1 implies {
        &&& m.column_pointers@[cs2[i] as int] < ps2[i] <= m.column_pointers@[cs2[i] + 1]
        &&& rs2[i] < m.dim.nrows
        &&& m.row_indices@[ps2[i] - 1] == rs2[i]
        &&& perm[rs2[i] as int] == cs2[i + 1]
    } by {
        if i < head {
            assert(ps[i] == ps[i]);
        }
    }
}

/// Row `row` of column `col` can be matched to it.
pub open spec fn in_column<V>(m: &CscMatrix<V>, row: int, col: int) -> bool {
    m.has_entry(row, col)
}

/// For the given column, try to find a column permutation that will match this row.
/// There are 2 main parts to the algorithm:
/// 1. the "cheap test" which is a way to greedily try to match a
///    column's nonzero to a row, creating a permutation
/// 2. the "augmenting path" which happens if there are no cheap options,
///    try to backtrack ("depth first") the current matches so the matches work with the non-zeroes in the current column
#[verifier::rlimit(100)]
fn try_augmenting_path<V>(
    m: &CscMatrix<V>,
    current_column: usize,
    column_permutations: &mut [isize],
    cheap: &mut Vec<usize>,
    visited: &mut Vec<usize>,
    row_stack: &mut Vec<usize>,
    column_stack: &mut Vec<usize>,
    position_stack: &mut Vec<usize>,
) -> (found: bool)
    requires
        m.wf(),
        m.dim.ncols <= isize::MAX,
        current_column < m.dim.ncols,
        is_matching(m, old(column_permutations)@),
        matched_below(m, old(column_permutations)@, current_column as int),
        cheap_ok(m, old(column_permutations)@, old(cheap)@),
        old(visited)@.len() == m.dim.ncols,
        forall|c: int| 0 <= c < m.dim.ncols ==> #[trigger] old(visited)@[c] != current_column,
        old(row_stack)@.len() == m.dim.nrows,
        old(column_stack)@.len() == m.dim.ncols,
        old(position_stack)@.len() == m.dim.ncols,
    ensures
        final(column_permutations)@.len() == old(column_permutations)@.len(),
        is_matching(m, final(column_permutations)@),
        matched_below(m, final(column_permutations)@, current_column + 1),
        cheap_ok(m, final(column_permutations)@, final(cheap)@),
        final(visited)@.len() == m.dim.ncols,
        forall|c: int|
            0 <= c < m.dim.ncols ==> #[trigger] final(visited)@[c] == old(visited)@[c]
                || final(visited)@[c] == current_column,
        final(row_stack)@.len() == m.dim.nrows,
        final(column_stack)@.len() == m.dim.ncols,
        final(position_stack)@.len() == m.dim.ncols,
        found ==> matched_rows(final(column_permutations)@, m.dim.nrows as int).len()
            == matched_rows(old(column_permutations)@, m.dim.nrows as int).len() + 1,
        !found ==> final(column_permutations)@ == old(column_permutations)@,
        found ==> col_used(final(column_permutations)@, m.dim.nrows as int, current_column as int),
        found ==> forall|c: int|
            0 <= c && col_used(old(column_permutations)@, m.dim.nrows as int, c) ==> col_used(
                final(column_permutations)@,
                m.dim.nrows as int,
                c,
            ),
        found ==> forall|s: Set<int>| cols_closed(m, old(column_permutations)@, s) ==> cols_closed(m, final(column_permutations)@, s),
        !found ==> cols_closed(m, old(column_permutations)@, marked_cols(final(visited)@, current_column, m.dim.ncols as int)),
        !found ==> final(visited)@[current_column as int] == current_column,
        !found ==> forall|c: int|
            0 <= c < m.dim.ncols && #[trigger] final(visited)@[c] == current_column ==> col_closed(
                m,
                old(column_permutations)@,
                final(visited)@,
                current_column,
                c,
            ),
        ({
            let e = search_end(
                m,
                old(column_permutations)@,
                current_column as int,
                search_start(old(cheap)@, old(visited)@, old(row_stack)@, old(column_stack)@, old(position_stack)@, current_column as int),
            );
            &&& found == e.found
            &&& final(cheap)@ == e.cheap
            &&& final(visited)@ == e.visited
            &&& final(row_stack)@ == e.rs
            &&& final(column_stack)@ == e.cs
            &&& final(position_stack)@ == e.ps
            &&& final(column_permutations)@ == augmented(old(column_permutations)@, e)
        }),
{
    let n = m.dim.ncols;
    let ghost perm = column_permutations@;
    let ghost cheap0 = old(cheap)@;
    let ghost visited0 = old(visited)@;
    let ghost cp = m.column_pointers@;
    let ghost ri = m.row_indices@;
    let mut found = false;
    let mut head: isize = 0;
    let ghost s0 = search_start(cheap@, visited@, row_stack@, column_stack@, position_stack@, current_column as int);
    column_stack.set(0, current_column);
    let ghost mut k: nat = 0;
    proof {
        lemma_search_zero(m, perm, current_column as int, s0);
    }
    proof {
        lemma_cheap_facts(m, perm, cheap@);
        lemma_matching_range(m, perm, 0);
        lemma_marks_init(m, perm, cheap@, visited@, current_column);
        lemma_unvisited_finite(visited@, current_column, n as int);
        lemma_stack_init(m, perm, current_column, column_stack@, row_stack@, position_stack@, visited@);
        lemma_closed_init(m, perm, current_column, column_stack@, position_stack@, visited@);
    }
    while head >= 0
        invariant_except_break
            !found,
            search_closed(m, perm, current_column, head as int, column_stack@, position_stack@, visited@),
            head != 0 ==> visited@[current_column as int] == current_column,
            -1 <= head,
            cheap_ok(m, perm, cheap@),
            stack_ok(m, perm, current_column, head as int, column_stack@, row_stack@, position_stack@, visited@),
            top_ok(m, current_column, head as int, column_stack@, position_stack@, visited@),
            head + 1 - top_unvisited(head as int, column_stack@, visited@, current_column) <= n - unvisited(visited@, current_column, n as int).len(),
            marks_ok(m, cheap@, visited@, current_column),
        invariant
            m.wf(),
            n == m.dim.ncols,
            current_column < n,
            column_permutations@ == perm,
            is_matching(m, perm),
            matched_below(m, perm, current_column as int),
            cp == m.column_pointers@,
            ri == m.row_indices@,
            n <= isize::MAX,
            perm.len() >= m.dim.nrows,
            cheap@.len() == n,
            visited@.len() == n,
            forall|c: int| 0 <= c < n ==> #[trigger] visited@[c] == visited0[c] || visited@[c] == current_column,
            unvisited(visited@, current_column, n as int).finite(),
            row_stack@.len() == m.dim.nrows,
            column_stack@.len() == n,
            position_stack@.len() == n,
            (Search { cheap: cheap@, visited: visited@, rs: row_stack@, cs: column_stack@, ps: position_stack@, head: head as int, found })
                == search_after(m, perm, current_column as int, s0, k),
        ensures
            found || head < 0,
            found ==> {
                &&& 0 <= head < m.dim.nrows
                &&& stack_ok(m, perm, current_column, head as int, column_stack@, row_stack@, position_stack@, visited@)
                &&& row_stack@[head as int] < m.dim.nrows
                &&& perm[row_stack@[head as int] as int] == -1
                &&& in_column(m, row_stack@[head as int] as int, column_stack@[head as int] as int)
                &&& cheap_ok_but(m, perm, cheap@, row_stack@[head as int] as int)
            },
            !found ==> cheap_ok(m, perm, cheap@),
            !found ==> search_closed(m, perm, current_column, -1, column_stack@, position_stack@, visited@),
            !found ==> marks_ok(m, cheap@, visited@, current_column),
            !found ==> visited@[current_column as int] == current_column,
        decreases unvisited(visited@, current_column, n as int).len() - top_unvisited(head as int, column_stack@, visited@, current_column), head + 1,
    {
        proof {
            lemma_stack_facts(m, perm, current_column, head as int, column_stack@, row_stack@, position_stack@, visited@);
        }
        let ghost t = Search { cheap: cheap@, visited: visited@, rs: row_stack@, cs: column_stack@, ps: position_stack@, head: head as int, found };
        proof {
            lemma_search_next(m, perm, current_column as int, s0, k);
        }
        let col = column_stack[head as usize];
        let end_of_column = m.col_start(col + 1);
        let ghost u_before = unvisited(visited@, current_column, n as int);
        let ghost old_cheap = cheap@;
        let ghost old_visited = visited@;
        let ghost old_ps = position_stack@;
        let ghost measure = u_before.len() - top_unvisited(head as int, column_stack@, visited@, current_column);
        let ghost old_head = head;
        if visited[col] != current_column {
            proof {
                lemma_stack_mark(m, perm, current_column, head as int, column_stack@, row_stack@, position_stack@, visited@, col as int);
            }
            visited.set(col, current_column);
            proof {
                assert(unvisited(visited@, current_column, n as int) =~= u_before.remove(col as int));
                assert(u_before.contains(col as int));
                assert(unvisited(visited@, current_column, n as int).len() == u_before.len() - 1);
            }
            // start from a non-zero entry that hasn't already been tried for cheap
            let free = cheap_match(m, column_permutations, col, cheap);
            if let Some(row) = free {
                found = true;
                proof {
                    lemma_stack_rows_bound(m, perm, current_column, head as int, column_stack@, row_stack@, position_stack@, visited@, row as int);
                    lemma_stack_set_top_row(m, perm, current_column, head as int, column_stack@, row_stack@, position_stack@, visited@, row);
                }
                row_stack.set(head as usize, row);
                proof {
                    lemma_step_found(m, perm, current_column as int, t, row, cheap@);
                    k = k + 1;
                }
                break;
            }
            proof {
                lemma_marks_visit(m, old_cheap, old_visited, current_column, col as int, cheap@[col as int]);
                lemma_stack_set_top_pos(m, perm, current_column, head as int, column_stack@, row_stack@, position_stack@, visited@, cp[col as int]);
            }
            position_stack.set(head as usize, m.col_start(col));
            proof {
                lemma_closed_mark(m, perm, current_column, head as int, column_stack@, old_ps, old_visited);
                assert(visited@ == old_visited.update(col as int, current_column));
                assert(position_stack@ == old_ps.update(head as int, m.column_pointers@[col as int]));
            }
        }
        proof {
            reveal(stack_ok);
            if head > 0 {
                assert(visited@[column_stack@[0] as int] == current_column);
            }
        }
        proof {
            lemma_marks_full(m, cheap@, visited@, current_column, col as int);
            lemma_cheap_full(m, perm, cheap@, col as int);
        }
        // nothing so far has changed the measure of the search
        assert(unvisited(visited@, current_column, n as int).len() - top_unvisited(head as int, column_stack@, visited@, current_column)
            == measure);
        proof {
            if t.visited[col as int] != current_column {
                lemma_step_scan_fails(m, perm, current_column as int, t, cheap@);
            } else {
                lemma_step_marked(m, perm, current_column as int, t);
            }
        }
        head = descend(m, column_permutations, visited, current_column, head, row_stack, column_stack, position_stack);
        proof {
            k = k + 1;
        }
        proof {
            lemma_stack_facts(m, perm, current_column, head as int, column_stack@, row_stack@, position_stack@, visited@);
            if top_unvisited(head as int, column_stack@, visited@, current_column) == 1 {
                assert(unvisited(visited@, current_column, n as int).contains(column_stack@[head as int] as int));
            }
        }
    }
    proof {
        if !found {
            reveal(search_closed);
            reveal(marked_targets);
            reveal(col_closed);
            assert forall|c: int|
                0 <= c < n && #[trigger] visited@[c] == current_column implies col_closed(m, perm, visited@, current_column, c) by {
                lemma_marks_full(m, cheap@, visited@, current_column, c);
                lemma_cheap_full(m, perm, cheap@, c);
                assert(marked_targets(m, perm, visited@, current_column, c));
            }
            lemma_marked_closed(m, perm, visited@, current_column);
        }
    }
    proof {
        lemma_search_end(m, perm, current_column as int, s0, k);
    }
    if found {
        let ghost h = head as int;
        let ghost cs = column_stack@;
        let ghost rs = row_stack@;
        proof {
            lemma_stack_facts(m, perm, current_column, h, cs, rs, position_stack@, visited@);
            lemma_stack_facts_full(m, perm, current_column, h, cs, rs, position_stack@, visited@);
            lemma_matching_range(m, perm, 0);
            assert forall|i: int, j: int| 0 <= i < j <= h implies #[trigger] rs[i] != #[trigger] rs[j] by {
                if j == h {
                    assert(perm[rs[i] as int] == cs[i + 1]);
                } else {
                    assert(rs[i] != rs[j]);
                }
            }
            assert forall|i: int| 0 <= i <= h implies #[trigger] rs[i] < m.dim.nrows && cs[i] < n by {
                if i < h {
                    assert(rs[i] < m.dim.nrows);
                }
            }
        }
        while head >= 0
            invariant
                -1 <= head <= h < m.dim.nrows,
                h < n,
                n == m.dim.ncols,
                cs == column_stack@,
                rs == row_stack@,
                rs.len() == m.dim.nrows,
                cs.len() == n,
                column_permutations@.len() == perm.len(),
                forall|i: int| 0 <= i <= h ==> #[trigger] rs[i] < m.dim.nrows && cs[i] < n,
                forall|i: int, j: int| 0 <= i < j <= h ==> #[trigger] rs[i] != #[trigger] rs[j],
                forall|i: int| head < i <= h ==> column_permutations@[#[trigger] rs[i] as int] == cs[i] as isize,
                forall|r: int|
                    0 <= r < perm.len() && (forall|i: int| head < i <= h ==> #[trigger] rs[i] != r) ==> #[trigger] column_permutations@[r] == perm[r],
                perm.len() >= m.dim.nrows,
                flip_stack(column_permutations@, cs, rs, head as int) == flip_stack(perm, cs, rs, h),
            decreases head + 1,
        {
            let col = column_stack[head as usize];
            let row = row_stack[head as usize];
            column_permutations[row] = col as isize;
            proof {
                assert forall|r: int|
                    0 <= r < perm.len() && (forall|i: int| head - 1 < i <= h ==> #[trigger] rs[i] != r) implies #[trigger] column_permutations@[r] == perm[r] by {
                    assert(rs[head as int] != r);
                }
            }
            head = head - 1;
        }
        proof {
            assert forall|i: int| 0 <= i <= h implies #[trigger] in_column(m, rs[i] as int, cs[i] as int) by {
                if i < h {
                    assert(in_column(m, rs[i] as int, cs[i] as int));
                }
            }
            assert(flipped_path(m, perm, column_permutations@, current_column, h, cs, rs)) by {
                reveal(flipped_path);
            }
            lemma_flip_result(m, perm, column_permutations@, current_column, h, cs, rs);
            lemma_flip_keeps(m, perm, column_permutations@, current_column, h, cs, rs);
            let after = column_permutations@;
            lemma_matched_finite(perm, m.dim.nrows as int);
            lemma_cheap_after_flip(m, perm, after, cheap@, rs[h] as int);
        }
    }
    found
}

/// One step of the depth-first search, from the marked column on top of the
/// stack: descend into the column matched to the next row of it whose column
/// is not marked yet, or go back one level when there is none.
#[verifier::rlimit(100)]
fn descend<V>(
    m: &CscMatrix<V>,
    column_permutations: &[isize],
    visited: &Vec<usize>,
    current_column: usize,
    head: isize,
    row_stack: &mut Vec<usize>,
    column_stack: &mut Vec<usize>,
    position_stack: &mut Vec<usize>,
) -> (new_head: isize)
    requires
    m.wf(),
    m.dim.ncols <= isize::MAX,
    is_matching(m, column_permutations@),
    0 <= head,
    stack_ok(m, column_permutations@, current_column, head as int, old(column_stack)@, old(row_stack)@, old(position_stack)@, visited@),
    top_ok(m, current_column, head as int, old(column_stack)@, old(position_stack)@, visited@),
    visited@.len() == m.dim.ncols,
    visited@[old(column_stack)@[head as int] as int] == current_column,
    unvisited(visited@, current_column, m.dim.ncols as int).finite(),
    head + 1 <= m.dim.ncols - unvisited(visited@, current_column, m.dim.ncols as int).len(),
    search_closed(m, column_permutations@, current_column, head as int, old(column_stack)@, old(position_stack)@, visited@),
    forall|p: int|
        m.column_pointers@[old(column_stack)@[head as int] as int] <= p < m.column_pointers@[old(column_stack)@[head as int] + 1]
            ==> column_permutations@[#[trigger] m.row_indices@[p] as int] != -1,
    ensures
    stack_ok(m, column_permutations@, current_column, new_head as int, final(column_stack)@, final(row_stack)@, final(position_stack)@, visited@),
    top_ok(m, current_column, new_head as int, final(column_stack)@, final(position_stack)@, visited@),
    new_head + 1 - top_unvisited(new_head as int, final(column_stack)@, visited@, current_column)
        <= m.dim.ncols - unvisited(visited@, current_column, m.dim.ncols as int).len(),
    new_head == head - 1 || (new_head == head + 1 && top_unvisited(new_head as int, final(column_stack)@, visited@, current_column) == 1),
    final(row_stack)@.len() == old(row_stack)@.len(),
    final(column_stack)@.len() == old(column_stack)@.len(),
    final(position_stack)@.len() == old(position_stack)@.len(),
    search_closed(m, column_permutations@, current_column, new_head as int, final(column_stack)@, final(position_stack)@, visited@),
    ({
        let (rs, cs, ps, h) = descend_move(
            m,
            column_permutations@,
            current_column as int,
            visited@,
            old(row_stack)@,
            old(column_stack)@,
            old(position_stack)@,
            head as int,
        );
        &&& new_head == h
        &&& final(row_stack)@ == rs
        &&& final(column_stack)@ == cs
        &&& final(position_stack)@ == ps
    }),
{
    let n = m.dim.ncols;
    let ghost perm = column_permutations@;
    let mut head = head;
    proof {
        reveal(descend_move);
    }
    proof {
    lemma_stack_facts(m, perm, current_column, head as int, column_stack@, row_stack@, position_stack@, visited@);
    }
    let col = column_stack[head as usize];
    let end_of_column = m.col_start(col + 1);
    let start = position_stack[head as usize];
    let row_ptr = next_unvisited(m, column_permutations, visited, current_column, col, start);
    let ghost u_now = unvisited(visited@, current_column, n as int);
    if row_ptr < end_of_column {
        let row = m.row_index(row_ptr);
        proof {
            lemma_matching_range(m, perm, row as int);
        }
        let col2 = column_permutations[row] as usize;
        proof {
            lemma_descend_push(m, perm, current_column, head as int, column_stack@, row_stack@, position_stack@, visited@, row_ptr as int, col2);
            lemma_closed_push(m, perm, current_column, head as int, column_stack@, position_stack@, visited@, row_ptr as int, col2);
        }
        position_stack.set(head as usize, row_ptr + 1);
        row_stack.set(head as usize, row);
        head = head + 1;
        column_stack.set(head as usize, col2);
    } else {
        proof {
            lemma_descend_pop(m, perm, current_column, head as int, column_stack@, row_stack@, position_stack@, visited@);
            lemma_closed_pop(m, perm, current_column, head as int, column_stack@, row_stack@, position_stack@, visited@);
        }
        head = head - 1;
    }
    head
}

proof fn lemma_descend_push<V>(
    m: &CscMatrix<V>,
    perm: Seq<isize>,
    current: usize,
    head: int,
    cs: Seq<usize>,
    rs: Seq<usize>,
    ps: Seq<usize>,
    visited: Seq<usize>,
    p: int,
    col2: usize,
)
    requires
        m.wf(),
        m.dim.ncols <= isize::MAX,
        is_matching(m, perm),
        0 <= head,
        stack_ok(m, perm, current, head, cs, rs, ps, visited),
        visited.len() == m.dim.ncols,
        visited[cs[head] as int] == current,
        unvisited(visited, current, m.dim.ncols as int).finite(),
        head + 1 <= m.dim.ncols - unvisited(visited, current, m.dim.ncols as int).len(),
        m.column_pointers@[cs[head] as int] <= p < m.column_pointers@[cs[head] + 1],
        m.row_indices@[p] < m.dim.nrows,
        0 <= perm[m.row_indices@[p] as int] < m.dim.ncols,
        col2 == perm[m.row_indices@[p] as int],
        visited[col2 as int] != current,
    ensures
        head + 1 < m.dim.ncols,
        head < m.dim.nrows,
        stack_ok(m, perm, current, head + 1, cs.update(head + 1, col2), rs.update(head, m.row_indices@[p]), ps.update(head, (p + 1) as usize), visited),
        top_ok(m, current, head + 1, cs.update(head + 1, col2), ps.update(head, (p + 1) as usize), visited),
        top_unvisited(head + 1, cs.update(head + 1, col2), visited, current) == 1,
        head + 2 - 1 <= m.dim.ncols - unvisited(visited, current, m.dim.ncols as int).len(),
{
    let n = m.dim.ncols as int;
    let u = unvisited(visited, current, n);
    let row = m.row_indices@[p] as int;
    lemma_stack_facts(m, perm, current, head, cs, rs, ps, visited);
    assert(u.contains(col2 as int));
    assert(u.remove(col2 as int).len() + 1 == u.len());
    assert forall|i: int| 1 <= i <= head implies perm[row] != #[trigger] cs[i] by {
        assert(visited[cs[i] as int] == current || i == head);
    }
    lemma_stack_rows_bound(m, perm, current, head, cs, rs, ps, visited, row);
    lemma_stack_push(m, perm, current, head, cs, rs, ps, visited, p, col2);
}

proof fn lemma_descend_pop<V>(
    m: &CscMatrix<V>,
    perm: Seq<isize>,
    current: usize,
    head: int,
    cs: Seq<usize>,
    rs: Seq<usize>,
    ps: Seq<usize>,
    visited: Seq<usize>,
)
    requires
        0 <= head,
        stack_ok(m, perm, current, head, cs, rs, ps, visited),
        visited.len() == m.dim.ncols,
        unvisited(visited, current, m.dim.ncols as int).finite(),
        head + 1 <= m.dim.ncols - unvisited(visited, current, m.dim.ncols as int).len(),
    ensures
        stack_ok(m, perm, current, head - 1, cs, rs, ps, visited),
        top_ok(m, current, head - 1, cs, ps, visited),
        top_unvisited(head - 1, cs, visited, current) == 0,
{
    reveal(stack_ok);
}

/// The state of the depth-first search for an augmenting path: the greedy
/// scan positions, the marks, the row, column and position stacks, the top of
/// the stacks, and whether a free row was found.
pub struct Search {
    pub cheap: Seq<usize>,
    pub visited: Seq<usize>,
    pub rs: Seq<usize>,
    pub cs: Seq<usize>,
    pub ps: Seq<usize>,
    pub head: int,
    pub found: bool,
}

/// The search has stopped: it found a free row or emptied its stack.
pub open spec fn search_done(s: Search) -> bool {
    s.found || s.head < 0
}

/// Going one level deeper from the column on top of the stack `head`, into
/// the column matched to its next row whose column is unmarked, or one level
/// back when there is none: the new row, column and position stacks and top.
#[verifier::opaque]
pub open spec fn descend_move<V>(
    m: &CscMatrix<V>,
    perm: Seq<isize>,
    current: int,
    visited: Seq<usize>,
    rs: Seq<usize>,
    cs: Seq<usize>,
    ps: Seq<usize>,
    h: int,
) -> (Seq<usize>, Seq<usize>, Seq<usize>, int) {
    let col = cs[h] as int;
    let p = next_unmarked(m, perm, visited, current, col, ps[h] as int);
    if p < m.column_pointers@[col + 1] {
        let row = m.row_indices@[p];
        (rs.update(h, row), cs.update(h + 1, perm[row as int] as usize), ps.update(h, (p + 1) as usize), h + 1)
    } else {
        (rs, cs, ps, h - 1)
    }
}

/// One step of the search from the column on top of the stack: the first time
/// the column is seen it is marked and scanned greedily for a free row (from
/// its greedy position on); unless one is found, the search descends.
#[verifier::opaque]
pub open spec fn search_step<V>(m: &CscMatrix<V>, perm: Seq<isize>, current: int, s: Search) -> Search {
    let h = s.head;
    let col = s.cs[h] as int;
    if s.visited[col] != current {
        let visited = s.visited.update(col, current as usize);
        let (free, cheap) = cheap_step(m, perm, s.cheap, col);
        match free {
            Some(row) => Search { cheap, visited, rs: s.rs.update(h, row), cs: s.cs, ps: s.ps, head: h, found: true },
            None => {
                let (rs, cs, ps, head) = descend_move(m, perm, current, visited, s.rs, s.cs, s.ps.update(h, m.column_pointers@[col]), h);
                Search { cheap, visited, rs, cs, ps, head, found: false }
            },
        }
    } else {
        let (rs, cs, ps, head) = descend_move(m, perm, current, s.visited, s.rs, s.cs, s.ps, h);
        Search { cheap: s.cheap, visited: s.visited, rs, cs, ps, head, found: false }
    }
}

/// The search after `k` steps (it stays put once it has stopped).
#[verifier::opaque]
pub open spec fn search_after<V>(m: &CscMatrix<V>, perm: Seq<isize>, current: int, s: Search, k: nat) -> Search
    decreases k,
{
    if k == 0 {
        s
    } else {
        let t = search_after(m, perm, current, s, (k - 1) as nat);
        if search_done(t) {
            t
        } else {
            search_step(m, perm, current, t)
        }
    }
}

/// Where the search stops.
pub open spec fn search_end<V>(m: &CscMatrix<V>, perm: Seq<isize>, current: int, s: Search) -> Search {
    search_after(m, perm, current, s, choose|k: nat| search_done(#[trigger] search_after(m, perm, current, s, k)))
}

/// Once stopped, the search stays where it stopped.
proof fn lemma_search_stays<V>(m: &CscMatrix<V>, perm: Seq<isize>, current: int, s: Search, a: nat, b: nat)
    requires
        a <= b,
        search_done(search_after(m, perm, current, s, a)),
    ensures
        search_after(m, perm, current, s, b) == search_after(m, perm, current, s, a),
    decreases b,
{
    if b > a {
        lemma_search_stays(m, perm, current, s, a, (b - 1) as nat);
        reveal_with_fuel(search_after, 1);
    }
}

/// A search that has not stopped after `k` steps takes one more step.
proof fn lemma_search_next<V>(m: &CscMatrix<V>, perm: Seq<isize>, current: int, s: Search, k: nat)
    requires
        !search_done(search_after(m, perm, current, s, k)),
    ensures
        search_after(m, perm, current, s, k + 1) == search_step(m, perm, current, search_after(m, perm, current, s, k)),
{
    reveal_with_fuel(search_after, 1);
}

/// The search starts where it starts.
proof fn lemma_search_zero<V>(m: &CscMatrix<V>, perm: Seq<isize>, current: int, s: Search)
    ensures
        search_after(m, perm, current, s, 0) == s,
{
    reveal_with_fuel(search_after, 1);
}

/// A search stopped after `k` steps stops at `search_end`.
pub proof fn lemma_search_end<V>(m: &CscMatrix<V>, perm: Seq<isize>, current: int, s: Search, k: nat)
    requires
        search_done(search_after(m, perm, current, s, k)),
    ensures
        search_end(m, perm, current, s) == search_after(m, perm, current, s, k),
{
    let j = choose|k: nat| search_done(#[trigger] search_after(m, perm, current, s, k));
    if j <= k {
        lemma_search_stays(m, perm, current, s, j, k);
    } else {
        lemma_search_stays(m, perm, current, s, k, j);
    }
}

/// The search for column `current` starts with `current` alone on the stack.
pub open spec fn search_start(cheap: Seq<usize>, visited: Seq<usize>, rs: Seq<usize>, cs: Seq<usize>, ps: Seq<usize>, current: int) -> Search {
    Search { cheap, visited, rs, cs: cs.update(0, current as usize), ps, head: 0, found: false }
}

/// The matching after the search `e`: the path on its stacks flipped when it
/// found a free row, `perm` unchanged otherwise.
pub open spec fn augmented(perm: Seq<isize>, e: Search) -> Seq<isize> {
    if e.found {
        flip_stack(perm, e.cs, e.rs, e.head)
    } else {
        perm
    }
}

/// A step that meets an unmarked column whose greedy scan finds a free row.
proof fn lemma_step_found<V>(m: &CscMatrix<V>, perm: Seq<isize>, current: int, t: Search, row: usize, cheap: Seq<usize>)
    requires
        t.visited[t.cs[t.head] as int] != current,
        cheap_step(m, perm, t.cheap, t.cs[t.head] as int) == (Some(row), cheap),
    ensures
        search_step(m, perm, current, t) == (Search {
            cheap,
            visited: t.visited.update(t.cs[t.head] as int, current as usize),
            rs: t.rs.update(t.head, row),
            cs: t.cs,
            ps: t.ps,
            head: t.head,
            found: true,
        }),
{
    reveal(search_step);
}

/// A step that meets an unmarked column whose greedy scan finds nothing.
proof fn lemma_step_scan_fails<V>(m: &CscMatrix<V>, perm: Seq<isize>, current: int, t: Search, cheap: Seq<usize>)
    requires
        t.visited[t.cs[t.head] as int] != current,
        cheap_step(m, perm, t.cheap, t.cs[t.head] as int) == (None::<usize>, cheap),
    ensures
        ({
            let col = t.cs[t.head] as int;
            let visited = t.visited.update(col, current as usize);
            let (rs, cs, ps, head) = descend_move(m, perm, current, visited, t.rs, t.cs, t.ps.update(t.head, m.column_pointers@[col]), t.head);
            search_step(m, perm, current, t) == Search { cheap, visited, rs, cs, ps, head, found: false }
        }),
{
    reveal(search_step);
}

/// A step that meets a marked column.
proof fn lemma_step_marked<V>(m: &CscMatrix<V>, perm: Seq<isize>, current: int, t: Search)
    requires
        t.visited[t.cs[t.head] as int] == current,
    ensures
        ({
            let (rs, cs, ps, head) = descend_move(m, perm, current, t.visited, t.rs, t.cs, t.ps, t.head);
            search_step(m, perm, current, t) == Search { cheap: t.cheap, visited: t.visited, rs, cs, ps, head, found: false }
        }),
{
    reveal(search_step);
}

/// `perm` with the rows `rs[0..=h]` matched to the columns `cs[0..=h]`, from
/// the top of the stack down.
pub open spec fn flip_stack(perm: Seq<isize>, cs: Seq<usize>, rs: Seq<usize>, h: int) -> Seq<isize>
    decreases h + 1,
{
    if h < 0 {
        perm
    } else {
        flip_stack(perm.update(rs[h] as int, cs[h] as isize), cs, rs, h - 1)
    }
}

/// The greedy step on column `col`: the first unmatched row from `cheap[col]`
/// on, if any, and the new scan positions.
#[verifier::opaque]
pub open spec fn cheap_step<V>(m: &CscMatrix<V>, perm: Seq<isize>, cheap: Seq<usize>, col: int) -> (Option<usize>, Seq<usize>) {
    let p = first_free(m, perm, col, cheap[col] as int);
    if p < m.column_pointers@[col + 1] {
        (Some(m.row_indices@[p]), cheap.update(col, (p + 1) as usize))
    } else {
        (None, cheap.update(col, p as usize))
    }
}

/// The greedy step of the search: the first unmatched row of column `col` at or
/// after the position where the previous greedy scan of that column stopped;
/// `cheap[col]` moves past every row the scan looked at.
#[verifier::spinoff_prover]
#[verifier::rlimit(100)]
fn cheap_match<V>(m: &CscMatrix<V>, perm: &[isize], col: usize, cheap: &mut Vec<usize>) -> (r: Option<usize>)
    requires
        m.wf(),
        is_matching(m, perm@),
        col < m.dim.ncols,
        cheap_ok(m, perm@, old(cheap)@),
    ensures
        (r, final(cheap)@) == cheap_step(m, perm@, old(cheap)@, col as int),
        final(cheap)@ == old(cheap)@.update(col as int, final(cheap)@[col as int]),
        m.column_pointers@[col as int] <= final(cheap)@[col as int] <= m.column_pointers@[col + 1],
        match r {
            Some(row) => {
                &&& row < m.dim.nrows
                &&& perm@[row as int] == -1
                &&& in_column(m, row as int, col as int)
                &&& cheap_ok_but(m, perm@, final(cheap)@, row as int)
            },
            None => {
                &&& final(cheap)@[col as int] == m.column_pointers@[col + 1]
                &&& cheap_ok(m, perm@, final(cheap)@)
            },
        },
{
    let ghost c0 = cheap@;
    proof {
        reveal(cheap_step);
    }
    assert(c0.len() == m.dim.ncols && m.column_pointers@[col as int] <= c0[col as int] <= m.column_pointers@[col + 1]) by {
        lemma_cheap_facts(m, perm@, c0);
    }
    let start = cheap[col];
    assert(perm@.len() >= m.dim.nrows) by {
        reveal(is_matching);
    }
    let p = first_free_row(m, perm, col, start);
    proof {
        assert(m.column_pointers@[col + 1] <= m.column_pointers@[m.dim.ncols as int]);
    }
    let end = m.col_end(col);
    if p < end {
        let row = m.row_index(p);
        proof {
            lemma_cheap_match_found(m, perm@, c0, col as int, p as int);
        }
        cheap.set(col, p + 1);
        Some(row)
    } else {
        proof {
            lemma_cheap_match_none(m, perm@, c0, col as int, p as int);
        }
        cheap.set(col, p);
        None
    }
}

/// The greedy scan of column `col` found the unmatched row at position `p`.
proof fn lemma_cheap_match_found<V>(m: &CscMatrix<V>, perm: Seq<isize>, c0: Seq<usize>, col: int, p: int)
    requires
        m.wf(),
        0 <= col < m.dim.ncols,
        cheap_ok(m, perm, c0),
        c0[col] <= p < m.column_pointers@[col + 1],
        forall|q: int| c0[col] <= q < p ==> perm[#[trigger] m.row_indices@[q] as int] != -1,
        m.row_indices@[p] < m.dim.nrows,
        perm[m.row_indices@[p] as int] == -1,
    ensures
        m.column_pointers@[col] <= p + 1 <= m.column_pointers@[col + 1],
        in_column(m, m.row_indices@[p] as int, col),
        cheap_ok_but(m, perm, c0.update(col, (p + 1) as usize), m.row_indices@[p] as int),
{
    lemma_cheap_facts(m, perm, c0);
    lemma_cheap_advance(m, perm, c0, col, p + 1, m.row_indices@[p] as int);
    assert(m.column_pointers@[col] <= p < m.column_pointers@[col + 1] && m.row_indices@[p] == m.row_indices@[p]);
}

/// The greedy scan of column `col` reached its end at `p`.
proof fn lemma_cheap_match_none<V>(m: &CscMatrix<V>, perm: Seq<isize>, c0: Seq<usize>, col: int, p: int)
    requires
        m.wf(),
        0 <= col < m.dim.ncols,
        cheap_ok(m, perm, c0),
        c0[col] <= p,
        p >= m.column_pointers@[col + 1],
        p <= m.column_pointers@[col + 1],
        forall|q: int| c0[col] <= q < p ==> perm[#[trigger] m.row_indices@[q] as int] != -1,
    ensures
        cheap_ok(m, perm, c0.update(col, p as usize)),
{
    lemma_cheap_facts(m, perm, c0);
    lemma_cheap_advance(m, perm, c0, col, p, -1);
}

/// Moving the greedy position of column `col` forward over matched rows, and
/// possibly one unmatched row `free` just before the new position.
proof fn lemma_cheap_advance<V>(m: &CscMatrix<V>, perm: Seq<isize>, c0: Seq<usize>, col: int, p: int, free: int)
    requires
        m.wf(),
        cheap_ok(m, perm, c0),
        0 <= col < m.dim.ncols,
        c0[col] <= p <= m.column_pointers@[col + 1],
        forall|q: int| c0[col] <= q < p ==> perm[#[trigger] m.row_indices@[q] as int] != -1
            || (q == p - 1 && m.row_indices@[q] == free),
    ensures
        free == -1 ==> cheap_ok(m, perm, c0.update(col, p as usize)),
        free != -1 ==> cheap_ok_but(m, perm, c0.update(col, p as usize), free),
{
    reveal(cheap_ok);
    reveal(cheap_ok_but);
    let cp = m.column_pointers@;
    let ri = m.row_indices@;
    let c1 = c0.update(col, p as usize);
    assert forall|c: int, q: int|
        0 <= c < m.dim.ncols && cp[c] <= q < #[trigger] c1[c] implies perm[#[trigger] ri[q] as int] != -1
            || ri[q] == free by {
        if c == col {
            if q < c0[col] {
                assert(cp[c] <= q < c0[c]);
            }
        } else {
            assert(c1[c] == c0[c]);
        }
    }
    if free == -1 {
        assert forall|c: int, q: int|
            0 <= c < m.dim.ncols && cp[c] <= q < #[trigger] c1[c] implies perm[#[trigger] ri[q] as int] != -1 by {
            if c == col {
                if q < c0[col] {
                    assert(cp[c] <= q < c0[c]);
                } else {
                    assert(ri[q] != -1);
                }
            } else {
                assert(c1[c] == c0[c]);
            }
        }
    }
}

/// The first position at or after `start` in column `col` whose row is unmatched
/// (or the end of the column).
fn first_free_row<V>(m: &CscMatrix<V>, perm: &[isize], col: usize, start: usize) -> (r: usize)
    requires
        m.wf(),
        perm@.len() >= m.dim.nrows,
        col < m.dim.ncols,
        m.column_pointers@[col as int] <= start <= m.column_pointers@[col + 1],
    ensures
        start <= r <= m.column_pointers@[col + 1],
        forall|q: int| start <= q < r ==> perm@[#[trigger] m.row_indices@[q] as int] != -1,
        r < m.column_pointers@[col + 1] ==> m.row_indices@[r as int] < m.dim.nrows
            && perm@[m.row_indices@[r as int] as int] == -1,
        r == first_free(m, perm@, col as int, start as int),
{
    let end = m.col_end(col);
    let mut p = start;
    proof {
        assert(m.column_pointers@[col + 1] <= m.column_pointers@[m.dim.ncols as int]);
    }
    while p < end
        invariant
            start <= p <= end,
            end == m.column_pointers@[col + 1],
            end <= m.row_indices@.len(),
            m.column_pointers@[col as int] <= start,
            m.wf(),
            perm@.len() >= m.dim.nrows,
            col < m.dim.ncols,
            forall|q: int| start <= q < p ==> perm@[#[trigger] m.row_indices@[q] as int] != -1,
            first_free(m, perm@, col as int, start as int) == first_free(m, perm@, col as int, p as int),
        decreases end - p,
    {
        let row = m.row_index(p);
        proof {
            assert(m.row_indices@[p as int] < m.dim.nrows && m.column_pointers@[col as int]
                == m.column_pointers@[col as int]);
            reveal_with_fuel(first_free, 1);
        }
        if perm[row] == -1 {
            return p;
        }
        p = p + 1;
    }
    proof {
        reveal_with_fuel(first_free, 1);
    }
    p
}

/// The first position at or after `p` in column `col` whose row is
/// unmatched, or the end of the column.
#[verifier::opaque]
pub open spec fn first_free<V>(m: &CscMatrix<V>, perm: Seq<isize>, col: int, p: int) -> int
    decreases m.column_pointers@[col + 1] - p,
{
    if p >= m.column_pointers@[col + 1] {
        p
    } else if perm[m.row_indices@[p] as int] == -1 {
        p
    } else {
        first_free(m, perm, col, p + 1)
    }
}

/// The first position at or after `p` in column `col` whose row is matched to
/// a column that the search for `current` has not marked, or the end of the column.
#[verifier::opaque]
pub open spec fn next_unmarked<V>(m: &CscMatrix<V>, perm: Seq<isize>, visited: Seq<usize>, current: int, col: int, p: int) -> int
    decreases m.column_pointers@[col + 1] - p,
{
    if p >= m.column_pointers@[col + 1] {
        p
    } else if visited[perm[m.row_indices@[p] as int] as int] != current {
        p
    } else {
        next_unmarked(m, perm, visited, current, col, p + 1)
    }
}

/// The first position at or after `start` in column `col` whose row is matched
/// to a column not yet marked by the search (or the end of the column).
#[verifier::spinoff_prover]
fn next_unvisited<V>(
    m: &CscMatrix<V>,
    perm: &[isize],
    visited: &Vec<usize>,
    current: usize,
    col: usize,
    start: usize,
) -> (r: usize)
    requires
        m.wf(),
        is_matching(m, perm@),
        col < m.dim.ncols,
        visited@.len() == m.dim.ncols,
        m.column_pointers@[col as int] <= start <= m.column_pointers@[col + 1],
        forall|p: int|
            m.column_pointers@[col as int] <= p < m.column_pointers@[col + 1] ==> perm@[#[trigger] m.row_indices@[p] as int] != -1,
    ensures
        start <= r <= m.column_pointers@[col + 1],
        forall|q: int| start <= q < r ==> #[trigger] target_marked(m, perm@, visited@, current, q),
        r < m.column_pointers@[col + 1] ==> {
            let row = m.row_indices@[r as int];
            &&& row < m.dim.nrows
            &&& 0 <= perm@[row as int] < m.dim.ncols
            &&& visited@[perm@[row as int] as int] != current
        },
        r == next_unmarked(m, perm@, visited@, current as int, col as int, start as int),
{
    let end = m.col_end(col);
    let mut p = start;
    proof {
        assert(m.column_pointers@[col + 1] <= m.column_pointers@[m.dim.ncols as int]);
    }
    while p < end
        invariant
            start <= p <= end,
            end == m.column_pointers@[col + 1],
            end <= m.row_indices@.len(),
            m.column_pointers@[col as int] <= start,
            m.wf(),
            is_matching(m, perm@),
            col < m.dim.ncols,
            visited@.len() == m.dim.ncols,
            forall|q: int|
                m.column_pointers@[col as int] <= q < m.column_pointers@[col + 1] ==> perm@[#[trigger] m.row_indices@[q] as int] != -1,
            forall|q: int| start <= q < p ==> #[trigger] target_marked(m, perm@, visited@, current, q),
            next_unmarked(m, perm@, visited@, current as int, col as int, start as int) == next_unmarked(m, perm@, visited@, current as int, col as int, p as int),
        decreases end - p,
    {
        let row = m.row_index(p);
        proof {
            assert(m.row_indices@[p as int] < m.dim.nrows && m.column_pointers@[col as int] == m.column_pointers@[col as int]);
            assert(perm@[row as int] != -1);
            lemma_matching_range(m, perm@, row as int);
        }
        let c = perm[row];
        proof {
            reveal_with_fuel(next_unmarked, 1);
        }
        if visited[c as usize] != current {
            return p;
        }
        assert(target_marked(m, perm@, visited@, current, p as int));
        p = p + 1;
    }
    proof {
        reveal_with_fuel(next_unmarked, 1);
    }
    p
}

/// `after` is `perm` with the augmenting path `(rs[i], cs[i])`, `i <= h`, flipped:
/// the path starts at the unmatched column `current` and ends at the free row `rs[h]`.
#[verifier::opaque]
pub open spec fn flipped_path<V>(
    m: &CscMatrix<V>,
    perm: Seq<isize>,
    after: Seq<isize>,
    current: usize,
    h: int,
    cs: Seq<usize>,
    rs: Seq<usize>,
) -> bool {
    &&& m.wf()
    &&& is_matching(m, perm)
    &&& matched_below(m, perm, current as int)
    &&& m.dim.ncols <= isize::MAX
    &&& 0 <= h < m.dim.nrows
    &&& h < m.dim.ncols
    &&& forall|i: int| 0 <= i <= h ==> #[trigger] cs[i] < m.dim.ncols
    &&& forall|i: int, j: int| 0 <= i < j <= h ==> #[trigger] cs[i] != #[trigger] cs[j]
    &&& forall|i: int| 0 <= i <= h ==> #[trigger] rs[i] < m.dim.nrows
    &&& forall|i: int, j: int| 0 <= i < j <= h ==> #[trigger] rs[i] != #[trigger] rs[j]
    &&& forall|i: int| 0 <= i < h ==> perm[#[trigger] rs[i] as int] == cs[i + 1]
    &&& forall|i: int| 0 <= i <= h ==> #[trigger] in_column(m, rs[i] as int, cs[i] as int)
    &&& cs[0] == current
    &&& perm[rs[h] as int] == -1
    &&& after.len() == perm.len()
    &&& forall|i: int| -1 < i <= h ==> after[#[trigger] rs[i] as int] == cs[i] as isize
    &&& forall|r: int|
        0 <= r < perm.len() && (forall|i: int| -1 < i <= h ==> #[trigger] rs[i] != r) ==> #[trigger] after[r] == perm[r]
}

/// Every match after the flip is a stored entry in a column up to `current`.
proof fn lemma_flip_entry<V>(
    m: &CscMatrix<V>,
    perm: Seq<isize>,
    after: Seq<isize>,
    current: usize,
    h: int,
    cs: Seq<usize>,
    rs: Seq<usize>,
    r: int,
)
    requires
        flipped_path(m, perm, after, current, h, cs, rs),
        0 <= r < m.dim.nrows,
        after[r] != -1,
    ensures
        0 <= after[r] < m.dim.ncols,
        m.has_entry(r, after[r] as int),
        after[r] <= current,
{
    reveal(flipped_path);
    reveal(is_matching);
    if exists|i: int| 0 <= i <= h && rs[i] == r {
        let i = choose|i: int| 0 <= i <= h && rs[i] == r;
        assert(after[rs[i] as int] == cs[i] as isize);
        assert(in_column(m, rs[i] as int, cs[i] as int));
        assert(cs[i] < m.dim.ncols);
        if i > 0 {
            assert(perm[rs[i - 1] as int] == cs[i]);
            assert(rs[i - 1] < m.dim.nrows);
        }
    } else {
        assert forall|i: int| -1 < i <= h implies #[trigger] rs[i] != r by {}
        assert(after[r] == perm[r]);
    }
}

/// A row is matched after the flip exactly when it was matched before or is the free end row.
proof fn lemma_flip_matched<V>(
    m: &CscMatrix<V>,
    perm: Seq<isize>,
    after: Seq<isize>,
    current: usize,
    h: int,
    cs: Seq<usize>,
    rs: Seq<usize>,
    r: int,
)
    requires
        flipped_path(m, perm, after, current, h, cs, rs),
        0 <= r < m.dim.nrows,
    ensures
        after[r] != -1 <==> (perm[r] != -1 || r == rs[h]),
{
    reveal(flipped_path);
    reveal(is_matching);
    if exists|i: int| 0 <= i <= h && rs[i] == r {
        let i = choose|i: int| 0 <= i <= h && rs[i] == r;
        assert(after[rs[i] as int] == cs[i] as isize);
        assert(cs[i] < m.dim.ncols);
        if i < h {
            assert(perm[rs[i] as int] == cs[i + 1]);
        }
    } else {
        assert forall|i: int| -1 < i <= h implies #[trigger] rs[i] != r by {}
        assert(after[r] == perm[r]);
    }
}

/// Rows past `nrows` stay unmatched by the flip.
proof fn lemma_flip_tail<V>(
    m: &CscMatrix<V>,
    perm: Seq<isize>,
    after: Seq<isize>,
    current: usize,
    h: int,
    cs: Seq<usize>,
    rs: Seq<usize>,
    r: int,
)
    requires
        flipped_path(m, perm, after, current, h, cs, rs),
        m.dim.nrows <= r < after.len(),
    ensures
        after[r] == -1,
{
    reveal(flipped_path);
    reveal(is_matching);
    assert forall|i: int| -1 < i <= h implies #[trigger] rs[i] != r by {
        assert(rs[i] < m.dim.nrows);
    }
    assert(after[r] == perm[r]);
}

/// Flipping the matches along an augmenting path gives a matching with one more row.
proof fn lemma_flip_result<V>(
    m: &CscMatrix<V>,
    perm: Seq<isize>,
    after: Seq<isize>,
    current: usize,
    h: int,
    cs: Seq<usize>,
    rs: Seq<usize>,
)
    requires
        flipped_path(m, perm, after, current, h, cs, rs),
    ensures
        is_matching(m, after),
        matched_below(m, after, current + 1),
        matched_rows(after, m.dim.nrows as int) == matched_rows(perm, m.dim.nrows as int).insert(
            rs[h] as int,
        ),
        !matched_rows(perm, m.dim.nrows as int).contains(rs[h] as int),
        forall|r: int| 0 <= r < m.dim.nrows && perm[r] != -1 ==> #[trigger] after[r] != -1,
{
    reveal(is_matching);
    let nr = m.dim.nrows as int;
    let n = m.dim.ncols as int;
    assert(perm.len() >= nr && rs[h] < nr && perm[rs[h] as int] == -1 && after.len() == perm.len()) by {
        reveal(flipped_path);
    }
    assert forall|r: int| 0 <= r < nr && #[trigger] after[r] != -1 implies 0 <= after[r] < n
        && m.has_entry(r, after[r] as int) by {
        lemma_flip_entry(m, perm, after, current, h, cs, rs, r);
    }
    assert forall|r: int| 0 <= r < nr && #[trigger] after[r] != -1 implies after[r] < current + 1 by {
        lemma_flip_entry(m, perm, after, current, h, cs, rs, r);
    }
    assert forall|r1: int, r2: int|
        0 <= r1 < nr && 0 <= r2 < nr && r1 != r2 && #[trigger] after[r1] != -1 implies after[r1]
        != #[trigger] after[r2] by {
        lemma_flip_injective(m, perm, after, current, h, cs, rs, r1, r2);
    }
    assert forall|r: int| nr <= r < after.len() implies #[trigger] after[r] == -1 by {
        lemma_flip_tail(m, perm, after, current, h, cs, rs, r);
    }
    assert forall|r: int| 0 <= r < nr implies (#[trigger] after[r] != -1 <==> (perm[r] != -1 || r
        == rs[h])) by {
        lemma_flip_matched(m, perm, after, current, h, cs, rs, r);
    }
    assert(matched_rows(after, nr) =~= matched_rows(perm, nr).insert(rs[h] as int));
}

/// No two rows share a column after the flip.
#[verifier::rlimit(40)]
proof fn lemma_flip_injective<V>(
    m: &CscMatrix<V>,
    perm: Seq<isize>,
    after: Seq<isize>,
    current: usize,
    h: int,
    cs: Seq<usize>,
    rs: Seq<usize>,
    r1: int,
    r2: int,
)
    requires
        flipped_path(m, perm, after, current, h, cs, rs),
        0 <= r1 < m.dim.nrows,
        0 <= r2 < m.dim.nrows,
        r1 != r2,
        after[r1] != -1,
    ensures
        after[r1] != after[r2],
{
    reveal(flipped_path);
    lemma_matching_range(m, perm, r1);
    lemma_matching_range(m, perm, r2);
    let s1 = exists|i: int| 0 <= i <= h && rs[i] == r1;
    let s2 = exists|i: int| 0 <= i <= h && rs[i] == r2;
    if s1 && s2 {
        let i1 = choose|i: int| 0 <= i <= h && rs[i] == r1;
        let i2 = choose|i: int| 0 <= i <= h && rs[i] == r2;
        assert(after[rs[i1] as int] == cs[i1] as isize);
        assert(after[rs[i2] as int] == cs[i2] as isize);
        assert(cs[i1] < m.dim.ncols && cs[i2] < m.dim.ncols);
        if i1 < i2 {
            assert(cs[i1] != cs[i2]);
        } else {
            assert(cs[i2] != cs[i1]);
        }
    } else if s1 {
        let i1 = choose|i: int| 0 <= i <= h && rs[i] == r1;
        assert(after[rs[i1] as int] == cs[i1] as isize);
        assert(cs[i1] < m.dim.ncols);
        assert forall|i: int| -1 < i <= h implies #[trigger] rs[i] != r2 by {}
        assert(after[r2] == perm[r2]);
        if perm[r2] != -1 {
            if i1 == 0 {
                assert(perm[r2] < current);
            } else {
                assert(perm[rs[i1 - 1] as int] == cs[i1]);
                assert(rs[i1 - 1] != r2);
                assert(rs[i1 - 1] < m.dim.nrows);
                lemma_matching_injective(m, perm, r2, rs[i1 - 1] as int);
            }
        }
    } else if s2 {
        let i2 = choose|i: int| 0 <= i <= h && rs[i] == r2;
        assert(after[rs[i2] as int] == cs[i2] as isize);
        assert(cs[i2] < m.dim.ncols);
        assert forall|i: int| -1 < i <= h implies #[trigger] rs[i] != r1 by {}
        assert(after[r1] == perm[r1]);
        if i2 == 0 {
            assert(perm[r1] < current);
        } else {
            assert(perm[rs[i2 - 1] as int] == cs[i2]);
            assert(rs[i2 - 1] != r1);
            assert(rs[i2 - 1] < m.dim.nrows);
            lemma_matching_injective(m, perm, r1, rs[i2 - 1] as int);
        }
    } else {
        assert forall|i: int| -1 < i <= h implies #[trigger] rs[i] != r1 by {}
        assert forall|i: int| -1 < i <= h implies #[trigger] rs[i] != r2 by {}
        assert(after[r1] == perm[r1]);
        assert(after[r2] == perm[r2]);
        lemma_matching_injective(m, perm, r1, r2);
    }
}

/// 1 when the top of the stack is a column not yet marked by the search.
pub open spec fn top_unvisited(head: int, cs: Seq<usize>, visited: Seq<usize>, current: usize) -> int {
    if head >= 0 && visited[cs[head] as int] != current {
        1
    } else {
        0
    }
}

/// Like `cheap_ok`, except that row `free` may be unmatched.
#[verifier::opaque]
spec fn cheap_ok_but<V>(m: &CscMatrix<V>, perm: Seq<isize>, cheap: Seq<usize>, free: int) -> bool {
    let cp = m.column_pointers@;
    &&& cheap.len() == m.dim.ncols
    &&& forall|c: int|
        0 <= c < m.dim.ncols ==> cp[c] <= #[trigger] cheap[c] <= cp[c + 1]
    &&& forall|c: int, p: int|
        0 <= c < m.dim.ncols && cp[c] <= p < #[trigger] cheap[c] ==> perm[#[trigger] m.row_indices@[p] as int] != -1
            || m.row_indices@[p] == free
}

/// The rows on the stack, and a row matched to no column of the stack, are
/// distinct rows, so the stack is shorter than the number of rows.
proof fn lemma_stack_rows_bound<V>(
    m: &CscMatrix<V>,
    perm: Seq<isize>,
    current: usize,
    head: int,
    cs: Seq<usize>,
    rs: Seq<usize>,
    ps: Seq<usize>,
    visited: Seq<usize>,
    row: int,
)
    requires
        m.wf(),
        is_matching(m, perm),
        stack_ok(m, perm, current, head, cs, rs, ps, visited),
        head >= 0,
        0 <= row < m.dim.nrows,
        forall|i: int| 1 <= i <= head ==> perm[row] != #[trigger] cs[i],
    ensures
        head < m.dim.nrows,
{
    lemma_stack_facts_full(m, perm, current, head, cs, rs, ps, visited);
    let s = Seq::new((head + 1) as nat, |i: int| if i < head { rs[i] } else { row as usize });
    assert forall|i: int, j: int| 0 <= i < s.len() && 0 <= j < s.len() && i != j implies s[i] != s[j] by {
        if i < head && j < head {
            assert(rs[i] != rs[j]);
        } else if i < head {
            assert(perm[rs[i] as int] == cs[i + 1]);
        } else if j < head {
            assert(perm[rs[j] as int] == cs[j + 1]);
        }
    }
    assert forall|i: int| 0 <= i < s.len() implies #[trigger] s[i] < m.dim.nrows by {
        if i < head {
            assert(rs[i] < m.dim.nrows);
        }
    }
    crate::solver::utils::lemma_distinct_indices_bound(s, m.dim.nrows as int);
}

/// The facts a search stack records, as separate statements.
proof fn lemma_stack_facts_full<V>(m: &CscMatrix<V>, perm: Seq<isize>, current: usize, head: int, cs: Seq<usize>, rs: Seq<usize>, ps: Seq<usize>, visited: Seq<usize>)
    requires
        m.wf(),
        stack_ok(m, perm, current, head, cs, rs, ps, visited),
    ensures
        forall|i: int| 0 <= i <= head ==> #[trigger] cs[i] < m.dim.ncols,
        forall|i: int, j: int| 0 <= i < j <= head ==> #[trigger] cs[i] != #[trigger] cs[j],
        forall|i: int| 0 <= i < head ==> #[trigger] rs[i] < m.dim.nrows,
        forall|i: int| 0 <= i < head ==> perm[#[trigger] rs[i] as int] == cs[i + 1],
        forall|i: int| 0 <= i < head ==> #[trigger] in_column(m, rs[i] as int, cs[i] as int),
        forall|i: int, j: int| 0 <= i < j < head ==> #[trigger] rs[i] != #[trigger] rs[j],
        head >= 0 ==> cs[0] == current,
{
    reveal(stack_ok);
    assert forall|i: int| 0 <= i < head implies #[trigger] in_column(m, rs[i] as int, cs[i] as int) by {
        let p = ps[i] - 1;
        assert(m.column_pointers@[cs[i] as int] <= p < m.column_pointers@[cs[i] + 1]);
        assert(m.row_indices@[p] == rs[i]);
    }
    assert forall|i: int, j: int| 0 <= i < j < head implies #[trigger] rs[i] != #[trigger] rs[j] by {
        assert(perm[rs[i] as int] == cs[i + 1]);
        assert(perm[rs[j] as int] == cs[j + 1]);
        assert(cs[i + 1] != cs[j + 1]);
    }
}

/// The matching, the greedy positions, the marks and the stacks of the
/// maximum transversal between two columns.
pub struct Transversal {
    pub perm: Seq<isize>,
    pub cheap: Seq<usize>,
    pub visited: Seq<usize>,
    pub rs: Seq<usize>,
    pub cs: Seq<usize>,
    pub ps: Seq<usize>,
}

/// The search for an augmenting path from column `col`, and its effect.
pub open spec fn augment_column<V>(m: &CscMatrix<V>, col: int, t: Transversal) -> Transversal {
    let e = search_end(m, t.perm, col, search_start(t.cheap, t.visited, t.rs, t.cs, t.ps, col));
    Transversal { perm: augmented(t.perm, e), cheap: e.cheap, visited: e.visited, rs: e.rs, cs: e.cs, ps: e.ps }
}

/// The state after the columns before `k` have been searched from, in order.
pub open spec fn columns_searched<V>(m: &CscMatrix<V>, k: nat, t0: Transversal) -> Transversal
    decreases k,
{
    if k == 0 {
        t0
    } else {
        augment_column(m, k - 1, columns_searched(m, (k - 1) as nat, t0))
    }
}

/// The state before the first column: nothing matched (`len` entries), the
/// greedy positions at the column starts, no marks, and the stacks filled
/// with `ncols + 1`.
pub open spec fn transversal_start<V>(m: &CscMatrix<V>, len: nat) -> Transversal {
    let n = m.dim.ncols as int;
    Transversal {
        perm: Seq::new(len, |i: int| -1isize),
        cheap: Seq::new(n as nat, |c: int| m.column_pointers@[c]),
        visited: Seq::new(n as nat, |c: int| (n + 1) as usize),
        rs: Seq::new(m.dim.nrows as nat, |c: int| (n + 1) as usize),
        cs: Seq::new(n as nat, |c: int| (n + 1) as usize),
        ps: Seq::new(n as nat, |c: int| (n + 1) as usize),
    }
}

/// The matching that the depth-first augmenting-path search finds, column by
/// column, on a matching of `len` entries that starts empty.
pub open spec fn max_transversal<V>(m: &CscMatrix<V>, len: nat) -> Seq<isize> {
    columns_searched(m, m.dim.ncols as nat, transversal_start(m, len)).perm
}

/// Maximum transversal: matches the columns of `m` to distinct rows holding a
/// stored entry, visiting the columns in order, with a greedy scan first and a
/// depth-first search for an augmenting path when that fails.
/// On return `column_permutations[r]` is the column matched to row `r`, or -1;
/// the result is the number of matched rows.
pub fn btf_max_transversal<V>(m: &CscMatrix<V>, column_permutations: &mut [isize]) -> (count: usize)
    requires
        m.wf(),
        m.dim.ncols <= isize::MAX,
        old(column_permutations)@.len() >= m.dim.nrows,
    ensures
        final(column_permutations)@.len() == old(column_permutations)@.len(),
        is_matching(m, final(column_permutations)@),
        count == matched_rows(final(column_permutations)@, m.dim.nrows as int).len(),
        count <= m.dim.ncols,
        forall|q: Seq<isize>| #[trigger] is_matching(m, q) ==> matched_rows(q, m.dim.nrows as int).len() <= count,
        final(column_permutations)@ == max_transversal(m, old(column_permutations)@.len()),
{
    let n = m.dim.ncols;
    let out_of_bounds = n + 1;
    let mut i: usize = 0;
    while i < column_permutations.len()
        invariant
            i <= column_permutations@.len(),
            column_permutations@.len() == old(column_permutations)@.len(),
            forall|r: int| 0 <= r < i ==> #[trigger] column_permutations@[r] == -1,
        decreases column_permutations@.len() - i,
    {
        column_permutations[i] = -1;
        i = i + 1;
    }
    let mut cheap: Vec<usize> = Vec::new();
    let mut col: usize = 0;
    while col < n
        invariant
            m.wf(),
            n == m.dim.ncols,
            col <= n,
            cheap@.len() == col,
            forall|c: int| 0 <= c < col ==> #[trigger] cheap@[c] == m.column_pointers@[c],
        decreases n - col,
    {
        cheap.push(m.col_start(col));
        col = col + 1;
    }
    // flag in Davis's code
    let mut visited: Vec<usize> = vec![out_of_bounds; n];
    let mut row_stack: Vec<usize> = vec![out_of_bounds; m.dim.nrows];
    let mut column_stack: Vec<usize> = vec![out_of_bounds; n];
    let mut position_stack: Vec<usize> = vec![out_of_bounds; n];
    let ghost nr = m.dim.nrows as int;
    proof {
        reveal(is_matching);
        reveal(cheap_ok);
        assert(matched_rows(column_permutations@, nr) =~= Set::empty());
    }
    let mut number_of_matches: usize = 0;
    let ghost mut closed: Set<int> = Set::empty();
    let ghost t0 = transversal_start(m, column_permutations@.len());
    proof {
        assert(column_permutations@ =~= t0.perm);
        assert(cheap@ =~= t0.cheap);
        assert(visited@ =~= t0.visited);
        assert(row_stack@ =~= t0.rs);
        assert(column_stack@ =~= t0.cs);
        assert(position_stack@ =~= t0.ps);
    }
    let mut col: usize = 0;
    while col < n
        invariant
            (Transversal { perm: column_permutations@, cheap: cheap@, visited: visited@, rs: row_stack@, cs: column_stack@, ps: position_stack@ })
                == columns_searched(m, col as nat, t0),
            t0 == transversal_start(m, old(column_permutations)@.len()),
            cols_closed(m, column_permutations@, closed),
            forall|c: int| 0 <= c < col ==> col_used(column_permutations@, nr, c) || #[trigger] closed.contains(c),
            m.wf(),
            n == m.dim.ncols,
            n <= isize::MAX,
            out_of_bounds == n + 1,
            col <= n,
            column_permutations@.len() == old(column_permutations)@.len(),
            is_matching(m, column_permutations@),
            matched_below(m, column_permutations@, col as int),
            cheap_ok(m, column_permutations@, cheap@),
            visited@.len() == n,
            forall|c: int| 0 <= c < n ==> #[trigger] visited@[c] == out_of_bounds || visited@[c] < col,
            row_stack@.len() == m.dim.nrows,
            column_stack@.len() == n,
            position_stack@.len() == n,
            number_of_matches == matched_rows(column_permutations@, nr).len(),
            number_of_matches <= col,
            nr == m.dim.nrows,
        decreases n - col,
    {
        let ghost before = column_permutations@;
        let ghost tb = Transversal { perm: column_permutations@, cheap: cheap@, visited: visited@, rs: row_stack@, cs: column_stack@, ps: position_stack@ };
        let found = try_augmenting_path(
            m,
            col,
            column_permutations,
            &mut cheap,
            &mut visited,
            &mut row_stack,
            &mut column_stack,
            &mut position_stack,
        );
        if found {
            number_of_matches = number_of_matches + 1;
        }
        proof {
            assert(columns_searched(m, (col + 1) as nat, t0) == augment_column(m, col as int, tb));
        }
        proof {
            if !found {
                let marked = marked_cols(visited@, col, n as int);
                lemma_closed_union(m, column_permutations@, closed, marked);
                assert(marked.contains(col as int));
                closed = closed + marked;
            }
            assert forall|c: int| 0 <= c < col + 1 implies col_used(column_permutations@, nr, c) || #[trigger] closed.contains(c) by {
                if c < col {
                    if !col_used(before, nr, c) {
                        assert(closed.contains(c));
                    }
                }
            }
        }
        proof {
            assert forall|c: int| 0 <= c < n implies #[trigger] visited@[c] == out_of_bounds || visited@[c] < col + 1 by {
                assert(visited@[c] == visited@[c]);
            }
        }
        col = col + 1;
    }
    proof {
        assert forall|q: Seq<isize>| #[trigger] is_matching(m, q) implies matched_rows(q, nr).len() <= number_of_matches by {
            lemma_matching_bound(m, column_permutations@, closed, q);
        }
    }
    number_of_matches
}

/// Runs the maximum transversal on a fresh permutation with one entry per row.
pub fn run_btf_max_transversal<V>(m: &CscMatrix<V>) -> (r: (usize, Vec<isize>))
    requires
        m.wf(),
        m.dim.ncols <= isize::MAX,
    ensures
        r.1@.len() == m.dim.nrows,
        is_matching(m, r.1@),
        r.0 == matched_rows(r.1@, m.dim.nrows as int).len(),
        r.0 <= m.dim.ncols,
        forall|q: Seq<isize>| #[trigger] is_matching(m, q) ==> matched_rows(q, m.dim.nrows as int).len() <= r.0,
        r.1@ == max_transversal(m, m.dim.nrows as nat),
{
    let nrows = m.dim.nrows;
    let mut column_permutations: Vec<isize> = vec![-1; nrows];
    let number_of_matches = btf_max_transversal(m, column_permutations.as_mut_slice());
    (number_of_matches, column_permutations)
}

} // verus!
