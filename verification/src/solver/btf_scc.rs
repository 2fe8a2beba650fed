use vstd::prelude::*;

use crate::solver::matrix::csc::CscMatrix;
use crate::solver::utils::spec_unflip;
use crate::solver::label_sort::count_label;
use crate::solver::label_sort::label_pos;
use crate::solver::label_sort::label_start;
use crate::solver::label_sort::lemma_count_mono;
use crate::solver::label_sort::lemma_count_strict;
use crate::solver::label_sort::lemma_place_hit;
use crate::solver::label_sort::lemma_place_label;
use crate::solver::label_sort::lemma_pos_distinct;
use crate::solver::label_sort::lemma_pos_range;
use crate::solver::label_sort::lemma_start_mono;
use crate::solver::label_sort::lemma_start_total;
use crate::solver::utils::EMPTY;
use crate::solver::utils::unflip;

verus! {

/// `visited[j] == UNVISITED`: node `j` has not been reached yet.
pub const UNVISITED: usize = usize::MAX;

/// `visited[j] == UNASSIGNED`: node `j` has been reached but is not in a block yet.
pub const UNASSIGNED: usize = usize::MAX - 1;

/// The column of `m` that node `x` stands for: the column matched to `x` by
/// the (possibly flipped) column permutation `q`.
pub open spec fn qcol(q: Seq<isize>, x: int) -> int {
    spec_unflip(q[x] as int)
}

/// The graph of the permuted matrix: an edge from node `u` to node `v` for
/// each entry in row `v` of column `q(u)`.
pub open spec fn edge<V>(m: &CscMatrix<V>, q: Seq<isize>, u: int, v: int) -> bool {
    m.has_entry(v, qcol(q, u))
}

/// First position of the entries of node `x`.
pub open spec fn nstart<V>(m: &CscMatrix<V>, q: Seq<isize>, x: int) -> int {
    m.column_pointers@[qcol(q, x)] as int
}

/// One past the last position of the entries of node `x`.
pub open spec fn nend<V>(m: &CscMatrix<V>, q: Seq<isize>, x: int) -> int {
    m.column_pointers@[qcol(q, x) + 1] as int
}

/// The node reached through the entry at position `p`.
pub open spec fn target<V>(m: &CscMatrix<V>, p: int) -> int {
    m.row_indices@[p] as int
}

/// The matrix and the permutation `q` describe a graph on `0..n`.
pub open spec fn graph_ok<V>(m: &CscMatrix<V>, q: Seq<isize>) -> bool {
    let n = m.dim.ncols as int;
    &&& m.wf()
    &&& m.dim.nrows == m.dim.ncols
    &&& n + 2 <= usize::MAX
    &&& n <= isize::MAX
    &&& q.len() >= n
    &&& forall|x: int| 0 <= x < n ==> #[trigger] q[x] > isize::MIN && 0 <= qcol(q, x) < n
}

/// The reached nodes.
pub open spec fn reached(vis: Seq<usize>, n: int) -> Set<int> {
    Set::new(|x: int| 0 <= x < n && vis[x] != UNVISITED)
}

/// A snapshot of Tarjan's search: labels `vis` (block numbers below `nb`, or
/// the two markers), discovery indices `gi` (the last one given is `ngi`), low
/// links `low`, the nodes waiting for a block `cs[1..=ch]` in discovery order,
/// the path of the search `st[0..=h]` with its scan positions `ps`, and the
/// place `sp[i]` of `st[i]` among the waiting nodes.
pub struct SccState {
    pub vis: Seq<usize>,
    pub gi: Seq<isize>,
    pub low: Seq<isize>,
    pub cs: Seq<usize>,
    pub ch: int,
    pub st: Seq<usize>,
    pub ps: Seq<usize>,
    pub h: int,
    pub sp: Seq<int>,
    pub ngi: int,
    pub nb: int,
}

impl SccState {
    /// The node on top of the path has been reached.
    pub open spec fn top_vis(self) -> bool {
        self.h >= 0 && self.vis[self.st[self.h] as int] != UNVISITED
    }

    /// The last reached node of the path.
    pub open spec fn hv(self) -> int {
        if self.h < 0 {
            -1
        } else if self.top_vis() {
            self.h
        } else {
            self.h - 1
        }
    }

    /// Node `x` is a reached node of the path.
    pub open spec fn on_path(self, x: int) -> bool {
        exists|i: int| 0 <= i <= self.hv() && self.st[i] == x
    }
}

/// The edge at position `p`, leaving a node whose low link is `lowx`, is
/// accounted for: its target has been reached, and when it is still waiting
/// for a block, `lowx` is at most its index.
pub open spec fn edge_done<V>(m: &CscMatrix<V>, s: SccState, lowx: isize, p: int) -> bool {
    let v = target(m, p);
    &&& s.vis[v] != UNVISITED
    &&& s.vis[v] == UNASSIGNED ==> lowx <= s.gi[v]
}

#[verifier::opaque]
pub open spec fn inv_shape<V>(m: &CscMatrix<V>, q: Seq<isize>, root: int, s: SccState) -> bool {
    let n = m.dim.ncols as int;
    &&& graph_ok(m, q)
    &&& s.vis.len() == n && s.gi.len() == n && s.low.len() >= n && s.cs.len() >= n + 1
    &&& s.st.len() == n && s.ps.len() == n && s.sp.len() == n
    &&& 0 <= s.nb <= s.ngi <= n && 0 <= s.ch <= s.ngi && -1 <= s.h < n && 0 <= root < n
    &&& s.nb + s.ch <= s.ngi
}

#[verifier::opaque]
pub open spec fn inv_labels<V>(m: &CscMatrix<V>, s: SccState) -> bool {
    let n = m.dim.ncols as int;
    &&& forall|x: int| 0 <= x < n ==> #[trigger] s.vis[x] == UNVISITED || s.vis[x] == UNASSIGNED || s.vis[x] < s.nb
    &&& forall|x: int| 0 <= x < n && #[trigger] s.vis[x] != UNVISITED ==> 1 <= s.gi[x] <= s.ngi
    &&& reached(s.vis, n).len() == s.ngi
}

#[verifier::opaque]
pub open spec fn inv_cs<V>(m: &CscMatrix<V>, root: int, s: SccState) -> bool {
    let n = m.dim.ncols as int;
    &&& forall|i: int| 1 <= i <= s.ch ==> #[trigger] s.cs[i] < n && s.vis[s.cs[i] as int] == UNASSIGNED
    &&& forall|i: int, j: int|
        1 <= i < j <= s.ch ==> s.gi[#[trigger] s.cs[i] as int] < s.gi[#[trigger] s.cs[j] as int]
    &&& forall|x: int| 0 <= x < n && #[trigger] s.vis[x] == UNASSIGNED ==> exists|i: int| 1 <= i <= s.ch && s.cs[i] == x
    &&& s.ch >= 1 ==> s.cs[1] == root && s.h >= 0
}

#[verifier::opaque]
pub open spec fn inv_path<V>(m: &CscMatrix<V>, root: int, s: SccState) -> bool {
    let n = m.dim.ncols as int;
    &&& s.h >= 0 ==> s.st[0] == root
    &&& forall|i: int| 0 <= i <= s.h ==> #[trigger] s.st[i] < n
    &&& forall|i: int| 0 <= i <= s.hv() ==> 1 <= #[trigger] s.sp[i] <= s.ch && s.cs[s.sp[i]] == s.st[i]
    &&& forall|i: int, j: int| 0 <= i < j <= s.hv() ==> #[trigger] s.sp[i] < #[trigger] s.sp[j]
}

#[verifier::opaque]
pub open spec fn inv_low<V>(m: &CscMatrix<V>, root: int, s: SccState) -> bool {
    let n = m.dim.ncols as int;
    forall|x: int| 0 <= x < n && #[trigger] s.vis[x] == UNASSIGNED ==> s.gi[root] <= s.low[x] <= s.gi[x]
}

/// The owner of a waiting node (the last reached node of the path discovered
/// no later) has a low link no larger than the node's own.
#[verifier::opaque]
pub open spec fn inv_owner<V>(m: &CscMatrix<V>, s: SccState) -> bool {
    let n = m.dim.ncols as int;
    forall|x: int, j: int|
        0 <= x < n && s.vis[x] == UNASSIGNED && 0 <= j <= s.hv() && s.gi[s.st[j] as int] <= s.gi[x] && (j == s.hv()
            || s.gi[x] < s.gi[s.st[j + 1] as int]) ==> #[trigger] s.low[s.st[j] as int] <= #[trigger] s.low[x]
}

#[verifier::opaque]
pub open spec fn inv_ps<V>(m: &CscMatrix<V>, q: Seq<isize>, s: SccState) -> bool {
    &&& forall|i: int|
        0 <= i < s.h ==> nstart(m, q, #[trigger] s.st[i] as int) < s.ps[i] <= nend(m, q, s.st[i] as int) && target(
            m,
            s.ps[i] - 1,
        ) == s.st[i + 1]
    &&& s.top_vis() ==> nstart(m, q, s.st[s.h] as int) <= s.ps[s.h] <= nend(m, q, s.st[s.h] as int)
}

/// Edges of nodes in blocks go to blocks numbered no higher.
#[verifier::opaque]
pub open spec fn inv_e1<V>(m: &CscMatrix<V>, q: Seq<isize>, s: SccState) -> bool {
    let n = m.dim.ncols as int;
    forall|x: int, p: int|
        0 <= x < n && s.vis[x] < s.nb && nstart(m, q, x) <= p < nend(m, q, x) ==> #[trigger] s.vis[target(m, p)] < s.nb
            && s.vis[target(m, p)] <= #[trigger] s.vis[x]
}

/// Edges of waiting nodes off the path are accounted for.
#[verifier::opaque]
pub open spec fn inv_e2<V>(m: &CscMatrix<V>, q: Seq<isize>, s: SccState) -> bool {
    let n = m.dim.ncols as int;
    forall|x: int, p: int|
        0 <= x < n && s.vis[x] == UNASSIGNED && nstart(m, q, x) <= p < nend(m, q, x) && !s.on_path(x)
            ==> #[trigger] edge_done(m, s, s.low[x], p)
}

/// The edges already scanned along the path are accounted for.
#[verifier::opaque]
pub open spec fn inv_e3<V>(m: &CscMatrix<V>, q: Seq<isize>, s: SccState) -> bool {
    forall|i: int, p: int|
        0 <= i <= s.hv() && nstart(m, q, s.st[i] as int) <= p < (if i < s.h {
            s.ps[i] - 1
        } else {
            s.ps[i] as int
        }) ==> #[trigger] edge_done(m, s, s.low[#[trigger] s.st[i] as int], p)
}

/// The invariant of the search from `root`.
pub open spec fn scc_inv<V>(m: &CscMatrix<V>, q: Seq<isize>, root: int, s: SccState) -> bool {
    &&& inv_shape(m, q, root, s)
    &&& inv_labels(m, s)
    &&& inv_cs(m, root, s)
    &&& inv_path(m, root, s)
    &&& inv_low(m, root, s)
    &&& inv_owner(m, s)
    &&& inv_ps(m, q, s)
    &&& inv_e1(m, q, s)
    &&& inv_e2(m, q, s)
    &&& inv_e3(m, q, s)
}

/// `w` is a walk of nodes along the edges of the graph.
pub open spec fn node_walk<V>(m: &CscMatrix<V>, q: Seq<isize>, w: Seq<int>) -> bool {
    &&& w.len() >= 1
    &&& forall|t: int| 0 <= t < w.len() ==> 0 <= #[trigger] w[t] < m.dim.ncols
    &&& forall|t: int| 0 <= t < w.len() - 1 ==> #[trigger] edge(m, q, w[t], w[t + 1])
}

/// Node `y` can be reached from node `x` along the edges of the graph.
pub open spec fn reaches<V>(m: &CscMatrix<V>, q: Seq<isize>, x: int, y: int) -> bool {
    exists|w: Seq<int>| #[trigger] node_walk(m, q, w) && w[0] == x && w[w.len() - 1] == y
}

/// Every node reaches itself.
pub proof fn lemma_reach_refl<V>(m: &CscMatrix<V>, q: Seq<isize>, x: int)
    requires
        0 <= x < m.dim.ncols,
    ensures
        reaches(m, q, x, x),
{
    let w = seq![x];
    assert(node_walk(m, q, w));
}

/// An edge is a walk.
pub proof fn lemma_reach_edge<V>(m: &CscMatrix<V>, q: Seq<isize>, x: int, y: int)
    requires
        0 <= x < m.dim.ncols,
        0 <= y < m.dim.ncols,
        edge(m, q, x, y),
    ensures
        reaches(m, q, x, y),
{
    let w = seq![x, y];
    assert(node_walk(m, q, w)) by {
        assert forall|t: int| 0 <= t < w.len() - 1 implies #[trigger] edge(m, q, w[t], w[t + 1]) by {
            assert(t == 0);
        }
    }
}

/// Walks join up.
pub proof fn lemma_reach_trans<V>(m: &CscMatrix<V>, q: Seq<isize>, x: int, y: int, z: int)
    requires
        reaches(m, q, x, y),
        reaches(m, q, y, z),
    ensures
        reaches(m, q, x, z),
{
    let w1 = choose|w: Seq<int>| #[trigger] node_walk(m, q, w) && w[0] == x && w[w.len() - 1] == y;
    let w2 = choose|w: Seq<int>| #[trigger] node_walk(m, q, w) && w[0] == y && w[w.len() - 1] == z;
    let w = w1 + w2.drop_first();
    assert(node_walk(m, q, w)) by {
        assert forall|t: int| 0 <= t < w.len() implies 0 <= #[trigger] w[t] < m.dim.ncols by {
            if t >= w1.len() {
                assert(w[t] == w2[t - w1.len() + 1]);
            }
        }
        assert forall|t: int| 0 <= t < w.len() - 1 implies #[trigger] edge(m, q, w[t], w[t + 1]) by {
            if t < w1.len() - 1 {
                assert(edge(m, q, w1[t], w1[t + 1]));
            } else if t == w1.len() - 1 {
                assert(w[t] == y && w2[0] == y);
                assert(w[t + 1] == w2[1]);
                assert(edge(m, q, w2[0], w2[1]));
            } else {
                let u = t - w1.len() + 1;
                assert(w[t] == w2[u] && w[t + 1] == w2[u + 1]);
                assert(edge(m, q, w2[u], w2[u + 1]));
            }
        }
    }
    if w2.len() == 1 {
        assert(w[w.len() - 1] == w1[w1.len() - 1]);
    } else {
        assert(w[w.len() - 1] == w2[w2.len() - 1]);
    }
}

/// The waiting node `x` reaches a waiting node whose index is its low link.
pub open spec fn low_witnessed<V>(m: &CscMatrix<V>, q: Seq<isize>, s: SccState, x: int) -> bool {
    exists|w: int| 0 <= w < m.dim.ncols && s.vis[w] == UNASSIGNED && s.gi[w] == s.low[x] && #[trigger] reaches(m, q, x, w)
}

/// Each block `b` has a node `br[b]` that reaches all its nodes and that all
/// its nodes reach.
pub open spec fn blocks_reach<V>(m: &CscMatrix<V>, q: Seq<isize>, vis: Seq<usize>, nb: int, br: Seq<int>) -> bool {
    &&& br.len() == nb
    &&& forall|x: int|
        0 <= x < m.dim.ncols && #[trigger] vis[x] < nb ==> 0 <= br[vis[x] as int] < m.dim.ncols && reaches(
            m,
            q,
            x,
            br[vis[x] as int],
        ) && reaches(m, q, br[vis[x] as int], x)
}

/// Each waiting node is reached from its owner on the path.
#[verifier::opaque]
pub open spec fn reach_owned<V>(m: &CscMatrix<V>, q: Seq<isize>, s: SccState) -> bool {
    forall|x: int, j: int|
        0 <= x < m.dim.ncols && s.vis[x] == UNASSIGNED && 0 <= j <= s.hv() && s.gi[s.st[j] as int] <= s.gi[x] && (j
            == s.hv() || s.gi[x] < s.gi[s.st[j + 1] as int]) ==> #[trigger] reaches(m, q, s.st[j] as int, x)
}

/// Each waiting node reaches a waiting node whose index is its low link.
#[verifier::opaque]
pub open spec fn reach_low<V>(m: &CscMatrix<V>, q: Seq<isize>, s: SccState) -> bool {
    forall|x: int| 0 <= x < m.dim.ncols && #[trigger] s.vis[x] == UNASSIGNED ==> low_witnessed(m, q, s, x)
}

/// A waiting node off the path has a low link below its index.
#[verifier::opaque]
pub open spec fn reach_off<V>(m: &CscMatrix<V>, s: SccState) -> bool {
    forall|x: int| 0 <= x < m.dim.ncols && #[trigger] s.vis[x] == UNASSIGNED && !s.on_path(x) ==> s.low[x] < s.gi[x]
}

/// Reachability along the search: each waiting node is reached from its owner
/// on the path, and reaches a waiting node whose index is its low link; a
/// waiting node off the path has a low link below its index; the blocks are
/// strongly connected through their nodes `br`.
pub open spec fn inv_reach<V>(m: &CscMatrix<V>, q: Seq<isize>, s: SccState, br: Seq<int>) -> bool {
    &&& reach_owned(m, q, s)
    &&& reach_low(m, q, s)
    &&& reach_off(m, s)
    &&& blocks_reach(m, q, s.vis, s.nb, br)
}

/// Facts of the search used by the reachability steps.
proof fn lemma_reach_facts<V>(m: &CscMatrix<V>, q: Seq<isize>, root: int, s: SccState)
    requires
        scc_inv(m, q, root, s),
    ensures
        s.vis.len() == m.dim.ncols,
        s.gi.len() == m.dim.ncols,
        s.low.len() >= m.dim.ncols,
        s.st.len() == m.dim.ncols,
        -1 <= s.h < m.dim.ncols,
        forall|i: int| 0 <= i <= s.h ==> #[trigger] s.st[i] < m.dim.ncols,
        forall|i: int| 0 <= i <= s.hv() ==> s.vis[#[trigger] s.st[i] as int] == UNASSIGNED,
        forall|x: int| 0 <= x < m.dim.ncols && #[trigger] s.vis[x] != UNVISITED ==> 1 <= s.gi[x] <= s.ngi,
        graph_ok(m, q),
        0 <= s.nb <= s.ngi <= m.dim.ncols,
        s.h >= 0 && !s.top_vis() ==> s.ngi < m.dim.ncols,
{
    lemma_scc_facts(m, q, root, s);
    if s.h >= 0 && !s.top_vis() {
        lemma_reached_room(s.vis, m.dim.ncols as int, s.st[s.h] as int);
    }
}

proof fn lemma_visit_owned<V>(m: &CscMatrix<V>, q: Seq<isize>, root: int, s: SccState)
    requires
        scc_inv(m, q, root, s),
        s.h >= 0,
        !s.top_vis(),
        reach_owned(m, q, s),
    ensures
        reach_owned(m, q, visit_state(m, q, s)),
{
    reveal(reach_owned);
    let n = m.dim.ncols as int;
    let t = s.st[s.h] as int;
    let s2 = visit_state(m, q, s);
    lemma_reach_facts(m, q, root, s);
    assert(s2.hv() == s.h);
    assert(s.hv() == s.h - 1);
    assert(s.vis[t] == UNVISITED);
    assert forall|x: int, j: int|
        0 <= x < n && s2.vis[x] == UNASSIGNED && 0 <= j <= s2.hv() && s2.gi[s2.st[j] as int] <= s2.gi[x] && (j == s2.hv()
            || s2.gi[x] < s2.gi[s2.st[j + 1] as int]) implies #[trigger] reaches(m, q, s2.st[j] as int, x) by {
        if j < s.h {
            assert(s.vis[s.st[j] as int] == UNASSIGNED);
            if j + 1 < s.h {
                assert(s.vis[s.st[j + 1] as int] == UNASSIGNED);
            }
        }
        if x == t {
            lemma_reach_refl(m, q, t);
        } else {
            assert(s.vis[x] == UNASSIGNED);
            if j < s.h {
                assert(reaches(m, q, s.st[j] as int, x));
            }
        }
    }
}

proof fn lemma_visit_low<V>(m: &CscMatrix<V>, q: Seq<isize>, root: int, s: SccState)
    requires
        scc_inv(m, q, root, s),
        s.h >= 0,
        !s.top_vis(),
        reach_low(m, q, s),
    ensures
        reach_low(m, q, visit_state(m, q, s)),
{
    reveal(reach_low);
    let n = m.dim.ncols as int;
    let t = s.st[s.h] as int;
    let s2 = visit_state(m, q, s);
    lemma_reach_facts(m, q, root, s);
    assert(s.vis[t] == UNVISITED);
    assert forall|x: int| 0 <= x < n && #[trigger] s2.vis[x] == UNASSIGNED implies low_witnessed(m, q, s2, x) by {
        if x == t {
            lemma_reach_refl(m, q, t);
            assert(reaches(m, q, x, t));
        } else {
            assert(low_witnessed(m, q, s, x));
            let w = choose|w: int| 0 <= w < n && s.vis[w] == UNASSIGNED && s.gi[w] == s.low[x] && #[trigger] reaches(m, q, x, w);
            assert(reaches(m, q, x, w));
        }
    }
}

proof fn lemma_visit_off<V>(m: &CscMatrix<V>, q: Seq<isize>, root: int, s: SccState)
    requires
        scc_inv(m, q, root, s),
        s.h >= 0,
        !s.top_vis(),
        reach_off(m, s),
    ensures
        reach_off(m, visit_state(m, q, s)),
{
    reveal(reach_off);
    let n = m.dim.ncols as int;
    let t = s.st[s.h] as int;
    let s2 = visit_state(m, q, s);
    lemma_reach_facts(m, q, root, s);
    assert(s2.hv() == s.h);
    assert forall|x: int| 0 <= x < n && #[trigger] s2.vis[x] == UNASSIGNED && !s2.on_path(x) implies s2.low[x] < s2.gi[x] by {
        if x == t {
            assert(s2.st[s.h] == t);
        } else {
            if s.on_path(x) {
                let i = choose|i: int| 0 <= i <= s.hv() && s.st[i] == x;
                assert(s2.st[i] == x);
            }
        }
    }
}

/// Reaching the node on top of the path keeps reachability along the search.
proof fn lemma_reach_visit<V>(m: &CscMatrix<V>, q: Seq<isize>, root: int, s: SccState, br: Seq<int>)
    requires
        scc_inv(m, q, root, s),
        s.h >= 0,
        !s.top_vis(),
        inv_reach(m, q, s, br),
    ensures
        inv_reach(m, q, visit_state(m, q, s), br),
{
    lemma_visit_owned(m, q, root, s);
    lemma_visit_low(m, q, root, s);
    lemma_visit_off(m, q, root, s);
    lemma_reach_facts(m, q, root, s);
    let s2 = visit_state(m, q, s);
    assert forall|x: int| 0 <= x < m.dim.ncols && #[trigger] s2.vis[x] < s2.nb implies 0 <= br[s2.vis[x] as int]
        < m.dim.ncols && reaches(m, q, x, br[s2.vis[x] as int]) && reaches(m, q, br[s2.vis[x] as int], x) by {
        assert(s.vis[x] < s.nb);
    }
}

/// Scanning an edge of the node on top of the path keeps reachability along
/// the search.
proof fn lemma_reach_scan<V>(m: &CscMatrix<V>, q: Seq<isize>, root: int, s: SccState, br: Seq<int>, p: int)
    requires
        scc_inv(m, q, root, s),
        s.top_vis(),
        p == s.ps[s.h],
        p < nend(m, q, s.st[s.h] as int),
        s.vis[target(m, p)] != UNVISITED,
        inv_reach(m, q, s, br),
    ensures
        inv_reach(m, q, scan_state(m, s, p), br),
{
    let n = m.dim.ncols as int;
    let col = s.st[s.h] as int;
    let v = target(m, p);
    let s2 = scan_state(m, s, p);
    lemma_scc_facts(m, q, root, s);
    lemma_node_range(m, q, col);
    assert(nstart(m, q, col) <= p);
    assert(0 <= v < n);
    assert(reach_owned(m, q, s2)) by {
        reveal(reach_owned);
        assert(s2.hv() == s.hv());
    }
    assert(reach_off(m, s2)) by {
        reveal(reach_off);
        assert(s2.hv() == s.hv());
        assert forall|x: int| 0 <= x < n && #[trigger] s2.vis[x] == UNASSIGNED && !s2.on_path(x) implies s2.low[x] < s2.gi[x] by {
            if x == col {
                assert(s.st[s.h] == x);
                assert(s.on_path(x));
            }
            if s.on_path(x) {
                let i = choose|i: int| 0 <= i <= s.hv() && s.st[i] == x;
                assert(s2.st[i] == x);
            }
        }
    }
    assert(reach_low(m, q, s2)) by {
        reveal(reach_low);
        assert forall|x: int| 0 <= x < n && #[trigger] s2.vis[x] == UNASSIGNED implies low_witnessed(m, q, s2, x) by {
            assert(low_witnessed(m, q, s, x));
            if x == col && s.vis[v] == UNASSIGNED && s.gi[v] < s.low[col] {
                assert(edge(m, q, col, v)) by {
                    assert(m.column_pointers@[qcol(q, col)] <= p < m.column_pointers@[qcol(q, col) + 1] && m.row_indices@[p] == v);
                }
                lemma_reach_edge(m, q, col, v);
                assert(reaches(m, q, x, v));
            } else {
                let w = choose|w: int| 0 <= w < n && s.vis[w] == UNASSIGNED && s.gi[w] == s.low[x] && #[trigger] reaches(m, q, x, w);
                assert(reaches(m, q, x, w));
            }
        }
    }
}

/// Following an edge to a node not reached yet keeps reachability along the
/// search.
proof fn lemma_reach_push<V>(m: &CscMatrix<V>, q: Seq<isize>, root: int, s: SccState, br: Seq<int>, p: int)
    requires
        scc_inv(m, q, root, s),
        s.top_vis(),
        p == s.ps[s.h],
        p < nend(m, q, s.st[s.h] as int),
        s.vis[target(m, p)] == UNVISITED,
        inv_reach(m, q, s, br),
    ensures
        inv_reach(m, q, push_state(m, s, p), br),
{
    let n = m.dim.ncols as int;
    let s2 = push_state(m, s, p);
    lemma_push_room(m, q, root, s, p);
    lemma_scc_facts(m, q, root, s);
    assert(s2.hv() == s.hv());
    assert(s.hv() == s.h);
    assert(reach_owned(m, q, s2)) by {
        reveal(reach_owned);
        assert forall|x: int, j: int|
            0 <= x < n && s2.vis[x] == UNASSIGNED && 0 <= j <= s2.hv() && s2.gi[s2.st[j] as int] <= s2.gi[x] && (j
                == s2.hv() || s2.gi[x] < s2.gi[s2.st[j + 1] as int]) implies #[trigger] reaches(m, q, s2.st[j] as int, x) by {
            assert(s2.st[j] == s.st[j]);
            if j < s2.hv() {
                assert(s2.st[j + 1] == s.st[j + 1]);
            }
            assert(reaches(m, q, s.st[j] as int, x));
        }
    }
    assert(reach_off(m, s2)) by {
        reveal(reach_off);
        assert forall|x: int| 0 <= x < n && #[trigger] s2.vis[x] == UNASSIGNED && !s2.on_path(x) implies s2.low[x] < s2.gi[x] by {
            if s.on_path(x) {
                let i = choose|i: int| 0 <= i <= s.hv() && s.st[i] == x;
                assert(s2.st[i] == x);
            }
        }
    }
    assert(reach_low(m, q, s2)) by {
        reveal(reach_low);
        assert forall|x: int| 0 <= x < n && #[trigger] s2.vis[x] == UNASSIGNED implies low_witnessed(m, q, s2, x) by {
            assert(low_witnessed(m, q, s, x));
            let w = choose|w: int| 0 <= w < n && s.vis[w] == UNASSIGNED && s.gi[w] == s.low[x] && #[trigger] reaches(m, q, x, w);
            assert(reaches(m, q, x, w));
        }
    }
}

/// The node below the top of the path reaches the top through an edge.
proof fn lemma_parent_reaches<V>(m: &CscMatrix<V>, q: Seq<isize>, root: int, s: SccState)
    requires
        scc_inv(m, q, root, s),
        s.top_vis(),
        s.h >= 1,
    ensures
        reaches(m, q, s.st[s.h - 1] as int, s.st[s.h] as int),
{
    let parent = s.st[s.h - 1] as int;
    let col = s.st[s.h] as int;
    lemma_reach_facts(m, q, root, s);
    reveal(inv_ps);
    let pp = s.ps[s.h - 1] - 1;
    lemma_node_range(m, q, parent);
    assert(nstart(m, q, parent) <= pp < nend(m, q, parent) && target(m, pp) == col);
    assert(m.column_pointers@[qcol(q, parent)] <= pp < m.column_pointers@[qcol(q, parent) + 1] && m.row_indices@[pp] == col);
    assert(edge(m, q, parent, col));
    lemma_reach_edge(m, q, parent, col);
}

proof fn lemma_open_owned<V>(m: &CscMatrix<V>, q: Seq<isize>, root: int, s: SccState)
    requires
        can_finish(m, q, root, s),
        s.h >= 1,
        reach_owned(m, q, s),
    ensures
        reach_owned(m, q, finish_open_state(s)),
{
    let n = m.dim.ncols as int;
    let col = s.st[s.h] as int;
    let parent = s.st[s.h - 1] as int;
    let s2 = finish_open_state(s);
    lemma_reach_facts(m, q, root, s);
    lemma_parent_reaches(m, q, root, s);
    assert(s2.hv() == s.h - 1) by {
        assert(s.vis[s.st[s.h - 1] as int] == UNASSIGNED);
    }
    reveal(reach_owned);
    assert forall|x: int, j: int|
        0 <= x < n && s2.vis[x] == UNASSIGNED && 0 <= j <= s2.hv() && s2.gi[s2.st[j] as int] <= s2.gi[x] && (j == s2.hv()
            || s2.gi[x] < s2.gi[s2.st[j + 1] as int]) implies #[trigger] reaches(m, q, s2.st[j] as int, x) by {
        if j == s.h - 1 && s.gi[col] <= s.gi[x] {
            assert(reaches(m, q, col, x));
            lemma_reach_trans(m, q, parent, col, x);
        } else {
            assert(reaches(m, q, s.st[j] as int, x));
        }
    }
}

proof fn lemma_open_off<V>(m: &CscMatrix<V>, q: Seq<isize>, root: int, s: SccState)
    requires
        can_finish(m, q, root, s),
        s.h >= 1,
        s.low[s.st[s.h] as int] < s.gi[s.st[s.h] as int],
        reach_off(m, s),
    ensures
        reach_off(m, finish_open_state(s)),
{
    let n = m.dim.ncols as int;
    let parent = s.st[s.h - 1] as int;
    let s2 = finish_open_state(s);
    lemma_reach_facts(m, q, root, s);
    assert(s2.hv() == s.h - 1) by {
        assert(s.vis[s.st[s.h - 1] as int] == UNASSIGNED);
    }
    reveal(reach_off);
    assert forall|x: int| 0 <= x < n && #[trigger] s2.vis[x] == UNASSIGNED && !s2.on_path(x) implies s2.low[x] < s2.gi[x] by {
        if s.on_path(x) {
            let i = choose|i: int| 0 <= i <= s.hv() && s.st[i] == x;
            if i < s.h {
                assert(s2.st[i] == x);
            }
        }
        if x == parent {
            assert(s2.st[s.h - 1] == x);
        }
    }
}

proof fn lemma_open_low<V>(m: &CscMatrix<V>, q: Seq<isize>, root: int, s: SccState)
    requires
        can_finish(m, q, root, s),
        s.h >= 1,
        reach_low(m, q, s),
    ensures
        reach_low(m, q, finish_open_state(s)),
{
    let n = m.dim.ncols as int;
    let col = s.st[s.h] as int;
    let parent = s.st[s.h - 1] as int;
    let s2 = finish_open_state(s);
    lemma_reach_facts(m, q, root, s);
    lemma_parent_reaches(m, q, root, s);
    reveal(reach_low);
    assert(s.vis[col] == UNASSIGNED);
    assert(low_witnessed(m, q, s, col));
    assert forall|x: int| 0 <= x < n && #[trigger] s2.vis[x] == UNASSIGNED implies low_witnessed(m, q, s2, x) by {
        if x == parent && s.low[col] < s.low[parent] {
            let w = choose|w: int| 0 <= w < n && s.vis[w] == UNASSIGNED && s.gi[w] == s.low[col] && #[trigger] reaches(m, q, col, w);
            lemma_reach_trans(m, q, parent, col, w);
            assert(reaches(m, q, x, w));
        } else {
            assert(low_witnessed(m, q, s, x));
            let w = choose|w: int| 0 <= w < n && s.vis[w] == UNASSIGNED && s.gi[w] == s.low[x] && #[trigger] reaches(m, q, x, w);
            assert(reaches(m, q, x, w));
        }
    }
}

/// Finishing a node that stays waiting keeps reachability along the search.
proof fn lemma_reach_open<V>(m: &CscMatrix<V>, q: Seq<isize>, root: int, s: SccState, br: Seq<int>)
    requires
        can_finish(m, q, root, s),
        s.low[s.st[s.h] as int] < s.gi[s.st[s.h] as int],
        inv_reach(m, q, s, br),
    ensures
        inv_reach(m, q, finish_open_state(s), br),
{
    lemma_open_a(m, q, root, s);
    lemma_open_owned(m, q, root, s);
    lemma_open_off(m, q, root, s);
    lemma_open_low(m, q, root, s);
}

/// A waiting node discovered no earlier than the finished root of a block
/// reaches that root.
proof fn lemma_joiner_reaches_root<V>(m: &CscMatrix<V>, q: Seq<isize>, root: int, s: SccState, x: int)
    requires
        can_finish(m, q, root, s),
        s.low[s.st[s.h] as int] == s.gi[s.st[s.h] as int],
        reach_low(m, q, s),
        reach_off(m, s),
        0 <= x < m.dim.ncols,
        joins_block(s, x),
    ensures
        reaches(m, q, x, s.st[s.h] as int),
    decreases s.gi[x] - s.gi[s.st[s.h] as int],
{
    let n = m.dim.ncols as int;
    let col = s.st[s.h] as int;
    lemma_reach_facts(m, q, root, s);
    assert(s.hv() == s.h);
    if x == col {
        lemma_reach_refl(m, q, col);
    } else {
        assert(!s.on_path(x)) by {
            if s.on_path(x) {
                let i = choose|i: int| 0 <= i <= s.hv() && s.st[i] == x;
                if i < s.h {
                    lemma_path_order(m, q, root, s, i, s.h);
                }
            }
        }
        assert(s.low[x] < s.gi[x]) by {
            reveal(reach_off);
        }
        assert(low_witnessed(m, q, s, x)) by {
            reveal(reach_low);
        }
        let w = choose|w: int| 0 <= w < n && s.vis[w] == UNASSIGNED && s.gi[w] == s.low[x] && #[trigger] reaches(m, q, x, w);
        assert(s.low[col] <= s.low[x]) by {
            reveal(inv_owner);
            assert(s.gi[s.st[s.h] as int] <= s.gi[x]);
        }
        assert(joins_block(s, w));
        lemma_joiner_reaches_root(m, q, root, s, w);
        lemma_reach_trans(m, q, x, w, col);
    }
}

proof fn lemma_block_owned<V>(m: &CscMatrix<V>, q: Seq<isize>, root: int, s: SccState)
    requires
        can_finish(m, q, root, s),
        s.low[s.st[s.h] as int] == s.gi[s.st[s.h] as int],
        reach_owned(m, q, s),
    ensures
        reach_owned(m, q, finish_block_state(s)),
{
    let n = m.dim.ncols as int;
    let col = s.st[s.h] as int;
    let s2 = finish_block_state(s);
    lemma_reach_facts(m, q, root, s);
    if s.h >= 1 {
        lemma_path_unassigned(m, q, root, s, s.h - 1);
        lemma_path_order(m, q, root, s, s.h - 1, s.h);
        assert(s2.top_vis());
    }
    assert(s2.hv() == s.h - 1);
    reveal(reach_owned);
    assert forall|x: int, j: int|
        0 <= x < n && s2.vis[x] == UNASSIGNED && 0 <= j <= s2.hv() && s2.gi[s2.st[j] as int] <= s2.gi[x] && (j == s2.hv()
            || s2.gi[x] < s2.gi[s2.st[j + 1] as int]) implies #[trigger] reaches(m, q, s2.st[j] as int, x) by {
        assert(s.vis[x] == UNASSIGNED && s.gi[x] < s.gi[col]);
        assert(reaches(m, q, s.st[j] as int, x));
    }
}

proof fn lemma_block_low<V>(m: &CscMatrix<V>, q: Seq<isize>, root: int, s: SccState)
    requires
        can_finish(m, q, root, s),
        s.low[s.st[s.h] as int] == s.gi[s.st[s.h] as int],
        reach_low(m, q, s),
    ensures
        reach_low(m, q, finish_block_state(s)),
{
    let n = m.dim.ncols as int;
    let col = s.st[s.h] as int;
    let s2 = finish_block_state(s);
    lemma_reach_facts(m, q, root, s);
    lemma_scc_facts(m, q, root, s);
    reveal(reach_low);
    assert forall|x: int| 0 <= x < n && #[trigger] s2.vis[x] == UNASSIGNED implies low_witnessed(m, q, s2, x) by {
        assert(s.vis[x] == UNASSIGNED && s.gi[x] < s.gi[col]);
        assert(low_witnessed(m, q, s, x));
        let w = choose|w: int| 0 <= w < n && s.vis[w] == UNASSIGNED && s.gi[w] == s.low[x] && #[trigger] reaches(m, q, x, w);
        assert(s.low[x] <= s.gi[x]);
        assert(s2.vis[w] == UNASSIGNED);
        assert(reaches(m, q, x, w));
    }
}

proof fn lemma_block_off<V>(m: &CscMatrix<V>, q: Seq<isize>, root: int, s: SccState)
    requires
        can_finish(m, q, root, s),
        s.low[s.st[s.h] as int] == s.gi[s.st[s.h] as int],
        reach_off(m, s),
    ensures
        reach_off(m, finish_block_state(s)),
{
    let n = m.dim.ncols as int;
    let col = s.st[s.h] as int;
    let s2 = finish_block_state(s);
    lemma_reach_facts(m, q, root, s);
    if s.h >= 1 {
        lemma_path_unassigned(m, q, root, s, s.h - 1);
        lemma_path_order(m, q, root, s, s.h - 1, s.h);
        assert(s2.top_vis());
    }
    assert(s2.hv() == s.h - 1);
    reveal(reach_off);
    assert forall|x: int| 0 <= x < n && #[trigger] s2.vis[x] == UNASSIGNED && !s2.on_path(x) implies s2.low[x] < s2.gi[x] by {
        assert(s.vis[x] == UNASSIGNED && s.gi[x] < s.gi[col]);
        if s.on_path(x) {
            let i = choose|i: int| 0 <= i <= s.hv() && s.st[i] == x;
            assert(i != s.h);
            assert(s2.st[i] == x);
        }
    }
}

proof fn lemma_block_blocks<V>(m: &CscMatrix<V>, q: Seq<isize>, root: int, s: SccState, br: Seq<int>)
    requires
        can_finish(m, q, root, s),
        s.low[s.st[s.h] as int] == s.gi[s.st[s.h] as int],
        inv_reach(m, q, s, br),
    ensures
        blocks_reach(m, q, finish_block_state(s).vis, s.nb + 1, br.push(s.st[s.h] as int)),
{
    let n = m.dim.ncols as int;
    let col = s.st[s.h] as int;
    let s2 = finish_block_state(s);
    let br2 = br.push(col);
    lemma_reach_facts(m, q, root, s);
    lemma_scc_facts(m, q, root, s);
    assert(s.hv() == s.h);
    assert forall|x: int| 0 <= x < n && #[trigger] s2.vis[x] < s.nb + 1 implies 0 <= br2[s2.vis[x] as int] < n
        && reaches(m, q, x, br2[s2.vis[x] as int]) && reaches(m, q, br2[s2.vis[x] as int], x) by {
        if joins_block(s, x) {
            assert(s2.vis[x] == s.nb);
            assert(br2[s.nb] == col);
            lemma_joiner_reaches_root(m, q, root, s, x);
            assert(reaches(m, q, s.st[s.h] as int, x)) by {
                reveal(reach_owned);
            }
        } else {
            assert(s2.vis[x] == s.vis[x]);
            assert(s.vis[x] < s.nb);
            assert(br2[s.vis[x] as int] == br[s.vis[x] as int]);
        }
    }
}

/// Finishing the root of a block keeps reachability along the search; the
/// finished root stands for the new block.
proof fn lemma_reach_block<V>(m: &CscMatrix<V>, q: Seq<isize>, root: int, s: SccState, br: Seq<int>)
    requires
        can_finish(m, q, root, s),
        s.low[s.st[s.h] as int] == s.gi[s.st[s.h] as int],
        inv_reach(m, q, s, br),
    ensures
        inv_reach(m, q, finish_block_state(s), br.push(s.st[s.h] as int)),
{
    lemma_block_owned(m, q, root, s);
    lemma_block_low(m, q, root, s);
    lemma_block_off(m, q, root, s);
    lemma_block_blocks(m, q, root, s, br);
}

/// At the start of a search no node waits, so reachability along the search
/// is that of the blocks.
proof fn lemma_reach_start<V>(m: &CscMatrix<V>, q: Seq<isize>, root: int, s: SccState, br: Seq<int>)
    requires
        scc_idle(m, q, s.vis, s.gi, s.ngi, s.nb),
        blocks_reach(m, q, s.vis, s.nb, br),
        s.h == 0,
    ensures
        inv_reach(m, q, s, br),
{
    let n = m.dim.ncols as int;
    assert forall|x: int| 0 <= x < n implies s.vis[x] != UNASSIGNED by {
        assert(s.vis[x] == UNVISITED || s.vis[x] < s.nb);
    }
    assert(reach_owned(m, q, s)) by {
        reveal(reach_owned);
    }
    assert(reach_low(m, q, s)) by {
        reveal(reach_low);
    }
    assert(reach_off(m, s)) by {
        reveal(reach_off);
    }
}

proof fn lemma_reached_finite(vis: Seq<usize>, n: int)
    requires
        n >= 0,
    ensures
        reached(vis, n).finite(),
        reached(vis, n).len() <= n,
{
    vstd::set_lib::lemma_int_range(0, n);
    assert(reached(vis, n).subset_of(vstd::set_lib::set_int_range(0, n)));
    vstd::set_lib::lemma_len_subset(reached(vis, n), vstd::set_lib::set_int_range(0, n));
}

/// A node not reached yet leaves room for one more discovery index.
proof fn lemma_reached_room(vis: Seq<usize>, n: int, t: int)
    requires
        0 <= t < n,
        vis[t] == UNVISITED,
    ensures
        reached(vis, n).len() < n,
{
    vstd::set_lib::lemma_int_range(0, n);
    let r = reached(vis, n);
    let full = vstd::set_lib::set_int_range(0, n);
    assert(r.subset_of(full.remove(t)));
    vstd::set_lib::lemma_len_subset(r, full.remove(t));
}

/// Relabelling reached nodes keeps the set of reached nodes; reaching a new
/// one adds it.
proof fn lemma_reached_update(vis: Seq<usize>, n: int, t: int, label: usize)
    requires
        0 <= t < n,
        vis.len() == n,
        label != UNVISITED,
    ensures
        vis[t] == UNVISITED ==> reached(vis.update(t, label), n).len() == reached(vis, n).len() + 1,
        vis[t] != UNVISITED ==> reached(vis.update(t, label), n) == reached(vis, n),
{
    lemma_reached_finite(vis, n);
    if vis[t] == UNVISITED {
        assert(reached(vis.update(t, label), n) =~= reached(vis, n).insert(t));
    } else {
        assert(reached(vis.update(t, label), n) =~= reached(vis, n));
    }
}

/// The state after discovering the node on top of the path.
pub open spec fn visit_state<V>(m: &CscMatrix<V>, q: Seq<isize>, s: SccState) -> SccState {
    let t = s.st[s.h] as int;
    SccState {
        vis: s.vis.update(t, UNASSIGNED),
        gi: s.gi.update(t, (s.ngi + 1) as isize),
        low: s.low.update(t, (s.ngi + 1) as isize),
        cs: s.cs.update(s.ch + 1, t as usize),
        ch: s.ch + 1,
        st: s.st,
        ps: s.ps.update(s.h, nstart(m, q, t) as usize),
        h: s.h,
        sp: s.sp.update(s.h, s.ch + 1),
        ngi: s.ngi + 1,
        nb: s.nb,
    }
}

/// Facts every state of the search has, in plain form.
proof fn lemma_scc_facts<V>(m: &CscMatrix<V>, q: Seq<isize>, root: int, s: SccState)
    requires
        scc_inv(m, q, root, s),
    ensures
        graph_ok(m, q),
        s.vis.len() == m.dim.ncols,
        s.gi.len() == m.dim.ncols,
        s.low.len() >= m.dim.ncols,
        s.cs.len() >= m.dim.ncols + 1,
        s.st.len() == m.dim.ncols,
        s.ps.len() == m.dim.ncols,
        s.sp.len() == m.dim.ncols,
        0 <= s.nb <= s.ngi <= m.dim.ncols,
        0 <= s.ch <= s.ngi,
        -1 <= s.h < m.dim.ncols,
        0 <= root < m.dim.ncols,
        s.nb + s.ch <= s.ngi,
        s.h >= 0 ==> s.st[0] == root && s.st[s.h] < m.dim.ncols,
        forall|i: int| 0 <= i <= s.h ==> #[trigger] s.st[i] < m.dim.ncols,
        forall|i: int| 0 <= i <= s.hv() ==> 1 <= #[trigger] s.sp[i] <= s.ch && s.cs[s.sp[i]] == s.st[i],
        forall|i: int| 0 <= i <= s.hv() ==> s.vis[#[trigger] s.st[i] as int] == UNASSIGNED,
        forall|i: int| 1 <= i <= s.ch ==> #[trigger] s.cs[i] < m.dim.ncols && s.vis[s.cs[i] as int] == UNASSIGNED,
        forall|x: int| 0 <= x < m.dim.ncols ==> #[trigger] s.vis[x] == UNVISITED || s.vis[x] == UNASSIGNED || s.vis[x] < s.nb,
        forall|x: int| 0 <= x < m.dim.ncols && #[trigger] s.vis[x] != UNVISITED ==> 1 <= s.gi[x] <= s.ngi,
        s.ch >= 1 ==> s.cs[1] == root && s.h >= 0,
        s.h >= 0 && s.top_vis() ==> nstart(m, q, s.st[s.h] as int) <= s.ps[s.h] <= nend(m, q, s.st[s.h] as int),
        forall|x: int| 0 <= x < m.dim.ncols && #[trigger] s.vis[x] == UNASSIGNED ==> s.gi[root] <= s.low[x] <= s.gi[x],
        reached(s.vis, m.dim.ncols as int).len() == s.ngi,
{
    reveal(inv_shape);
    reveal(inv_labels);
    reveal(inv_cs);
    reveal(inv_path);
    reveal(inv_low);
    reveal(inv_ps);
    assert forall|i: int| 0 <= i <= s.hv() implies s.vis[#[trigger] s.st[i] as int] == UNASSIGNED by {
        assert(1 <= s.sp[i] <= s.ch && s.cs[s.sp[i]] == s.st[i]);
    }
}

/// The positions of a node's entries lie within the matrix.
proof fn lemma_node_range<V>(m: &CscMatrix<V>, q: Seq<isize>, x: int)
    requires
        graph_ok(m, q),
        0 <= x < m.dim.ncols,
    ensures
        0 <= nstart(m, q, x) <= nend(m, q, x) <= m.row_indices@.len(),
        forall|p: int| nstart(m, q, x) <= p < nend(m, q, x) ==> 0 <= #[trigger] target(m, p) < m.dim.ncols,
{
    let c = qcol(q, x);
    assert(0 <= c < m.dim.ncols);
    assert(m.column_pointers@[c] <= m.column_pointers@[c + 1]);
    assert(m.column_pointers@[c + 1] <= m.column_pointers@[m.dim.ncols as int]);
    assert forall|p: int| nstart(m, q, x) <= p < nend(m, q, x) implies 0 <= #[trigger] target(m, p) < m.dim.ncols by {
        assert(m.row_indices@[p] < m.dim.nrows && m.column_pointers@[c] == m.column_pointers@[c]);
    }
}

/// The root has the least discovery index of the waiting nodes.
proof fn lemma_root_least<V>(m: &CscMatrix<V>, q: Seq<isize>, root: int, s: SccState, x: int)
    requires
        scc_inv(m, q, root, s),
        0 <= x < m.dim.ncols,
        s.vis[x] == UNASSIGNED,
    ensures
        s.gi[root] <= s.gi[x],
        s.ch >= 1,
{
    reveal(inv_cs);
    let i = choose|i: int| 1 <= i <= s.ch && s.cs[i] == x;
    if i > 1 {
        assert(s.gi[s.cs[1] as int] < s.gi[s.cs[i] as int]);
    }
}

proof fn lemma_visit_basic<V>(m: &CscMatrix<V>, q: Seq<isize>, root: int, s: SccState)
    requires
        scc_inv(m, q, root, s),
        s.h >= 0,
        !s.top_vis(),
    ensures
        s.ngi < m.dim.ncols,
        inv_shape(m, q, root, visit_state(m, q, s)),
        inv_labels(m, visit_state(m, q, s)),
        inv_cs(m, root, visit_state(m, q, s)),
        inv_path(m, root, visit_state(m, q, s)),
        inv_low(m, root, visit_state(m, q, s)),
        inv_ps(m, q, visit_state(m, q, s)),
{
    let n = m.dim.ncols as int;
    let t = s.st[s.h] as int;
    let s2 = visit_state(m, q, s);
    lemma_scc_facts(m, q, root, s);
    lemma_reached_room(s.vis, n, t);
    lemma_reached_update(s.vis, n, t, UNASSIGNED);
    lemma_node_range(m, q, t);
    assert(inv_shape(m, q, root, s2)) by {
        reveal(inv_shape);
    }
    assert(inv_labels(m, s2)) by {
        reveal(inv_labels);
    }
    assert(inv_cs(m, root, s2)) by {
        reveal(inv_cs);
        assert forall|x: int| 0 <= x < n && #[trigger] s2.vis[x] == UNASSIGNED implies exists|i: int|
            1 <= i <= s2.ch && s2.cs[i] == x by {
            if x == t {
                assert(s2.cs[s2.ch] == x);
            } else {
                let i = choose|i: int| 1 <= i <= s.ch && s.cs[i] == x;
                assert(s2.cs[i] == x);
            }
        }
        assert forall|i: int, j: int| 1 <= i < j <= s2.ch implies s2.gi[#[trigger] s2.cs[i] as int]
            < s2.gi[#[trigger] s2.cs[j] as int] by {
            if j == s2.ch {
                assert(s.cs[i] != t);
            } else {
                assert(s.gi[s.cs[i] as int] < s.gi[s.cs[j] as int]);
                assert(s.cs[i] != t && s.cs[j] != t);
            }
        }
        if s.ch == 0 {
            // with nothing waiting, the path holds only its root
            if s.h > 0 {
                assert(1 <= s.sp[0] <= s.ch);
            }
        }
    }
    assert(inv_path(m, root, s2)) by {
        reveal(inv_path);
        assert(s2.hv() == s.h);
        assert forall|i: int| 0 <= i <= s2.hv() implies 1 <= #[trigger] s2.sp[i] <= s2.ch && s2.cs[s2.sp[i]]
            == s2.st[i] by {
            if i < s.h {
                assert(1 <= s.sp[i] <= s.ch && s.cs[s.sp[i]] == s.st[i]);
            }
        }
        assert forall|i: int, j: int| 0 <= i < j <= s2.hv() implies #[trigger] s2.sp[i] < #[trigger] s2.sp[j] by {
            if j == s.h {
                assert(s.sp[i] <= s.ch);
            } else {
                assert(s.sp[i] < s.sp[j]);
            }
        }
    }
    assert(inv_low(m, root, s2)) by {
        reveal(inv_low);
        if t == root {
            // nothing else waits while the root has not been reached
            assert(s.ch == 0) by {
                if s.ch >= 1 {
                    assert(s.cs[1] == root);
                }
            }
            assert forall|x: int| 0 <= x < n && x != t implies #[trigger] s.vis[x] != UNASSIGNED by {
                if s.vis[x] == UNASSIGNED {
                    reveal(inv_cs);
                    let i = choose|i: int| 1 <= i <= s.ch && s.cs[i] == x;
                }
            }
        }
        if t != root {
            assert(s.vis[root] != UNVISITED) by {
                if s.h > 0 {
                    assert(s.vis[s.st[0] as int] == UNASSIGNED);
                }
            }
        }
    }
    assert(inv_ps(m, q, s2)) by {
        reveal(inv_ps);
        assert(s2.top_vis());
    }
}

proof fn lemma_visit_owner<V>(m: &CscMatrix<V>, q: Seq<isize>, root: int, s: SccState)
    requires
        scc_inv(m, q, root, s),
        s.h >= 0,
        !s.top_vis(),
    ensures
        inv_owner(m, visit_state(m, q, s)),
{
    let n = m.dim.ncols as int;
    let t = s.st[s.h] as int;
    let s2 = visit_state(m, q, s);
    lemma_scc_facts(m, q, root, s);
    lemma_reached_room(s.vis, n, t);
    assert(s2.hv() == s.h);
    assert(s.hv() == s.h - 1);
    assert(inv_owner(m, s2)) by {
        reveal(inv_owner);
        assert forall|x: int, j: int|
            0 <= x < n && s2.vis[x] == UNASSIGNED && 0 <= j <= s2.hv() && s2.gi[s2.st[j] as int] <= s2.gi[x] && (j
                == s2.hv() || s2.gi[x] < s2.gi[s2.st[j + 1] as int]) implies #[trigger] s2.low[s2.st[j] as int]
            <= #[trigger] s2.low[x] by {
            if j < s.h {
                assert(s.vis[s.st[j] as int] == UNASSIGNED);
                if j + 1 < s.h {
                    assert(s.vis[s.st[j + 1] as int] == UNASSIGNED);
                }
            }
            if x != t && j < s.h {
                assert(s.low[s.st[j] as int] <= s.low[x]);
            }
        }
    }
}

proof fn lemma_visit_e1<V>(m: &CscMatrix<V>, q: Seq<isize>, root: int, s: SccState)
    requires
        scc_inv(m, q, root, s),
        s.h >= 0,
        !s.top_vis(),
    ensures
        inv_e1(m, q, visit_state(m, q, s)),
{
    let n = m.dim.ncols as int;
    let t = s.st[s.h] as int;
    let s2 = visit_state(m, q, s);
    lemma_scc_facts(m, q, root, s);
    lemma_reached_room(s.vis, n, t);
    assert(s2.hv() == s.h);
    assert(s.hv() == s.h - 1);
    assert(inv_e1(m, q, s2)) by {
        reveal(inv_e1);
        assert forall|x: int, p: int|
            0 <= x < n && s2.vis[x] < s2.nb && nstart(m, q, x) <= p < nend(m, q, x) implies #[trigger] s2.vis[target(
                m,
                p,
            )] < s2.nb && s2.vis[target(m, p)] <= #[trigger] s2.vis[x] by {
            assert(s.vis[x] < s.nb);
            assert(s.vis[target(m, p)] < s.nb);
        }
    }
}

proof fn lemma_visit_e2<V>(m: &CscMatrix<V>, q: Seq<isize>, root: int, s: SccState)
    requires
        scc_inv(m, q, root, s),
        s.h >= 0,
        !s.top_vis(),
    ensures
        inv_e2(m, q, visit_state(m, q, s)),
{
    let n = m.dim.ncols as int;
    let t = s.st[s.h] as int;
    let s2 = visit_state(m, q, s);
    lemma_scc_facts(m, q, root, s);
    lemma_reached_room(s.vis, n, t);
    assert(s2.hv() == s.h);
    assert(s.hv() == s.h - 1);
    assert(inv_e2(m, q, s2)) by {
        reveal(inv_e2);
        assert forall|x: int, p: int|
            0 <= x < n && s2.vis[x] == UNASSIGNED && nstart(m, q, x) <= p < nend(m, q, x) && !s2.on_path(x)
                implies #[trigger] edge_done(m, s2, s2.low[x], p) by {
            assert(x != t) by {
                assert(s2.st[s.h] == t);
            }
            assert(!s.on_path(x)) by {
                if s.on_path(x) {
                    let i = choose|i: int| 0 <= i <= s.hv() && s.st[i] == x;
                    assert(s2.st[i] == x);
                }
            }
            assert(edge_done(m, s, s.low[x], p));
        }
    }
}

proof fn lemma_visit_e3<V>(m: &CscMatrix<V>, q: Seq<isize>, root: int, s: SccState)
    requires
        scc_inv(m, q, root, s),
        s.h >= 0,
        !s.top_vis(),
    ensures
        inv_e3(m, q, visit_state(m, q, s)),
{
    let n = m.dim.ncols as int;
    let t = s.st[s.h] as int;
    let s2 = visit_state(m, q, s);
    lemma_scc_facts(m, q, root, s);
    lemma_reached_room(s.vis, n, t);
    assert(s2.hv() == s.h);
    assert(s.hv() == s.h - 1);
    assert(inv_e3(m, q, s2)) by {
        reveal(inv_e3);
        assert forall|i: int, p: int|
            0 <= i <= s2.hv() && nstart(m, q, s2.st[i] as int) <= p < (if i < s2.h {
                s2.ps[i] - 1
            } else {
                s2.ps[i] as int
            }) implies #[trigger] edge_done(m, s2, s2.low[#[trigger] s2.st[i] as int], p) by {
            assert(i < s.h);
            assert(s2.ps[i] == s.ps[i]);
            assert(edge_done(m, s, s.low[s.st[i] as int], p));
            assert(s.vis[s.st[i] as int] == UNASSIGNED);
            let v = target(m, p);
            lemma_node_range(m, q, s.st[i] as int);
            assert(s.ps[i] <= nend(m, q, s.st[i] as int)) by {
                reveal(inv_ps);
            }
            assert(0 <= v < n);
            assert(s.vis[v] != UNVISITED);
            assert(v != t);
            assert(s2.low[s2.st[i] as int] == s.low[s.st[i] as int]);
        }
    }
}

/// Along the path, discovery indices increase; so its nodes are distinct.
proof fn lemma_path_order<V>(m: &CscMatrix<V>, q: Seq<isize>, root: int, s: SccState, i: int, j: int)
    requires
        scc_inv(m, q, root, s),
        0 <= i < j <= s.hv(),
    ensures
        s.gi[s.st[i] as int] < s.gi[s.st[j] as int],
        s.st[i] != s.st[j],
{
    reveal(inv_path);
    reveal(inv_cs);
    assert(s.sp[i] < s.sp[j]);
    assert(1 <= s.sp[i] <= s.ch && s.cs[s.sp[i]] == s.st[i]);
    assert(1 <= s.sp[j] <= s.ch && s.cs[s.sp[j]] == s.st[j]);
    assert(s.gi[s.cs[s.sp[i]] as int] < s.gi[s.cs[s.sp[j]] as int]);
}

/// The state after scanning the edge at position `p` of the node on top of
/// the path, whose target has been reached.
pub open spec fn scan_state<V>(m: &CscMatrix<V>, s: SccState, p: int) -> SccState {
    let col = s.st[s.h] as int;
    let v = target(m, p);
    SccState {
        low: if s.vis[v] == UNASSIGNED && s.gi[v] < s.low[col] {
            s.low.update(col, s.gi[v])
        } else {
            s.low
        },
        ps: s.ps.update(s.h, (p + 1) as usize),
        ..s
    }
}

proof fn lemma_scan_a<V>(m: &CscMatrix<V>, q: Seq<isize>, root: int, s: SccState, p: int)
    requires
        scc_inv(m, q, root, s),
        s.top_vis(),
        p == s.ps[s.h],
        p < nend(m, q, s.st[s.h] as int),
        s.vis[target(m, p)] != UNVISITED,
    ensures
        inv_shape(m, q, root, scan_state(m, s, p)),
        inv_labels(m, scan_state(m, s, p)),
        inv_cs(m, root, scan_state(m, s, p)),
        inv_path(m, root, scan_state(m, s, p)),
        inv_low(m, root, scan_state(m, s, p)),
        inv_ps(m, q, scan_state(m, s, p)),
        inv_e1(m, q, scan_state(m, s, p)),
{
    let n = m.dim.ncols as int;
    let s2 = scan_state(m, s, p);
    let col = s.st[s.h] as int;
    let v = target(m, p);
    lemma_scc_facts(m, q, root, s);
    lemma_node_range(m, q, col);
    assert(inv_shape(m, q, root, s2)) by {
        reveal(inv_shape);
    }
    assert(inv_labels(m, s2)) by {
        reveal(inv_labels);
    }
    assert(s2.cs == s.cs && s2.vis == s.vis && s2.gi == s.gi && s2.ch == s.ch && s2.h == s.h);
    assert(inv_cs(m, root, s2)) by {
        reveal(inv_cs);
        assert forall|x: int| 0 <= x < n && #[trigger] s2.vis[x] == UNASSIGNED implies exists|i: int|
            1 <= i <= s2.ch && s2.cs[i] == x by {
            assert(s.vis[x] == UNASSIGNED);
        }
    }
    assert(inv_path(m, root, s2)) by {
        reveal(inv_path);
    }
    assert(inv_low(m, root, s2)) by {
        reveal(inv_low);
        if s.vis[v] == UNASSIGNED {
            lemma_root_least(m, q, root, s, v);
        }
    }
    assert(inv_ps(m, q, s2)) by {
        reveal(inv_ps);
    }
    assert(inv_e1(m, q, s2)) by {
        reveal(inv_e1);
    }
}

proof fn lemma_scan_b<V>(m: &CscMatrix<V>, q: Seq<isize>, root: int, s: SccState, p: int)
    requires
        scc_inv(m, q, root, s),
        s.top_vis(),
        p == s.ps[s.h],
        p < nend(m, q, s.st[s.h] as int),
        s.vis[target(m, p)] != UNVISITED,
    ensures
        inv_owner(m, scan_state(m, s, p)),
        inv_e2(m, q, scan_state(m, s, p)),
{
    let n = m.dim.ncols as int;
    let s2 = scan_state(m, s, p);
    let col = s.st[s.h] as int;
    lemma_scc_facts(m, q, root, s);
    assert(inv_owner(m, s2)) by {
        reveal(inv_owner);
        assert forall|x: int, j: int|
            0 <= x < n && s2.vis[x] == UNASSIGNED && 0 <= j <= s2.hv() && s2.gi[s2.st[j] as int] <= s2.gi[x] && (j
                == s2.hv() || s2.gi[x] < s2.gi[s2.st[j + 1] as int]) implies #[trigger] s2.low[s2.st[j] as int]
            <= #[trigger] s2.low[x] by {
            if x == col && j < s.h {
                if j + 1 < s.h {
                    lemma_path_order(m, q, root, s, j + 1, s.h);
                }
            }
            if j < s.h {
                lemma_path_order(m, q, root, s, j, s.h);
            }
        }
    }
    assert(inv_e2(m, q, s2)) by {
        reveal(inv_e2);
        assert forall|x: int, p2: int|
            0 <= x < n && s2.vis[x] == UNASSIGNED && nstart(m, q, x) <= p2 < nend(m, q, x) && !s2.on_path(x)
                implies #[trigger] edge_done(m, s2, s2.low[x], p2) by {
            assert(s2.hv() == s.h && s.hv() == s.h);
            if x == col {
                assert(s2.st[s2.hv()] == x);
            }
            assert(!s.on_path(x)) by {
                if s.on_path(x) {
                    let i = choose|i: int| 0 <= i <= s.hv() && s.st[i] == x;
                    assert(s2.st[i] == x);
                }
            }
            assert(edge_done(m, s, s.low[x], p2));
        }
    }
}

#[verifier::spinoff_prover]
proof fn lemma_scan_c<V>(m: &CscMatrix<V>, q: Seq<isize>, root: int, s: SccState, p: int)
    requires
        scc_inv(m, q, root, s),
        s.top_vis(),
        p == s.ps[s.h],
        p < nend(m, q, s.st[s.h] as int),
        s.vis[target(m, p)] != UNVISITED,
    ensures
        inv_e3(m, q, scan_state(m, s, p)),
{
    let n = m.dim.ncols as int;
    let s2 = scan_state(m, s, p);
    let col = s.st[s.h] as int;
    lemma_scc_facts(m, q, root, s);
    reveal(inv_e3);
    assert forall|i: int, p2: int|
        0 <= i <= s2.hv() && nstart(m, q, s2.st[i] as int) <= p2 < (if i < s2.h {
            s2.ps[i] - 1
        } else {
            s2.ps[i] as int
        }) implies #[trigger] edge_done(m, s2, s2.low[#[trigger] s2.st[i] as int], p2) by {
        if i < s.h {
            lemma_path_order(m, q, root, s, i, s.h);
            assert(edge_done(m, s, s.low[s.st[i] as int], p2));
        } else if p2 < p {
            assert(edge_done(m, s, s.low[s.st[i] as int], p2));
        }
    }
}

/// The state after following the edge at position `p` of the node on top of
/// the path to a node not reached yet, which goes on top of the path.
pub open spec fn push_state<V>(m: &CscMatrix<V>, s: SccState, p: int) -> SccState {
    SccState {
        ps: s.ps.update(s.h, (p + 1) as usize),
        h: s.h + 1,
        st: s.st.update(s.h + 1, target(m, p) as usize),
        ..s
    }
}

/// Pushing onto the path leaves it shorter than the number of nodes.
proof fn lemma_push_room<V>(m: &CscMatrix<V>, q: Seq<isize>, root: int, s: SccState, p: int)
    requires
        scc_inv(m, q, root, s),
        s.top_vis(),
        p < nend(m, q, s.st[s.h] as int),
        p == s.ps[s.h],
        s.vis[target(m, p)] == UNVISITED,
    ensures
        graph_ok(m, q),
        nstart(m, q, s.st[s.h] as int) <= p,
        0 <= s.st[s.h] < m.dim.ncols,
        s.h + 1 < m.dim.ncols,
        0 <= target(m, p) < m.dim.ncols,
        push_state(m, s, p).st[s.h + 1] == target(m, p),
        push_state(m, s, p).hv() == s.h,
        s.hv() == s.h,
{
    let n = m.dim.ncols as int;
    lemma_scc_facts(m, q, root, s);
    lemma_node_range(m, q, s.st[s.h] as int);
    lemma_reached_room(s.vis, n, target(m, p));
    lemma_sp_grows(m, q, root, s, s.h);
}

#[verifier::rlimit(40)]
proof fn lemma_push_a<V>(m: &CscMatrix<V>, q: Seq<isize>, root: int, s: SccState, p: int)
    requires
        scc_inv(m, q, root, s),
        s.top_vis(),
        p == s.ps[s.h],
        p < nend(m, q, s.st[s.h] as int),
        s.vis[target(m, p)] == UNVISITED,
    ensures
        s.h + 1 < m.dim.ncols,
        inv_shape(m, q, root, push_state(m, s, p)),
        inv_labels(m, push_state(m, s, p)),
        inv_cs(m, root, push_state(m, s, p)),
        inv_path(m, root, push_state(m, s, p)),
        inv_low(m, root, push_state(m, s, p)),
        inv_ps(m, q, push_state(m, s, p)),
        inv_e1(m, q, push_state(m, s, p)),
{
    let n = m.dim.ncols as int;
    let s2 = push_state(m, s, p);
    let col = s.st[s.h] as int;
    let v = target(m, p);
    lemma_push_room(m, q, root, s, p);
    lemma_node_range(m, q, col);
    assert(s.st.len() == n && s.ps.len() == n) by {
        reveal(inv_shape);
    }
    assert(s2.hv() == s.h);
    assert(s2.cs == s.cs && s2.vis == s.vis && s2.gi == s.gi && s2.ch == s.ch && s2.low == s.low);
    assert(inv_shape(m, q, root, s2)) by {
        reveal(inv_shape);
    }
    assert(inv_labels(m, s2)) by {
        reveal(inv_labels);
    }
    assert(inv_cs(m, root, s2)) by {
        reveal(inv_cs);
        assert forall|x: int| 0 <= x < n && #[trigger] s2.vis[x] == UNASSIGNED implies exists|i: int|
            1 <= i <= s2.ch && s2.cs[i] == x by {
            assert(s.vis[x] == UNASSIGNED);
        }
    }
    assert(inv_path(m, root, s2)) by {
        reveal(inv_path);
        assert forall|i: int| 0 <= i <= s2.h implies #[trigger] s2.st[i] < n by {
            if i <= s.h {
                assert(s2.st[i] == s.st[i]);
            }
        }
        assert forall|i: int| 0 <= i <= s2.hv() implies 1 <= #[trigger] s2.sp[i] <= s2.ch && s2.cs[s2.sp[i]]
            == s2.st[i] by {
            assert(s2.st[i] == s.st[i]);
        }
    }
    assert(inv_low(m, root, s2)) by {
        reveal(inv_low);
    }
    assert(inv_ps(m, q, s2)) by {
        reveal(inv_ps);
        assert(!s2.top_vis());
        assert forall|i: int|
            0 <= i < s2.h implies nstart(m, q, #[trigger] s2.st[i] as int) < s2.ps[i] <= nend(m, q, s2.st[i] as int)
            && target(m, s2.ps[i] - 1) == s2.st[i + 1] by {
            assert(s2.st[i] == s.st[i]);
            if i < s.h {
                assert(s2.st[i + 1] == s.st[i + 1]);
                assert(s2.ps[i] == s.ps[i]);
            }
        }
    }
    assert(inv_e1(m, q, s2)) by {
        reveal(inv_e1);
    }
}

/// The place of the `i`-th path node among the waiting nodes is at least `i + 1`.
proof fn lemma_sp_grows<V>(m: &CscMatrix<V>, q: Seq<isize>, root: int, s: SccState, i: int)
    requires
        scc_inv(m, q, root, s),
        0 <= i <= s.hv(),
    ensures
        s.sp[i] >= i + 1,
    decreases i,
{
    reveal(inv_path);
    if i > 0 {
        lemma_sp_grows(m, q, root, s, i - 1);
        assert(s.sp[i - 1] < s.sp[i]);
    }
}

proof fn lemma_push_b<V>(m: &CscMatrix<V>, q: Seq<isize>, root: int, s: SccState, p: int)
    requires
        scc_inv(m, q, root, s),
        s.top_vis(),
        p == s.ps[s.h],
        p < nend(m, q, s.st[s.h] as int),
        s.vis[target(m, p)] == UNVISITED,
    ensures
        inv_owner(m, push_state(m, s, p)),
        inv_e2(m, q, push_state(m, s, p)),
        inv_e3(m, q, push_state(m, s, p)),
{
    let n = m.dim.ncols as int;
    let s2 = push_state(m, s, p);
    lemma_push_room(m, q, root, s, p);
    lemma_scc_facts(m, q, root, s);
    assert(inv_owner(m, s2)) by {
        reveal(inv_owner);
        assert forall|x: int, j: int|
            0 <= x < n && s2.vis[x] == UNASSIGNED && 0 <= j <= s2.hv() && s2.gi[s2.st[j] as int] <= s2.gi[x] && (j
                == s2.hv() || s2.gi[x] < s2.gi[s2.st[j + 1] as int]) implies #[trigger] s2.low[s2.st[j] as int]
            <= #[trigger] s2.low[x] by {
            assert(s2.st[j] == s.st[j]);
            if j < s.h {
                assert(s2.st[j + 1] == s.st[j + 1]);
            }
        }
    }
    assert(inv_e2(m, q, s2)) by {
        reveal(inv_e2);
        assert forall|x: int, p2: int|
            0 <= x < n && s2.vis[x] == UNASSIGNED && nstart(m, q, x) <= p2 < nend(m, q, x) && !s2.on_path(x)
                implies #[trigger] edge_done(m, s2, s2.low[x], p2) by {
            assert(!s.on_path(x)) by {
                if s.on_path(x) {
                    let i = choose|i: int| 0 <= i <= s.hv() && s.st[i] == x;
                    assert(s2.st[i] == x);
                }
            }
            assert(edge_done(m, s, s.low[x], p2));
        }
    }
    assert(inv_e3(m, q, s2)) by {
        reveal(inv_e3);
        assert forall|i: int, p2: int|
            0 <= i <= s2.hv() && nstart(m, q, s2.st[i] as int) <= p2 < (if i < s2.h {
                s2.ps[i] - 1
            } else {
                s2.ps[i] as int
            }) implies #[trigger] edge_done(m, s2, s2.low[#[trigger] s2.st[i] as int], p2) by {
            assert(s2.st[i] == s.st[i]);
            assert(edge_done(m, s, s.low[s.st[i] as int], p2));
        }
    }
}

/// The preconditions of finishing the node on top of the path: it has been
/// reached and all its edges are scanned.
pub open spec fn can_finish<V>(m: &CscMatrix<V>, q: Seq<isize>, root: int, s: SccState) -> bool {
    &&& scc_inv(m, q, root, s)
    &&& s.top_vis()
    &&& s.ps[s.h] == nend(m, q, s.st[s.h] as int)
}

/// The state after finishing a node whose low link is below its index: it
/// stays waiting, and its parent on the path takes the smaller low link.
pub open spec fn finish_open_state(s: SccState) -> SccState {
    let col = s.st[s.h] as int;
    let parent = s.st[s.h - 1] as int;
    SccState {
        h: s.h - 1,
        low: if s.low[col] < s.low[parent] {
            s.low.update(parent, s.low[col])
        } else {
            s.low
        },
        ..s
    }
}

/// The state after finishing a node that is the root of a block: it and the
/// waiting nodes discovered after it form block `nb`.
pub open spec fn finish_block_state(s: SccState) -> SccState {
    let col = s.st[s.h] as int;
    SccState {
        vis: Seq::new(
            s.vis.len(),
            |x: int|
                if s.vis[x] == UNASSIGNED && s.gi[x] >= s.gi[col] {
                    s.nb as usize
                } else {
                    s.vis[x]
                },
        ),
        ch: s.sp[s.h] - 1,
        nb: s.nb + 1,
        h: s.h - 1,
        ..s
    }
}

/// The reached nodes of the path wait for a block.
proof fn lemma_path_unassigned<V>(m: &CscMatrix<V>, q: Seq<isize>, root: int, s: SccState, i: int)
    requires
        scc_inv(m, q, root, s),
        0 <= i <= s.hv(),
    ensures
        s.vis[s.st[i] as int] == UNASSIGNED,
        0 <= s.st[i] < m.dim.ncols,
{
    reveal(inv_path);
    reveal(inv_cs);
    assert(1 <= s.sp[i] <= s.ch && s.cs[s.sp[i]] == s.st[i]);
}

/// The scan position of a node below the top of the path.
proof fn lemma_ps_at<V>(m: &CscMatrix<V>, q: Seq<isize>, root: int, s: SccState, i: int)
    requires
        scc_inv(m, q, root, s),
        0 <= i < s.h,
    ensures
        nstart(m, q, s.st[i] as int) < s.ps[i] <= nend(m, q, s.st[i] as int),
        target(m, s.ps[i] - 1) == s.st[i + 1],
{
    reveal(inv_ps);
    assert(nstart(m, q, s.st[i] as int) < s.ps[i]);
}

/// The root of the search is finished only as the root of a block.
proof fn lemma_finish_root_node<V>(m: &CscMatrix<V>, q: Seq<isize>, root: int, s: SccState)
    requires
        can_finish(m, q, root, s),
        s.h == 0,
    ensures
        s.low[s.st[0] as int] == s.gi[s.st[0] as int],
{
    lemma_scc_facts(m, q, root, s);
    assert(s.vis[s.st[0] as int] == UNASSIGNED);
}

proof fn lemma_open_a<V>(m: &CscMatrix<V>, q: Seq<isize>, root: int, s: SccState)
    requires
        can_finish(m, q, root, s),
        s.low[s.st[s.h] as int] < s.gi[s.st[s.h] as int],
    ensures
        s.h >= 1,
        inv_shape(m, q, root, finish_open_state(s)),
        inv_labels(m, finish_open_state(s)),
        inv_cs(m, root, finish_open_state(s)),
        inv_path(m, root, finish_open_state(s)),
        inv_low(m, root, finish_open_state(s)),
        inv_ps(m, q, finish_open_state(s)),
        inv_e1(m, q, finish_open_state(s)),
{
    let n = m.dim.ncols as int;
    let s2 = finish_open_state(s);
    lemma_scc_facts(m, q, root, s);
    if s.h == 0 {
        lemma_finish_root_node(m, q, root, s);
    }
    let col = s.st[s.h] as int;
    let parent = s.st[s.h - 1] as int;
    assert(s.vis[parent] == UNASSIGNED);
    assert(s2.cs == s.cs && s2.vis == s.vis && s2.ch == s.ch && s2.gi == s.gi);
    assert(s2.top_vis() && s2.hv() == s.h - 1);
    assert(inv_shape(m, q, root, s2)) by {
        reveal(inv_shape);
    }
    assert(inv_labels(m, s2)) by {
        reveal(inv_labels);
    }
    assert(inv_cs(m, root, s2)) by {
        reveal(inv_cs);
        assert forall|x: int| 0 <= x < n && #[trigger] s2.vis[x] == UNASSIGNED implies exists|i: int|
            1 <= i <= s2.ch && s2.cs[i] == x by {
            assert(s.vis[x] == UNASSIGNED);
        }
    }
    assert(inv_path(m, root, s2)) by {
        reveal(inv_path);
    }
    assert(inv_low(m, root, s2)) by {
        reveal(inv_low);
    }
    assert(inv_ps(m, q, s2)) by {
        reveal(inv_ps);
    }
    assert(inv_e1(m, q, s2)) by {
        reveal(inv_e1);
    }
}

proof fn lemma_open_owner<V>(m: &CscMatrix<V>, q: Seq<isize>, root: int, s: SccState)
    requires
        can_finish(m, q, root, s),
        s.low[s.st[s.h] as int] < s.gi[s.st[s.h] as int],
        s.h >= 1,
    ensures
        inv_owner(m, finish_open_state(s)),
{
    let n = m.dim.ncols as int;
    let s2 = finish_open_state(s);
    lemma_scc_facts(m, q, root, s);
    let col = s.st[s.h] as int;
    let parent = s.st[s.h - 1] as int;
    assert(s2.hv() == s.h - 1 && s.hv() == s.h);
    lemma_path_order(m, q, root, s, s.h - 1, s.h);
    reveal(inv_owner);
    assert forall|x: int, j: int|
        0 <= x < n && s2.vis[x] == UNASSIGNED && 0 <= j <= s2.hv() && s2.gi[s2.st[j] as int] <= s2.gi[x] && (j
            == s2.hv() || s2.gi[x] < s2.gi[s2.st[j + 1] as int]) implies #[trigger] s2.low[s2.st[j] as int]
        <= #[trigger] s2.low[x] by {
        if j < s.h - 1 {
            lemma_path_order(m, q, root, s, j, s.h - 1);
            if j + 1 < s.h - 1 {
                lemma_path_order(m, q, root, s, j + 1, s.h - 1);
            }
            assert(x != parent);
            assert(s.low[s.st[j] as int] <= s.low[x]);
        } else {
            if s.gi[x] < s.gi[col] {
                assert(s.low[parent] <= s.low[x]);
            } else {
                assert(s.low[col] <= s.low[x]);
            }
        }
    }
}

proof fn lemma_open_e2<V>(m: &CscMatrix<V>, q: Seq<isize>, root: int, s: SccState)
    requires
        can_finish(m, q, root, s),
        s.low[s.st[s.h] as int] < s.gi[s.st[s.h] as int],
        s.h >= 1,
    ensures
        inv_e2(m, q, finish_open_state(s)),
{
    let n = m.dim.ncols as int;
    let s2 = finish_open_state(s);
    lemma_scc_facts(m, q, root, s);
    let col = s.st[s.h] as int;
    let parent = s.st[s.h - 1] as int;
    assert(s2.hv() == s.h - 1 && s.hv() == s.h);
    lemma_path_order(m, q, root, s, s.h - 1, s.h);
    assert(inv_e2(m, q, s2)) by {
        reveal(inv_e2);
        reveal(inv_e3);
        assert forall|x: int, p: int|
            0 <= x < n && s2.vis[x] == UNASSIGNED && nstart(m, q, x) <= p < nend(m, q, x) && !s2.on_path(x)
                implies #[trigger] edge_done(m, s2, s2.low[x], p) by {
            assert(x != parent) by {
                assert(s2.st[s.h - 1] == parent);
            }
            if x == col {
                assert(edge_done(m, s, s.low[s.st[s.h] as int], p));
            } else {
                assert(!s.on_path(x)) by {
                    if s.on_path(x) {
                        let i = choose|i: int| 0 <= i <= s.hv() && s.st[i] == x;
                        assert(i < s.h);
                        assert(s2.st[i] == x);
                    }
                }
                assert(edge_done(m, s, s.low[x], p));
            }
        }
    }
}

#[verifier::rlimit(40)]
proof fn lemma_open_e3<V>(m: &CscMatrix<V>, q: Seq<isize>, root: int, s: SccState)
    requires
        can_finish(m, q, root, s),
        s.low[s.st[s.h] as int] < s.gi[s.st[s.h] as int],
        s.h >= 1,
    ensures
        inv_e3(m, q, finish_open_state(s)),
{
    let n = m.dim.ncols as int;
    let s2 = finish_open_state(s);
    lemma_path_unassigned(m, q, root, s, s.h);
    lemma_path_unassigned(m, q, root, s, s.h - 1);
    assert(s.st.len() == n && s.low.len() >= n) by {
        reveal(inv_shape);
    }
    let col = s.st[s.h] as int;
    let parent = s.st[s.h - 1] as int;
    assert(s2.hv() == s.h - 1 && s.hv() == s.h);
    assert(s2.vis == s.vis && s2.gi == s.gi && s2.st == s.st && s2.ps == s.ps);
    lemma_path_order(m, q, root, s, s.h - 1, s.h);
    lemma_ps_at(m, q, root, s, s.h - 1);
    assert(inv_e3(m, q, s2)) by {
        reveal(inv_e3);
        assert forall|i: int, p: int|
            0 <= i <= s2.hv() && nstart(m, q, s2.st[i] as int) <= p < (if i < s2.h {
                s2.ps[i] - 1
            } else {
                s2.ps[i] as int
            }) implies #[trigger] edge_done(m, s2, s2.low[#[trigger] s2.st[i] as int], p) by {
            if i < s.h - 1 {
                lemma_path_order(m, q, root, s, i, s.h - 1);
                lemma_path_unassigned(m, q, root, s, i);
                assert(edge_done(m, s, s.low[s.st[i] as int], p));
                assert(s2.low[s.st[i] as int] == s.low[s.st[i] as int]);
            } else if p < s.ps[i] - 1 {
                assert(edge_done(m, s, s.low[s.st[i] as int], p));
                assert(s2.low[parent] <= s.low[parent]);
            } else {
                assert(target(m, p) == col);
                assert(s.vis[col] == UNASSIGNED);
            }
        }
    }
}

/// Among the waiting nodes, those discovered no earlier than the top of the
/// path are exactly those placed from it on.
proof fn lemma_block_places<V>(m: &CscMatrix<V>, q: Seq<isize>, root: int, s: SccState, i: int)
    requires
        scc_inv(m, q, root, s),
        s.top_vis(),
        1 <= i <= s.ch,
    ensures
        s.gi[s.cs[i] as int] >= s.gi[s.st[s.h] as int] <==> i >= s.sp[s.h],
        1 <= s.sp[s.h] <= s.ch,
        s.cs[s.sp[s.h]] == s.st[s.h],
{
    reveal(inv_path);
    reveal(inv_cs);
    let k = s.sp[s.h];
    assert(1 <= k <= s.ch && s.cs[k] == s.st[s.h]);
    if i < k {
        assert(s.gi[s.cs[i] as int] < s.gi[s.cs[k] as int]);
    } else if i > k {
        assert(s.gi[s.cs[k] as int] < s.gi[s.cs[i] as int]);
    }
}

/// A node is put in the new block exactly when it waits and was discovered no
/// earlier than the finished root.
pub open spec fn joins_block(s: SccState, x: int) -> bool {
    s.vis[x] == UNASSIGNED && s.gi[x] >= s.gi[s.st[s.h] as int]
}

proof fn lemma_block_a<V>(m: &CscMatrix<V>, q: Seq<isize>, root: int, s: SccState)
    requires
        can_finish(m, q, root, s),
        s.low[s.st[s.h] as int] == s.gi[s.st[s.h] as int],
    ensures
        inv_shape(m, q, root, finish_block_state(s)),
        inv_labels(m, finish_block_state(s)),
        inv_cs(m, root, finish_block_state(s)),
{
    let n = m.dim.ncols as int;
    let s2 = finish_block_state(s);
    let col = s.st[s.h] as int;
    lemma_scc_facts(m, q, root, s);
    lemma_block_places(m, q, root, s, 1);
    let k = s.sp[s.h];
    assert(inv_shape(m, q, root, s2)) by {
        reveal(inv_shape);
    }
    assert(inv_labels(m, s2)) by {
        reveal(inv_labels);
        lemma_reached_finite(s.vis, n);
        assert(reached(s2.vis, n) =~= reached(s.vis, n));
    }
    assert(inv_cs(m, root, s2)) by {
        reveal(inv_cs);
        assert forall|i: int| 1 <= i <= s2.ch implies #[trigger] s2.cs[i] < n && s2.vis[s2.cs[i] as int] == UNASSIGNED by {
            lemma_block_places(m, q, root, s, i);
        }
        assert forall|x: int| 0 <= x < n && #[trigger] s2.vis[x] == UNASSIGNED implies exists|i: int|
            1 <= i <= s2.ch && s2.cs[i] == x by {
            assert(s.vis[x] == UNASSIGNED);
            let i = choose|i: int| 1 <= i <= s.ch && s.cs[i] == x;
            lemma_block_places(m, q, root, s, i);
            assert(s2.cs[i] == x && i <= s2.ch);
        }
        if s2.ch >= 1 {
            if s.h == 0 {
                // the root sits first among the waiting nodes
                assert(s.cs[k] == root && s.cs[1] == root);
                if k > 1 {
                    assert(s.gi[s.cs[1] as int] < s.gi[s.cs[k] as int]);
                }
            }
        }
    }
}

proof fn lemma_block_b<V>(m: &CscMatrix<V>, q: Seq<isize>, root: int, s: SccState)
    requires
        can_finish(m, q, root, s),
        s.low[s.st[s.h] as int] == s.gi[s.st[s.h] as int],
    ensures
        inv_path(m, root, finish_block_state(s)),
        inv_low(m, root, finish_block_state(s)),
        inv_ps(m, q, finish_block_state(s)),
        inv_owner(m, finish_block_state(s)),
{
    let n = m.dim.ncols as int;
    let s2 = finish_block_state(s);
    let col = s.st[s.h] as int;
    lemma_scc_facts(m, q, root, s);
    lemma_block_places(m, q, root, s, 1);
    if s.h >= 1 {
        lemma_path_unassigned(m, q, root, s, s.h - 1);
        lemma_path_order(m, q, root, s, s.h - 1, s.h);
        assert(s2.top_vis());
    }
    assert(s2.hv() == s.h - 1);
    assert(inv_path(m, root, s2)) by {
        reveal(inv_path);
        assert forall|i: int| 0 <= i <= s2.hv() implies 1 <= #[trigger] s2.sp[i] <= s2.ch && s2.cs[s2.sp[i]]
            == s2.st[i] by {
            assert(s.sp[i] < s.sp[s.h]);
        }
    }
    assert(inv_low(m, root, s2)) by {
        reveal(inv_low);
    }
    assert(inv_ps(m, q, s2)) by {
        reveal(inv_ps);
    }
    assert(inv_owner(m, s2)) by {
        reveal(inv_owner);
        assert forall|x: int, j: int|
            0 <= x < n && s2.vis[x] == UNASSIGNED && 0 <= j <= s2.hv() && s2.gi[s2.st[j] as int] <= s2.gi[x] && (j
                == s2.hv() || s2.gi[x] < s2.gi[s2.st[j + 1] as int]) implies #[trigger] s2.low[s2.st[j] as int]
            <= #[trigger] s2.low[x] by {
            assert(s.vis[x] == UNASSIGNED);
            assert(s.low[s.st[j] as int] <= s.low[x]);
        }
    }
}

proof fn lemma_block_e1<V>(m: &CscMatrix<V>, q: Seq<isize>, root: int, s: SccState)
    requires
        can_finish(m, q, root, s),
        s.low[s.st[s.h] as int] == s.gi[s.st[s.h] as int],
    ensures
        inv_e1(m, q, finish_block_state(s)),
{
    let n = m.dim.ncols as int;
    let s2 = finish_block_state(s);
    let col = s.st[s.h] as int;
    lemma_scc_facts(m, q, root, s);
    reveal(inv_e1);
    assert forall|x: int, p: int|
        0 <= x < n && s2.vis[x] < s2.nb && nstart(m, q, x) <= p < nend(m, q, x) implies #[trigger] s2.vis[target(
            m,
            p,
        )] < s2.nb && s2.vis[target(m, p)] <= #[trigger] s2.vis[x] by {
        lemma_node_range(m, q, x);
        let v = target(m, p);
        if s.vis[x] < s.nb {
            assert(s.vis[v] < s.nb);
        } else {
            assert(joins_block(s, x));
            lemma_block_edge(m, q, root, s, x, p);
        }
    }
}

/// An edge of a node that joins the new block leads to a node in a block
/// already, or to one joining it too.
proof fn lemma_block_edge<V>(m: &CscMatrix<V>, q: Seq<isize>, root: int, s: SccState, x: int, p: int)
    requires
        can_finish(m, q, root, s),
        s.low[s.st[s.h] as int] == s.gi[s.st[s.h] as int],
        0 <= x < m.dim.ncols,
        joins_block(s, x),
        nstart(m, q, x) <= p < nend(m, q, x),
    ensures
        s.vis[target(m, p)] < s.nb || joins_block(s, target(m, p)),
{
    let n = m.dim.ncols as int;
    let col = s.st[s.h] as int;
    lemma_scc_facts(m, q, root, s);
    lemma_node_range(m, q, x);
    let v = target(m, p);
    if x == col {
        reveal(inv_e3);
        assert(edge_done(m, s, s.low[s.st[s.h] as int], p));
    } else {
        assert(!s.on_path(x)) by {
            if s.on_path(x) {
                let i = choose|i: int| 0 <= i <= s.hv() && s.st[i] == x;
                if i < s.h {
                    lemma_path_order(m, q, root, s, i, s.h);
                }
            }
        }
        reveal(inv_e2);
        assert(edge_done(m, s, s.low[x], p));
        reveal(inv_owner);
        assert(s.low[s.st[s.h] as int] <= s.low[x]);
    }
}

proof fn lemma_block_e2<V>(m: &CscMatrix<V>, q: Seq<isize>, root: int, s: SccState)
    requires
        can_finish(m, q, root, s),
        s.low[s.st[s.h] as int] == s.gi[s.st[s.h] as int],
    ensures
        inv_e2(m, q, finish_block_state(s)),
{
    let n = m.dim.ncols as int;
    let s2 = finish_block_state(s);
    let col = s.st[s.h] as int;
    lemma_scc_facts(m, q, root, s);
    assert(s2.hv() == s.h - 1) by {
        if s.h >= 1 {
            lemma_path_unassigned(m, q, root, s, s.h - 1);
            lemma_path_order(m, q, root, s, s.h - 1, s.h);
        }
    }
    reveal(inv_e2);
    assert forall|x: int, p: int|
        0 <= x < n && s2.vis[x] == UNASSIGNED && nstart(m, q, x) <= p < nend(m, q, x) && !s2.on_path(x)
            implies #[trigger] edge_done(m, s2, s2.low[x], p) by {
        lemma_node_range(m, q, x);
        assert(s.vis[x] == UNASSIGNED && x != col);
        assert(!s.on_path(x)) by {
            if s.on_path(x) {
                let i = choose|i: int| 0 <= i <= s.hv() && s.st[i] == x;
                assert(i < s.h);
                assert(s2.st[i] == x);
            }
        }
        assert(edge_done(m, s, s.low[x], p));
    }
}

#[verifier::rlimit(80)]
proof fn lemma_block_e3<V>(m: &CscMatrix<V>, q: Seq<isize>, root: int, s: SccState)
    requires
        can_finish(m, q, root, s),
        s.low[s.st[s.h] as int] == s.gi[s.st[s.h] as int],
    ensures
        inv_e3(m, q, finish_block_state(s)),
{
    let n = m.dim.ncols as int;
    let s2 = finish_block_state(s);
    let col = s.st[s.h] as int;
    lemma_path_unassigned(m, q, root, s, s.h);
    assert(graph_ok(m, q) && s.st.len() == n && s.low.len() >= n && s.vis.len() == n && 0 <= s.nb <= n && n + 2
        <= usize::MAX) by {
        reveal(inv_shape);
    }
    if s.h >= 1 {
        lemma_path_unassigned(m, q, root, s, s.h - 1);
        lemma_path_order(m, q, root, s, s.h - 1, s.h);
        lemma_ps_at(m, q, root, s, s.h - 1);
    }
    assert(s2.hv() == s.h - 1);
    reveal(inv_e3);
    assert forall|i: int, p: int|
        0 <= i <= s2.hv() && nstart(m, q, s2.st[i] as int) <= p < (if i < s2.h {
            s2.ps[i] - 1
        } else {
            s2.ps[i] as int
        }) implies #[trigger] edge_done(m, s2, s2.low[#[trigger] s2.st[i] as int], p) by {
        lemma_path_unassigned(m, q, root, s, i);
        lemma_node_range(m, q, s.st[i] as int);
        lemma_ps_at(m, q, root, s, i);
        let v = target(m, p);
        assert(0 <= v < n);
        if i < s.h - 1 || p < s.ps[i] - 1 {
            assert(edge_done(m, s, s.low[s.st[i] as int], p));
            assert(s2.vis[v] == UNASSIGNED ==> s.vis[v] == UNASSIGNED);
        } else {
            assert(target(m, p) == col);
            assert(s.vis[col] == UNASSIGNED);
            assert(s2.vis[col] == (s.nb as usize));
        }
    }
}

/// Between two searches: every reached node is in a block, and edges of nodes
/// in blocks go to blocks numbered no higher.
pub open spec fn scc_idle<V>(m: &CscMatrix<V>, q: Seq<isize>, vis: Seq<usize>, gi: Seq<isize>, ngi: int, nb: int) -> bool {
    let n = m.dim.ncols as int;
    &&& graph_ok(m, q)
    &&& vis.len() == n && gi.len() == n
    &&& 0 <= nb <= ngi <= n
    &&& forall|x: int| 0 <= x < n ==> #[trigger] vis[x] == UNVISITED || vis[x] < nb
    &&& forall|x: int| 0 <= x < n && #[trigger] vis[x] != UNVISITED ==> 1 <= gi[x] <= ngi
    &&& reached(vis, n).len() == ngi
    &&& forall|x: int, p: int|
        0 <= x < n && vis[x] < nb && nstart(m, q, x) <= p < nend(m, q, x) ==> #[trigger] vis[target(m, p)] < nb
            && vis[target(m, p)] <= #[trigger] vis[x]
}

/// Reached nodes stay reached.
pub open spec fn vis_grows(vis: Seq<usize>, vis2: Seq<usize>) -> bool {
    &&& vis2.len() == vis.len()
    &&& forall|x: int| 0 <= x < vis.len() && #[trigger] vis[x] != UNVISITED ==> vis2[x] != UNVISITED
    &&& forall|x: int| 0 <= x < vis.len() && #[trigger] vis[x] != UNVISITED && vis[x] != UNASSIGNED ==> vis2[x] == vis[x]
}

proof fn lemma_start<V>(m: &CscMatrix<V>, q: Seq<isize>, root: int, s: SccState)
    requires
        scc_idle(m, q, s.vis, s.gi, s.ngi, s.nb),
        0 <= root < m.dim.ncols,
        s.vis[root] == UNVISITED,
        s.low.len() >= m.dim.ncols,
        s.cs.len() >= m.dim.ncols + 1,
        s.st.len() == m.dim.ncols,
        s.ps.len() == m.dim.ncols,
        s.sp.len() == m.dim.ncols,
        s.ch == 0,
        s.h == 0,
        s.st[0] == root,
    ensures
        scc_inv(m, q, root, s),
{
    let n = m.dim.ncols as int;
    assert(s.hv() == -1);
    assert(inv_shape(m, q, root, s)) by {
        reveal(inv_shape);
    }
    assert(inv_labels(m, s)) by {
        reveal(inv_labels);
    }
    assert(inv_cs(m, root, s)) by {
        reveal(inv_cs);
    }
    assert(inv_path(m, root, s)) by {
        reveal(inv_path);
    }
    assert(inv_low(m, root, s)) by {
        reveal(inv_low);
    }
    assert(inv_owner(m, s)) by {
        reveal(inv_owner);
    }
    assert(inv_ps(m, q, s)) by {
        reveal(inv_ps);
    }
    assert(inv_e1(m, q, s)) by {
        reveal(inv_e1);
    }
    assert(inv_e2(m, q, s)) by {
        reveal(inv_e2);
    }
    assert(inv_e3(m, q, s)) by {
        reveal(inv_e3);
    }
}

proof fn lemma_stop<V>(m: &CscMatrix<V>, q: Seq<isize>, root: int, s: SccState)
    requires
        scc_inv(m, q, root, s),
        s.h == -1,
    ensures
        scc_idle(m, q, s.vis, s.gi, s.ngi, s.nb),
{
    let n = m.dim.ncols as int;
    lemma_scc_facts(m, q, root, s);
    reveal(inv_cs);
    reveal(inv_labels);
    reveal(inv_e1);
    assert forall|x: int| 0 <= x < n implies #[trigger] s.vis[x] == UNVISITED || s.vis[x] < s.nb by {
        if s.vis[x] == UNASSIGNED {
            let i = choose|i: int| 1 <= i <= s.ch && s.cs[i] == x;
        }
    }
}

/// Labels only move forward: a reached node stays reached, and a node in a
/// block stays in it.
proof fn lemma_grows_step(vis0: Seq<usize>, v1: Seq<usize>, v2: Seq<usize>)
    requires
        vis_grows(vis0, v1),
        v2.len() == v1.len(),
        forall|x: int| 0 <= x < v1.len() && #[trigger] v1[x] != UNVISITED ==> v2[x] != UNVISITED,
        forall|x: int| 0 <= x < v1.len() && #[trigger] v1[x] != UNVISITED && v1[x] != UNASSIGNED ==> v2[x] == v1[x],
    ensures
        vis_grows(vis0, v2),
{
    assert forall|x: int| 0 <= x < vis0.len() && #[trigger] vis0[x] != UNVISITED && vis0[x] != UNASSIGNED implies v2[x]
        == vis0[x] by {
        assert(v1[x] == vis0[x]);
    }
    assert forall|x: int| 0 <= x < vis0.len() && #[trigger] vis0[x] != UNVISITED implies v2[x] != UNVISITED by {
        assert(v1[x] != UNVISITED);
    }
}

/// Node `x` sits among the waiting nodes at a place in `(lo, hi]`.
pub open spec fn popped(cs: Seq<usize>, lo: int, hi: int, x: int) -> bool {
    exists|i: int| lo < i <= hi && cs[i] == x
}

/// The nodes popped when a block is closed are exactly those that join it.
proof fn lemma_block_popped<V>(m: &CscMatrix<V>, q: Seq<isize>, root: int, s: SccState, x: int)
    requires
        can_finish(m, q, root, s),
        0 <= x < m.dim.ncols,
    ensures
        popped(s.cs, s.sp[s.h] - 1, s.ch, x) <==> joins_block(s, x),
{
    lemma_scc_facts(m, q, root, s);
    if popped(s.cs, s.sp[s.h] - 1, s.ch, x) {
        let i = choose|i: int| s.sp[s.h] - 1 < i <= s.ch && s.cs[i] == x;
        lemma_block_places(m, q, root, s, i);
        assert(s.vis[s.cs[i] as int] == UNASSIGNED);
    }
    if joins_block(s, x) {
        reveal(inv_cs);
        let i = choose|i: int| 1 <= i <= s.ch && s.cs[i] == x;
        lemma_block_places(m, q, root, s, i);
        assert(s.sp[s.h] - 1 < i <= s.ch && s.cs[i] == x);
    }
}

/// Pops the waiting nodes placed from `k` on, the last of which is `col`, and
/// puts them in block `nb`.
fn pop_block(
    col: usize,
    nb: usize,
    visited: &mut Vec<usize>,
    component_stack: &[usize],
    component_head: &mut usize,
    Ghost(gi): Ghost<Seq<isize>>,
    Ghost(k): Ghost<int>,
)
    requires
        1 <= k <= *old(component_head) < component_stack@.len(),
        component_stack@[k] == col,
        forall|i: int| 1 <= i <= *old(component_head) ==> #[trigger] component_stack@[i] < old(visited)@.len(),
        forall|i: int, j: int|
            1 <= i < j <= *old(component_head) ==> gi[#[trigger] component_stack@[i] as int] < gi[#[trigger] component_stack@[j] as int],
    ensures
        *final(component_head) == k - 1,
        final(visited)@.len() == old(visited)@.len(),
        forall|x: int| 0 <= x < old(visited)@.len() ==> #[trigger] final(visited)@[x] == (if popped(component_stack@, k - 1, *old(component_head) as int, x) {
            nb
        } else {
            old(visited)@[x]
        }),
{
    let ghost ch0 = *component_head as int;
    let ghost vis0 = visited@;
    let ghost cs = component_stack@;
    loop
        invariant_except_break
            k <= *component_head,
        invariant
            k - 1 <= *component_head <= ch0,
            cs == component_stack@,
            visited@.len() == vis0.len(),
            1 <= k <= ch0 < cs.len(),
            cs[k] == col,
            forall|i: int| 1 <= i <= ch0 ==> #[trigger] cs[i] < vis0.len(),
            forall|i: int, j: int| 1 <= i < j <= ch0 ==> gi[#[trigger] cs[i] as int] < gi[#[trigger] cs[j] as int],
            forall|x: int| 0 <= x < vis0.len() ==> #[trigger] visited@[x] == (if popped(cs, *component_head as int, ch0, x) {
                nb
            } else {
                vis0[x]
            }),
        ensures
            *component_head == k - 1,
            visited@.len() == vis0.len(),
            forall|x: int| 0 <= x < vis0.len() ==> #[trigger] visited@[x] == (if popped(cs, k - 1, ch0, x) {
                nb
            } else {
                vis0[x]
            }),
        decreases *component_head,
    {
        let ghost ch = *component_head as int;
        let i = component_stack[*component_head];
        *component_head = *component_head - 1;
        visited.set(i, nb);
        proof {
            assert forall|x: int| 0 <= x < vis0.len() implies #[trigger] visited@[x] == (if popped(
                cs,
                *component_head as int,
                ch0,
                x,
            ) {
                nb
            } else {
                vis0[x]
            }) by {
                if x == i as int {
                    assert(cs[ch] == x);
                } else if popped(cs, *component_head as int, ch0, x) {
                    let j = choose|j: int| *component_head < j <= ch0 && cs[j] == x;
                    assert(j != ch);
                    assert(popped(cs, ch, ch0, x));
                } else {
                    assert(!popped(cs, ch, ch0, x)) by {
                        if popped(cs, ch, ch0, x) {
                            let j = choose|j: int| ch < j <= ch0 && cs[j] == x;
                        }
                    }
                }
            }
        }
        if i == col {
            proof {
                if ch > k {
                    assert(gi[cs[k] as int] < gi[cs[ch] as int]);
                }
            }
            break;
        }
    }
}

/// The state built from the variables of the search.
pub open spec fn state_of(
    vis: Seq<usize>,
    gi: Seq<isize>,
    low: Seq<isize>,
    cs: Seq<usize>,
    ch: usize,
    st: Seq<usize>,
    ps: Seq<usize>,
    h: isize,
    sp: Seq<int>,
    ngi: usize,
    nb: usize,
) -> SccState {
    SccState { vis, gi, low, cs, ch: ch as int, st, ps, h: h as int, sp, ngi: ngi as int, nb: nb as int }
}

/// The depth-first search of Tarjan's algorithm from `current_column`: every
/// node reached from it is put in a block, blocks numbered in the order they
/// are completed.
#[verifier::spinoff_prover]
#[verifier::rlimit(40)]
fn dfs<V>(
    m: &CscMatrix<V>,
    column_permutations: &[isize],
    current_column: usize,
    node_graph_index: &mut usize,
    number_of_scc_blocks: &mut usize,
    visited: &mut Vec<usize>,
    graph_indices: &mut Vec<isize>,
    low: &mut [isize],
    component_stack: &mut [usize],
    column_stack: &mut Vec<usize>,
    position_stack: &mut Vec<usize>,
    Ghost(br0): Ghost<Seq<int>>,
) -> (br_out: Ghost<Seq<int>>)
    requires
        blocks_reach(m, column_permutations@, old(visited)@, *old(number_of_scc_blocks) as int, br0),
        scc_idle(m, column_permutations@, old(visited)@, old(graph_indices)@, *old(node_graph_index) as int, *old(number_of_scc_blocks) as int),
        current_column < m.dim.ncols,
        old(visited)@[current_column as int] == UNVISITED,
        labels_used(old(visited)@, *old(number_of_scc_blocks) as int),
        old(low)@.len() >= m.dim.ncols,
        old(component_stack)@.len() >= m.dim.ncols + 1,
        old(column_stack)@.len() == m.dim.ncols,
        old(position_stack)@.len() == m.dim.ncols,
    ensures
        scc_idle(m, column_permutations@, final(visited)@, final(graph_indices)@, *final(node_graph_index) as int, *final(number_of_scc_blocks) as int),
        vis_grows(old(visited)@, final(visited)@),
        labels_used(final(visited)@, *final(number_of_scc_blocks) as int),
        final(visited)@[current_column as int] != UNVISITED,
        final(low)@.len() == old(low)@.len(),
        final(component_stack)@.len() == old(component_stack)@.len(),
        final(column_stack)@.len() == m.dim.ncols,
        final(position_stack)@.len() == m.dim.ncols,
        blocks_reach(m, column_permutations@, final(visited)@, *final(number_of_scc_blocks) as int, br_out@),
{
    let ghost q = column_permutations@;
    let ghost root = current_column as int;
    let ghost n = m.dim.ncols as int;
    let ghost vis0 = visited@;
    let mut component_head: usize = 0;
    let mut column_head: isize = 0;
    column_stack.set(0, current_column);
    let ghost mut sp: Seq<int> = Seq::new(m.dim.ncols as nat, |i: int| 0);
    proof {
        lemma_start(m, q, root, state_of(visited@, graph_indices@, low@, component_stack@, component_head, column_stack@, position_stack@, column_head, sp, *node_graph_index, *number_of_scc_blocks));
        lemma_reach_start(m, q, root, state_of(visited@, graph_indices@, low@, component_stack@, component_head, column_stack@, position_stack@, column_head, sp, *node_graph_index, *number_of_scc_blocks), br0);
    }
    let ghost mut br = br0;
    while column_head >= 0
        invariant
            scc_inv(m, q, root, state_of(visited@, graph_indices@, low@, component_stack@, component_head, column_stack@, position_stack@, column_head, sp, *node_graph_index, *number_of_scc_blocks)),
            inv_reach(m, q, state_of(visited@, graph_indices@, low@, component_stack@, component_head, column_stack@, position_stack@, column_head, sp, *node_graph_index, *number_of_scc_blocks), br),
            q == column_permutations@,
            n == m.dim.ncols,
            root == current_column,
            vis_grows(vis0, visited@),
            labels_used(visited@, *number_of_scc_blocks as int),
            visited@[root] != UNVISITED || (column_head == 0 && column_stack@[0] == root),
            low@.len() == old(low)@.len(),
            component_stack@.len() == old(component_stack)@.len(),
        decreases n - *node_graph_index - (if column_head >= 0 && visited@[column_stack@[column_head as int] as int] == UNVISITED { 1int } else { 0int }), column_head + 1,
    {
        let ghost s0 = state_of(visited@, graph_indices@, low@, component_stack@, component_head, column_stack@, position_stack@, column_head, sp, *node_graph_index, *number_of_scc_blocks);
        proof {
            lemma_scc_facts(m, q, root, s0);
        }
        let col = column_stack[column_head as usize];
        let ghost u0: int = if visited@[col as int] == UNVISITED { 1 } else { 0 };
        let ghost ngi0: int = *node_graph_index as int;
        let ghost h0: int = column_head as int;
        proof {
            lemma_node_range(m, q, col as int);
            assert(0 <= qcol(q, col as int) < n);
        }
        let column_after_permutation = unflip(column_permutations[col]) as usize;
        let end_of_column = m.col_start(column_after_permutation + 1);
        if visited[col] == UNVISITED {
            proof {
                lemma_visit_basic(m, q, root, s0);
                lemma_visit_owner(m, q, root, s0);
                lemma_visit_e1(m, q, root, s0);
                lemma_visit_e2(m, q, root, s0);
                lemma_visit_e3(m, q, root, s0);
                lemma_reach_visit(m, q, root, s0, br);
                lemma_reached_room(s0.vis, n, col as int);
            }
            component_head = component_head + 1;
            component_stack[component_head] = col;
            *node_graph_index = *node_graph_index + 1;
            graph_indices.set(col, *node_graph_index as isize);
            low[col] = *node_graph_index as isize;
            visited.set(col, UNASSIGNED);
            position_stack.set(column_head as usize, m.col_start(column_after_permutation));
            proof {
                sp = sp.update(column_head as int, component_head as int);
                lemma_used_step(s0.vis, visited@, s0.nb, s0.nb);
                lemma_grows_step(vis0, s0.vis, visited@);
                assert(state_of(visited@, graph_indices@, low@, component_stack@, component_head, column_stack@, position_stack@, column_head, sp, *node_graph_index, *number_of_scc_blocks) =~~= visit_state(m, q, s0));
            }
        }
        let ghost s1 = state_of(visited@, graph_indices@, low@, component_stack@, component_head, column_stack@, position_stack@, column_head, sp, *node_graph_index, *number_of_scc_blocks);
        let mut row_ptr = position_stack[column_head as usize];
        let mut pushed = false;
        while row_ptr < end_of_column
            invariant_except_break
                !pushed,
                row_ptr == position_stack@[column_head as int],
                row_ptr <= end_of_column,
                column_head == h0,
                state_of(visited@, graph_indices@, low@, component_stack@, component_head, column_stack@, position_stack@, column_head, sp, *node_graph_index, *number_of_scc_blocks).top_vis(),
                column_stack@[column_head as int] == col,
            invariant
                scc_inv(m, q, root, state_of(visited@, graph_indices@, low@, component_stack@, component_head, column_stack@, position_stack@, column_head, sp, *node_graph_index, *number_of_scc_blocks)),
                inv_reach(m, q, state_of(visited@, graph_indices@, low@, component_stack@, component_head, column_stack@, position_stack@, column_head, sp, *node_graph_index, *number_of_scc_blocks), br),
                q == column_permutations@,
                n == m.dim.ncols,
                root == current_column,
                vis_grows(vis0, visited@),
                labels_used(visited@, *number_of_scc_blocks as int),
                visited@[root] != UNVISITED,
                low@.len() == old(low)@.len(),
                component_stack@.len() == old(component_stack)@.len(),
                end_of_column == nend(m, q, col as int),
                col < n,
                column_head >= 0,
                *node_graph_index == s1.ngi,
            ensures
                pushed ==> column_head >= 1 && visited@[column_stack@[column_head as int] as int] == UNVISITED
                    && column_head == h0 + 1 && *node_graph_index < n,
                !pushed ==> column_head == h0,
                !pushed ==> row_ptr == end_of_column && row_ptr == position_stack@[column_head as int]
                    && state_of(visited@, graph_indices@, low@, component_stack@, component_head, column_stack@, position_stack@, column_head, sp, *node_graph_index, *number_of_scc_blocks).top_vis()
                    && column_stack@[column_head as int] == col,
                *node_graph_index == s1.ngi,
            decreases end_of_column - row_ptr,
        {
            let ghost s2 = state_of(visited@, graph_indices@, low@, component_stack@, component_head, column_stack@, position_stack@, column_head, sp, *node_graph_index, *number_of_scc_blocks);
            proof {
                lemma_scc_facts(m, q, root, s2);
                lemma_node_range(m, q, col as int);
            }
            // examine the edge from node "col" to node "row"
            let row = m.row_index(row_ptr);
            if visited[row] == UNVISITED {
                proof {
                    lemma_push_a(m, q, root, s2, row_ptr as int);
                    lemma_push_b(m, q, root, s2, row_ptr as int);
                    lemma_reach_push(m, q, root, s2, br, row_ptr as int);
                    lemma_reached_room(visited@, n, row as int);
                }
                position_stack.set(column_head as usize, row_ptr + 1);
                column_head = column_head + 1;
                column_stack.set(column_head as usize, row);
                pushed = true;
                proof {
                    assert(state_of(visited@, graph_indices@, low@, component_stack@, component_head, column_stack@, position_stack@, column_head, sp, *node_graph_index, *number_of_scc_blocks) =~~= push_state(m, s2, row_ptr as int));
                }
                break;
            } else if visited[row] == UNASSIGNED {
                // Tarjan's low link update for an edge to a node still waiting:
                // use its discovery index
                let g = graph_indices[row];
                if g < low[col] {
                    low[col] = g;
                }
            }
            row_ptr = row_ptr + 1;
            position_stack.set(column_head as usize, row_ptr);
            proof {
                lemma_scan_a(m, q, root, s2, (row_ptr - 1) as int);
                lemma_scan_b(m, q, root, s2, (row_ptr - 1) as int);
                lemma_scan_c(m, q, root, s2, (row_ptr - 1) as int);
                lemma_reach_scan(m, q, root, s2, br, (row_ptr - 1) as int);
                assert(state_of(visited@, graph_indices@, low@, component_stack@, component_head, column_stack@, position_stack@, column_head, sp, *node_graph_index, *number_of_scc_blocks) =~~= scan_state(m, s2, (row_ptr - 1) as int));
            }
        }
        if !pushed {
            let ghost s3 = state_of(visited@, graph_indices@, low@, component_stack@, component_head, column_stack@, position_stack@, column_head, sp, *node_graph_index, *number_of_scc_blocks);
            proof {
                lemma_scc_facts(m, q, root, s3);
                assert(can_finish(m, q, root, s3));
                if s3.h >= 1 {
                    lemma_path_unassigned(m, q, root, s3, s3.h - 1);
                }
            }
            // all edges from node "col" have been examined
            column_head = column_head - 1;
            if low[col] == graph_indices[col] {
                // "col" is the root of a block: pop it and the nodes above it
                proof {
                    lemma_block_a(m, q, root, s3);
                    lemma_block_b(m, q, root, s3);
                    lemma_block_e1(m, q, root, s3);
                    lemma_block_e2(m, q, root, s3);
                    lemma_block_e3(m, q, root, s3);
                    lemma_reach_block(m, q, root, s3, br);
                }
                proof {
                    lemma_block_places(m, q, root, s3, 1);
                    reveal(inv_cs);
                }
                let ghost k = s3.sp[s3.h];
                pop_block(col, *number_of_scc_blocks, visited, component_stack, &mut component_head, Ghost(graph_indices@), Ghost(k));
                proof {
                    let fb = finish_block_state(s3);
                    assert forall|x: int| 0 <= x < n implies #[trigger] visited@[x] == fb.vis[x] by {
                        lemma_block_popped(m, q, root, s3, x);
                    }
                    assert(visited@ =~= fb.vis);
                    lemma_grows_step(vis0, s3.vis, visited@);
                    assert(visited@[col as int] == s3.nb) by {
                        assert(joins_block(s3, col as int));
                    }
                    assert(0 <= col < visited@.len());
                    lemma_used_step(s3.vis, visited@, s3.nb, s3.nb + 1);
                }
                *number_of_scc_blocks = *number_of_scc_blocks + 1;
                proof {
                    assert(state_of(visited@, graph_indices@, low@, component_stack@, component_head, column_stack@, position_stack@, column_head, sp, *node_graph_index, *number_of_scc_blocks) =~~= finish_block_state(s3));
                    br = br.push(col as int);
                }
            } else {
                proof {
                    lemma_open_a(m, q, root, s3);
                    lemma_open_owner(m, q, root, s3);
                    lemma_open_e2(m, q, root, s3);
                    lemma_open_e3(m, q, root, s3);
                    lemma_reach_open(m, q, root, s3, br);
                }
                // "col" waits; its parent takes the smaller low link
                let parent = column_stack[column_head as usize];
                if low[col] < low[parent] {
                    low[parent] = low[col];
                }
                proof {
                    assert(state_of(visited@, graph_indices@, low@, component_stack@, component_head, column_stack@, position_stack@, column_head, sp, *node_graph_index, *number_of_scc_blocks) =~~= finish_open_state(s3));
                }
            }
        }
        proof {
            assert(*node_graph_index == ngi0 + u0);
            if pushed {
                assert(column_head == h0 + 1);
                assert(visited@[column_stack@[column_head as int] as int] == UNVISITED);
                assert(*node_graph_index < n);
            } else {
                assert(column_head == h0 - 1);
                assert(column_head >= 0 ==> visited@[column_stack@[column_head as int] as int] != UNVISITED);
            }
        }
    }
    proof {
        lemma_scc_facts(m, q, root, state_of(visited@, graph_indices@, low@, component_stack@, component_head, column_stack@, position_stack@, column_head, sp, *node_graph_index, *number_of_scc_blocks));
        lemma_stop(m, q, root, state_of(visited@, graph_indices@, low@, component_stack@, component_head, column_stack@, position_stack@, column_head, sp, *node_graph_index, *number_of_scc_blocks));
    }
    Ghost(br)
}

/// Every block number below `nb` labels some node.
pub open spec fn labels_used(vis: Seq<usize>, nb: int) -> bool {
    forall|b: int| 0 <= b < nb ==> #[trigger] label_in_use(vis, b)
}

/// Some node carries label `b`.
pub open spec fn label_in_use(vis: Seq<usize>, b: int) -> bool {
    exists|x: int| 0 <= x < vis.len() && vis[x] == b
}

/// Block numbers given once stay in use when labels move forward.
proof fn lemma_used_step(v1: Seq<usize>, v2: Seq<usize>, nb1: int, nb2: int)
    requires
        labels_used(v1, nb1),
        v2.len() == v1.len(),
        forall|x: int| 0 <= x < v1.len() && #[trigger] v1[x] < nb1 ==> v2[x] == v1[x],
        nb2 == nb1 || (nb2 == nb1 + 1 && exists|x: int| 0 <= x < v2.len() && v2[x] == nb1),
    ensures
        labels_used(v2, nb2),
{
    assert forall|b: int| 0 <= b < nb2 implies #[trigger] label_in_use(v2, b) by {
        if b < nb1 {
            assert(label_in_use(v1, b));
            let x = choose|x: int| 0 <= x < v1.len() && v1[x] == b;
            assert(v2[x] == b);
        }
    }
}

/// The blocks of a symmetric permutation `p` of `0..n` with boundaries
/// `r[0] = 0 < r[1] < ... < r[nb] = n`.
pub open spec fn blocks_ok(p: Seq<isize>, r: Seq<usize>, n: int, nb: int) -> bool {
    &&& 0 <= nb <= n
    &&& p.len() >= n
    &&& r.len() >= nb + 1
    &&& r[0] == 0
    &&& r[nb] == n
    &&& forall|b: int| 0 <= b < nb ==> #[trigger] r[b] < r[b + 1]
    &&& forall|k: int| 0 <= k < n ==> 0 <= #[trigger] p[k] < n
    &&& forall|k1: int, k2: int| 0 <= k1 < k2 < n ==> #[trigger] p[k1] != #[trigger] p[k2]
}

/// Within each block, the nodes keep their natural order.
pub open spec fn blocks_in_order(p: Seq<isize>, r: Seq<usize>, nb: int) -> bool {
    forall|b: int, k1: int, k2: int|
        #![trigger r[b], p[k1], p[k2]]
        0 <= b < nb && r[b] <= k1 < k2 < r[b + 1] ==> p[k1] < p[k2]
}

/// Block upper triangular: an edge from a node in block `b` leads to a node
/// placed before the end of block `b`.
pub open spec fn blocks_upper<V>(m: &CscMatrix<V>, q: Seq<isize>, p: Seq<isize>, r: Seq<usize>, nb: int) -> bool {
    forall|b: int, k1: int, k2: int|
        0 <= b < nb && r[b] <= k1 < r[b + 1] && 0 <= k2 < m.dim.ncols && #[trigger] edge(m, q, p[k1] as int, p[k2] as int)
            ==> k2 < #[trigger] r[b + 1]
}

/// Each block is strongly connected: any node of a block reaches any other
/// node of the same block along the edges of the graph.
pub open spec fn blocks_strong<V>(m: &CscMatrix<V>, q: Seq<isize>, p: Seq<isize>, r: Seq<usize>, nb: int) -> bool {
    forall|b: int, k1: int, k2: int|
        #![trigger r[b], p[k1], p[k2]]
        0 <= b < nb && r[b] <= k1 < r[b + 1] && r[b] <= k2 < r[b + 1] ==> reaches(m, q, p[k1] as int, p[k2] as int)
}

/// `path` is a walk of places along edges of the permuted graph: from each
/// place to the next there is an edge between the nodes placed there.
pub open spec fn is_walk<V>(m: &CscMatrix<V>, q: Seq<isize>, p: Seq<isize>, path: Seq<int>) -> bool {
    &&& path.len() >= 1
    &&& forall|t: int| 0 <= t < path.len() ==> 0 <= #[trigger] path[t] < m.dim.ncols
    &&& forall|t: int| 0 <= t < path.len() - 1 ==> edge(m, q, p[#[trigger] path[t]] as int, p[path[t + 1]] as int)
}

/// A place below `n` lies in some block.
proof fn lemma_block_of(r: Seq<usize>, n: int, nb: int, k: int) -> (b: int)
    requires
        0 <= nb,
        r.len() >= nb + 1,
        r[0] == 0,
        r[nb] == n,
        forall|c: int| 0 <= c < nb ==> #[trigger] r[c] < r[c + 1],
        0 <= k < n,
    ensures
        0 <= b < nb,
        r[b] <= k < r[b + 1],
    decreases nb,
{
    if k < r[nb - 1] {
        lemma_block_of(r, r[nb - 1] as int, nb - 1, k)
    } else {
        nb - 1
    }
}

/// Boundaries increase.
proof fn lemma_bounds_mono(r: Seq<usize>, nb: int, b1: int, b2: int)
    requires
        forall|c: int| 0 <= c < nb ==> #[trigger] r[c] < r[c + 1],
        0 <= b1 <= b2 <= nb,
    ensures
        r[b1] <= r[b2],
    decreases b2 - b1,
{
    if b1 < b2 {
        lemma_bounds_mono(r, nb, b1, b2 - 1);
        assert(r[b2 - 1] < r[b2]);
    }
}

/// In a block upper triangular form, a walk never leaves the blocks up to
/// the one where it starts: every place it reaches comes before the end of
/// that block.
pub proof fn lemma_walk_stays_in_earlier_blocks<V>(
    m: &CscMatrix<V>,
    q: Seq<isize>,
    p: Seq<isize>,
    r: Seq<usize>,
    nb: int,
    path: Seq<int>,
    b: int,
)
    requires
        blocks_ok(p, r, m.dim.ncols as int, nb),
        blocks_upper(m, q, p, r, nb),
        is_walk(m, q, p, path),
        0 <= b < nb,
        path[0] < r[b + 1],
    ensures
        forall|t: int| 0 <= t < path.len() ==> #[trigger] path[t] < r[b + 1],
    decreases path.len(),
{
    let n = m.dim.ncols as int;
    if path.len() > 1 {
        let prefix = path.drop_last();
        assert(is_walk(m, q, p, prefix)) by {
            assert forall|t: int| 0 <= t < prefix.len() - 1 implies edge(m, q, p[#[trigger] prefix[t]] as int, p[prefix[t + 1]] as int) by {
                assert(prefix[t] == path[t] && prefix[t + 1] == path[t + 1]);
            }
        }
        lemma_walk_stays_in_earlier_blocks(m, q, p, r, nb, prefix, b);
        let last = path.len() - 1;
        let k1 = path[last - 1];
        let k2 = path[last];
        assert(prefix[last - 1] == k1);
        assert(k1 < r[b + 1]);
        let b1 = lemma_block_of(r, n, nb, k1);
        assert(edge(m, q, p[path[last - 1]] as int, p[path[last]] as int));
        assert(k2 < r[b1 + 1]);
        if b1 > b {
            lemma_bounds_mono(r, nb, b + 1, b1);
        }
        lemma_bounds_mono(r, nb, b1 + 1, b + 1);
        assert forall|t: int| 0 <= t < path.len() implies #[trigger] path[t] < r[b + 1] by {
            if t < last {
                assert(prefix[t] == path[t]);
            }
        }
    }
}

/// Nodes that reach each other, along the edges of the graph, lie in the same
/// block.
pub proof fn lemma_mutually_reachable_same_block<V>(
    m: &CscMatrix<V>,
    q: Seq<isize>,
    p: Seq<isize>,
    r: Seq<usize>,
    nb: int,
    there: Seq<int>,
    back: Seq<int>,
    b1: int,
    b2: int,
)
    requires
        blocks_ok(p, r, m.dim.ncols as int, nb),
        blocks_upper(m, q, p, r, nb),
        is_walk(m, q, p, there),
        is_walk(m, q, p, back),
        there[0] == back[back.len() - 1],
        back[0] == there[there.len() - 1],
        0 <= b1 < nb,
        0 <= b2 < nb,
        r[b1] <= there[0] < r[b1 + 1],
        r[b2] <= back[0] < r[b2 + 1],
    ensures
        b1 == b2,
{
    lemma_walk_stays_in_earlier_blocks(m, q, p, r, nb, there, b1);
    lemma_walk_stays_in_earlier_blocks(m, q, p, r, nb, back, b2);
    assert(there[there.len() - 1] < r[b1 + 1]);
    assert(back[back.len() - 1] < r[b2 + 1]);
    if b1 < b2 {
        lemma_bounds_mono(r, nb, b1 + 1, b2);
    } else if b2 < b1 {
        lemma_bounds_mono(r, nb, b2 + 1, b1);
    }
}

/// What the placement of the labelled nodes gives: a permutation into
/// blocks that keeps the natural order and is block upper triangular.
proof fn lemma_btf_result<V>(
    m: &CscMatrix<V>,
    q: Seq<isize>,
    vis: Seq<usize>,
    gi: Seq<isize>,
    ngi: int,
    rp: Seq<isize>,
    r: Seq<usize>,
    nb: int,
    br: Seq<int>,
)
    requires
        scc_idle(m, q, vis, gi, ngi, nb),
        blocks_reach(m, q, vis, nb, br),
        labels_used(vis, nb),
        forall|x: int| 0 <= x < m.dim.ncols ==> #[trigger] vis[x] < nb,
        rp.len() >= m.dim.ncols,
        r.len() >= nb + 1,
        forall|b: int| 0 <= b <= nb ==> #[trigger] r[b] == label_start(vis, m.dim.ncols as int, b),
        forall|x: int| 0 <= x < m.dim.ncols ==> #[trigger] rp[label_pos(vis, m.dim.ncols as int, x)] == x,
    ensures
        blocks_ok(rp, r, m.dim.ncols as int, nb),
        blocks_in_order(rp, r, nb),
        blocks_upper(m, q, rp, r, nb),
        blocks_strong(m, q, rp, r, nb),
{
    let n = m.dim.ncols as int;
    lemma_start_total(vis, n, nb);
    assert(r[nb] == n);
    assert(nb <= n) by {
        if nb > n {
            assert(label_in_use(vis, n));
            let x = choose|x: int| 0 <= x < vis.len() && vis[x] == n;
            assert(vis[x] < nb);
            assert(reached(vis, n).len() == ngi);
        }
    }
    assert forall|b: int| 0 <= b < nb implies #[trigger] r[b] < r[b + 1] by {
        assert(label_in_use(vis, b));
        let x = choose|x: int| 0 <= x < vis.len() && vis[x] == b;
        lemma_count_strict(vis, b, x, n);
    }
    assert forall|k: int| 0 <= k < n implies 0 <= #[trigger] rp[k] < n by {
        lemma_place_hit(vis, rp, n, nb, k);
    }
    assert forall|k1: int, k2: int| 0 <= k1 < k2 < n implies #[trigger] rp[k1] != #[trigger] rp[k2] by {
        lemma_place_hit(vis, rp, n, nb, k1);
        lemma_place_hit(vis, rp, n, nb, k2);
    }
    assert forall|b: int, k1: int, k2: int|
        #![trigger r[b], rp[k1], rp[k2]]
        0 <= b < nb && r[b] <= k1 < k2 < r[b + 1] implies rp[k1] < rp[k2] by {
        reveal(label_pos);
        lemma_start_mono(vis, n, b + 1, nb);
        lemma_place_hit(vis, rp, n, nb, k1);
        lemma_place_hit(vis, rp, n, nb, k2);
        let x1 = rp[k1] as int;
        let x2 = rp[k2] as int;
        lemma_place_label(vis, n, x1, b);
        lemma_place_label(vis, n, x2, b);
        if x2 < x1 {
            lemma_count_strict(vis, b, x2, x1);
        }
    }
    assert forall|b: int, k1: int, k2: int|
        0 <= b < nb && r[b] <= k1 < r[b + 1] && 0 <= k2 < m.dim.ncols && #[trigger] edge(m, q, rp[k1] as int, rp[k2] as int)
            implies k2 < #[trigger] r[b + 1] by {
        lemma_start_mono(vis, n, b + 1, nb);
        lemma_place_hit(vis, rp, n, nb, k1);
        lemma_place_hit(vis, rp, n, nb, k2);
        let u = rp[k1] as int;
        let v = rp[k2] as int;
        lemma_place_label(vis, n, u, b);
        let p = choose|p: int|
            m.column_pointers@[qcol(q, u)] <= p < m.column_pointers@[qcol(q, u) + 1] && #[trigger] m.row_indices@[p] == v;
        assert(nstart(m, q, u) <= p < nend(m, q, u) && target(m, p) == v);
        assert(vis[target(m, p)] <= vis[u]);
        lemma_pos_range(vis, n, v);
        lemma_start_mono(vis, n, vis[v] + 1, b + 1);
    }
    assert forall|b: int, k1: int, k2: int|
        #![trigger r[b], rp[k1], rp[k2]]
        0 <= b < nb && r[b] <= k1 < r[b + 1] && r[b] <= k2 < r[b + 1] implies reaches(m, q, rp[k1] as int, rp[k2] as int) by {
        lemma_start_mono(vis, n, b + 1, nb);
        lemma_place_hit(vis, rp, n, nb, k1);
        lemma_place_hit(vis, rp, n, nb, k2);
        let x1 = rp[k1] as int;
        let x2 = rp[k2] as int;
        lemma_place_label(vis, n, x1, b);
        lemma_place_label(vis, n, x2, b);
        lemma_reach_trans(m, q, x1, br[b], x2);
    }
}

/// Block triangular form of a square matrix whose columns are matched by `q`
/// (Tarjan's strongly connected components on the graph with an edge from
/// node `u` to node `v` for each entry in row `v` of column `q[u]`): returns
/// the number of blocks `nb`; `row_permutations[0..n]` becomes the symmetric
/// permutation `p`, `boundary_array[b]` the first place of block `b`
/// (`boundary_array[nb] = n`), and `column_permutations[k]` becomes the old
/// `column_permutations[p[k]]`. The permuted matrix is block upper
/// triangular and each block keeps its nodes in their natural order.
pub fn btf_scc<V>(
    m: &CscMatrix<V>,
    column_permutations: &mut [isize],
    row_permutations: &mut [isize],
    boundary_array: &mut [usize],
) -> (nb: usize)
    requires
        graph_ok(m, old(column_permutations)@),
        old(row_permutations)@.len() >= m.dim.ncols,
        old(boundary_array)@.len() >= m.dim.ncols + 1,
    ensures
        blocks_ok(final(row_permutations)@, final(boundary_array)@, m.dim.ncols as int, nb as int),
        blocks_in_order(final(row_permutations)@, final(boundary_array)@, nb as int),
        blocks_upper(m, old(column_permutations)@, final(row_permutations)@, final(boundary_array)@, nb as int),
        blocks_strong(m, old(column_permutations)@, final(row_permutations)@, final(boundary_array)@, nb as int),
        final(column_permutations)@.len() == old(column_permutations)@.len(),
        final(row_permutations)@.len() == old(row_permutations)@.len(),
        final(boundary_array)@.len() == old(boundary_array)@.len(),
        forall|k: int| 0 <= k < m.dim.ncols ==> #[trigger] final(column_permutations)@[k]
            == old(column_permutations)@[final(row_permutations)@[k] as int],
        forall|k: int| m.dim.ncols <= k < old(column_permutations)@.len() ==> #[trigger] final(column_permutations)@[k]
            == old(column_permutations)@[k],
{
    let n = m.dim.ncols;
    let ghost q = column_permutations@;
    let mut graph_indices: Vec<isize> = vec![EMPTY; n];
    let mut visited: Vec<usize> = vec![UNVISITED; n];
    let mut column_stack: Vec<usize> = vec![n + 1; n];
    let mut position_stack: Vec<usize> = vec![n + 1; n];
    let mut node_graph_index: usize = 0;
    let mut number_of_scc_blocks: usize = 0;
    proof {
        lemma_reached_finite(visited@, n as int);
        assert(reached(visited@, n as int) =~= Set::empty());
    }
    let ghost mut br: Seq<int> = Seq::empty();
    let mut col: usize = 0;
    while col < n
        invariant
            col <= n,
            n == m.dim.ncols,
            q == column_permutations@,
            graph_ok(m, q),
            blocks_reach(m, q, visited@, number_of_scc_blocks as int, br),
            scc_idle(m, q, visited@, graph_indices@, node_graph_index as int, number_of_scc_blocks as int),
            labels_used(visited@, number_of_scc_blocks as int),
            forall|c: int| 0 <= c < col ==> #[trigger] visited@[c] != UNVISITED,
            row_permutations@.len() == old(row_permutations)@.len(),
            boundary_array@.len() == old(boundary_array)@.len(),
            row_permutations@.len() >= n,
            boundary_array@.len() >= n + 1,
            column_stack@.len() == n,
            position_stack@.len() == n,
        decreases n - col,
    {
        if visited[col] == UNVISITED {
            let ghost v1 = visited@;
            let ghost nb1 = number_of_scc_blocks as int;
            let found = dfs(
                m,
                column_permutations,
                col,
                &mut node_graph_index,
                &mut number_of_scc_blocks,
                &mut visited,
                &mut graph_indices,
                row_permutations,
                boundary_array,
                &mut column_stack,
                &mut position_stack,
                Ghost(br),
            );
            proof {
                br = found@;
                assert forall|c: int| 0 <= c < col implies #[trigger] visited@[c] != UNVISITED by {
                    assert(v1[c] != UNVISITED);
                }
            }
        }
        col = col + 1;
    }
    let nb = number_of_scc_blocks;
    let ghost vis = visited@;
    let ghost gi_reached = graph_indices@;
    proof {
        assert forall|x: int| 0 <= x < n implies #[trigger] vis[x] < nb by {
            assert(vis[x] != UNVISITED);
        }
        lemma_start_total(vis, n as int, nb as int);
    }
    // count the nodes of each block
    let mut b: usize = 0;
    while b < nb
        invariant
            b <= nb <= n,
            boundary_array@.len() == old(boundary_array)@.len(),
            boundary_array@.len() >= n + 1,
            forall|c: int| 0 <= c < b ==> #[trigger] boundary_array@[c] == 0,
        decreases nb - b,
    {
        boundary_array[b] = 0;
        b = b + 1;
    }
    let mut c: usize = 0;
    while c < n
        invariant
            c <= n,
            nb <= n,
            n == m.dim.ncols,
            vis == visited@,
            vis.len() == n,
            forall|x: int| 0 <= x < n ==> #[trigger] vis[x] < nb,
            boundary_array@.len() == old(boundary_array)@.len(),
            boundary_array@.len() >= n + 1,
            forall|bb: int| 0 <= bb < nb ==> #[trigger] boundary_array@[bb] == count_label(vis, bb, c as int),
        decreases n - c,
    {
        let blk = visited[c];
        proof {
            lemma_count_mono(vis, blk as int, 0, c as int);
        }
        boundary_array[blk] = boundary_array[blk] + 1;
        c = c + 1;
    }
    // the first place of each block
    if nb > 0 {
        graph_indices.set(0, 0);
    }
    let mut b: usize = 1;
    while b < nb
        invariant
            1 <= b,
            nb <= n <= isize::MAX,
            n == m.dim.ncols,
            graph_indices@.len() == n,
            label_start(vis, n as int, nb as int) == n,
            boundary_array@.len() == old(boundary_array)@.len(),
            boundary_array@.len() >= n + 1,
            forall|bb: int| 0 <= bb < nb ==> #[trigger] boundary_array@[bb] == count_label(vis, bb, n as int),
            forall|bb: int| 0 <= bb < b && bb < nb ==> #[trigger] graph_indices@[bb] == label_start(vis, n as int, bb),
        decreases nb - b,
    {
        proof {
            lemma_start_mono(vis, n as int, b as int, nb as int);
        }
        let g = graph_indices[b - 1] + boundary_array[b - 1] as isize;
        graph_indices.set(b, g);
        b = b + 1;
    }
    let mut b: usize = 0;
    while b < nb
        invariant
            b <= nb <= n,
            n == m.dim.ncols,
            graph_indices@.len() == n,
            label_start(vis, n as int, nb as int) == n,
            boundary_array@.len() == old(boundary_array)@.len(),
            boundary_array@.len() >= n + 1,
            forall|bb: int| 0 <= bb < nb ==> #[trigger] graph_indices@[bb] == label_start(vis, n as int, bb),
            forall|bb: int| 0 <= bb < b ==> #[trigger] boundary_array@[bb] == label_start(vis, n as int, bb),
        decreases nb - b,
    {
        proof {
            lemma_start_mono(vis, n as int, b as int, nb as int);
        }
        boundary_array[b] = graph_indices[b] as usize;
        b = b + 1;
    }
    boundary_array[nb] = n;
    // place the nodes block by block, in their natural order within a block
    let mut c: usize = 0;
    while c < n
        invariant
            c <= n,
            nb <= n <= isize::MAX,
            n == m.dim.ncols,
            vis == visited@,
            vis.len() == n,
            forall|x: int| 0 <= x < n ==> #[trigger] vis[x] < nb,
            graph_indices@.len() == n,
            label_start(vis, n as int, nb as int) == n,
            row_permutations@.len() == old(row_permutations)@.len(),
            row_permutations@.len() >= n,
            boundary_array@.len() == old(boundary_array)@.len(),
            boundary_array@.len() >= n + 1,
            forall|bb: int| 0 <= bb <= nb ==> #[trigger] boundary_array@[bb] == label_start(vis, n as int, bb),
            forall|bb: int| 0 <= bb < nb ==> #[trigger] graph_indices@[bb] == label_start(vis, n as int, bb)
                + count_label(vis, bb, c as int),
            forall|x: int| 0 <= x < c ==> #[trigger] row_permutations@[label_pos(vis, n as int, x)] == x,
        decreases n - c,
    {
        let blk = visited[c];
        proof {
            lemma_pos_range(vis, n as int, c as int);
            lemma_start_mono(vis, n as int, blk + 1, nb as int);
            reveal(label_pos);
        }
        let pos = graph_indices[blk];
        let ghost rp_old = row_permutations@;
        row_permutations[pos as usize] = c as isize;
        graph_indices.set(blk, pos + 1);
        proof {
            assert forall|x: int| 0 <= x < c + 1 implies #[trigger] row_permutations@[label_pos(vis, n as int, x)] == x by {
                reveal(label_pos);
                assert(label_pos(vis, n as int, c as int) == pos);
                if x < c {
                    lemma_pos_distinct(vis, n as int, x, c as int);
                    lemma_pos_range(vis, n as int, x);
                    lemma_start_mono(vis, n as int, vis[x] + 1, nb as int);
                    assert(rp_old[label_pos(vis, n as int, x)] == x);
                    assert(row_permutations@[label_pos(vis, n as int, x)] == rp_old[label_pos(vis, n as int, x)]);
                } else {
                    assert(row_permutations@[pos as int] == c);
                }
            }
        }
        c = c + 1;
    }
    proof {
        lemma_btf_result(m, q, vis, gi_reached, node_graph_index as int, row_permutations@, boundary_array@, nb as int, br);
    }
    // the columns follow the symmetric permutation: q'[k] = q[p[k]]
    let mut k: usize = 0;
    while k < n
        invariant
            k <= n,
            n == m.dim.ncols,
            q == column_permutations@,
            q.len() >= n,
            graph_indices@.len() == n,
            row_permutations@.len() >= n,
            forall|kk: int| 0 <= kk < n ==> 0 <= #[trigger] row_permutations@[kk] < n,
            forall|kk: int| 0 <= kk < k ==> #[trigger] graph_indices@[kk] == q[row_permutations@[kk] as int],
        decreases n - k,
    {
        let g = column_permutations[row_permutations[k] as usize];
        graph_indices.set(k, g);
        k = k + 1;
    }
    let mut k: usize = 0;
    while k < n
        invariant
            k <= n,
            n == m.dim.ncols,
            q.len() >= n,
            column_permutations@.len() == q.len(),
            graph_indices@.len() == n,
            forall|kk: int| 0 <= kk < n ==> #[trigger] graph_indices@[kk] == q[row_permutations@[kk] as int],
            forall|kk: int| 0 <= kk < k ==> #[trigger] column_permutations@[kk] == graph_indices@[kk],
            forall|kk: int| k <= kk < q.len() ==> #[trigger] column_permutations@[kk] == q[kk],
        decreases n - k,
    {
        column_permutations[k] = graph_indices[k];
        k = k + 1;
    }
    nb
}

} // verus!
