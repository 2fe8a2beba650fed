use vstd::prelude::*;

use crate::solver::utils::flip;
use crate::solver::utils::spec_flip;
use crate::solver::utils::EMPTY;

verus! {

/// Approximate Minimum Degree (AMD) ordering: control parameters and the
/// bookkeeping steps on the degree lists.
/// The algorithm is described in "An Approximate Minimum Degree Ordering
/// Algorithm" by Timothy A. Davis, Patrick R. Amestoy and Iain S. Duff.
pub struct AmdControl {
    /// If true, then aggressive absorption is performed.
    aggressive: bool,
    /// base multiplier for sqrt(n) to determine the dense threshold
    dense: usize,
}

impl Default for AmdControl {
    fn default() -> (r: Self)
        ensures
            r.spec_aggressive(),
            r.spec_dense() == 10,
    {
        Self { aggressive: true, dense: 10 }
    }
}

/// `s` is the integer part of `sqrt(x)`.
pub open spec fn is_isqrt(s: int, x: int) -> bool {
    0 <= s && s * s <= x && x < (s + 1) * (s + 1)
}

/// The dense threshold for order `n` with multiplier `d`: the integer part of
/// `d * sqrt(n)`, at least 16 and at most `n`.
pub open spec fn dense_threshold(d: int, n: int, r: int) -> bool {
    let x = d * d * n;
    exists|s: int| #[trigger] is_isqrt(s, x) && r == clamp_dense(s, n)
}

/// `max(s, 16)`, but at most `n`.
pub open spec fn clamp_dense(s: int, n: int) -> int {
    let t = if s < 16 {
        16
    } else {
        s
    };
    if t < n {
        t
    } else {
        n
    }
}

impl AmdControl {
    pub closed spec fn spec_aggressive(&self) -> bool {
        self.aggressive
    }

    pub closed spec fn spec_dense(&self) -> nat {
        self.dense as nat
    }

    /// The dense threshold for order `n` (see `get_dense`).
    pub closed spec fn get_dense_spec(&self, n: int) -> int {
        choose|r: int| dense_threshold(self.dense as int, n, r)
    }

    /// Whether aggressive absorption is performed.
    pub fn aggressive(&self) -> (r: bool)
        ensures
            r == self.spec_aggressive(),
    {
        self.aggressive
    }

    /// A row is "dense" if the number of entries exceeds the value
    /// returned by get_dense: the integer part of `dense * sqrt(n)`, but at
    /// least 16 (a row with 16 or fewer entries is never dense) and at most `n`.
    pub fn get_dense(&self, n: usize) -> (r: usize)
        ensures
            dense_threshold(self.spec_dense() as int, n as int, r as int),
            r == self.get_dense_spec(n as int),
    {
        let s = floor_scaled_sqrt(self.dense, n);
        let r = if s < 16 { 16 } else { s };
        let r = if r < n { r } else { n };
        proof {
            let x = self.dense * self.dense * n;
            lemma_isqrt_exists(x);
            if s < n {
                assert(is_isqrt(s as int, x));
            } else {
                let t = choose|t: int| is_isqrt(t, x);
                assert(t >= n) by {
                    if t < n {
                        lemma_square_monotone(t + 1, n as int);
                    }
                }
                assert(is_isqrt(t, x));
                assert(r == clamp_dense(t, n as int));
            }
            assert(dense_threshold(self.dense as int, n as int, r as int));
            let r2 = self.get_dense_spec(n as int);
            assert(dense_threshold(self.dense as int, n as int, r2));
            let s1 = choose|s1: int| #[trigger] is_isqrt(s1, x) && r == clamp_dense(s1, n as int);
            let s2 = choose|s2: int| #[trigger] is_isqrt(s2, x) && r2 == clamp_dense(s2, n as int);
            lemma_isqrt_unique(s1, s2, x);
        }
        r
    }
}

proof fn lemma_square_monotone(a: int, b: int)
    requires
        0 <= a <= b,
    ensures
        a * a <= b * b,
{
    assert(a * a <= b * b) by (nonlinear_arith)
        requires
            0 <= a <= b,
    ;
}

proof fn lemma_isqrt_unique(s: int, t: int, x: int)
    requires
        is_isqrt(s, x),
        is_isqrt(t, x),
    ensures
        s == t,
{
    if s < t {
        lemma_square_monotone(s + 1, t);
    } else if t < s {
        lemma_square_monotone(t + 1, s);
    }
}

/// Every natural number has an integer square root.
proof fn lemma_isqrt_exists(x: int)
    requires
        x >= 0,
    ensures
        exists|s: int| is_isqrt(s, x),
    decreases x,
{
    if x == 0 {
        assert(is_isqrt(0, 0));
    } else {
        let y = x - 1;
        lemma_isqrt_exists(y);
        let s = choose|s: int| is_isqrt(s, y);
        if x < (s + 1) * (s + 1) {
            assert(is_isqrt(s, x));
        } else {
            assert((s + 1) * (s + 1) == x);
            assert(x < (s + 2) * (s + 2)) by (nonlinear_arith)
                requires
                    (s + 1) * (s + 1) == x,
                    s >= 0,
            ;
            assert(is_isqrt(s + 1, x));
        }
    }
}

/// The largest `s <= n` with `s * s <= d * d * n`.
fn floor_scaled_sqrt(d: usize, n: usize) -> (s: usize)
    ensures
        s <= n,
        s * s <= d * d * n,
        s < n ==> d * d * n < (s + 1) * (s + 1),
{
    // binary search for the largest s in [lo, hi] with s * s <= d * d * n
    let mut lo: usize = 0;
    let mut hi: usize = n;
    proof {
        assert(0 * 0 <= d * d * n) by (nonlinear_arith);
    }
    while lo < hi
        invariant
            lo <= hi <= n,
            lo * lo <= d * d * n,
            hi < n ==> d * d * n < (hi + 1) * (hi + 1),
        decreases hi - lo,
    {
        let mid = lo + (hi - lo) / 2 + (hi - lo) % 2;
        if square_at_most(mid, d, n) {
            lo = mid;
        } else {
            hi = mid - 1;
        }
    }
    lo
}

/// Whether `s * s <= d * d * n`, computed without overflow.
fn square_at_most(s: usize, d: usize, n: usize) -> (r: bool)
    ensures
        r == (s * s <= d * d * n),
{
    let s1 = s as u128;
    let d1 = d as u128;
    proof {
        assert(usize::MAX <= u64::MAX);
        assert(s1 * s1 <= u128::MAX && d1 * d1 <= u128::MAX) by (nonlinear_arith)
            requires
                s1 <= u64::MAX,
                d1 <= u64::MAX,
        ;
    }
    let s2 = s1 * s1;
    let d2 = d1 * d1;
    match d2.checked_mul(n as u128) {
        Some(x) => s2 <= x,
        None => {
            proof {
                assert(s * s <= d * d * n) by (nonlinear_arith)
                    requires
                        s * s <= u128::MAX,
                        d * d * n > u128::MAX,
                ;
            }
            true
        },
    }
}

/// The flag array after a reset: marked entries (non-zero) become 1.
pub open spec fn reset_flags(w: Seq<isize>, n: int) -> Seq<isize> {
    Seq::new(w.len(), |i: int| if i < n && w[i] != 0 { 1isize } else { w[i] })
}

/// Makes sure that the flag `wflg` is in `[2, wbig)`: when it is not, every
/// non-zero flag in `w[0..n]` is reset to 1 and the flag restarts at 2.
/// Afterwards `w[0..n] < wflg` holds for the entries that were below `wbig`.
pub fn clear_flag(wflg: isize, wbig: isize, w: &mut [isize], n: usize) -> (r: isize)
    requires
        n <= old(w)@.len(),
    ensures
        (wflg < 2 || wflg >= wbig) ==> r == 2 && final(w)@ == reset_flags(old(w)@, n as int),
        !(wflg < 2 || wflg >= wbig) ==> r == wflg && final(w)@ == old(w)@,
{
    let mut wflg = wflg;
    if wflg < 2 || wflg >= wbig {
        let mut i: usize = 0;
        while i < n
            invariant
                i <= n <= w@.len(),
                w@.len() == old(w)@.len(),
                forall|j: int| 0 <= j < w@.len() ==> #[trigger] w@[j] == (if j < i && old(w)@[j] != 0 {
                    1isize
                } else {
                    old(w)@[j]
                }),
            decreases n - i,
        {
            if w[i] != 0 {
                w[i] = 1;
            }
            i = i + 1;
        }
        wflg = 2;
        proof {
            assert(w@ =~= reset_flags(old(w)@, n as int));
        }
    }
    // at this point, W [0..n-1] < wflg holds
    wflg
}

/// `x` is -1 or an index below `n`.
pub open spec fn link_ok(x: isize, n: int) -> bool {
    -1 <= x < n
}

/// Pushes variable `i` at the head of the degree list `deg`.
pub fn add_to_degree_list(
    i: usize,
    n: usize,
    deg: usize,
    head: &mut [isize],
    last: &mut [isize],
    next: &mut [isize],
)
    requires
        i < n <= isize::MAX,
        deg < old(head)@.len(),
        n <= old(last)@.len(),
        i < old(next)@.len(),
        link_ok(old(head)@[deg as int], n as int),
    ensures
        final(head)@ == old(head)@.update(deg as int, i as isize),
        final(next)@ == old(next)@.update(i as int, old(head)@[deg as int]),
        final(last)@ == (if old(head)@[deg as int] != EMPTY {
            old(last)@.update(old(head)@[deg as int] as int, i as isize)
        } else {
            old(last)@
        }).update(i as int, EMPTY),
{
    let inext = head[deg];
    if inext != EMPTY {
        last[inext as usize] = i as isize;
    }
    next[i] = inext;
    last[i] = EMPTY;
    head[deg] = i as isize;
}

/// Removes variable `i`, the head of the degree list `deg`, from that list.
pub fn remove_head_from_degree_list(
    i: usize,
    n: usize,
    deg: usize,
    head: &mut [isize],
    last: &mut [isize],
    next: &mut [isize],
)
    requires
        i < old(next)@.len(),
        deg < old(head)@.len(),
        n <= old(last)@.len(),
        link_ok(old(next)@[i as int], n as int),
    ensures
        final(head)@ == old(head)@.update(deg as int, old(next)@[i as int]),
        final(next)@ == old(next)@,
        final(last)@ == (if old(next)@[i as int] != EMPTY {
            old(last)@.update(old(next)@[i as int] as int, EMPTY)
        } else {
            old(last)@
        }),
{
    let inext = next[i];
    if inext != EMPTY {
        last[inext as usize] = EMPTY;
    }
    head[deg] = inext;
}

/// Adding variable `i`, which is in no list, to the degree list `deg` and
/// unlinking it again gives the lists back: the heads are as they were, and
/// the links of every other variable are as they were (the old head's
/// predecessor link stays empty, as a head's is).
pub proof fn lemma_degree_list_round_trip(
    i: int,
    deg: int,
    h0: Seq<isize>,
    l0: Seq<isize>,
    x0: Seq<isize>,
    h1: Seq<isize>,
    l1: Seq<isize>,
    x1: Seq<isize>,
    h2: Seq<isize>,
    l2: Seq<isize>,
    x2: Seq<isize>,
)
    requires
        0 <= deg < h0.len(),
        0 <= i < l0.len(),
        0 <= i < x0.len(),
        h0[deg] != i,
        h0[deg] != EMPTY ==> 0 <= h0[deg] < l0.len() && l0[h0[deg] as int] == EMPTY,
        h1 == h0.update(deg, i as isize),
        x1 == x0.update(i, h0[deg]),
        l1 == (if h0[deg] != EMPTY { l0.update(h0[deg] as int, i as isize) } else { l0 }).update(i, EMPTY),
        l2 == (if x1[i] != EMPTY { l1.update(x1[i] as int, l1[i]) } else { l1 }),
        x2 == (if l1[i] != EMPTY { x1.update(l1[i] as int, x1[i]) } else { x1 }),
        h2 == (if l1[i] == EMPTY { h1.update(deg, x1[i]) } else { h1 }),
    ensures
        h2 == h0,
        l2.len() == l0.len(),
        x2.len() == x0.len(),
        forall|k: int| 0 <= k < l0.len() && k != i ==> #[trigger] l2[k] == l0[k],
        forall|k: int| 0 <= k < x0.len() && k != i ==> #[trigger] x2[k] == x0[k],
{
    assert(h2 =~= h0);
}

/// Unlinks variable `i` from the degree list `deg`, wherever it stands in it.
pub fn remove_from_degree_list(
    i: usize,
    n: usize,
    deg: usize,
    head: &mut [isize],
    last: &mut [isize],
    next: &mut [isize],
)
    requires
        i < old(next)@.len(),
        i < old(last)@.len(),
        n <= old(last)@.len(),
        n <= old(next)@.len(),
        link_ok(old(next)@[i as int], n as int),
        link_ok(old(last)@[i as int], n as int),
        old(last)@[i as int] == EMPTY ==> deg < old(head)@.len(),
    ensures
        final(last)@ == (if old(next)@[i as int] != EMPTY {
            old(last)@.update(old(next)@[i as int] as int, old(last)@[i as int])
        } else {
            old(last)@
        }),
        final(next)@ == (if old(last)@[i as int] != EMPTY {
            old(next)@.update(old(last)@[i as int] as int, old(next)@[i as int])
        } else {
            old(next)@
        }),
        final(head)@ == (if old(last)@[i as int] == EMPTY {
            old(head)@.update(deg as int, old(next)@[i as int])
        } else {
            old(head)@
        }),
{
    let inext = next[i];
    let ilast = last[i];
    if inext != EMPTY {
        last[inext as usize] = ilast;
    }
    if ilast != EMPTY {
        next[ilast as usize] = inext;
    } else {
        // i is at the head of the degree list
        head[deg] = inext;
    }
}

/// Temporarily uses the degree lists to hold hash buckets: variable `i` joins
/// the bucket `hash` (variables with the same incident elements and variables
/// get the same key), and its key is kept in `last[i]`.
pub fn add_hash_to_degree_list(
    i: usize,
    hash: usize,
    head: &mut [isize],
    last: &mut [isize],
    next: &mut [isize],
)
    requires
        i < old(next)@.len(),
        i < old(last)@.len(),
        i < isize::MAX,
        hash <= isize::MAX,
        hash < old(head)@.len(),
        old(head)@[hash as int] > isize::MIN,
        old(head)@[hash as int] > EMPTY ==> old(head)@[hash as int] < old(last)@.len(),
    ensures
        old(head)@[hash as int] <= EMPTY ==> {
            &&& final(next)@ == old(next)@.update(i as int, spec_flip(old(head)@[hash as int] as int) as isize)
            &&& final(head)@ == old(head)@.update(hash as int, spec_flip(i as int) as isize)
            &&& final(last)@ == old(last)@.update(i as int, hash as isize)
        },
        old(head)@[hash as int] > EMPTY ==> {
            let j = old(head)@[hash as int] as int;
            &&& final(next)@ == old(next)@.update(i as int, old(last)@[j])
            &&& final(head)@ == old(head)@
            &&& final(last)@ == old(last)@.update(j, i as isize).update(i as int, hash as isize)
        },
{
    let j = head[hash];
    if j <= EMPTY {
        // degree list is empty, hash head is FLIP (j)
        next[i] = flip(j);
        head[hash] = flip(i as isize);
    } else {
        // degree list is not empty, use Last[Head[hash]] as hash head.
        next[i] = last[j as usize];
        last[j as usize] = i as isize;
    }
    // store the hash key for i in Last[i]
    last[i] = hash as isize;
}

/// Finds the next supervariable for elimination: the head of the first
/// non-empty degree list at or above `mindeg`, which moves to that degree.
/// There is none when the lists from `mindeg` up to `n` are all empty, or
/// when the first non-empty one holds a negative head other than `EMPTY`.
pub fn get_pivot_of_minimum_degree(mindeg: &mut usize, n: usize, head: &[isize]) -> (me: Option<usize>)
    requires
        *old(mindeg) <= n <= head@.len(),
    ensures
        match me {
            Some(me) => {
                &&& *old(mindeg) <= *final(mindeg) < n
                &&& head@[*final(mindeg) as int] == me as isize
                &&& forall|d: int| *old(mindeg) <= d < *final(mindeg) ==> #[trigger] head@[d] == EMPTY
            },
            None => {
                ||| forall|d: int| *old(mindeg) <= d < n ==> #[trigger] head@[d] == EMPTY
                ||| exists|d: int|
                    *old(mindeg) <= d < n && head@[d] < EMPTY && forall|e: int| *old(mindeg) <= e < d ==> #[trigger] head@[e] == EMPTY
            },
        },
{
    let mut deg = *mindeg;
    while deg < n
        invariant
            *old(mindeg) <= deg <= n <= head@.len(),
            *mindeg == *old(mindeg),
            forall|d: int| *old(mindeg) <= d < deg ==> #[trigger] head@[d] == EMPTY,
        decreases n - deg,
    {
        let me = head[deg];
        if me != EMPTY {
            if me < EMPTY {
                proof {
                    assert(head@[deg as int] < EMPTY);
                }
                return None;
            }
            *mindeg = deg;
            return Some(me as usize);
        }
        deg = deg + 1;
    }
    None
}

/// Variable `i` of degree `len[i]` goes into a degree list: it is neither
/// empty (degree 0) nor dense (degree above `dense`).
pub open spec fn in_degree_list(len: Seq<usize>, dense: int, i: int) -> bool {
    0 < len[i] <= dense
}

/// Variable `i` takes part in the list of degree `d`.
pub open spec fn listed(len: Seq<usize>, dense: int, d: int, i: int) -> bool {
    in_degree_list(len, dense, i) && len[i] == d
}

/// The largest `i < j` in the list of degree `d`, or -1.
pub open spec fn listed_below(len: Seq<usize>, dense: int, d: int, j: int) -> int
    decreases j,
{
    if j <= 0 {
        -1
    } else if listed(len, dense, d, j - 1) {
        j - 1
    } else {
        listed_below(len, dense, d, j - 1)
    }
}

/// The smallest `i` in `[j, k)` in the list of degree `d`, or -1.
pub open spec fn listed_above(len: Seq<usize>, dense: int, d: int, j: int, k: int) -> int
    decreases k - j,
{
    if j >= k {
        -1
    } else if listed(len, dense, d, j) {
        j
    } else {
        listed_above(len, dense, d, j + 1, k)
    }
}

/// The number of `i < k` with `len[i]` above `dense`.
pub open spec fn count_dense(len: Seq<usize>, dense: int, k: int) -> nat
    decreases k,
{
    if k <= 0 {
        0
    } else {
        count_dense(len, dense, k - 1) + if len[k - 1] > dense {
            1nat
        } else {
            0nat
        }
    }
}

/// The number of `i < k` that are empty or dense.
pub open spec fn count_unlisted(len: Seq<usize>, dense: int, k: int) -> nat
    decreases k,
{
    if k <= 0 {
        0
    } else {
        count_unlisted(len, dense, k - 1) + if !in_degree_list(len, dense, k - 1) {
            1nat
        } else {
            0nat
        }
    }
}

proof fn lemma_listed_below(len: Seq<usize>, dense: int, d: int, j: int)
    requires
        j >= 0,
    ensures
        listed_below(len, dense, d, j) == -1 ==> forall|m: int| 0 <= m < j ==> !#[trigger] listed(len, dense, d, m),
        listed_below(len, dense, d, j) != -1 ==> {
            let b = listed_below(len, dense, d, j);
            &&& 0 <= b < j
            &&& listed(len, dense, d, b)
            &&& forall|m: int| b < m < j ==> !#[trigger] listed(len, dense, d, m)
        },
    decreases j,
{
    if j > 0 {
        lemma_listed_below(len, dense, d, j - 1);
    }
}

proof fn lemma_listed_above(len: Seq<usize>, dense: int, d: int, j: int, k: int)
    requires
        0 <= j <= k,
    ensures
        listed_above(len, dense, d, j, k) == -1 <==> forall|m: int| j <= m < k ==> !#[trigger] listed(len, dense, d, m),
        listed_above(len, dense, d, j, k + 1) == if listed_above(len, dense, d, j, k) != -1 {
            listed_above(len, dense, d, j, k)
        } else if listed(len, dense, d, k) {
            k
        } else {
            -1
        },
    decreases k - j,
{
    if j < k {
        lemma_listed_above(len, dense, d, j + 1, k);
        if !listed(len, dense, d, j) {
            assert(listed_above(len, dense, d, j, k) == listed_above(len, dense, d, j + 1, k));
            assert(listed_above(len, dense, d, j, k + 1) == listed_above(len, dense, d, j + 1, k + 1));
        }
    } else {
        assert(listed_above(len, dense, d, j + 1, k + 1) == -1);
    }
}

/// The state of the degree lists once variables `0..k` of the lengths `len`
/// have been placed: each list is a doubly-linked list through `next`/`last`
/// holding the listed variables of its degree, the latest first.
pub open spec fn degree_lists_built(
    len: Seq<usize>,
    dense: int,
    k: int,
    head: Seq<isize>,
    last: Seq<isize>,
    next: Seq<isize>,
) -> bool {
    &&& forall|d: int| 0 <= d < head.len() ==> #[trigger] head[d] == listed_below(len, dense, d, k)
    &&& forall|i: int|
        0 <= i < next.len() ==> #[trigger] next[i] == if i < k && in_degree_list(len, dense, i) {
            listed_below(len, dense, len[i] as int, i)
        } else {
            -1
        }
    &&& forall|i: int|
        0 <= i < last.len() ==> #[trigger] last[i] == if i < k && in_degree_list(len, dense, i) {
            listed_above(len, dense, len[i] as int, i + 1, k)
        } else {
            -1
        }
}

/// Sets every entry of `a` to `v`.
fn fill_isize(a: &mut [isize], v: isize)
    ensures
        final(a)@.len() == old(a)@.len(),
        forall|i: int| 0 <= i < final(a)@.len() ==> #[trigger] final(a)@[i] == v,
{
    let mut i: usize = 0;
    while i < a.len()
        invariant
            i <= a@.len(),
            a@.len() == old(a)@.len(),
            forall|j: int| 0 <= j < i ==> #[trigger] a@[j] == v,
        decreases a@.len() - i,
    {
        a[i] = v;
        i = i + 1;
    }
}

/// Sets up the AMD work arrays: every list empty, every supervariable simple,
/// nothing marked; then each variable by its degree `len[i]`: an empty one is
/// eliminated at once, a dense one is set aside unordered, and the others go
/// into the degree list of their degree.
/// Returns the number of variables eliminated or set aside, and the number
/// of dense ones.
pub fn initialize_amd(
    n: usize,
    control: &AmdControl,
    last: &mut [isize],
    head: &mut [isize],
    next: &mut [isize],
    nv: &mut [isize],
    w: &mut [isize],
    elen: &mut [isize],
    degree: &mut [isize],
    len: &mut [usize],
    pe: &mut [isize],
) -> (r: (usize, usize))
    requires
        n <= isize::MAX,
        n <= old(last)@.len(),
        n <= old(head)@.len(),
        n <= old(next)@.len(),
        n <= old(nv)@.len(),
        n <= old(w)@.len(),
        n <= old(elen)@.len(),
        n <= old(degree)@.len(),
        n <= old(len)@.len(),
        n <= old(pe)@.len(),
        forall|i: int| 0 <= i < n ==> #[trigger] old(len)@[i] < n,
    ensures
        ({
            let dense = control.get_dense_spec(n as int);
            let lens = old(len)@;
            &&& degree_lists_built(lens, dense, n as int, final(head)@, final(last)@, final(next)@)
            &&& final(head)@.len() == old(head)@.len()
            &&& final(last)@.len() == old(last)@.len()
            &&& final(next)@.len() == old(next)@.len()
            &&& final(nv)@.len() == old(nv)@.len()
            &&& final(w)@.len() == old(w)@.len()
            &&& final(elen)@.len() == old(elen)@.len()
            &&& final(degree)@.len() == old(degree)@.len()
            &&& final(pe)@.len() == old(pe)@.len()
            &&& final(len)@ == old(len)@
            &&& forall|i: int| 0 <= i < final(nv)@.len() ==> #[trigger] final(nv)@[i] == if i < n && lens[i] > dense { 0isize } else { 1isize }
            &&& forall|i: int| 0 <= i < final(w)@.len() ==> #[trigger] final(w)@[i] == if i < n && lens[i] == 0 { 0isize } else { 1isize }
            &&& forall|i: int|
                0 <= i < final(elen)@.len() ==> #[trigger] final(elen)@[i] == if i < n && lens[i] == 0 {
                    spec_flip(1)
                } else if i < n && lens[i] > dense {
                    EMPTY as int
                } else {
                    0
                }
            &&& forall|i: int|
                0 <= i < final(pe)@.len() ==> #[trigger] final(pe)@[i] == if i < n && !in_degree_list(lens, dense, i) {
                    EMPTY
                } else {
                    old(pe)@[i]
                }
            &&& forall|i: int|
                0 <= i < final(degree)@.len() ==> #[trigger] final(degree)@[i] == if i < n { lens[i] as isize } else { old(degree)@[i] }
            &&& r.0 == count_unlisted(lens, dense, n as int)
            &&& r.1 == count_dense(lens, dense, n as int)
        }),
{
    // all lists are empty at the start
    fill_isize(last, EMPTY);
    fill_isize(head, EMPTY);
    fill_isize(next, EMPTY);
    // the size of all supervariables at the start is just 1 (simple variable)
    fill_isize(nv, 1);
    // no variables have been marked yet
    fill_isize(w, 1);
    // no variables are part of elements at the start
    fill_isize(elen, 0);
    // number of eliminated variables
    let mut nel: usize = 0;
    // number of dense rows
    let mut ndense: usize = 0;
    let dense = control.get_dense(n);
    let ghost lens = len@;
    let ghost d = dense as int;
    let ghost pe0 = pe@;
    let ghost degree0 = degree@;
    proof {
        assert(degree_lists_built(lens, d, 0, head@, last@, next@));
    }
    let mut i: usize = 0;
    while i < n
        invariant
            i <= n <= isize::MAX,
            d == dense,
            d == control.get_dense_spec(n as int),
            len@ == lens,
            n <= last@.len() && n <= head@.len() && n <= next@.len() && n <= nv@.len(),
            n <= w@.len() && n <= elen@.len() && n <= degree@.len() && n <= lens.len() && n <= pe@.len(),
            forall|j: int| 0 <= j < n ==> #[trigger] lens[j] < n,
            degree_lists_built(lens, d, i as int, head@, last@, next@),
            head@.len() == old(head)@.len(),
            last@.len() == old(last)@.len(),
            next@.len() == old(next)@.len(),
            nv@.len() == old(nv)@.len(),
            w@.len() == old(w)@.len(),
            elen@.len() == old(elen)@.len(),
            degree@.len() == old(degree)@.len(),
            pe@.len() == old(pe)@.len(),
            pe0 == old(pe)@,
            degree0 == old(degree)@,
            forall|j: int| 0 <= j < nv@.len() ==> #[trigger] nv@[j] == if j < i && lens[j] > d { 0isize } else { 1isize },
            forall|j: int| 0 <= j < w@.len() ==> #[trigger] w@[j] == if j < i && lens[j] == 0 { 0isize } else { 1isize },
            forall|j: int|
                0 <= j < elen@.len() ==> #[trigger] elen@[j] == if j < i && lens[j] == 0 {
                    spec_flip(1)
                } else if j < i && lens[j] > d {
                    EMPTY as int
                } else {
                    0
                },
            forall|j: int|
                0 <= j < pe@.len() ==> #[trigger] pe@[j] == if j < i && !in_degree_list(lens, d, j) {
                    EMPTY
                } else {
                    pe0[j]
                },
            forall|j: int| 0 <= j < degree@.len() ==> #[trigger] degree@[j] == if j < i { lens[j] as isize } else { degree0[j] },
            nel == count_unlisted(lens, d, i as int),
            ndense == count_dense(lens, d, i as int),
            nel <= i,
            ndense <= i,
        decreases n - i,
    {
        let ghost h0 = head@;
        let ghost l0 = last@;
        let ghost n0 = next@;
        degree[i] = len[i] as isize;
        let deg = len[i];
        if deg == 0 {
            // a variable with no off-diagonal non-zero in its row can be
            // eliminated at once; it is treated just like an eliminated element
            elen[i] = flip(1);
            nv[i] = 1;
            nel = nel + 1;
            pe[i] = EMPTY;
            w[i] = 0;
        } else if deg > dense {
            // dense variable: an unordered non-principal variable with no parent
            ndense = ndense + 1;
            nv[i] = 0;
            elen[i] = EMPTY;
            nel = nel + 1;
            pe[i] = EMPTY;
        } else {
            // place i in the degree list corresponding to its degree
            proof {
                lemma_listed_below(lens, d, deg as int, i as int);
                assert(head@[deg as int] == listed_below(lens, d, deg as int, i as int));
            }
            add_to_degree_list(i, n, deg, head, last, next);
        }
        proof {
            if deg == 0 || deg > dense {
                lemma_lists_skip(lens, d, i as int, head@, last@, next@);
            } else {
                lemma_lists_add(lens, d, i as int, h0, l0, n0);
            }
        }
        i = i + 1;
    }
    (nel, ndense)
}

proof fn lemma_lists_skip(len: Seq<usize>, dense: int, i: int, head: Seq<isize>, last: Seq<isize>, next: Seq<isize>)
    requires
        0 <= i,
        degree_lists_built(len, dense, i, head, last, next),
        !in_degree_list(len, dense, i),
    ensures
        degree_lists_built(len, dense, i + 1, head, last, next),
{
    assert forall|d: int| 0 <= d < head.len() implies #[trigger] head[d] == listed_below(len, dense, d, i + 1) by {
        assert(!listed(len, dense, d, i));
    }
    assert forall|j: int| 0 <= j < last.len() implies #[trigger] last[j] == if j < i + 1 && in_degree_list(len, dense, j) {
        listed_above(len, dense, len[j] as int, j + 1, i + 1)
    } else {
        -1
    } by {
        if j < i && in_degree_list(len, dense, j) {
            lemma_listed_above(len, dense, len[j] as int, j + 1, i);
        }
    }
}

proof fn lemma_lists_add(len: Seq<usize>, dense: int, i: int, head: Seq<isize>, last: Seq<isize>, next: Seq<isize>)
    requires
        0 <= i,
        degree_lists_built(len, dense, i, head, last, next),
        in_degree_list(len, dense, i),
        len[i] < head.len(),
        i < next.len(),
        i < last.len(),
        i <= isize::MAX,
        head[len[i] as int] != EMPTY ==> 0 <= head[len[i] as int] < last.len(),
    ensures
        ({
            let d = len[i] as int;
            let h = head[d];
            degree_lists_built(
                len,
                dense,
                i + 1,
                head.update(d, i as isize),
                (if h != EMPTY {
                    last.update(h as int, i as isize)
                } else {
                    last
                }).update(i, EMPTY),
                next.update(i, h),
            )
        }),
{
    let d = len[i] as int;
    let h = head[d];
    let head1 = head.update(d, i as isize);
    let last1 = (if h != EMPTY {
        last.update(h as int, i as isize)
    } else {
        last
    }).update(i, EMPTY);
    let next1 = next.update(i, h);
    lemma_listed_below(len, dense, d, i);
    assert forall|e: int| 0 <= e < head1.len() implies #[trigger] head1[e] == listed_below(len, dense, e, i + 1) by {
        if e != d {
            assert(!listed(len, dense, e, i));
        }
    }
    assert forall|j: int| 0 <= j < next1.len() implies #[trigger] next1[j] == if j < i + 1 && in_degree_list(len, dense, j) {
        listed_below(len, dense, len[j] as int, j)
    } else {
        -1
    } by {
        if j != i {
            assert(next1[j] == next[j]);
        }
    }
    assert forall|j: int| 0 <= j < last1.len() implies #[trigger] last1[j] == if j < i + 1 && in_degree_list(len, dense, j) {
        listed_above(len, dense, len[j] as int, j + 1, i + 1)
    } else {
        -1
    } by {
        if j < i && in_degree_list(len, dense, j) {
            let dj = len[j] as int;
            lemma_listed_above(len, dense, dj, j + 1, i);
            if dj == d {
                if j == h {
                    assert(forall|m: int| h < m < i ==> !#[trigger] listed(len, dense, d, m));
                    assert(listed_above(len, dense, d, j + 1, i) == -1);
                } else {
                    // j is below the last listed variable h of degree d, which lies in (j, i)
                    assert(listed(len, dense, d, j));
                    if h == EMPTY {
                        assert(forall|m: int| 0 <= m < i ==> !#[trigger] listed(len, dense, d, m));
                    } else {
                        assert(forall|m: int| h < m < i ==> !#[trigger] listed(len, dense, d, m));
                    }
                    assert(j < h);
                    assert(listed(len, dense, d, h as int));
                    assert(listed_above(len, dense, d, j + 1, i) != -1);
                    assert(last1[j] == last[j]);
                }
            } else {
                assert(!listed(len, dense, dj, i));
                if h != EMPTY {
                    assert(j != h);
                }
                assert(last1[j] == last[j]);
            }
        } else if j > i {
            assert(last1[j] == last[j]);
        } else if j < i {
            if h != EMPTY {
                assert(j != h);
            }
            assert(last1[j] == last[j]);
        }
    }
}

} // verus!
