use vstd::prelude::*;

use crate::solver::amd::add_hash_to_degree_list;
use crate::solver::amd::clear_flag;
use crate::solver::amd::get_pivot_of_minimum_degree;
use crate::solver::amd::initialize_amd;
use crate::solver::amd::count_unlisted;
use crate::solver::amd::count_dense;
use crate::solver::amd::AmdControl;
use crate::solver::amd::add_to_degree_list;
use crate::solver::amd::link_ok;
use crate::solver::amd::remove_from_degree_list;
use crate::solver::amd::remove_head_from_degree_list;
use crate::solver::utils::flip;
use crate::solver::utils::inverse_permutation;
use crate::solver::utils::is_permutation;
use crate::solver::utils::spec_flip;
use crate::solver::utils::EMPTY;

verus! {

// The elimination steps of the approximate minimum degree ordering, on the
// quotient graph held in `iw` (see `amd`). Every index read from the work
// arrays is checked before it is used: an index or a count out of range
// stops the ordering with `AmdError::Inconsistent` rather than a panic.

/// The work arrays of the ordering hold an index or a count out of range,
/// or a count overflows.
#[derive(Debug, Clone, Copy, PartialEq, Eq, Structural)]
pub enum AmdError {
    Inconsistent,
}

/// `a[i]`.
fn at(a: &[isize], i: usize) -> (r: Result<isize, AmdError>)
    ensures
        r is Ok <==> i < a@.len(),
        r matches Ok(v) ==> v == a@[i as int],
{
    if i < a.len() {
        Ok(a[i])
    } else {
        Err(AmdError::Inconsistent)
    }
}

/// `a[i]`.
fn at_len(a: &[usize], i: usize) -> (r: Result<usize, AmdError>)
    ensures
        r is Ok <==> i < a@.len(),
        r matches Ok(v) ==> v == a@[i as int],
{
    if i < a.len() {
        Ok(a[i])
    } else {
        Err(AmdError::Inconsistent)
    }
}

/// `a[i] = v`.
fn set(a: &mut [isize], i: usize, v: isize) -> (r: Result<(), AmdError>)
    ensures
        r is Ok <==> i < old(a)@.len(),
        r is Ok ==> final(a)@ == old(a)@.update(i as int, v),
        r is Err ==> final(a)@ == old(a)@,
{
    if i < a.len() {
        a[i] = v;
        Ok(())
    } else {
        Err(AmdError::Inconsistent)
    }
}

/// `a[i] = v`.
fn set_len(a: &mut [usize], i: usize, v: usize) -> (r: Result<(), AmdError>)
    ensures
        r is Ok <==> i < old(a)@.len(),
        r is Ok ==> final(a)@ == old(a)@.update(i as int, v),
        r is Err ==> final(a)@ == old(a)@,
{
    if i < a.len() {
        a[i] = v;
        Ok(())
    } else {
        Err(AmdError::Inconsistent)
    }
}

/// `v` as an index below `n`.
fn idx(v: isize, n: usize) -> (r: Result<usize, AmdError>)
    ensures
        r is Ok <==> 0 <= v < n,
        r matches Ok(i) ==> i == v,
{
    if v >= 0 && (v as usize) < n {
        Ok(v as usize)
    } else {
        Err(AmdError::Inconsistent)
    }
}

/// `v` as a position (`v >= 0`).
fn ux(v: isize) -> (r: Result<usize, AmdError>)
    ensures
        r is Ok <==> v >= 0,
        r matches Ok(i) ==> i == v,
{
    if v >= 0 {
        Ok(v as usize)
    } else {
        Err(AmdError::Inconsistent)
    }
}

/// `v` as a signed value.
fn sx(v: usize) -> (r: Result<isize, AmdError>)
    ensures
        r is Ok <==> v <= isize::MAX,
        r matches Ok(i) ==> i == v,
{
    if v <= isize::MAX as usize {
        Ok(v as isize)
    } else {
        Err(AmdError::Inconsistent)
    }
}

/// `a + b`.
fn add_i(a: isize, b: isize) -> (r: Result<isize, AmdError>)
    ensures
        r is Ok <==> isize::MIN <= a + b <= isize::MAX,
        r matches Ok(v) ==> v == a + b,
{
    match a.checked_add(b) {
        Some(v) => Ok(v),
        None => Err(AmdError::Inconsistent),
    }
}

/// `a - b`.
fn sub_i(a: isize, b: isize) -> (r: Result<isize, AmdError>)
    ensures
        r is Ok <==> isize::MIN <= a - b <= isize::MAX,
        r matches Ok(v) ==> v == a - b,
{
    match a.checked_sub(b) {
        Some(v) => Ok(v),
        None => Err(AmdError::Inconsistent),
    }
}

/// `a + b`.
fn add_u(a: usize, b: usize) -> (r: Result<usize, AmdError>)
    ensures
        r is Ok <==> a + b <= usize::MAX,
        r matches Ok(v) ==> v == a + b,
{
    match a.checked_add(b) {
        Some(v) => Ok(v),
        None => Err(AmdError::Inconsistent),
    }
}

/// `a - b`.
fn sub_u(a: usize, b: usize) -> (r: Result<usize, AmdError>)
    ensures
        r is Ok <==> a >= b,
        r matches Ok(v) ==> v == a - b,
{
    if a >= b {
        Ok(a - b)
    } else {
        Err(AmdError::Inconsistent)
    }
}

/// `flip(v)`.
fn fl(v: isize) -> (r: Result<isize, AmdError>)
    ensures
        r is Ok <==> isize::MIN < v < isize::MAX,
        r matches Ok(x) ==> x == spec_flip(v as int),
{
    if v > isize::MIN && v < isize::MAX {
        Ok(flip(v))
    } else {
        Err(AmdError::Inconsistent)
    }
}

/// `x` is `EMPTY` or an index below `n`.
fn link_in(x: isize, n: usize) -> (r: bool)
    requires
        n <= isize::MAX,
    ensures
        r == (-1 <= x < n),
{
    x >= -1 && x < n as isize
}

/// `remove_from_degree_list`, when its lists are in range.
fn unlink(i: usize, n: usize, deg: usize, head: &mut [isize], last: &mut [isize], next: &mut [isize]) -> (r: Result<(), AmdError>)
    requires
        n <= isize::MAX,
    ensures
        r is Ok <==> (i < old(next)@.len() && i < old(last)@.len() && n <= old(last)@.len() && n <= old(next)@.len()
            && link_ok(old(next)@[i as int], n as int) && link_ok(old(last)@[i as int], n as int) && (old(last)@[i as int]
            != EMPTY || deg < old(head)@.len())),
        r is Ok ==> final(last)@ == (if old(next)@[i as int] != EMPTY {
            old(last)@.update(old(next)@[i as int] as int, old(last)@[i as int])
        } else {
            old(last)@
        }),
        r is Ok ==> final(next)@ == (if old(last)@[i as int] != EMPTY {
            old(next)@.update(old(last)@[i as int] as int, old(next)@[i as int])
        } else {
            old(next)@
        }),
        r is Ok ==> final(head)@ == (if old(last)@[i as int] == EMPTY {
            old(head)@.update(deg as int, old(next)@[i as int])
        } else {
            old(head)@
        }),
        r is Err ==> final(head)@ == old(head)@ && final(last)@ == old(last)@ && final(next)@ == old(next)@,
{
    if i < next.len() && i < last.len() && n <= last.len() && n <= next.len() && link_in(next[i], n) && link_in(last[i], n) && (
    last[i] != EMPTY || deg < head.len()) {
        remove_from_degree_list(i, n, deg, head, last, next);
        Ok(())
    } else {
        Err(AmdError::Inconsistent)
    }
}

/// `add_to_degree_list`, when its lists are in range.
fn link(i: usize, n: usize, deg: usize, head: &mut [isize], last: &mut [isize], next: &mut [isize]) -> (r: Result<(), AmdError>)
    requires
        n <= isize::MAX,
    ensures
        r is Ok <==> (i < n && deg < old(head)@.len() && n <= old(last)@.len() && i < old(next)@.len() && link_ok(
            old(head)@[deg as int],
            n as int,
        )),
        r is Ok ==> final(head)@ == old(head)@.update(deg as int, i as isize),
        r is Ok ==> final(next)@ == old(next)@.update(i as int, old(head)@[deg as int]),
        r is Ok ==> final(last)@ == (if old(head)@[deg as int] != EMPTY {
            old(last)@.update(old(head)@[deg as int] as int, i as isize)
        } else {
            old(last)@
        }).update(i as int, EMPTY),
        r is Err ==> final(head)@ == old(head)@ && final(last)@ == old(last)@ && final(next)@ == old(next)@,
{
    if i < n && deg < head.len() && n <= last.len() && i < next.len() && link_in(head[deg], n) {
        add_to_degree_list(i, n, deg, head, last, next);
        Ok(())
    } else {
        Err(AmdError::Inconsistent)
    }
}

/// `remove_head_from_degree_list`, when its lists are in range.
fn unlink_head(i: usize, n: usize, deg: usize, head: &mut [isize], last: &mut [isize], next: &mut [isize]) -> (r: Result<(), AmdError>)
    requires
        n <= isize::MAX,
    ensures
        r is Ok <==> (i < old(next)@.len() && deg < old(head)@.len() && n <= old(last)@.len() && link_ok(
            old(next)@[i as int],
            n as int,
        )),
        r is Ok ==> final(head)@ == old(head)@.update(deg as int, old(next)@[i as int]),
        r is Ok ==> final(last)@ == (if old(next)@[i as int] != EMPTY {
            old(last)@.update(old(next)@[i as int] as int, EMPTY)
        } else {
            old(last)@
        }),
        final(next)@ == old(next)@,
        r is Err ==> final(head)@ == old(head)@ && final(last)@ == old(last)@,
{
    if i < next.len() && deg < head.len() && n <= last.len() && link_in(next[i], n) {
        remove_head_from_degree_list(i, n, deg, head, last, next);
        Ok(())
    } else {
        Err(AmdError::Inconsistent)
    }
}

/// `add_hash_to_degree_list`, when its lists are in range.
fn link_hash(i: usize, hash: usize, head: &mut [isize], last: &mut [isize], next: &mut [isize]) -> (r: Result<(), AmdError>)
    ensures
        r is Ok <==> (i < old(next)@.len() && i < old(last)@.len() && i < isize::MAX && hash <= isize::MAX && hash
            < old(head)@.len() && old(head)@[hash as int] > isize::MIN && (old(head)@[hash as int] <= EMPTY || old(
            head,
        )@[hash as int] < old(last)@.len())),
        r is Ok && old(head)@[hash as int] <= EMPTY ==> {
            &&& final(next)@ == old(next)@.update(i as int, spec_flip(old(head)@[hash as int] as int) as isize)
            &&& final(head)@ == old(head)@.update(hash as int, spec_flip(i as int) as isize)
            &&& final(last)@ == old(last)@.update(i as int, hash as isize)
        },
        r is Ok && old(head)@[hash as int] > EMPTY ==> {
            let j = old(head)@[hash as int] as int;
            &&& final(next)@ == old(next)@.update(i as int, old(last)@[j])
            &&& final(head)@ == old(head)@
            &&& final(last)@ == old(last)@.update(j, i as isize).update(i as int, hash as isize)
        },
        r is Err ==> final(head)@ == old(head)@ && final(last)@ == old(last)@ && final(next)@ == old(next)@,
{
    if i < next.len() && i < last.len() && i < isize::MAX as usize && hash <= isize::MAX as usize && hash < head.len()
        && head[hash] > isize::MIN && (head[hash] <= EMPTY || (head[hash] as usize) < last.len()) {
        add_hash_to_degree_list(i, hash, head, last, next);
        Ok(())
    } else {
        Err(AmdError::Inconsistent)
    }
}

/// Each list start `pe[j] >= 0`, `j` in `j..n`, is marked in `iw` by the
/// flipped owner, its first entry kept in `pe[j]`.
pub open spec fn mark_lists(pe: Seq<isize>, iw: Seq<isize>, j: int, n: int) -> Option<(Seq<isize>, Seq<isize>)>
    decreases n - j,
{
    if j >= n {
        Some((pe, iw))
    } else if j >= pe.len() {
        None
    } else if pe[j] >= 0 {
        let pn = pe[j] as int;
        if pn >= iw.len() || j >= isize::MAX {
            None
        } else {
            mark_lists(pe.update(j, iw[pn]), iw.update(pn, spec_flip(j) as isize), j + 1, n)
        }
    } else {
        mark_lists(pe, iw, j + 1, n)
    }
}

/// `iw[pdst..]` gets `iw[psrc..]`, `cnt` entries, one by one.
pub open spec fn copy_entries(iw: Seq<isize>, psrc: int, pdst: int, cnt: int) -> Option<Seq<isize>>
    decreases cnt,
{
    if cnt <= 0 {
        Some(iw)
    } else if psrc >= iw.len() || pdst >= iw.len() || psrc + 1 > usize::MAX || pdst + 1 > usize::MAX {
        None
    } else {
        copy_entries(iw.update(pdst, iw[psrc]), psrc + 1, pdst + 1, cnt - 1)
    }
}

/// The marked lists before `pme1` moved to the front of `iw`, in turn, from
/// `psrc` to `pdst`; each owner's `pe` points at its new place. Gives `pe`,
/// `iw` and the end of the moved lists.
pub open spec fn move_lists(pe: Seq<isize>, iw: Seq<isize>, len: Seq<usize>, psrc: int, pdst: int, pme1: int) -> Option<(Seq<isize>, Seq<isize>, int)>
    decreases (if psrc < pme1 { pme1 - psrc } else { 0 }),
{
    if psrc >= pme1 {
        Some((pe, iw, pdst))
    } else if psrc >= iw.len() || iw[psrc] == isize::MIN || iw[psrc] == isize::MAX {
        None
    } else {
        let j = spec_flip(iw[psrc] as int);
        if j >= 0 {
            if j >= pe.len() || pdst >= iw.len() || pdst > isize::MAX || pdst + 1 > usize::MAX || j >= len.len() {
                None
            } else {
                let rest = if len[j] > 1 { len[j] - 1 } else { 0 };
                match copy_entries(iw.update(pdst, pe[j]), psrc + 1, pdst + 1, rest) {
                    None => None,
                    Some(iw2) => move_lists(pe.update(j, pdst as isize), iw2, len, psrc + 1 + rest, pdst + 1 + rest, pme1),
                }
            }
        } else {
            move_lists(pe, iw, len, psrc + 1, pdst, pme1)
        }
    }
}

/// The state of building `Lme` from the lists of `me` and its elements.
pub struct LmeState {
    pub pme1: int,
    pub p: int,
    pub pj: int,
    pub degme: int,
    pub pfree: int,
    pub nv: Seq<isize>,
    pub pe: Seq<isize>,
    pub len: Seq<usize>,
    pub iw: Seq<isize>,
    pub head: Seq<isize>,
    pub last: Seq<isize>,
    pub next: Seq<isize>,
}

/// The state made of the given positions, counts and arrays.
pub open spec fn lme_of(
    pme1: int,
    p: int,
    pj: int,
    degme: int,
    pfree: int,
    nv: Seq<isize>,
    pe: Seq<isize>,
    len: Seq<usize>,
    iw: Seq<isize>,
    head: Seq<isize>,
    last: Seq<isize>,
    next: Seq<isize>,
) -> LmeState {
    LmeState { pme1, p, pj, degme, pfree, nv, pe, len, iw, head, last, next }
}

/// The garbage collection of `iw` while the list of element `e` (the
/// `knt2`-th of `ln` entries read) and that of `me` (`knt1` read) are being
/// searched: both keep their remaining entries, all lists are moved to the
/// front, then the part of `Lme` built so far after them.
pub open spec fn compact(s: LmeState, e: int, me: int, knt1: int, knt2: int, ln: int, n: int) -> Option<LmeState> {
    if s.p > isize::MAX || me >= s.pe.len() || me >= s.len.len() || s.len[me] < knt1 || s.pj > isize::MAX || e >= s.pe.len()
        || e >= s.len.len() || ln < knt2 {
        None
    } else {
        let len_me = s.len[me] - knt1;
        let pe1 = s.pe.update(me, s.p as isize);
        let pe2 = if len_me == 0 { pe1.update(me, EMPTY) } else { pe1 };
        let len1 = s.len.update(me, len_me as usize);
        let len_e = ln - knt2;
        let pe3 = pe2.update(e, s.pj as isize);
        let pe4 = if len_e == 0 { pe3.update(e, EMPTY) } else { pe3 };
        let len2 = len1.update(e, len_e as usize);
        match mark_lists(pe4, s.iw, 0, n) {
            None => None,
            Some(m) => match move_lists(m.0, m.1, len2, 0, 0, s.pme1) {
                None => None,
                Some(mv) => {
                    let cnt = if s.pfree > s.pme1 { s.pfree - s.pme1 } else { 0 };
                    match copy_entries(mv.1, s.pme1, mv.2, cnt) {
                        None => None,
                        Some(iw3) => Some(LmeState {
                            pme1: mv.2,
                            pfree: mv.2 + cnt,
                            pj: (mv.0[e] as usize) as int,
                            p: (mv.0[me] as usize) as int,
                            pe: mv.0,
                            len: len2,
                            iw: iw3,
                            ..s
                        }),
                    }
                },
            },
        }
    }
}

/// The entry `iw[pj]` (the `k`-th of `ln`) of the list searched: a principal
/// supervariable (`nv > 0`) joins `Lme` at `iw[pfree]` (after a garbage
/// collection when `iw` is full), with its size negated and counted into
/// `degme`, and leaves its degree list.
pub open spec fn lme_step(s: LmeState, e: int, me: int, knt1: int, k: int, ln: int, iwlen: int, degree: Seq<isize>, n: int) -> Option<LmeState> {
    if s.pj >= s.iw.len() || s.iw[s.pj] < 0 || s.iw[s.pj] >= n || s.pj + 1 > usize::MAX || s.iw[s.pj] >= s.nv.len() {
        None
    } else {
        let i = s.iw[s.pj] as int;
        let s0 = LmeState { pj: s.pj + 1, ..s };
        let nvi = s.nv[i] as int;
        if nvi <= 0 {
            Some(s0)
        } else {
            let c = if s0.pfree >= iwlen { compact(s0, e, me, knt1, k + 1, ln, n) } else { Some(s0) };
            match c {
                None => None,
                Some(s1) => if s1.degme + nvi > usize::MAX || s1.pfree >= s1.iw.len() || s1.pfree + 1 > usize::MAX || i >= degree.len() {
                    None
                } else {
                    let deg = (degree[i] as usize) as int;
                    let nxt = s1.next;
                    let lst = s1.last;
                    let hd = s1.head;
                    if !(i < nxt.len() && i < lst.len() && n <= lst.len() && n <= nxt.len() && -1 <= nxt[i] < n && -1 <= lst[i] < n && (
                    lst[i] != EMPTY || deg < hd.len())) {
                        None
                    } else {
                        Some(LmeState {
                            degme: s1.degme + nvi,
                            nv: s1.nv.update(i, (-nvi) as isize),
                            iw: s1.iw.update(s1.pfree, i as isize),
                            pfree: s1.pfree + 1,
                            last: if nxt[i] != EMPTY { lst.update(nxt[i] as int, lst[i]) } else { lst },
                            next: if lst[i] != EMPTY { nxt.update(lst[i] as int, nxt[i]) } else { nxt },
                            head: if lst[i] == EMPTY { hd.update(deg, nxt[i]) } else { hd },
                            ..s1
                        })
                    }
                },
            }
        }
    }
}

/// The entries `k..ln` of the list searched, in turn.
pub open spec fn lme_all(s: LmeState, e: int, me: int, knt1: int, k: int, ln: int, iwlen: int, degree: Seq<isize>, n: int) -> Option<LmeState>
    decreases ln - k,
{
    if k >= ln {
        Some(s)
    } else {
        match lme_step(s, e, me, knt1, k, ln, iwlen, degree, n) {
            None => None,
            Some(s2) => lme_all(s2, e, me, knt1, k + 1, ln, iwlen, degree, n),
        }
    }
}

/// Adds the principal supervariables of the list `iw[pj..pj + ln]` (of
/// element `e`, or of `me` itself) to the new element `Lme`, built at
/// `iw[pme1..pfree]`: each is marked by negating `nv`, counted into `degme`
/// and taken out of its degree list. When `iw` is full, it is compacted
/// first (garbage collection) and the pointers moved along.
fn add_neighboring_supervariables_to_pivot(
    e: usize,
    pme1: &mut usize,
    knt1: usize,
    ln: usize,
    p: &mut usize,
    pj: &mut usize,
    degme: &mut usize,
    pfree: &mut usize,
    n: usize,
    me: usize,
    iwlen: usize,
    nv: &mut [isize],
    pe: &mut [isize],
    len: &mut [usize],
    iw: &mut [isize],
    head: &mut [isize],
    last: &mut [isize],
    next: &mut [isize],
    degree: &mut [isize],
) -> (r: Result<(), AmdError>)
    requires
        n <= isize::MAX,
    ensures
        final(degree)@ == old(degree)@,
        r is Ok <==> lme_all(lme_of(*old(pme1) as int, *old(p) as int, *old(pj) as int, *old(degme) as int, *old(pfree) as int, old(nv)@, old(pe)@, old(len)@, old(iw)@, old(head)@, old(last)@, old(next)@), e as int, me as int, knt1 as int, 0, ln as int, iwlen as int, old(degree)@, n as int) is Some,
        r is Ok ==> lme_all(lme_of(*old(pme1) as int, *old(p) as int, *old(pj) as int, *old(degme) as int, *old(pfree) as int, old(nv)@, old(pe)@, old(len)@, old(iw)@, old(head)@, old(last)@, old(next)@), e as int, me as int, knt1 as int, 0, ln as int, iwlen as int, old(degree)@, n as int) == Some(lme_of(*final(pme1) as int, *final(p) as int, *final(pj) as int, *final(degme) as int, *final(pfree) as int, final(nv)@, final(pe)@, final(len)@, final(iw)@, final(head)@, final(last)@, final(next)@)),
{
    let ghost full = lme_all(lme_of(*pme1 as int, *p as int, *pj as int, *degme as int, *pfree as int, nv@, pe@, len@, iw@, head@, last@, next@), e as int, me as int, knt1 as int, 0, ln as int, iwlen as int, degree@, n as int);
    let mut k: usize = 0;
    while k < ln
        invariant
            n <= isize::MAX,
            full == lme_all(lme_of(*pme1 as int, *p as int, *pj as int, *degme as int, *pfree as int, nv@, pe@, len@, iw@, head@, last@, next@), e as int, me as int, knt1 as int, k as int, ln as int, iwlen as int, degree@, n as int),
            full == lme_all(lme_of(*old(pme1) as int, *old(p) as int, *old(pj) as int, *old(degme) as int, *old(pfree) as int, old(nv)@, old(pe)@, old(len)@, old(iw)@, old(head)@, old(last)@, old(next)@), e as int, me as int, knt1 as int, 0, ln as int, iwlen as int, old(degree)@, n as int),
            degree@ == old(degree)@,
        decreases ln - k,
    {
        let ghost sb = lme_of(*pme1 as int, *p as int, *pj as int, *degme as int, *pfree as int, nv@, pe@, len@, iw@, head@, last@, next@);
        let knt2 = k + 1;
        let i = idx(at(iw, *pj)?, n)?;
        *pj = add_u(*pj, 1)?;
        let nvi = at(nv, i)?;
        // if we have already seen this supervariable
        // or it is not a principal variable, skip it
        if nvi > 0 {
            // compress iw, if necessary
            let ghost s0 = lme_of(*pme1 as int, *p as int, *pj as int, *degme as int, *pfree as int, nv@, pe@, len@, iw@, head@, last@, next@);
            if *pfree >= iwlen {
                proof {
                    assert(compact(s0, e as int, me as int, knt1 as int, knt2 as int, ln as int, n as int) is None ==> full is None);
                }
                // the lists being searched keep only their remaining entries
                set(pe, me, sx(*p)?)?;
                let len_me = sub_u(at_len(len, me)?, knt1)?;
                set_len(len, me, len_me)?;
                if len_me == 0 {
                    set(pe, me, EMPTY)?;
                }
                set(pe, e, sx(*pj)?)?;
                let len_e = sub_u(ln, knt2)?;
                set_len(len, e, len_e)?;
                // nothing left of element e
                if len_e == 0 {
                    set(pe, e, EMPTY)?;
                }
                // mark the start of each list by its flipped owner
                let ghost ml = mark_lists(pe@, iw@, 0, n as int);
                let ghost len2 = len@;
                proof {
                    let len_me = s0.len[me as int] - knt1;
                    let pe1 = s0.pe.update(me as int, s0.p as isize);
                    let pe2 = if len_me == 0 { pe1.update(me as int, EMPTY) } else { pe1 };
                    let len1 = s0.len.update(me as int, len_me as usize);
                    let len_e = ln - knt2;
                    let pe3 = pe2.update(e as int, s0.pj as isize);
                    let pe4 = if len_e == 0 { pe3.update(e as int, EMPTY) } else { pe3 };
                    assert(pe@ == pe4);
                    assert(len@ == len1.update(e as int, len_e as usize));
                    assert(iw@ == s0.iw);
                    assert(ml is None ==> full is None);
                }
                let mut j: usize = 0;
                while j < n
                    invariant
                        n <= isize::MAX,
                        ml == mark_lists(pe@, iw@, j as int, n as int),
                        ml is None ==> full is None,
                        full == lme_all(lme_of(*old(pme1) as int, *old(p) as int, *old(pj) as int, *old(degme) as int, *old(pfree) as int, old(nv)@, old(pe)@, old(len)@, old(iw)@, old(head)@, old(last)@, old(next)@), e as int, me as int, knt1 as int, 0, ln as int, iwlen as int, old(degree)@, n as int),
                        pe@.len() == s0.pe.len(),
                    decreases n - j,
                {
                    let pn = at(pe, j)?;
                    if pn >= 0 {
                        set(pe, j, at(iw, pn as usize)?)?;
                        set(iw, pn as usize, fl(j as isize)?)?;
                    }
                    j = j + 1;
                }
                proof {
                    assert(ml == Some((pe@, iw@)));
                }
                let ghost pme1_0 = *pme1;
                // move the lists to the front
                let mut psrc: usize = 0;
                let mut pdst: usize = 0;
                let ghost mv = move_lists(pe@, iw@, len@, 0, 0, *pme1 as int);
                proof {
                    assert(mv is None ==> full is None);
                }
                while psrc < *pme1
                    invariant
                        n <= isize::MAX,
                        len@ == len2,
                        mv == move_lists(pe@, iw@, len@, psrc as int, pdst as int, *pme1 as int),
                        mv is None ==> full is None,
                        full == lme_all(lme_of(*old(pme1) as int, *old(p) as int, *old(pj) as int, *old(degme) as int, *old(pfree) as int, old(nv)@, old(pe)@, old(len)@, old(iw)@, old(head)@, old(last)@, old(next)@), e as int, me as int, knt1 as int, 0, ln as int, iwlen as int, old(degree)@, n as int),
                        pe@.len() == s0.pe.len(),
                    decreases if psrc < *pme1 {
                        *pme1 - psrc
                    } else {
                        0
                    },
                {
                    let ghost pe_b = pe@;
                    let ghost iw_b = iw@;
                    let ghost psrc_b = psrc;
                    let ghost pdst_b = pdst;
                    let j = fl(at(iw, psrc)?)?;
                    psrc = psrc + 1;
                    let ghost ps0 = psrc;
                    if j >= 0 {
                        let ju = j as usize;
                        set(iw, pdst, at(pe, ju)?)?;
                        set(pe, ju, sx(pdst)?)?;
                        pdst = add_u(pdst, 1)?;
                        let lenj = at_len(len, ju)?;
                        // copy the rest of the list
                        let ghost rest: int = if lenj > 1 { lenj - 1 } else { 0 };
                        let ghost ce = copy_entries(iw@, psrc as int, pdst as int, rest);
                        let ghost pd1 = pdst;
                        proof {
                            assert(ce is None ==> mv is None);
                        }
                        let mut c: usize = 1;
                        while c < lenj
                            invariant
                                n <= isize::MAX,
                                psrc >= ps0,
                                1 <= c,
                                c <= lenj || (lenj == 0 && c == 1),
                                psrc == ps0 + (c - 1),
                                pdst == pd1 + (c - 1),
                                ce == copy_entries(iw@, psrc as int, pdst as int, (if lenj > c { lenj - c } else { 0 }) as int),
                                ce is None ==> full is None,
                                full == lme_all(lme_of(*old(pme1) as int, *old(p) as int, *old(pj) as int, *old(degme) as int, *old(pfree) as int, old(nv)@, old(pe)@, old(len)@, old(iw)@, old(head)@, old(last)@, old(next)@), e as int, me as int, knt1 as int, 0, ln as int, iwlen as int, old(degree)@, n as int),
                                pe@.len() == s0.pe.len(),
                            decreases lenj - c,
                        {
                            set(iw, pdst, at(iw, psrc)?)?;
                            psrc = add_u(psrc, 1)?;
                            pdst = add_u(pdst, 1)?;
                            c = c + 1;
                        }
                        proof {
                            if lenj == 0 {
                                assert(c == 1);
                            } else {
                                assert(c == lenj);
                            }
                            assert(psrc == ps0 + rest && pdst == pd1 + rest);
                            assert(ce == Some(iw@));
                        }
                    }
                    proof {
                        assert(move_lists(pe_b, iw_b, len@, psrc_b as int, pdst_b as int, *pme1 as int)
                            == move_lists(pe@, iw@, len@, psrc as int, pdst as int, *pme1 as int));
                    }
                }
                proof {
                    assert(mv == Some((pe@, iw@, pdst as int)));
                }
                // move the new partially-constructed element
                let p1 = pdst;
                let mut q = *pme1;
                let ghost cnt: int = if *pfree > *pme1 { *pfree - *pme1 } else { 0 };
                let ghost ce2 = copy_entries(iw@, q as int, pdst as int, cnt);
                proof {
                    assert(ce2 is None ==> full is None);
                }
                while q < *pfree
                    invariant
                        n <= isize::MAX,
                        q >= *pme1,
                        q <= *pfree || q == *pme1,
                        pdst == p1 + (q - *pme1),
                        ce2 == copy_entries(iw@, q as int, pdst as int, (if *pfree > q { *pfree - q } else { 0 }) as int),
                        ce2 is None ==> full is None,
                        full == lme_all(lme_of(*old(pme1) as int, *old(p) as int, *old(pj) as int, *old(degme) as int, *old(pfree) as int, old(nv)@, old(pe)@, old(len)@, old(iw)@, old(head)@, old(last)@, old(next)@), e as int, me as int, knt1 as int, 0, ln as int, iwlen as int, old(degree)@, n as int),
                        pe@.len() == s0.pe.len(),
                    decreases *pfree - q,
                {
                    set(iw, pdst, at(iw, q)?)?;
                    pdst = add_u(pdst, 1)?;
                    q = q + 1;
                }
                proof {
                    assert(ce2 == Some(iw@));
                    assert(pdst == p1 + cnt);
                }
                *pme1 = p1;
                *pfree = pdst;
                *pj = at(pe, e)? as usize;
                *p = at(pe, me)? as usize;
                proof {
                    assert(compact(s0, e as int, me as int, knt1 as int, knt2 as int, ln as int, n as int) == Some(lme_of(*pme1 as int, *p as int, *pj as int, *degme as int, *pfree as int, nv@, pe@, len@, iw@, head@, last@, next@)));
                }
            }
            let ghost s1 = lme_of(*pme1 as int, *p as int, *pj as int, *degme as int, *pfree as int, nv@, pe@, len@, iw@, head@, last@, next@);
            // add supervariable i to Lme
            *degme = add_u(*degme, nvi as usize)?;
            set(nv, i, -nvi)?;
            set(iw, *pfree, i as isize)?;
            *pfree = add_u(*pfree, 1)?;
            let deg = at(degree, i)? as usize;
            unlink(i, n, deg, head, last, next)?;
        }
        proof {
            assert(lme_step(sb, e as int, me as int, knt1 as int, k as int, ln as int, iwlen as int, degree@, n as int) == Some(lme_of(*pme1 as int, *p as int, *pj as int, *degme as int, *pfree as int, nv@, pe@, len@, iw@, head@, last@, next@)));
        }
        k = k + 1;
    }
    Ok(())
}

/// The arrays and counts that building the new element works on.
pub struct NewElemState {
    pub nel: int,
    pub degme: int,
    pub pfree: int,
    pub elen: Seq<isize>,
    pub nv: Seq<isize>,
    pub pe: Seq<isize>,
    pub iw: Seq<isize>,
    pub len: Seq<usize>,
    pub degree: Seq<isize>,
    pub w: Seq<isize>,
    pub head: Seq<isize>,
    pub last: Seq<isize>,
    pub next: Seq<isize>,
}

/// The state made of the given counts and arrays.
pub open spec fn ne_of(
    nel: int,
    degme: int,
    pfree: int,
    elen: Seq<isize>,
    nv: Seq<isize>,
    pe: Seq<isize>,
    iw: Seq<isize>,
    len: Seq<usize>,
    degree: Seq<isize>,
    w: Seq<isize>,
    head: Seq<isize>,
    last: Seq<isize>,
    next: Seq<isize>,
) -> NewElemState {
    NewElemState { nel, degme, pfree, elen, nv, pe, iw, len, degree, w, head, last, next }
}

/// The entries `iw[p..end]` of the list of `me`, when the new element is
/// built in place: each principal supervariable is negated, counted into
/// `degme`, packed at `iw[top + 1]` and taken out of its degree list.
/// Gives the state and the last place used.
pub open spec fn build_in_place(s: NewElemState, p: int, end: int, top: int, n: int) -> Option<(NewElemState, int)>
    decreases end - p,
{
    if p >= end {
        Some((s, top))
    } else if p >= s.iw.len() || s.iw[p] < 0 || s.iw[p] >= n || s.iw[p] >= s.nv.len() {
        None
    } else {
        let i = s.iw[p] as int;
        let nvi = s.nv[i] as int;
        if nvi > 0 {
            let t = top + 1;
            let deg = (s.degree[i] as usize) as int;
            let nxt = s.next;
            let lst = s.last;
            let hd = s.head;
            if s.degme + nvi > usize::MAX || t > isize::MAX || t < 0 || t >= s.iw.len() || i >= s.degree.len() || !(i < nxt.len() && i
                < lst.len() && n <= lst.len() && n <= nxt.len() && -1 <= nxt[i] < n && -1 <= lst[i] < n && (lst[i] != EMPTY || deg
                < hd.len())) {
                None
            } else {
                let s2 = NewElemState {
                    degme: s.degme + nvi,
                    nv: s.nv.update(i, (-nvi) as isize),
                    iw: s.iw.update(t, i as isize),
                    last: if nxt[i] != EMPTY { lst.update(nxt[i] as int, lst[i]) } else { lst },
                    next: if lst[i] != EMPTY { nxt.update(lst[i] as int, nxt[i]) } else { nxt },
                    head: if lst[i] == EMPTY { hd.update(deg, nxt[i]) } else { hd },
                    ..s
                };
                build_in_place(s2, p + 1, end, t, n)
            }
        } else {
            build_in_place(s, p + 1, end, top, n)
        }
    }
}

/// The lists searched in turn, `k..=elenme` (the elements of `me` at `iw[p..]`,
/// then the supervariables of `me`, `slenme` of them), each adding its
/// principal supervariables to `Lme` (from `pme1`); an element is then
/// absorbed into `me`. Gives the state, `pme1` and `p`.
pub open spec fn build_from_lists(
    s: NewElemState,
    pme1: int,
    p: int,
    k: int,
    elenme: int,
    slenme: int,
    me: int,
    iwlen: int,
    n: int,
) -> Option<(NewElemState, int, int)>
    decreases elenme + 1 - k,
{
    if k > elenme {
        Some((s, pme1, p))
    } else {
        let knt1 = k + 1;
        let pick: Option<(int, int, int, int)> = if knt1 > elenme {
            Some((me, p, slenme, p))
        } else if p >= s.iw.len() || s.iw[p] < 0 || s.iw[p] >= n || p + 1 > usize::MAX || s.iw[p] >= s.pe.len() || s.iw[p] >= s.len.len() {
            None
        } else {
            let e = s.iw[p] as int;
            Some((e, (s.pe[e] as usize) as int, s.len[e] as int, p + 1))
        };
        match pick {
            None => None,
            Some(t) => {
                let e = t.0;
                match lme_all(lme_of(pme1, t.3, t.1, s.degme, s.pfree, s.nv, s.pe, s.len, s.iw, s.head, s.last, s.next), e, me, knt1, 0, t.2, iwlen, s.degree, n) {
                    None => None,
                    Some(l) => {
                        let s2 = NewElemState {
                            degme: l.degme,
                            pfree: l.pfree,
                            nv: l.nv,
                            pe: l.pe,
                            len: l.len,
                            iw: l.iw,
                            head: l.head,
                            last: l.last,
                            next: l.next,
                            ..s
                        };
                        if e != me {
                            if me >= isize::MAX || e >= s2.pe.len() || e >= s2.w.len() {
                                None
                            } else {
                                build_from_lists(
                                    NewElemState { pe: s2.pe.update(e, spec_flip(me) as isize), w: s2.w.update(e, 0), ..s2 },
                                    l.pme1,
                                    l.p,
                                    k + 1,
                                    elenme,
                                    slenme,
                                    me,
                                    iwlen,
                                    n,
                                )
                            }
                        } else {
                            build_from_lists(s2, l.pme1, l.p, k + 1, elenme, slenme, me, iwlen, n)
                        }
                    },
                }
            },
        }
    }
}

/// The new element recorded: `degree[me] = degme`, `pe[me] = pme1`, its
/// length, and `elen[me] = flip(nvpiv + degme)`.
pub open spec fn record_element(s: NewElemState, me: int, pme1: int, pme2: int, nvpiv: int) -> Option<NewElemState> {
    if s.degme > isize::MAX || me >= s.degree.len() || pme1 > isize::MAX || me >= s.pe.len() || pme2 - pme1 < isize::MIN || pme2 - pme1
        > isize::MAX || pme2 - pme1 + 1 > isize::MAX || me >= s.len.len() || nvpiv + s.degme > isize::MAX || nvpiv + s.degme
        == isize::MAX || me >= s.elen.len() {
        None
    } else {
        Some(NewElemState {
            degree: s.degree.update(me, s.degme as isize),
            pe: s.pe.update(me, pme1 as isize),
            len: s.len.update(me, ((pme2 - pme1 + 1) as isize) as usize),
            elen: s.elen.update(me, spec_flip(nvpiv + s.degme) as isize),
            ..s
        })
    }
}

/// Building the new element `me`: its variables counted into `nel`, `me`
/// flagged in `nv`, the pattern built in place or from its lists, and
/// recorded. Gives the state and `(pme1, pme2, nvpiv, elenme)`; `None`
/// where a value is out of range.
pub open spec fn new_element(s: NewElemState, me: int, n: int, iwlen: int) -> Option<(NewElemState, (int, int, int, int))> {
    if me >= s.elen.len() || me >= s.nv.len() || s.nv[me] <= 0 || s.nel + s.nv[me] > usize::MAX {
        None
    } else {
        let elenme = s.elen[me] as int;
        let nvpiv = s.nv[me] as int;
        let s1 = NewElemState { nel: s.nel + nvpiv, nv: s.nv.update(me, (-nvpiv) as isize), ..s };
        let built: Option<(NewElemState, int, int)> = if elenme == 0 {
            if me >= s1.pe.len() || s1.pe[me] < 0 || me >= s1.len.len() || s1.pe[me] + s1.len[me] > usize::MAX {
                None
            } else {
                let pme1 = s1.pe[me] as int;
                match build_in_place(s1, pme1, pme1 + s1.len[me], pme1 - 1, n) {
                    None => None,
                    Some(t) => Some((t.0, pme1, t.1)),
                }
            }
        } else if me >= s1.pe.len() || elenme < 0 || me >= s1.len.len() || s1.len[me] < elenme {
            None
        } else {
            match build_from_lists(s1, s1.pfree, (s1.pe[me] as usize) as int, 0, elenme, s1.len[me] - elenme, me, iwlen, n) {
                None => None,
                Some(t) => if t.0.pfree > isize::MAX {
                    None
                } else {
                    Some((t.0, t.1, t.0.pfree - 1))
                },
            }
        };
        match built {
            None => None,
            Some(b) => match record_element(b.0, me, b.1, b.2, nvpiv) {
                None => None,
                Some(s3) => Some((s3, (b.1, b.2, nvpiv, elenme))),
            },
        }
    }
}

/// Turns the supervariable `me` into the new element: its pattern `Lme`,
/// the principal supervariables adjacent to `me` directly or through the
/// elements it is adjacent to, ends up in `iw[pme1..=pme2]` (built in place
/// when `me` has no elements, else at the free end of `iw`), the elements of
/// `me` are absorbed into it, and `degme` holds its external degree.
/// Returns `(pme1, pme2, nvpiv, elenme)`: the pattern's bounds, the number
/// of variables of `me` and its former element count; `nel` grows by
/// `nvpiv`.
fn construct_new_element(
    me: usize,
    nel: &mut usize,
    n: usize,
    pfree: &mut usize,
    iwlen: usize,
    elen: &mut [isize],
    degme: &mut usize,
    nv: &mut [isize],
    pe: &mut [isize],
    iw: &mut [isize],
    len: &mut [usize],
    degree: &mut [isize],
    w: &mut [isize],
    head: &mut [isize],
    last: &mut [isize],
    next: &mut [isize],
) -> (r: Result<(usize, isize, usize, isize), AmdError>)
    requires
        n <= isize::MAX,
        me < n,
    ensures
        r matches Ok((pme1, pme2, nvpiv, elenme)) ==> nvpiv > 0 && *final(nel) == *old(nel) + nvpiv,
        r is Ok <==> new_element(ne_of(*old(nel) as int, *old(degme) as int, *old(pfree) as int, old(elen)@, old(nv)@, old(pe)@, old(iw)@, old(len)@, old(degree)@, old(w)@, old(head)@, old(last)@, old(next)@), me as int, n as int, iwlen as int) is Some,
        r matches Ok((pme1, pme2, nvpiv, elenme)) ==> new_element(ne_of(*old(nel) as int, *old(degme) as int, *old(pfree) as int, old(elen)@, old(nv)@, old(pe)@, old(iw)@, old(len)@, old(degree)@, old(w)@, old(head)@, old(last)@, old(next)@), me as int, n as int, iwlen as int) == Some((ne_of(*final(nel) as int, *final(degme) as int, *final(pfree) as int, final(elen)@, final(nv)@, final(pe)@, final(iw)@, final(len)@, final(degree)@, final(w)@, final(head)@, final(last)@, final(next)@), (pme1 as int, pme2 as int, nvpiv as int, elenme as int))),
{
    let ghost full = new_element(ne_of(*nel as int, *degme as int, *pfree as int, elen@, nv@, pe@, iw@, len@, degree@, w@, head@, last@, next@), me as int, n as int, iwlen as int);
    let elenme = at(elen, me)?;
    let nvme = at(nv, me)?;
    if nvme <= 0 {
        return Err(AmdError::Inconsistent);
    }
    let nvpiv = nvme as usize;
    *nel = add_u(*nel, nvpiv)?;
    // flag the variable "me" as being in Lme by negating nv[me]
    set(nv, me, -nvme)?;
    let ghost s1 = ne_of(*nel as int, *degme as int, *pfree as int, elen@, nv@, pe@, iw@, len@, degree@, w@, head@, last@, next@);
    let pme1: usize;
    let pme2: isize;
    if elenme == 0 {
        // construct the new element in place
        pme1 = ux(at(pe, me)?)?;
        let mut top: isize = sx(pme1)? - 1;
        let end = add_u(pme1, at_len(len, me)?)?;
        let mut p = pme1;
        let ghost bp = build_in_place(ne_of(*nel as int, *degme as int, *pfree as int, elen@, nv@, pe@, iw@, len@, degree@, w@, head@, last@, next@), p as int, end as int, top as int, n as int);
        proof {
            assert(bp is None ==> full is None);
        }
        while p < end
            invariant
                n <= isize::MAX,
                me < n,
                *nel == *old(nel) + nvpiv,
                full == new_element(ne_of(*old(nel) as int, *old(degme) as int, *old(pfree) as int, old(elen)@, old(nv)@, old(pe)@, old(iw)@, old(len)@, old(degree)@, old(w)@, old(head)@, old(last)@, old(next)@), me as int, n as int, iwlen as int),
                bp is None ==> full is None,
                bp == build_in_place(ne_of(*nel as int, *degme as int, *pfree as int, elen@, nv@, pe@, iw@, len@, degree@, w@, head@, last@, next@), p as int, end as int, top as int, n as int),
            decreases end - p,
        {
            let i = idx(at(iw, p)?, n)?;
            let nvi = at(nv, i)?;
            // i is a principal variable not yet placed in Lme
            if nvi > 0 {
                *degme = add_u(*degme, nvi as usize)?;
                // flag i as being in Lme by negating nv[i]
                set(nv, i, -nvi)?;
                top = add_i(top, 1)?;
                set(iw, ux(top)?, i as isize)?;
                let deg = at(degree, i)? as usize;
                unlink(i, n, deg, head, last, next)?;
            }
            p = p + 1;
        }
        pme2 = top;
        proof {
            assert(bp == Some((ne_of(*nel as int, *degme as int, *pfree as int, elen@, nv@, pe@, iw@, len@, degree@, w@, head@, last@, next@), top as int)));
        }
    } else {
        // construct the new element in empty space, iw[pfree..]
        let mut p = at(pe, me)? as usize;
        let mut pme1x = *pfree;
        let elenme_u = ux(elenme)?;
        // number of supervariables adjacent to me
        let slenme = sub_u(at_len(len, me)?, elenme_u)?;
        let mut k: usize = 0;
        let ghost bl = build_from_lists(ne_of(*nel as int, *degme as int, *pfree as int, elen@, nv@, pe@, iw@, len@, degree@, w@, head@, last@, next@), pme1x as int, p as int, 0, elenme_u as int, slenme as int, me as int, iwlen as int, n as int);
        proof {
            assert(bl is None ==> full is None);
        }
        while k <= elenme_u
            invariant
                n <= isize::MAX,
                me < n,
                elenme_u <= isize::MAX,
                *nel == *old(nel) + nvpiv,
                full == new_element(ne_of(*old(nel) as int, *old(degme) as int, *old(pfree) as int, old(elen)@, old(nv)@, old(pe)@, old(iw)@, old(len)@, old(degree)@, old(w)@, old(head)@, old(last)@, old(next)@), me as int, n as int, iwlen as int),
                bl is None ==> full is None,
                bl == build_from_lists(ne_of(*nel as int, *degme as int, *pfree as int, elen@, nv@, pe@, iw@, len@, degree@, w@, head@, last@, next@), pme1x as int, p as int, k as int, elenme_u as int, slenme as int, me as int, iwlen as int, n as int),
            decreases elenme_u + 1 - k,
        {
            let ghost sk = ne_of(*nel as int, *degme as int, *pfree as int, elen@, nv@, pe@, iw@, len@, degree@, w@, head@, last@, next@);
            let ghost pme1x_k = pme1x;
            let ghost p_k = p;
            let knt1 = k + 1;
            let e: usize;
            let mut pj: usize;
            let ln: usize;
            if knt1 > elenme_u {
                // search the supervariables in me
                e = me;
                pj = p;
                ln = slenme;
            } else {
                // search the elements in me
                e = idx(at(iw, p)?, n)?;
                p = add_u(p, 1)?;
                pj = at(pe, e)? as usize;
                ln = at_len(len, e)?;
            }
            let ghost lin = lme_of(pme1x as int, p as int, pj as int, *degme as int, *pfree as int, nv@, pe@, len@, iw@, head@, last@, next@);
            proof {
                assert(knt1 > elenme_u ==> e == me && pj == p && ln == slenme);
            }
            add_neighboring_supervariables_to_pivot(
                e,
                &mut pme1x,
                knt1,
                ln,
                &mut p,
                &mut pj,
                degme,
                pfree,
                n,
                me,
                iwlen,
                nv,
                pe,
                len,
                iw,
                head,
                last,
                next,
                degree,
            )?;
            let ghost lout = lme_of(pme1x as int, p as int, pj as int, *degme as int, *pfree as int, nv@, pe@, len@, iw@, head@, last@, next@);
            proof {
                assert(lme_all(lin, e as int, me as int, knt1 as int, 0, ln as int, iwlen as int, degree@, n as int) == Some(lout));
            }
            if e != me {
                // element e is absorbed into me: me becomes its parent
                set(pe, e, fl(me as isize)?)?;
                // flag e as being absorbed by me
                set(w, e, 0)?;
            }
            proof {
                assert(build_from_lists(sk, pme1x_k as int, p_k as int, k as int, elenme_u as int, slenme as int, me as int, iwlen as int, n as int)
                    == build_from_lists(ne_of(*nel as int, *degme as int, *pfree as int, elen@, nv@, pe@, iw@, len@, degree@, w@, head@, last@, next@), pme1x as int, p as int, k + 1, elenme_u as int, slenme as int, me as int, iwlen as int, n as int));
            }
            k = k + 1;
        }
        proof {
            assert(bl == Some((ne_of(*nel as int, *degme as int, *pfree as int, elen@, nv@, pe@, iw@, len@, degree@, w@, head@, last@, next@), pme1x as int, p as int)));
        }
        pme1 = pme1x;
        pme2 = sx(*pfree)? - 1;
    }
    let ghost s2 = ne_of(*nel as int, *degme as int, *pfree as int, elen@, nv@, pe@, iw@, len@, degree@, w@, head@, last@, next@);
    proof {
        assert(record_element(s2, me as int, pme1 as int, pme2 as int, nvpiv as int) is None ==> full is None);
    }
    set(degree, me, sx(*degme)?)?;
    set(pe, me, sx(pme1)?)?;
    let count = add_i(sub_i(pme2, sx(pme1)?)?, 1)?;
    set_len(len, me, count as usize)?;
    // flip(elen[me]) is now the degree of the pivot (including the diagonal part)
    set(elen, me, fl(sx(add_u(nvpiv, *degme)?)?)?)?;
    proof {
        assert(record_element(s2, me as int, pme1 as int, pme2 as int, nvpiv as int) == Some(ne_of(*nel as int, *degme as int, *pfree as int, elen@, nv@, pe@, iw@, len@, degree@, w@, head@, last@, next@)));
    }
    Ok((pme1, pme2, nvpiv, elenme))
}

/// The weight of element `e` after meeting, in the list of a supervariable
/// of size `nvi`, at marker `wflg`: seen before in this pass, it loses
/// `nvi`; seen first, it starts from its degree less `nvi`; absorbed (0), it
/// stays.
pub open spec fn outside_step(w: Seq<isize>, degree: Seq<isize>, e: int, nvi: int, wflg: int) -> Seq<isize> {
    let we = w[e] as int;
    w.update(
        e,
        (if we >= wflg {
            we - nvi
        } else if we != 0 {
            degree[e] + wflg - nvi
        } else {
            we
        }) as isize,
    )
}

/// The weights after the elements `iw[p..end]` of a supervariable of size
/// `nvi`, in turn.
pub open spec fn outside_list(w: Seq<isize>, iw: Seq<isize>, degree: Seq<isize>, nvi: int, wflg: int, p: int, end: int) -> Seq<isize>
    decreases end - p,
{
    if p >= end {
        w
    } else {
        outside_list(outside_step(w, degree, iw[p] as int, nvi, wflg), iw, degree, nvi, wflg, p + 1, end)
    }
}

/// The weights after the supervariables `iw[pme..=pme2]` of `Lme` in turn,
/// each with the elements of its list that have `elen > 0`.
pub open spec fn outside_vars(
    w: Seq<isize>,
    iw: Seq<isize>,
    pe: Seq<isize>,
    elen: Seq<isize>,
    nv: Seq<isize>,
    degree: Seq<isize>,
    wflg: int,
    pme: int,
    pme2: int,
) -> Seq<isize>
    decreases pme2 + 1 - pme,
{
    if pme > pme2 {
        w
    } else {
        let i = iw[pme] as int;
        let w2 = if elen[i] > 0 {
            outside_list(w, iw, degree, -nv[i], wflg, pe[i] as int, pe[i] + elen[i])
        } else {
            w
        };
        outside_vars(w2, iw, pe, elen, nv, degree, wflg, pme + 1, pme2)
    }
}

/// For each element `e` adjacent to a supervariable of `Lme`, computes
/// `w[e] - wflg = |Le \ Lme|`, the size of its pattern outside `Lme`
/// (first seen: `degree[e]` less the sizes of the supervariables of `Lme`
/// adjacent to it). Absorbed elements (`w[e] == 0`) are left alone.
fn compute_outside_degrees(
    pme1: usize,
    pme2: isize,
    n: usize,
    iwlen: usize,
    pe: &[isize],
    iw: &[isize],
    elen: &[isize],
    nv: &[isize],
    degree: &[isize],
    wflg: isize,
    w: &mut [isize],
) -> (r: Result<(), AmdError>)
    requires
        n <= isize::MAX,
    ensures
        r is Ok ==> final(w)@ == outside_vars(old(w)@, iw@, pe@, elen@, nv@, degree@, wflg as int, pme1 as int, pme2 as int),
{
    let ghost w0 = w@;
    let mut pme = sx(pme1)?;
    while pme <= pme2
        invariant
            n <= isize::MAX,
            pme >= 0,
            outside_vars(w0, iw@, pe@, elen@, nv@, degree@, wflg as int, pme1 as int, pme2 as int)
                == outside_vars(w@, iw@, pe@, elen@, nv@, degree@, wflg as int, pme as int, pme2 as int),
        decreases pme2 + 1 - pme,
    {
        // a supervariable of Lme
        let i = idx(at(iw, pme as usize)?, n)?;
        let eln_i = at(elen, i)?;
        // if it has elements in E_i
        if eln_i > 0 {
            let eln = eln_i as usize;
            // nv[i] was negated to mark i as being in Lme
            let nvi = sub_i(0, at(nv, i)?)?;
            let p1 = ux(at(pe, i)?)?;
            let wnvi = sub_i(wflg, nvi)?;
            let end = add_u(p1, eln)?;
            let mut p = p1;
            // the elements in E_i
            while p < end
                invariant
                    n <= isize::MAX,
                    p1 <= p <= end,
                    pme <= pme2,
                    end == pe@[i as int] + elen@[i as int],
                    i == iw@[pme as int],
                    elen@[i as int] > 0,
                    nvi == -nv@[i as int],
                    wnvi == wflg - nvi,
                    outside_vars(w0, iw@, pe@, elen@, nv@, degree@, wflg as int, pme1 as int, pme2 as int)
                        == outside_vars(
                        outside_list(w@, iw@, degree@, nvi as int, wflg as int, p as int, end as int),
                        iw@,
                        pe@,
                        elen@,
                        nv@,
                        degree@,
                        wflg as int,
                        pme + 1,
                        pme2 as int,
                    ),
                decreases end - p,
            {
                let e = idx(at(iw, p)?, n)?;
                let mut we = at(w, e)?;
                if we >= wflg {
                    // unabsorbed element e has been seen in this loop
                    we = sub_i(we, nvi)?;
                } else if we != 0 {
                    // first time that the unabsorbed element e is seen
                    we = add_i(at(degree, e)?, wnvi)?;
                }
                let ghost wb = w@;
                set(w, e, we)?;
                proof {
                    assert(w@ == outside_step(wb, degree@, iw@[p as int] as int, nvi as int, wflg as int));
                }
                p = p + 1;
            }
        }
        pme = add_i(pme, 1)?;
    }
    Ok(())
}

/// The arrays and counts that updating the degrees works on.
pub struct DegState {
    pub pe: Seq<isize>,
    pub iw: Seq<isize>,
    pub nv: Seq<isize>,
    pub elen: Seq<isize>,
    pub len: Seq<usize>,
    pub degree: Seq<isize>,
    pub w: Seq<isize>,
    pub head: Seq<isize>,
    pub last: Seq<isize>,
    pub next: Seq<isize>,
    pub nvpiv: int,
    pub nel: int,
    pub degme: int,
}

/// The scan of the elements `iw[p..p2]` of a supervariable: each one not
/// absorbed (`w != 0`) is kept at `iw[pn]`, its outside size `w - wflg`
/// added to `deg` and its index to `hash`; with aggressive absorption, one
/// with nothing outside `Lme` is absorbed into `me` instead. Gives `iw`,
/// `pe`, `w`, `pn`, `hash`, `deg`; `None` where a value is out of range.
pub open spec fn keep_elements(
    iw: Seq<isize>,
    pe: Seq<isize>,
    w: Seq<isize>,
    p: int,
    p2: int,
    pn: int,
    hash: int,
    deg: int,
    wflg: int,
    me: int,
    aggressive: bool,
    n: int,
) -> Option<(Seq<isize>, Seq<isize>, Seq<isize>, int, int, int)>
    decreases p2 - p,
{
    if p >= p2 {
        Some((iw, pe, w, pn, hash, deg))
    } else if p >= iw.len() || iw[p] < 0 || iw[p] >= n || iw[p] >= w.len() {
        None
    } else {
        let e = iw[p] as int;
        let we = w[e] as int;
        if we == 0 {
            keep_elements(iw, pe, w, p + 1, p2, pn, hash, deg, wflg, me, aggressive, n)
        } else if we - wflg < isize::MIN || we - wflg > isize::MAX {
            None
        } else if we - wflg > 0 || !aggressive {
            let dext = we - wflg;
            if dext < 0 || deg + dext > usize::MAX || pn >= iw.len() || pn + 1 > usize::MAX || hash + e > usize::MAX {
                None
            } else {
                keep_elements(iw.update(pn, e as isize), pe, w, p + 1, p2, pn + 1, hash + e, deg + dext, wflg, me, aggressive, n)
            }
        } else if e >= pe.len() {
            None
        } else {
            keep_elements(iw, pe.update(e, spec_flip(me) as isize), w.update(e, 0), p + 1, p2, pn, hash, deg, wflg, me, aggressive, n)
        }
    }
}

/// The scan of the supervariables `iw[p..p4]` of a supervariable: each
/// principal one not in `Lme` (`nv > 0`) is kept at `iw[pn]`, its size
/// added to `deg` and its index to `hash`. Gives `iw`, `pn`, `hash`, `deg`;
/// `None` where a value is out of range.
pub open spec fn keep_variables(
    iw: Seq<isize>,
    nv: Seq<isize>,
    p: int,
    p4: int,
    pn: int,
    hash: int,
    deg: int,
    n: int,
) -> Option<(Seq<isize>, int, int, int)>
    decreases p4 - p,
{
    if p >= p4 {
        Some((iw, pn, hash, deg))
    } else if p >= iw.len() || iw[p] < 0 || iw[p] >= n || iw[p] >= nv.len() {
        None
    } else {
        let j = iw[p] as int;
        if nv[j] > 0 {
            if deg + nv[j] > usize::MAX || pn >= iw.len() || pn + 1 > usize::MAX || hash + j > usize::MAX {
                None
            } else {
                keep_variables(iw.update(pn, j as isize), nv, p + 1, p4, pn + 1, hash + j, deg + nv[j], n)
            }
        } else {
            keep_variables(iw, nv, p + 1, p4, pn, hash, deg, n)
        }
    }
}

/// The end of the update of supervariable `i`, whose lists were kept at
/// `iw[p1..pn]` (the elements up to `p3`): mass elimination into `me` when
/// nothing but `me` is left of it, else the new degree bound, `me` at the
/// front of its lists and its place in hash bucket `hash % n`; then
/// `degree[me] = degme`.
pub open spec fn finish_variable(s: DegState, i: int, p1: int, p3: int, pn: int, hash: int, deg: int, elen_i: int, me: int, n: int) -> Option<DegState> {
    let t = if elen_i == 1 && p3 == pn {
        if i >= s.pe.len() || i >= s.nv.len() || -s.nv[i] < 0 || s.degme - (-s.nv[i]) < 0 || s.nvpiv + (-s.nv[i]) > usize::MAX || s.nel
            + (-s.nv[i]) > usize::MAX || i >= s.elen.len() {
            None
        } else {
            let nvi = -s.nv[i];
            Some(DegState {
                pe: s.pe.update(i, spec_flip(me) as isize),
                degme: s.degme - nvi,
                nvpiv: s.nvpiv + nvi,
                nel: s.nel + nvi,
                nv: s.nv.update(i, 0),
                elen: s.elen.update(i, EMPTY),
                ..s
            })
        }
    } else {
        if i >= s.degree.len() || deg > isize::MAX || pn >= s.iw.len() || p3 >= s.iw.len() || p1 >= s.iw.len() || pn < p1 || pn - p1 + 1 > usize::MAX
            || i >= s.len.len() {
            None
        } else {
            let di = s.degree[i];
            let iw2 = s.iw.update(pn, s.iw[p3]);
            let iw3 = iw2.update(p3, iw2[p1]);
            let hh = hash % n;
            let hd = s.head;
            if !(i < s.next.len() && i < s.last.len() && i < isize::MAX && hh <= isize::MAX && hh < hd.len() && hd[hh] > isize::MIN && (hd[hh]
                <= EMPTY || hd[hh] < s.last.len())) {
                None
            } else {
                let (head2, last2, next2) = if hd[hh] <= EMPTY {
                    (hd.update(hh, spec_flip(i) as isize), s.last.update(i, hh as isize), s.next.update(i, spec_flip(hd[hh] as int) as isize))
                } else {
                    let jj = hd[hh] as int;
                    (hd, s.last.update(jj, i as isize).update(i, hh as isize), s.next.update(i, s.last[jj]))
                };
                Some(DegState {
                    degree: s.degree.update(i, if di < deg { di } else { deg as isize }),
                    iw: iw3.update(p1, me as isize),
                    len: s.len.update(i, (pn - p1 + 1) as usize),
                    head: head2,
                    last: last2,
                    next: next2,
                    ..s
                })
            }
        }
    };
    match t {
        None => None,
        Some(t) => if me >= t.degree.len() || t.degme > isize::MAX {
            None
        } else {
            Some(DegState { degree: t.degree.update(me, t.degme as isize), ..t })
        },
    }
}

/// The update of the supervariable `iw[pme]` of `Lme`.
pub open spec fn update_variable(s: DegState, pme: int, me: int, wflg: int, aggressive: bool, n: int) -> Option<DegState> {
    if pme >= s.iw.len() || s.iw[pme] < 0 || s.iw[pme] >= n {
        None
    } else {
        let i = s.iw[pme] as int;
        if i >= s.pe.len() || s.pe[i] < 0 || i >= s.elen.len() || s.elen[i] < 0 || s.pe[i] + s.elen[i] > usize::MAX {
            None
        } else {
            let p1 = s.pe[i] as int;
            let p2 = p1 + s.elen[i];
            match keep_elements(s.iw, s.pe, s.w, p1, p2, p1, 0, 0, wflg, me, aggressive, n) {
                None => None,
                Some(r) => {
                    let pn = r.3;
                    if pn < p1 || pn - p1 + 1 > isize::MAX || i >= s.len.len() || p1 + s.len[i] > usize::MAX {
                        None
                    } else {
                        let elen_i = pn - p1 + 1;
                        let s1 = DegState { iw: r.0, pe: r.1, w: r.2, elen: s.elen.update(i, elen_i as isize), ..s };
                        match keep_variables(s1.iw, s1.nv, p2, p1 + s.len[i], pn, r.4, r.5, n) {
                            None => None,
                            Some(v) => finish_variable(DegState { iw: v.0, ..s1 }, i, p1, pn, v.1, v.2, v.3, elen_i, me, n),
                        }
                    }
                },
            }
        }
    }
}

/// The updates of the supervariables `iw[pme..=pme2]` in turn.
pub open spec fn update_all(s: DegState, pme: int, pme2: int, me: int, wflg: int, aggressive: bool, n: int) -> Option<DegState>
    decreases pme2 + 1 - pme,
{
    if pme > pme2 {
        Some(s)
    } else {
        match update_variable(s, pme, me, wflg, aggressive, n) {
            None => None,
            Some(s2) => update_all(s2, pme + 1, pme2, me, wflg, aggressive, n),
        }
    }
}

/// The state made of the given arrays and counts.
pub open spec fn deg_state_of(
    pe: Seq<isize>,
    iw: Seq<isize>,
    nv: Seq<isize>,
    elen: Seq<isize>,
    len: Seq<usize>,
    degree: Seq<isize>,
    w: Seq<isize>,
    head: Seq<isize>,
    last: Seq<isize>,
    next: Seq<isize>,
    nvpiv: int,
    nel: int,
    degme: int,
) -> DegState {
    DegState { pe, iw, nv, elen, len, degree, w, head, last, next, nvpiv, nel, degme }
}

/// For each supervariable `i` of `Lme`: drops the elements absorbed (with
/// aggressive absorption, also those with nothing outside `Lme`, which are
/// absorbed into `me` now) and the supervariables no longer principal from
/// its lists, and sums their outside sizes into its degree. A supervariable
/// left with nothing but `me` is eliminated with it (mass elimination: `me`
/// becomes its parent, and `nvpiv`, `nel` grow and `degme` shrinks by its
/// size); the others get `me` at the front of their lists, the new degree
/// bound, and a place in the hash bucket of their lists' sum (mod `n`).
fn update_degrees(
    me: usize,
    pme1: usize,
    pme2: isize,
    nvpiv: &mut usize,
    nel: &mut usize,
    n: usize,
    iwlen: usize,
    degme: &mut usize,
    pe: &mut [isize],
    iw: &mut [isize],
    nv: &mut [isize],
    elen: &mut [isize],
    len: &mut [usize],
    degree: &mut [isize],
    w: &mut [isize],
    wflg: isize,
    head: &mut [isize],
    last: &mut [isize],
    next: &mut [isize],
    aggressive: bool,
) -> (r: Result<(), AmdError>)
    requires
        n <= isize::MAX,
        me < n,
    ensures
        r is Ok ==> *final(nel) >= *old(nel),
        r is Ok ==> *final(nel) - *final(nvpiv) == *old(nel) - *old(nvpiv),
        r is Ok ==> update_all(
            deg_state_of(old(pe)@, old(iw)@, old(nv)@, old(elen)@, old(len)@, old(degree)@, old(w)@, old(head)@, old(last)@, old(next)@, *old(nvpiv) as int, *old(nel) as int, *old(degme) as int),
            pme1 as int,
            pme2 as int,
            me as int,
            wflg as int,
            aggressive,
            n as int,
        ) == Some(deg_state_of(final(pe)@, final(iw)@, final(nv)@, final(elen)@, final(len)@, final(degree)@, final(w)@, final(head)@, final(last)@, final(next)@, *final(nvpiv) as int, *final(nel) as int, *final(degme) as int)),
{
    let ghost full = update_all(
        deg_state_of(pe@, iw@, nv@, elen@, len@, degree@, w@, head@, last@, next@, *nvpiv as int, *nel as int, *degme as int),
        pme1 as int,
        pme2 as int,
        me as int,
        wflg as int,
        aggressive,
        n as int,
    );
    let mut pme = sx(pme1)?;
    while pme <= pme2
        invariant
            n <= isize::MAX,
            me < n,
            pme >= 0,
            *nel >= *old(nel),
            *nel - *nvpiv == *old(nel) - *old(nvpiv),
            full == update_all(deg_state_of(pe@, iw@, nv@, elen@, len@, degree@, w@, head@, last@, next@, *nvpiv as int, *nel as int, *degme as int), pme as int, pme2 as int, me as int, wflg as int, aggressive, n as int),
        decreases pme2 + 1 - pme,
    {
        let ghost sb = deg_state_of(pe@, iw@, nv@, elen@, len@, degree@, w@, head@, last@, next@, *nvpiv as int, *nel as int, *degme as int);
        let i = idx(at(iw, pme as usize)?, n)?;
        let p1 = ux(at(pe, i)?)?;
        let p2 = add_u(p1, ux(at(elen, i)?)?)?;
        let mut pn = p1;
        let mut hash: usize = 0;
        let mut deg: usize = 0;
        // the elements of i, keeping those not absorbed
        let ghost ke = keep_elements(sb.iw, sb.pe, sb.w, p1 as int, p2 as int, p1 as int, 0, 0, wflg as int, me as int, aggressive, n as int);
        if aggressive {
            let mut p = p1;
            while p < p2
                invariant
                    n <= isize::MAX,
                    me < n,
                    p1 <= p,
                    aggressive,
                    ke == keep_elements(iw@, pe@, w@, p as int, p2 as int, pn as int, hash as int, deg as int, wflg as int, me as int, aggressive, n as int),
                decreases p2 - p,
            {
                let e = idx(at(iw, p)?, n)?;
                let we = at(w, e)?;
                if we != 0 {
                    // e is an unabsorbed element: dext = |Le \ Lme|
                    let dext = sub_i(we, wflg)?;
                    if dext > 0 {
                        deg = add_u(deg, dext as usize)?;
                        set(iw, pn, e as isize)?;
                        pn = add_u(pn, 1)?;
                        hash = add_u(hash, e)?;
                    } else {
                        // aggressive absorption of e into me
                        set(pe, e, fl(me as isize)?)?;
                        set(w, e, 0)?;
                    }
                }
                p = p + 1;
            }
        } else {
            let mut p = p1;
            while p < p2
                invariant
                    n <= isize::MAX,
                    me < n,
                    p1 <= p,
                    !aggressive,
                    ke == keep_elements(iw@, pe@, w@, p as int, p2 as int, pn as int, hash as int, deg as int, wflg as int, me as int, aggressive, n as int),
                decreases p2 - p,
            {
                let e = idx(at(iw, p)?, n)?;
                let we = at(w, e)?;
                if we != 0 {
                    // e is an unabsorbed element
                    let dext = ux(sub_i(we, wflg)?)?;
                    deg = add_u(deg, dext)?;
                    set(iw, pn, e as isize)?;
                    pn = add_u(pn, 1)?;
                    hash = add_u(hash, e)?;
                }
                p = p + 1;
            }
        }
        proof {
            assert(ke == Some((iw@, pe@, w@, pn as int, hash as int, deg as int)));
        }
        // the number of elements of i, me included
        let elen_i = sx(add_u(sub_u(pn, p1)?, 1)?)?;
        set(elen, i, elen_i)?;
        // the supervariables of i, keeping the principal ones not in Lme
        let p3 = pn;
        let p4 = add_u(p1, at_len(len, i)?)?;
        let ghost h1 = hash;
        let ghost d1 = deg;
        let ghost kv = keep_variables(iw@, nv@, p2 as int, p4 as int, pn as int, hash as int, deg as int, n as int);
        let ghost s1 = deg_state_of(pe@, iw@, nv@, elen@, len@, degree@, w@, head@, last@, next@, *nvpiv as int, *nel as int, *degme as int);
        let mut p = p2;
        while p < p4
            invariant
                n <= isize::MAX,
                me < n,
                p2 <= p,
                s1 == deg_state_of(s1.pe, s1.iw, nv@, elen@, len@, degree@, w@, head@, last@, next@, *nvpiv as int, *nel as int, *degme as int),
                pe@ == s1.pe,
                kv == keep_variables(iw@, nv@, p as int, p4 as int, pn as int, hash as int, deg as int, n as int),
            decreases p4 - p,
        {
            let j = idx(at(iw, p)?, n)?;
            let nvj = at(nv, j)?;
            if nvj > 0 {
                // j is unabsorbed and not in Lme
                deg = add_u(deg, nvj as usize)?;
                set(iw, pn, j as isize)?;
                pn = add_u(pn, 1)?;
                hash = add_u(hash, j)?;
            }
            p = p + 1;
        }
        proof {
            assert(kv == Some((iw@, pn as int, hash as int, deg as int)));
        }
        let ghost s2 = deg_state_of(pe@, iw@, nv@, elen@, len@, degree@, w@, head@, last@, next@, *nvpiv as int, *nel as int, *degme as int);
        if elen_i == 1 && p3 == pn {
            // mass elimination: nothing is left of i but its edge to me
            set(pe, i, fl(me as isize)?)?;
            let nvi = ux(sub_i(0, at(nv, i)?)?)?;
            *degme = sub_u(*degme, nvi)?;
            *nvpiv = add_u(*nvpiv, nvi)?;
            *nel = add_u(*nel, nvi)?;
            set(nv, i, 0)?;
            set(elen, i, EMPTY)?;
        } else {
            // the upper bound of the degree of i (the size of the current
            // element is added later)
            let di = at(degree, i)?;
            let dnew = sx(deg)?;
            set(degree, i, if di < dnew { di } else { dnew })?;
            // move the first supervariable to the end of the list
            set(iw, pn, at(iw, p3)?)?;
            // move the first element to the end of the element part
            set(iw, p3, at(iw, p1)?)?;
            // add the new element me at the front
            set(iw, p1, me as isize)?;
            set_len(len, i, add_u(sub_u(pn, p1)?, 1)?)?;
            // place i in its hash bucket, its hash key in last[i]
            link_hash(i, hash % n, head, last, next)?;
        }
        set(degree, me, sx(*degme)?)?;
        proof {
            assert(finish_variable(s2, i as int, p1 as int, p3 as int, pn as int, hash as int, deg as int, elen_i as int, me as int, n as int)
                == Some(deg_state_of(pe@, iw@, nv@, elen@, len@, degree@, w@, head@, last@, next@, *nvpiv as int, *nel as int, *degme as int)));
            assert(ke == Some((s1.iw, s1.pe, s1.w, p3 as int, h1 as int, d1 as int)));
            assert(s1 == DegState { iw: s1.iw, pe: s1.pe, w: s1.w, elen: sb.elen.update(i as int, elen_i), ..sb });
            assert(kv == keep_variables(s1.iw, s1.nv, p2 as int, p1 + sb.len[i as int], p3 as int, h1 as int, d1 as int, n as int));
            assert(kv == Some((s2.iw, pn as int, hash as int, deg as int)));
            assert(s2 == DegState { iw: s2.iw, ..s1 });
            assert(!(pme >= sb.iw.len() || sb.iw[pme as int] < 0 || sb.iw[pme as int] >= n));
            assert(sb.iw[pme as int] == i);
            assert(!(i >= sb.pe.len() || sb.pe[i as int] < 0 || i >= sb.elen.len() || sb.elen[i as int] < 0 || sb.pe[i as int] + sb.elen[i as int] > usize::MAX));
            assert(p1 == sb.pe[i as int] && p2 == p1 + sb.elen[i as int]);
            assert(!(p3 < p1 || p3 - p1 + 1 > isize::MAX || i >= sb.len.len() || p1 + sb.len[i as int] > usize::MAX));
            assert(elen_i == p3 - p1 + 1);
            assert(update_variable(sb, pme as int, me as int, wflg as int, aggressive, n as int) == Some(deg_state_of(pe@, iw@, nv@, elen@, len@, degree@, w@, head@, last@, next@, *nvpiv as int, *nel as int, *degme as int)));
        }
        pme = add_i(pme, 1)?;
    }
    Ok(())
}

/// The arrays that the detection of supervariables works on, and the flag.
pub struct SvState {
    pub pe: Seq<isize>,
    pub elen: Seq<isize>,
    pub nv: Seq<isize>,
    pub head: Seq<isize>,
    pub next: Seq<isize>,
    pub last: Seq<isize>,
    pub w: Seq<isize>,
    pub wflg: int,
}

/// The state made of the given arrays and the flag.
pub open spec fn sv_of(
    pe: Seq<isize>,
    elen: Seq<isize>,
    nv: Seq<isize>,
    head: Seq<isize>,
    next: Seq<isize>,
    last: Seq<isize>,
    w: Seq<isize>,
    wflg: int,
) -> SvState {
    SvState { pe, elen, nv, head, next, last, w, wflg }
}

/// `w[v] = wflg` for the variables `v` of `iw[p..pend]`.
pub open spec fn flag_pattern(w: Seq<isize>, iw: Seq<isize>, p: int, pend: int, wflg: int, n: int) -> Option<Seq<isize>>
    decreases pend - p,
{
    if p >= pend {
        Some(w)
    } else if p >= iw.len() || iw[p] < 0 || iw[p] >= n || iw[p] >= w.len() {
        None
    } else {
        flag_pattern(w.update(iw[p] as int, wflg as isize), iw, p + 1, pend, wflg, n)
    }
}

/// Whether every variable of `iw[q..qend]` is flagged `wflg`, up to the
/// first one that is not.
pub open spec fn pattern_flagged(w: Seq<isize>, iw: Seq<isize>, q: int, qend: int, wflg: int, n: int) -> Option<bool>
    decreases qend - q,
{
    if q >= qend {
        Some(true)
    } else if q >= iw.len() || iw[q] < 0 || iw[q] >= n || iw[q] >= w.len() {
        None
    } else if w[iw[q] as int] != wflg {
        Some(false)
    } else {
        pattern_flagged(w, iw, q + 1, qend, wflg, n)
    }
}

/// The variables `j` after `jlast` in the hash bucket, compared with `i`
/// (lists of length `ln`, `eln` elements, flagged in `w`): one with the same
/// lists is absorbed into `i` (parent `i`, its size added to that of `i`)
/// and taken out of the bucket.
pub open spec fn absorb_scan(
    s: SvState,
    len: Seq<usize>,
    iw: Seq<isize>,
    i: isize,
    iu: int,
    jlast: isize,
    j: isize,
    steps2: int,
    ln: int,
    eln: isize,
    n: int,
) -> Option<SvState>
    decreases n - steps2,
{
    if j == EMPTY {
        Some(s)
    } else if steps2 >= n || j < 0 || j >= len.len() || (len[j as int] == ln && j >= s.elen.len()) {
        None
    } else {
        let ju = j as int;
        let ok0 = len[ju] == ln && s.elen[ju] == eln;
        if ju >= s.pe.len() || s.pe[ju] < 0 || s.pe[ju] + ln > usize::MAX || s.pe[ju] + 1 > usize::MAX {
            None
        } else {
            let q1 = s.pe[ju] as int;
            match pattern_flagged(s.w, iw, q1 + 1, q1 + ln, s.wflg, n) {
                None => None,
                Some(same) => if ok0 && same {
                    if !(isize::MIN < i < isize::MAX) || ju >= s.nv.len() || iu >= s.nv.len() || s.nv[iu] + s.nv[ju] < isize::MIN
                        || s.nv[iu] + s.nv[ju] > isize::MAX || ju >= s.elen.len() || ju >= s.next.len() || jlast < 0 || jlast
                        >= s.next.len() {
                        None
                    } else {
                        let jn = s.next[ju];
                        let s2 = SvState {
                            pe: s.pe.update(ju, spec_flip(i as int) as isize),
                            nv: s.nv.update(iu, (s.nv[iu] + s.nv[ju]) as isize).update(ju, 0),
                            elen: s.elen.update(ju, EMPTY),
                            next: s.next.update(jlast as int, jn),
                            ..s
                        };
                        absorb_scan(s2, len, iw, i, iu, jlast, jn, steps2 + 1, ln, eln, n)
                    }
                } else if ju >= s.next.len() {
                    None
                } else {
                    absorb_scan(s, len, iw, i, iu, j, s.next[ju], steps2 + 1, ln, eln, n)
                },
            }
        }
    }
}

/// The variables `i` of a hash bucket in turn, while another follows each:
/// its pattern flagged, the later ones with the same lists absorbed into
/// it, the flag moved on.
pub open spec fn bucket_scan(s: SvState, len: Seq<usize>, iw: Seq<isize>, i: isize, steps: int, n: int) -> Option<SvState>
    decreases n - steps,
{
    if i == EMPTY {
        Some(s)
    } else if i < 0 || i >= s.next.len() {
        None
    } else if s.next[i as int] == EMPTY {
        Some(s)
    } else if steps >= n {
        None
    } else {
        let iu = i as int;
        if iu >= len.len() || iu >= s.elen.len() || iu >= s.pe.len() || s.pe[iu] < 0 || s.pe[iu] + len[iu] > usize::MAX || s.pe[iu] + 1
            > usize::MAX {
            None
        } else {
            let ln = len[iu] as int;
            let p1 = s.pe[iu] as int;
            match flag_pattern(s.w, iw, p1 + 1, p1 + ln, s.wflg, n) {
                None => None,
                Some(w2) => match absorb_scan(SvState { w: w2, ..s }, len, iw, i, iu, i, s.next[iu], 0, ln, s.elen[iu], n) {
                    None => None,
                    Some(s2) => if s2.wflg + 1 > isize::MAX || iu >= s2.next.len() {
                        None
                    } else {
                        bucket_scan(SvState { wflg: s2.wflg + 1, ..s2 }, len, iw, s2.next[iu], steps + 1, n)
                    },
                },
            }
        }
    }
}

/// The detection for the entry `iw[pme]` of `Lme`: a principal variable in
/// `Lme` (`nv < 0`) has its hash bucket (key `last`) taken out of the
/// degree lists and scanned.
pub open spec fn detect_variable(s: SvState, len: Seq<usize>, iw: Seq<isize>, pme: int, n: int) -> Option<SvState> {
    if pme >= iw.len() || iw[pme] < 0 || iw[pme] >= n || iw[pme] >= s.nv.len() {
        None
    } else if s.nv[iw[pme] as int] >= 0 {
        Some(s)
    } else {
        let iu0 = iw[pme] as int;
        if iu0 >= s.last.len() || s.last[iu0] < 0 || s.last[iu0] >= n || s.last[iu0] >= s.head.len() {
            None
        } else {
            let hash = s.last[iu0] as int;
            let j0 = s.head[hash];
            if j0 == EMPTY {
                bucket_scan(s, len, iw, EMPTY, 0, n)
            } else if j0 < EMPTY {
                if j0 == isize::MIN {
                    None
                } else {
                    bucket_scan(SvState { head: s.head.update(hash, EMPTY), ..s }, len, iw, spec_flip(j0 as int) as isize, 0, n)
                }
            } else if j0 >= s.last.len() {
                None
            } else {
                bucket_scan(SvState { last: s.last.update(j0 as int, EMPTY), ..s }, len, iw, s.last[j0 as int], 0, n)
            }
        }
    }
}

/// The detection for the entries `iw[pme..=pme2]` in turn.
pub open spec fn detect_all(s: SvState, len: Seq<usize>, iw: Seq<isize>, pme: int, pme2: int, n: int) -> Option<SvState>
    decreases pme2 + 1 - pme,
{
    if pme > pme2 {
        Some(s)
    } else {
        match detect_variable(s, len, iw, pme, n) {
            None => None,
            Some(s2) => detect_all(s2, len, iw, pme + 1, pme2, n),
        }
    }
}

/// Finds the supervariables of `Lme` with the same pattern as another one
/// in their hash bucket, and merges each into the first of them: `j` with
/// the same lists as `i` gets `i` as parent, and `i` takes its size.
fn supervairable_detection(
    pme1: usize,
    pme2: isize,
    n: usize,
    iwlen: usize,
    pe: &mut [isize],
    elen: &mut [isize],
    len: &[usize],
    iw: &[isize],
    nv: &mut [isize],
    head: &mut [isize],
    next: &mut [isize],
    last: &mut [isize],
    w: &mut [isize],
    wflg: &mut isize,
) -> (r: Result<(), AmdError>)
    requires
        n <= isize::MAX,
    ensures
        r is Ok ==> detect_all(
            sv_of(old(pe)@, old(elen)@, old(nv)@, old(head)@, old(next)@, old(last)@, old(w)@, *old(wflg) as int),
            len@,
            iw@,
            pme1 as int,
            pme2 as int,
            n as int,
        ) == Some(sv_of(final(pe)@, final(elen)@, final(nv)@, final(head)@, final(next)@, final(last)@, final(w)@, *final(wflg) as int)),
{
    let ghost full = detect_all(sv_of(pe@, elen@, nv@, head@, next@, last@, w@, *wflg as int), len@, iw@, pme1 as int, pme2 as int, n as int);
    let mut pme = sx(pme1)?;
    while pme <= pme2
        invariant
            n <= isize::MAX,
            pme >= 0,
            full == detect_all(sv_of(pe@, elen@, nv@, head@, next@, last@, w@, *wflg as int), len@, iw@, pme as int, pme2 as int, n as int),
        decreases pme2 + 1 - pme,
    {
        let ghost sb = sv_of(pe@, elen@, nv@, head@, next@, last@, w@, *wflg as int);
        let iu0 = idx(at(iw, pme as usize)?, n)?;
        // nv[i] < 0: i is a principal variable in Lme
        if at(nv, iu0)? < 0 {
            // the hash key of i is in last[i]
            let hash = idx(at(last, iu0)?, n)?;
            let j0 = at(head, hash)?;
            let mut i: isize;
            if j0 == EMPTY {
                // the hash bucket and the degree list are both empty
                i = EMPTY;
            } else if j0 < EMPTY {
                // the degree list is empty
                i = fl(j0)?;
                set(head, hash, EMPTY)?;
            } else {
                let ju = j0 as usize;
                i = at(last, ju)?;
                set(last, ju, EMPTY)?;
            }
            let ghost s0 = sv_of(pe@, elen@, nv@, head@, next@, last@, w@, *wflg as int);
            let ghost i0 = i;
            proof {
                assert(detect_variable(sb, len@, iw@, pme as int, n as int) == bucket_scan(s0, len@, iw@, i0, 0, n as int));
            }
            // each variable of the bucket in turn, while another follows it
            let mut steps: usize = 0;
            loop
                invariant
                    n <= isize::MAX,
                    steps <= n,
                    bucket_scan(s0, len@, iw@, i0, 0, n as int) == bucket_scan(sv_of(pe@, elen@, nv@, head@, next@, last@, w@, *wflg as int), len@, iw@, i, steps as int, n as int),
                ensures
                    bucket_scan(s0, len@, iw@, i0, 0, n as int) == Some(sv_of(pe@, elen@, nv@, head@, next@, last@, w@, *wflg as int)),
                decreases n - steps,
            {
                if i == EMPTY {
                    break;
                }
                let iu = ux(i)?;
                if at(next, iu)? == EMPTY {
                    break;
                }
                if steps >= n {
                    return Err(AmdError::Inconsistent);
                }
                let ghost sc = sv_of(pe@, elen@, nv@, head@, next@, last@, w@, *wflg as int);
                steps = steps + 1;
                let ln = at_len(len, iu)?;
                let eln = at(elen, iu)?;
                let p1 = ux(at(pe, iu)?)?;
                let pend = add_u(p1, ln)?;
                // flag the pattern of i, skipping its first element (me)
                let mut p = add_u(p1, 1)?;
                let ghost fw = flag_pattern(w@, iw@, p as int, pend as int, *wflg as int, n as int);
                while p < pend
                    invariant
                        n <= isize::MAX,
                        fw == flag_pattern(w@, iw@, p as int, pend as int, *wflg as int, n as int),
                    decreases pend - p,
                {
                    let v = idx(at(iw, p)?, n)?;
                    set(w, v, *wflg)?;
                    p = p + 1;
                }
                let ghost s1 = sv_of(pe@, elen@, nv@, head@, next@, last@, w@, *wflg as int);
                let mut jlast: isize = i;
                let mut j = at(next, iu)?;
                let ghost j_first = j;
                let mut steps2: usize = 0;
                loop
                    invariant
                        n <= isize::MAX,
                        steps2 <= n,
                        0 <= iu,
                        i == iu,
                        absorb_scan(s1, len@, iw@, i, iu as int, i, j_first, 0, ln as int, eln, n as int)
                            == absorb_scan(sv_of(pe@, elen@, nv@, head@, next@, last@, w@, *wflg as int), len@, iw@, i, iu as int, jlast, j, steps2 as int, ln as int, eln, n as int),
                    ensures
                        absorb_scan(s1, len@, iw@, i, iu as int, i, j_first, 0, ln as int, eln, n as int) == Some(sv_of(pe@, elen@, nv@, head@, next@, last@, w@, *wflg as int)),
                    decreases n - steps2,
                {
                    if j == EMPTY {
                        break;
                    }
                    if steps2 >= n {
                        return Err(AmdError::Inconsistent);
                    }
                    let ghost sj = sv_of(pe@, elen@, nv@, head@, next@, last@, w@, *wflg as int);
                    let ghost jlast0 = jlast;
                    let ghost j0g = j;
                    let ghost st2 = steps2;
                    steps2 = steps2 + 1;
                    let ju = ux(j)?;
                    // whether j and i have the same pattern
                    let mut ok = at_len(len, ju)? == ln && at(elen, ju)? == eln;
                    let ghost ok0 = ok;
                    let q1 = ux(at(pe, ju)?)?;
                    let qend = add_u(q1, ln)?;
                    let mut q = add_u(q1, 1)?;
                    let ghost pf = pattern_flagged(w@, iw@, q as int, qend as int, *wflg as int, n as int);
                    while q < qend
                        invariant_except_break
                            ok == ok0,
                        invariant
                            n <= isize::MAX,
                            pf == pattern_flagged(w@, iw@, q as int, qend as int, *wflg as int, n as int),
                        ensures
                            pf matches Some(same) && ok == (ok0 && same),
                        decreases qend - q,
                    {
                        let v = idx(at(iw, q)?, n)?;
                        if at(w, v)? != *wflg {
                            ok = false;
                            break;
                        }
                        q = q + 1;
                    }
                    if ok {
                        // j is absorbed into i
                        set(pe, ju, fl(i)?)?;
                        // both are negated, being in Lme: their sizes add up
                        let nvj = at(nv, ju)?;
                        set(nv, iu, add_i(at(nv, iu)?, nvj)?)?;
                        set(nv, ju, 0)?;
                        set(elen, ju, EMPTY)?;
                        // delete j from the hash bucket
                        j = at(next, ju)?;
                        set(next, ux(jlast)?, j)?;
                    } else {
                        jlast = j;
                        j = at(next, ju)?;
                    }
                    proof {
                        assert(absorb_scan(sj, len@, iw@, i, iu as int, jlast0, j0g, st2 as int, ln as int, eln, n as int)
                            == absorb_scan(sv_of(pe@, elen@, nv@, head@, next@, last@, w@, *wflg as int), len@, iw@, i, iu as int, jlast, j, steps2 as int, ln as int, eln, n as int));
                    }
                }
                // no more variables can be absorbed into i:
                // go to the next i in the bucket and clear the flags
                *wflg = add_i(*wflg, 1)?;
                i = at(next, iu)?;
                proof {
                    assert(bucket_scan(sc, len@, iw@, iu as isize, steps - 1, n as int) == bucket_scan(sv_of(pe@, elen@, nv@, head@, next@, last@, w@, *wflg as int), len@, iw@, i, steps as int, n as int));
                }
            }
        }
        proof {
            assert(detect_variable(sb, len@, iw@, pme as int, n as int) == Some(sv_of(pe@, elen@, nv@, head@, next@, last@, w@, *wflg as int)));
        }
        pme = add_i(pme, 1)?;
    }
    Ok(())
}

/// The arrays that putting the supervariables of `Lme` back works on.
pub struct RestoreState {
    pub nv: Seq<isize>,
    pub iw: Seq<isize>,
    pub head: Seq<isize>,
    pub last: Seq<isize>,
    pub next: Seq<isize>,
    pub degree: Seq<isize>,
    pub mindeg: int,
    pub p: int,
}

/// Variable `i` pushed at the head of degree list `deg`.
pub open spec fn pushed_lists(s: RestoreState, i: int, deg: int) -> RestoreState {
    let h = s.head[deg];
    RestoreState {
        head: s.head.update(deg, i as isize),
        next: s.next.update(i, h),
        last: (if h != EMPTY {
            s.last.update(h as int, i as isize)
        } else {
            s.last
        }).update(i, EMPTY),
        ..s
    }
}

/// One entry `iw[pme]` of `Lme`: a variable marked by a negative size is a
/// principal one, which gets its size back, the external degree
/// `min(degree + degme - nvi, nleft - nvi)`, a place at the head of that
/// degree list and in the packed pattern, and may lower `mindeg`.
pub open spec fn restore_step(s: RestoreState, pme: int, nleft: int, degme: int) -> RestoreState {
    let i = s.iw[pme] as int;
    let nvi = -s.nv[i];
    if nvi > 0 {
        let d = s.degree[i] + degme - nvi;
        let deg = if nleft - nvi < d { nleft - nvi } else { d };
        let t = pushed_lists(s, i, deg);
        RestoreState {
            nv: t.nv.update(i, nvi as isize),
            degree: t.degree.update(i, deg as isize),
            mindeg: if deg < t.mindeg { deg } else { t.mindeg },
            iw: t.iw.update(t.p, i as isize),
            p: t.p + 1,
            ..t
        }
    } else {
        s
    }
}

/// The entries `iw[pme..=pme2]` in turn.
pub open spec fn restore_all(s: RestoreState, pme: int, pme2: int, nleft: int, degme: int) -> RestoreState
    decreases pme2 + 1 - pme,
{
    if pme > pme2 {
        s
    } else {
        restore_all(restore_step(s, pme, nleft, degme), pme + 1, pme2, nleft, degme)
    }
}

/// The state made of the given arrays and counts.
pub open spec fn restore_of(
    nv: Seq<isize>,
    iw: Seq<isize>,
    head: Seq<isize>,
    last: Seq<isize>,
    next: Seq<isize>,
    degree: Seq<isize>,
    mindeg: int,
    p: int,
) -> RestoreState {
    RestoreState { nv, iw, head, last, next, degree, mindeg, p }
}

/// Puts the principal supervariables of `Lme` back: their sizes positive
/// again, their external degrees bounded by the variables left, each at the
/// head of its degree list, `mindeg` lowered to the least of them, and
/// their list (the pattern of the new element) packed from `pme1`.
/// Returns the end of the packed pattern.
fn restore_degree_list(
    pme1: usize,
    pme2: isize,
    n: usize,
    nel: usize,
    degme: usize,
    nv: &mut [isize],
    iw: &mut [isize],
    head: &mut [isize],
    last: &mut [isize],
    next: &mut [isize],
    degree: &mut [isize],
    aggressive: bool,
    mindeg: &mut usize,
) -> (r: Result<usize, AmdError>)
    requires
        n <= isize::MAX,
    ensures
        r matches Ok(pend) ==> restore_of(final(nv)@, final(iw)@, final(head)@, final(last)@, final(next)@, final(degree)@, *final(mindeg) as int, pend as int)
            == restore_all(
            restore_of(old(nv)@, old(iw)@, old(head)@, old(last)@, old(next)@, old(degree)@, *old(mindeg) as int, pme1 as int),
            pme1 as int,
            pme2 as int,
            n - nel,
            degme as int,
        ),
{
    let ghost s0 = restore_of(nv@, iw@, head@, last@, next@, degree@, *mindeg as int, pme1 as int);
    let mut p = pme1;
    let nleft = sx(sub_u(n, nel)?)?;
    let mut pme = sx(pme1)?;
    while pme <= pme2
        invariant
            n <= isize::MAX,
            pme >= 0,
            nleft == n - nel,
            restore_all(s0, pme1 as int, pme2 as int, n - nel, degme as int) == restore_all(
                restore_of(nv@, iw@, head@, last@, next@, degree@, *mindeg as int, p as int),
                pme as int,
                pme2 as int,
                n - nel,
                degme as int,
            ),
        decreases pme2 + 1 - pme,
    {
        let ghost sb = restore_of(nv@, iw@, head@, last@, next@, degree@, *mindeg as int, p as int);
        let i = idx(at(iw, pme as usize)?, n)?;
        let nvi = sub_i(0, at(nv, i)?)?;
        if nvi > 0 {
            // i is a principal variable in Lme: nv[i] positive again
            set(nv, i, nvi)?;
            // the external degree, as the size of the current element
            let mut deg = sub_i(add_i(at(degree, i)?, sx(degme)?)?, nvi)?;
            let cap = sub_i(nleft, nvi)?;
            if cap < deg {
                deg = cap;
            }
            let degu = ux(deg)?;
            // place the supervariable at the head of its degree list
            link(i, n, degu, head, last, next)?;
            set(degree, i, deg)?;
            if degu < *mindeg {
                *mindeg = degu;
            }
            // place the supervariable in the element pattern
            set(iw, p, i as isize)?;
            p = add_u(p, 1)?;
            proof {
                assert(restore_of(nv@, iw@, head@, last@, next@, degree@, *mindeg as int, p as int) == restore_step(sb, pme as int, n - nel, degme as int));
            }
        } else {
            proof {
                assert(restore_of(nv@, iw@, head@, last@, next@, degree@, *mindeg as int, p as int) == restore_step(sb, pme as int, n - nel, degme as int));
            }
        }
        pme = add_i(pme, 1)?;
    }
    Ok(p)
}

/// Records the new element `me`: its size `nvpiv` and the length of its
/// pattern `iw[pme1..p]`; an element with nothing left is a root of the
/// assembly tree. When it was built at the free end of `iw`, the space past
/// its pattern is free again.
fn finalize_new_element(
    me: usize,
    nvpiv: usize,
    pme1: usize,
    p: usize,
    pfree: &mut usize,
    nv: &mut [isize],
    len: &mut [usize],
    pe: &mut [isize],
    w: &mut [isize],
    elenme: isize,
) -> (r: Result<(), AmdError>)
    ensures
        r is Ok <==> (nvpiv <= isize::MAX && me < old(nv)@.len() && pme1 <= p && me < old(len)@.len() && (p == pme1
            ==> me < old(pe)@.len() && me < old(w)@.len())),
        r is Ok ==> final(nv)@ == old(nv)@.update(me as int, nvpiv as isize),
        r is Ok ==> final(len)@ == old(len)@.update(me as int, (p - pme1) as usize),
        r is Ok ==> final(pe)@ == (if p == pme1 {
            old(pe)@.update(me as int, EMPTY)
        } else {
            old(pe)@
        }),
        r is Ok ==> final(w)@ == (if p == pme1 {
            old(w)@.update(me as int, 0)
        } else {
            old(w)@
        }),
        r is Ok ==> *final(pfree) == (if elenme != 0 {
            p
        } else {
            *old(pfree)
        }),
{
    set(nv, me, sx(nvpiv)?)?;
    let len_me = sub_u(p, pme1)?;
    set_len(len, me, len_me)?;
    if len_me == 0 {
        // nothing is left of the pivot element: a root of the assembly tree
        set(pe, me, EMPTY)?;
        set(w, me, 0)?;
    }
    if elenme != 0 {
        // the element was not built in place: free what follows it
        *pfree = p;
    }
    Ok(())
}

/// `s` with its first `n` values flipped.
pub open spec fn flip_prefix(s: Seq<isize>, n: int) -> Seq<isize> {
    Seq::new(s.len(), |k: int| if k < n { spec_flip(s[k] as int) as isize } else { s[k] })
}

/// `w` is a path up the tree `pe` through non-principal variables
/// (`nv == 0`): each of its nodes but the last is non-principal and has the
/// next one as parent.
pub open spec fn tree_walk(pe: Seq<isize>, nv: Seq<isize>, n: int, w: Seq<int>) -> bool {
    &&& w.len() >= 2
    &&& forall|t: int| 0 <= t < w.len() ==> 0 <= #[trigger] w[t] < n
    &&& forall|t: int| 0 <= t < w.len() - 1 ==> nv[#[trigger] w[t]] == 0 && pe[w[t]] == w[t + 1]
}

/// Node `y` lies up the tree `pe` from the non-principal node `x`, past
/// non-principal nodes only.
pub open spec fn up_path(pe: Seq<isize>, nv: Seq<isize>, n: int, x: int, y: int) -> bool {
    exists|w: Seq<int>| #[trigger] tree_walk(pe, nv, n, w) && w[0] == x && w[w.len() - 1] == y
}

proof fn lemma_up_step(pe: Seq<isize>, nv: Seq<isize>, n: int, x: int)
    requires
        0 <= x < n,
        nv[x] == 0,
        0 <= pe[x] < n,
    ensures
        up_path(pe, nv, n, x, pe[x] as int),
{
    let w = seq![x, pe[x] as int];
    assert(tree_walk(pe, nv, n, w)) by {
        assert forall|t: int| 0 <= t < w.len() - 1 implies nv[#[trigger] w[t]] == 0 && pe[w[t]] == w[t + 1] by {
            assert(t == 0);
        }
    }
}

proof fn lemma_up_trans(pe: Seq<isize>, nv: Seq<isize>, n: int, x: int, y: int, z: int)
    requires
        up_path(pe, nv, n, x, y),
        up_path(pe, nv, n, y, z),
    ensures
        up_path(pe, nv, n, x, z),
{
    let w1 = choose|w: Seq<int>| #[trigger] tree_walk(pe, nv, n, w) && w[0] == x && w[w.len() - 1] == y;
    let w2 = choose|w: Seq<int>| #[trigger] tree_walk(pe, nv, n, w) && w[0] == y && w[w.len() - 1] == z;
    let w = w1 + w2.drop_first();
    assert(tree_walk(pe, nv, n, w)) by {
        assert forall|t: int| 0 <= t < w.len() implies 0 <= #[trigger] w[t] < n by {
            if t >= w1.len() {
                assert(w[t] == w2[t - w1.len() + 1]);
            }
        }
        assert forall|t: int| 0 <= t < w.len() - 1 implies nv[#[trigger] w[t]] == 0 && pe[w[t]] == w[t + 1] by {
            if t < w1.len() - 1 {
                assert(nv[w1[t]] == 0 && pe[w1[t]] == w1[t + 1]);
            } else if t == w1.len() - 1 {
                assert(w[t] == y && w2[0] == y && w[t + 1] == w2[1]);
                assert(nv[w2[0]] == 0 && pe[w2[0]] == w2[1]);
            } else {
                let u = t - w1.len() + 1;
                assert(w[t] == w2[u] && w[t + 1] == w2[u + 1]);
                assert(nv[w2[u]] == 0 && pe[w2[u]] == w2[u + 1]);
            }
        }
    }
    assert(w[w.len() - 1] == w2[w2.len() - 1]);
}

/// Walks up the tree from one node agree as far as both go.
proof fn lemma_walks_agree(pe: Seq<isize>, nv: Seq<isize>, n: int, w1: Seq<int>, w2: Seq<int>, t: int)
    requires
        tree_walk(pe, nv, n, w1),
        tree_walk(pe, nv, n, w2),
        w1[0] == w2[0],
        0 <= t < w1.len(),
        t < w2.len(),
    ensures
        w1[t] == w2[t],
    decreases t,
{
    if t > 0 {
        lemma_walks_agree(pe, nv, n, w1, w2, t - 1);
        assert(pe[w1[t - 1]] == w1[t]);
        assert(pe[w2[t - 1]] == w2[t]);
    }
}

/// The first principal node up the tree from `x` lies up the tree from each
/// non-principal node between them.
proof fn lemma_up_split(pe: Seq<isize>, nv: Seq<isize>, n: int, x: int, j: int, e: int)
    requires
        up_path(pe, nv, n, x, j),
        nv[j] == 0,
        up_path(pe, nv, n, x, e),
        nv[e] != 0,
    ensures
        up_path(pe, nv, n, j, e),
{
    let a = choose|w: Seq<int>| #[trigger] tree_walk(pe, nv, n, w) && w[0] == x && w[w.len() - 1] == j;
    let b = choose|w: Seq<int>| #[trigger] tree_walk(pe, nv, n, w) && w[0] == x && w[w.len() - 1] == e;
    if b.len() <= a.len() {
        let t = b.len() - 1;
        lemma_walks_agree(pe, nv, n, a, b, t);
        if t < a.len() - 1 {
            assert(nv[a[t]] == 0);
        }
        assert(false);
    }
    let k = a.len() - 1;
    lemma_walks_agree(pe, nv, n, a, b, k);
    let w = b.subrange(k, b.len() as int);
    assert(tree_walk(pe, nv, n, w)) by {
        assert forall|t: int| 0 <= t < w.len() implies 0 <= #[trigger] w[t] < n by {
            assert(w[t] == b[t + k]);
        }
        assert forall|t: int| 0 <= t < w.len() - 1 implies nv[#[trigger] w[t]] == 0 && pe[w[t]] == w[t + 1] by {
            assert(w[t] == b[t + k] && w[t + 1] == b[t + k + 1]);
            assert(nv[b[t + k]] == 0 && pe[b[t + k]] == b[t + k + 1]);
        }
    }
    assert(w[0] == j && w[w.len() - 1] == e);
}

/// The tree `pc` compresses the tree `pe0` (flipped parents) over `0..n`:
/// principal nodes keep their parents, a non-principal node without one
/// keeps it, one whose parent is a node points up its path; below `done`,
/// straight at a principal node.
pub open spec fn compressed(pe0: Seq<isize>, pc: Seq<isize>, nv: Seq<isize>, n: int, done: int) -> bool {
    &&& pc.len() == pe0.len()
    &&& n <= pc.len()
    &&& forall|x: int| 0 <= x < n && nv[x] != 0 ==> #[trigger] pc[x] == pe0[x]
    &&& forall|x: int| 0 <= x < n && nv[x] == 0 && !(0 <= pe0[x] < n) ==> #[trigger] pc[x] == pe0[x]
    &&& forall|x: int| 0 <= x < n && nv[x] == 0 && 0 <= pe0[x] < n ==> up_path(pe0, nv, n, x, #[trigger] pc[x] as int)
    &&& forall|x: int| 0 <= x < n && x < done && nv[x] == 0 && 0 <= pe0[x] < n ==> nv[#[trigger] pc[x] as int] != 0
    &&& forall|x: int| n <= x < pc.len() ==> #[trigger] pc[x] == pe0[x]
}

proof fn lemma_compressed_set(pe0: Seq<isize>, pc: Seq<isize>, nv: Seq<isize>, n: int, done: int, j: int, e: int)
    requires
        compressed(pe0, pc, nv, n, done),
        0 <= j < n,
        j < pc.len(),
        nv[j] == 0,
        0 <= pe0[j] < n,
        up_path(pe0, nv, n, j, e),
        nv[e] != 0,
        0 <= e < n,
        e <= isize::MAX,
    ensures
        compressed(pe0, pc.update(j, e as isize), nv, n, done),
{
    let pc2 = pc.update(j, e as isize);
    assert forall|x: int| 0 <= x < n && nv[x] == 0 && 0 <= pe0[x] < n implies up_path(pe0, nv, n, x, #[trigger] pc2[x] as int) by {
        if x == j {
            assert(pc2[x] as int == e);
        } else {
            assert(pc2[x] == pc[x]);
        }
    }
    assert forall|x: int| 0 <= x < n && x < done && nv[x] == 0 && 0 <= pe0[x] < n implies nv[#[trigger] pc2[x] as int] != 0 by {
        if x == j {
            assert(pc2[x] as int == e);
        } else {
            assert(pc2[x] == pc[x]);
        }
    }
    assert forall|x: int| 0 <= x < n && nv[x] != 0 implies #[trigger] pc2[x] == pe0[x] by {
        assert(x != j);
        assert(pc2[x] == pc[x]);
    }
    assert forall|x: int| 0 <= x < n && nv[x] == 0 && !(0 <= pe0[x] < n) implies #[trigger] pc2[x] == pe0[x] by {
        assert(x != j);
        assert(pc2[x] == pc[x]);
    }
    assert forall|x: int| n <= x < pc2.len() implies #[trigger] pc2[x] == pe0[x] by {
        assert(pc2[x] == pc[x]);
    }
}

/// Restores `pe` (the parents, flipped during the elimination) and `elen`
/// (the element sizes), then points every non-principal variable straight
/// at the element it was merged into: the first principal node up its path
/// (path compression). Dense variables (no parent) are left as they are.
fn compress_paths(n: usize, pe: &mut [isize], elen: &mut [isize], nv: &[isize]) -> (r: Result<(), AmdError>)
    ensures
        r is Ok ==> final(elen)@ == flip_prefix(old(elen)@, n as int),
        r is Ok ==> compressed(flip_prefix(old(pe)@, n as int), final(pe)@, nv@, n as int, n as int),
{
    let ghost pe_in = pe@;
    let ghost elen_in = elen@;
    let mut i: usize = 0;
    while i < n
        invariant
            i <= n,
            i <= pe_in.len(),
            pe@.len() == pe_in.len(),
            forall|k: int| 0 <= k < pe_in.len() ==> #[trigger] pe@[k] == (if k < i { spec_flip(pe_in[k] as int) as isize } else { pe_in[k] }),
        decreases n - i,
    {
        set(pe, i, fl(at(pe, i)?)?)?;
        i = i + 1;
    }
    let ghost pe0 = pe@;
    proof {
        assert(pe0 =~= flip_prefix(pe_in, n as int));
    }
    let mut i: usize = 0;
    while i < n
        invariant
            i <= n,
            pe@ == pe0,
            pe0 == flip_prefix(pe_in, n as int),
            elen@.len() == elen_in.len(),
            forall|k: int| 0 <= k < elen_in.len() ==> #[trigger] elen@[k] == (if k < i { spec_flip(elen_in[k] as int) as isize } else { elen_in[k] }),
        decreases n - i,
    {
        set(elen, i, fl(at(elen, i)?)?)?;
        i = i + 1;
    }
    proof {
        assert(elen@ =~= flip_prefix(elen_in, n as int));
    }
    let ghost nvs = nv@;
    proof {
        assert forall|x: int| 0 <= x < n && nvs[x] == 0 && 0 <= pe0[x] < n implies up_path(pe0, nvs, n as int, x, #[trigger] pe0[x] as int) by {
            lemma_up_step(pe0, nvs, n as int, x);
        }
    }
    let mut i: usize = 0;
    while i < n
        invariant
            i <= n,
            nvs == nv@,
            pe0 == flip_prefix(pe_in, n as int),
            elen@ == flip_prefix(elen_in, n as int),
            compressed(pe0, pe@, nvs, n as int, i as int),
        decreases n - i,
    {
        if at(nv, i)? == 0 {
            // i is an unordered variable: follow its path up to an element e
            let mut j = at(pe, i)?;
            if j != EMPTY {
                proof {
                    assert(nvs[i as int] == 0);
                }
                let mut steps: usize = 0;
                loop
                    invariant
                        steps <= n,
                        i < n,
                        nvs == nv@,
                        nvs[i as int] == 0,
                        compressed(pe0, pe@, nvs, n as int, i as int),
                        up_path(pe0, nvs, n as int, i as int, j as int) || !(0 <= j < n),
                    ensures
                        compressed(pe0, pe@, nvs, n as int, i as int),
                        up_path(pe0, nvs, n as int, i as int, j as int),
                        0 <= j < n,
                        nvs[j as int] != 0,
                    decreases n - steps,
                {
                    let ju = idx(j, n)?;
                    if at(nv, ju)? != 0 {
                        break;
                    }
                    if steps >= n {
                        return Err(AmdError::Inconsistent);
                    }
                    steps = steps + 1;
                    let jn = at(pe, ju)?;
                    proof {
                        if 0 <= pe0[ju as int] < n {
                            lemma_up_trans(pe0, nvs, n as int, i as int, j as int, jn as int);
                        }
                    }
                    j = jn;
                }
                let e = j;
                let ghost eg = e as int;
                // traverse the path again, pointing each node at e
                j = sx(i)?;
                let mut steps: usize = 0;
                loop
                    invariant
                        steps <= n,
                        i < n,
                        nvs == nv@,
                        nvs[i as int] == 0,
                        0 <= eg < n,
                        nvs[eg] != 0,
                        e == eg,
                        up_path(pe0, nvs, n as int, i as int, eg),
                        compressed(pe0, pe@, nvs, n as int, i as int),
                        j == i || up_path(pe0, nvs, n as int, i as int, j as int) || !(0 <= j < n),
                        (steps == 0 && j == i) || pe@[i as int] == e,
                    ensures
                        compressed(pe0, pe@, nvs, n as int, i as int),
                        pe@[i as int] == e,
                    decreases n - steps,
                {
                    let ju = idx(j, n)?;
                    if at(nv, ju)? != 0 {
                        break;
                    }
                    if steps >= n {
                        return Err(AmdError::Inconsistent);
                    }
                    steps = steps + 1;
                    let jnext = at(pe, ju)?;
                    proof {
                        if ju as int != i as int {
                            lemma_up_split(pe0, nvs, n as int, i as int, ju as int, eg);
                        }
                        let w = choose|w: Seq<int>| #[trigger] tree_walk(pe0, nvs, n as int, w) && w[0] == ju && w[w.len() - 1] == eg;
                        assert(nvs[w[0]] == 0 && pe0[w[0]] == w[1] && 0 <= w[1] < n);
                        assert(up_path(pe0, nvs, n as int, ju as int, jnext as int));
                        if ju as int != i as int {
                            lemma_up_trans(pe0, nvs, n as int, i as int, ju as int, jnext as int);
                        }
                        lemma_compressed_set(pe0, pe@, nvs, n as int, i as int, ju as int, eg);
                    }
                    set(pe, ju, e)?;
                    j = jnext;
                }
            }
        }
        i = i + 1;
    }
    Ok(())
}

/// The arrays of the postorder search: the child lists, the numbers given,
/// the stack `stack[0..=head]` and the next number `k`.
pub struct PostState {
    pub child: Seq<isize>,
    pub order: Seq<isize>,
    pub stack: Seq<isize>,
    pub head: int,
    pub k: int,
}

/// The top of the stack after counting the siblings from `f` on, one level
/// each; `None` where the list is longer than `n` or leaves the arrays.
pub open spec fn count_siblings(sibling: Seq<isize>, f: isize, s2: int, n: int, head: int) -> Option<int>
    decreases n - s2,
{
    if f == EMPTY {
        Some(head)
    } else if s2 >= n || head + 1 > isize::MAX || f < 0 || f >= sibling.len() {
        None
    } else {
        count_siblings(sibling, sibling[f as int], s2 + 1, n, head + 1)
    }
}

/// The stack after placing the siblings from `f` on at `h`, `h - 1`, ...
/// (so that the first comes out first); `None` where the list is longer
/// than `n` or leaves the arrays.
pub open spec fn push_siblings(stack: Seq<isize>, sibling: Seq<isize>, f: isize, h: int, s2: int, n: int) -> Option<Seq<isize>>
    decreases n - s2,
{
    if f == EMPTY {
        Some(stack)
    } else if s2 >= n || h < 0 || h >= stack.len() || f < 0 || f >= sibling.len() {
        None
    } else {
        push_siblings(stack.update(h, f), sibling, sibling[f as int], h - 1, s2 + 1, n)
    }
}

/// One step of the search from node `i` on top of the stack: with children
/// left, they go on the stack and its list is used up; without, `i` is
/// popped and numbered `k`.
pub open spec fn post_step(s: PostState, sibling: Seq<isize>, n: int) -> Option<PostState> {
    if s.head >= s.stack.len() || s.stack[s.head] < 0 || s.stack[s.head] >= n || s.stack[s.head] >= s.child.len() {
        None
    } else {
        let i = s.stack[s.head] as int;
        let first = s.child[i];
        if first != EMPTY {
            match count_siblings(sibling, first, 0, n, s.head) {
                None => None,
                Some(h2) => match push_siblings(s.stack, sibling, first, h2, 0, n) {
                    None => None,
                    Some(st2) => Some(PostState { child: s.child.update(i, EMPTY), stack: st2, head: h2, ..s }),
                },
            }
        } else if s.k > isize::MAX || i >= s.order.len() || s.k + 1 > usize::MAX {
            None
        } else {
            Some(PostState { head: s.head - 1, order: s.order.update(i, s.k as isize), k: s.k + 1, ..s })
        }
    }
}

/// The search until the stack is empty, in at most `limit - steps` steps.
pub open spec fn post_run(s: PostState, sibling: Seq<isize>, n: int, steps: int, limit: int) -> Option<PostState>
    decreases limit - steps,
{
    if s.head < 0 {
        Some(s)
    } else if steps >= limit {
        None
    } else {
        match post_step(s, sibling, n) {
            None => None,
            Some(s2) => post_run(s2, sibling, n, steps + 1, limit),
        }
    }
}

/// The search after one more step from `s`.
pub open spec fn post_after(s: PostState, sibling: Seq<isize>, n: int, steps: int, limit: int) -> Option<PostState> {
    match post_step(s, sibling, n) {
        None => None,
        Some(s2) => post_run(s2, sibling, n, steps, limit),
    }
}

/// The postorder search of the tree under `root`, numbering from `k`, in at
/// most `2n` steps.
pub open spec fn post_order_of(
    root: int,
    k: int,
    child: Seq<isize>,
    sibling: Seq<isize>,
    order: Seq<isize>,
    stack: Seq<isize>,
    n: int,
) -> Option<PostState> {
    if root > isize::MAX || stack.len() == 0 || n + n > usize::MAX {
        None
    } else {
        post_run(PostState { child, order, stack: stack.update(0, root as isize), head: 0, k }, sibling, n, 0, n + n)
    }
}

/// Numbers the nodes of the tree under `root` in postorder from `k` on,
/// with an explicit stack: a node's children (the list `child[i]`, linked
/// through `sibling`) come before it, in the order of the list. `order[i]`
/// gets the number of node `i`; the child lists are used up. Returns the
/// next number.
fn post_tree(
    root: usize,
    k: usize,
    child: &mut [isize],
    sibling: &[isize],
    order: &mut [isize],
    stack: &mut [isize],
    n: usize,
) -> (r: Result<usize, AmdError>)
    requires
        n <= isize::MAX,
    ensures
        r is Ok <==> post_order_of(root as int, k as int, old(child)@, sibling@, old(order)@, old(stack)@, n as int) is Some,
        r matches Ok(k2) ==> post_order_of(root as int, k as int, old(child)@, sibling@, old(order)@, old(stack)@, n as int)
            matches Some(t) && t.child == final(child)@ && t.order == final(order)@ && t.stack == final(stack)@ && t.k == k2,
{
    let ghost full = post_order_of(root as int, k as int, child@, sibling@, order@, stack@, n as int);
    let mut kk = k;
    let mut head: isize = 0;
    set(stack, 0, sx(root)?)?;
    let limit = add_u(n, n)?;
    let mut steps: usize = 0;
    loop
        invariant
            n <= isize::MAX,
            steps <= limit,
            limit == n + n,
            full == post_order_of(root as int, k as int, old(child)@, sibling@, old(order)@, old(stack)@, n as int),
            full == post_run(PostState { child: child@, order: order@, stack: stack@, head: head as int, k: kk as int }, sibling@, n as int, steps as int, limit as int),
        ensures
            full == Some(PostState { child: child@, order: order@, stack: stack@, head: head as int, k: kk as int }),
        decreases limit - steps,
    {
        if head < 0 {
            break;
        }
        if steps >= limit {
            return Err(AmdError::Inconsistent);
        }
        let ghost sb = PostState { child: child@, order: order@, stack: stack@, head: head as int, k: kk as int };
        steps = steps + 1;
        proof {
            assert(full == post_after(sb, sibling@, n as int, steps as int, limit as int));
        }
        let i = idx(at(stack, head as usize)?, n)?;
        let first = at(child, i)?;
        if first != EMPTY {
            // the children of i are not yet ordered: push them in reverse
            // order, so that the first of the list is popped first
            let ghost h0 = head as int;
            let mut f = first;
            let mut s2: usize = 0;
            loop
                invariant
                    full == post_order_of(root as int, k as int, old(child)@, sibling@, old(order)@, old(stack)@, n as int),
                    full == post_after(sb, sibling@, n as int, steps as int, limit as int),
                    sb.head == h0,
                    0 <= sb.head < sb.stack.len(),
                    i == sb.stack[sb.head],
                    i < n,
                    i < sb.child.len(),
                    first == sb.child[i as int],
                    first != EMPTY,
                    child@ == sb.child,
                    stack@ == sb.stack,
                    order@ == sb.order,
                    kk == sb.k,
                    n <= isize::MAX,
                    s2 <= n,
                    count_siblings(sibling@, first, 0, n as int, h0) == count_siblings(sibling@, f, s2 as int, n as int, head as int),
                ensures
                    count_siblings(sibling@, first, 0, n as int, h0) == Some(head as int),
                decreases n - s2,
            {
                if f == EMPTY {
                    break;
                }
                if s2 >= n {
                    return Err(AmdError::Inconsistent);
                }
                s2 = s2 + 1;
                head = add_i(head, 1)?;
                f = at(sibling, ux(f)?)?;
            }
            let mut h = head;
            f = first;
            let mut s2: usize = 0;
            let ghost st0 = stack@;
            loop
                invariant
                    full == post_order_of(root as int, k as int, old(child)@, sibling@, old(order)@, old(stack)@, n as int),
                    full == post_after(sb, sibling@, n as int, steps as int, limit as int),
                    sb.head == h0,
                    0 <= sb.head < sb.stack.len(),
                    i == sb.stack[sb.head],
                    i < n,
                    i < sb.child.len(),
                    first == sb.child[i as int],
                    first != EMPTY,
                    child@ == sb.child,
                    st0 == sb.stack,
                    order@ == sb.order,
                    kk == sb.k,
                    count_siblings(sibling@, first, 0, n as int, h0) == Some(head as int),
                    n <= isize::MAX,
                    s2 <= n,
                    push_siblings(st0, sibling@, first, head as int, 0, n as int) == push_siblings(stack@, sibling@, f, h as int, s2 as int, n as int),
                ensures
                    push_siblings(st0, sibling@, first, head as int, 0, n as int) == Some(stack@),
                decreases n - s2,
            {
                if f == EMPTY {
                    break;
                }
                if s2 >= n {
                    return Err(AmdError::Inconsistent);
                }
                s2 = s2 + 1;
                set(stack, ux(h)?, f)?;
                h = sub_i(h, 1)?;
                f = at(sibling, ux(f)?)?;
            }
            // delete the child list, so that i is ordered when seen next
            set(child, i, EMPTY)?;
        } else {
            // the children of i (if any) are ordered: pop i and order it
            head = head - 1;
            set(order, i, sx(kk)?)?;
            kk = add_u(kk, 1)?;
        }
        proof {
            assert(post_step(sb, sibling@, n as int) == Some(PostState { child: child@, order: order@, stack: stack@, head: head as int, k: kk as int }));
        }
    }
    Ok(kk)
}

/// The child lists built from `parent` over the elements `j` below `j0`,
/// from the last one down: each goes at the front of its parent's list.
/// `None` where a value is out of range.
pub open spec fn link_children(child: Seq<isize>, sibling: Seq<isize>, parent: Seq<isize>, nv: Seq<isize>, j0: int) -> Option<(Seq<isize>, Seq<isize>)>
    decreases j0,
{
    if j0 <= 0 {
        Some((child, sibling))
    } else {
        let j = j0 - 1;
        if j >= nv.len() {
            None
        } else if nv[j] > 0 {
            if j >= parent.len() {
                None
            } else if parent[j] != EMPTY {
                let par = parent[j] as int;
                if par < 0 || par >= child.len() || j >= sibling.len() {
                    None
                } else {
                    link_children(child.update(par, j as isize), sibling.update(j, child[par]), parent, nv, j)
                }
            } else {
                link_children(child, sibling, parent, nv, j)
            }
        } else {
            link_children(child, sibling, parent, nv, j)
        }
    }
}

/// Walks the child list from `f` on: the last child with the largest front
/// size seen so far (`bigf`, after `bigfprev`), and the last child
/// (`fprev`). `None` where the list is longer than `n` or leaves the arrays.
pub open spec fn scan_children(
    sibling: Seq<isize>,
    fsize: Seq<isize>,
    f: isize,
    fprev: isize,
    maxfrsize: isize,
    bigfprev: isize,
    bigf: isize,
    steps: int,
    n: int,
) -> Option<(isize, isize, isize)>
    decreases n - steps,
{
    if f == EMPTY {
        Some((fprev, bigfprev, bigf))
    } else if steps >= n || f < 0 || f >= fsize.len() || f >= sibling.len() {
        None
    } else if fsize[f as int] >= maxfrsize {
        scan_children(sibling, fsize, sibling[f as int], f, fsize[f as int], fprev, f, steps + 1, n)
    } else {
        scan_children(sibling, fsize, sibling[f as int], f, maxfrsize, bigfprev, bigf, steps + 1, n)
    }
}

/// Moves child `bigf` (after `bigfprev`) of node `i` to the end of its list,
/// after `fprev`, unless it is there already.
pub open spec fn move_to_end(child: Seq<isize>, sibling: Seq<isize>, i: int, fprev: isize, bigfprev: isize, bigf: isize) -> Option<(Seq<isize>, Seq<isize>)> {
    if bigf < 0 || bigf >= sibling.len() {
        None
    } else if sibling[bigf as int] == EMPTY {
        Some((child, sibling))
    } else {
        let fnext = sibling[bigf as int];
        if bigfprev != EMPTY && (bigfprev < 0 || bigfprev >= sibling.len()) {
            None
        } else {
            let c2 = if bigfprev == EMPTY { child.update(i, fnext) } else { child };
            let s2 = if bigfprev == EMPTY { sibling } else { sibling.update(bigfprev as int, fnext) };
            let s3 = s2.update(bigf as int, EMPTY);
            if fprev < 0 || fprev >= s3.len() {
                None
            } else {
                Some((c2, s3.update(fprev as int, bigf)))
            }
        }
    }
}

/// The child lists of the elements `i..n` in turn with their largest child
/// moved last.
pub open spec fn biggest_last(child: Seq<isize>, sibling: Seq<isize>, nv: Seq<isize>, fsize: Seq<isize>, i: int, n: int) -> Option<(Seq<isize>, Seq<isize>)>
    decreases n - i,
{
    if i >= n {
        Some((child, sibling))
    } else if i >= nv.len() {
        None
    } else if nv[i] > 0 && (i >= child.len() || child[i] != EMPTY) {
        if i >= child.len() {
            None
        } else {
            match scan_children(sibling, fsize, child[i], EMPTY, EMPTY, EMPTY, EMPTY, 0, n) {
                None => None,
                Some(t) => match move_to_end(child, sibling, i, t.0, t.1, t.2) {
                    None => None,
                    Some(cs) => biggest_last(cs.0, cs.1, nv, fsize, i + 1, n),
                },
            }
        }
    } else {
        biggest_last(child, sibling, nv, fsize, i + 1, n)
    }
}

/// The trees rooted at the elements `i..n` without a parent, numbered in
/// postorder in turn from `k`: the child lists, the numbers and the stack.
pub open spec fn post_roots(
    parent: Seq<isize>,
    nv: Seq<isize>,
    child: Seq<isize>,
    sibling: Seq<isize>,
    order: Seq<isize>,
    stack: Seq<isize>,
    k: int,
    i: int,
    n: int,
) -> Option<(Seq<isize>, Seq<isize>, Seq<isize>)>
    decreases n - i,
{
    if i >= n {
        Some((child, order, stack))
    } else if i >= parent.len() {
        None
    } else if parent[i] == EMPTY && (i >= nv.len() || nv[i] > 0) {
        if i >= nv.len() {
            None
        } else {
            match post_order_of(i, k, child, sibling, order, stack, n) {
                None => None,
                Some(t) => post_roots(parent, nv, t.child, sibling, t.order, t.stack, t.k, i + 1, n),
            }
        }
    } else {
        post_roots(parent, nv, child, sibling, order, stack, k, i + 1, n)
    }
}

/// What follows the reordering of the child lists from element `i` on:
/// the child lists, the siblings, the numbers and the stack.
pub open spec fn from_biggest(
    child: Seq<isize>,
    sibling: Seq<isize>,
    parent: Seq<isize>,
    nv: Seq<isize>,
    fsize: Seq<isize>,
    order: Seq<isize>,
    stack: Seq<isize>,
    i: int,
    n: int,
) -> Option<(Seq<isize>, Seq<isize>, Seq<isize>, Seq<isize>)> {
    match biggest_last(child, sibling, nv, fsize, i, n) {
        None => None,
        Some(cs) => match post_roots(parent, nv, cs.0, cs.1, Seq::new(order.len(), |q: int| EMPTY), stack, 0, 0, n) {
            None => None,
            Some(t) => Some((t.0, cs.1, t.1, t.2)),
        },
    }
}

/// What follows the linking of the elements below `j`.
pub open spec fn from_links(
    child: Seq<isize>,
    sibling: Seq<isize>,
    parent: Seq<isize>,
    nv: Seq<isize>,
    fsize: Seq<isize>,
    order: Seq<isize>,
    stack: Seq<isize>,
    j: int,
    n: int,
) -> Option<(Seq<isize>, Seq<isize>, Seq<isize>, Seq<isize>)> {
    match link_children(child, sibling, parent, nv, j) {
        None => None,
        Some(cs) => from_biggest(cs.0, cs.1, parent, nv, fsize, order, stack, 0, n),
    }
}

/// The postorder of the assembly tree: child lists cleared and built, the
/// largest child of each element moved last, the numbers cleared and each
/// tree numbered from its root. `None` where a value is out of range.
pub open spec fn assembly_postorder(
    n: int,
    parent: Seq<isize>,
    nv: Seq<isize>,
    fsize: Seq<isize>,
    order: Seq<isize>,
    child: Seq<isize>,
    sibling: Seq<isize>,
    stack: Seq<isize>,
) -> Option<(Seq<isize>, Seq<isize>, Seq<isize>, Seq<isize>)> {
    if n > child.len() || n > sibling.len() {
        None
    } else {
        from_links(cleared(child, n), cleared(sibling, n), parent, nv, fsize, order, stack, n, n)
    }
}

/// Postorders the assembly tree given by `parent` over the elements (nodes
/// with `nv > 0`): builds the child lists (the largest front `fsize` of each
/// node last), then numbers each tree from its root with `post_tree`;
/// `order[e]` is the number of element `e`, `EMPTY` elsewhere.
fn postorder_assembly_tree(
    n: usize,
    parent: &[isize],
    nv: &[isize],
    fsize: &[isize],
    order: &mut [isize],
    child: &mut [isize],
    sibling: &mut [isize],
    stack: &mut [isize],
) -> (r: Result<(), AmdError>)
    requires
        n <= isize::MAX,
    ensures
        r is Ok <==> assembly_postorder(n as int, parent@, nv@, fsize@, old(order)@, old(child)@, old(sibling)@, old(stack)@) is Some,
        r is Ok ==> assembly_postorder(n as int, parent@, nv@, fsize@, old(order)@, old(child)@, old(sibling)@, old(stack)@)
            == Some((final(child)@, final(sibling)@, final(order)@, final(stack)@)),
{
    let ghost full = assembly_postorder(n as int, parent@, nv@, fsize@, order@, child@, sibling@, stack@);
    let ghost child0 = child@;
    let ghost sibling0 = sibling@;
    let mut j: usize = 0;
    while j < n
        invariant
            n <= isize::MAX,
            j <= n,
            j <= child0.len(),
            j <= sibling0.len(),
            full == assembly_postorder(n as int, parent@, nv@, fsize@, old(order)@, old(child)@, old(sibling)@, old(stack)@),
            child0 == old(child)@,
            sibling0 == old(sibling)@,
            order@ == old(order)@,
            stack@ == old(stack)@,
            child@.len() == child0.len(),
            sibling@.len() == sibling0.len(),
            forall|q: int| 0 <= q < child0.len() ==> #[trigger] child@[q] == (if q < j { EMPTY } else { child0[q] }),
            forall|q: int| 0 <= q < sibling0.len() ==> #[trigger] sibling@[q] == (if q < j { EMPTY } else { sibling0[q] }),
        decreases n - j,
    {
        set(child, j, EMPTY)?;
        set(sibling, j, EMPTY)?;
        j = j + 1;
    }
    proof {
        assert(child@ =~= cleared(child0, n as int));
        assert(sibling@ =~= cleared(sibling0, n as int));
    }
    // place the children in link lists: bigger elements tend to be last
    let mut j: usize = n;
    while j > 0
        invariant
            n <= isize::MAX,
            j <= n,
            full == assembly_postorder(n as int, parent@, nv@, fsize@, old(order)@, old(child)@, old(sibling)@, old(stack)@),
            order@ == old(order)@,
            stack@ == old(stack)@,
            full == from_links(child@, sibling@, parent@, nv@, fsize@, order@, stack@, j as int, n as int),
        decreases j,
    {
        j = j - 1;
        if at(nv, j)? > 0 {
            let par = at(parent, j)?;
            if par != EMPTY {
                // place the element in the child list of its parent
                let pu = ux(par)?;
                set(sibling, j, at(child, pu)?)?;
                set(child, pu, j as isize)?;
            }
        }
    }
    // place the largest child last in the list of children of each node
    let mut i: usize = 0;
    while i < n
        invariant
            n <= isize::MAX,
            i <= n,
            full == assembly_postorder(n as int, parent@, nv@, fsize@, old(order)@, old(child)@, old(sibling)@, old(stack)@),
            order@ == old(order)@,
            stack@ == old(stack)@,
            full == from_biggest(child@, sibling@, parent@, nv@, fsize@, order@, stack@, i as int, n as int),
        decreases n - i,
    {
        if at(nv, i)? > 0 && at(child, i)? != EMPTY {
            let ghost c1 = child@;
            let ghost s1 = sibling@;
            let first = child[i];
            let mut fprev: isize = EMPTY;
            let mut maxfrsize: isize = EMPTY;
            let mut bigfprev: isize = EMPTY;
            let mut bigf: isize = EMPTY;
            let mut f = at(child, i)?;
            let mut steps: usize = 0;
            loop
                invariant
                    n <= isize::MAX,
                    steps <= n,
                    i < n,
                    child@ == c1,
                    sibling@ == s1,
                    full == assembly_postorder(n as int, parent@, nv@, fsize@, old(order)@, old(child)@, old(sibling)@, old(stack)@),
                    full == from_biggest(c1, s1, parent@, nv@, fsize@, order@, stack@, i as int, n as int),
                    order@ == old(order)@,
                    stack@ == old(stack)@,
                    i < nv@.len(),
                    nv@[i as int] > 0,
                    i < c1.len(),
                    first == c1[i as int],
                    first != EMPTY,
                    scan_children(s1, fsize@, first, EMPTY, EMPTY, EMPTY, EMPTY, 0, n as int)
                        == scan_children(s1, fsize@, f, fprev, maxfrsize, bigfprev, bigf, steps as int, n as int),
                ensures
                    scan_children(s1, fsize@, first, EMPTY, EMPTY, EMPTY, EMPTY, 0, n as int) == Some((fprev, bigfprev, bigf)),
                decreases n - steps,
            {
                if f == EMPTY {
                    break;
                }
                if steps >= n {
                    return Err(AmdError::Inconsistent);
                }
                steps = steps + 1;
                let fu = ux(f)?;
                let frsize = at(fsize, fu)?;
                if frsize >= maxfrsize {
                    // the biggest seen so far
                    maxfrsize = frsize;
                    bigfprev = fprev;
                    bigf = f;
                }
                fprev = f;
                f = at(sibling, fu)?;
            }
            let bigfu = ux(bigf)?;
            let fnext = at(sibling, bigfu)?;
            if fnext != EMPTY {
                // bigf is not at the end of the list yet
                if bigfprev == EMPTY {
                    // delete bigf from the front of the list
                    set(child, i, fnext)?;
                } else {
                    // delete bigf from the middle of the list
                    set(sibling, ux(bigfprev)?, fnext)?;
                }
                // put bigf at the end of the list
                set(sibling, bigfu, EMPTY)?;
                set(sibling, ux(fprev)?, bigf)?;
            }
            proof {
                assert(move_to_end(c1, s1, i as int, fprev, bigfprev, bigf) == Some((child@, sibling@)));
            }
        }
        i = i + 1;
    }
    // postorder the assembly tree
    let ghost c2 = child@;
    let ghost s2 = sibling@;
    let mut q: usize = 0;
    while q < order.len()
        invariant
            order@.len() == old(order)@.len(),
            forall|t: int| 0 <= t < q ==> #[trigger] order@[t] == EMPTY,
        decreases order@.len() - q,
    {
        order[q] = EMPTY;
        q = q + 1;
    }
    proof {
        assert(order@ =~= Seq::new(old(order)@.len(), |t: int| EMPTY));
    }
    let mut k: usize = 0;
    let mut i: usize = 0;
    while i < n
        invariant
            n <= isize::MAX,
            i <= n,
            full == assembly_postorder(n as int, parent@, nv@, fsize@, old(order)@, old(child)@, old(sibling)@, old(stack)@),
            sibling@ == s2,
            post_roots(parent@, nv@, c2, s2, Seq::new(old(order)@.len(), |t: int| EMPTY), old(stack)@, 0, 0, n as int)
                == post_roots(parent@, nv@, child@, s2, order@, stack@, k as int, i as int, n as int),
            full == match post_roots(parent@, nv@, c2, s2, Seq::new(old(order)@.len(), |t: int| EMPTY), old(stack)@, 0, 0, n as int) {
                None => None,
                Some(t) => Some((t.0, s2, t.1, t.2)),
            },
        decreases n - i,
    {
        if at(parent, i)? == EMPTY && at(nv, i)? > 0 {
            k = post_tree(i, k, child, sibling, order, stack, n)?;
        }
        i = i + 1;
    }
    Ok(())
}

/// `p[0..n]` is a permutation of `0..n`.
pub fn permutation_ok(p: &[isize], n: usize) -> (r: bool)
    ensures
        r == is_permutation(p@, n as int),
{
    if p.len() < n {
        return false;
    }
    let mut seen: Vec<bool> = Vec::new();
    let mut j: usize = 0;
    while j < n
        invariant
            j <= n,
            seen@.len() == j,
            forall|v: int| 0 <= v < j ==> !#[trigger] seen@[v],
        decreases n - j,
    {
        seen.push(false);
        j = j + 1;
    }
    let mut k: usize = 0;
    while k < n
        invariant
            k <= n <= p@.len(),
            seen@.len() == n,
            forall|a: int| 0 <= a < k ==> 0 <= #[trigger] p@[a] < n && seen@[p@[a] as int],
            forall|v: int| 0 <= v < n && #[trigger] seen@[v] ==> exists|a: int| 0 <= a < k && p@[a] == v,
            forall|a: int, b: int| 0 <= a < k && 0 <= b < k && a != b ==> #[trigger] p@[a] != #[trigger] p@[b],
        decreases n - k,
    {
        let v = p[k];
        if v < 0 || v as usize >= n {
            return false;
        }
        if seen[v as usize] {
            proof {
                let a = choose|a: int| 0 <= a < k && p@[a] == v;
                assert(p@[a] == p@[k as int]);
            }
            return false;
        }
        seen.set(v as usize, true);
        k = k + 1;
    }
    true
}

/// `s` with its first `n` values `EMPTY`.
pub open spec fn cleared(s: Seq<isize>, n: int) -> Seq<isize> {
    Seq::new(s.len(), |k: int| if k < n { EMPTY } else { s[k] })
}

/// `head[w[e]] = e` for the elements `e` in `e..n` that have a postorder
/// number; `None` where a number or an index is out of range.
pub open spec fn place_elements(head: Seq<isize>, w: Seq<isize>, e: int, n: int) -> Option<Seq<isize>>
    decreases n - e,
{
    if e >= n {
        Some(head)
    } else if e >= w.len() {
        None
    } else if w[e] == EMPTY {
        place_elements(head, w, e + 1, n)
    } else if w[e] < 0 || w[e] >= head.len() {
        None
    } else {
        place_elements(head.update(w[e] as int, e as isize), w, e + 1, n)
    }
}

/// The elements `head[k]`, `head[k + 1]`, ... up to the first `EMPTY`, get
/// the positions `nel`, `nel + nv[e]`, ... in turn; with the next free
/// position. `None` where a value is out of range.
pub open spec fn number_elements(
    head: Seq<isize>,
    next: Seq<isize>,
    nv: Seq<isize>,
    k: int,
    n: int,
    nel: int,
) -> Option<(Seq<isize>, int)>
    decreases n - k,
{
    if k >= n || head[k] == EMPTY {
        Some((next, nel))
    } else {
        let e = head[k] as int;
        if e < 0 || nel > isize::MAX || e >= next.len() || e >= nv.len() || nv[e] < 0 || nel + nv[e] > usize::MAX {
            None
        } else {
            number_elements(head, next.update(e, nel as isize), nv, k + 1, n, nel + nv[e])
        }
    }
}

/// The non-principal variables `i` in `i..n` in turn: one merged into an
/// element `e = pe[i]` takes the position `next[e]`, which moves on by
/// one; a dense one (no element) takes the next free position `nel`.
/// `None` where a value is out of range.
pub open spec fn number_variables(
    next: Seq<isize>,
    nv: Seq<isize>,
    pe: Seq<isize>,
    i: int,
    n: int,
    nel: int,
) -> Option<Seq<isize>>
    decreases n - i,
{
    if i >= n {
        Some(next)
    } else if i >= nv.len() {
        None
    } else if nv[i] != 0 {
        number_variables(next, nv, pe, i + 1, n, nel)
    } else if i >= pe.len() {
        None
    } else if pe[i] != EMPTY {
        let e = pe[i] as int;
        if e < 0 || e >= next.len() || i >= next.len() || next[e] + 1 > isize::MAX {
            None
        } else {
            number_variables(next.update(i, next[e]).update(e, (next[e] + 1) as isize), nv, pe, i + 1, n, nel)
        }
    } else if nel > isize::MAX || i >= next.len() {
        None
    } else {
        number_variables(next.update(i, nel as isize), nv, pe, i + 1, n, nel + 1)
    }
}

/// What follows the numbering of the elements.
pub open spec fn numbering_from_elements(h: Seq<isize>, next: Seq<isize>, nv: Seq<isize>, pe: Seq<isize>, k: int, n: int, nel: int) -> Option<Seq<isize>> {
    match number_elements(h, next, nv, k, n, nel) {
        None => None,
        Some(r) => number_variables(r.0, nv, pe, 0, n, r.1),
    }
}

/// What follows the placing of the elements.
pub open spec fn numbering_from_places(head: Seq<isize>, next: Seq<isize>, w: Seq<isize>, nv: Seq<isize>, pe: Seq<isize>, e: int, n: int) -> Option<Seq<isize>> {
    match place_elements(head, w, e, n) {
        None => None,
        Some(h) => numbering_from_elements(h, next, nv, pe, 0, n, 0),
    }
}

/// The numbering of the variables: `head` and `next` are cleared, the
/// elements placed by postorder number, numbered in that order, then the
/// non-principal variables. `None` where a value is out of range.
pub open spec fn output_numbering(n: int, nv: Seq<isize>, pe: Seq<isize>, head: Seq<isize>, next: Seq<isize>, w: Seq<isize>) -> Option<Seq<isize>> {
    if n > head.len() || n > next.len() {
        None
    } else {
        numbering_from_places(cleared(head, n), cleared(next, n), w, nv, pe, 0, n)
    }
}

/// Numbers the variables: the elements in the order of their postorder
/// numbers `w[e]`, each preceded by the variables merged into it
/// (`pe[i] == e`), and the dense variables last. `next[i]` becomes the
/// position of `i` and `last` its inverse; when the numbering is not a
/// permutation of `0..n`, the work arrays were inconsistent.
fn compute_output_permutation(
    n: usize,
    ndense: usize,
    nv: &[isize],
    pe: &[isize],
    head: &mut [isize],
    next: &mut [isize],
    last: &mut [isize],
    w: &[isize],
) -> (r: Result<(), AmdError>)
    requires
        n <= isize::MAX,
    ensures
        r is Ok <==> (output_numbering(n as int, nv@, pe@, old(head)@, old(next)@, w@) matches Some(nx) && is_permutation(nx, n as int)
            && old(last)@.len() >= n),
        r is Ok ==> {
            &&& output_numbering(n as int, nv@, pe@, old(head)@, old(next)@, w@) == Some(final(next)@)
            &&& is_permutation(final(next)@, n as int)
            &&& final(last)@.len() >= n
            &&& forall|k: int| 0 <= k < n ==> #[trigger] final(last)@[final(next)@[k] as int] == k
            &&& forall|j: int| 0 <= j < n ==> 0 <= #[trigger] final(last)@[j] < n && final(next)@[final(last)@[j] as int] == j
        },
{
    let ghost full = output_numbering(n as int, nv@, pe@, head@, next@, w@);
    let ghost head0 = head@;
    let ghost next0 = next@;
    let mut k: usize = 0;
    while k < n
        invariant
            k <= n,
            full == output_numbering(n as int, nv@, pe@, head0, next0, w@),
            head0 == old(head)@,
            next0 == old(next)@,
            last@ == old(last)@,
            head@.len() == head0.len(),
            next@.len() == next0.len(),
            k <= head0.len(),
            k <= next0.len(),
            forall|j: int| 0 <= j < head0.len() ==> #[trigger] head@[j] == (if j < k { EMPTY } else { head0[j] }),
            forall|j: int| 0 <= j < next0.len() ==> #[trigger] next@[j] == (if j < k { EMPTY } else { next0[j] }),
        decreases n - k,
    {
        set(head, k, EMPTY)?;
        set(next, k, EMPTY)?;
        k = k + 1;
    }
    proof {
        assert(head@ =~= cleared(head0, n as int));
        assert(next@ =~= cleared(next0, n as int));
    }
    let ghost next1 = next@;
    let mut e: usize = 0;
    while e < n
        invariant
            n <= isize::MAX,
            e <= n,
            n <= head@.len(),
            full == output_numbering(n as int, nv@, pe@, old(head)@, old(next)@, w@),
            last@ == old(last)@,
            next@ == next1,
            full == numbering_from_places(head@, next1, w@, nv@, pe@, e as int, n as int),
        decreases n - e,
    {
        let k = at(w, e)?;
        if k != EMPTY {
            set(head, ux(k)?, e as isize)?;
        }
        e = e + 1;
    }
    let ghost h = head@;
    // the elements in order, each at the start of its block
    let mut nel: usize = 0;
    let mut k: usize = 0;
    while k < n
        invariant
            n <= isize::MAX,
            k <= n,
            head@ == h,
            full == output_numbering(n as int, nv@, pe@, old(head)@, old(next)@, w@),
            last@ == old(last)@,
            n <= h.len(),
            full == numbering_from_elements(h, next@, nv@, pe@, k as int, n as int, nel as int),
        ensures
            full == number_variables(next@, nv@, pe@, 0, n as int, nel as int),
        decreases n - k,
    {
        let e = at(head, k)?;
        if e == EMPTY {
            break;
        }
        let eu = ux(e)?;
        set(next, eu, sx(nel)?)?;
        nel = add_u(nel, ux(at(nv, eu)?)?)?;
        k = k + 1;
    }
    // the non-principal variables: dense ones last, the others just before
    // the element they were merged into
    let mut i: usize = 0;
    while i < n
        invariant
            n <= isize::MAX,
            i <= n,
            full == output_numbering(n as int, nv@, pe@, old(head)@, old(next)@, w@),
            last@ == old(last)@,
            full == number_variables(next@, nv@, pe@, i as int, n as int, nel as int),
        decreases n - i,
    {
        if at(nv, i)? == 0 {
            let e = at(pe, i)?;
            if e != EMPTY {
                let eu = ux(e)?;
                set(next, i, at(next, eu)?)?;
                set(next, eu, add_i(at(next, eu)?, 1)?)?;
            } else {
                set(next, i, sx(nel)?)?;
                nel = add_u(nel, 1)?;
            }
        }
        i = i + 1;
    }
    if !permutation_ok(next, n) || last.len() < n {
        return Err(AmdError::Inconsistent);
    }
    inverse_permutation(n, next, last);
    Ok(())
}

/// The number of variables eliminated with the first `k` pivots.
pub open spec fn pivot_mass(ps: Seq<(usize, usize)>, k: int) -> int
    decreases k,
{
    if k <= 0 {
        0
    } else {
        pivot_mass(ps, k - 1) + ps[k - 1].0
    }
}

/// What the pivots of an ordering of `n` variables, `unlisted` of which
/// take no part in the elimination (empty or dense), must satisfy: each
/// pivot eliminates at least one variable, together they eliminate the
/// other `n - unlisted`, and the element each one forms reaches only
/// variables that are still to be eliminated after it: its external degree
/// is at most the number of variables left.
pub open spec fn pivots_account(ps: Seq<(usize, usize)>, n: int, unlisted: int) -> bool {
    &&& pivot_mass(ps, ps.len() as int) == n - unlisted
    &&& forall|k: int| 0 <= k < ps.len() ==> #[trigger] ps[k].0 >= 1
    &&& forall|k: int| 0 <= k < ps.len() ==> #[trigger] ps[k].1 + pivot_mass(ps, k + 1) <= n - unlisted
}

/// Pushing a pivot leaves the counts of the earlier prefixes.
proof fn lemma_mass_prefix(ps: Seq<(usize, usize)>, x: (usize, usize), k: int)
    requires
        0 <= k <= ps.len(),
    ensures
        pivot_mass(ps.push(x), k) == pivot_mass(ps, k),
    decreases k,
{
    if k > 0 {
        lemma_mass_prefix(ps, x, k - 1);
    }
}

/// Pushing a pivot adds its variables to the count and leaves the counts of
/// the earlier prefixes.
proof fn lemma_mass_push(ps: Seq<(usize, usize)>, x: (usize, usize), k: int)
    requires
        0 <= k <= ps.len(),
    ensures
        pivot_mass(ps.push(x), k) == pivot_mass(ps, k),
        pivot_mass(ps.push(x), ps.len() + 1int) == pivot_mass(ps, ps.len() as int) + x.0,
{
    lemma_mass_prefix(ps, x, k);
    lemma_mass_prefix(ps, x, ps.len() as int);
    assert(ps.push(x)[ps.len() as int] == x);
}

/// The prefix counts of pivots that each eliminate a variable grow.
proof fn lemma_mass_grows(ps: Seq<(usize, usize)>, j: int, k: int)
    requires
        0 <= j <= k <= ps.len(),
        forall|i: int| 0 <= i < ps.len() ==> #[trigger] ps[i].0 >= 1,
    ensures
        pivot_mass(ps, j) + (k - j) <= pivot_mass(ps, k),
    decreases k,
{
    if k > j {
        lemma_mass_grows(ps, j, k - 1);
        assert(ps[k - 1].0 >= 1);
    }
}

/// The element formed by the last pivot reaches no variable: everything
/// else is eliminated with it. In general the external degree of pivot `k`
/// is at most the number of variables eliminated after it.
pub proof fn lemma_pivot_degrees(ps: Seq<(usize, usize)>, n: int, unlisted: int, k: int)
    requires
        pivots_account(ps, n, unlisted),
        0 <= k < ps.len(),
    ensures
        ps[k].1 <= pivot_mass(ps, ps.len() as int) - pivot_mass(ps, k + 1),
        k == ps.len() - 1 ==> ps[k].1 == 0,
{
}

/// At most `k` of the first `k` variables are left out of the degree lists.
pub proof fn lemma_unlisted_below(len: Seq<usize>, dense: int, k: int)
    requires
        k >= 0,
    ensures
        count_unlisted(len, dense, k) <= k,
    decreases k,
{
    if k > 0 {
        lemma_unlisted_below(len, dense, k - 1);
    }
}

/// What the ordering reports besides the permutation: the number of dense
/// rows, and for each pivot in turn the number of variables eliminated with
/// it and the external degree of the element it formed (the operation
/// counts of the factorization follow from these).
#[derive(Debug, Clone, PartialEq, Eq)]
pub struct AmdReport {
    pub ndense: usize,
    pub pivots: Vec<(usize, usize)>,
}

/// Every length `len[i]`, `i < n`, is below `n`.
fn lens_below(len: &[usize], n: usize) -> (r: bool)
    requires
        n <= len@.len(),
    ensures
        r == forall|i: int| 0 <= i < n ==> #[trigger] len@[i] < n,
{
    let mut i: usize = 0;
    while i < n
        invariant
            i <= n <= len@.len(),
            forall|j: int| 0 <= j < i ==> #[trigger] len@[j] < n,
        decreases n - i,
    {
        if len[i] >= n {
            return false;
        }
        i = i + 1;
    }
    true
}

/// The approximate minimum degree ordering of the pattern of a symmetric
/// `n`-by-`n` matrix without its diagonal, held as adjacency lists: the list
/// of variable `i` is `iw[pe[i]..pe[i] + len[i]]`, `iw[pfree..iwlen]` is
/// free. Variables are eliminated in turn, each time a supervariable of
/// least approximate degree, on the quotient graph of elements and
/// supervariables (with mass elimination, supervariable detection, element
/// absorption and, if `control` asks for it, aggressive absorption; `iw` is
/// compacted when full). Dense variables are set aside and ordered last.
/// The elimination tree is then postordered, and `next[i]` becomes the
/// position of variable `i`, `last[k]` the variable at position `k`.
/// `nv`, `head`, `elen`, `degree` and `w` are workspaces of size `n`.
pub fn amd(
    n: usize,
    pe: &mut [isize],
    iw: &mut [isize],
    len: &mut [usize],
    iwlen: usize,
    pfree: usize,
    nv: &mut [isize],
    next: &mut [isize],
    last: &mut [isize],
    head: &mut [isize],
    elen: &mut [isize],
    degree: &mut [isize],
    w: &mut [isize],
    control: AmdControl,
) -> (r: Result<AmdReport, AmdError>)
    ensures
        r is Ok ==> {
            &&& is_permutation(final(next)@, n as int)
            &&& final(last)@.len() >= n
            &&& forall|k: int| 0 <= k < n ==> #[trigger] final(last)@[final(next)@[k] as int] == k
            &&& forall|j: int| 0 <= j < n ==> 0 <= #[trigger] final(last)@[j] < n && final(next)@[final(last)@[j] as int] == j
        },
        r matches Ok(rep) ==> pivots_account(
            rep.pivots@,
            n as int,
            count_unlisted(old(len)@, control.get_dense_spec(n as int), n as int) as int,
        ),
        r matches Ok(rep) ==> rep.ndense == count_dense(old(len)@, control.get_dense_spec(n as int), n as int),
{
    let mut pfree = pfree;
    if n > isize::MAX as usize || pe.len() < n || len.len() < n || nv.len() < n || next.len() < n || last.len() < n
        || head.len() < n || elen.len() < n || degree.len() < n || w.len() < n {
        return Err(AmdError::Inconsistent);
    }
    if !lens_below(len, n) {
        return Err(AmdError::Inconsistent);
    }
    let (mut nel, ndense) = initialize_amd(n, &control, last, head, next, nv, w, elen, degree, len, pe);
    let ghost nel0 = nel as int;
    proof {
        lemma_unlisted_below(old(len)@, control.get_dense_spec(n as int), n as int);
    }
    let wbig = isize::MAX - n as isize;
    let mut wflg = clear_flag(0, wbig, w, n);
    // the largest |Le| seen so far
    let mut lemax: usize = 0;
    let mut mindeg: usize = 0;
    let mut pivots: Vec<(usize, usize)> = Vec::new();
    while nel < n
        invariant
            n <= isize::MAX,
            wbig == isize::MAX - n,
            nel0 == count_unlisted(old(len)@, control.get_dense_spec(n as int), n as int),
            ndense == count_dense(old(len)@, control.get_dense_spec(n as int), n as int),
            nel0 <= nel <= n,
            nel == nel0 + pivot_mass(pivots@, pivots@.len() as int),
            forall|k: int| 0 <= k < pivots@.len() ==> #[trigger] pivots@[k].0 >= 1,
            forall|k: int| 0 <= k < pivots@.len() ==> #[trigger] pivots@[k].1 + pivot_mass(pivots@, k + 1) <= n - nel0,
        decreases n - nel,
    {
        if mindeg > n || head.len() < n || w.len() < n {
            return Err(AmdError::Inconsistent);
        }
        // the current pivot supervariable, which becomes the new element
        let me = match get_pivot_of_minimum_degree(&mut mindeg, n, head) {
            Some(me) => me,
            None => {
                return Err(AmdError::Inconsistent);
            },
        };
        if me >= n {
            return Err(AmdError::Inconsistent);
        }
        let mut degme: usize = 0;
        let ghost nel_start = nel as int;
        unlink_head(me, n, mindeg, head, last, next)?;
        let (pme1, pme2, nvpiv0, elenme) = construct_new_element(
            me,
            &mut nel,
            n,
            &mut pfree,
            iwlen,
            elen,
            &mut degme,
            nv,
            pe,
            iw,
            len,
            degree,
            w,
            head,
            last,
            next,
        )?;
        let mut nvpiv = nvpiv0;
        if w.len() < n {
            return Err(AmdError::Inconsistent);
        }
        // make sure that wflg is not too large
        wflg = clear_flag(wflg, wbig, w, n);
        compute_outside_degrees(pme1, pme2, n, iwlen, pe, iw, elen, nv, degree, wflg, w)?;
        update_degrees(
            me,
            pme1,
            pme2,
            &mut nvpiv,
            &mut nel,
            n,
            iwlen,
            &mut degme,
            pe,
            iw,
            nv,
            elen,
            len,
            degree,
            w,
            wflg,
            head,
            last,
            next,
            control.aggressive(),
        )?;
        if degme > lemax {
            lemax = degme;
        }
        wflg = add_i(wflg, sx(lemax)?)?;
        if w.len() < n {
            return Err(AmdError::Inconsistent);
        }
        wflg = clear_flag(wflg, wbig, w, n);
        // at this point, w[0..n] < wflg holds
        supervairable_detection(pme1, pme2, n, iwlen, pe, elen, len, iw, nv, head, next, last, w, &mut wflg)?;
        let p = restore_degree_list(pme1, pme2, n, nel, degme, nv, iw, head, last, next, degree, control.aggressive(), &mut mindeg)?;
        finalize_new_element(me, nvpiv, pme1, p, &mut pfree, nv, len, pe, w, elenme)?;
        if nel > n || degme > n - nel {
            return Err(AmdError::Inconsistent);
        }
        proof {
            lemma_mass_push(pivots@, (nvpiv, degme), pivots@.len() as int);
            assert forall|k: int| #![trigger pivots@[k]] 0 <= k < pivots@.len() implies pivot_mass(pivots@.push((nvpiv, degme)), k + 1) == pivot_mass(pivots@, k + 1) by {
                lemma_mass_push(pivots@, (nvpiv, degme), k + 1);
            }
        }
        pivots.push((nvpiv, degme));
    }
    compress_paths(n, pe, elen, nv)?;
    postorder_assembly_tree(n, pe, nv, elen, w, head, next, last)?;
    compute_output_permutation(n, ndense, nv, pe, head, next, last, w)?;
    Ok(AmdReport { ndense, pivots })
}

} // verus!
