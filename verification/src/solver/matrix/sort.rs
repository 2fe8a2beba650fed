use vstd::prelude::*;

verus! {

/// An entry of a coordinate list: (major index, minor index, entry number).
pub type Triple = (usize, usize, usize);

/// Lexicographic order on (major, minor).
pub open spec fn key_le(a: Triple, b: Triple) -> bool {
    a.0 < b.0 || (a.0 == b.0 && a.1 <= b.1)
}

/// Strict lexicographic order on (major, minor).
pub open spec fn key_lt(a: Triple, b: Triple) -> bool {
    a.0 < b.0 || (a.0 == b.0 && a.1 < b.1)
}

pub open spec fn sorted_by_key(s: Seq<Triple>) -> bool {
    forall|a: int, b: int| 0 <= a < b < s.len() ==> key_le(#[trigger] s[a], #[trigger] s[b])
}

/// `pos` sends every position of `before` to the position of the same triple in `after`,
/// and `inv` sends every position of `after` back.
pub open spec fn is_rearrangement(
    before: Seq<Triple>,
    after: Seq<Triple>,
    pos: Seq<int>,
    inv: Seq<int>,
) -> bool {
    &&& before.len() == after.len()
    &&& pos.len() == before.len()
    &&& inv.len() == before.len()
    &&& forall|j: int|
        0 <= j < before.len() ==> 0 <= #[trigger] pos[j] < before.len() && after[pos[j]]
            == before[j] && inv[pos[j]] == j
    &&& forall|i: int|
        0 <= i < before.len() ==> 0 <= #[trigger] inv[i] < before.len() && before[inv[i]]
            == after[i] && pos[inv[i]] == i
}

proof fn lemma_swap_keeps_rearrangement(
    orig: Seq<Triple>,
    v: Seq<Triple>,
    pos: Seq<int>,
    inv: Seq<int>,
    j: int,
)
    requires
        is_rearrangement(orig, v, pos, inv),
        0 < j < v.len(),
    ensures
        ({
            let ja = inv[j];
            let jb = inv[j - 1];
            is_rearrangement(
                orig,
                v.update(j, v[j - 1]).update(j - 1, v[j]),
                pos.update(ja, j - 1).update(jb, j),
                inv.update(j, jb).update(j - 1, ja),
            )
        }),
{
    let ja = inv[j];
    let jb = inv[j - 1];
    let w = v.update(j, v[j - 1]).update(j - 1, v[j]);
    let p2 = pos.update(ja, j - 1).update(jb, j);
    let i2 = inv.update(j, jb).update(j - 1, ja);
    assert(pos[ja] == j);
    assert(pos[jb] == j - 1);
    assert(ja != jb);
    assert forall|k: int| 0 <= k < orig.len() implies 0 <= #[trigger] p2[k] < orig.len() && w[p2[k]]
        == orig[k] && i2[p2[k]] == k by {
        if k != ja && k != jb {
            assert(pos[k] != j && pos[k] != j - 1);
        }
    }
    assert forall|i: int| 0 <= i < orig.len() implies 0 <= #[trigger] i2[i] < orig.len() && orig[i2[i]]
        == w[i] && p2[i2[i]] == i by {
        if i != j && i != j - 1 {
            assert(inv[i] != ja && inv[i] != jb);
        }
    }
}

fn key_less(a: Triple, b: Triple) -> (r: bool)
    ensures
        r == key_lt(a, b),
{
    a.0 < b.0 || (a.0 == b.0 && a.1 < b.1)
}

/// Stable insertion sort of the triples by (major, minor).
pub fn sort_by_key(v: &mut Vec<Triple>) -> (maps: Ghost<(Seq<int>, Seq<int>)>)
    ensures
        sorted_by_key(final(v)@),
        is_rearrangement(old(v)@, final(v)@, maps@.0, maps@.1),
{
    let ghost orig = v@;
    let m = v.len();
    let ghost mut pos: Seq<int> = Seq::new(m as nat, |j: int| j);
    let ghost mut inv: Seq<int> = Seq::new(m as nat, |j: int| j);
    if m < 2 {
        assert(sorted_by_key(v@));
        return Ghost((pos, inv));
    }
    let mut i: usize = 1;
    while i < m
        invariant
            1 <= i <= m,
            v@.len() == m,
            orig.len() == m,
            forall|a: int, b: int| 0 <= a < b < i ==> key_le(#[trigger] v@[a], #[trigger] v@[b]),
            is_rearrangement(orig, v@, pos, inv),
        decreases m - i,
    {
        let mut j: usize = i;
        while j > 0 && key_less(v[j], v[j - 1])
            invariant
                0 <= j <= i < m,
                v@.len() == m,
                orig.len() == m,
                forall|a: int, b: int|
                    0 <= a < b <= i && a != j && b != j ==> key_le(#[trigger] v@[a], #[trigger] v@[b]),
                forall|b: int| j < b <= i ==> key_lt(v@[j as int], #[trigger] v@[b]),
                is_rearrangement(orig, v@, pos, inv),
            decreases j,
        {
            let a = v[j];
            let b = v[j - 1];
            let ghost before = v@;
            v.set(j, b);
            v.set(j - 1, a);
            proof {
                lemma_swap_keeps_rearrangement(orig, before, pos, inv, j as int);
                let ja = inv[j as int];
                let jb = inv[j - 1];
                pos = pos.update(ja, j - 1).update(jb, j as int);
                inv = inv.update(j as int, jb).update(j - 1, ja);
            }
            j = j - 1;
        }
        proof {
            assert forall|a: int, b: int| 0 <= a < b < i + 1 implies key_le(
                #[trigger] v@[a],
                #[trigger] v@[b],
            ) by {
                if b == j && a < j {
                    assert(key_le(v@[a], v@[j - 1]) || a == j - 1);
                } else if a == j {
                    assert(key_lt(v@[j as int], v@[b]));
                }
            }
        }
        i = i + 1;
    }
    Ghost((pos, inv))
}

} // verus!

verus! {

use crate::solver::matrix::csc::{pattern_wf, pointers_wf, columns_sorted};

/// The ids of the triples in `v` are exactly `0..v.len()`, and `pos` finds each id.
pub open spec fn ids_are_positions_of(v: Seq<Triple>, pos: Seq<int>) -> bool {
    &&& pos.len() == v.len()
    &&& forall|i: int| 0 <= i < v.len() ==> #[trigger] v[i].2 < v.len() && pos[v[i].2 as int] == i
    &&& forall|e: int| 0 <= e < v.len() ==> 0 <= #[trigger] pos[e] < v.len() && v[pos[e]].2 == e
}

/// The distinct keys of sorted `v` laid out as a compressed pattern: `cp` has
/// one pointer per major index, `ri` holds the minor index of each distinct
/// key, and `mapping[id]` is the position of the key of the triple with that id.
pub open spec fn compressed(
    v: Seq<Triple>,
    nmajor: int,
    nminor: int,
    cp: Seq<usize>,
    ri: Seq<usize>,
    mapping: Seq<usize>,
) -> bool {
    &&& pattern_wf(cp, ri, nmajor, nminor)
    &&& mapping.len() == v.len()
    &&& forall|i: int|
        0 <= i < v.len() ==> {
            let p = #[trigger] mapping[v[i].2 as int] as int;
            &&& p < ri.len()
            &&& ri[p] == v[i].1
            &&& cp[v[i].0 as int] <= p < cp[v[i].0 + 1]
        }
    &&& forall|p: int| 0 <= p < ri.len() ==> #[trigger] stored_by(v, mapping, p)
}

/// Some triple of `v` is mapped to position `p`.
pub open spec fn stored_by(v: Seq<Triple>, mapping: Seq<usize>, p: int) -> bool {
    exists|i: int| 0 <= i < v.len() && #[trigger] mapping[v[i].2 as int] == p
}

/// Every key of `v` lies in an `nmajor`-by-`nminor` range.
pub open spec fn in_bounds(v: Seq<Triple>, nmajor: int, nminor: int) -> bool {
    forall|i: int| 0 <= i < v.len() ==> #[trigger] v[i].0 < nmajor && v[i].1 < nminor
}

fn key_differs(a: Triple, b: Triple) -> (r: bool)
    ensures
        r == (a.0 != b.0 || a.1 != b.1),
{
    a.0 != b.0 || a.1 != b.1
}

/// Compresses sorted triples into a pattern with one stored entry per distinct key.
pub fn compress(v: &Vec<Triple>, nmajor: usize, nminor: usize, Ghost(pos): Ghost<Seq<int>>) -> (r: (
    Vec<usize>,
    Vec<usize>,
    Vec<usize>,
))
    requires
        nmajor < usize::MAX,
        sorted_by_key(v@),
        ids_are_positions_of(v@, pos),
        in_bounds(v@, nmajor as int, nminor as int),
    ensures
        compressed(v@, nmajor as int, nminor as int, r.0@, r.1@, r.2@),
{
    let m = v.len();
    let mut cp: Vec<usize> = Vec::new();
    cp.push(0);
    let mut ri: Vec<usize> = Vec::new();
    let mut mapping: Vec<usize> = Vec::new();
    let mut t: usize = 0;
    while t < m
        invariant
            t <= m,
            m == v@.len(),
            mapping@.len() == t,
            in_bounds(v@, nmajor as int, nminor as int),
        decreases m - t,
    {
        mapping.push(0);
        t = t + 1;
    }
    let ghost mut uc: Seq<usize> = Seq::empty();
    let ghost mut rep: Seq<int> = Seq::empty();
    let mut k: usize = 0;
    while k < m
        invariant
            k <= m,
            m == v@.len(),
            nmajor < usize::MAX,
            sorted_by_key(v@),
            ids_are_positions_of(v@, pos),
            in_bounds(v@, nmajor as int, nminor as int),
            mapping@.len() == m,
            uc.len() == ri@.len(),
            rep.len() == ri@.len(),
            1 <= cp@.len() <= nmajor + 1,
            cp@[0] == 0,
            k == 0 <==> ri@.len() == 0,
            k == 0 ==> cp@.len() == 1,
            k > 0 ==> cp@.len() == uc[ri@.len() - 1] + 1,
            k > 0 ==> uc[ri@.len() - 1] == v@[k - 1].0 && ri@[ri@.len() - 1] == v@[k - 1].1,
            forall|p: int| 0 <= p < ri@.len() ==> #[trigger] ri@[p] < nminor,
            forall|j: int| 0 <= j < cp@.len() ==> #[trigger] cp@[j] <= ri@.len(),
            forall|j: int, p: int|
                0 <= j < cp@.len() && 0 <= p < ri@.len() ==> (#[trigger] uc[p] < j <==> p
                    < #[trigger] cp@[j]),
            forall|p: int, q: int|
                0 <= p < q < ri@.len() ==> key_lt(
                    (#[trigger] uc[p], ri@[p], 0usize),
                    (#[trigger] uc[q], ri@[q], 0usize),
                ),
            forall|i: int|
                0 <= i < k ==> {
                    let p = #[trigger] mapping@[v@[i].2 as int] as int;
                    &&& p < ri@.len()
                    &&& uc[p] == v@[i].0
                    &&& ri@[p] == v@[i].1
                },
            forall|p: int|
                0 <= p < ri@.len() ==> 0 <= #[trigger] rep[p] < k && mapping@[v@[rep[p]].2 as int]
                    == p,
        decreases m - k,
    {
        let cur = v[k];
        let new_key = k == 0 || key_differs(cur, v[k - 1]);
        if new_key {
            let u = ri.len();
            let ghost cp_before = cp@;
            proof {
                if k > 0 {
                    assert(key_le(v@[k - 1], v@[k as int]));
                }
            }
            while cp.len() <= cur.0
                invariant
                    cp_before.len() <= cp@.len() <= cur.0 + 1,
                    cp@.subrange(0, cp_before.len() as int) == cp_before,
                    forall|j: int| cp_before.len() <= j < cp@.len() ==> #[trigger] cp@[j] == u,
                decreases cur.0 + 1 - cp@.len(),
            {
                cp.push(u);
            }
            proof {
                if k > 0 {
                    assert(key_le(v@[k - 1], v@[k as int]));
                }
                assert forall|j: int| 0 <= j < cp_before.len() implies #[trigger] cp@[j]
                    == cp_before[j] by {
                    assert(cp@.subrange(0, cp_before.len() as int)[j] == cp@[j]);
                }
            }
            ri.push(cur.1);
            proof {
                uc = uc.push(cur.0);
                rep = rep.push(k as int);
            }
        }
        mapping.set(cur.2, ri.len() - 1);
        proof {
            assert(pos[cur.2 as int] == k);
        }
        k = k + 1;
    }
    let u = ri.len();
    let ghost cp_before = cp@;
    while cp.len() <= nmajor
        invariant
            cp_before.len() <= cp@.len() <= nmajor + 1,
            cp@.subrange(0, cp_before.len() as int) == cp_before,
            forall|j: int| cp_before.len() <= j < cp@.len() ==> #[trigger] cp@[j] == u,
        decreases nmajor + 1 - cp@.len(),
    {
        cp.push(u);
    }

    proof {
        assert forall|j: int| 0 <= j < cp_before.len() implies #[trigger] cp@[j] == cp_before[j] by {
            assert(cp@.subrange(0, cp_before.len() as int)[j] == cp@[j]);
        }
        lemma_compressed_final(v@, nmajor as int, nminor as int, cp_before, cp@, ri@, mapping@, uc, rep);
    }
    (cp, ri, mapping)
}

proof fn lemma_compressed_final(
    v: Seq<Triple>,
    nmajor: int,
    nminor: int,
    cp_before: Seq<usize>,
    cp: Seq<usize>,
    ri: Seq<usize>,
    mapping: Seq<usize>,
    uc: Seq<usize>,
    rep: Seq<int>,
)
    requires
        in_bounds(v, nmajor, nminor),
        mapping.len() == v.len(),
        uc.len() == ri.len(),
        rep.len() == ri.len(),
        1 <= cp_before.len() <= nmajor + 1,
        cp_before[0] == 0,
        v.len() == 0 <==> ri.len() == 0,
        v.len() > 0 ==> cp_before.len() == uc[ri.len() - 1] + 1,
        v.len() > 0 ==> uc[ri.len() - 1] == v[v.len() - 1].0,
        forall|p: int| 0 <= p < ri.len() ==> #[trigger] ri[p] < nminor,
        forall|j: int| 0 <= j < cp_before.len() ==> #[trigger] cp_before[j] <= ri.len(),
        forall|j: int, p: int|
            0 <= j < cp_before.len() && 0 <= p < ri.len() ==> (#[trigger] uc[p] < j <==> p
                < #[trigger] cp_before[j]),
        forall|p: int, q: int|
            0 <= p < q < ri.len() ==> key_lt(
                (#[trigger] uc[p], ri[p], 0usize),
                (#[trigger] uc[q], ri[q], 0usize),
            ),
        forall|i: int|
            0 <= i < v.len() ==> {
                let p = #[trigger] mapping[v[i].2 as int] as int;
                &&& p < ri.len()
                &&& uc[p] == v[i].0
                &&& ri[p] == v[i].1
            },
        forall|p: int|
            0 <= p < ri.len() ==> 0 <= #[trigger] rep[p] < v.len() && mapping[v[rep[p]].2 as int]
                == p,
        cp.len() == nmajor + 1,
        forall|j: int| 0 <= j < cp_before.len() ==> #[trigger] cp[j] == cp_before[j],
        forall|j: int| cp_before.len() <= j < cp.len() ==> #[trigger] cp[j] == ri.len(),
    ensures
        compressed(v, nmajor, nminor, cp, ri, mapping),
{
    let u = ri.len() as int;
    assert forall|p: int| 0 <= p < u implies #[trigger] uc[p] <= uc[u - 1] by {
        if p < u - 1 {
            assert(key_lt((uc[p], ri[p], 0usize), (uc[u - 1], ri[u - 1], 0usize)));
        }
    }
    if v.len() > 0 {
        assert(v[v.len() - 1].0 < nmajor);
    }
    assert forall|j: int, p: int| 0 <= j < cp.len() && 0 <= p < u implies (#[trigger] uc[p] < j
        <==> p < #[trigger] cp[j]) by {
        if j < cp_before.len() {
            assert(uc[p] < j <==> p < cp_before[j]);
        } else {
            assert(uc[p] <= uc[u - 1]);
        }
    }
    assert forall|j: int| 0 <= j < cp.len() implies #[trigger] cp[j] <= u by {
        if j < cp_before.len() {
            assert(cp_before[j] <= u);
        }
    }
    assert(cp[nmajor] == u) by {
        if nmajor < cp_before.len() && v.len() > 0 {
            assert(v[v.len() - 1].0 < nmajor);
        }
    }
    assert forall|i: int, j: int| 0 <= i <= j <= nmajor implies #[trigger] cp[i] <= #[trigger] cp[j] by {
        if cp[i] > cp[j] {
            let p = cp[j] as int;
            assert(cp[i] <= u);
            assert(uc[p] < i <==> p < cp[i]);
            assert(uc[p] < j <==> p < cp[j]);
        }
    }
    assert forall|j: int, p: int| 0 <= j < nmajor && #[trigger] cp[j] <= p < cp[j + 1] implies #[trigger] uc[p] == j by {
        assert(cp[j + 1] <= u);
        assert(uc[p] < j <==> p < cp[j]);
        assert(uc[p] < j + 1 <==> p < cp[j + 1]);
    }
    assert forall|j: int, p: int|
        0 <= j < nmajor && cp[j] <= p < cp[j + 1] implies #[trigger] ri[p] < nminor && #[trigger] cp[j]
        == cp[j] by {
        assert(cp[j + 1] <= u);
    }
    assert forall|j: int, p: int, q: int|
        0 <= j < nmajor && cp[j] <= p < q < cp[j + 1] implies #[trigger] ri[p] < #[trigger] ri[q]
        && #[trigger] cp[j] == cp[j] by {
        assert(cp[j + 1] <= u);
        assert(uc[p] == j);
        assert(uc[q] == j);
        assert(key_lt((uc[p], ri[p], 0usize), (uc[q], ri[q], 0usize)));
    }
    assert forall|i: int| 0 <= i < v.len() implies {
        let p = #[trigger] mapping[v[i].2 as int] as int;
        &&& p < ri.len()
        &&& ri[p] == v[i].1
        &&& cp[v[i].0 as int] <= p < cp[v[i].0 + 1]
    } by {
        let p = mapping[v[i].2 as int] as int;
        let c = v[i].0 as int;
        assert(c < nmajor);
        assert(uc[p] < c <==> p < cp[c]);
        assert(uc[p] < c + 1 <==> p < cp[c + 1]);
    }
    assert forall|p: int| 0 <= p < u implies #[trigger] stored_by(v, mapping, p) by {
        assert(mapping[v[rep[p]].2 as int] == p);
    }
}

} // verus!
