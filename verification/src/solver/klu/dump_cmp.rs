use vstd::prelude::*;

use crate::solver::klu::dump_read::PermDump;

verus! {

/// The key under which the bit patterns of IEEE-754 doubles sort in the
/// order of their values: a negative one (sign bit set) is complemented, a
/// positive one gets its sign bit set.
pub open spec fn ordered_key(bits: u64) -> int {
    if bits >= 0x8000_0000_0000_0000 {
        0xffff_ffff_ffff_ffff - bits
    } else {
        bits + 0x8000_0000_0000_0000
    }
}

/// The key of `bits` (see `ordered_key`).
pub fn ordered_f64_bits(bits: u64) -> (r: u64)
    ensures
        r == ordered_key(bits),
{
    let sign: u64 = 0x8000_0000_0000_0000;
    if (bits & sign) != 0 {
        assert(bits & 0x8000_0000_0000_0000u64 != 0 ==> bits >= 0x8000_0000_0000_0000u64) by (bit_vector);
        assert(!bits == 0xffff_ffff_ffff_ffffu64 - bits) by (bit_vector);
        !bits
    } else {
        assert(bits & 0x8000_0000_0000_0000u64 == 0 ==> bits < 0x8000_0000_0000_0000u64) by (bit_vector);
        assert(bits < 0x8000_0000_0000_0000u64 ==> bits | 0x8000_0000_0000_0000u64 == bits + 0x8000_0000_0000_0000u64)
            by (bit_vector);
        bits | sign
    }
}

/// The distance in units in the last place between two doubles given by
/// their bits: how far apart their keys are. It is 0 exactly for the same
/// bits, and the same either way round.
pub fn ulp_diff_bits(a_bits: u64, b_bits: u64) -> (r: u64)
    ensures
        r == if ordered_key(a_bits) >= ordered_key(b_bits) {
            ordered_key(a_bits) - ordered_key(b_bits)
        } else {
            ordered_key(b_bits) - ordered_key(a_bits)
        },
        (r == 0) == (a_bits == b_bits),
{
    let a = ordered_f64_bits(a_bits);
    let b = ordered_f64_bits(b_bits);
    if a >= b {
        a - b
    } else {
        b - a
    }
}

/// An array of a permutation dump.
#[derive(Debug, Clone, Copy, PartialEq, Eq, Structural)]
pub enum PermArray {
    P,
    Q,
    R,
    Pnum,
    Pinv,
}

/// How two arrays first differ.
#[derive(Debug, Clone, Copy, PartialEq, Eq, Structural)]
pub enum Mismatch {
    /// Their lengths differ.
    Length { a_len: usize, b_len: usize },
    /// They first differ at `index`.
    Entry { index: usize, a: i32, b: i32 },
}

/// The first difference between `a` and `b`, if any.
pub open spec fn first_difference(a: Seq<i32>, b: Seq<i32>) -> Option<Mismatch> {
    if a.len() != b.len() {
        Some(Mismatch::Length { a_len: a.len() as usize, b_len: b.len() as usize })
    } else if a == b {
        None
    } else {
        let i = choose|i: int| 0 <= i < a.len() && a[i] != b[i] && forall|j: int| 0 <= j < i ==> a[j] == b[j];
        Some(Mismatch::Entry { index: i as usize, a: a[i], b: b[i] })
    }
}

/// The first place where `a` and `b` differ: their lengths, or the first
/// index holding different values.
pub fn first_mismatch(a: &[i32], b: &[i32]) -> (r: Option<Mismatch>)
    ensures
        r == first_difference(a@, b@),
        r is None <==> a@ == b@,
{
    if a.len() != b.len() {
        return Some(Mismatch::Length { a_len: a.len(), b_len: b.len() });
    }
    let mut i: usize = 0;
    while i < a.len()
        invariant
            i <= a@.len() == b@.len(),
            forall|j: int| 0 <= j < i ==> a@[j] == b@[j],
        decreases a@.len() - i,
    {
        if a[i] != b[i] {
            proof {
                let k = choose|k: int| 0 <= k < a@.len() && a@[k] != b@[k] && forall|j: int| 0 <= j < k ==> a@[j] == b@[j];
                assert(k == i) by {
                    if k < i {
                        assert(a@[k] == b@[k]);
                    }
                    if k > i {
                        assert(a@[i as int] == b@[i as int]);
                    }
                }
            }
            return Some(Mismatch::Entry { index: i, a: a[i], b: b[i] });
        }
        i = i + 1;
    }
    assert(a@ =~= b@);
    None
}

/// How two permutation dumps first differ.
#[derive(Debug, Clone, Copy, PartialEq, Eq, Structural)]
pub enum PermDumpDiff {
    /// The stages differ.
    Stage { a: u32, b: u32 },
    /// `n` or `nblocks` differ.
    Header { a_n: u32, a_nblocks: u32, b_n: u32, b_nblocks: u32 },
    /// The first array that differs, and how.
    Array { array: PermArray, mismatch: Mismatch },
}

/// The first difference between two permutation dumps: the stage, then `n`
/// and `nblocks`, then the arrays `P`, `Q`, `R`, `Pnum`, `Pinv` in turn.
pub open spec fn perm_dump_difference(a: PermDump, b: PermDump) -> Option<PermDumpDiff> {
    if a.stage != b.stage {
        Some(PermDumpDiff::Stage { a: a.stage, b: b.stage })
    } else if a.n != b.n || a.nblocks != b.nblocks {
        Some(PermDumpDiff::Header { a_n: a.n, a_nblocks: a.nblocks, b_n: b.n, b_nblocks: b.nblocks })
    } else if first_difference(a.p@, b.p@) is Some {
        Some(PermDumpDiff::Array { array: PermArray::P, mismatch: first_difference(a.p@, b.p@).unwrap() })
    } else if first_difference(a.q@, b.q@) is Some {
        Some(PermDumpDiff::Array { array: PermArray::Q, mismatch: first_difference(a.q@, b.q@).unwrap() })
    } else if first_difference(a.r@, b.r@) is Some {
        Some(PermDumpDiff::Array { array: PermArray::R, mismatch: first_difference(a.r@, b.r@).unwrap() })
    } else if first_difference(a.pnum@, b.pnum@) is Some {
        Some(PermDumpDiff::Array { array: PermArray::Pnum, mismatch: first_difference(a.pnum@, b.pnum@).unwrap() })
    } else if first_difference(a.pinv@, b.pinv@) is Some {
        Some(PermDumpDiff::Array { array: PermArray::Pinv, mismatch: first_difference(a.pinv@, b.pinv@).unwrap() })
    } else {
        None
    }
}

/// Compares two permutation dumps exactly; `None` when they are the same in
/// every field.
pub fn compare_perm_dumps(a: &PermDump, b: &PermDump) -> (r: Option<PermDumpDiff>)
    ensures
        r == perm_dump_difference(*a, *b),
        r is None <==> (a.stage == b.stage && a.n == b.n && a.nblocks == b.nblocks && a.p@ == b.p@ && a.q@ == b.q@
            && a.r@ == b.r@ && a.pnum@ == b.pnum@ && a.pinv@ == b.pinv@),
{
    if a.stage != b.stage {
        return Some(PermDumpDiff::Stage { a: a.stage, b: b.stage });
    }
    if a.n != b.n || a.nblocks != b.nblocks {
        return Some(PermDumpDiff::Header { a_n: a.n, a_nblocks: a.nblocks, b_n: b.n, b_nblocks: b.nblocks });
    }
    if let Some(m) = first_mismatch(&a.p, &b.p) {
        return Some(PermDumpDiff::Array { array: PermArray::P, mismatch: m });
    }
    if let Some(m) = first_mismatch(&a.q, &b.q) {
        return Some(PermDumpDiff::Array { array: PermArray::Q, mismatch: m });
    }
    if let Some(m) = first_mismatch(&a.r, &b.r) {
        return Some(PermDumpDiff::Array { array: PermArray::R, mismatch: m });
    }
    if let Some(m) = first_mismatch(&a.pnum, &b.pnum) {
        return Some(PermDumpDiff::Array { array: PermArray::Pnum, mismatch: m });
    }
    if let Some(m) = first_mismatch(&a.pinv, &b.pinv) {
        return Some(PermDumpDiff::Array { array: PermArray::Pinv, mismatch: m });
    }
    None
}

} // verus!
