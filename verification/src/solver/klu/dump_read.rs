use vstd::prelude::*;

use crate::solver::klu::dump::le4;
use crate::solver::klu::dump::le8;
use crate::solver::klu::dump::perm_dump_magic;
use crate::solver::klu::dump::solve_dump_magic;
use crate::solver::klu::dump::u64s_bytes;
use crate::solver::klu::dump::klu_perm_dump_magic;
use crate::solver::klu::dump::klu_solve_dump_magic;
use crate::solver::klu::dump::KLU_PERM_DUMP_VERSION;
use crate::solver::klu::dump::KLU_SOLVE_DUMP_VERSION;
use crate::solver::klu::dump::solve_dump_result;
use crate::solver::klu::dump::perm_dump_check;
use crate::solver::klu::dump::perm_dump_encoded;
use crate::solver::klu::dump::perm_dump_words;
use crate::solver::klu::dump::word_bytes;
use crate::solver::klu::dump::word_fits;
use crate::solver::klu::dump::words_bytes;
use crate::solver::klu::dump::DumpWord;
use crate::solver::klu::dump::KluPermDumpStage;

verus! {

// Reading back the binary dumps written by `dump`: a whole dump is a byte
// slice; reading stops at the first thing that is wrong, as reading the
// file front to back would.

/// The unsigned little-endian 32-bit word at `off`.
pub open spec fn u32_at(b: Seq<u8>, off: int) -> int {
    b[off] as int + 256 * b[off + 1] + 65536 * b[off + 2] + 16777216 * b[off + 3]
}

/// The signed (two's complement) little-endian 32-bit word at `off`.
pub open spec fn i32_at(b: Seq<u8>, off: int) -> int {
    let u = u32_at(b, off);
    if u >= 2147483648 {
        u - 4294967296
    } else {
        u
    }
}

/// The unsigned little-endian 64-bit word at `off`.
pub open spec fn u64_at(b: Seq<u8>, off: int) -> int {
    u32_at(b, off) + 4294967296 * u32_at(b, off + 4)
}

/// `count` signed 32-bit words from `off` on.
pub open spec fn i32s_at(b: Seq<u8>, off: int, count: int) -> Seq<i32> {
    Seq::new(count as nat, |k: int| i32_at(b, off + 4 * k) as i32)
}

/// `count` unsigned 64-bit words from `off` on.
pub open spec fn u64s_at(b: Seq<u8>, off: int, count: int) -> Seq<u64> {
    Seq::new(count as nat, |k: int| u64_at(b, off + 8 * k) as u64)
}

/// The unsigned 32-bit word at `off` of `b`.
pub fn read_u32_le(b: &[u8], off: usize) -> (v: u32)
    requires
        off + 4 <= b@.len(),
    ensures
        v == u32_at(b@, off as int),
{
    b[off] as u32 + 256 * (b[off + 1] as u32) + 65536 * (b[off + 2] as u32) + 16777216 * (b[off + 3] as u32)
}

/// The signed 32-bit word at `off` of `b`.
pub fn read_i32_le(b: &[u8], off: usize) -> (v: i32)
    requires
        off + 4 <= b@.len(),
    ensures
        v == i32_at(b@, off as int),
{
    let u = read_u32_le(b, off);
    if u >= 2147483648 {
        (u as i64 - 4294967296i64) as i32
    } else {
        u as i32
    }
}

/// The unsigned 64-bit word at `off` of `b`.
pub fn read_u64_le(b: &[u8], off: usize) -> (v: u64)
    requires
        off + 8 <= b@.len(),
    ensures
        v == u64_at(b@, off as int),
{
    let blen = b.len();
    let lo = read_u32_le(b, off);
    let hi = read_u32_le(b, off + 4);
    lo as u64 + 4294967296 * (hi as u64)
}

/// `count` signed 32-bit words of `b` from `off` on.
fn read_i32s(b: &[u8], off: usize, count: usize) -> (r: Vec<i32>)
    requires
        off + 4 * count <= b@.len(),
    ensures
        r@ == i32s_at(b@, off as int, count as int),
{
    let blen = b.len();
    let mut r: Vec<i32> = Vec::new();
    let mut k: usize = 0;
    while k < count
        invariant
            k <= count,
            off + 4 * count <= b@.len(),
            blen == b@.len(),
            r@ == i32s_at(b@, off as int, k as int),
        decreases count - k,
    {
        let v = read_i32_le(b, off + 4 * k);
        r.push(v);
        proof {
            assert(r@ =~= i32s_at(b@, off as int, k + 1));
        }
        k = k + 1;
    }
    r
}

/// `count` unsigned 64-bit words of `b` from `off` on.
fn read_u64s(b: &[u8], off: usize, count: usize) -> (r: Vec<u64>)
    requires
        off + 8 * count <= b@.len(),
    ensures
        r@ == u64s_at(b@, off as int, count as int),
{
    let blen = b.len();
    let mut r: Vec<u64> = Vec::new();
    let mut k: usize = 0;
    while k < count
        invariant
            k <= count,
            off + 8 * count <= b@.len(),
            blen == b@.len(),
            r@ == u64s_at(b@, off as int, k as int),
        decreases count - k,
    {
        let v = read_u64_le(b, off + 8 * k);
        r.push(v);
        proof {
            assert(r@ =~= u64s_at(b@, off as int, k + 1));
        }
        k = k + 1;
    }
    r
}

/// Why a dump cannot be read.
#[derive(Debug, Clone, Copy, PartialEq, Eq)]
pub enum DumpReadError {
    /// The bytes end before the dump does.
    Truncated,
    /// The first eight bytes are not the magic of the dump.
    BadMagic { got: [u8; 8] },
    /// The version is not the one written by this library.
    BadVersion { got: u32 },
    /// `nblocks + 1` overflows.
    NblocksOverflow,
    /// The number of values is not `d * nrhs`.
    LenMismatch { len: u32, expected: u64 },
}

/// A permutation dump read back.
#[derive(Debug, Clone, PartialEq, Eq)]
pub struct PermDump {
    pub stage: u32,
    pub n: u32,
    pub nblocks: u32,
    pub p: Vec<i32>,
    pub q: Vec<i32>,
    pub r: Vec<i32>,
    pub pnum: Vec<i32>,
    pub pinv: Vec<i32>,
}

/// A solve dump read back: the values as their bit patterns.
#[derive(Debug, Clone, PartialEq, Eq)]
pub struct SolveDump {
    pub n: u32,
    pub d: u32,
    pub nrhs: u32,
    pub len: u32,
    pub bits: Vec<u64>,
}

/// The length of a permutation dump of `n` and `nblocks`.
pub open spec fn perm_dump_len(n: int, nblocks: int) -> int {
    24 + 4 * (4 * n + nblocks + 1)
}

/// `e` is where reading the permutation dump `b` stops: the bytes end
/// before the magic, the version or the header; the magic or the version
/// is wrong; `nblocks + 1` overflows; or the bytes end before the arrays.
pub open spec fn perm_read_error(b: Seq<u8>, e: DumpReadError) -> bool {
    if b.len() < 8 {
        e == DumpReadError::Truncated
    } else if b.take(8) != perm_dump_magic() {
        e matches DumpReadError::BadMagic { got } && got@ == b.take(8)
    } else if b.len() < 12 {
        e == DumpReadError::Truncated
    } else if u32_at(b, 8) != KLU_PERM_DUMP_VERSION {
        e == DumpReadError::BadVersion { got: u32_at(b, 8) as u32 }
    } else if b.len() < 24 {
        e == DumpReadError::Truncated
    } else if u32_at(b, 20) == usize::MAX {
        e == DumpReadError::NblocksOverflow
    } else if b.len() < perm_dump_len(u32_at(b, 16), u32_at(b, 20)) {
        e == DumpReadError::Truncated
    } else {
        false
    }
}

/// The bytes `b` open with a whole permutation dump.
pub open spec fn perm_read_ok(b: Seq<u8>) -> bool {
    &&& b.len() >= 24
    &&& b.take(8) == perm_dump_magic()
    &&& u32_at(b, 8) == KLU_PERM_DUMP_VERSION
    &&& u32_at(b, 20) != usize::MAX
    &&& b.len() >= perm_dump_len(u32_at(b, 16), u32_at(b, 20))
}

/// The dump that the bytes `b` hold: the header words, then the arrays of
/// signed words `P` and `Q` (`n` each), `R` (`nblocks + 1`), `Pnum` and
/// `Pinv` (`n` each).
pub open spec fn perm_dump_holds(b: Seq<u8>, d: PermDump) -> bool {
    let n = u32_at(b, 16);
    let nb = u32_at(b, 20);
    &&& d.stage == u32_at(b, 12)
    &&& d.n == n
    &&& d.nblocks == nb
    &&& d.p@ == i32s_at(b, 24, n)
    &&& d.q@ == i32s_at(b, 24 + 4 * n, n)
    &&& d.r@ == i32s_at(b, 24 + 8 * n, nb + 1)
    &&& d.pnum@ == i32s_at(b, 24 + 4 * (2 * n + nb + 1), n)
    &&& d.pinv@ == i32s_at(b, 24 + 4 * (3 * n + nb + 1), n)
}

/// The first eight bytes of `b`.
fn first8(b: &[u8]) -> (r: [u8; 8])
    requires
        b@.len() >= 8,
    ensures
        r@ == b@.take(8),
{
    let r = [b[0], b[1], b[2], b[3], b[4], b[5], b[6], b[7]];
    assert(r@ =~= b@.take(8));
    r
}

/// The first eight bytes of `b` are `m`.
fn starts_with8(b: &[u8], m: [u8; 8]) -> (r: bool)
    requires
        b@.len() >= 8,
    ensures
        r == (b@.take(8) == m@),
{
    let mut i: usize = 0;
    while i < 8
        invariant
            i <= 8 <= b@.len(),
            forall|j: int| 0 <= j < i ==> b@[j] == m@[j],
        decreases 8 - i,
    {
        if b[i] != m[i] {
            assert(b@.take(8)[i as int] != m@[i as int]);
            return false;
        }
        i = i + 1;
    }
    assert(b@.take(8) =~= m@);
    true
}

/// Reads a permutation dump from the front of `b` (bytes after it are not
/// looked at). See `perm_read_error` for where it stops.
pub fn decode_perm_dump(b: &[u8]) -> (r: Result<PermDump, DumpReadError>)
    ensures
        match r {
            Ok(d) => perm_read_ok(b@) && perm_dump_holds(b@, d),
            Err(e) => perm_read_error(b@, e),
        },
{
    let blen = b.len();
    if blen < 8 {
        return Err(DumpReadError::Truncated);
    }
    if !starts_with8(b, klu_perm_dump_magic()) {
        return Err(DumpReadError::BadMagic { got: first8(b) });
    }
    if blen < 12 {
        return Err(DumpReadError::Truncated);
    }
    let version = read_u32_le(b, 8);
    if version != KLU_PERM_DUMP_VERSION {
        return Err(DumpReadError::BadVersion { got: version });
    }
    if blen < 24 {
        return Err(DumpReadError::Truncated);
    }
    let stage = read_u32_le(b, 12);
    let n = read_u32_le(b, 16);
    let nblocks = read_u32_le(b, 20);
    if nblocks as usize == usize::MAX {
        return Err(DumpReadError::NblocksOverflow);
    }
    let need: u64 = 24 + 4 * (4 * (n as u64) + nblocks as u64 + 1);
    if (blen as u64) < need {
        return Err(DumpReadError::Truncated);
    }
    let nu = n as usize;
    let nbu = nblocks as usize;
    let p = read_i32s(b, 24, nu);
    let q = read_i32s(b, 24 + 4 * nu, nu);
    let r = read_i32s(b, 24 + 8 * nu, nbu + 1);
    let pnum = read_i32s(b, 24 + 4 * (2 * nu + nbu + 1), nu);
    let pinv = read_i32s(b, 24 + 4 * (3 * nu + nbu + 1), nu);
    Ok(PermDump { stage, n, nblocks, p, q, r, pnum, pinv })
}

/// The length of a solve dump of `len` values.
pub open spec fn solve_dump_len(len: int) -> int {
    28 + 8 * len
}

/// `e` is where reading the solve dump `b` stops: the bytes end before the
/// magic, the version or the header; the magic or the version is wrong;
/// `len` is not `d * nrhs`; or the bytes end before the values.
pub open spec fn solve_read_error(b: Seq<u8>, e: DumpReadError) -> bool {
    if b.len() < 8 {
        e == DumpReadError::Truncated
    } else if b.take(8) != solve_dump_magic() {
        e matches DumpReadError::BadMagic { got } && got@ == b.take(8)
    } else if b.len() < 12 {
        e == DumpReadError::Truncated
    } else if u32_at(b, 8) != KLU_SOLVE_DUMP_VERSION {
        e == DumpReadError::BadVersion { got: u32_at(b, 8) as u32 }
    } else if b.len() < 28 {
        e == DumpReadError::Truncated
    } else if u32_at(b, 24) != u32_at(b, 16) * u32_at(b, 20) {
        e == DumpReadError::LenMismatch { len: u32_at(b, 24) as u32, expected: (u32_at(b, 16) * u32_at(b, 20)) as u64 }
    } else if b.len() < solve_dump_len(u32_at(b, 24)) {
        e == DumpReadError::Truncated
    } else {
        false
    }
}

/// The bytes `b` open with a whole solve dump.
pub open spec fn solve_read_ok(b: Seq<u8>) -> bool {
    &&& b.len() >= 28
    &&& b.take(8) == solve_dump_magic()
    &&& u32_at(b, 8) == KLU_SOLVE_DUMP_VERSION
    &&& u32_at(b, 24) == u32_at(b, 16) * u32_at(b, 20)
    &&& b.len() >= solve_dump_len(u32_at(b, 24))
}

/// The dump that the bytes `b` hold: `n`, `d`, `nrhs`, `len`, then `len`
/// values as 64-bit words.
pub open spec fn solve_dump_holds(b: Seq<u8>, d: SolveDump) -> bool {
    &&& d.n == u32_at(b, 12)
    &&& d.d == u32_at(b, 16)
    &&& d.nrhs == u32_at(b, 20)
    &&& d.len == u32_at(b, 24)
    &&& d.bits@ == u64s_at(b, 28, u32_at(b, 24))
}

/// Reads a solve dump from the front of `b` (bytes after it are not looked
/// at). See `solve_read_error` for where it stops.
pub fn decode_solve_dump(b: &[u8]) -> (r: Result<SolveDump, DumpReadError>)
    ensures
        match r {
            Ok(d) => solve_read_ok(b@) && solve_dump_holds(b@, d),
            Err(e) => solve_read_error(b@, e),
        },
{
    let blen = b.len();
    if blen < 8 {
        return Err(DumpReadError::Truncated);
    }
    if !starts_with8(b, klu_solve_dump_magic()) {
        return Err(DumpReadError::BadMagic { got: first8(b) });
    }
    if blen < 12 {
        return Err(DumpReadError::Truncated);
    }
    let version = read_u32_le(b, 8);
    if version != KLU_SOLVE_DUMP_VERSION {
        return Err(DumpReadError::BadVersion { got: version });
    }
    if blen < 28 {
        return Err(DumpReadError::Truncated);
    }
    let n = read_u32_le(b, 12);
    let d = read_u32_le(b, 16);
    let nrhs = read_u32_le(b, 20);
    let len = read_u32_le(b, 24);
    proof {
        assert(d as int * nrhs as int <= 0xffff_ffff * 0xffff_ffff) by (nonlinear_arith);
    }
    let expected: u64 = d as u64 * nrhs as u64;
    if expected != len as u64 {
        return Err(DumpReadError::LenMismatch { len, expected });
    }
    let need: u64 = 28 + 8 * (len as u64);
    if (blen as u64) < need {
        return Err(DumpReadError::Truncated);
    }
    let bits = read_u64s(b, 28, len as usize);
    Ok(SolveDump { n, d, nrhs, len, bits })
}

/// The four bytes of `le4(x)` read back give `x`.
proof fn lemma_le4_value(x: int)
    requires
        0 <= x < 4294967296,
    ensures
        le4(x).len() == 4,
        le4(x)[0] as int + 256 * le4(x)[1] + 65536 * le4(x)[2] + 16777216 * le4(x)[3] == x,
{
    let y = x as u32;
    assert((y % 256) + 256 * ((y / 256) % 256) + 65536 * ((y / 65536) % 256) + 16777216 * ((y / 16777216) % 256) == y)
        by (bit_vector);
}

/// The word at `off` of bytes holding `le4(x)` there.
proof fn lemma_u32_at(b: Seq<u8>, off: int, x: int)
    requires
        0 <= x < 4294967296,
        0 <= off,
        off + 4 <= b.len(),
        b.subrange(off, off + 4) == le4(x),
    ensures
        u32_at(b, off) == x,
{
    lemma_le4_value(x);
    assert(b[off] == b.subrange(off, off + 4)[0]);
    assert(b[off + 1] == b.subrange(off, off + 4)[1]);
    assert(b[off + 2] == b.subrange(off, off + 4)[2]);
    assert(b[off + 3] == b.subrange(off, off + 4)[3]);
}

/// The 64-bit word at `off` of bytes holding `le8(x)` there.
proof fn lemma_u64_at(b: Seq<u8>, off: int, x: int)
    requires
        0 <= x < 18446744073709551616,
        0 <= off,
        off + 8 <= b.len(),
        b.subrange(off, off + 8) == le8(x),
    ensures
        u64_at(b, off) == x,
{
    let lo = x % 4294967296;
    let hi = x / 4294967296;
    assert(0 <= hi < 4294967296);
    lemma_le4_value(lo);
    lemma_le4_value(hi);
    assert(b.subrange(off, off + 4) =~= le4(lo)) by {
        assert forall|i: int| 0 <= i < 4 implies b.subrange(off, off + 4)[i] == le4(lo)[i] by {
            assert(b.subrange(off, off + 8)[i] == le8(x)[i]);
        }
    }
    assert(b.subrange(off + 4, off + 8) =~= le4(hi)) by {
        assert forall|i: int| 0 <= i < 4 implies b.subrange(off + 4, off + 8)[i] == le4(hi)[i] by {
            assert(b.subrange(off, off + 8)[4 + i] == le8(x)[4 + i]);
        }
    }
    lemma_u32_at(b, off, lo);
    lemma_u32_at(b, off + 4, hi);
}

/// The `k`-th eight bytes of `u64s_bytes(s)` are those of `s[k]`.
proof fn lemma_u64s_bytes_at(s: Seq<u64>, k: int)
    requires
        0 <= k < s.len(),
    ensures
        u64s_bytes(s).len() == 8 * s.len(),
        u64s_bytes(s).subrange(8 * k, 8 * k + 8) == le8(s[k] as int),
    decreases s.len(),
{
    let t = s.drop_last();
    lemma_u64s_len(t);
    if k < s.len() - 1 {
        lemma_u64s_bytes_at(t, k);
        assert(u64s_bytes(s).subrange(8 * k, 8 * k + 8) =~= u64s_bytes(t).subrange(8 * k, 8 * k + 8));
    } else {
        assert(u64s_bytes(s).subrange(8 * k, 8 * k + 8) =~= le8(s[k] as int));
    }
}

proof fn lemma_u64s_len(s: Seq<u64>)
    ensures
        u64s_bytes(s).len() == 8 * s.len(),
    decreases s.len(),
{
    if s.len() > 0 {
        lemma_u64s_len(s.drop_last());
    }
}

/// Reading back a whole solve dump gives its header and its values: for
/// counts that fit and enough values (see `solve_dump_result`), the bytes
/// written read back as a solve dump of `n`, `d`, `nrhs`, `d * nrhs` and
/// the first `d * nrhs` values, and nothing after it.
pub proof fn lemma_solve_dump_roundtrip(n: usize, d: usize, nrhs: usize, bits: Seq<u64>)
    requires
        solve_dump_result(n, d, nrhs, bits).1 is None,
    ensures
        ({
            let b = solve_dump_result(n, d, nrhs, bits).0;
            let len = d * nrhs;
            &&& solve_read_ok(b)
            &&& b.len() == solve_dump_len(len)
            &&& u32_at(b, 12) == n
            &&& u32_at(b, 16) == d
            &&& u32_at(b, 20) == nrhs
            &&& u32_at(b, 24) == len
            &&& u64s_at(b, 28, len) == bits.take(len)
        }),
{
    let len = d * nrhs;
    let t = bits.take(len);
    let h0 = solve_dump_magic();
    let h1 = h0 + le4(KLU_SOLVE_DUMP_VERSION as int);
    let h2 = h1 + le4(n as int);
    let h3 = h2 + le4(d as int);
    let h4 = h3 + le4(nrhs as int);
    let h5 = h4 + le4(len);
    let b = h5 + u64s_bytes(t);
    assert(b == solve_dump_result(n, d, nrhs, bits).0);
    lemma_u64s_len(t);
    assert(b.take(8) =~= h0);
    assert(b.subrange(8, 12) =~= le4(KLU_SOLVE_DUMP_VERSION as int));
    assert(b.subrange(12, 16) =~= le4(n as int));
    assert(b.subrange(16, 20) =~= le4(d as int));
    assert(b.subrange(20, 24) =~= le4(nrhs as int));
    assert(b.subrange(24, 28) =~= le4(len));
    lemma_u32_at(b, 8, KLU_SOLVE_DUMP_VERSION as int);
    lemma_u32_at(b, 12, n as int);
    lemma_u32_at(b, 16, d as int);
    lemma_u32_at(b, 20, nrhs as int);
    lemma_u32_at(b, 24, len);
    assert forall|k: int| 0 <= k < len implies #[trigger] u64s_at(b, 28, len)[k] == t[k] by {
        lemma_u64s_bytes_at(t, k);
        assert(b.subrange(28 + 8 * k, 28 + 8 * k + 8) =~= u64s_bytes(t).subrange(8 * k, 8 * k + 8));
        lemma_u64_at(b, 28 + 8 * k, t[k] as int);
    }
    assert(u64s_at(b, 28, len) =~= t);
}

proof fn lemma_words_len(ws: Seq<DumpWord>)
    ensures
        words_bytes(ws).len() == 4 * ws.len(),
    decreases ws.len(),
{
    if ws.len() > 0 {
        lemma_words_len(ws.drop_last());
    }
}

/// The `k`-th four bytes of `words_bytes(ws)` are those of `ws[k]`.
proof fn lemma_words_bytes_at(ws: Seq<DumpWord>, k: int)
    requires
        0 <= k < ws.len(),
    ensures
        words_bytes(ws).subrange(4 * k, 4 * k + 4) == word_bytes(ws[k]),
    decreases ws.len(),
{
    let t = ws.drop_last();
    lemma_words_len(t);
    if k < ws.len() - 1 {
        lemma_words_bytes_at(t, k);
        assert(words_bytes(ws).subrange(4 * k, 4 * k + 4) =~= words_bytes(t).subrange(4 * k, 4 * k + 4));
    } else {
        assert(words_bytes(ws).subrange(4 * k, 4 * k + 4) =~= word_bytes(ws[k]));
    }
}

/// A fitting word of a dump reads back as its value.
proof fn lemma_word_read(b: Seq<u8>, ws: Seq<DumpWord>, k: int)
    requires
        b == perm_dump_magic() + words_bytes(ws),
        0 <= k < ws.len(),
        word_fits(ws[k]),
    ensures
        ws[k] matches DumpWord::Unsigned(v) ==> u32_at(b, 8 + 4 * k) == v,
        ws[k] matches DumpWord::Signed(v) ==> i32_at(b, 8 + 4 * k) == v,
{
    lemma_words_len(ws);
    lemma_words_bytes_at(ws, k);
    assert(b.subrange(8 + 4 * k, 8 + 4 * k + 4) =~= words_bytes(ws).subrange(4 * k, 4 * k + 4));
    match ws[k] {
        DumpWord::Unsigned(v) => {
            lemma_u32_at(b, 8 + 4 * k, v);
        },
        DumpWord::Signed(v) => {
            lemma_u32_at(b, 8 + 4 * k, if v >= 0 { v } else { v + 4294967296 });
        },
    }
}

/// Reading back a whole permutation dump gives what was written: for
/// consistent arrays whose words all fit (the dump is complete, see
/// `encode_perm_dump`), the bytes read back as a permutation dump of the
/// stage, `n`, `nblocks` and the arrays `P`, `Q`, `R[0..=nblocks]`, `Pnum`
/// and `Pinv`, and nothing after it.
pub proof fn lemma_perm_dump_roundtrip(
    stage: KluPermDumpStage,
    n: usize,
    nblocks: usize,
    p: Seq<isize>,
    q: Seq<isize>,
    r: Seq<usize>,
    pnum: Seq<isize>,
    pinv: Seq<isize>,
    bytes: Seq<u8>,
)
    requires
        perm_dump_check(n, n, p.len(), q.len(), r.len(), nblocks, pnum.len(), pinv.len()) is None,
        perm_dump_encoded(bytes, None, perm_dump_words(stage, n, nblocks, p, q, r, pnum, pinv), n as int, nblocks as int),
    ensures
        perm_read_ok(bytes),
        bytes.len() == perm_dump_len(n as int, nblocks as int),
        u32_at(bytes, 12) == stage.spec_code(),
        u32_at(bytes, 16) == n,
        u32_at(bytes, 20) == nblocks,
        i32s_at(bytes, 24, n as int) == p.map_values(|v: isize| v as i32),
        i32s_at(bytes, 24 + 4 * n, n as int) == q.map_values(|v: isize| v as i32),
        i32s_at(bytes, 24 + 8 * n, nblocks + 1) == r.take(nblocks + 1).map_values(|v: usize| v as i32),
        i32s_at(bytes, 24 + 4 * (2 * n + nblocks + 1), n as int) == pnum.map_values(|v: isize| v as i32),
        i32s_at(bytes, 24 + 4 * (3 * n + nblocks + 1), n as int) == pinv.map_values(|v: isize| v as i32),
{
    reveal(perm_dump_encoded);
    let ws = perm_dump_words(stage, n, nblocks, p, q, r, pnum, pinv);
    let nn = n as int;
    let nb = nblocks as int;
    lemma_words_len(ws.take(ws.len() as int));
    assert(ws.take(ws.len() as int) =~= ws);
    assert(bytes == perm_dump_magic() + words_bytes(ws));
    assert(bytes.take(8) =~= perm_dump_magic());
    lemma_word_read(bytes, ws, 0);
    lemma_word_read(bytes, ws, 1);
    lemma_word_read(bytes, ws, 2);
    lemma_word_read(bytes, ws, 3);
    assert forall|j: int| 0 <= j < nn implies #[trigger] i32s_at(bytes, 24, nn)[j] == p.map_values(|v: isize| v as i32)[j] by {
        lemma_word_read(bytes, ws, 4 + j);
    }
    assert(i32s_at(bytes, 24, nn) =~= p.map_values(|v: isize| v as i32));
    assert forall|j: int| 0 <= j < nn implies #[trigger] i32s_at(bytes, 24 + 4 * nn, nn)[j] == q.map_values(|v: isize| v as i32)[j] by {
        lemma_word_read(bytes, ws, 4 + nn + j);
    }
    assert(i32s_at(bytes, 24 + 4 * nn, nn) =~= q.map_values(|v: isize| v as i32));
    assert forall|j: int| 0 <= j < nb + 1 implies #[trigger] i32s_at(bytes, 24 + 8 * nn, nb + 1)[j] == r.take(nb + 1).map_values(
        |v: usize| v as i32,
    )[j] by {
        lemma_word_read(bytes, ws, 4 + 2 * nn + j);
    }
    assert(i32s_at(bytes, 24 + 8 * nn, nb + 1) =~= r.take(nb + 1).map_values(|v: usize| v as i32));
    assert forall|j: int| 0 <= j < nn implies #[trigger] i32s_at(bytes, 24 + 4 * (2 * nn + nb + 1), nn)[j] == pnum.map_values(
        |v: isize| v as i32,
    )[j] by {
        lemma_word_read(bytes, ws, 4 + 2 * nn + nb + 1 + j);
    }
    assert(i32s_at(bytes, 24 + 4 * (2 * nn + nb + 1), nn) =~= pnum.map_values(|v: isize| v as i32));
    assert forall|j: int| 0 <= j < nn implies #[trigger] i32s_at(bytes, 24 + 4 * (3 * nn + nb + 1), nn)[j] == pinv.map_values(
        |v: isize| v as i32,
    )[j] by {
        lemma_word_read(bytes, ws, 4 + 3 * nn + nb + 1 + j);
    }
    assert(i32s_at(bytes, 24 + 4 * (3 * nn + nb + 1), nn) =~= pinv.map_values(|v: isize| v as i32));
}

} // verus!
