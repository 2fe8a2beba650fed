use vstd::prelude::*;

verus! {

/// Format version of the binary permutation dump.
pub const KLU_PERM_DUMP_VERSION: u32 = 1;

/// Format version of the binary solve dump.
pub const KLU_SOLVE_DUMP_VERSION: u32 = 1;

/// The stage after which a permutation dump is taken.
#[derive(Debug, Clone, Copy, PartialEq, Eq, Structural)]
pub enum KluPermDumpStage {
    AnalyzeFactor,
    Solve,
}

impl KluPermDumpStage {
    /// The stage number written to the dump.
    pub open spec fn spec_code(self) -> u32 {
        match self {
            KluPermDumpStage::AnalyzeFactor => 1,
            KluPermDumpStage::Solve => 2,
        }
    }

    /// The stage number written to the dump: 1 after analysis and
    /// factorization, 2 after a solve.
    pub fn code(self) -> (r: u32)
        ensures
            r == self.spec_code(),
    {
        match self {
            KluPermDumpStage::AnalyzeFactor => 1,
            KluPermDumpStage::Solve => 2,
        }
    }
}

/// The magic bytes `SPKLPERM` that open a permutation dump.
pub open spec fn perm_dump_magic() -> Seq<u8> {
    seq![83u8, 80u8, 75u8, 76u8, 80u8, 69u8, 82u8, 77u8]
}

/// The magic bytes `SPKLSOLV` that open a solve dump.
pub open spec fn solve_dump_magic() -> Seq<u8> {
    seq![83u8, 80u8, 75u8, 76u8, 83u8, 79u8, 76u8, 86u8]
}

/// The magic bytes of a permutation dump.
pub fn klu_perm_dump_magic() -> (r: [u8; 8])
    ensures
        r@ == perm_dump_magic(),
{
    [83u8, 80u8, 75u8, 76u8, 80u8, 69u8, 82u8, 77u8]
}

/// The magic bytes of a solve dump.
pub fn klu_solve_dump_magic() -> (r: [u8; 8])
    ensures
        r@ == solve_dump_magic(),
{
    [83u8, 80u8, 75u8, 76u8, 83u8, 79u8, 76u8, 86u8]
}

/// The four little-endian bytes of `x` in `0..2^32`.
pub open spec fn le4(x: int) -> Seq<u8> {
    seq![(x % 256) as u8, (x / 256 % 256) as u8, (x / 65536 % 256) as u8, (x / 16777216 % 256) as u8]
}

/// The eight little-endian bytes of `x` in `0..2^64`.
pub open spec fn le8(x: int) -> Seq<u8> {
    le4(x % 4294967296) + le4(x / 4294967296)
}

/// A field of the permutation dump.
#[derive(Debug, Clone, Copy, PartialEq, Eq, Structural)]
pub enum DumpField {
    N,
    Nblocks,
    PEntry,
    QEntry,
    REntry,
    PnumEntry,
    PinvEntry,
}

/// One 32-bit word of a dump: unsigned or signed.
pub enum DumpWord {
    Unsigned(int),
    Signed(int),
}

/// The word can be written in 32 bits.
pub open spec fn word_fits(w: DumpWord) -> bool {
    match w {
        DumpWord::Unsigned(v) => 0 <= v < 4294967296,
        DumpWord::Signed(v) => -2147483648 <= v < 2147483648,
    }
}

/// The bytes of a word, two's complement for signed words.
pub open spec fn word_bytes(w: DumpWord) -> Seq<u8> {
    match w {
        DumpWord::Unsigned(v) => le4(v),
        DumpWord::Signed(v) => le4(
            if v >= 0 {
                v
            } else {
                v + 4294967296
            },
        ),
    }
}

/// The bytes of a run of words.
pub open spec fn words_bytes(ws: Seq<DumpWord>) -> Seq<u8>
    decreases ws.len(),
{
    if ws.len() == 0 {
        Seq::empty()
    } else {
        words_bytes(ws.drop_last()) + word_bytes(ws.last())
    }
}

/// Signed words of the values of `s`.
pub open spec fn signed_words(s: Seq<isize>) -> Seq<DumpWord> {
    s.map_values(|v: isize| DumpWord::Signed(v as int))
}

/// Signed words of the values of `s`.
pub open spec fn signed_words_usize(s: Seq<usize>) -> Seq<DumpWord> {
    s.map_values(|v: usize| DumpWord::Signed(v as int))
}

/// The words of a permutation dump after the magic bytes: version, stage,
/// `n`, `nblocks`, then `P`, `Q`, `R[0..=nblocks]`, `Pnum`, `Pinv`.
pub open spec fn perm_dump_words(
    stage: KluPermDumpStage,
    n: usize,
    nblocks: usize,
    p: Seq<isize>,
    q: Seq<isize>,
    r: Seq<usize>,
    pnum: Seq<isize>,
    pinv: Seq<isize>,
) -> Seq<DumpWord> {
    seq![
        DumpWord::Unsigned(KLU_PERM_DUMP_VERSION as int),
        DumpWord::Unsigned(stage.spec_code() as int),
        DumpWord::Unsigned(n as int),
        DumpWord::Unsigned(nblocks as int),
    ] + signed_words(p) + signed_words(q) + signed_words_usize(r.take(nblocks + 1)) + signed_words(pnum)
        + signed_words(pinv)
}

/// The field that the `k`-th word of a permutation dump belongs to.
pub open spec fn perm_dump_field(k: int, n: int, nblocks: int) -> DumpField {
    if k == 2 {
        DumpField::N
    } else if k == 3 {
        DumpField::Nblocks
    } else if k < 4 + n {
        DumpField::PEntry
    } else if k < 4 + 2 * n {
        DumpField::QEntry
    } else if k < 4 + 2 * n + nblocks + 1 {
        DumpField::REntry
    } else if k < 4 + 3 * n + nblocks + 1 {
        DumpField::PnumEntry
    } else {
        DumpField::PinvEntry
    }
}

/// Why a permutation dump cannot be written.
#[derive(Debug, Clone, Copy, PartialEq, Eq, Structural)]
pub enum PermDumpError {
    /// The symbolic and numeric objects disagree on `n`.
    NMismatch { symbolic_n: usize, numeric_n: usize },
    /// An array (`PEntry`, `QEntry`, `PnumEntry` or `PinvEntry`) is not of length `n`.
    LengthMismatch { field: DumpField, len: usize, n: usize },
    /// `nblocks + 1` overflows.
    NblocksOverflow,
    /// The block boundaries hold fewer than `nblocks + 1` entries.
    RTooSmall { len: usize, need: usize },
    /// A count does not fit in an unsigned 32-bit word.
    U32OutOfRange { field: DumpField, value: usize },
    /// An entry does not fit in a signed 32-bit word.
    I32OutOfRange { field: DumpField, value: isize },
    /// A boundary does not fit in a signed 32-bit word.
    I32FromUsizeOutOfRange { field: DumpField, value: usize },
}

/// The error for a word that does not fit, placed at word `k` of the dump.
pub open spec fn unfit_error(w: DumpWord, field: DumpField, e: PermDumpError) -> bool {
    match w {
        DumpWord::Unsigned(v) => e == PermDumpError::U32OutOfRange { field, value: v as usize },
        DumpWord::Signed(v) => e == (PermDumpError::I32OutOfRange { field, value: v as isize }) || e
            == (PermDumpError::I32FromUsizeOutOfRange { field, value: v as usize }),
    }
}

/// The bytes of a permutation dump, up to the first word that does not fit,
/// and the error for that word. `Ok` holds the whole dump.
pub struct PermDumpBytes {
    pub bytes: Vec<u8>,
    pub error: Option<PermDumpError>,
}

/// Appends the little-endian bytes of `v`.
fn push_u32_le(out: &mut Vec<u8>, v: u32)
    ensures
        final(out)@ == old(out)@ + le4(v as int),
{
    out.push((v % 256) as u8);
    out.push((v / 256 % 256) as u8);
    out.push((v / 65536 % 256) as u8);
    out.push((v / 16777216 % 256) as u8);
    assert(final(out)@ =~= old(out)@ + le4(v as int));
}

proof fn lemma_words_bytes_push(ws: Seq<DumpWord>, w: DumpWord)
    ensures
        words_bytes(ws.push(w)) == words_bytes(ws) + word_bytes(w),
{
    assert(ws.push(w).drop_last() =~= ws);
}

/// Appends the signed words of `vals` while they fit; returns the index of
/// the first one that does not.
fn push_signed_words(out: &mut Vec<u8>, vals: &[isize], Ghost(done): Ghost<Seq<DumpWord>>) -> (bad: Option<usize>)
    requires
        old(out)@ == perm_dump_magic() + words_bytes(done),
    ensures
        match bad {
            None => final(out)@ == perm_dump_magic() + words_bytes(done + signed_words(vals@)) && forall|j: int|
                0 <= j < vals@.len() ==> word_fits(#[trigger] signed_words(vals@)[j]),
            Some(i) => i < vals@.len() && !word_fits(signed_words(vals@)[i as int]) && final(out)@ == perm_dump_magic()
                + words_bytes(done + signed_words(vals@).take(i as int)) && forall|j: int|
                0 <= j < i ==> word_fits(#[trigger] signed_words(vals@)[j]),
        },
{
    let mut i: usize = 0;
    while i < vals.len()
        invariant
            i <= vals@.len(),
            out@ == perm_dump_magic() + words_bytes(done + signed_words(vals@).take(i as int)),
            forall|j: int| 0 <= j < i ==> word_fits(#[trigger] signed_words(vals@)[j]),
        decreases vals@.len() - i,
    {
        let v = vals[i];
        if v < -2147483648 || v > 2147483647 {
            return Some(i);
        }
        let x: u32 = if v >= 0 {
            v as u32
        } else {
            (v as i64 + 4294967296i64) as u32
        };
        push_u32_le(out, x);
        proof {
            let ws = signed_words(vals@);
            assert(ws.take(i + 1) =~= ws.take(i as int).push(ws[i as int]));
            assert(done + ws.take(i + 1) =~= (done + ws.take(i as int)).push(ws[i as int]));
            lemma_words_bytes_push(done + ws.take(i as int), ws[i as int]);
        }
        i = i + 1;
    }
    proof {
        assert(signed_words(vals@).take(i as int) =~= signed_words(vals@));
    }
    None
}

/// Appends the boundaries `vals` as signed words while they fit; returns the
/// index of the first one that does not.
fn push_signed_words_usize(out: &mut Vec<u8>, vals: &[usize], Ghost(done): Ghost<Seq<DumpWord>>) -> (bad: Option<usize>)
    requires
        old(out)@ == perm_dump_magic() + words_bytes(done),
    ensures
        match bad {
            None => final(out)@ == perm_dump_magic() + words_bytes(done + signed_words_usize(vals@)) && forall|j: int|
                0 <= j < vals@.len() ==> word_fits(#[trigger] signed_words_usize(vals@)[j]),
            Some(i) => i < vals@.len() && !word_fits(signed_words_usize(vals@)[i as int]) && final(out)@
                == perm_dump_magic() + words_bytes(done + signed_words_usize(vals@).take(i as int)) && forall|j: int|
                0 <= j < i ==> word_fits(#[trigger] signed_words_usize(vals@)[j]),
        },
{
    let mut i: usize = 0;
    while i < vals.len()
        invariant
            i <= vals@.len(),
            out@ == perm_dump_magic() + words_bytes(done + signed_words_usize(vals@).take(i as int)),
            forall|j: int| 0 <= j < i ==> word_fits(#[trigger] signed_words_usize(vals@)[j]),
        decreases vals@.len() - i,
    {
        let v = vals[i];
        if v > 2147483647 {
            return Some(i);
        }
        push_u32_le(out, v as u32);
        proof {
            let ws = signed_words_usize(vals@);
            assert(ws.take(i + 1) =~= ws.take(i as int).push(ws[i as int]));
            assert(done + ws.take(i + 1) =~= (done + ws.take(i as int)).push(ws[i as int]));
            lemma_words_bytes_push(done + ws.take(i as int), ws[i as int]);
        }
        i = i + 1;
    }
    proof {
        assert(signed_words_usize(vals@).take(i as int) =~= signed_words_usize(vals@));
    }
    None
}

/// The first reason, if any, for which the arrays cannot form a dump:
/// the two `n` differ, an array is not of length `n`, `nblocks + 1`
/// overflows, or the boundaries are too few.
pub open spec fn perm_dump_check(
    symbolic_n: usize,
    numeric_n: usize,
    p_len: nat,
    q_len: nat,
    r_len: nat,
    nblocks: usize,
    pnum_len: nat,
    pinv_len: nat,
) -> Option<PermDumpError> {
    if numeric_n != symbolic_n {
        Some(PermDumpError::NMismatch { symbolic_n, numeric_n })
    } else if p_len != symbolic_n {
        Some(PermDumpError::LengthMismatch { field: DumpField::PEntry, len: p_len as usize, n: symbolic_n })
    } else if q_len != symbolic_n {
        Some(PermDumpError::LengthMismatch { field: DumpField::QEntry, len: q_len as usize, n: symbolic_n })
    } else if pnum_len != symbolic_n {
        Some(PermDumpError::LengthMismatch { field: DumpField::PnumEntry, len: pnum_len as usize, n: symbolic_n })
    } else if pinv_len != symbolic_n {
        Some(PermDumpError::LengthMismatch { field: DumpField::PinvEntry, len: pinv_len as usize, n: symbolic_n })
    } else if nblocks == usize::MAX {
        Some(PermDumpError::NblocksOverflow)
    } else if r_len < nblocks + 1 {
        Some(PermDumpError::RTooSmall { len: r_len as usize, need: (nblocks + 1) as usize })
    } else {
        None
    }
}

/// `out` holds the dump of words `ws` up to the first word that does not
/// fit, and `error` that word's error.
#[verifier::opaque]
pub open spec fn perm_dump_encoded(bytes: Seq<u8>, error: Option<PermDumpError>, ws: Seq<DumpWord>, n: int, nblocks: int) -> bool {
    let k = (bytes.len() - 8) / 4;
    &&& bytes.len() >= 8
    &&& (bytes.len() - 8) % 4 == 0
    &&& k <= ws.len()
    &&& bytes == perm_dump_magic() + words_bytes(ws.take(k))
    &&& forall|j: int| 0 <= j < k ==> word_fits(#[trigger] ws[j])
    &&& (error is None <==> k == ws.len())
    &&& (error matches Some(e) ==> !word_fits(ws[k]) && unfit_error(ws[k], perm_dump_field(k, n, nblocks), e))
}

/// A segment `seg` placed after `pre` at the start of `ws`.
proof fn lemma_segment(ws: Seq<DumpWord>, pre: Seq<DumpWord>, seg: Seq<DumpWord>, k: int)
    requires
        pre.len() + seg.len() <= ws.len(),
        ws.take((pre.len() + seg.len()) as int) == pre + seg,
        0 <= k <= seg.len(),
    ensures
        ws.take(pre.len() + k) == pre + seg.take(k),
        k < seg.len() ==> ws[pre.len() + k] == seg[k],
{
    assert(ws.take(pre.len() + k) =~= pre + seg.take(k)) by {
        assert forall|i: int| 0 <= i < pre.len() + k implies ws.take(pre.len() + k)[i] == (pre + seg.take(k))[i] by {
            assert(ws.take((pre.len() + seg.len()) as int)[i] == (pre + seg)[i]);
        }
    }
    if k < seg.len() {
        assert(ws.take((pre.len() + seg.len()) as int)[pre.len() + k] == (pre + seg)[pre.len() + k]);
        assert(ws.take((pre.len() + seg.len()) as int)[pre.len() + k] == ws[pre.len() + k]);
        assert((pre + seg)[pre.len() + k] == seg[k]);
    }
}

/// The bytes of a dump so far, `magic + words_bytes(ws.take(k))`, with all
/// `k` words fitting.
pub open spec fn dumped(out: Seq<u8>, ws: Seq<DumpWord>, k: int) -> bool {
    &&& 0 <= k <= ws.len()
    &&& out == perm_dump_magic() + words_bytes(ws.take(k))
    &&& forall|j: int| 0 <= j < k ==> word_fits(#[trigger] ws[j])
}

proof fn lemma_words_bytes_len(ws: Seq<DumpWord>)
    ensures
        words_bytes(ws).len() == 4 * ws.len(),
    decreases ws.len(),
{
    if ws.len() > 0 {
        lemma_words_bytes_len(ws.drop_last());
    }
}

/// What the dump holds after a segment was written, or stopped at word `k`.
proof fn lemma_after_segment(
    ws: Seq<DumpWord>,
    pre: Seq<DumpWord>,
    seg: Seq<DumpWord>,
    out: Seq<u8>,
    bad: Option<usize>,
)
    requires
        pre.len() + seg.len() <= ws.len(),
        ws.take((pre.len() + seg.len()) as int) == pre + seg,
        dumped(perm_dump_magic() + words_bytes(pre), ws, pre.len() as int),
        match bad {
            None => out == perm_dump_magic() + words_bytes(pre + seg) && forall|j: int|
                0 <= j < seg.len() ==> word_fits(#[trigger] seg[j]),
            Some(i) => i < seg.len() && !word_fits(seg[i as int]) && out == perm_dump_magic() + words_bytes(
                pre + seg.take(i as int),
            ) && forall|j: int| 0 <= j < i ==> word_fits(#[trigger] seg[j]),
        },
    ensures
        match bad {
            None => dumped(out, ws, (pre.len() + seg.len()) as int),
            Some(i) => dumped(out, ws, pre.len() + i) && !word_fits(ws[pre.len() + i]) && ws[pre.len() + i] == seg[i as int]
                && (out.len() - 8) / 4 == pre.len() + i && (out.len() - 8) % 4 == 0 && out.len() >= 8,
        },
{
    match bad {
        None => {
            lemma_segment(ws, pre, seg, seg.len() as int);
            assert(seg.take(seg.len() as int) =~= seg);
            assert forall|j: int| 0 <= j < pre.len() + seg.len() implies word_fits(#[trigger] ws[j]) by {
                if j >= pre.len() {
                    lemma_segment(ws, pre, seg, j - pre.len());
                }
            }
        },
        Some(i) => {
            lemma_segment(ws, pre, seg, i as int);
            assert forall|j: int| 0 <= j < pre.len() + i implies word_fits(#[trigger] ws[j]) by {
                if j >= pre.len() {
                    lemma_segment(ws, pre, seg, j - pre.len());
                }
            }
            lemma_words_bytes_len(ws.take(pre.len() + i));
        },
    }
}

/// The dump holds `k` words.
proof fn lemma_dumped_len(out: Seq<u8>, ws: Seq<DumpWord>, k: int)
    requires
        dumped(out, ws, k),
    ensures
        out.len() == 8 + 4 * k,
        (out.len() - 8) / 4 == k,
        (out.len() - 8) % 4 == 0,
{
    lemma_words_bytes_len(ws.take(k));
}

/// Each run of words starts where the ones before it end.
proof fn lemma_prefixes(
    w1: Seq<DumpWord>,
    sp: Seq<DumpWord>,
    sq: Seq<DumpWord>,
    sr: Seq<DumpWord>,
    spn: Seq<DumpWord>,
    spi: Seq<DumpWord>,
)
    ensures
        ({
            let ws = w1 + sp + sq + sr + spn + spi;
            &&& ws.take(w1.len() as int) == w1
            &&& ws.take((w1.len() + sp.len()) as int) == w1 + sp
            &&& ws.take(((w1 + sp).len() + sq.len()) as int) == w1 + sp + sq
            &&& ws.take(((w1 + sp + sq).len() + sr.len()) as int) == w1 + sp + sq + sr
            &&& ws.take(((w1 + sp + sq + sr).len() + spn.len()) as int) == w1 + sp + sq + sr + spn
            &&& ws.take(((w1 + sp + sq + sr + spn).len() + spi.len()) as int) == ws
        }),
{
    let ws = w1 + sp + sq + sr + spn + spi;
    assert(ws.take(w1.len() as int) =~= w1);
    assert(ws.take((w1.len() + sp.len()) as int) =~= w1 + sp);
    assert(ws.take(((w1 + sp).len() + sq.len()) as int) =~= w1 + sp + sq);
    assert(ws.take(((w1 + sp + sq).len() + sr.len()) as int) =~= w1 + sp + sq + sr);
    assert(ws.take(((w1 + sp + sq + sr).len() + spn.len()) as int) =~= w1 + sp + sq + sr + spn);
    assert(ws.take(((w1 + sp + sq + sr + spn).len() + spi.len()) as int) =~= ws);
}

/// The dump stopped at word `k`, which does not fit.
proof fn lemma_stop_at(out: Seq<u8>, ws: Seq<DumpWord>, k: int, n: int, nblocks: int, e: PermDumpError)
    requires
        dumped(out, ws, k),
        k < ws.len(),
        !word_fits(ws[k]),
        unfit_error(ws[k], perm_dump_field(k, n, nblocks), e),
    ensures
        perm_dump_encoded(out, Some(e), ws, n, nblocks),
{
    reveal(perm_dump_encoded);
    lemma_dumped_len(out, ws, k);
}

/// The dump holds all of `ws`.
proof fn lemma_complete(out: Seq<u8>, ws: Seq<DumpWord>, n: int, nblocks: int)
    requires
        dumped(out, ws, ws.len() as int),
    ensures
        perm_dump_encoded(out, None, ws, n, nblocks),
{
    reveal(perm_dump_encoded);
    lemma_dumped_len(out, ws, ws.len() as int);
}

/// Appends one fitting unsigned word.
fn push_header_word(out: &mut Vec<u8>, v: u32, Ghost(ws): Ghost<Seq<DumpWord>>, Ghost(k): Ghost<int>)
    requires
        dumped(old(out)@, ws, k),
        k < ws.len(),
        ws[k] == DumpWord::Unsigned(v as int),
    ensures
        dumped(final(out)@, ws, k + 1),
{
    push_u32_le(out, v);
    proof {
        assert(ws.take(k + 1) =~= ws.take(k).push(ws[k]));
        lemma_words_bytes_push(ws.take(k), ws[k]);
        assert(word_fits(ws[k]));
        assert(out@ =~= perm_dump_magic() + words_bytes(ws.take(k + 1)));
        assert forall|j: int| 0 <= j < k + 1 implies word_fits(#[trigger] ws[j]) by {
            if j < k {
                assert(word_fits(ws[j]));
            }
        }
    }
}

/// The bytes of a permutation dump (little-endian): the magic `SPKLPERM`,
/// then the unsigned words version, stage, `n` and `nblocks`, then the
/// signed words of `P`, `Q`, `R[0..=nblocks]`, `Pnum` and `Pinv`. When the
/// arrays are inconsistent nothing is produced; when a word does not fit in
/// 32 bits, the bytes before it are kept and its error is given.
#[verifier::rlimit(40)]
pub fn encode_perm_dump(
    stage: KluPermDumpStage,
    symbolic_n: usize,
    numeric_n: usize,
    p: &[isize],
    q: &[isize],
    r: &[usize],
    nblocks: usize,
    pnum: &[isize],
    pinv: &[isize],
) -> (res: PermDumpBytes)
    ensures
        perm_dump_check(symbolic_n, numeric_n, p@.len(), q@.len(), r@.len(), nblocks, pnum@.len(), pinv@.len()) is Some
            ==> res.bytes@.len() == 0 && res.error == perm_dump_check(
            symbolic_n,
            numeric_n,
            p@.len(),
            q@.len(),
            r@.len(),
            nblocks,
            pnum@.len(),
            pinv@.len(),
        ),
        perm_dump_check(symbolic_n, numeric_n, p@.len(), q@.len(), r@.len(), nblocks, pnum@.len(), pinv@.len()) is None
            ==> perm_dump_encoded(
            res.bytes@,
            res.error,
            perm_dump_words(stage, symbolic_n, nblocks, p@, q@, r@, pnum@, pinv@),
            symbolic_n as int,
            nblocks as int,
        ),
{
    if numeric_n != symbolic_n {
        return PermDumpBytes { bytes: Vec::new(), error: Some(PermDumpError::NMismatch { symbolic_n, numeric_n }) };
    }
    if p.len() != symbolic_n {
        return PermDumpBytes {
            bytes: Vec::new(),
            error: Some(PermDumpError::LengthMismatch { field: DumpField::PEntry, len: p.len(), n: symbolic_n }),
        };
    }
    if q.len() != symbolic_n {
        return PermDumpBytes {
            bytes: Vec::new(),
            error: Some(PermDumpError::LengthMismatch { field: DumpField::QEntry, len: q.len(), n: symbolic_n }),
        };
    }
    if pnum.len() != symbolic_n {
        return PermDumpBytes {
            bytes: Vec::new(),
            error: Some(PermDumpError::LengthMismatch { field: DumpField::PnumEntry, len: pnum.len(), n: symbolic_n }),
        };
    }
    if pinv.len() != symbolic_n {
        return PermDumpBytes {
            bytes: Vec::new(),
            error: Some(PermDumpError::LengthMismatch { field: DumpField::PinvEntry, len: pinv.len(), n: symbolic_n }),
        };
    }
    if nblocks == usize::MAX {
        return PermDumpBytes { bytes: Vec::new(), error: Some(PermDumpError::NblocksOverflow) };
    }
    let r_len = nblocks + 1;
    if r.len() < r_len {
        return PermDumpBytes { bytes: Vec::new(), error: Some(PermDumpError::RTooSmall { len: r.len(), need: r_len }) };
    }
    let r_used = slice_prefix(r, r_len);
    proof {
        assert(r@.take(nblocks + 1) == r_used@);
        assert(r_used@.take(nblocks + 1) =~= r_used@);
    }
    encode_perm_dump_words(stage, symbolic_n, p, q, r_used, nblocks, pnum, pinv)
}

/// The dump of consistent arrays (see `encode_perm_dump`).
#[verifier::rlimit(80)]
fn encode_perm_dump_words(
    stage: KluPermDumpStage,
    n: usize,
    p: &[isize],
    q: &[isize],
    r_used: &[usize],
    nblocks: usize,
    pnum: &[isize],
    pinv: &[isize],
) -> (res: PermDumpBytes)
    requires
        nblocks < usize::MAX,
        r_used@.len() == nblocks + 1,
        p@.len() == n,
        q@.len() == n,
        pnum@.len() == n,
        pinv@.len() == n,
    ensures
        perm_dump_encoded(
            res.bytes@,
            res.error,
            perm_dump_words(stage, n, nblocks, p@, q@, r_used@, pnum@, pinv@),
            n as int,
            nblocks as int,
        ),
{
    let ghost ws = perm_dump_words(stage, n, nblocks, p@, q@, r_used@, pnum@, pinv@);
    let ghost w1 = seq![
        DumpWord::Unsigned(KLU_PERM_DUMP_VERSION as int),
        DumpWord::Unsigned(stage.spec_code() as int),
        DumpWord::Unsigned(n as int),
        DumpWord::Unsigned(nblocks as int),
    ];
    let ghost sp = signed_words(p@);
    let ghost sq = signed_words(q@);
    let ghost sr = signed_words_usize(r_used@);
    let ghost spn = signed_words(pnum@);
    let ghost spi = signed_words(pinv@);
    let ghost w2 = w1 + sp;
    let ghost w3 = w2 + sq;
    let ghost w4 = w3 + sr;
    let ghost w5 = w4 + spn;
    proof {
        assert(ws == w5 + spi);
        lemma_prefixes(w1, sp, sq, sr, spn, spi);
    }
    let mut out: Vec<u8> = Vec::new();
    let magic = klu_perm_dump_magic();
    let mut i: usize = 0;
    while i < 8
        invariant
            i <= 8,
            magic@ == perm_dump_magic(),
            out@ == magic@.take(i as int),
        decreases 8 - i,
    {
        out.push(magic[i]);
        proof {
            assert(out@ =~= magic@.take(i + 1));
        }
        i = i + 1;
    }
    proof {
        assert(out@ =~= perm_dump_magic() + words_bytes(ws.take(0)));
    }
    push_header_word(&mut out, KLU_PERM_DUMP_VERSION, Ghost(ws), Ghost(0));
    push_header_word(&mut out, stage.code(), Ghost(ws), Ghost(1));
    if n > 4294967295 {
        proof {
            lemma_stop_at(out@, ws, 2, n as int, nblocks as int, PermDumpError::U32OutOfRange { field: DumpField::N, value: n });
        }
        return PermDumpBytes { bytes: out, error: Some(PermDumpError::U32OutOfRange { field: DumpField::N, value: n }) };
    }
    push_header_word(&mut out, n as u32, Ghost(ws), Ghost(2));
    if nblocks > 4294967295 {
        proof {
            lemma_stop_at(out@, ws, 3, n as int, nblocks as int, PermDumpError::U32OutOfRange { field: DumpField::Nblocks, value: nblocks });
        }
        return PermDumpBytes {
            bytes: out,
            error: Some(PermDumpError::U32OutOfRange { field: DumpField::Nblocks, value: nblocks }),
        };
    }
    push_header_word(&mut out, nblocks as u32, Ghost(ws), Ghost(3));
    let bad = push_signed_words(&mut out, p, Ghost(w1));
    proof {
        lemma_after_segment(ws, w1, sp, out@, bad);
    }
    if let Some(k) = bad {
        let e = PermDumpError::I32OutOfRange { field: DumpField::PEntry, value: p[k] };
        proof {
            lemma_stop_at(out@, ws, w1.len() + k, n as int, nblocks as int, e);
        }
        return PermDumpBytes { bytes: out, error: Some(e) };
    }
    let bad = push_signed_words(&mut out, q, Ghost(w2));
    proof {
        lemma_after_segment(ws, w2, sq, out@, bad);
    }
    if let Some(k) = bad {
        let e = PermDumpError::I32OutOfRange { field: DumpField::QEntry, value: q[k] };
        proof {
            lemma_stop_at(out@, ws, w2.len() + k, n as int, nblocks as int, e);
        }
        return PermDumpBytes { bytes: out, error: Some(e) };
    }
    let bad = push_signed_words_usize(&mut out, r_used, Ghost(w3));
    proof {
        lemma_after_segment(ws, w3, sr, out@, bad);
    }
    if let Some(k) = bad {
        let e = PermDumpError::I32FromUsizeOutOfRange { field: DumpField::REntry, value: r_used[k] };
        proof {
            lemma_stop_at(out@, ws, w3.len() + k, n as int, nblocks as int, e);
        }
        return PermDumpBytes { bytes: out, error: Some(e) };
    }
    let bad = push_signed_words(&mut out, pnum, Ghost(w4));
    proof {
        lemma_after_segment(ws, w4, spn, out@, bad);
    }
    if let Some(k) = bad {
        let e = PermDumpError::I32OutOfRange { field: DumpField::PnumEntry, value: pnum[k] };
        proof {
            lemma_stop_at(out@, ws, w4.len() + k, n as int, nblocks as int, e);
        }
        return PermDumpBytes { bytes: out, error: Some(e) };
    }
    let bad = push_signed_words(&mut out, pinv, Ghost(w5));
    proof {
        lemma_after_segment(ws, w5, spi, out@, bad);
    }
    if let Some(k) = bad {
        let e = PermDumpError::I32OutOfRange { field: DumpField::PinvEntry, value: pinv[k] };
        proof {
            lemma_stop_at(out@, ws, w5.len() + k, n as int, nblocks as int, e);
        }
        return PermDumpBytes { bytes: out, error: Some(e) };
    }
    proof {
        lemma_complete(out@, ws, n as int, nblocks as int);
    }
    PermDumpBytes { bytes: out, error: None }
}

/// The first `k` elements of `s`.
fn slice_prefix(s: &[usize], k: usize) -> (r: &[usize])
    requires
        k <= s@.len(),
    ensures
        r@ == s@.take(k as int),
{
    let r = vstd::slice::slice_subrange(s, 0, k);
    assert(r@ =~= s@.take(k as int));
    r
}

/// A count in the header of a solve dump.
#[derive(Debug, Clone, Copy, PartialEq, Eq, Structural)]
pub enum SolveDumpField {
    N,
    D,
    Nrhs,
    Len,
}

/// Why a solve dump cannot be written.
#[derive(Debug, Clone, Copy, PartialEq, Eq, Structural)]
pub enum SolveDumpError {
    /// `d * nrhs` overflows.
    LenOverflow,
    /// The right-hand sides hold fewer than `d * nrhs` values.
    RhsTooSmall { len: usize, need: usize },
    /// A count does not fit in an unsigned 32-bit word.
    U32OutOfRange { field: SolveDumpField, value: usize },
}

/// The bytes of a solve dump, up to the first count that does not fit, and
/// the error that stopped it. `error` is `None` for a whole dump.
pub struct SolveDumpBytes {
    pub bytes: Vec<u8>,
    pub error: Option<SolveDumpError>,
}

/// The little-endian bytes of the 64-bit words `s`.
pub open spec fn u64s_bytes(s: Seq<u64>) -> Seq<u8>
    decreases s.len(),
{
    if s.len() == 0 {
        Seq::empty()
    } else {
        u64s_bytes(s.drop_last()) + le8(s.last() as int)
    }
}

/// What writing a solve dump of `n`, `d`, `nrhs` and the values (as bits)
/// `bits` gives: nothing when `d * nrhs` overflows or the values are too
/// few; else the magic `SPKLSOLV`, the version, `n`, `d`, `nrhs` and
/// `len = d * nrhs` as 32-bit words, then the first `len` values as 64-bit
/// words, all little-endian, stopping before the first count that does not
/// fit in 32 bits.
pub open spec fn solve_dump_result(n: usize, d: usize, nrhs: usize, bits: Seq<u64>) -> (Seq<u8>, Option<SolveDumpError>) {
    let len = d * nrhs;
    let head = solve_dump_magic() + le4(KLU_SOLVE_DUMP_VERSION as int);
    if len > usize::MAX {
        (Seq::empty(), Some(SolveDumpError::LenOverflow))
    } else if bits.len() < len {
        (Seq::empty(), Some(SolveDumpError::RhsTooSmall { len: bits.len() as usize, need: len as usize }))
    } else if n > u32::MAX {
        (head, Some(SolveDumpError::U32OutOfRange { field: SolveDumpField::N, value: n }))
    } else if d > u32::MAX {
        (head + le4(n as int), Some(SolveDumpError::U32OutOfRange { field: SolveDumpField::D, value: d }))
    } else if nrhs > u32::MAX {
        (head + le4(n as int) + le4(d as int), Some(SolveDumpError::U32OutOfRange { field: SolveDumpField::Nrhs, value: nrhs }))
    } else if len > u32::MAX {
        (
            head + le4(n as int) + le4(d as int) + le4(nrhs as int),
            Some(SolveDumpError::U32OutOfRange { field: SolveDumpField::Len, value: len as usize }),
        )
    } else {
        (head + le4(n as int) + le4(d as int) + le4(nrhs as int) + le4(len) + u64s_bytes(bits.take(len)), None)
    }
}

/// Appends the little-endian bytes of `v`.
fn push_u64_le(out: &mut Vec<u8>, v: u64)
    ensures
        final(out)@ == old(out)@ + le8(v as int),
{
    push_u32_le(out, (v % 4294967296) as u32);
    push_u32_le(out, (v / 4294967296) as u32);
    assert(final(out)@ =~= old(out)@ + le8(v as int));
}

/// The bytes of a solve dump of the values `bits` (the bit patterns of the
/// solution, `d * nrhs` of them used): see `solve_dump_result`.
pub fn encode_solve_dump(n: usize, d: usize, nrhs: usize, bits: &[u64]) -> (res: SolveDumpBytes)
    ensures
        (res.bytes@, res.error) == solve_dump_result(n, d, nrhs, bits@),
{
    let len = match d.checked_mul(nrhs) {
        Some(len) => len,
        None => {
            return SolveDumpBytes { bytes: Vec::new(), error: Some(SolveDumpError::LenOverflow) };
        },
    };
    if bits.len() < len {
        return SolveDumpBytes { bytes: Vec::new(), error: Some(SolveDumpError::RhsTooSmall { len: bits.len(), need: len }) };
    }
    let mut out: Vec<u8> = Vec::new();
    let magic = klu_solve_dump_magic();
    let mut i: usize = 0;
    while i < 8
        invariant
            i <= 8,
            magic@ == solve_dump_magic(),
            out@ == magic@.take(i as int),
        decreases 8 - i,
    {
        out.push(magic[i]);
        proof {
            assert(out@ =~= magic@.take(i + 1));
        }
        i = i + 1;
    }
    proof {
        assert(magic@.take(8) =~= solve_dump_magic());
    }
    push_u32_le(&mut out, KLU_SOLVE_DUMP_VERSION);
    if n > 4294967295 {
        return SolveDumpBytes { bytes: out, error: Some(SolveDumpError::U32OutOfRange { field: SolveDumpField::N, value: n }) };
    }
    push_u32_le(&mut out, n as u32);
    if d > 4294967295 {
        return SolveDumpBytes { bytes: out, error: Some(SolveDumpError::U32OutOfRange { field: SolveDumpField::D, value: d }) };
    }
    push_u32_le(&mut out, d as u32);
    if nrhs > 4294967295 {
        return SolveDumpBytes {
            bytes: out,
            error: Some(SolveDumpError::U32OutOfRange { field: SolveDumpField::Nrhs, value: nrhs }),
        };
    }
    push_u32_le(&mut out, nrhs as u32);
    if len > 4294967295 {
        return SolveDumpBytes { bytes: out, error: Some(SolveDumpError::U32OutOfRange { field: SolveDumpField::Len, value: len }) };
    }
    push_u32_le(&mut out, len as u32);
    let ghost head = out@;
    let mut k: usize = 0;
    while k < len
        invariant
            k <= len <= bits@.len(),
            out@ == head + u64s_bytes(bits@.take(k as int)),
        decreases len - k,
    {
        push_u64_le(&mut out, bits[k]);
        proof {
            assert(bits@.take(k + 1).drop_last() =~= bits@.take(k as int));
        }
        k = k + 1;
    }
    SolveDumpBytes { bytes: out, error: None }
}

} // verus!
