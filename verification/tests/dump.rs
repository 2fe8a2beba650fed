use spicy_simulate::solver::klu::dump::encode_perm_dump;
use spicy_simulate::solver::klu::dump::encode_solve_dump;
use spicy_simulate::solver::klu::dump::KluPermDumpStage;
use spicy_simulate::solver::klu::dump::SolveDumpError;
use spicy_simulate::solver::klu::dump::SolveDumpField;
use spicy_simulate::solver::klu::dump_read::decode_perm_dump;
use spicy_simulate::solver::klu::dump_read::decode_solve_dump;
use spicy_simulate::solver::klu::dump_read::read_i32_le;
use spicy_simulate::solver::klu::dump_read::read_u32_le;
use spicy_simulate::solver::klu::dump_read::read_u64_le;
use spicy_simulate::solver::klu::dump_read::DumpReadError;

#[test]
fn little_endian_words_are_read_back() {
    let b = [0x78u8, 0x56, 0x34, 0x12, 0xff, 0xff, 0xff, 0xff];
    assert_eq!(read_u32_le(&b, 0), 0x1234_5678);
    assert_eq!(read_u32_le(&b, 4), 0xffff_ffff);
    assert_eq!(read_i32_le(&b, 4), -1);
    assert_eq!(read_i32_le(&b, 0), 0x1234_5678);
    assert_eq!(read_u64_le(&b, 0), 0xffff_ffff_1234_5678);
}

#[test]
fn perm_dump_roundtrips() {
    let p = [1isize, 0, 2];
    let q = [2isize, 1, 0];
    let r = [0usize, 1, 3, 99];
    let pnum = [0isize, 2, 1];
    let pinv = [-5isize, 7, 2147483647];
    let d = encode_perm_dump(KluPermDumpStage::AnalyzeFactor, 3, 3, &p, &q, &r, 2, &pnum, &pinv);
    assert!(d.error.is_none());
    assert_eq!(d.bytes.len(), 24 + 4 * (4 * 3 + 2 + 1));
    let back = decode_perm_dump(&d.bytes).unwrap();
    assert_eq!(back.stage, 1);
    assert_eq!(back.n, 3);
    assert_eq!(back.nblocks, 2);
    assert_eq!(back.p, vec![1, 0, 2]);
    assert_eq!(back.q, vec![2, 1, 0]);
    assert_eq!(back.r, vec![0, 1, 3]);
    assert_eq!(back.pnum, vec![0, 2, 1]);
    assert_eq!(back.pinv, vec![-5, 7, 2147483647]);
    // trailing bytes are not looked at
    let mut longer = d.bytes.clone();
    longer.extend_from_slice(&[1, 2, 3]);
    assert_eq!(decode_perm_dump(&longer).unwrap(), back);
}

#[test]
fn perm_dump_read_errors() {
    let d = encode_perm_dump(KluPermDumpStage::Solve, 1, 1, &[0], &[0], &[0, 1], 1, &[0], &[0]);
    assert!(d.error.is_none());
    let b = d.bytes;
    assert_eq!(decode_perm_dump(&b[..7]), Err(DumpReadError::Truncated));
    assert_eq!(decode_perm_dump(&b[..10]), Err(DumpReadError::Truncated));
    assert_eq!(decode_perm_dump(&b[..23]), Err(DumpReadError::Truncated));
    assert_eq!(decode_perm_dump(&b[..b.len() - 1]), Err(DumpReadError::Truncated));
    assert!(decode_perm_dump(&b).is_ok());
    let mut bad = b.clone();
    bad[0] = b'X';
    assert_eq!(decode_perm_dump(&bad), Err(DumpReadError::BadMagic { got: *b"XPKLPERM" }));
    let mut bad = b.clone();
    bad[8] = 2;
    assert_eq!(decode_perm_dump(&bad), Err(DumpReadError::BadVersion { got: 2 }));
    // a solve dump is not a permutation dump
    let s = encode_solve_dump(1, 1, 1, &[5]);
    assert_eq!(decode_perm_dump(&s.bytes), Err(DumpReadError::BadMagic { got: *b"SPKLSOLV" }));
}

#[test]
fn solve_dump_bytes_are_little_endian() {
    let s = encode_solve_dump(2, 2, 1, &[0x0102_0304_0506_0708, 1, 77]);
    assert!(s.error.is_none());
    let mut expected = b"SPKLSOLV".to_vec();
    for w in [1u32, 2, 2, 1, 2] {
        expected.extend_from_slice(&w.to_le_bytes());
    }
    expected.extend_from_slice(&[8, 7, 6, 5, 4, 3, 2, 1]);
    expected.extend_from_slice(&[1, 0, 0, 0, 0, 0, 0, 0]);
    assert_eq!(s.bytes, expected);
}

#[test]
fn solve_dump_roundtrips() {
    let bits = [1.5f64.to_bits(), (-0.0f64).to_bits(), u64::MAX, 0, 42, 7];
    let s = encode_solve_dump(3, 3, 2, &bits);
    assert!(s.error.is_none());
    let back = decode_solve_dump(&s.bytes).unwrap();
    assert_eq!((back.n, back.d, back.nrhs, back.len), (3, 3, 2, 6));
    assert_eq!(back.bits, bits.to_vec());
}

#[test]
fn solve_dump_write_errors() {
    let s = encode_solve_dump(1, usize::MAX, 2, &[]);
    assert_eq!(s.error, Some(SolveDumpError::LenOverflow));
    assert!(s.bytes.is_empty());
    let s = encode_solve_dump(1, 2, 2, &[1, 2, 3]);
    assert_eq!(s.error, Some(SolveDumpError::RhsTooSmall { len: 3, need: 4 }));
    assert!(s.bytes.is_empty());
    if usize::BITS > 32 {
        let big = 1usize << 32;
        let s = encode_solve_dump(big, 0, 0, &[]);
        assert_eq!(s.error, Some(SolveDumpError::U32OutOfRange { field: SolveDumpField::N, value: big }));
        assert_eq!(s.bytes.len(), 12);
        let s = encode_solve_dump(1, big, 0, &[]);
        assert_eq!(s.error, Some(SolveDumpError::U32OutOfRange { field: SolveDumpField::D, value: big }));
        assert_eq!(s.bytes.len(), 16);
    }
}

#[test]
fn solve_dump_read_errors() {
    let s = encode_solve_dump(1, 1, 2, &[3, 4]);
    let b = s.bytes;
    assert_eq!(decode_solve_dump(&b[..27]), Err(DumpReadError::Truncated));
    assert_eq!(decode_solve_dump(&b[..b.len() - 1]), Err(DumpReadError::Truncated));
    let mut bad = b.clone();
    bad[24] = 3; // len no longer d * nrhs
    assert_eq!(decode_solve_dump(&bad), Err(DumpReadError::LenMismatch { len: 3, expected: 2 }));
    let mut bad = b.clone();
    bad[9] = 1;
    assert_eq!(decode_solve_dump(&bad), Err(DumpReadError::BadVersion { got: 257 }));
}

use spicy_simulate::solver::klu::dump_cmp::compare_perm_dumps;
use spicy_simulate::solver::klu::dump_cmp::first_mismatch;
use spicy_simulate::solver::klu::dump_cmp::ordered_f64_bits;
use spicy_simulate::solver::klu::dump_cmp::ulp_diff_bits;
use spicy_simulate::solver::klu::dump_cmp::Mismatch;
use spicy_simulate::solver::klu::dump_cmp::PermArray;
use spicy_simulate::solver::klu::dump_cmp::PermDumpDiff;
use spicy_simulate::solver::klu::dump_read::PermDump;

#[test]
fn ordered_keys_follow_the_values() {
    assert_eq!(ordered_f64_bits(0.0f64.to_bits()), 0x8000_0000_0000_0000);
    assert_eq!(ordered_f64_bits((-0.0f64).to_bits()), 0x7fff_ffff_ffff_ffff);
    assert_eq!(ordered_f64_bits(1.0f64.to_bits()), 0xbff0_0000_0000_0000);
    assert!(ordered_f64_bits((-2.0f64).to_bits()) < ordered_f64_bits((-1.0f64).to_bits()));
    assert!(ordered_f64_bits(1.0f64.to_bits()) < ordered_f64_bits(2.0f64.to_bits()));
}

#[test]
fn ulp_distance_counts_representable_steps() {
    let one = 1.0f64.to_bits();
    assert_eq!(ulp_diff_bits(one, one), 0);
    assert_eq!(ulp_diff_bits(one, one + 1), 1);
    assert_eq!(ulp_diff_bits(one + 1, one), 1);
    assert_eq!(ulp_diff_bits(0.0f64.to_bits(), (-0.0f64).to_bits()), 1);
    assert_eq!(ulp_diff_bits(f64::MIN_POSITIVE.to_bits(), (-f64::MIN_POSITIVE).to_bits()), 2 * (1u64 << 52) + 1);
}

#[test]
fn first_mismatch_reports_length_then_entry() {
    assert_eq!(first_mismatch(&[1, 2], &[1, 2, 3]), Some(Mismatch::Length { a_len: 2, b_len: 3 }));
    assert_eq!(first_mismatch(&[1, 2, 3], &[1, 5, 4]), Some(Mismatch::Entry { index: 1, a: 2, b: 5 }));
    assert_eq!(first_mismatch(&[1, 2, 3], &[1, 2, 3]), None);
    assert_eq!(first_mismatch(&[], &[]), None);
}

fn dump(stage: u32, p: Vec<i32>, pinv: Vec<i32>) -> PermDump {
    PermDump { stage, n: 2, nblocks: 1, p, q: vec![0, 1], r: vec![0, 2], pnum: vec![1, 0], pinv }
}

#[test]
fn perm_dumps_compare_field_by_field() {
    let a = dump(1, vec![0, 1], vec![1, 0]);
    assert_eq!(compare_perm_dumps(&a, &a.clone()), None);
    assert_eq!(compare_perm_dumps(&a, &dump(2, vec![0, 1], vec![1, 0])), Some(PermDumpDiff::Stage { a: 1, b: 2 }));
    let mut b = a.clone();
    b.nblocks = 2;
    assert_eq!(
        compare_perm_dumps(&a, &b),
        Some(PermDumpDiff::Header { a_n: 2, a_nblocks: 1, b_n: 2, b_nblocks: 2 })
    );
    let b = dump(1, vec![0, 1], vec![1, 7]);
    assert_eq!(
        compare_perm_dumps(&a, &b),
        Some(PermDumpDiff::Array { array: PermArray::Pinv, mismatch: Mismatch::Entry { index: 1, a: 0, b: 7 } })
    );
    // the first array that differs is reported
    let b = dump(1, vec![1, 1], vec![1, 7]);
    assert_eq!(
        compare_perm_dumps(&a, &b),
        Some(PermDumpDiff::Array { array: PermArray::P, mismatch: Mismatch::Entry { index: 0, a: 0, b: 1 } })
    );
}
