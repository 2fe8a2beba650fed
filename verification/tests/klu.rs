use spicy_simulate::solver::error::SolverError;
use spicy_simulate::solver::klu::btf::btf;
use spicy_simulate::solver::klu::dump::encode_perm_dump;
use spicy_simulate::solver::klu::dump::DumpField;
use spicy_simulate::solver::klu::dump::KluPermDumpStage;
use spicy_simulate::solver::klu::dump::PermDumpError;
use spicy_simulate::solver::klu::error::KluError;
use spicy_simulate::solver::klu::klu_valid;
use spicy_simulate::solver::klu::KluNumericMetrics;
use spicy_simulate::solver::matrix::builder::MatrixBuilder;
use spicy_simulate::solver::matrix::csc::CscMatrix;
use spicy_simulate::solver::matrix::error::CscError;
use spicy_simulate::solver::matrix::error::MatrixError;
use spicy_simulate::solver::utils::SolverOverflowError;
use spicy_simulate::TransientIntegrator;

fn pattern(n: usize, entries: &[(usize, usize)]) -> CscMatrix<f64> {
    let mut b = MatrixBuilder::new(n, n);
    for &(row, col) in entries {
        b.push(col, row, 1.0).unwrap();
    }
    b.build_csc(|a: f64, b: f64| a + b).unwrap()
}

fn run_btf(a: &CscMatrix<f64>) -> (usize, usize, Vec<isize>, Vec<isize>, Vec<usize>) {
    let n = a.dim.ncols;
    let mut p = vec![0isize; n];
    let mut q = vec![-1isize; n];
    let mut r = vec![0usize; n + 1];
    let (nmatch, nblocks) = btf(a, &mut p, &mut q, &mut r);
    (nmatch, nblocks, p, q, r)
}

#[test]
fn btf_of_diagonal_is_one_block_per_node() {
    let a = pattern(3, &[(0, 0), (1, 1), (2, 2)]);
    let (nmatch, nblocks, p, q, r) = run_btf(&a);
    assert_eq!(nmatch, 3);
    assert_eq!(nblocks, 3);
    assert_eq!(r[..4].to_vec(), vec![0, 1, 2, 3]);
    // each node is a block of its own, numbered in the order they are completed
    assert_eq!(p, vec![0, 1, 2]);
    assert_eq!(q, vec![0, 1, 2]);
}

#[test]
fn btf_of_a_cycle_is_one_block() {
    // 0 -> 1 -> 2 -> 0 through off-diagonal entries
    let a = pattern(3, &[(0, 0), (1, 1), (2, 2), (1, 0), (2, 1), (0, 2)]);
    let (nmatch, nblocks, p, q, r) = run_btf(&a);
    assert_eq!(nmatch, 3);
    assert_eq!(nblocks, 1);
    assert_eq!(r[..2].to_vec(), vec![0, 3]);
    // natural order within a block
    assert_eq!(p, vec![0, 1, 2]);
    assert_eq!(q, vec![0, 1, 2]);
}

#[test]
fn btf_upper_triangular_chain() {
    // entries above the diagonal: (0,1), (1,2)
    let a = pattern(3, &[(0, 0), (1, 1), (2, 2), (0, 1), (1, 2)]);
    let (_, nblocks, p, q, r) = run_btf(&a);
    assert_eq!(nblocks, 3);
    assert_eq!(r[..4].to_vec(), vec![0, 1, 2, 3]);
    assert_eq!(p, vec![0, 1, 2]);
    assert_eq!(q, vec![0, 1, 2]);
}

#[test]
fn btf_structurally_singular_completes_the_matching() {
    // column 1 is empty, row 1 is empty: rank 2 of 3
    let a = pattern(3, &[(0, 0), (2, 2), (0, 2)]);
    let (nmatch, nblocks, p, q, r) = run_btf(&a);
    assert_eq!(nmatch, 2);
    // every node appears once in p
    let mut seen = p.clone();
    seen.sort();
    assert_eq!(seen, vec![0, 1, 2]);
    // the unmatched row takes the unmatched column in flipped form: -1 - 2 = -3
    let unflipped: Vec<isize> = q.iter().map(|&v| if v < -1 { -v - 2 } else { v }).collect();
    let mut cols = unflipped.clone();
    cols.sort();
    assert_eq!(cols, vec![0, 1, 2]);
    assert!(q.iter().any(|&v| v == -3));
    assert_eq!(r[0], 0);
    assert_eq!(r[nblocks], 3);
}

#[test]
fn btf_of_empty_matrix() {
    let a = pattern(0, &[]);
    let (nmatch, nblocks, p, q, r) = run_btf(&a);
    assert_eq!((nmatch, nblocks), (0, 0));
    assert!(p.is_empty() && q.is_empty());
    assert_eq!(r, vec![0]);
}

#[test]
fn klu_valid_checks_the_pattern() {
    assert!(klu_valid(2, &[0, 1, 2], &[0, 1]));
    // n = 0 is refused
    assert!(!klu_valid(0, &[0], &[]));
    // pointers must start at 0
    assert!(!klu_valid(2, &[1, 1, 2], &[0, 1]));
    // pointers must ascend
    assert!(!klu_valid(2, &[0, 2, 1], &[0, 1]));
    // rows must be below n
    assert!(!klu_valid(2, &[0, 1, 2], &[0, 2]));
}

#[test]
fn overflow_error_keeps_its_context() {
    let e = KluError::overflow("LU size");
    assert_eq!(e, KluError::Overflow(SolverOverflowError::Overflow { context: "LU size" }));
    assert_ne!(e, KluError::StructurallySingular);
}

#[test]
fn solver_error_from_matrix_error() {
    let m = MatrixError::Csc(CscError::OutOfBoundsIndex { index: 3, max: 2 });
    let s: SolverError = SolverError::from(m.clone());
    assert_eq!(s, SolverError::Matrix(m));
}

#[test]
fn numeric_metrics_start_empty() {
    let m = KluNumericMetrics::default();
    assert_eq!(m.nrealloc, 0);
    assert_eq!(m.noffdiag, 0);
    assert_eq!(m.numerical_rank, None);
    assert_eq!(m.singular_col, None);
}

#[test]
fn integrators_are_distinct() {
    assert_ne!(TransientIntegrator::BackwardEuler, TransientIntegrator::Trapezoidal);
}

#[test]
fn perm_dump_bytes_are_little_endian() {
    let p = [1isize, 0];
    let q = [0isize, -3];
    let r = [0usize, 2, 99];
    let pnum = [0isize, 1];
    let pinv = [1isize, 0];
    let d = encode_perm_dump(KluPermDumpStage::Solve, 2, 2, &p, &q, &r, 1, &pnum, &pinv);
    assert_eq!(d.error, None);
    let mut want: Vec<u8> = b"SPKLPERM".to_vec();
    for w in [1u32, 2, 2, 1] {
        want.extend_from_slice(&w.to_le_bytes());
    }
    for v in [1i32, 0, 0, -3, 0, 2, 0, 1, 1, 0] {
        want.extend_from_slice(&v.to_le_bytes());
    }
    assert_eq!(d.bytes, want);
    assert_eq!(KluPermDumpStage::AnalyzeFactor.code(), 1);
}

#[test]
fn perm_dump_rejects_inconsistent_arrays() {
    let d = encode_perm_dump(KluPermDumpStage::Solve, 2, 3, &[0, 1], &[0, 1], &[0, 2], 1, &[0, 1], &[0, 1]);
    assert!(d.bytes.is_empty());
    assert_eq!(d.error, Some(PermDumpError::NMismatch { symbolic_n: 2, numeric_n: 3 }));
    let d = encode_perm_dump(KluPermDumpStage::Solve, 2, 2, &[0, 1], &[0], &[0, 2], 1, &[0, 1], &[0, 1]);
    assert_eq!(d.error, Some(PermDumpError::LengthMismatch { field: DumpField::QEntry, len: 1, n: 2 }));
    let d = encode_perm_dump(KluPermDumpStage::Solve, 2, 2, &[0, 1], &[0, 1], &[0], 1, &[0, 1], &[0, 1]);
    assert_eq!(d.error, Some(PermDumpError::RTooSmall { len: 1, need: 2 }));
}

#[test]
fn perm_dump_stops_at_an_entry_out_of_range() {
    let big = 1isize << 40;
    let d = encode_perm_dump(KluPermDumpStage::AnalyzeFactor, 2, 2, &[0, 1], &[big, 0], &[0, 2], 1, &[0, 1], &[0, 1]);
    assert_eq!(d.error, Some(PermDumpError::I32OutOfRange { field: DumpField::QEntry, value: big }));
    // magic, four header words and the two entries of P
    assert_eq!(d.bytes.len(), 8 + 4 * 4 + 2 * 4);
}
