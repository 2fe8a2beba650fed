use spicy_simulate::solver::amd::AmdControl;
use spicy_simulate::solver::amd_core::amd as amd_core;
use spicy_simulate::solver::amd_core::permutation_ok;
use spicy_simulate::solver::amd_core::AmdError;
use spicy_simulate::solver::klu::amd::amd;
use spicy_simulate::solver::matrix::csc::CscMatrix;
use spicy_simulate::solver::matrix::Dim;

fn csc(n: usize, ap: &[usize], ai: &[usize]) -> CscMatrix<f64> {
    CscMatrix {
        dim: Dim { nrows: n, ncols: n },
        column_pointers: ap.to_vec(),
        row_indices: ai.to_vec(),
        values: vec![1.0; ai.len()],
    }
}

#[test]
fn amd_regression_matrix_5x5_ap_ai() {
    // Matrix in CSC form (n=5) taken from a minimal AMD regression case.
    let n = 5usize;
    let ap: [usize; 6] = [0, 2, 6, 10, 12, 14];
    let ai: [usize; 14] = [0, 1, 0, 1, 2, 4, 1, 2, 3, 4, 2, 3, 1, 4];

    let a = csc(n, &ap, &ai);
    a.check_invariants().unwrap();

    let mut p = vec![0isize; n];
    let info = amd(&a, &mut p).unwrap();

    // For such a small n, the "dense" threshold (>=16) should not trigger.
    assert_eq!(info.ndense, 0);

    // Expected output permutation for this regression case.
    assert_eq!(p, vec![0, 3, 2, 4, 1]);

    // Output must be a valid permutation of 0..n-1.
    let mut seen = vec![false; n];
    for &v in &p {
        assert!(v >= 0);
        let u = v as usize;
        assert!(u < n);
        assert!(!seen[u], "duplicate index {u} in permutation {p:?}");
        seen[u] = true;
    }
    assert!(seen.into_iter().all(|x| x), "missing entries in permutation {p:?}");
}

#[test]
fn amd_of_diagonal_matrix_keeps_the_order() {
    let a = csc(4, &[0, 1, 2, 3, 4], &[0, 1, 2, 3]);
    let mut p = vec![9isize; 4];
    let info = amd(&a, &mut p).unwrap();
    assert_eq!(info.ndense, 0);
    assert!(permutation_ok(&p, 4));
    assert_eq!(p, vec![0, 1, 2, 3]);
}

#[test]
fn amd_of_arrow_matrix_orders_the_hub_last() {
    // column 0 is coupled to every other one: eliminating it first would
    // fill the matrix, so it comes last
    let n = 6;
    let mut ap = vec![0usize];
    let mut ai = Vec::new();
    for j in 0..n {
        if j == 0 {
            ai.extend(0..n);
        } else {
            ai.push(0);
            ai.push(j);
        }
        ap.push(ai.len());
    }
    let a = csc(n, &ap, &ai);
    assert!(a.check_invariants().is_ok());
    let mut p = vec![0isize; n];
    let info = amd(&a, &mut p).unwrap();
    assert!(permutation_ok(&p, n));
    assert_eq!(p[n - 1], 0);
    assert_eq!(info.pivots.iter().map(|&(f, _)| f).sum::<usize>(), n);
}

#[test]
fn amd_of_empty_matrix_is_empty() {
    let a = csc(0, &[0], &[]);
    let mut p: Vec<isize> = Vec::new();
    let info = amd(&a, &mut p).unwrap();
    assert_eq!(info.ndense, 0);
    assert!(info.pivots.is_empty());
}

#[test]
fn amd_core_rejects_out_of_range_lists() {
    // the list of variable 0 points past the end of iw
    let n = 2;
    let mut pe = vec![5isize, 0];
    let mut iw = vec![1isize, 0, 0, 0];
    let mut len = vec![1usize, 1];
    let (mut nv, mut next, mut last, mut head, mut elen, mut degree, mut w) =
        (vec![0; n], vec![0; n], vec![0; n], vec![0; n], vec![0; n], vec![0; n], vec![0; n]);
    let r = amd_core(
        n, &mut pe, &mut iw, &mut len, 4, 2, &mut nv, &mut next, &mut last, &mut head, &mut elen, &mut degree, &mut w,
        AmdControl::default(),
    );
    assert_eq!(r, Err(AmdError::Inconsistent));
}

#[test]
fn permutation_check() {
    assert!(permutation_ok(&[2, 0, 1], 3));
    assert!(!permutation_ok(&[2, 0, 0], 3));
    assert!(!permutation_ok(&[2, 0, 3], 3));
    assert!(!permutation_ok(&[0, 1], 3));
    assert!(permutation_ok(&[0, 1, 7], 2));
}
