use spicy_simulate::solver::aat::aat_first_phase;
use spicy_simulate::solver::aat::aat_second_phase;
use spicy_simulate::solver::aat::AatInfo;
use spicy_simulate::solver::matrix::csc::CscMatrix;
use spicy_simulate::solver::matrix::Dim;

fn csc(n: usize, ap: &[usize], ai: &[usize]) -> CscMatrix<f64> {
    CscMatrix {
        dim: Dim { nrows: n, ncols: n },
        column_pointers: ap.to_vec(),
        row_indices: ai.to_vec(),
        values: vec![1.0; ai.len()],
    }
}

/// Runs both phases; the segments are laid out back to back, with two
/// spare places at the end that must stay untouched.
fn aat(a: &CscMatrix<f64>) -> (AatInfo, Vec<usize>, Vec<usize>, Vec<usize>) {
    let n = a.dim.ncols;
    let mut lens = vec![7usize; n];
    let mut last = vec![0isize; n];
    let info = aat_first_phase(a, &mut lens, &mut last);
    let mut pe = vec![0usize; n];
    let mut free = 0usize;
    for v in 0..n {
        pe[v] = free;
        free += lens[v];
    }
    let mut rows = vec![99usize; free + 2];
    let mut cur = pe.clone();
    aat_second_phase(a, free, &mut rows, &mut cur, &pe, &mut last);
    (info, lens, rows, cur)
}

#[test]
fn aat_phases_on_regression_matrix() {
    let a = csc(5, &[0, 2, 6, 10, 12, 14], &[0, 1, 0, 1, 2, 4, 1, 2, 3, 4, 2, 3, 1, 4]);
    assert!(a.check_invariants().is_ok());
    let (info, lens, rows, cur) = aat(&a);
    assert_eq!(info, AatInfo { nz_diagonal: 5, nz_both: 4, nz_aat: 10 });
    assert_eq!(lens, vec![1, 3, 3, 1, 2]);
    assert_eq!(rows, vec![1, 0, 2, 4, 1, 3, 4, 2, 1, 2, 99, 99]);
    assert_eq!(cur, vec![1, 4, 7, 8, 10]);
}

#[test]
fn aat_of_strictly_lower_matrix_mirrors_every_entry() {
    let a = csc(3, &[0, 2, 3, 3], &[1, 2, 2]);
    let (info, lens, rows, cur) = aat(&a);
    assert_eq!(info, AatInfo { nz_diagonal: 0, nz_both: 0, nz_aat: 6 });
    assert_eq!(lens, vec![2, 2, 2]);
    assert_eq!(rows, vec![1, 2, 0, 2, 0, 1, 99, 99]);
    assert_eq!(cur, vec![2, 4, 6]);
}

#[test]
fn aat_of_diagonal_matrix_is_empty() {
    let a = csc(3, &[0, 1, 2, 3], &[0, 1, 2]);
    let (info, lens, rows, cur) = aat(&a);
    assert_eq!(info, AatInfo { nz_diagonal: 3, nz_both: 0, nz_aat: 0 });
    assert_eq!(lens, vec![0, 0, 0]);
    assert_eq!(rows, vec![99, 99]);
    assert_eq!(cur, vec![0, 0, 0]);
}

#[test]
fn aat_counts_a_one_sided_upper_entry_once_per_end() {
    // only (0, 2) is stored off the diagonal
    let a = csc(3, &[0, 1, 2, 4], &[0, 1, 0, 2]);
    let (info, lens, rows, cur) = aat(&a);
    assert_eq!(info, AatInfo { nz_diagonal: 3, nz_both: 0, nz_aat: 2 });
    assert_eq!(lens, vec![1, 0, 1]);
    assert_eq!(rows, vec![2, 0, 99, 99]);
    assert_eq!(cur, vec![1, 1, 2]);
}
