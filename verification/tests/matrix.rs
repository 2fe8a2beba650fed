use spicy_simulate::solver::btf_max_transversal::run_btf_max_transversal;
use spicy_simulate::solver::matrix::builder::MatrixBuilder;
use spicy_simulate::solver::matrix::csc::CscMatrix;
use spicy_simulate::solver::matrix::error::CscError;

fn add(a: f64, b: f64) -> f64 {
    a + b
}

#[test]
fn build_csc_basic() {
    // A = [ 10  0  3
    //       0 20  0
    //       2  0 30 ] with duplicate (2,2)+=5 => 35
    let mut b = MatrixBuilder::new(3, 3);
    b.push(0, 0, 10.0).unwrap();
    b.push(2, 0, 3.0).unwrap();
    b.push(1, 1, 20.0).unwrap();
    b.push(0, 2, 2.0).unwrap();
    b.push(2, 2, 30.0).unwrap();
    b.push(2, 2, 5.0).unwrap(); // duplicate -> combine to 35

    let a = b.build_csc(add).unwrap();
    assert_eq!(a.column_pointers, vec![0, 2, 3, 5]);
    assert_eq!(a.row_indices, vec![0, 2, 1, 0, 2]);
    assert_eq!(a.values, vec![10.0, 2.0, 20.0, 3.0, 35.0]);
    assert!(a.check_invariants().is_ok());
}

#[test]
fn build_csc_keeps_explicit_zeros() {
    let mut b = MatrixBuilder::new(3, 3);
    b.push(0, 0, 1.0).unwrap();
    b.push(0, 1, 0.0).unwrap(); // explicit structural zero
    b.push(1, 0, 5.0).unwrap();
    b.push(1, 0, -5.0).unwrap(); // cancels to 0.0, should still be kept
    b.push(1, 1, 2.0).unwrap();
    b.push(2, 2, 3.0).unwrap();

    let a = b.build_csc(add).unwrap();
    assert_eq!(a.column_pointers, vec![0, 2, 4, 5]);
    assert_eq!(a.row_indices, vec![0, 1, 0, 1, 2]);
    assert_eq!(a.values, vec![1.0, 0.0, 0.0, 2.0, 3.0]);
    assert!(a.check_invariants().is_ok());
}

#[test]
fn build_csr_basic() {
    let mut b = MatrixBuilder::new(3, 3);
    b.push(0, 0, 10.0).unwrap();
    b.push(2, 0, 3.0).unwrap();
    b.push(1, 1, 20.0).unwrap();
    b.push(0, 2, 2.0).unwrap();
    b.push(2, 2, 30.0).unwrap();
    b.push(2, 2, 5.0).unwrap();

    let a = b.build_csr(add).unwrap();
    assert_eq!(a.row_pointers, vec![0, 2, 3, 5]);
    assert_eq!(a.column_indices, vec![0, 2, 1, 0, 2]);
    assert_eq!(a.values, vec![10.0, 3.0, 20.0, 2.0, 35.0]);
    assert!(a.check_invariants().is_ok());
}

#[test]
fn build_and_access_rows() {
    let mut b = MatrixBuilder::new(3, 3);
    b.push(0, 0, 10.0).unwrap();
    b.push(2, 0, 3.0).unwrap();
    b.push(1, 1, 20.0).unwrap();
    b.push(0, 2, 2.0).unwrap();
    b.push(2, 2, 30.0).unwrap();
    b.push(2, 2, 5.0).unwrap();

    let a = b.build_csr(add).unwrap();
    assert_eq!(a.nnz(), 5);
    assert_eq!(a.row_pointers, vec![0, 2, 3, 5]);

    let (c0, v0) = a.row(0);
    assert_eq!(c0, &[0, 2]);
    assert_eq!(v0, &[10.0, 3.0]);

    let (c1, v1) = a.row(1);
    assert_eq!(c1, &[1]);
    assert_eq!(v1, &[20.0]);

    let (c2, v2) = a.row(2);
    assert_eq!(c2, &[0, 2]);
    assert_eq!(v2, &[2.0, 35.0]);

    assert!(a.check_invariants().is_ok());
}

#[test]
fn push_rejects_out_of_bounds_coordinates() {
    let mut b: MatrixBuilder<f64> = MatrixBuilder::new(2, 3);
    assert_eq!(b.push(3, 0, 1.0), Err(CscError::OutOfBoundsIndex { index: 3, max: 3 }));
    assert_eq!(b.push(0, 2, 1.0), Err(CscError::OutOfBoundsIndex { index: 2, max: 2 }));
    assert_eq!(b.push(2, 1, 1.0), Ok(0));
    assert_eq!(b.push(0, 0, 1.0), Ok(1));
}

#[test]
fn build_csc_pattern_maps_pushed_entries() {
    let mut b: MatrixBuilder<f64> = MatrixBuilder::new(3, 3);
    b.push(2, 2, 1.0).unwrap();
    b.push(0, 1, 1.0).unwrap();
    b.push(2, 2, 1.0).unwrap();
    b.push(0, 0, 1.0).unwrap();
    let (a, mapping) = b.build_csc_pattern().unwrap();
    assert_eq!(a.column_pointers, vec![0, 2, 2, 3]);
    assert_eq!(a.row_indices, vec![0, 1, 2]);
    assert_eq!(a.values, vec![0.0, 0.0, 0.0]);
    assert_eq!(mapping.get(0), 2);
    assert_eq!(mapping.get(1), 1);
    assert_eq!(mapping.get(2), 2);
    assert_eq!(mapping.get(3), 0);
}

#[test]
fn check_invariants_reports_broken_matrices() {
    let good = CscMatrix {
        dim: spicy_simulate::solver::matrix::Dim { nrows: 2, ncols: 2 },
        column_pointers: vec![0, 1, 2],
        row_indices: vec![1, 0],
        values: vec![1.0, 2.0],
    };
    assert!(good.check_invariants().is_ok());
    let unsorted = CscMatrix {
        dim: spicy_simulate::solver::matrix::Dim { nrows: 2, ncols: 1 },
        column_pointers: vec![0, 2],
        row_indices: vec![1, 0],
        values: vec![1.0, 2.0],
    };
    assert!(unsorted.check_invariants().is_err());
}

fn build_5x5(triplets: &[(usize, usize)]) -> CscMatrix<f64> {
    let mut b = MatrixBuilder::new(5, 5);
    for &(c, r) in triplets {
        b.push(c, r, 1.0).unwrap();
    }
    b.build_csc(add).unwrap()
}

#[test]
fn identity_pattern_has_full_matching() {
    let a = build_5x5(&[(0, 0), (1, 1), (2, 2), (3, 3), (4, 4)]);
    let (k, q) = run_btf_max_transversal(&a);
    assert_eq!(k, 5);
    assert_eq!(q, vec![0, 1, 2, 3, 4]);
}

#[test]
fn permuted_diagonal_is_found() {
    let a = build_5x5(&[(2, 0), (0, 1), (4, 2), (1, 3), (3, 4)]);
    let (k, q) = run_btf_max_transversal(&a);
    assert_eq!(k, 5);
    assert_eq!(q, vec![2, 0, 4, 1, 3]);
}

#[test]
fn rank_deficient_has_four_matchings() {
    let a = build_5x5(&[(0, 0), (1, 1), (2, 2), (3, 3)]);
    let (k, q) = run_btf_max_transversal(&a);
    assert_eq!(k, 4);
    assert_eq!(q, vec![0, 1, 2, 3, -1]);
}

#[test]
fn chain_requires_augmenting_path_finds_full_match() {
    let a = build_5x5(&[
        (0, 0),
        (1, 0),
        (1, 1),
        (2, 1),
        (2, 2),
        (3, 2),
        (3, 3),
        (4, 3),
        (4, 4),
    ]);
    let (k, q) = run_btf_max_transversal(&a);
    assert_eq!(k, 5);
    assert_eq!(q, vec![0, 1, 2, 3, 4]);
}

#[test]
fn deep_dfs_augmenting_path_reassigns_chain() {
    let a = build_5x5(&[
        (0, 0),
        (0, 1),
        (1, 1),
        (1, 2),
        (2, 2),
        (2, 3),
        (3, 3),
        (3, 4),
        (4, 0),
    ]);
    let (k, q) = run_btf_max_transversal(&a);
    assert_eq!(k, 5);
    assert_eq!(q, vec![4, 0, 1, 2, 3]);
}

#[test]
fn dfs_with_backtracking_on_decoy_branch() {
    let mut b = MatrixBuilder::new(7, 7);
    b.push(0, 0, 1.0).unwrap();
    b.push(1, 1, 1.0).unwrap();
    b.push(2, 2, 1.0).unwrap();
    b.push(2, 5, 1.0).unwrap();
    b.push(2, 3, 1.0).unwrap();
    b.push(3, 3, 1.0).unwrap();
    b.push(3, 4, 1.0).unwrap();
    b.push(4, 4, 1.0).unwrap();
    b.push(4, 6, 1.0).unwrap();
    b.push(5, 5, 1.0).unwrap();
    b.push(5, 0, 1.0).unwrap();
    b.push(6, 0, 1.0).unwrap();
    b.push(6, 2, 1.0).unwrap();

    let a = b.build_csc(add).unwrap();
    let (k, q) = run_btf_max_transversal(&a);
    assert_eq!(k, 7);
    assert_eq!(q, vec![0, 1, 6, 2, 3, 5, 4]);
}

#[test]
fn empty_matrix_has_no_matching() {
    let a = build_5x5(&[]);
    let (k, q) = run_btf_max_transversal(&a);
    assert_eq!(k, 0);
    assert_eq!(q, vec![-1, -1, -1, -1, -1]);
}

#[test]
fn csc_transpose_matches_builder_csr() {
    let mut b1 = MatrixBuilder::new(3, 3);
    let mut b2 = MatrixBuilder::new(3, 3);
    let entries = vec![
        (0, 0, 10.0),
        (2, 0, 3.0),
        (1, 1, 20.0),
        (0, 2, 2.0),
        (2, 2, 30.0),
        (2, 2, 5.0),
    ];
    for (c, r, v) in &entries {
        b1.push(*c, *r, *v).unwrap();
        b2.push(*c, *r, *v).unwrap();
    }
    let csc = b1.build_csc(add).unwrap();
    let csr_from_transpose = csc.transpose_to_csr();
    let csr_direct = b2.build_csr(add).unwrap();

    assert_eq!(csr_from_transpose.row_pointers, csr_direct.row_pointers);
    assert_eq!(csr_from_transpose.column_indices, csr_direct.column_indices);
    assert_eq!(csr_from_transpose.values, csr_direct.values);
}

#[test]
fn transpose_of_rectangular_matrix_keeps_shape() {
    // 2x3: entries (0,1)=1, (1,0)=2, (1,2)=3
    let mut b = MatrixBuilder::new(2, 3);
    b.push(1, 0, 1.0).unwrap();
    b.push(0, 1, 2.0).unwrap();
    b.push(2, 1, 3.0).unwrap();
    let a = b.build_csc(add).unwrap();
    let t = a.transpose_to_csr();
    assert_eq!(t.dim.nrows, 2);
    assert_eq!(t.dim.ncols, 3);
    assert_eq!(t.row_pointers, vec![0, 1, 3]);
    assert_eq!(t.column_indices, vec![1, 0, 2]);
    assert_eq!(t.values, vec![1.0, 2.0, 3.0]);
    assert!(t.check_invariants().is_ok());
}

#[test]
fn permute_columns_reorders_whole_columns() {
    let a = CscMatrix {
        dim: spicy_simulate::solver::matrix::Dim { nrows: 3, ncols: 3 },
        column_pointers: vec![0, 2, 3, 5],
        row_indices: vec![0, 2, 1, 0, 2],
        values: vec![10.0, 2.0, 20.0, 3.0, 30.0],
    };
    assert!(a.is_square());
    let b = a.permute_columns(&[2, 0, 1]);
    assert_eq!(b.column_pointers, vec![0, 2, 4, 5]);
    assert_eq!(b.row_indices, vec![0, 2, 0, 2, 1]);
    assert_eq!(b.values, vec![3.0, 30.0, 10.0, 2.0, 20.0]);
    assert!(b.check_invariants().is_ok());
    let wide = CscMatrix {
        dim: spicy_simulate::solver::matrix::Dim { nrows: 1, ncols: 2 },
        column_pointers: vec![0, 0, 0],
        row_indices: vec![],
        values: Vec::<f64>::new(),
    };
    assert!(!wide.is_square());
}

#[test]
fn csr_rows_are_read_by_position() {
    let a = CscMatrix {
        dim: spicy_simulate::solver::matrix::Dim { nrows: 2, ncols: 3 },
        column_pointers: vec![0, 1, 2, 3],
        row_indices: vec![1, 0, 1],
        values: vec![1.0, 2.0, 3.0],
    };
    let r = a.transpose_to_csr();
    assert_eq!(r.row_start(0), 0);
    assert_eq!(r.row_start(1), 1);
    assert_eq!(r.row_start(2), 3);
    assert_eq!(r.col_index(0), 1);
    assert_eq!(r.col_index(1), 0);
    assert_eq!(r.col_index(2), 2);
}

#[test]
fn pattern_and_combined_builds_share_the_layout() {
    let pushes = [(0, 0, 10.0), (2, 0, 3.0), (1, 1, 20.0), (0, 2, 2.0), (2, 2, 30.0), (2, 2, 5.0), (0, 0, 1.0)];
    let mut b1: MatrixBuilder<f64> = MatrixBuilder::new(3, 3);
    let mut b2: MatrixBuilder<f64> = MatrixBuilder::new(3, 3);
    for &(c, r, v) in pushes.iter() {
        b1.push(c, r, v).unwrap();
        b2.push(c, r, v).unwrap();
    }
    let (a, _) = b1.build_csc_pattern().unwrap();
    let c = b2.build_csc(|x: f64, y: f64| x + y).unwrap();
    assert_eq!(a.dim, c.dim);
    assert_eq!(a.column_pointers, c.column_pointers);
    assert_eq!(a.row_indices, c.row_indices);
    assert_eq!(a.values.len(), c.nnz());
    assert!(a.values.iter().all(|v| *v == 0.0));
}
