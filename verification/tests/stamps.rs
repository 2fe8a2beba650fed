use spicy_simulate::devices::stamp::NodeBranchPairStamp;
use spicy_simulate::devices::stamp::NodePairStamp;
use spicy_simulate::devices::stamp::NodeTripletStamp;
use spicy_simulate::devices::stamp::NodeVoltageSourceStamp;
use spicy_simulate::setup_pattern::finialize_voltage_sources;
use spicy_simulate::solver::matrix::builder::MatrixBuilder;

fn dense3(col: usize, row: usize) -> Result<usize, String> {
    Ok(row * 3 + col)
}

#[test]
fn node_pair_stamp_from_nodes() {
    let mut s = NodePairStamp::uninitialized();
    assert_eq!(s.pos_pos, None);
    s.set_temp_indices_from_nodes(Some(0), Some(2), dense3).unwrap();
    assert_eq!(s.pos_pos, Some(0));
    assert_eq!(s.neg_neg, Some(8));
    assert_eq!(s.off_diagonals, Some((6, 2)));

    let mut g = NodePairStamp::uninitialized();
    g.set_temp_indices_from_nodes(Some(1), None, dense3).unwrap();
    assert_eq!(g.pos_pos, Some(4));
    assert_eq!(g.neg_neg, None);
    assert_eq!(g.off_diagonals, None);
}

#[test]
fn node_pair_stamp_error_leaves_stamp_unchanged() {
    let mut s = NodePairStamp::uninitialized();
    s.set_temp_indices(Some(7), None, None);
    let failing = |c: usize, r: usize| -> Result<usize, String> {
        if c != r { Err(format!("no entry at ({c}, {r})")) } else { Ok(c) }
    };
    let r = s.set_temp_indices_from_nodes(Some(0), Some(1), failing);
    assert_eq!(r, Err("no entry at (0, 1)".to_string()));
    assert_eq!(s.pos_pos, Some(7));
    assert_eq!(s.neg_neg, None);
}

#[test]
fn node_pair_stamp_final_indices() {
    let mut s = NodePairStamp::uninitialized();
    s.set_temp_indices(Some(0), None, Some((1, 2)));
    let map = vec![10usize, 11, 12];
    s.set_final_indices(|i| map[i]);
    assert_eq!(s.pos_pos, Some(10));
    assert_eq!(s.neg_neg, None);
    assert_eq!(s.off_diagonals, Some((11, 12)));
}

#[test]
fn node_triplet_stamp_from_nodes() {
    let mut s = NodeTripletStamp::uninitialized();
    s.set_temp_indices_from_nodes(Some(0), Some(1), None, |r, c| -> Result<usize, String> { Ok(r * 10 + c) })
        .unwrap();
    assert_eq!(s.bb, Some(0));
    assert_eq!(s.bc, Some(1));
    assert_eq!(s.cb, Some(10));
    assert_eq!(s.cc, Some(11));
    assert_eq!(s.be, None);
    assert_eq!(s.eb, None);
    assert_eq!(s.ce, None);
    assert_eq!(s.ec, None);
    assert_eq!(s.ee, None);
    s.set_final_indices(|i| i + 100);
    assert_eq!(s.cb, Some(110));
    assert_eq!(s.ee, None);
}

#[test]
fn node_branch_pair_stamp_from_nodes() {
    let mut s = NodeBranchPairStamp::uninitialized();
    assert_eq!(s.branch_branch, usize::MAX);
    s.set_final_indices(|i| i + 1);
    assert_eq!(s.branch_branch, usize::MAX);
    s.set_temp_indices_from_nodes(Some(1), None, 3, |c, r| -> Result<usize, String> { Ok(r * 4 + c) })
        .unwrap();
    assert_eq!(s.pos_branch, Some((13, 7)));
    assert_eq!(s.neg_branch, None);
    assert_eq!(s.branch_branch, 15);
    s.set_final_indices(|i| i + 1);
    assert_eq!(s.pos_branch, Some((14, 8)));
    assert_eq!(s.branch_branch, 16);
}

#[test]
fn node_voltage_source_stamp_from_nodes() {
    let mut s = NodeVoltageSourceStamp::uninitialized();
    s.set_temp_indices_from_nodes(None, Some(0), 2, |c, r| -> Result<usize, String> { Ok(r * 3 + c) })
        .unwrap();
    assert_eq!(s.pos_branch, None);
    assert_eq!(s.neg_branch, Some((6, 2)));
    s.set_final_indices(|i| i * 2);
    assert_eq!(s.neg_branch, Some((12, 4)));
}

#[test]
fn voltage_source_stamps_get_final_positions() {
    // a 3x3 pattern: node 0, node 1, branch 2
    let mut b: MatrixBuilder<f64> = MatrixBuilder::new(3, 3);
    let e0 = b.push(2, 0, 0.0).unwrap(); // (row 0, col 2)
    let e1 = b.push(0, 2, 0.0).unwrap(); // (row 2, col 0)
    let e2 = b.push(2, 1, 0.0).unwrap(); // (row 1, col 2)
    let e3 = b.push(1, 2, 0.0).unwrap(); // (row 2, col 1)
    let (m, mapping) = b.build_csc_pattern().unwrap();
    assert_eq!(m.column_pointers, vec![0, 1, 2, 4]);
    let mut stamps = vec![NodeVoltageSourceStamp::uninitialized(), NodeVoltageSourceStamp::uninitialized()];
    stamps[0].set_temp_indices(Some((e0, e1)), Some((e2, e3)));
    stamps[1].set_temp_indices(None, Some((e2, e3)));
    finialize_voltage_sources(&mut stamps, &mapping);
    assert_eq!(stamps[0].pos_branch, Some((2, 0)));
    assert_eq!(stamps[0].neg_branch, Some((3, 1)));
    assert_eq!(stamps[1].pos_branch, None);
    assert_eq!(stamps[1].neg_branch, Some((3, 1)));
}

#[test]
fn final_indices_compose_and_identity_keeps() {
    let mut s = NodePairStamp::uninitialized();
    s.set_temp_indices(Some(1), None, Some((2, 3)));
    let mut t = NodePairStamp::uninitialized();
    t.set_temp_indices(Some(1), None, Some((2, 3)));
    s.set_final_indices(|i| i + 10);
    s.set_final_indices(|i| i * 2);
    t.set_final_indices(|i| (i + 10) * 2);
    assert_eq!(s.pos_pos, t.pos_pos);
    assert_eq!(s.neg_neg, None);
    assert_eq!(s.off_diagonals, t.off_diagonals);
    assert_eq!(s.pos_pos, Some(22));
    let before = s.clone();
    s.set_final_indices(|i| i);
    assert_eq!(s.pos_pos, before.pos_pos);
    assert_eq!(s.off_diagonals, before.off_diagonals);
}
