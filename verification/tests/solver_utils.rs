use spicy_simulate::solver::amd::add_to_degree_list;
use spicy_simulate::solver::amd::clear_flag;
use spicy_simulate::solver::amd::get_pivot_of_minimum_degree;
use spicy_simulate::solver::amd::initialize_amd;
use spicy_simulate::solver::amd::remove_from_degree_list;
use spicy_simulate::solver::amd::remove_head_from_degree_list;
use spicy_simulate::solver::amd::AmdControl;
use spicy_simulate::solver::utils::dunits;
use spicy_simulate::solver::utils::flip;
use spicy_simulate::solver::utils::inverse_permutation;
use spicy_simulate::solver::utils::is_flipped;
use spicy_simulate::solver::utils::unflip;

#[test]
fn flip_round_trips() {
    assert_eq!(flip(0), -2);
    assert_eq!(flip(5), -7);
    assert_eq!(flip(-1), -1);
    assert_eq!(flip(flip(42)), 42);
    assert!(is_flipped(flip(0)));
    assert!(!is_flipped(-1));
    assert!(!is_flipped(3));
    assert_eq!(unflip(flip(9)), 9);
    assert_eq!(unflip(9), 9);
    assert_eq!(unflip(-1), -1);
}

#[test]
fn dunits_rounds_up() {
    assert_eq!(dunits::<u8>(0), Ok(0));
    assert_eq!(dunits::<u8>(9), Ok(2));
    assert_eq!(dunits::<u64>(3), Ok(3));
    assert_eq!(dunits::<u32>(3), Ok(2));
    assert!(dunits::<u64>(usize::MAX).is_err());
    assert!(dunits::<u8>(usize::MAX).is_err());
}

#[test]
fn inverse_permutation_inverts() {
    let p: Vec<isize> = vec![2, 0, 3, 1];
    let mut inv: Vec<isize> = vec![-1; 4];
    inverse_permutation(4, &p, &mut inv);
    assert_eq!(inv, vec![1, 3, 0, 2]);
}

#[test]
fn clear_flag_resets_only_when_out_of_range() {
    let mut w: Vec<isize> = vec![0, 5, 7, 0, 9];
    assert_eq!(clear_flag(3, 10, &mut w, 4), 3);
    assert_eq!(w, vec![0, 5, 7, 0, 9]);
    assert_eq!(clear_flag(10, 10, &mut w, 4), 2);
    assert_eq!(w, vec![0, 1, 1, 0, 9]);
    let mut w2: Vec<isize> = vec![3, 0];
    assert_eq!(clear_flag(1, 10, &mut w2, 2), 2);
    assert_eq!(w2, vec![1, 0]);
}

#[test]
fn degree_list_push_and_remove() {
    let n = 4;
    let mut head: Vec<isize> = vec![-1; n];
    let mut last: Vec<isize> = vec![-1; n];
    let mut next: Vec<isize> = vec![-1; n];
    add_to_degree_list(1, n, 2, &mut head, &mut last, &mut next);
    add_to_degree_list(3, n, 2, &mut head, &mut last, &mut next);
    assert_eq!(head, vec![-1, -1, 3, -1]);
    assert_eq!(next[3], 1);
    assert_eq!(last[1], 3);
    // unlink the tail element 1
    remove_from_degree_list(1, n, 2, &mut head, &mut last, &mut next);
    assert_eq!(next[3], -1);
    assert_eq!(head[2], 3);
    // remove the head 3
    remove_head_from_degree_list(3, n, 2, &mut head, &mut last, &mut next);
    assert_eq!(head[2], -1);
}

#[test]
fn pivot_is_first_nonempty_list() {
    let head: Vec<isize> = vec![-1, -1, 3, 0, -1];
    let mut mindeg = 0usize;
    let me = get_pivot_of_minimum_degree(&mut mindeg, 5, &head);
    assert_eq!(me, Some(3));
    assert_eq!(mindeg, 2);
}

#[test]
fn dense_threshold_matches_integer_sqrt() {
    let c = AmdControl::default();
    assert_eq!(c.get_dense(4), 4);
    assert_eq!(c.get_dense(100), 100);
    assert_eq!(c.get_dense(10000), 1000);
    assert_eq!(c.get_dense(1000), 316);
}

#[test]
fn initialize_amd_places_variables() {
    let n = 4;
    let c = AmdControl::default();
    let mut last: Vec<isize> = vec![7; n];
    let mut head: Vec<isize> = vec![7; n];
    let mut next: Vec<isize> = vec![7; n];
    let mut nv: Vec<isize> = vec![7; n];
    let mut w: Vec<isize> = vec![7; n];
    let mut elen: Vec<isize> = vec![7; n];
    let mut degree: Vec<isize> = vec![7; n];
    let mut len: Vec<usize> = vec![2, 0, 2, 1];
    let mut pe: Vec<isize> = vec![0, 2, 2, 4];
    let (nel, ndense) = initialize_amd(
        n, &c, &mut last, &mut head, &mut next, &mut nv, &mut w, &mut elen, &mut degree, &mut len,
        &mut pe,
    );
    assert_eq!((nel, ndense), (1, 0));
    assert_eq!(head, vec![-1, 3, 2, -1]);
    assert_eq!(next, vec![-1, -1, 0, -1]);
    assert_eq!(last, vec![2, -1, -1, -1]);
    assert_eq!(elen, vec![0, -3, 0, 0]);
    assert_eq!(w, vec![1, 0, 1, 1]);
    assert_eq!(pe, vec![0, -1, 2, 4]);
    assert_eq!(degree, vec![2, 0, 2, 1]);
    assert_eq!(nv, vec![1, 1, 1, 1]);
}
