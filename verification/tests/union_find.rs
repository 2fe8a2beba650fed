use spicy_simulate::union_find::UnionFind;

#[test]
fn test_union_find_prefers_root_zero() {
    let mut uf = UnionFind::new(3);
    uf.union(0, 2);
    assert_eq!(uf.find(0), uf.find(2));
    assert_eq!(uf.find(2), 0);

    let mut uf = UnionFind::new(3);
    uf.union(2, 0);
    assert_eq!(uf.find(0), uf.find(2));
    assert_eq!(uf.find(2), 0);
}

#[test]
fn test_union_double_union() {
    let mut uf = UnionFind::new(4);
    uf.union(0, 3);
    uf.union(2, 3);

    assert_eq!(uf.find(2), uf.find(3));
    assert_eq!(uf.find(0), uf.find(3));
    assert_eq!(uf.find(2), 0);
}

#[test]
fn test_union_triple_union() {
    let mut uf = UnionFind::new(4);
    uf.union(0, 1);
    uf.union(2, 3);
    uf.union(1, 2);

    assert_eq!(uf.find(2), uf.find(3));
    assert_eq!(uf.find(0), uf.find(3));
    assert_eq!(uf.find(2), 0);
}

#[test]
fn find_on_fresh_forest_is_identity() {
    let mut uf = UnionFind::new(5);
    for i in 0..5 {
        assert_eq!(uf.find(i), i);
        assert_eq!(uf.find_no_compress(i), i);
    }
}

#[test]
fn union_of_separate_pairs_keeps_them_apart() {
    let mut uf = UnionFind::new(6);
    uf.union(1, 2);
    uf.union(4, 5);
    assert_eq!(uf.find(1), uf.find(2));
    assert_eq!(uf.find(4), uf.find(5));
    assert_ne!(uf.find(1), uf.find(4));
    assert_eq!(uf.find(3), 3);
    // merging a set with itself changes nothing
    uf.union(2, 1);
    assert_eq!(uf.find(1), uf.find(2));
    assert_ne!(uf.find(2), uf.find(5));
}

#[test]
fn find_no_compress_agrees_with_find() {
    let mut uf = UnionFind::new(5);
    uf.union(3, 4);
    uf.union(0, 4);
    for i in 0..5 {
        let a = uf.find_no_compress(i);
        let b = uf.find(i);
        assert_eq!(a, b);
    }
    assert_eq!(uf.find(4), 0);
}

#[test]
fn ground_stays_its_own_parent_across_unions() {
    let mut uf = UnionFind::new(6);
    uf.union(3, 4);
    assert_eq!(uf.parent[0], 0);
    uf.union(4, 0);
    assert_eq!(uf.parent[0], 0);
    uf.union(5, 2);
    uf.union(2, 3);
    assert_eq!(uf.parent[0], 0);
    for a in [0, 2, 3, 4, 5] {
        assert_eq!(uf.find(a), 0);
    }
    assert_eq!(uf.find(1), 1);
}

#[test]
fn find_compresses_the_path_it_walks() {
    let mut uf = UnionFind::new(4);
    uf.union(1, 2);
    uf.union(3, 1);
    let r = uf.find_no_compress(3);
    assert_eq!(uf.parent[r], r);
    assert_eq!(uf.find(3), r);
    assert_eq!(uf.parent[3], r);
    assert_eq!(uf.parent[r], r);
}

#[test]
fn union_by_rank_picks_the_higher_ranked_root() {
    let mut uf = UnionFind::new(5);
    // equal ranks: the root of the first argument stays the root
    uf.union(1, 2);
    assert_eq!(uf.find(2), 1);
    // rank of 3 is below the rank of 1: 1 stays the root
    uf.union(3, 1);
    assert_eq!(uf.find(3), 1);
    assert_eq!(uf.find(2), 1);
    // equal ranks again, other order
    uf.union(4, 3);
    assert_eq!(uf.find(4), 1);
}
