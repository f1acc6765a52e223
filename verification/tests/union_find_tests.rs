use starlings_core::hierarchy::union_find::UnionFind;

#[test]
fn test_union_find_basic() {
    let mut uf = UnionFind::new_vec(5);

    for i in 0..5 {
        assert_eq!(uf.find(i), i);
    }

    assert!(uf.union(0, 1));
    assert!(!uf.union(0, 1));

    assert_eq!(uf.find(0), uf.find(1));
    assert_ne!(uf.find(0), uf.find(2));
}

#[test]
fn test_union_find_path_compression() {
    let mut uf = UnionFind::new_vec(10);

    uf.union(0, 1);
    uf.union(1, 2);
    uf.union(2, 3);
    uf.union(3, 4);

    let root = uf.find(0);
    for i in 0..5 {
        assert_eq!(uf.find(i), root);
    }
}

#[test]
fn test_connected_components() {
    let mut uf = UnionFind::new_vec(6);

    uf.union(0, 1);
    uf.union(1, 2);
    uf.union(3, 4);

    assert!(uf.connected(0, 2));
    assert!(uf.connected(3, 4));
    assert!(!uf.connected(0, 3));
    assert!(!uf.connected(2, 5));

    let components = uf.get_all_components();
    assert_eq!(components.len(), 3);

    let mut sizes: Vec<usize> = components.iter().map(|c| c.len()).collect();
    sizes.sort();
    assert_eq!(sizes, vec![1, 2, 3]);
}

#[test]
fn test_mmap_union_find_basic() {
    let mut uf = UnionFind::new_mmap(5).unwrap();

    for i in 0..5 {
        assert_eq!(uf.find(i), i);
    }

    assert!(uf.union(0, 1));
    assert!(!uf.union(0, 1));

    assert_eq!(uf.find(0), uf.find(1));

    assert!(uf.union(2, 3));
    assert!(uf.union(1, 2));

    let root = uf.find(0);
    assert_eq!(uf.find(1), root);
    assert_eq!(uf.find(2), root);
    assert_eq!(uf.find(3), root);

    assert_ne!(uf.find(4), root);
}

#[test]
fn test_mmap_union_find_large() {
    let size = 10_000;
    let mut uf = UnionFind::new_mmap(size).unwrap();

    for i in (0..size - 1).step_by(2) {
        uf.union(i, i + 1);
    }

    for i in (0..size - 1).step_by(2) {
        assert_eq!(uf.find(i), uf.find(i + 1));
    }

    if size > 3 {
        assert_ne!(uf.find(0), uf.find(2));
    }
}

#[test]
fn test_large_union_find() {
    const N: usize = 10000;
    let mut uf = UnionFind::new_vec(N);

    for i in (0..N).step_by(2) {
        if i + 1 < N {
            uf.union(i, i + 1);
        }
    }

    for i in (0..N).step_by(2) {
        if i + 1 < N {
            assert!(uf.connected(i, i + 1));
            if i + 2 < N {
                assert!(!uf.connected(i, i + 2));
            }
        }
    }

    let components = uf.get_all_components();
    assert_eq!(components.len(), N.div_ceil(2));
}

#[test]
fn test_union_find_rank_optimisation() {
    let mut uf = UnionFind::new_vec(100);

    uf.union(0, 1);
    uf.union(1, 2);

    uf.union(10, 11);

    uf.union(0, 10);

    let root = uf.find(0);
    assert_eq!(uf.find(1), root);
    assert_eq!(uf.find(2), root);
    assert_eq!(uf.find(10), root);
    assert_eq!(uf.find(11), root);

    assert!(uf.connected(0, 11));
    assert!(uf.connected(2, 10));
}

#[test]
fn union_keeps_earlier_connections_and_joins_only_two_sets() {
    let mut uf = UnionFind::new_vec(8);
    uf.union(0, 1);
    uf.union(2, 3);
    uf.union(4, 5);
    assert!(uf.union(1, 3));
    assert!(uf.connected(0, 2));
    assert!(uf.connected(0, 3));
    assert!(uf.connected(4, 5));
    assert!(!uf.connected(0, 4));
    assert!(!uf.connected(6, 7));
    assert_eq!(uf.len(), 8);
    assert!(!uf.is_empty());
    assert_eq!(uf.get_all_components().len(), 4);
}

#[test]
fn vec_and_mapped_backends_agree() {
    let mut a = UnionFind::new_vec(50);
    let mut b = UnionFind::new_mmap(50).unwrap();
    let pairs = [(0, 7), (7, 13), (20, 21), (13, 49), (30, 31), (31, 20)];
    for &(x, y) in pairs.iter() {
        assert_eq!(a.union(x, y), b.union(x, y));
    }
    for x in 0..50 {
        for y in 0..50 {
            assert_eq!(a.connected(x, y), b.connected(x, y));
        }
    }
    assert_eq!(a.get_all_components().len(), b.get_all_components().len());
}

#[test]
fn empty_union_find() {
    let mut uf = UnionFind::new_vec(0);
    assert!(uf.is_empty());
    assert_eq!(uf.len(), 0);
    assert_eq!(uf.get_all_components().len(), 0);
}
