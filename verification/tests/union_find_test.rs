use hdbscan_incremental::union_find::UnionFind;

#[test]
fn test_union_find_starts_as_singletons() {
    let mut uf = UnionFind::new(4, &[3, 1, 4, 1]);
    for x in 0..4 {
        assert_eq!(uf.find(x), x);
    }
    assert_eq!(uf.component_weight(2), 4);
}

#[test]
fn test_union_to_parent_keeps_parent_root() {
    let mut uf = UnionFind::new(5, &[2, 3, 5, 0, 0]);
    uf.union_to_parent(0, 3);
    uf.union_to_parent(1, 3);
    assert_eq!(uf.find(0), 3);
    assert_eq!(uf.find(1), 3);
    assert_eq!(uf.component_weight(0), 5);
    uf.union_to_parent(3, 4);
    uf.union_to_parent(2, 4);
    assert_eq!(uf.find(0), 4);
    assert_eq!(uf.find(2), 4);
    assert_eq!(uf.component_weight(1), 10);
}

#[test]
fn test_union_of_joined_elements_changes_nothing() {
    let mut uf = UnionFind::new(3, &[1, 1, 1]);
    uf.union_to_parent(0, 1);
    uf.union_to_parent(1, 0);
    assert_eq!(uf.find(0), 1);
    assert_eq!(uf.find(1), 1);
    assert_eq!(uf.component_weight(0), 2);
    assert_eq!(uf.component_weight(2), 1);
}
