use hdbscan_incremental::shape::TreeShape;

fn leaf_ids(t: &TreeShape) -> Vec<usize> {
    (0..t.node_count()).filter(|&i| t.node_is_leaf(i)).collect()
}

#[test]
fn test_shape_starts_as_one_empty_leaf() {
    let t = TreeShape::new();
    assert_eq!(t.num_leaves(), 1);
    assert!(t.node_is_leaf(t.root()));
    assert!(t.points_of(t.root()).is_empty());
    assert_eq!(t.parent(t.root()), None);
}

#[test]
fn test_split_root_leaf_makes_new_root() {
    let mut t = TreeShape::new();
    let root = t.root();
    for id in [10, 11, 12, 13, 14] {
        t.add_point(root, id);
    }
    assert_eq!(t.split_leaf(root, &vec![true, false, true, false, false], 3), None);
    assert_eq!(t.num_leaves(), 1);
    let (a, b) = t.split_leaf(root, &vec![true, false, true, false, false], 2).unwrap();
    assert_eq!(a, root);
    assert_eq!(b, 1);
    assert_eq!(t.points_of(a), &vec![10, 12]);
    assert_eq!(t.points_of(b), &vec![11, 13, 14]);
    assert_eq!(t.num_leaves(), 2);
    let new_root = t.root();
    assert_eq!(new_root, 2);
    assert_eq!(t.children(new_root), &vec![a, b]);
    assert_eq!(t.parent(a), Some(new_root));
    assert_eq!(leaf_ids(&t), vec![0, 1]);
}

#[test]
fn test_split_inner_leaf_adds_sibling() {
    let mut t = TreeShape::new();
    let root = t.root();
    for id in 0..4 {
        t.add_point(root, id);
    }
    let (a, b) = t.split_leaf(root, &vec![true, true, false, false], 1).unwrap();
    let (c, d) = t.split_leaf(b, &vec![false, true], 1).unwrap();
    assert_eq!(c, b);
    assert_eq!(t.points_of(c), &vec![3]);
    assert_eq!(t.points_of(d), &vec![2]);
    assert_eq!(t.children(t.root()), &vec![a, b, d]);
    assert_eq!(t.num_leaves(), 3);
}

#[test]
fn test_take_and_detach_keep_points_accounted() {
    let mut t = TreeShape::new();
    let root = t.root();
    for id in 0..6 {
        t.add_point(root, id);
    }
    let moved = t.take_from_leaf(root, &vec![false, true, false, true, false, false]);
    assert_eq!(moved, vec![1, 3]);
    assert_eq!(t.points_of(root), &vec![0, 2, 4, 5]);
    assert_eq!(t.num_leaves(), 1);
    assert_eq!(t.remove_point_at(root, 1), 2);
    assert_eq!(t.points_of(root), &vec![0, 4, 5]);
    let (_, b) = t.split_leaf(root, &vec![true, false, false], 1).unwrap();
    let gone = t.detach_node(b);
    assert_eq!(gone, vec![4, 5]);
    assert_eq!(t.num_leaves(), 1);
    assert!(!t.node_is_leaf(b));
    assert_eq!(t.children(t.root()), &vec![root]);
}

#[test]
fn test_remove_id_detaches_emptied_leaf() {
    let mut t = TreeShape::new();
    let root = t.root();
    for id in 0..4 {
        t.add_point(root, id);
    }
    let (a, b) = t.split_leaf(root, &vec![true, true, true, false], 1).unwrap();
    assert_eq!(t.points_of(b), &vec![3]);
    assert_eq!(t.remove_id(9), None);
    assert_eq!(t.remove_id(1), Some(a));
    assert_eq!(t.points_of(a), &vec![0, 2]);
    assert_eq!(t.remove_id(3), Some(b));
    assert!(!t.node_is_alive(b));
    assert_eq!(t.num_leaves(), 1);
    assert_eq!(t.children(t.root()), &vec![a]);
    assert_eq!(t.remove_id(3), None);
}

#[test]
fn test_reset_root_after_last_child_goes() {
    let mut t = TreeShape::new();
    let root = t.root();
    for id in 0..2 {
        t.add_point(root, id);
    }
    let (a, b) = t.split_leaf(root, &vec![true, false], 1).unwrap();
    let new_root = t.root();
    t.detach_node(a);
    t.detach_node(b);
    assert_eq!(t.num_leaves(), 0);
    t.reset_root();
    assert!(t.node_is_leaf(new_root));
    assert_eq!(t.num_leaves(), 1);
    assert!(t.points_of(new_root).is_empty());
}

#[test]
fn test_split_node_moves_children_to_new_sibling() {
    let mut t = TreeShape::new();
    let root = t.root();
    for id in 0..6 {
        t.add_point(root, id);
    }
    let (a, b) = t.split_leaf(root, &vec![true, true, false, false, false, false], 1).unwrap();
    let (_, c) = t.split_leaf(b, &vec![true, true, false, false], 1).unwrap();
    let (_, d) = t.split_leaf(c, &vec![true, false], 1).unwrap();
    let top = t.root();
    assert_eq!(t.children(top), &vec![a, b, c, d]);
    assert_eq!(t.split_node(top, &vec![true, false, false, false], 3), None);
    let (x, y) = t.split_node(top, &vec![true, false, true, false], 2).unwrap();
    assert_eq!(x, top);
    assert_eq!(t.children(x), &vec![a, c]);
    assert_eq!(t.children(y), &vec![b, d]);
    assert_eq!(t.parent(b), Some(y));
    assert_eq!(t.parent(d), Some(y));
    assert_eq!(t.parent(a), Some(x));
    let new_root = t.root();
    assert_eq!(t.children(new_root), &vec![x, y]);
    assert_eq!(t.num_leaves(), 4);
}

#[test]
fn test_leaves_in_id_order_and_pruning() {
    let mut t = TreeShape::new();
    let root = t.root();
    for id in 0..6 {
        t.add_point(root, id);
    }
    let (a, b) = t.split_leaf(root, &vec![true, true, true, false, false, false], 1).unwrap();
    let (_, c) = t.split_leaf(b, &vec![true, false, false], 1).unwrap();
    assert_eq!(t.leaves(), vec![a, b, c]);
    assert_eq!(t.children(t.root()), &vec![a, b, c]);
    // Detaching keeps the order of the other children.
    t.detach_node(b);
    assert_eq!(t.children(t.root()), &vec![a, c]);
    assert_eq!(t.leaves(), vec![a, c]);
    // Nothing to prune above a leaf whose parent still has children.
    assert_eq!(t.prune_from(b), Some(t.root()));
}
