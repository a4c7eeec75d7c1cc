use hdbscan_incremental::compression::{
    closer_to_first, closest_child, compression_step, farthest_members, farthest_pair,
    most_overfilled_leaf, most_underfilled_leaf, CompressionStep,
};

#[test]
fn test_compression_step_compares_with_target() {
    assert_eq!(compression_step(3, 2), CompressionStep::RemoveUnderfilled);
    assert_eq!(compression_step(1, 2), CompressionStep::SplitOverfilled);
    assert_eq!(compression_step(2, 2), CompressionStep::Reorganize);
}

#[test]
fn test_leaf_selection_picks_first_extreme() {
    assert_eq!(most_underfilled_leaf(&vec![3, 1, 1, 5]), Some(1));
    assert_eq!(most_underfilled_leaf(&vec![]), None);
    assert_eq!(most_underfilled_leaf(&vec![usize::MAX]), None);
    assert_eq!(most_overfilled_leaf(&vec![3, 5, 1, 5]), Some(1));
    assert_eq!(most_overfilled_leaf(&vec![0, 0]), None);
}

#[test]
fn test_closest_child_skips_infinite() {
    assert_eq!(closest_child(&vec![u64::MAX, 4, 2, 2]), Some(2));
    assert_eq!(closest_child(&vec![u64::MAX, u64::MAX]), None);
}

#[test]
fn test_farthest_pair_first_maximum_above_floor() {
    let d = vec![vec![0, 3, 5], vec![3, 0, 5], vec![5, 5, 0]];
    assert_eq!(farthest_pair(&d, 0), (0, 2));
    let flat = vec![vec![0, 0, 0], vec![0, 0, 0], vec![0, 0, 0]];
    assert_eq!(farthest_pair(&flat, 0), (0, 1));
    assert_eq!(farthest_pair(&d, 5), (0, 1));
}

#[test]
fn test_farthest_members_stable_descending() {
    assert_eq!(farthest_members(&vec![1, 3, 3, 2], 2), vec![false, true, true, false]);
    assert_eq!(farthest_members(&vec![2, 2, 2], 1), vec![true, false, false]);
    assert_eq!(farthest_members(&vec![1, 2], 5), vec![true, true]);
    assert_eq!(farthest_members(&vec![1, 2], 0), vec![false, false]);
}

#[test]
fn test_closer_to_first_is_strict() {
    assert_eq!(closer_to_first(&vec![1, 2, 3], &vec![2, 2, 1]), vec![true, false, false]);
}
