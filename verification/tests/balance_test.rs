use hdbscan_incremental::balance::balance_groups;

#[test]
fn test_balance_tops_up_the_smaller_group() {
    // All points went to the second seed; the two farthest from it move over.
    let to_first = vec![false, false, false, false];
    let d_first = vec![3, 2, 1, 0];
    let d_second = vec![0, 5, 2, 5];
    assert_eq!(balance_groups(&to_first, &d_first, &d_second, 2), vec![false, true, false, true]);
    // The first group is the larger one: the farthest from the first seed moves.
    let to_first = vec![true, true, true, false];
    assert_eq!(balance_groups(&to_first, &d_first, &d_second, 2), vec![false, true, true, false]);
}

#[test]
fn test_balance_keeps_groups_that_are_large_enough() {
    let to_first = vec![true, false, true, false];
    let d = vec![1, 1, 1, 1];
    assert_eq!(balance_groups(&to_first, &d, &d, 2), to_first);
    // Fewer than 2m points: nothing moves.
    let few = vec![false, false, false];
    assert_eq!(balance_groups(&few, &vec![0, 0, 0], &vec![0, 0, 0], 2), few);
}
