use hdbscan_incremental::eom::{assign_eom_labels, select_eom_clusters};
use hdbscan_incremental::CondensedTreeNode;

fn entry(parent: usize, child: usize) -> CondensedTreeNode {
    CondensedTreeNode { parent, child, distance_rank: 0, child_size: 1 }
}

fn two_pairs() -> Vec<CondensedTreeNode> {
    vec![entry(6, 4), entry(6, 5), entry(4, 0), entry(4, 1), entry(5, 2), entry(5, 3)]
}

#[test]
fn test_eom_labels_from_selected_children() {
    let lambdas = vec![1, 1, 2, 2, 2, 2];
    let assigned = assign_eom_labels(&two_pairs(), &lambdas, 4, &vec![(4, 0), (5, 1)]);
    assert_eq!(assigned, vec![Some((0, 2)), Some((0, 2)), Some((1, 2)), Some((1, 2))]);
}

#[test]
fn test_eom_labels_walk_to_selected_ancestor() {
    let lambdas = vec![1, 1, 2, 2, 2, 2];
    let assigned = assign_eom_labels(&two_pairs(), &lambdas, 4, &vec![(6, 3)]);
    assert_eq!(assigned, vec![Some((3, 1)); 4]);
}

#[test]
fn test_eom_labels_noise_without_selection() {
    let lambdas = vec![1, 1, 2, 2, 2, 2];
    assert_eq!(assign_eom_labels(&two_pairs(), &lambdas, 5, &vec![]), vec![None; 5]);
    assert_eq!(assign_eom_labels(&vec![], &vec![], 2, &vec![(6, 0)]), vec![None, None]);
}

#[test]
fn test_eom_labels_follow_first_entry_of_child() {
    let condensed = vec![entry(5, 1), entry(6, 1), entry(6, 5)];
    let assigned = assign_eom_labels(&condensed, &vec![3, 2, 1], 2, &vec![(6, 0)]);
    assert_eq!(assigned, vec![None, Some((0, 1))]);
    let assigned = assign_eom_labels(&condensed, &vec![1, 1, 2], 2, &vec![(5, 7)]);
    assert_eq!(assigned, vec![None, Some((7, 1))]);
}

#[test]
fn test_eom_selection_topmost_winners_below_root() {
    // Root 8 over clusters 6 and 7; cluster 5 sits under 6.
    let condensed = vec![entry(8, 6), entry(8, 7), entry(6, 5), entry(6, 0), entry(5, 1), entry(7, 2)];
    let mut wins = vec![false; 9];
    wins[6] = true;
    wins[5] = true;
    wins[8] = true;
    assert_eq!(select_eom_clusters(&condensed, 8, &wins), vec![(6, 0)]);
    wins[6] = false;
    wins[7] = true;
    assert_eq!(select_eom_clusters(&condensed, 8, &wins), vec![(5, 0), (7, 1)]);
}
