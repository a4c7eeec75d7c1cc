use hdbscan_incremental::condense::condense_tree;
use hdbscan_incremental::hdbscan::{
    condensed_hierarchy, count_clusters, extract_clusters_leaf, hierarchy_from_reachability,
};
use hdbscan_incremental::linkage::build_linkage;
use hdbscan_incremental::mst::{
    build_mst, core_neighbour, mutual_reachability, mutual_reachability_matrix,
};
use hdbscan_incremental::sort::{sort_edges_by_rank, sort_values};
use hdbscan_incremental::{CondensedTreeNode, LinkageRow};

/// Two tight pairs far apart: ranks 1 inside a pair, 5 across.
fn two_pairs() -> Vec<Vec<u64>> {
    vec![
        vec![0, 1, 5, 5],
        vec![1, 0, 5, 5],
        vec![5, 5, 0, 1],
        vec![5, 5, 1, 0],
    ]
}

fn row(left: usize, right: usize, distance_rank: u64, size: usize) -> LinkageRow {
    LinkageRow { left, right, distance_rank, size }
}

fn entry(parent: usize, child: usize, distance_rank: u64, child_size: usize) -> CondensedTreeNode {
    CondensedTreeNode { parent, child, distance_rank, child_size }
}

#[test]
fn test_sort_edges_is_stable() {
    let edges = vec![(0, 1, 3), (1, 2, 1), (2, 3, 3), (3, 4, 0), (4, 5, 1)];
    assert_eq!(
        sort_edges_by_rank(&edges),
        vec![(3, 4, 0), (1, 2, 1), (4, 5, 1), (0, 1, 3), (2, 3, 3)]
    );
    assert_eq!(sort_values(&vec![4, 1, 3, 1]), vec![1, 1, 3, 4]);
}

#[test]
fn test_core_neighbour_accumulates_weight() {
    // From bubble 0: bubble 2 (three points) is nearer than bubble 1.
    let row0 = vec![0, 2, 1];
    let weights = vec![1, 1, 3];
    assert_eq!(core_neighbour(&row0, &weights, 0, 3), Some((2, 3)));
    assert_eq!(core_neighbour(&row0, &weights, 0, 2), Some((2, 2)));
    assert_eq!(core_neighbour(&row0, &weights, 0, 5), Some((1, 1)));
    assert_eq!(core_neighbour(&row0, &weights, 0, 9), Some((1, 1)));
    assert_eq!(core_neighbour(&vec![0, 1, 1], &vec![1, 1, 1], 0, 1), Some((1, 1)));
    assert_eq!(core_neighbour(&vec![0, 1, 1], &vec![1, 1, 1], 0, 2), Some((2, 1)));
    assert_eq!(core_neighbour(&vec![0], &vec![4], 0, 1), None);
}

#[test]
fn test_mutual_reachability_is_largest() {
    assert_eq!(mutual_reachability(2, 7, 3), 7);
    assert_eq!(mutual_reachability(9, 7, 3), 9);
    let mr = mutual_reachability_matrix(&two_pairs(), &vec![1, 1, 2, 1]);
    assert_eq!(mr[0], vec![1, 1, 5, 5]);
    assert_eq!(mr[2], vec![5, 5, 2, 2]);
}

#[test]
fn test_prim_mst_from_vertex_zero() {
    let mst = build_mst(&two_pairs());
    assert_eq!(mst, vec![(0, 1, 1), (0, 2, 5), (2, 3, 1)]);
    assert_eq!(mst.len(), 3);
    assert!(build_mst(&vec![]).is_empty());
}

#[test]
fn test_prim_stops_at_infinite_edges() {
    let inf = u64::MAX;
    let w = vec![vec![0, 2, inf], vec![2, 0, inf], vec![inf, inf, 0]];
    assert_eq!(build_mst(&w), vec![(0, 1, 2)]);
}

#[test]
fn test_linkage_merges_in_rank_order() {
    let linkage = build_linkage(&vec![2, 2, 2, 2], &vec![(0, 1, 1), (0, 2, 5), (2, 3, 1)]);
    assert_eq!(linkage, vec![row(0, 1, 1, 4), row(2, 3, 1, 4), row(4, 5, 5, 8)]);
}

#[test]
fn test_condense_keeps_two_clusters() {
    let linkage = vec![row(0, 1, 1, 4), row(2, 3, 1, 4), row(4, 5, 5, 8)];
    let condensed = condense_tree(&vec![2, 2, 2, 2], &linkage, 2);
    assert_eq!(
        condensed,
        vec![
            entry(6, 4, 5, 4),
            entry(6, 5, 5, 4),
            entry(4, 0, 1, 2),
            entry(4, 1, 1, 2),
            entry(5, 2, 1, 2),
            entry(5, 3, 1, 2),
        ]
    );
}

#[test]
fn test_condense_small_sides_fall_out() {
    let linkage = vec![row(0, 1, 1, 2), row(2, 3, 1, 2), row(4, 5, 5, 4)];
    let condensed = condense_tree(&vec![1, 1, 1, 1], &linkage, 3);
    assert_eq!(
        condensed,
        vec![entry(6, 0, 5, 1), entry(6, 1, 5, 1), entry(6, 2, 5, 1), entry(6, 3, 5, 1)]
    );
    let condensed = condense_tree(&vec![1, 1, 1, 1], &linkage, 2);
    assert_eq!(
        condensed,
        vec![
            entry(6, 4, 5, 2),
            entry(6, 5, 5, 2),
            entry(4, 0, 1, 1),
            entry(4, 1, 1, 1),
            entry(5, 2, 1, 1),
            entry(5, 3, 1, 1),
        ]
    );
}

#[test]
fn test_condense_heavier_side_keeps_cluster() {
    let linkage = vec![row(0, 1, 1, 2), row(3, 2, 2, 3)];
    let condensed = condense_tree(&vec![1, 1, 1], &linkage, 2);
    assert_eq!(condensed, vec![entry(4, 2, 2, 1), entry(4, 0, 1, 1), entry(4, 1, 1, 1)]);
    // A single heavy bubble carrying the cluster falls out of it.
    let linkage = vec![row(0, 1, 3, 5)];
    let condensed = condense_tree(&vec![1, 4], &linkage, 2);
    assert_eq!(condensed, vec![entry(2, 0, 3, 1), entry(2, 1, 3, 4)]);
}

#[test]
fn test_single_bubble_has_empty_hierarchy() {
    let (linkage, condensed) = condensed_hierarchy(&vec![5], &vec![], 2).unwrap();
    assert!(linkage.is_empty());
    assert!(condensed.is_empty());
}

#[test]
fn test_hierarchy_needs_spanning_edges() {
    assert!(condensed_hierarchy(&vec![1, 1, 1], &vec![(0, 1, 2)], 2).is_none());
    let (linkage, condensed) =
        condensed_hierarchy(&vec![2, 2, 2, 2], &build_mst(&two_pairs()), 2).unwrap();
    assert_eq!(linkage.len(), 3);
    assert_eq!(condensed.len(), 6);
}

#[test]
fn test_leaf_selection_labels_leaf_clusters() {
    let condensed = vec![
        entry(6, 4, 5, 2),
        entry(6, 5, 5, 2),
        entry(4, 0, 1, 1),
        entry(4, 1, 1, 1),
        entry(5, 2, 1, 1),
        entry(5, 3, 1, 1),
    ];
    assert_eq!(extract_clusters_leaf(&condensed, 4, 2), vec![0, 0, 1, 1]);
    assert_eq!(extract_clusters_leaf(&vec![], 2, 2), vec![-1, -1]);
}

#[test]
fn test_leaf_selection_heavy_bubbles_are_clusters() {
    let condensed = vec![entry(6, 4, 5, 4), entry(6, 5, 5, 4), entry(4, 0, 1, 2), entry(5, 3, 1, 2)];
    assert_eq!(extract_clusters_leaf(&condensed, 4, 2), vec![0, -1, -1, 1]);
    assert_eq!(extract_clusters_leaf(&condensed, 4, 3), vec![0, -1, -1, 1]);
    // Only the root: no cluster is ever selected.
    let flat = vec![entry(4, 2, 2, 1), entry(4, 0, 1, 1), entry(4, 1, 1, 1)];
    assert_eq!(extract_clusters_leaf(&flat, 3, 2), vec![-1, -1, -1]);
}

#[test]
fn test_count_clusters_from_labels() {
    assert_eq!(count_clusters(&vec![-1, -1]), 0);
    assert_eq!(count_clusters(&vec![0, 2, -1, 1]), 3);
    assert_eq!(count_clusters(&vec![]), 0);
}

#[test]
fn test_hierarchy_from_reachability_two_pairs() {
    let reach = mutual_reachability_matrix(&two_pairs(), &vec![1, 1, 1, 1]);
    let (tree, linkage, condensed) =
        hierarchy_from_reachability(&vec![2, 2, 2, 2], &reach, 2).unwrap();
    assert_eq!(tree, vec![(0, 1, 1), (0, 2, 5), (2, 3, 1)]);
    assert_eq!(linkage, vec![row(0, 1, 1, 4), row(2, 3, 1, 4), row(4, 5, 5, 8)]);
    assert_eq!(linkage[2].size, 8);
    assert_eq!(condensed.len(), 6);
    assert_eq!(condensed[0], entry(6, 4, 5, 4));
}

#[test]
fn test_hierarchy_from_reachability_disconnected() {
    let inf = u64::MAX;
    let reach = vec![vec![0, 2, inf], vec![2, 0, inf], vec![inf, inf, 0]];
    assert!(hierarchy_from_reachability(&vec![1, 1, 1], &reach, 2).is_none());
}
