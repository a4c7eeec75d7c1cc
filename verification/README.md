# hdbscan-incremental

Incremental HDBSCAN over a Bubble-tree: points are summarised online into clustering
features (CF), the leaf CFs become data bubbles, and HDBSCAN runs on the bubbles on demand.

## Layout

- `src/` - the verified library (Verus). Distances are real numbers, but everything the
  hierarchy does with them is compare them, so the library works on their ranks:
  - `params.rs`: parameter validation.
  - `mst.rs`: the core neighbour of a bubble (walking the others by distance until their
    weight reaches `min_pts`), mutual reachability, Prim's spanning tree with its cut
    property.
  - `sort.rs`: stable sorting by rank.
  - `union_find.rs`: union-find with component weights.
  - `linkage.rs`: the single-linkage dendrogram; `dendrogram.rs`: its laws for a tree grown
    by Prim's algorithm (every merge joins two nodes, the last one holds every bubble).
  - `condense.rs`: the condensed tree (the heavier side of a split carries its cluster on);
    `eom.rs`: excess-of-mass selection from each cluster's stability comparison, and
    labelling; `hdbscan.rs`: the hierarchy
    end to end, leaf selection, cluster counting.
  - `compression.rs`: the integer decisions that keep the Bubble-tree at its target size.
  - `shape.rs`: the Bubble-tree's skeleton - leaves, children and the point ids each leaf
    holds - with splitting leaves and internal nodes, detaching nodes and pruning the
    ancestors left empty, removing a point by id, taking points out of a leaf, and listing
    the leaves.
  - `balance.rs`: balancing the two groups of a split so that each holds at least `m`.
  - `points.rs`: the ids of inserted points, and removing them.
- `app/` - the floating-point side: vectors, CFs (one per node of the skeleton), data
  bubbles, cosine distance, stabilities and their comparisons, probabilities.
- `tests/` - tests of the library.
