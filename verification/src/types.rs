use vstd::prelude::*;

verus! {

/// How the flat clustering is read off the condensed tree.
#[derive(Clone, Copy, Debug, PartialEq, Eq, Structural)]
pub enum ClusterSelection {
    Eom,
    Leaf,
}

/// The ways the index refuses a request.
#[derive(Clone, Debug)]
pub enum HdbscanError {
    InvalidDimension { expected: usize, actual: usize },
    PointNotFound(usize),
    NoPoints,
    InvalidParameter(String),
}

/// A weighted edge `(u, v, rank)`: the rank orders the edge's length among all lengths
/// in play, equal lengths having equal ranks; `u64::MAX` stands for an infinite length.
pub type Edge = (usize, usize, u64);

/// One merge of the single-linkage dendrogram: node `n + k` for the `k`-th row, where `n`
/// is the number of leaves.
#[derive(Clone, Copy, Debug, PartialEq, Eq, Structural)]
pub struct LinkageRow {
    pub left: usize,
    pub right: usize,
    /// Rank of the merge distance.
    pub distance_rank: u64,
    /// Total leaf weight below the merge.
    pub size: usize,
}

/// One edge of the condensed tree: `child` (a cluster node or a leaf) leaves `parent` at the
/// merge distance whose rank is `distance_rank`.
#[derive(Clone, Copy, Debug, PartialEq, Eq, Structural)]
pub struct CondensedTreeNode {
    pub parent: usize,
    pub child: usize,
    pub distance_rank: u64,
    pub child_size: usize,
}

} // verus!
