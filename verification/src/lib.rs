//! The integer core of incremental HDBSCAN over data bubbles.
//!
//! Distances between data bubbles are real numbers; the hierarchy built on them only ever
//! compares them.  The functions here therefore take each distance as its rank among all the
//! distances in play (equal distances, equal ranks; `u64::MAX` for an infinite one) and
//! compute the core distances, the mutual-reachability spanning tree, the single-linkage
//! dendrogram and its condensed tree, the cluster labels of leaf selection, and the integer
//! decisions that keep the bubble tree at its target size.
pub mod balance;
pub mod compression;
pub mod condense;
pub mod dendrogram;
pub mod eom;
pub mod hdbscan;
pub mod linkage;
pub mod mst;
pub mod params;
pub mod points;
pub mod shape;
pub mod sort;
pub mod types;
pub mod union_find;

pub use types::{ClusterSelection, CondensedTreeNode, Edge, HdbscanError, LinkageRow};
