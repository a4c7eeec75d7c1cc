use vstd::prelude::*;

use crate::linkage::linkage_wf;
use crate::types::{CondensedTreeNode, LinkageRow};

verus! {

/// Number of leaves of a dendrogram with these rows.
pub open spec fn leaf_count(rows: Seq<LinkageRow>) -> int {
    rows.len() + 1int
}

/// Whether `node` names a leaf or a merge of the dendrogram.
pub open spec fn is_node(rows: Seq<LinkageRow>, node: usize) -> bool {
    node < leaf_count(rows) + rows.len()
}

/// Leaf weight below `node`: the leaf's own weight, or the size recorded by its merge.
pub open spec fn node_weight(ws: Seq<usize>, rows: Seq<LinkageRow>, node: usize) -> usize {
    if node < leaf_count(rows) {
        ws[node as int]
    } else {
        rows[node - leaf_count(rows)].size
    }
}

/// A condensed-tree entry.
pub open spec fn entry(parent: usize, child: usize, rank: u64, size: usize) -> CondensedTreeNode {
    CondensedTreeNode { parent, child, distance_rank: rank, child_size: size }
}

/// The leaves below `node`, left to right, each recorded as falling out of `parent`.
pub open spec fn collected(
    ws: Seq<usize>,
    rows: Seq<LinkageRow>,
    node: usize,
    parent: usize,
    rank: u64,
) -> Seq<CondensedTreeNode>
    decreases node,
    when linkage_wf(leaf_count(rows), rows) && is_node(rows, node)
{
    if node < leaf_count(rows) {
        seq![entry(parent, node, rank, ws[node as int])]
    } else {
        let r = rows[node - leaf_count(rows)];
        collected(ws, rows, r.left, parent, rank) + collected(ws, rows, r.right, parent, rank)
    }
}

/// The condensed entries below `node`, whose leaves belong to cluster `cluster`.  At a merge
/// whose two sides both weigh at least `mcs` the cluster splits: both sides are recorded as its
/// children and each side goes on as a cluster of its own.  A lighter side falls out of
/// `cluster` leaf by leaf, at the rank of the merge; when only one side is light, the other
/// side carries `cluster` on (a single leaf carrying it falls out of it at that merge).
pub open spec fn condensed_below(
    ws: Seq<usize>,
    rows: Seq<LinkageRow>,
    mcs: usize,
    node: usize,
    cluster: usize,
) -> Seq<CondensedTreeNode>
    decreases node,
    when linkage_wf(leaf_count(rows), rows) && is_node(rows, node)
{
    if node < leaf_count(rows) {
        seq![]
    } else {
        let r = rows[node - leaf_count(rows)];
        let lc = node_weight(ws, rows, r.left);
        let rc = node_weight(ws, rows, r.right);
        let rank = r.distance_rank;
        if lc >= mcs && rc >= mcs {
            seq![entry(cluster, r.left, rank, lc), entry(cluster, r.right, rank, rc)]
                + condensed_below(ws, rows, mcs, r.left, r.left) + condensed_below(
                ws,
                rows,
                mcs,
                r.right,
                r.right,
            )
        } else if lc < mcs && rc < mcs {
            collected(ws, rows, r.left, cluster, rank) + collected(ws, rows, r.right, cluster, rank)
        } else if lc < mcs {
            collected(ws, rows, r.left, cluster, rank) + if r.right < leaf_count(rows) {
                collected(ws, rows, r.right, cluster, rank)
            } else {
                condensed_below(ws, rows, mcs, r.right, cluster)
            }
        } else {
            collected(ws, rows, r.right, cluster, rank) + if r.left < leaf_count(rows) {
                collected(ws, rows, r.left, cluster, rank)
            } else {
                condensed_below(ws, rows, mcs, r.left, cluster)
            }
        }
    }
}

/// The condensed tree of the dendrogram `rows` over leaves of weights `ws`: the entries below
/// the root merge, whose cluster is the root itself.
pub open spec fn condensed_tree(ws: Seq<usize>, rows: Seq<LinkageRow>, mcs: usize) -> Seq<
    CondensedTreeNode,
> {
    let root = (2 * leaf_count(rows) - 2) as usize;
    condensed_below(ws, rows, mcs, root, root)
}

/// Records every leaf below `node` as falling out of `parent`.
fn collect_points(
    node: usize,
    weights: &Vec<usize>,
    linkage: &Vec<LinkageRow>,
    result: &mut Vec<CondensedTreeNode>,
    parent: usize,
    rank: u64,
    n: usize,
)
    requires
        n == linkage.len() + 1,
        weights.len() >= n,
        linkage_wf(n as int, linkage@),
        is_node(linkage@, node),
    ensures
        final(result)@ == old(result)@ + collected(weights@, linkage@, node, parent, rank),
    decreases node,
{
    if node < n {
        result.push(CondensedTreeNode {
            parent,
            child: node,
            distance_rank: rank,
            child_size: weights[node],
        });
    } else {
        let row = linkage[node - n];
        assert(linkage@[node - n] == row);
        collect_points(row.left, weights, linkage, result, parent, rank, n);
        collect_points(row.right, weights, linkage, result, parent, rank, n);
    }
}

/// Appends the condensed entries below `node` for the cluster `cluster`.
fn condense_node(
    node: usize,
    cluster: usize,
    weights: &Vec<usize>,
    linkage: &Vec<LinkageRow>,
    min_cluster_size: usize,
    result: &mut Vec<CondensedTreeNode>,
    n: usize,
)
    requires
        n == linkage.len() + 1,
        weights.len() >= n,
        linkage_wf(n as int, linkage@),
        is_node(linkage@, node),
        node <= cluster,
        node >= n ==> cluster >= n,
    ensures
        final(result)@ == old(result)@ + condensed_below(
            weights@,
            linkage@,
            min_cluster_size,
            node,
            cluster,
        ),
        forall|x: int|
            old(result).len() <= x < final(result).len() ==> (#[trigger] final(result)@[x]).parent
                >= n && final(result)@[x].child < final(result)@[x].parent,
    decreases node,
{
    if node < n {
        return;
    }
    let ghost ws = weights@;
    let ghost rows = linkage@;
    let ghost r0 = result@;
    let row = linkage[node - n];
    assert(linkage@[node - n] == row);
    let left = row.left;
    let right = row.right;
    let rank = row.distance_rank;
    let left_count = if left >= n {
        linkage[left - n].size
    } else {
        weights[left]
    };
    let right_count = if right >= n {
        linkage[right - n].size
    } else {
        weights[right]
    };
    proof {
        assert(left_count == node_weight(ws, rows, left));
        assert(right_count == node_weight(ws, rows, right));
        lemma_collected_parent(ws, rows, left, cluster, rank);
        lemma_collected_parent(ws, rows, right, cluster, rank);
    }
    if left_count >= min_cluster_size && right_count >= min_cluster_size {
        result.push(
            CondensedTreeNode { parent: cluster, child: left, distance_rank: rank, child_size: left_count },
        );
        result.push(
            CondensedTreeNode {
                parent: cluster,
                child: right,
                distance_rank: rank,
                child_size: right_count,
            },
        );
        let ghost r1 = result@;
        condense_node(left, left, weights, linkage, min_cluster_size, result, n);
        let ghost r2 = result@;
        condense_node(right, right, weights, linkage, min_cluster_size, result, n);
        proof {
            assert forall|x: int| r0.len() <= x < result.len() implies (#[trigger] result@[x]).parent
                >= n && result@[x].child < result@[x].parent by {
                if x < r1.len() {
                    assert(r2[x] == r1[x]);
                }
                if x < r2.len() {
                    assert(result@[x] == r2[x]);
                }
            }
        }
    } else if left_count < min_cluster_size && right_count < min_cluster_size {
        collect_points(left, weights, linkage, result, cluster, rank, n);
        collect_points(right, weights, linkage, result, cluster, rank, n);
        proof {
            let a = collected(ws, rows, left, cluster, rank);
            let b = collected(ws, rows, right, cluster, rank);
            assert forall|x: int| r0.len() <= x < result.len() implies (#[trigger] result@[x]).parent
                >= n && result@[x].child < result@[x].parent by {
                if x < r0.len() + a.len() {
                    assert(result@[x] == a[x - r0.len()]);
                } else {
                    assert(result@[x] == b[x - r0.len() - a.len()]);
                }
            }
        }
    } else if left_count < min_cluster_size {
        collect_points(left, weights, linkage, result, cluster, rank, n);
        let ghost r1 = result@;
        if right < n {
            collect_points(right, weights, linkage, result, cluster, rank, n);
        } else {
            condense_node(right, cluster, weights, linkage, min_cluster_size, result, n);
        }
        proof {
            let a = collected(ws, rows, left, cluster, rank);
            let b = collected(ws, rows, right, cluster, rank);
            assert forall|x: int| r0.len() <= x < result.len() implies (#[trigger] result@[x]).parent
                >= n && result@[x].child < result@[x].parent by {
                if x < r1.len() {
                    assert(result@[x] == a[x - r0.len()]);
                } else if right < n {
                    assert(result@[x] == b[x - r1.len()]);
                }
            }
        }
    } else {
        collect_points(right, weights, linkage, result, cluster, rank, n);
        let ghost r1 = result@;
        if left < n {
            collect_points(left, weights, linkage, result, cluster, rank, n);
        } else {
            condense_node(left, cluster, weights, linkage, min_cluster_size, result, n);
        }
        proof {
            let a = collected(ws, rows, right, cluster, rank);
            let b = collected(ws, rows, left, cluster, rank);
            assert forall|x: int| r0.len() <= x < result.len() implies (#[trigger] result@[x]).parent
                >= n && result@[x].child < result@[x].parent by {
                if x < r1.len() {
                    assert(result@[x] == a[x - r0.len()]);
                } else if left < n {
                    assert(result@[x] == b[x - r1.len()]);
                }
            }
        }
    }
}

/// Condenses the dendrogram: walking down from the root merge, a split into two sides of
/// weight at least `min_cluster_size` yields two child clusters; a lighter side falls out of
/// the current cluster leaf by leaf, at the rank of the merge where it left, while the heavier
/// side carries the current cluster on.
pub fn condense_tree(
    weights: &Vec<usize>,
    linkage: &Vec<LinkageRow>,
    min_cluster_size: usize,
) -> (condensed: Vec<CondensedTreeNode>)
    requires
        linkage.len() < usize::MAX / 2,
        weights.len() >= linkage.len() + 1,
        linkage_wf(linkage.len() + 1, linkage@),
    ensures
        condensed@ == condensed_tree(weights@, linkage@, min_cluster_size),
        forall|i: int|
            0 <= i < condensed.len() ==> (#[trigger] condensed@[i]).parent >= linkage.len() + 1
                && condensed@[i].child < condensed@[i].parent,
{
    let n = linkage.len() + 1;
    let root = 2 * n - 2;
    let mut result: Vec<CondensedTreeNode> = Vec::new();
    condense_node(root, root, weights, linkage, min_cluster_size, &mut result, n);
    proof {
        assert(result@ =~= condensed_tree(weights@, linkage@, min_cluster_size));
    }
    result
}

/// Every entry collected below a node records that node's given parent.
proof fn lemma_collected_parent(
    ws: Seq<usize>,
    rows: Seq<LinkageRow>,
    node: usize,
    parent: usize,
    rank: u64,
)
    requires
        linkage_wf(leaf_count(rows), rows),
        is_node(rows, node),
    ensures
        forall|i: int|
            0 <= i < collected(ws, rows, node, parent, rank).len() ==> (#[trigger] collected(
                ws,
                rows,
                node,
                parent,
                rank,
            )[i]).parent == parent && collected(ws, rows, node, parent, rank)[i].child
                < leaf_count(rows),
    decreases node,
{
    if node >= leaf_count(rows) {
        let r = rows[node - leaf_count(rows)];
        lemma_collected_parent(ws, rows, r.left, parent, rank);
        lemma_collected_parent(ws, rows, r.right, parent, rank);
        let a = collected(ws, rows, r.left, parent, rank);
        let b = collected(ws, rows, r.right, parent, rank);
        assert forall|i: int| 0 <= i < (a + b).len() implies (#[trigger] (a + b)[i]).parent
            == parent && (a + b)[i].child < leaf_count(rows) by {
            if i < a.len() {
                assert((a + b)[i] == a[i]);
            } else {
                assert((a + b)[i] == b[i - a.len()]);
            }
        }
    }
}

/// Node `x` lies in the subtree of the dendrogram rooted at `node`.
pub open spec fn below(rows: Seq<LinkageRow>, node: usize, x: usize) -> bool
    decreases node,
    when linkage_wf(leaf_count(rows), rows) && is_node(rows, node)
{
    x == node || (node >= leaf_count(rows) && (below(rows, rows[node - leaf_count(rows)].left, x)
        || below(rows, rows[node - leaf_count(rows)].right, x)))
}

/// Every merge records the total weight of its two sides.
pub open spec fn sizes_consistent(ws: Seq<usize>, rows: Seq<LinkageRow>) -> bool {
    forall|k: int|
        0 <= k < rows.len() ==> (#[trigger] rows[k]).size == node_weight(ws, rows, rows[k].left)
            + node_weight(ws, rows, rows[k].right)
}

proof fn lemma_weight_below(ws: Seq<usize>, rows: Seq<LinkageRow>, s: usize, x: usize)
    requires
        linkage_wf(leaf_count(rows), rows),
        is_node(rows, s),
        sizes_consistent(ws, rows),
        below(rows, s, x),
    ensures
        is_node(rows, x),
        node_weight(ws, rows, x) <= node_weight(ws, rows, s),
        x >= leaf_count(rows) ==> s >= leaf_count(rows),
    decreases s,
{
    if x != s {
        let r = rows[s - leaf_count(rows)];
        assert(rows[s - leaf_count(rows)].size == node_weight(ws, rows, r.left) + node_weight(
            ws,
            rows,
            r.right,
        ));
        if below(rows, r.left, x) {
            lemma_weight_below(ws, rows, r.left, x);
        } else {
            lemma_weight_below(ws, rows, r.right, x);
        }
    }
}

proof fn lemma_child_in_concat(a: Seq<CondensedTreeNode>, b: Seq<CondensedTreeNode>, y: usize)
    requires
        exists|i: int| 0 <= i < b.len() && (#[trigger] b[i]).child == y,
    ensures
        exists|i: int| 0 <= i < (a + b).len() && (#[trigger] (a + b)[i]).child == y,
        exists|i: int| 0 <= i < (b + a).len() && (#[trigger] (b + a)[i]).child == y,
{
    let i = choose|i: int| 0 <= i < b.len() && (#[trigger] b[i]).child == y;
    assert((a + b)[a.len() + i] == b[i]);
    assert((b + a)[i] == b[i]);
}

/// Wherever in the subtree of `node` a merge splits into two sides that each weigh at least
/// `mcs`, the condensed tree below `node` records both sides as child clusters, whether the
/// merge is reached through earlier true splits or through heavier sides that carry a cluster
/// on past lighter ones.
pub proof fn lemma_true_splits_recorded(
    ws: Seq<usize>,
    rows: Seq<LinkageRow>,
    mcs: usize,
    node: usize,
    cluster: usize,
    x: usize,
)
    requires
        linkage_wf(leaf_count(rows), rows),
        is_node(rows, node),
        sizes_consistent(ws, rows),
        below(rows, node, x),
        x >= leaf_count(rows),
        node_weight(ws, rows, rows[x - leaf_count(rows)].left) >= mcs,
        node_weight(ws, rows, rows[x - leaf_count(rows)].right) >= mcs,
    ensures
        exists|i: int|
            0 <= i < condensed_below(ws, rows, mcs, node, cluster).len() && (#[trigger] condensed_below(
                ws,
                rows,
                mcs,
                node,
                cluster,
            )[i]).child == rows[x - leaf_count(rows)].left,
        exists|i: int|
            0 <= i < condensed_below(ws, rows, mcs, node, cluster).len() && (#[trigger] condensed_below(
                ws,
                rows,
                mcs,
                node,
                cluster,
            )[i]).child == rows[x - leaf_count(rows)].right,
    decreases node,
{
    let n = leaf_count(rows);
    let rx = rows[x - n];
    lemma_weight_below(ws, rows, node, x);
    assert(rows[x - n].size == node_weight(ws, rows, rx.left) + node_weight(ws, rows, rx.right));
    let cb = condensed_below(ws, rows, mcs, node, cluster);
    if x == node {
        assert(cb[0].child == rx.left);
        assert(cb[1].child == rx.right);
    } else {
        let r = rows[node - n];
        let lc = node_weight(ws, rows, r.left);
        let rc = node_weight(ws, rows, r.right);
        let rank = r.distance_rank;
        let in_left = below(rows, r.left, x);
        if in_left {
            lemma_weight_below(ws, rows, r.left, x);
        } else {
            lemma_weight_below(ws, rows, r.right, x);
        }
        let ys = seq![rx.left, rx.right];
        if lc >= mcs && rc >= mcs {
            let head = seq![entry(cluster, r.left, rank, lc), entry(cluster, r.right, rank, rc)];
            let a = condensed_below(ws, rows, mcs, r.left, r.left);
            let b = condensed_below(ws, rows, mcs, r.right, r.right);
            assert(cb == head + a + b);
            if in_left {
                lemma_true_splits_recorded(ws, rows, mcs, r.left, r.left, x);
                lemma_child_in_concat(head, a, rx.left);
                lemma_child_in_concat(head, a, rx.right);
                lemma_child_in_concat(b, head + a, rx.left);
                lemma_child_in_concat(b, head + a, rx.right);
            } else {
                lemma_true_splits_recorded(ws, rows, mcs, r.right, r.right, x);
                lemma_child_in_concat(head + a, b, rx.left);
                lemma_child_in_concat(head + a, b, rx.right);
            }
        } else if lc < mcs && rc < mcs {
            assert(false);
        } else if lc < mcs {
            assert(!in_left);
            let a = collected(ws, rows, r.left, cluster, rank);
            let b = condensed_below(ws, rows, mcs, r.right, cluster);
            assert(r.right >= n);
            assert(cb == a + b);
            lemma_true_splits_recorded(ws, rows, mcs, r.right, cluster, x);
            lemma_child_in_concat(a, b, rx.left);
            lemma_child_in_concat(a, b, rx.right);
        } else {
            assert(in_left);
            let a = collected(ws, rows, r.right, cluster, rank);
            let b = condensed_below(ws, rows, mcs, r.left, cluster);
            assert(r.left >= n);
            assert(cb == a + b);
            lemma_true_splits_recorded(ws, rows, mcs, r.left, cluster, x);
            lemma_child_in_concat(a, b, rx.left);
            lemma_child_in_concat(a, b, rx.right);
        }
    }
}

/// In the condensed tree, every merge of the dendrogram under the root whose two sides each
/// weigh at least `mcs` has both sides recorded as child clusters.
pub proof fn lemma_condensed_tree_records_true_splits(
    ws: Seq<usize>,
    rows: Seq<LinkageRow>,
    mcs: usize,
    x: usize,
)
    requires
        linkage_wf(leaf_count(rows), rows),
        rows.len() >= 1,
        sizes_consistent(ws, rows),
        below(rows, (2 * leaf_count(rows) - 2) as usize, x),
        x >= leaf_count(rows),
        node_weight(ws, rows, rows[x - leaf_count(rows)].left) >= mcs,
        node_weight(ws, rows, rows[x - leaf_count(rows)].right) >= mcs,
    ensures
        exists|i: int|
            0 <= i < condensed_tree(ws, rows, mcs).len() && (#[trigger] condensed_tree(
                ws,
                rows,
                mcs,
            )[i]).child == rows[x - leaf_count(rows)].left,
        exists|i: int|
            0 <= i < condensed_tree(ws, rows, mcs).len() && (#[trigger] condensed_tree(
                ws,
                rows,
                mcs,
            )[i]).child == rows[x - leaf_count(rows)].right,
{
    let root = (2 * leaf_count(rows) - 2) as usize;
    lemma_true_splits_recorded(ws, rows, mcs, root, root, x);
    let t = condensed_tree(ws, rows, mcs);
    assert(t == condensed_below(ws, rows, mcs, root, root));
    let rx = rows[x - leaf_count(rows)];
    let i = choose|i: int| 0 <= i < t.len() && (#[trigger] t[i]).child == rx.left;
    let j = choose|j: int| 0 <= j < t.len() && (#[trigger] t[j]).child == rx.right;
    assert(t[i].child == rx.left);
    assert(t[j].child == rx.right);
}

proof fn lemma_collected_has_leaves(
    ws: Seq<usize>,
    rows: Seq<LinkageRow>,
    node: usize,
    parent: usize,
    rank: u64,
    y: usize,
)
    requires
        linkage_wf(leaf_count(rows), rows),
        is_node(rows, node),
        below(rows, node, y),
        y < leaf_count(rows),
    ensures
        exists|i: int|
            0 <= i < collected(ws, rows, node, parent, rank).len() && (#[trigger] collected(
                ws,
                rows,
                node,
                parent,
                rank,
            )[i]).child == y,
    decreases node,
{
    let cs = collected(ws, rows, node, parent, rank);
    if node < leaf_count(rows) {
        assert(cs[0].child == y);
    } else {
        let r = rows[node - leaf_count(rows)];
        let a = collected(ws, rows, r.left, parent, rank);
        let b = collected(ws, rows, r.right, parent, rank);
        assert(cs == a + b);
        if below(rows, r.left, y) {
            lemma_collected_has_leaves(ws, rows, r.left, parent, rank, y);
            lemma_child_in_concat(b, a, y);
        } else {
            lemma_collected_has_leaves(ws, rows, r.right, parent, rank, y);
            lemma_child_in_concat(a, b, y);
        }
    }
}

/// Every bubble under a merge is recorded in the condensed tree below that merge: as a child
/// cluster of a true split, or as falling out of some cluster.
pub proof fn lemma_every_bubble_recorded(
    ws: Seq<usize>,
    rows: Seq<LinkageRow>,
    mcs: usize,
    node: usize,
    cluster: usize,
    y: usize,
)
    requires
        linkage_wf(leaf_count(rows), rows),
        is_node(rows, node),
        node >= leaf_count(rows),
        below(rows, node, y),
        y < leaf_count(rows),
    ensures
        exists|i: int|
            0 <= i < condensed_below(ws, rows, mcs, node, cluster).len() && (#[trigger] condensed_below(
                ws,
                rows,
                mcs,
                node,
                cluster,
            )[i]).child == y,
    decreases node,
{
    let n = leaf_count(rows);
    let r = rows[node - n];
    let lc = node_weight(ws, rows, r.left);
    let rc = node_weight(ws, rows, r.right);
    let rank = r.distance_rank;
    let cb = condensed_below(ws, rows, mcs, node, cluster);
    let in_left = below(rows, r.left, y);
    let side = if in_left {
        r.left
    } else {
        r.right
    };
    if lc >= mcs && rc >= mcs {
        let head = seq![entry(cluster, r.left, rank, lc), entry(cluster, r.right, rank, rc)];
        let a = condensed_below(ws, rows, mcs, r.left, r.left);
        let b = condensed_below(ws, rows, mcs, r.right, r.right);
        assert(cb == head + a + b);
        if side < n {
            assert(below(rows, node, y));
            assert(below(rows, r.left, y) || below(rows, r.right, y));
            assert(below(rows, side, y));
            assert(side == y);
            if in_left {
                assert(cb[0].child == y);
            } else {
                assert(cb[1].child == y);
            }
        } else if in_left {
            lemma_every_bubble_recorded(ws, rows, mcs, r.left, r.left, y);
            lemma_child_in_concat(head, a, y);
            lemma_child_in_concat(b, head + a, y);
        } else {
            lemma_every_bubble_recorded(ws, rows, mcs, r.right, r.right, y);
            lemma_child_in_concat(head + a, b, y);
        }
    } else if lc < mcs && rc < mcs {
        let a = collected(ws, rows, r.left, cluster, rank);
        let b = collected(ws, rows, r.right, cluster, rank);
        assert(cb == a + b);
        if in_left {
            lemma_collected_has_leaves(ws, rows, r.left, cluster, rank, y);
            lemma_child_in_concat(b, a, y);
        } else {
            lemma_collected_has_leaves(ws, rows, r.right, cluster, rank, y);
            lemma_child_in_concat(a, b, y);
        }
    } else {
        let light = if lc < mcs {
            r.left
        } else {
            r.right
        };
        let heavy = if lc < mcs {
            r.right
        } else {
            r.left
        };
        let a = collected(ws, rows, light, cluster, rank);
        let b = if heavy < n {
            collected(ws, rows, heavy, cluster, rank)
        } else {
            condensed_below(ws, rows, mcs, heavy, cluster)
        };
        assert(cb == a + b);
        if below(rows, light, y) {
            lemma_collected_has_leaves(ws, rows, light, cluster, rank, y);
            lemma_child_in_concat(b, a, y);
        } else {
            assert(below(rows, heavy, y));
            if heavy < n {
                lemma_collected_has_leaves(ws, rows, heavy, cluster, rank, y);
            } else {
                lemma_every_bubble_recorded(ws, rows, mcs, heavy, cluster, y);
            }
            lemma_child_in_concat(a, b, y);
        }
    }
}

proof fn lemma_collected_sizes(
    ws: Seq<usize>,
    rows: Seq<LinkageRow>,
    node: usize,
    parent: usize,
    rank: u64,
)
    requires
        linkage_wf(leaf_count(rows), rows),
        is_node(rows, node),
    ensures
        forall|i: int|
            0 <= i < collected(ws, rows, node, parent, rank).len() ==> (#[trigger] collected(
                ws,
                rows,
                node,
                parent,
                rank,
            )[i]).child_size == node_weight(ws, rows, collected(ws, rows, node, parent, rank)[i].child)
                && collected(ws, rows, node, parent, rank)[i].child < leaf_count(rows),
    decreases node,
{
    if node >= leaf_count(rows) {
        let r = rows[node - leaf_count(rows)];
        lemma_collected_sizes(ws, rows, r.left, parent, rank);
        lemma_collected_sizes(ws, rows, r.right, parent, rank);
        let a = collected(ws, rows, r.left, parent, rank);
        let b = collected(ws, rows, r.right, parent, rank);
        assert forall|i: int| 0 <= i < (a + b).len() implies (#[trigger] (a + b)[i]).child_size
            == node_weight(ws, rows, (a + b)[i].child) && (a + b)[i].child < leaf_count(rows) by {
            if i < a.len() {
                assert((a + b)[i] == a[i]);
            } else {
                assert((a + b)[i] == b[i - a.len()]);
            }
        }
    }
}

/// Each entry of the condensed tree records its child's weight, and a child that is a merge
/// (a cluster) weighs at least `mcs`: a lighter side never becomes a cluster.
pub proof fn lemma_cluster_children_are_heavy(
    ws: Seq<usize>,
    rows: Seq<LinkageRow>,
    mcs: usize,
    node: usize,
    cluster: usize,
)
    requires
        linkage_wf(leaf_count(rows), rows),
        is_node(rows, node),
    ensures
        forall|i: int|
            0 <= i < condensed_below(ws, rows, mcs, node, cluster).len() ==> {
                let e = #[trigger] condensed_below(ws, rows, mcs, node, cluster)[i];
                &&& e.child_size == node_weight(ws, rows, e.child)
                &&& e.child >= leaf_count(rows) ==> e.child_size >= mcs
            },
    decreases node,
{
    let n = leaf_count(rows);
    if node >= n {
        let r = rows[node - n];
        let lc = node_weight(ws, rows, r.left);
        let rc = node_weight(ws, rows, r.right);
        let rank = r.distance_rank;
        let cb = condensed_below(ws, rows, mcs, node, cluster);
        lemma_collected_sizes(ws, rows, r.left, cluster, rank);
        lemma_collected_sizes(ws, rows, r.right, cluster, rank);
        if lc >= mcs && rc >= mcs {
            let head = seq![entry(cluster, r.left, rank, lc), entry(cluster, r.right, rank, rc)];
            let a = condensed_below(ws, rows, mcs, r.left, r.left);
            let b = condensed_below(ws, rows, mcs, r.right, r.right);
            lemma_cluster_children_are_heavy(ws, rows, mcs, r.left, r.left);
            lemma_cluster_children_are_heavy(ws, rows, mcs, r.right, r.right);
            assert(cb == head + a + b);
            assert forall|i: int| 0 <= i < cb.len() implies {
                let e = #[trigger] cb[i];
                &&& e.child_size == node_weight(ws, rows, e.child)
                &&& e.child >= n ==> e.child_size >= mcs
            } by {
                if i >= 2 && i < 2 + a.len() {
                    assert(cb[i] == a[i - 2]);
                } else if i >= 2 + a.len() {
                    assert(cb[i] == b[i - 2 - a.len()]);
                }
            }
        } else {
            let (x1, x2) = if lc < mcs {
                (r.left, r.right)
            } else {
                (r.right, r.left)
            };
            let a = collected(ws, rows, x1, cluster, rank);
            let b = if lc < mcs && rc < mcs || x2 < n {
                collected(ws, rows, x2, cluster, rank)
            } else {
                condensed_below(ws, rows, mcs, x2, cluster)
            };
            if !(lc < mcs && rc < mcs || x2 < n) {
                lemma_cluster_children_are_heavy(ws, rows, mcs, x2, cluster);
            }
            assert(cb == a + b);
            assert forall|i: int| 0 <= i < cb.len() implies {
                let e = #[trigger] cb[i];
                &&& e.child_size == node_weight(ws, rows, e.child)
                &&& e.child >= n ==> e.child_size >= mcs
            } by {
                if i < a.len() {
                    assert(cb[i] == a[i]);
                } else {
                    assert(cb[i] == b[i - a.len()]);
                }
            }
        }
    }
}

} // verus!
