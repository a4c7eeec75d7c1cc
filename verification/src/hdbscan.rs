use vstd::prelude::*;

use crate::condense::{condense_tree, condensed_tree};
use crate::dendrogram::{
    is_prim_tree,
    lemma_prim_dendrogram, lemma_prim_stays_inside, lemma_prim_steps_form_tree,
    lemma_prim_stop_separates,
};
use crate::mst::{
    build_mst, infinite_rank, is_square, matrix, prim_step, separating_side, spans_from_first,
    tree_vertices,
};
use crate::linkage::{build_linkage, linkage_row_ok, linkage_wf, usize_weights};
use crate::sort::sorted_by_rank;
use crate::types::{CondensedTreeNode, Edge, LinkageRow};
use crate::union_find::prefix_total;

verus! {

/// Builds the dendrogram of the spanning edges and condenses it; `None` when the edges do not
/// span all `n` leaves (only infinite distances were left to cross).
pub fn condensed_hierarchy(weights: &Vec<usize>, mst: &Vec<Edge>, min_cluster_size: usize) -> (r:
    Option<(Vec<LinkageRow>, Vec<CondensedTreeNode>)>)
    requires
        1 <= weights.len() <= usize::MAX / 2,
        mst.len() <= weights.len(),
        forall|i: int| 0 <= i < mst.len() ==> (#[trigger] mst@[i]).0 < weights.len() && mst@[i].1
            < weights.len(),
        is_prim_tree(weights.len() as int, mst@),
        prefix_total(usize_weights(weights@), weights.len() as nat) <= usize::MAX,
    ensures
        r.is_some() <==> mst.len() + 1 == weights.len(),
        r matches Some(p) ==> {
            &&& p.0.len() == mst.len()
            &&& forall|k: int|
                0 <= k < p.0.len() ==> linkage_row_ok(
                    usize_weights(weights@),
                    sorted_by_rank(mst@),
                    k,
                    #[trigger] p.0@[k],
                )
            &&& linkage_wf(weights.len() as int, p.0@)
            &&& p.1@ == condensed_tree(weights@, p.0@, min_cluster_size)
            &&& forall|i: int|
                0 <= i < p.1.len() ==> (#[trigger] p.1@[i]).parent >= weights.len() && p.1@[i].child
                    < p.1@[i].parent
        },
{
    if mst.len() + 1 != weights.len() {
        return None;
    }
    let linkage = build_linkage(weights, mst);
    let condensed = condense_tree(weights, &linkage, min_cluster_size);
    Some((linkage, condensed))
}

/// The whole hierarchy from the mutual-reachability ranks: Prim's spanning tree from bubble 0,
/// its single-linkage dendrogram and the condensed tree.  `None` exactly when finite
/// reachabilities do not lead from bubble 0 to every bubble (never, when every reachability is
/// finite).  Every merge of the dendrogram joins two different nodes, and the last one weighs
/// all the bubbles.
pub fn hierarchy_from_reachability(
    weights: &Vec<usize>,
    reach: &Vec<Vec<u64>>,
    min_cluster_size: usize,
) -> (r: Option<(Vec<Edge>, Vec<LinkageRow>, Vec<CondensedTreeNode>)>)
    requires
        reach.len() == weights.len(),
        1 <= weights.len() <= usize::MAX / 2,
        is_square(matrix(reach@)),
        prefix_total(usize_weights(weights@), weights.len() as nat) <= usize::MAX,
    ensures
        r is Some <==> spans_from_first(matrix(reach@)),
        (forall|a: int, b: int|
            0 <= a < reach.len() && 0 <= b < reach.len() ==> #[trigger] matrix(reach@)[a][b]
                < infinite_rank()) ==> r is Some,
        r matches Some(h) ==> {
            let n = weights.len() as int;
            let (mst, rows, condensed) = h;
            &&& mst.len() + 1 == n
            &&& forall|k: int|
                0 <= k < mst.len() ==> prim_step(
                    matrix(reach@),
                    tree_vertices(mst@, k),
                    #[trigger] mst@[k],
                )
            &&& rows.len() == mst.len()
            &&& forall|k: int|
                0 <= k < rows.len() ==> linkage_row_ok(
                    usize_weights(weights@),
                    sorted_by_rank(mst@),
                    k,
                    #[trigger] rows@[k],
                )
            &&& linkage_wf(n, rows@)
            &&& forall|k: int| 0 <= k < rows.len() ==> (#[trigger] rows@[k]).left != rows@[k].right
            &&& n >= 2 ==> rows@[n - 2].size == prefix_total(usize_weights(weights@), n as nat)
            &&& condensed@ == condensed_tree(weights@, rows@, min_cluster_size)
            &&& forall|i: int|
                0 <= i < condensed.len() ==> (#[trigger] condensed@[i]).parent >= n
                    && condensed@[i].child < condensed@[i].parent
        },
{
    let mst = build_mst(reach);
    proof {
        lemma_prim_steps_form_tree(matrix(reach@), mst@);
    }
    let r = condensed_hierarchy(weights, &mst, min_cluster_size);
    match r {
        None => {
            proof {
                let m = matrix(reach@);
                lemma_prim_stop_separates(m, mst@);
                let inside = Seq::new(
                    m.len(),
                    |v: int| tree_vertices(mst@, mst.len() as int).contains(v),
                );
                assert(separating_side(m, inside));
            }
            None
        },
        Some((rows, condensed)) => {
            proof {
                let m = matrix(reach@);
                assert forall|inside: Seq<bool>| !#[trigger] separating_side(m, inside) by {
                    if separating_side(m, inside) {
                        lemma_prim_stays_inside(m, mst@, inside);
                    }
                }
                let ws = usize_weights(weights@);
                let n = weights.len() as int;
                lemma_prim_steps_form_tree(matrix(reach@), mst@);
                lemma_prim_dendrogram(ws, mst@);
                assert forall|k: int| 0 <= k < rows.len() implies (#[trigger] rows@[k]).left
                    != rows@[k].right by {
                    assert(linkage_row_ok(ws, sorted_by_rank(mst@), k, rows@[k]));
                }
                if n >= 2 {
                    assert(linkage_row_ok(ws, sorted_by_rank(mst@), n - 2, rows@[n - 2]));
                }
            }
            Some((mst, rows, condensed))
        },
    }
}

/// Entry `k` records a cluster: a merge of the dendrogram (a node id of at least `n`), or a
/// single bubble heavy enough to be a cluster on its own.
pub open spec fn is_cluster_entry(c: Seq<CondensedTreeNode>, n: int, mcs: int, k: int) -> bool {
    c[k].child >= n || c[k].child_size >= mcs
}

/// Entry `k` records a leaf cluster: a cluster that is the parent of no cluster.
pub open spec fn is_leaf_cluster(c: Seq<CondensedTreeNode>, n: int, mcs: int, k: int) -> bool {
    &&& is_cluster_entry(c, n, mcs, k)
    &&& forall|j: int|
        0 <= j < c.len() && (#[trigger] c[j]).parent == c[k].child ==> !is_cluster_entry(
            c,
            n,
            mcs,
            j,
        )
}

/// Number of leaf-cluster entries before entry `k`: the label of the leaf cluster of entry `k`.
pub open spec fn leaf_clusters_before(c: Seq<CondensedTreeNode>, n: int, mcs: int, k: int) -> int
    decreases k,
{
    if k <= 0 {
        0
    } else {
        leaf_clusters_before(c, n, mcs, k - 1) + if is_leaf_cluster(c, n, mcs, k - 1) {
            1int
        } else {
            0int
        }
    }
}

/// The first index in `start..len` that satisfies `p`, or -1.
pub open spec fn first_index(len: int, p: spec_fn(int) -> bool, start: int) -> int
    decreases len - start,
{
    if start >= len {
        -1
    } else if p(start) {
        start
    } else {
        first_index(len, p, start + 1)
    }
}

/// Entries that make bubble `i` a leaf cluster of its own.
pub open spec fn own_leaf(c: Seq<CondensedTreeNode>, n: int, mcs: int, i: int) -> spec_fn(
    int,
) -> bool {
    |k: int| is_leaf_cluster(c, n, mcs, k) && c[k].child == i
}

/// Entries whose child is `x`.
pub open spec fn child_is(c: Seq<CondensedTreeNode>, x: int) -> spec_fn(int) -> bool {
    |k: int| c[k].child == x
}

/// The entry of the leaf cluster that bubble `i` belongs to, or -1: the bubble's own entry when
/// it is a leaf cluster itself, else the leaf-cluster entry of the cluster the bubble first
/// falls out of.
pub open spec fn leaf_home(c: Seq<CondensedTreeNode>, n: int, mcs: int, i: int) -> int {
    let own = first_index(c.len() as int, own_leaf(c, n, mcs, i), 0);
    if own >= 0 {
        own
    } else {
        let f = first_index(c.len() as int, child_is(c, i), 0);
        if f < 0 {
            -1
        } else {
            first_index(c.len() as int, own_leaf(c, n, mcs, c[f].parent as int), 0)
        }
    }
}

/// Label of bubble `i` under leaf selection: leaf clusters are numbered 0, 1, ... in the order
/// of their entries; a bubble under no leaf cluster is noise (-1).
pub open spec fn leaf_label(c: Seq<CondensedTreeNode>, n: int, mcs: int, i: int) -> int {
    let h = leaf_home(c, n, mcs, i);
    if h < 0 {
        -1
    } else {
        leaf_clusters_before(c, n, mcs, h)
    }
}

pub(crate) proof fn lemma_first_index(len: int, p: spec_fn(int) -> bool, start: int, k: int)
    requires
        0 <= start <= k <= len,
        forall|j: int| start <= j < k ==> !#[trigger] p(j),
        k == len || p(k),
    ensures
        first_index(len, p, start) == if k == len {
            -1
        } else {
            k
        },
    decreases k - start,
{
    if start < k {
        lemma_first_index(len, p, start + 1, k);
    }
}

proof fn lemma_leaf_clusters_before_bounds(c: Seq<CondensedTreeNode>, n: int, mcs: int, k: int)
    requires
        0 <= k,
    ensures
        0 <= leaf_clusters_before(c, n, mcs, k) <= k,
    decreases k,
{
    if k > 0 {
        lemma_leaf_clusters_before_bounds(c, n, mcs, k - 1);
    }
}

proof fn lemma_first_index_found(len: int, p: spec_fn(int) -> bool, start: int, k: int)
    requires
        0 <= start <= k < len,
        p(k),
    ensures
        start <= first_index(len, p, start) <= k,
        p(first_index(len, p, start)),
    decreases k - start,
{
    if start < k && !p(start) {
        lemma_first_index_found(len, p, start + 1, k);
    }
}

/// Leaf selection on any condensed tree whose parents are merge nodes: a bubble recorded with
/// weight at least `min_cluster_size` is a cluster of its own, so it is never noise, and the
/// cluster it was split off from has a child cluster and is therefore not a leaf cluster.
pub proof fn lemma_heavy_bubble_is_leaf_cluster(
    c: Seq<CondensedTreeNode>,
    n: int,
    mcs: int,
    k: int,
)
    requires
        0 <= k < c.len(),
        0 <= c[k].child < n,
        c[k].child_size >= mcs,
        forall|j: int| 0 <= j < c.len() ==> (#[trigger] c[j]).parent >= n,
    ensures
        leaf_label(c, n, mcs, c[k].child as int) >= 0,
        forall|j: int|
            0 <= j < c.len() && (#[trigger] c[j]).child == c[k].parent ==> !is_leaf_cluster(
                c,
                n,
                mcs,
                j,
            ),
{
    let i = c[k].child as int;
    assert forall|j: int|
        0 <= j < c.len() && (#[trigger] c[j]).parent == c[k].child implies !is_cluster_entry(
        c,
        n,
        mcs,
        j,
    ) by {}
    assert(is_leaf_cluster(c, n, mcs, k));
    let p = own_leaf(c, n, mcs, i);
    assert(p(k));
    lemma_first_index_found(c.len() as int, p, 0, k);
    let h = first_index(c.len() as int, p, 0);
    assert(leaf_home(c, n, mcs, i) == h);
    lemma_leaf_clusters_before_bounds(c, n, mcs, h);
    assert forall|j: int|
        0 <= j < c.len() && (#[trigger] c[j]).child == c[k].parent implies !is_leaf_cluster(
        c,
        n,
        mcs,
        j,
    ) by {
        assert(c[k].parent == c[j].child);
        assert(is_cluster_entry(c, n, mcs, k));
    }
}

proof fn lemma_leaf_clusters_before_grows(c: Seq<CondensedTreeNode>, n: int, mcs: int, a: int, b: int)
    requires
        0 <= a < b,
        is_leaf_cluster(c, n, mcs, a),
    ensures
        leaf_clusters_before(c, n, mcs, a) < leaf_clusters_before(c, n, mcs, b),
    decreases b - a,
{
    if b > a + 1 {
        lemma_leaf_clusters_before_grows(c, n, mcs, a, b - 1);
        lemma_leaf_clusters_before_bounds(c, n, mcs, b - 1);
    }
}

/// Two different bubbles, each recorded with weight at least `min_cluster_size`, are two
/// different leaf clusters: their labels differ.
pub proof fn lemma_heavy_bubbles_get_different_labels(
    c: Seq<CondensedTreeNode>,
    n: int,
    mcs: int,
    k1: int,
    k2: int,
)
    requires
        0 <= k1 < c.len(),
        0 <= k2 < c.len(),
        0 <= c[k1].child < n,
        0 <= c[k2].child < n,
        c[k1].child != c[k2].child,
        c[k1].child_size >= mcs,
        c[k2].child_size >= mcs,
        forall|j: int| 0 <= j < c.len() ==> (#[trigger] c[j]).parent >= n,
    ensures
        leaf_label(c, n, mcs, c[k1].child as int) != leaf_label(c, n, mcs, c[k2].child as int),
{
    let i1 = c[k1].child as int;
    let i2 = c[k2].child as int;
    lemma_heavy_bubble_is_leaf_cluster(c, n, mcs, k1);
    lemma_heavy_bubble_is_leaf_cluster(c, n, mcs, k2);
    assert forall|j: int|
        0 <= j < c.len() && (#[trigger] c[j]).parent == c[k1].child implies !is_cluster_entry(
        c,
        n,
        mcs,
        j,
    ) by {}
    assert forall|j: int|
        0 <= j < c.len() && (#[trigger] c[j]).parent == c[k2].child implies !is_cluster_entry(
        c,
        n,
        mcs,
        j,
    ) by {}
    let p1 = own_leaf(c, n, mcs, i1);
    let p2 = own_leaf(c, n, mcs, i2);
    assert(p1(k1));
    assert(p2(k2));
    lemma_first_index_found(c.len() as int, p1, 0, k1);
    lemma_first_index_found(c.len() as int, p2, 0, k2);
    let h1 = first_index(c.len() as int, p1, 0);
    let h2 = first_index(c.len() as int, p2, 0);
    assert(leaf_home(c, n, mcs, i1) == h1);
    assert(leaf_home(c, n, mcs, i2) == h2);
    assert(h1 != h2);
    if h1 < h2 {
        lemma_leaf_clusters_before_grows(c, n, mcs, h1, h2);
    } else {
        lemma_leaf_clusters_before_grows(c, n, mcs, h2, h1);
    }
}

proof fn lemma_label_through_parent(c: Seq<CondensedTreeNode>, n: int, mcs: int, k: int)
    requires
        0 <= k < c.len(),
        0 <= c[k].child < n,
        c[k].child_size < mcs,
        forall|j: int| 0 <= j < c.len() && (#[trigger] c[j]).child == c[k].child ==> j == k,
    ensures
        leaf_home(c, n, mcs, c[k].child as int) == first_index(
            c.len() as int,
            own_leaf(c, n, mcs, c[k].parent as int),
            0,
        ),
{
    let i = c[k].child as int;
    let len = c.len() as int;
    let p = own_leaf(c, n, mcs, i);
    assert forall|j: int| 0 <= j < len implies !#[trigger] p(j) by {
        if p(j) {
            assert(c[j].child == i);
            assert(j == k);
        }
    }
    lemma_first_index(len, p, 0, len);
    let q = child_is(c, i);
    assert forall|j: int| 0 <= j < k implies !#[trigger] q(j) by {
        if q(j) {
            assert(j == k);
        }
    }
    lemma_first_index(len, q, 0, k);
}

/// Two bubbles that fall out of the same cluster, each recorded once and too light to be a
/// cluster of their own, get the same label; when that cluster is a leaf cluster, the label is
/// not noise.
pub proof fn lemma_bubbles_of_one_cluster_share_label(
    c: Seq<CondensedTreeNode>,
    n: int,
    mcs: int,
    k1: int,
    k2: int,
)
    requires
        0 <= k1 < c.len(),
        0 <= k2 < c.len(),
        0 <= c[k1].child < n,
        0 <= c[k2].child < n,
        c[k1].child_size < mcs,
        c[k2].child_size < mcs,
        c[k1].parent == c[k2].parent,
        forall|j: int| 0 <= j < c.len() && (#[trigger] c[j]).child == c[k1].child ==> j == k1,
        forall|j: int| 0 <= j < c.len() && (#[trigger] c[j]).child == c[k2].child ==> j == k2,
    ensures
        leaf_label(c, n, mcs, c[k1].child as int) == leaf_label(c, n, mcs, c[k2].child as int),
        (exists|j: int|
            0 <= j < c.len() && (#[trigger] c[j]).child == c[k1].parent && is_leaf_cluster(
                c,
                n,
                mcs,
                j,
            )) ==> leaf_label(c, n, mcs, c[k1].child as int) >= 0,
{
    lemma_label_through_parent(c, n, mcs, k1);
    lemma_label_through_parent(c, n, mcs, k2);
    let pp = own_leaf(c, n, mcs, c[k1].parent as int);
    if exists|j: int| 0 <= j < c.len() && (#[trigger] c[j]).child == c[k1].parent && is_leaf_cluster(
        c,
        n,
        mcs,
        j,
    ) {
        let j = choose|j: int|
            0 <= j < c.len() && (#[trigger] c[j]).child == c[k1].parent && is_leaf_cluster(
                c,
                n,
                mcs,
                j,
            );
        assert(pp(j));
        lemma_first_index_found(c.len() as int, pp, 0, j);
        lemma_leaf_clusters_before_bounds(c, n, mcs, first_index(c.len() as int, pp, 0));
    }
}

/// First entry index that is a leaf cluster with child `x`, or the length.
fn find_leaf_entry(condensed: &Vec<CondensedTreeNode>, is_leaf: &Vec<bool>, x: usize) -> (r: usize)
    requires
        is_leaf.len() == condensed.len(),
    ensures
        r <= condensed.len(),
        forall|j: int| 0 <= j < r ==> !(is_leaf@[j] && condensed@[j].child == x),
        r < condensed.len() ==> is_leaf@[r as int] && condensed@[r as int].child == x,
{
    let mut k: usize = 0;
    while k < condensed.len()
        invariant
            is_leaf.len() == condensed.len(),
            k <= condensed.len(),
            forall|j: int| 0 <= j < k ==> !(is_leaf@[j] && condensed@[j].child == x),
        decreases condensed.len() - k,
    {
        if is_leaf[k] && condensed[k].child == x {
            return k;
        }
        k = k + 1;
    }
    k
}

/// Leaf selection: the clusters are the leaf clusters of the condensed tree (cluster entries
/// that are the parent of no cluster; a single bubble counts as a cluster when its weight is
/// at least `min_cluster_size`).  They are labelled 0, 1, ... in the order of their entries;
/// each bubble takes the label of the leaf cluster it falls out of (or that it is), and every
/// other bubble is noise (-1).
pub fn extract_clusters_leaf(
    condensed: &Vec<CondensedTreeNode>,
    n: usize,
    min_cluster_size: usize,
) -> (labels: Vec<i32>)
    requires
        condensed.len() <= i32::MAX,
    ensures
        labels.len() == n,
        forall|i: int|
            0 <= i < n ==> labels@[i] as int == leaf_label(
                condensed@,
                n as int,
                min_cluster_size as int,
                i,
            ),
{
    let ghost c = condensed@;
    let ghost nn = n as int;
    let ghost mcs = min_cluster_size as int;
    let len = condensed.len();
    let mut is_cluster: Vec<bool> = Vec::new();
    let mut k: usize = 0;
    while k < len
        invariant
            len == condensed.len(),
            c == condensed@,
            nn == n,
            mcs == min_cluster_size,
            k <= len,
            is_cluster.len() == k,
            forall|j: int| 0 <= j < k ==> is_cluster@[j] == is_cluster_entry(c, nn, mcs, j),
        decreases len - k,
    {
        let e = condensed[k];
        is_cluster.push(e.child >= n || e.child_size >= min_cluster_size);
        k = k + 1;
    }
    let mut is_leaf: Vec<bool> = Vec::new();
    let mut before: Vec<i32> = Vec::new();
    let mut count: i32 = 0;
    let mut k: usize = 0;
    while k < len
        invariant
            len == condensed.len(),
            len <= i32::MAX,
            c == condensed@,
            nn == n,
            mcs == min_cluster_size,
            is_cluster.len() == len,
            forall|j: int| 0 <= j < len ==> is_cluster@[j] == is_cluster_entry(c, nn, mcs, j),
            k <= len,
            is_leaf.len() == k,
            before.len() == k,
            count as int == leaf_clusters_before(c, nn, mcs, k as int),
            forall|j: int| 0 <= j < k ==> is_leaf@[j] == is_leaf_cluster(c, nn, mcs, j),
            forall|j: int|
                0 <= j < k ==> before@[j] as int == leaf_clusters_before(c, nn, mcs, j),
        decreases len - k,
    {
        proof {
            lemma_leaf_clusters_before_bounds(c, nn, mcs, k as int);
        }
        let mut leaf = is_cluster[k];
        if leaf {
            let x = condensed[k].child;
            let mut j: usize = 0;
            while j < len
                invariant
                    len == condensed.len(),
                    c == condensed@,
                    nn == n,
                    mcs == min_cluster_size,
                    is_cluster.len() == len,
                    forall|q: int| 0 <= q < len ==> is_cluster@[q] == is_cluster_entry(c, nn, mcs, q),
                    k < len,
                    x == c[k as int].child,
                    j <= len,
                    leaf ==> forall|q: int|
                        0 <= q < j && (#[trigger] c[q]).parent == x ==> !is_cluster_entry(
                            c,
                            nn,
                            mcs,
                            q,
                        ),
                    !leaf ==> !is_leaf_cluster(c, nn, mcs, k as int),
                decreases len - j,
            {
                if condensed[j].parent == x && is_cluster[j] {
                    leaf = false;
                    assert(c[j as int].parent == c[k as int].child);
                }
                j = j + 1;
            }
        }
        is_leaf.push(leaf);
        before.push(count);
        if leaf {
            count = count + 1;
        }
        k = k + 1;
    }
    let mut labels: Vec<i32> = Vec::new();
    let mut i: usize = 0;
    while i < n
        invariant
            len == condensed.len(),
            c == condensed@,
            nn == n,
            mcs == min_cluster_size,
            is_leaf.len() == len,
            before.len() == len,
            forall|j: int| 0 <= j < len ==> is_leaf@[j] == is_leaf_cluster(c, nn, mcs, j),
            forall|j: int|
                0 <= j < len ==> before@[j] as int == leaf_clusters_before(c, nn, mcs, j),
            i <= n,
            labels.len() == i,
            forall|x: int| 0 <= x < i ==> labels@[x] as int == leaf_label(c, nn, mcs, x),
        decreases n - i,
    {
        let own = find_leaf_entry(condensed, &is_leaf, i);
        proof {
            let p = own_leaf(c, nn, mcs, i as int);
            assert forall|j: int| 0 <= j < own implies !#[trigger] p(j) by {
                assert(!(is_leaf@[j] && condensed@[j].child == i));
            }
            lemma_first_index(len as int, p, 0, own as int);
        }
        if own < len {
            labels.push(before[own]);
        } else {
            let mut f: usize = 0;
            while f < len && condensed[f].child != i
                invariant
                    len == condensed.len(),
                    f <= len,
                    forall|j: int| 0 <= j < f ==> condensed@[j].child != i,
                decreases len - f,
            {
                f = f + 1;
            }
            proof {
                lemma_first_index(len as int, child_is(c, i as int), 0, f as int);
            }
            if f == len {
                labels.push(-1);
            } else {
                let h = find_leaf_entry(condensed, &is_leaf, condensed[f].parent);
                proof {
                    let p = own_leaf(c, nn, mcs, c[f as int].parent as int);
                    assert forall|j: int| 0 <= j < h implies !#[trigger] p(j) by {
                        assert(!(is_leaf@[j] && condensed@[j].child == condensed@[f as int].parent));
                    }
                    lemma_first_index(len as int, p, 0, h as int);
                }
                if h < len {
                    labels.push(before[h]);
                } else {
                    labels.push(-1);
                }
            }
        }
        i = i + 1;
    }
    labels
}

/// The largest non-negative label of `labels`, or -1 when there is none.
pub open spec fn max_label(labels: Seq<i32>) -> int
    decreases labels.len(),
{
    if labels.len() == 0 {
        -1
    } else {
        let m = max_label(labels.drop_last());
        if labels.last() > m {
            labels.last() as int
        } else {
            m
        }
    }
}

proof fn lemma_max_label_bounds(labels: Seq<i32>)
    ensures
        -1 <= max_label(labels) <= i32::MAX,
    decreases labels.len(),
{
    if labels.len() > 0 {
        lemma_max_label_bounds(labels.drop_last());
    }
}

/// Number of clusters: one more than the largest non-negative label, or 0 if every bubble is
/// noise.
pub fn count_clusters(labels: &Vec<i32>) -> (count: usize)
    ensures
        count == max_label(labels@) + 1,
{
    let mut best: i32 = -1;
    let mut i: usize = 0;
    while i < labels.len()
        invariant
            i <= labels.len(),
            best == max_label(labels@.take(i as int)),
        decreases labels.len() - i,
    {
        proof {
            assert(labels@.take(i + 1).drop_last() =~= labels@.take(i as int));
        }
        if labels[i] > best {
            best = labels[i];
        }
        i = i + 1;
    }
    proof {
        assert(labels@.take(labels.len() as int) =~= labels@);
        lemma_max_label_bounds(labels@);
    }
    if best < 0 {
        0
    } else {
        (best as usize) + 1
    }
}

} // verus!
