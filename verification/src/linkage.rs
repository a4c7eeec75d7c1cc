use vstd::prelude::*;

use crate::dendrogram::{is_prim_tree, lemma_prim_dendrogram};
use crate::sort::{lemma_sorted_by_rank_is_sorted_permutation, sort_edges_by_rank, sorted_by_rank};
use crate::types::{Edge, LinkageRow};
use crate::union_find::{
    component_total, lemma_component_total_agree, lemma_component_total_prefix_weights,
    lemma_component_total_zero_tail, lemma_find_idempotent, lemma_two_components_bounded,
    merged_roots, prefix_total, UnionFind,
};

verus! {

/// The dendrogram node that holds leaf `x` once the first `k` edges have been merged:
/// merging edge `k - 1` creates node `n + k - 1` above the nodes of both its endpoints.
pub open spec fn node_of(n: int, edges: Seq<Edge>, k: nat, x: int) -> int
    decreases k,
{
    if k == 0 {
        x
    } else {
        let prev = node_of(n, edges, (k - 1) as nat, x);
        let e = edges[k - 1];
        if prev == node_of(n, edges, (k - 1) as nat, e.0 as int) || prev == node_of(
            n,
            edges,
            (k - 1) as nat,
            e.1 as int,
        ) {
            n + k - 1
        } else {
            prev
        }
    }
}

/// The nodes of all leaves after `k` merges.
pub open spec fn nodes_after(n: int, edges: Seq<Edge>, k: nat) -> Seq<int> {
    Seq::new(n as nat, |x: int| node_of(n, edges, k, x))
}

/// Total leaf weight under `node` after `k` merges.
pub open spec fn weight_under(ws: Seq<int>, edges: Seq<Edge>, k: nat, node: int) -> int {
    component_total(ws, nodes_after(ws.len() as int, edges, k), node, ws.len())
}

/// Row `k` of the single-linkage dendrogram of `edges` (already in merge order) over leaves
/// with weights `ws`.
pub open spec fn linkage_row_ok(ws: Seq<int>, edges: Seq<Edge>, k: int, row: LinkageRow) -> bool {
    let n = ws.len() as int;
    let e = edges[k];
    let left = node_of(n, edges, k as nat, e.0 as int);
    let right = node_of(n, edges, k as nat, e.1 as int);
    &&& row.left as int == left
    &&& row.right as int == right
    &&& row.distance_rank == e.2
    &&& row.size as int == weight_under(ws, edges, k as nat, left) + weight_under(
        ws,
        edges,
        k as nat,
        right,
    )
}

/// Every row only refers to leaves and to nodes created by earlier rows.
pub open spec fn linkage_wf(n: int, rows: Seq<LinkageRow>) -> bool {
    forall|k: int|
        0 <= k < rows.len() ==> (#[trigger] rows[k]).left < n + k && rows[k].right < n + k
}

/// Leaf weights as integers.
pub open spec fn usize_weights(ws: Seq<usize>) -> Seq<int> {
    ws.map_values(|w: usize| w as int)
}

/// A leaf's node is the leaf itself until it is first merged, and then a node created so far.
pub proof fn lemma_node_of_bounds(n: int, edges: Seq<Edge>, k: nat, x: int)
    requires
        0 <= x < n,
        k <= edges.len(),
    ensures
        0 <= node_of(n, edges, k, x) < n + k,
        node_of(n, edges, k, x) < n ==> node_of(n, edges, k, x) == x,
    decreases k,
{
    if k > 0 {
        lemma_node_of_bounds(n, edges, (k - 1) as nat, x);
    }
}

proof fn lemma_prefix_total_zero_tail(ws: Seq<int>, k: nat, m: nat)
    requires
        k <= m,
        m <= ws.len(),
        forall|i: int| k <= i < m ==> ws[i] == 0,
    ensures
        prefix_total(ws, m) == prefix_total(ws, k),
    decreases m,
{
    if m > k {
        lemma_prefix_total_zero_tail(ws, k, (m - 1) as nat);
    }
}

proof fn lemma_prefix_total_agree(ws1: Seq<int>, ws2: Seq<int>, k: nat)
    requires
        k <= ws1.len(),
        k <= ws2.len(),
        forall|i: int| 0 <= i < k ==> ws1[i] == ws2[i],
    ensures
        prefix_total(ws1, k) == prefix_total(ws2, k),
    decreases k,
{
    if k > 0 {
        lemma_prefix_total_agree(ws1, ws2, (k - 1) as nat);
    }
}

/// Builds the single-linkage dendrogram: the edges are merged in order of rank (equal ranks
/// in input order), and merge `k` creates node `n + k` over the current nodes of the edge's
/// two endpoints, recording their combined leaf weight.
pub fn build_linkage(weights: &Vec<usize>, mst: &Vec<Edge>) -> (linkage: Vec<LinkageRow>)
    requires
        1 <= weights.len() <= usize::MAX / 2,
        mst.len() <= weights.len(),
        forall|i: int| 0 <= i < mst.len() ==> (#[trigger] mst@[i]).0 < weights.len() && mst@[i].1
            < weights.len(),
        is_prim_tree(weights.len() as int, mst@),
        prefix_total(usize_weights(weights@), weights.len() as nat) <= usize::MAX,
    ensures
        linkage.len() == mst.len(),
        forall|k: int|
            0 <= k < linkage.len() ==> linkage_row_ok(
                usize_weights(weights@),
                sorted_by_rank(mst@),
                k,
                #[trigger] linkage@[k],
            ),
        linkage_wf(weights.len() as int, linkage@),
{
    let n = weights.len();
    let ghost ws = usize_weights(weights@);
    let sorted_mst = sort_edges_by_rank(mst);
    let ghost s = sorted_mst@;
    proof {
        lemma_prim_dendrogram(ws, mst@);
        lemma_sorted_by_rank_is_sorted_permutation(mst@);
        assert forall|i: int| 0 <= i < s.len() implies (#[trigger] s[i]).0 < n && s[i].1 < n by {
            s.to_multiset_ensures();
            assert(s.contains(s[i]));
            assert(s.to_multiset().count(s[i]) > 0);
            assert(mst@.to_multiset().count(s[i]) > 0);
            mst@.to_multiset_ensures();
            assert(mst@.contains(s[i]));
        }
    }
    let mut wts: Vec<usize> = Vec::new();
    let mut i: usize = 0;
    while i < 2 * n
        invariant
            n == weights.len(),
            n <= usize::MAX / 2,
            i <= 2 * n,
            wts@.len() == i,
            forall|x: int| 0 <= x < i && x < n ==> wts@[x] == weights@[x],
            forall|x: int| n <= x < i ==> wts@[x] == 0,
        decreases 2 * n - i,
    {
        if i < n {
            wts.push(weights[i]);
        } else {
            wts.push(0);
        }
        i = i + 1;
    }
    let ghost w2 = usize_weights(wts@);
    proof {
        lemma_prefix_total_zero_tail(w2, n as nat, (2 * n) as nat);
        lemma_prefix_total_agree(w2, ws, n as nat);
    }
    let mut uf = UnionFind::new(2 * n, wts.as_slice());
    let mut linkage: Vec<LinkageRow> = Vec::new();
    let mut k: usize = 0;
    while k < sorted_mst.len()
        invariant
            n == weights.len(),
            1 <= n <= usize::MAX / 2,
            ws == usize_weights(weights@),
            s == sorted_mst@,
            s == sorted_by_rank(mst@),
            s.len() == mst.len(),
            s.len() <= n,
            forall|i: int| 0 <= i < s.len() ==> (#[trigger] s[i]).0 < n && s[i].1 < n,
            prefix_total(ws, n as nat) <= usize::MAX,
            forall|j: int|
                0 <= j < s.len() ==> node_of(n as int, s, j as nat, (#[trigger] s[j]).0 as int)
                    != node_of(n as int, s, j as nat, s[j].1 as int),
            w2.len() == 2 * n,
            forall|x: int| 0 <= x < n ==> w2[x] == ws[x],
            forall|x: int| n <= x < 2 * n ==> w2[x] == 0,
            k <= s.len(),
            uf.wf(),
            uf.len() == 2 * n,
            uf.initial_weights() == w2,
            forall|x: int| 0 <= x < n ==> uf.roots()[x] == node_of(n as int, s, k as nat, x),
            forall|l: int| n + k <= l < 2 * n ==> uf.roots()[l] == l,
            linkage@.len() == k,
            forall|j: int|
                0 <= j < k ==> linkage_row_ok(ws, s, j, #[trigger] linkage@[j]),
            linkage_wf(n as int, linkage@),
        decreases s.len() - k,
    {
        let (u, v, dist) = sorted_mst[k];
        let next_label = n + k;
        let ghost r0 = uf.roots();
        proof {
            uf.lemma_lengths();
            lemma_node_of_bounds(n as int, s, k as nat, u as int);
            lemma_node_of_bounds(n as int, s, k as nat, v as int);
        }
        let left = uf.find(u);
        let right = uf.find(v);
        proof {
            lemma_find_idempotent(&uf, u as int);
            lemma_find_idempotent(&uf, v as int);
        }
        let left_weight = uf.component_weight(left);
        let right_weight = uf.component_weight(right);
        let ghost nodes = nodes_after(n as int, s, k as nat);
        proof {
            let nn = (2 * n) as nat;
            lemma_component_total_zero_tail(w2, r0, left as int, n as nat, nn);
            lemma_component_total_zero_tail(w2, r0, right as int, n as nat, nn);
            lemma_component_total_prefix_weights(w2, ws, r0, left as int, n as nat);
            lemma_component_total_prefix_weights(w2, ws, r0, right as int, n as nat);
            lemma_component_total_agree(ws, r0, nodes, left as int, n as nat);
            lemma_component_total_agree(ws, r0, nodes, right as int, n as nat);
            lemma_two_components_bounded(ws, nodes, left as int, left as int + 1, n as nat);
            lemma_two_components_bounded(ws, nodes, right as int, right as int + 1, n as nat);
            assert(node_of(n as int, s, k as nat, s[k as int].0 as int) != node_of(
                n as int,
                s,
                k as nat,
                s[k as int].1 as int,
            ));
            lemma_two_components_bounded(ws, nodes, left as int, right as int, n as nat);
        }
        uf.union_to_parent(left, next_label);
        let ghost r1 = uf.roots();
        uf.union_to_parent(right, next_label);
        let ghost r2 = uf.roots();
        let row = LinkageRow {
            left,
            right,
            distance_rank: dist,
            size: left_weight + right_weight,
        };
        linkage.push(row);
        proof {
            assert(r1 == merged_roots(r0, left as int, next_label as int));
            assert(r1[next_label as int] == next_label as int);
            assert forall|x: int| 0 <= x < n implies uf.roots()[x] == node_of(
                n as int,
                s,
                (k + 1) as nat,
                x,
            ) by {
                assert(r0[x] == node_of(n as int, s, k as nat, x));
                lemma_node_of_bounds(n as int, s, k as nat, x);
            }
            assert forall|l: int| n + k + 1 <= l < 2 * n implies uf.roots()[l] == l by {
                assert(r0[l] == l);
            }
            assert(linkage_row_ok(ws, s, k as int, row));
            assert forall|j: int| 0 <= j < k + 1 implies linkage_row_ok(
                ws,
                s,
                j,
                #[trigger] linkage@[j],
            ) by {}
            assert(linkage_wf(n as int, linkage@));
        }
        k = k + 1;
    }
    linkage
}

} // verus!
