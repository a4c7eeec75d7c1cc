use vstd::prelude::*;

use crate::linkage::{lemma_node_of_bounds, node_of, nodes_after, weight_under};
use crate::mst::{infinite_rank, lemma_vertex_outside, prim_step, separating_side, tree_vertices};
use crate::sort::{lemma_sorted_by_rank_is_sorted_permutation, sorted_by_rank};
use crate::types::Edge;
use crate::union_find::{component_total, prefix_total};

verus! {

/// The edges grow a tree from vertex 0: each edge joins a vertex already in the tree to a new
/// vertex below `n`.
pub open spec fn is_prim_tree(n: int, mst: Seq<Edge>) -> bool {
    forall|k: int|
        0 <= k < mst.len() ==> {
            &&& ((#[trigger] mst[k]).1 as int) < n
            &&& (mst[k].0 as int) < n
            &&& !tree_vertices(mst, k).contains(mst[k].1 as int)
            &&& tree_vertices(mst, k).contains(mst[k].0 as int)
        }
}

/// Vertex `x` was added to the tree by some edge.
pub open spec fn has_edge(mst: Seq<Edge>, x: int) -> bool {
    exists|i: int| 0 <= i < mst.len() && (#[trigger] mst[i]).1 as int == x
}

/// The edge that added `x` to the tree.
pub open spec fn edge_index(mst: Seq<Edge>, x: int) -> int {
    choose|i: int| 0 <= i < mst.len() && (#[trigger] mst[i]).1 as int == x
}

/// When `x` joined the tree: 0 for the start vertex, `i + 1` when edge `i` added it.
pub open spec fn join_order(mst: Seq<Edge>, x: int) -> nat {
    if has_edge(mst, x) {
        (edge_index(mst, x) + 1) as nat
    } else {
        0
    }
}

/// The tree vertex that `x` was attached to.
pub open spec fn tree_parent(mst: Seq<Edge>, x: int) -> int {
    mst[edge_index(mst, x)].0 as int
}

/// A tree vertex is vertex 0 or was added by an earlier edge.
pub proof fn lemma_tree_vertex(mst: Seq<Edge>, k: int, a: int)
    requires
        0 <= k <= mst.len(),
        tree_vertices(mst, k).contains(a),
    ensures
        a == 0 || exists|i: int| 0 <= i < k && (#[trigger] mst[i]).1 as int == a,
{
    let t = tree_vertices(mst, k);
    let j = choose|j: int| 0 <= j < t.len() && t[j] == a;
    if j > 0 {
        assert(mst[j - 1].1 as int == a);
    }
}

/// Each edge adds a different vertex, and never vertex 0.
pub proof fn lemma_new_vertices_distinct(n: int, mst: Seq<Edge>)
    requires
        is_prim_tree(n, mst),
    ensures
        forall|i: int, j: int|
            0 <= i < mst.len() && 0 <= j < mst.len() && i != j ==> (#[trigger] mst[i]).1 != (
            #[trigger] mst[j]).1,
        forall|i: int| 0 <= i < mst.len() ==> (#[trigger] mst[i]).1 != 0,
{
    assert forall|i: int, j: int|
        0 <= i < mst.len() && 0 <= j < mst.len() && i != j implies (#[trigger] mst[i]).1 != (
        #[trigger] mst[j]).1 by {
        if i < j {
            assert(tree_vertices(mst, j)[i + 1] == mst[i].1 as int);
            assert(tree_vertices(mst, j).contains(mst[i].1 as int));
        } else {
            assert(tree_vertices(mst, i)[j + 1] == mst[j].1 as int);
            assert(tree_vertices(mst, i).contains(mst[j].1 as int));
        }
    }
    assert forall|i: int| 0 <= i < mst.len() implies (#[trigger] mst[i]).1 != 0 by {
        assert(tree_vertices(mst, i)[0] == 0);
        assert(tree_vertices(mst, i).contains(0));
    }
}

/// The edge that added a vertex is the only edge that did.
pub proof fn lemma_edge_index(n: int, mst: Seq<Edge>, i: int)
    requires
        is_prim_tree(n, mst),
        0 <= i < mst.len(),
    ensures
        has_edge(mst, mst[i].1 as int),
        edge_index(mst, mst[i].1 as int) == i,
        join_order(mst, mst[i].1 as int) == i + 1,
        tree_parent(mst, mst[i].1 as int) == mst[i].0 as int,
{
    lemma_new_vertices_distinct(n, mst);
    assert(has_edge(mst, mst[i].1 as int));
}

/// A vertex joined the tree after the vertex it was attached to.
pub proof fn lemma_parent_order(n: int, mst: Seq<Edge>, x: int)
    requires
        is_prim_tree(n, mst),
        has_edge(mst, x),
    ensures
        join_order(mst, tree_parent(mst, x)) < join_order(mst, x),
        0 <= tree_parent(mst, x) < n,
{
    let i = edge_index(mst, x);
    let p = mst[i].0 as int;
    lemma_new_vertices_distinct(n, mst);
    lemma_tree_vertex(mst, i, p);
    if p == 0 {
        if has_edge(mst, 0) {
            let j = choose|j: int| 0 <= j < mst.len() && (#[trigger] mst[j]).1 as int == 0;
        }
    } else {
        let i2 = choose|i2: int| 0 <= i2 < i && (#[trigger] mst[i2]).1 as int == p;
        lemma_edge_index(n, mst, i2);
    }
}

/// Following the tree edges of the already merged vertices upwards from `x`: the vertex where
/// the walk stops names the merged component of `x`.
pub open spec fn head(n: int, mst: Seq<Edge>, merged: Set<int>, x: int) -> int
    decreases join_order(mst, x),
    when is_prim_tree(n, mst)
{
    if merged.contains(x) && has_edge(mst, x) {
        proof {
            lemma_parent_order(n, mst, x);
        }
        head(n, mst, merged, tree_parent(mst, x))
    } else {
        x
    }
}

proof fn lemma_head_order(n: int, mst: Seq<Edge>, merged: Set<int>, x: int)
    requires
        is_prim_tree(n, mst),
    ensures
        join_order(mst, head(n, mst, merged, x)) <= join_order(mst, x),
    decreases join_order(mst, x),
{
    if merged.contains(x) && has_edge(mst, x) {
        lemma_parent_order(n, mst, x);
        lemma_head_order(n, mst, merged, tree_parent(mst, x));
    }
}

proof fn lemma_head_extend(n: int, mst: Seq<Edge>, merged: Set<int>, v: int, p: int, x: int)
    requires
        is_prim_tree(n, mst),
        has_edge(mst, v),
        tree_parent(mst, v) == p,
        !merged.contains(v),
        head(n, mst, merged, p) != v,
    ensures
        head(n, mst, merged.insert(v), x) == if head(n, mst, merged, x) == v {
            head(n, mst, merged, p)
        } else {
            head(n, mst, merged, x)
        },
    decreases join_order(mst, x),
{
    let m2 = merged.insert(v);
    if m2.contains(x) && has_edge(mst, x) {
        lemma_parent_order(n, mst, x);
        lemma_head_extend(n, mst, merged, v, p, tree_parent(mst, x));
    }
}

/// The vertices added by the first `k` edges of `s`.
pub open spec fn merged_after(s: Seq<Edge>, k: int) -> Set<int> {
    Set::new(|x: int| exists|j: int| 0 <= j < k && (#[trigger] s[j]).1 as int == x)
}

/// The rank order of a tree's edges holds the same edges, each adding a different vertex.
proof fn lemma_sorted_tree_edges(n: int, mst: Seq<Edge>)
    requires
        is_prim_tree(n, mst),
    ensures
        sorted_by_rank(mst).len() == mst.len(),
        forall|j: int|
            0 <= j < mst.len() ==> exists|i: int|
                0 <= i < mst.len() && mst[i] == #[trigger] sorted_by_rank(mst)[j],
        forall|j1: int, j2: int|
            0 <= j1 < mst.len() && 0 <= j2 < mst.len() && j1 != j2 ==> (
            #[trigger] sorted_by_rank(mst)[j1]).1 != (#[trigger] sorted_by_rank(mst)[j2]).1,
{
    let s = sorted_by_rank(mst);
    lemma_sorted_by_rank_is_sorted_permutation(mst);
    lemma_new_vertices_distinct(n, mst);
    s.to_multiset_ensures();
    mst.to_multiset_ensures();
    assert forall|j: int| 0 <= j < mst.len() implies exists|i: int|
        0 <= i < mst.len() && mst[i] == #[trigger] s[j] by {
        assert(s.contains(s[j]));
        assert(mst.to_multiset().count(s[j]) > 0);
        assert(mst.contains(s[j]));
    }
    assert(mst.no_duplicates()) by {
        assert forall|a: int, b: int|
            0 <= a < mst.len() && 0 <= b < mst.len() && a != b implies mst[a] != mst[b] by {
            assert(mst[a].1 != mst[b].1);
        }
    }
    mst.lemma_multiset_has_no_duplicates();
    s.lemma_multiset_has_no_duplicates_conv();
    assert forall|j1: int, j2: int|
        0 <= j1 < mst.len() && 0 <= j2 < mst.len() && j1 != j2 implies (#[trigger] s[j1]).1 != (
        #[trigger] s[j2]).1 by {
        let i1 = choose|i: int| 0 <= i < mst.len() && mst[i] == s[j1];
        let i2 = choose|i: int| 0 <= i < mst.len() && mst[i] == s[j2];
        if i1 != i2 {
            assert(mst[i1].1 != mst[i2].1);
        }
    }
}

/// Two leaves share a dendrogram node after `k` merges exactly when their walks along merged
/// tree edges stop at the same vertex.
pub open spec fn nodes_track_heads(n: int, mst: Seq<Edge>, k: int) -> bool {
    forall|x: int, y: int|
        0 <= x < n && 0 <= y < n ==> ((#[trigger] node_of(n, sorted_by_rank(mst), k as nat, x)
            == #[trigger] node_of(n, sorted_by_rank(mst), k as nat, y)) <==> (head(
            n,
            mst,
            merged_after(sorted_by_rank(mst), k),
            x,
        ) == head(n, mst, merged_after(sorted_by_rank(mst), k), y)))
}

proof fn lemma_nodes_track_heads(n: int, mst: Seq<Edge>, k: int)
    requires
        n >= 1,
        is_prim_tree(n, mst),
        0 <= k <= mst.len(),
    ensures
        nodes_track_heads(n, mst, k),
    decreases k,
{
    if k == 0 {
        assert(merged_after(sorted_by_rank(mst), 0) =~= Set::<int>::empty());
    } else {
        lemma_nodes_track_heads(n, mst, k - 1);
        lemma_track_step(n, mst, k - 1);
    }
}

/// One merge, seen from two leaves: the nodes of `x` and `y` (`nx`, `ny`) move to the new node
/// `nl` when they are one of the merged nodes `left`, `right`; their walks (`hx`, `hy`) that
/// stopped at the newly merged vertex `v` now continue to `hp`.
proof fn lemma_merge_step_agrees(
    nx: int,
    ny: int,
    left: int,
    right: int,
    nl: int,
    hx: int,
    hy: int,
    hp: int,
    v: int,
)
    requires
        nx < nl,
        ny < nl,
        (nx == left) <==> (hx == hp),
        (nx == right) <==> (hx == v),
        (ny == left) <==> (hy == hp),
        (ny == right) <==> (hy == v),
        (nx == ny) <==> (hx == hy),
        hp != v,
    ensures
        ((if nx == left || nx == right {
            nl
        } else {
            nx
        }) == (if ny == left || ny == right {
            nl
        } else {
            ny
        })) <==> ((if hx == v {
            hp
        } else {
            hx
        }) == (if hy == v {
            hp
        } else {
            hy
        })),
{
}

proof fn lemma_track_step(n: int, mst: Seq<Edge>, kk: int)
    requires
        n >= 1,
        is_prim_tree(n, mst),
        0 <= kk < mst.len(),
        nodes_track_heads(n, mst, kk),
    ensures
        nodes_track_heads(n, mst, kk + 1),
{
    let s = sorted_by_rank(mst);
    let k = kk + 1;
    lemma_sorted_tree_edges(n, mst);
    let e = s[kk];
    let v = e.1 as int;
    let p = e.0 as int;
    let i = choose|i: int| 0 <= i < mst.len() && mst[i] == s[kk];
    lemma_edge_index(n, mst, i);
    let mk = merged_after(s, kk);
    assert(!mk.contains(v)) by {
        if mk.contains(v) {
            let j = choose|j: int| 0 <= j < kk && (#[trigger] s[j]).1 as int == v;
            assert(s[j].1 != s[kk].1);
        }
    }
    assert(merged_after(s, k) =~= mk.insert(v));
    lemma_parent_order(n, mst, v);
    lemma_head_order(n, mst, mk, p);
    let hp = head(n, mst, mk, p);
    assert(head(n, mst, mk, v) == v);
    assert(hp != v);
    assert forall|x: int, y: int| 0 <= x < n && 0 <= y < n implies ((#[trigger] node_of(
        n,
        s,
        k as nat,
        x,
    ) == #[trigger] node_of(n, s, k as nat, y)) <==> (head(n, mst, merged_after(s, k), x)
        == head(n, mst, merged_after(s, k), y))) by {
        lemma_track_pair(n, mst, kk, v, p, x, y);
    }
}

proof fn lemma_track_pair(n: int, mst: Seq<Edge>, kk: int, v: int, p: int, x: int, y: int)
    requires
        n >= 1,
        is_prim_tree(n, mst),
        0 <= kk < mst.len(),
        0 <= x < n,
        0 <= y < n,
        nodes_track_heads(n, mst, kk),
        sorted_by_rank(mst).len() == mst.len(),
        sorted_by_rank(mst)[kk].1 as int == v,
        sorted_by_rank(mst)[kk].0 as int == p,
        0 <= v < n,
        0 <= p < n,
        has_edge(mst, v),
        tree_parent(mst, v) == p,
        !merged_after(sorted_by_rank(mst), kk).contains(v),
        merged_after(sorted_by_rank(mst), kk + 1) == merged_after(sorted_by_rank(mst), kk).insert(
            v,
        ),
        head(n, mst, merged_after(sorted_by_rank(mst), kk), v) == v,
        head(n, mst, merged_after(sorted_by_rank(mst), kk), p) != v,
    ensures
        (node_of(n, sorted_by_rank(mst), (kk + 1) as nat, x) == node_of(
            n,
            sorted_by_rank(mst),
            (kk + 1) as nat,
            y,
        )) <==> (head(n, mst, merged_after(sorted_by_rank(mst), kk + 1), x) == head(
            n,
            mst,
            merged_after(sorted_by_rank(mst), kk + 1),
            y,
        )),
{
    let s = sorted_by_rank(mst);
    let mk = merged_after(s, kk);
    let hp = head(n, mst, mk, p);
    lemma_node_of_bounds(n, s, kk as nat, x);
    lemma_node_of_bounds(n, s, kk as nat, y);
    lemma_head_extend(n, mst, mk, v, p, x);
    lemma_head_extend(n, mst, mk, v, p, y);
    let left = node_of(n, s, kk as nat, p);
    let right = node_of(n, s, kk as nat, v);
    let nx = node_of(n, s, kk as nat, x);
    let ny = node_of(n, s, kk as nat, y);
    assert(nx == left <==> head(n, mst, mk, x) == hp);
    assert(nx == right <==> head(n, mst, mk, x) == v);
    assert(ny == left <==> head(n, mst, mk, y) == hp);
    assert(ny == right <==> head(n, mst, mk, y) == v);
    assert(nx == ny <==> head(n, mst, mk, x) == head(n, mst, mk, y));
    lemma_merge_step_agrees(
        nx,
        ny,
        left,
        right,
        n + kk,
        head(n, mst, mk, x),
        head(n, mst, mk, y),
        hp,
        v,
    );
}

/// Every edge of the tree has its place in the rank order.
proof fn lemma_tree_edge_sorted(mst: Seq<Edge>, i: int) -> (j: int)
    requires
        0 <= i < mst.len(),
    ensures
        0 <= j < mst.len(),
        sorted_by_rank(mst)[j] == mst[i],
{
    let s = sorted_by_rank(mst);
    lemma_sorted_by_rank_is_sorted_permutation(mst);
    s.to_multiset_ensures();
    mst.to_multiset_ensures();
    assert(mst.contains(mst[i]));
    assert(s.to_multiset().count(mst[i]) > 0);
    assert(s.contains(mst[i]));
    choose|j: int| 0 <= j < s.len() && s[j] == mst[i]
}

/// Once every vertex has been merged, every walk ends at vertex 0.
proof fn lemma_head_all_merged(n: int, mst: Seq<Edge>, merged: Set<int>, x: int)
    requires
        is_prim_tree(n, mst),
        0 <= x < n,
        forall|y: int| 0 < y < n ==> merged.contains(y) && has_edge(mst, y),
    ensures
        head(n, mst, merged, x) == 0,
    decreases join_order(mst, x),
{
    lemma_new_vertices_distinct(n, mst);
    if x == 0 {
        if has_edge(mst, 0) {
            let j = choose|j: int| 0 <= j < mst.len() && (#[trigger] mst[j]).1 as int == 0;
        }
    } else {
        lemma_parent_order(n, mst, x);
        lemma_head_all_merged(n, mst, merged, tree_parent(mst, x));
    }
}

/// Two nodes that between them hold every leaf weigh, together, all the leaves.
proof fn lemma_two_parts_total(ws: Seq<int>, roots: Seq<int>, a: int, b: int, k: nat)
    requires
        a != b,
        k <= ws.len(),
        k <= roots.len(),
        forall|x: int| 0 <= x < k ==> roots[x] == a || roots[x] == b,
    ensures
        component_total(ws, roots, a, k) + component_total(ws, roots, b, k) == prefix_total(ws, k),
    decreases k,
{
    if k > 0 {
        lemma_two_parts_total(ws, roots, a, b, (k - 1) as nat);
    }
}

/// Merging the edges of a tree grown from vertex 0 in rank order, each merge joins two
/// different dendrogram nodes; when the tree spans all `n` leaves, every leaf ends under the
/// last node `2n - 2`, and the last merge weighs the total leaf weight.
pub proof fn lemma_prim_dendrogram(ws: Seq<int>, mst: Seq<Edge>)
    requires
        ws.len() >= 1,
        is_prim_tree(ws.len() as int, mst),
    ensures
        forall|k: int|
            0 <= k < mst.len() ==> node_of(
                ws.len() as int,
                sorted_by_rank(mst),
                k as nat,
                (#[trigger] sorted_by_rank(mst)[k]).0 as int,
            ) != node_of(ws.len() as int, sorted_by_rank(mst), k as nat, sorted_by_rank(mst)[k].1 as int),
        mst.len() + 1 == ws.len() && ws.len() >= 2 ==> {
            let n = ws.len() as int;
            let s = sorted_by_rank(mst);
            let last = s[n - 2];
            &&& forall|x: int| 0 <= x < n ==> #[trigger] node_of(n, s, (n - 1) as nat, x) == 2 * n - 2
            &&& weight_under(ws, s, (n - 2) as nat, node_of(n, s, (n - 2) as nat, last.0 as int))
                + weight_under(ws, s, (n - 2) as nat, node_of(n, s, (n - 2) as nat, last.1 as int))
                == prefix_total(ws, ws.len())
        },
{
    let n = ws.len() as int;
    let s = sorted_by_rank(mst);
    lemma_sorted_tree_edges(n, mst);
    assert forall|k: int| 0 <= k < mst.len() implies node_of(
        n,
        s,
        k as nat,
        (#[trigger] s[k]).0 as int,
    ) != node_of(n, s, k as nat, s[k].1 as int) by {
        lemma_nodes_track_heads(n, mst, k);
        let i = choose|i: int| 0 <= i < mst.len() && mst[i] == s[k];
        lemma_edge_index(n, mst, i);
        let v = s[k].1 as int;
        let p = s[k].0 as int;
        let mk = merged_after(s, k);
        assert(!mk.contains(v)) by {
            if mk.contains(v) {
                let j = choose|j: int| 0 <= j < k && (#[trigger] s[j]).1 as int == v;
                assert(s[j].1 != s[k].1);
            }
        }
        lemma_parent_order(n, mst, v);
        lemma_head_order(n, mst, mk, p);
        assert(head(n, mst, mk, v) == v);
        assert(node_of(n, s, k as nat, p) == node_of(n, s, k as nat, v) <==> head(n, mst, mk, p)
            == head(n, mst, mk, v));
    }
    if mst.len() + 1 == n && n >= 2 {
        let all = merged_after(s, n - 1);
        let t = tree_vertices(mst, n - 1);
        assert forall|y: int| 0 < y < n implies all.contains(y) && has_edge(mst, y) by {
            lemma_every_vertex_in_tree(n, mst, y);
            lemma_tree_vertex(mst, n - 1, y);
            let i = choose|i: int| 0 <= i < n - 1 && (#[trigger] mst[i]).1 as int == y;
            let j = lemma_tree_edge_sorted(mst, i);
            assert(s[j].1 as int == y);
        }
        lemma_nodes_track_heads(n, mst, n - 1);
        let last = s[n - 2];
        let nl = 2 * n - 2;
        lemma_node_of_bounds(n, s, (n - 1) as nat, last.0 as int);
        assert(node_of(n, s, (n - 1) as nat, last.0 as int) == nl);
        assert forall|x: int| 0 <= x < n implies #[trigger] node_of(n, s, (n - 1) as nat, x)
            == nl by {
            lemma_head_all_merged(n, mst, all, x);
            lemma_head_all_merged(n, mst, all, last.0 as int);
        }
        let left = node_of(n, s, (n - 2) as nat, last.0 as int);
        let right = node_of(n, s, (n - 2) as nat, last.1 as int);
        let nodes = nodes_after(n, s, (n - 2) as nat);
        assert forall|x: int| 0 <= x < n implies nodes[x] == left || nodes[x] == right by {
            lemma_node_of_bounds(n, s, (n - 2) as nat, x);
            assert(node_of(n, s, (n - 1) as nat, x) == nl);
        }
        lemma_two_parts_total(ws, nodes, left, right, n as nat);
    }
}

/// A tree of `n` vertices below `n` contains every one of them.
proof fn lemma_every_vertex_in_tree(n: int, mst: Seq<Edge>, y: int)
    requires
        is_prim_tree(n, mst),
        mst.len() + 1 == n,
        0 <= y < n,
    ensures
        tree_vertices(mst, n - 1).contains(y),
{
    let t = tree_vertices(mst, n - 1);
    lemma_new_vertices_distinct(n, mst);
    assert(t.no_duplicates()) by {
        assert forall|a: int, b: int| 0 <= a < t.len() && 0 <= b < t.len() && a != b implies t[a]
            != t[b] by {
            if a > 0 && b > 0 {
                assert(mst[a - 1].1 != mst[b - 1].1);
            } else if a > 0 {
                assert(mst[a - 1].1 != 0);
            } else if b > 0 {
                assert(mst[b - 1].1 != 0);
            }
        }
    }
    t.unique_seq_to_set();
    vstd::set_lib::lemma_int_range(0, n);
    assert(t.to_set().subset_of(vstd::set_lib::set_int_range(0, n))) by {
        assert forall|a: int| t.to_set().contains(a) implies vstd::set_lib::set_int_range(
            0,
            n,
        ).contains(a) by {
            let j = choose|j: int| 0 <= j < t.len() && t[j] == a;
            if j > 0 {
                assert(mst[j - 1].1 < n);
            }
        }
    }
    vstd::set_lib::lemma_subset_equality(t.to_set(), vstd::set_lib::set_int_range(0, n));
    assert(vstd::set_lib::set_int_range(0, n).contains(y));
    assert(t.to_set().contains(y));
}

/// The edges that Prim's algorithm takes grow a tree from vertex 0.
pub proof fn lemma_prim_steps_form_tree(w: Seq<Seq<u64>>, mst: Seq<Edge>)
    requires
        forall|k: int| 0 <= k < mst.len() ==> prim_step(w, tree_vertices(mst, k), #[trigger] mst[k]),
    ensures
        is_prim_tree(w.len() as int, mst),
{
    assert forall|k: int| 0 <= k < mst.len() implies {
        &&& ((#[trigger] mst[k]).1 as int) < w.len()
        &&& (mst[k].0 as int) < w.len()
        &&& !tree_vertices(mst, k).contains(mst[k].1 as int)
        &&& tree_vertices(mst, k).contains(mst[k].0 as int)
    } by {
        assert(prim_step(w, tree_vertices(mst, k), mst[k]));
        let t = tree_vertices(mst, k);
        let j = choose|j: int|
            0 <= j < t.len() && t[j] == mst[k].0 as int && forall|i: int|
                0 <= i < j ==> w[t[i]][mst[k].1 as int] > mst[k].2;
        assert(t.contains(mst[k].0 as int));
        if j > 0 {
            assert(prim_step(w, tree_vertices(mst, j - 1), mst[j - 1]));
        }
    }
}

/// The vertices of the tree after all its edges: no vertex twice, each below `n`.
proof fn lemma_tree_vertices_distinct(n: int, mst: Seq<Edge>)
    requires
        n > 0,
        is_prim_tree(n, mst),
    ensures
        tree_vertices(mst, mst.len() as int).no_duplicates(),
        forall|i: int|
            0 <= i < mst.len() + 1 ==> 0 <= #[trigger] tree_vertices(mst, mst.len() as int)[i] < n,
{
    let t = tree_vertices(mst, mst.len() as int);
    lemma_new_vertices_distinct(n, mst);
    assert forall|i: int, j: int| 0 <= i < t.len() && 0 <= j < t.len() && i != j implies t[i]
        != t[j] by {
        if i > 0 && j > 0 {
            assert(mst[i - 1].1 != mst[j - 1].1);
        } else if i > 0 {
            assert(mst[i - 1].1 != 0);
        } else {
            assert(mst[j - 1].1 != 0);
        }
    }
    assert forall|i: int| 0 <= i < mst.len() + 1 implies 0 <= #[trigger] t[i] < n by {
        if i > 0 {
            assert(t[i] == mst[i - 1].1 as int);
        }
    }
}

/// The vertex that Prim's step `k` adds lies on the side of a separating cut that holds
/// vertex 0.
proof fn lemma_added_vertex_inside(w: Seq<Seq<u64>>, mst: Seq<Edge>, inside: Seq<bool>, k: int)
    requires
        forall|k: int| 0 <= k < mst.len() ==> prim_step(w, tree_vertices(mst, k), #[trigger] mst[k]),
        separating_side(w, inside),
        0 <= k < mst.len(),
    ensures
        inside[mst[k].1 as int],
    decreases k,
{
    lemma_prim_steps_form_tree(w, mst);
    let t = tree_vertices(mst, k);
    let e = mst[k];
    assert(prim_step(w, t, e));
    let j = choose|j: int|
        0 <= j < t.len() && t[j] == e.0 as int && forall|i: int|
            0 <= i < j ==> w[t[i]][e.1 as int] > e.2;
    if j > 0 {
        lemma_added_vertex_inside(w, mst, inside, j - 1);
        assert(t[j] == mst[j - 1].1 as int);
    }
    assert(inside[e.0 as int]);
    if !inside[e.1 as int] {
        assert(w[e.0 as int][e.1 as int] == infinite_rank());
    }
}

/// A side that holds vertex 0 and that only infinite ranks leave keeps Prim's tree inside it:
/// the tree then misses a vertex.
pub proof fn lemma_prim_stays_inside(w: Seq<Seq<u64>>, mst: Seq<Edge>, inside: Seq<bool>)
    requires
        forall|k: int| 0 <= k < mst.len() ==> prim_step(w, tree_vertices(mst, k), #[trigger] mst[k]),
        separating_side(w, inside),
    ensures
        mst.len() + 1 < w.len(),
{
    let n = w.len() as int;
    lemma_prim_steps_form_tree(w, mst);
    lemma_tree_vertices_distinct(n, mst);
    let t = tree_vertices(mst, mst.len() as int);
    let b = choose|b: int| 0 <= b < n && !#[trigger] inside[b];
    assert forall|i: int| 0 <= i < t.len() implies inside[#[trigger] t[i]] by {
        if i > 0 {
            lemma_added_vertex_inside(w, mst, inside, i - 1);
            assert(t[i] == mst[i - 1].1 as int);
        }
    }
    assert(!t.contains(b));
    t.unique_seq_to_set();
    vstd::set_lib::lemma_int_range(0, n);
    let r = vstd::set_lib::set_int_range(0, n).remove(b);
    assert(t.to_set().subset_of(r));
    vstd::set_lib::lemma_len_subset(t.to_set(), r);
}

/// When Prim's algorithm stops before reaching every vertex because only infinite ranks leave
/// its tree, the tree's vertices form a separating side.
pub proof fn lemma_prim_stop_separates(w: Seq<Seq<u64>>, mst: Seq<Edge>)
    requires
        forall|k: int| 0 <= k < mst.len() ==> prim_step(w, tree_vertices(mst, k), #[trigger] mst[k]),
        w.len() > 0,
        mst.len() + 1 < w.len(),
        forall|a: int, b: int|
            tree_vertices(mst, mst.len() as int).contains(a) && 0 <= b < w.len()
                && !tree_vertices(mst, mst.len() as int).contains(b) ==> w[a][b]
                == infinite_rank(),
    ensures
        separating_side(
            w,
            Seq::new(w.len(), |v: int| tree_vertices(mst, mst.len() as int).contains(v)),
        ),
{
    let n = w.len() as int;
    let t = tree_vertices(mst, mst.len() as int);
    let inside = Seq::new(w.len(), |v: int| t.contains(v));
    lemma_prim_steps_form_tree(w, mst);
    lemma_tree_vertices_distinct(n, mst);
    let b = lemma_vertex_outside(t, n);
    assert(!inside[b]);
    assert(t[0] == 0);
    assert(inside[0]);
}

} // verus!
