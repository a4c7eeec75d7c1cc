use vstd::prelude::*;

use crate::sort::{
    lemma_sorted_by_rank_is_sorted_permutation, sort_edges_by_rank, sorted_by_rank,
};
use crate::types::Edge;

verus! {

/// Rank that stands for an infinite length.
pub open spec fn infinite_rank() -> u64 {
    u64::MAX
}

/// The rows of a matrix as sequences.
pub open spec fn matrix(w: Seq<Vec<u64>>) -> Seq<Seq<u64>> {
    w.map_values(|r: Vec<u64>| r@)
}

/// Every row has one entry per row.
pub open spec fn is_square(w: Seq<Seq<u64>>) -> bool {
    forall|i: int| 0 <= i < w.len() ==> (#[trigger] w[i]).len() == w.len()
}

/// The other items seen from item `i`, as edges `(i, x, rank of x)`, walked by increasing
/// rank (items of equal rank in index order).
pub open spec fn others_by_rank(dist: Seq<u64>, i: int) -> Seq<Edge> {
    sorted_by_rank(Seq::new(dist.len(), |x: int| (i as usize, x as usize, dist[x])).remove(i))
}

/// Total weight of the first `p` items of the walk `s`.
pub open spec fn weight_prefix(s: Seq<Edge>, w: Seq<usize>, p: int) -> int
    decreases p,
{
    if p <= 0 {
        0
    } else {
        weight_prefix(s, w, p - 1) + w[s[p - 1].1 as int]
    }
}

/// Position `p` of the walk `s` is where the weight first reaches `min_pts`: the items before
/// it weigh less, and with it the weight reaches `min_pts` (or it is the last item).
pub open spec fn reaches_at(s: Seq<Edge>, w: Seq<usize>, min_pts: int, p: int) -> bool {
    &&& 0 <= p < s.len()
    &&& forall|q: int| 0 <= q < p ==> #[trigger] weight_prefix(s, w, q + 1) < min_pts
    &&& (weight_prefix(s, w, p + 1) >= min_pts || p == s.len() - 1)
}

/// The walk reaches `min_pts` at one position only, so the core neighbour is unique.
pub proof fn lemma_reach_position_unique(s: Seq<Edge>, w: Seq<usize>, min_pts: int, p1: int, p2: int)
    requires
        reaches_at(s, w, min_pts, p1),
        reaches_at(s, w, min_pts, p2),
    ensures
        p1 == p2,
{
    if p1 < p2 {
        assert(weight_prefix(s, w, p1 + 1) < min_pts);
    } else if p2 < p1 {
        assert(weight_prefix(s, w, p2 + 1) < min_pts);
    }
}

/// Item `jk.0` at position `p` of the walk from item `i` is where the weight reaches
/// `min_pts`, and `jk.1` is the number of its points still needed there.
pub open spec fn is_core_neighbour(
    dist: Seq<u64>,
    w: Seq<usize>,
    i: int,
    min_pts: int,
    p: int,
    jk: (usize, usize),
) -> bool {
    let s = others_by_rank(dist, i);
    let before = weight_prefix(s, w, p);
    &&& reaches_at(s, w, min_pts, p)
    &&& jk.0 == s[p].1
    &&& jk.1 as int == if min_pts - before <= w[jk.0 as int] {
        min_pts - before
    } else {
        w[jk.0 as int] as int
    }
}

/// The core neighbour of item `i` when item weights count: walking the other items by
/// distance and adding up their weights, the first item `j` with which the weight reaches
/// `min_pts` (the farthest item if it never does), together with how many of `j`'s own points
/// are still needed, `k = min(min_pts - weight before j, weight of j)`.  The core distance is
/// then the distance to `j` plus `j`'s `k`-nearest-neighbour distance.  `None` when there is
/// no other item.
pub fn core_neighbour(dist: &Vec<u64>, weights: &Vec<usize>, i: usize, min_pts: usize) -> (r:
    Option<(usize, usize)>)
    requires
        min_pts >= 1,
        i < dist.len(),
        weights.len() == dist.len(),
    ensures
        r is None <==> dist.len() == 1,
        r matches Some(jk) ==> exists|p: int|
            #[trigger] is_core_neighbour(dist@, weights@, i as int, min_pts as int, p, jk),
{
    let n = dist.len();
    let ghost all = Seq::new(dist.len() as nat, |x: int| (i as usize, x as usize, dist@[x]));
    let mut cands: Vec<Edge> = Vec::new();
    let mut x: usize = 0;
    while x < n
        invariant
            n == dist.len(),
            i < n,
            x <= n,
            all == Seq::new(dist.len() as nat, |y: int| (i as usize, y as usize, dist@[y])),
            cands@ == if x <= i {
                all.take(x as int)
            } else {
                all.take(i as int) + all.subrange(i + 1, x as int)
            },
        decreases n - x,
    {
        if x != i {
            cands.push((i, x, dist[x]));
            proof {
                if x < i {
                    assert(all.take(x + 1) =~= all.take(x as int).push(all[x as int]));
                } else {
                    assert(all.take(i as int) + all.subrange(i + 1, x + 1) =~= (all.take(i as int)
                        + all.subrange(i + 1, x as int)).push(all[x as int]));
                }
            }
        } else {
            proof {
                assert(all.take(i as int) + all.subrange(i + 1, i + 1) =~= all.take(i as int));
            }
        }
        x = x + 1;
    }
    proof {
        assert(cands@ =~= all.remove(i as int));
    }
    let sorted = sort_edges_by_rank(&cands);
    let ghost s = sorted@;
    proof {
        assert(s == others_by_rank(dist@, i as int));
        lemma_sorted_by_rank_is_sorted_permutation(cands@);
        assert forall|q: int| 0 <= q < s.len() implies (#[trigger] s[q]).1 < n by {
            s.to_multiset_ensures();
            assert(s.contains(s[q]));
            assert(s.to_multiset().count(s[q]) > 0);
            cands@.to_multiset_ensures();
            assert(cands@.contains(s[q]));
            let y = choose|y: int| 0 <= y < cands@.len() && cands@[y] == s[q];
        }
    }
    if sorted.len() == 0 {
        return None;
    }
    let mut acc: u128 = 0;
    let mut p: usize = 0;
    while p < sorted.len()
        invariant
            s == sorted@,
            s == others_by_rank(dist@, i as int),
            s.len() == n - 1,
            n == weights.len(),
            n == dist.len(),
            i < n,
            min_pts >= 1,
            s.len() >= 1,
            forall|q: int| 0 <= q < s.len() ==> (#[trigger] s[q]).1 < n,
            p < s.len(),
            acc as int == weight_prefix(s, weights@, p as int),
            acc < min_pts,
            forall|q: int| 0 <= q < p ==> #[trigger] weight_prefix(s, weights@, q + 1) < min_pts,
        decreases s.len() - p,
    {
        let j = sorted[p].1;
        let wj = weights[j];
        let reached = acc + (wj as u128);
        if reached >= min_pts as u128 || p + 1 == sorted.len() {
            let need = (min_pts as u128 - acc) as usize;
            let k = if need <= wj {
                need
            } else {
                wj
            };
            assert(reaches_at(s, weights@, min_pts as int, p as int));
            let r = Some((j, k));
            assert(is_core_neighbour(dist@, weights@, i as int, min_pts as int, p as int, r->0));
            return r;
        }
        p = p + 1;
        acc = reached;
    }
    None
}

/// The mutual reachability of two items: the largest of their distance and their two core
/// distances.
pub open spec fn max3(a: u64, b: u64, c: u64) -> u64 {
    let ab = if a >= b {
        a
    } else {
        b
    };
    if ab >= c {
        ab
    } else {
        c
    }
}

/// Mutual reachability of two items from the rank of their distance and their core ranks.
pub fn mutual_reachability(distance: u64, core_i: u64, core_j: u64) -> (r: u64)
    ensures
        r == max3(distance, core_i, core_j),
        r >= distance && r >= core_i && r >= core_j,
        r == distance || r == core_i || r == core_j,
{
    let a = if distance >= core_i {
        distance
    } else {
        core_i
    };
    if a >= core_j {
        a
    } else {
        core_j
    }
}

/// The matrix of mutual reachabilities.
pub fn mutual_reachability_matrix(dist: &Vec<Vec<u64>>, core: &Vec<u64>) -> (mr: Vec<Vec<u64>>)
    requires
        is_square(matrix(dist@)),
        core.len() == dist.len(),
    ensures
        mr.len() == dist.len(),
        is_square(matrix(mr@)),
        forall|i: int, j: int|
            0 <= i < mr.len() && 0 <= j < mr.len() ==> #[trigger] mr@[i]@[j] == max3(
                dist@[i]@[j],
                core@[i],
                core@[j],
            ),
{
    let n = dist.len();
    let mut mr: Vec<Vec<u64>> = Vec::new();
    let mut i: usize = 0;
    while i < n
        invariant
            n == dist.len(),
            core.len() == n,
            is_square(matrix(dist@)),
            i <= n,
            mr.len() == i,
            forall|x: int| 0 <= x < i ==> (#[trigger] mr@[x]).len() == n,
            forall|x: int, j: int|
                0 <= x < i && 0 <= j < n ==> #[trigger] mr@[x]@[j] == max3(
                    dist@[x]@[j],
                    core@[x],
                    core@[j],
                ),
        decreases n - i,
    {
        assert(matrix(dist@)[i as int] == dist@[i as int]@);
        let mut row: Vec<u64> = Vec::new();
        let mut j: usize = 0;
        while j < n
            invariant
                n == dist.len(),
                core.len() == n,
                dist@[i as int]@.len() == n,
                i < n,
                j <= n,
                row.len() == j,
                forall|y: int|
                    0 <= y < j ==> #[trigger] row@[y] == max3(
                        dist@[i as int]@[y],
                        core@[i as int],
                        core@[y],
                    ),
            decreases n - j,
        {
            row.push(mutual_reachability(dist[i][j], core[i], core[j]));
            j = j + 1;
        }
        mr.push(row);
        i = i + 1;
    }
    proof {
        assert forall|x: int| 0 <= x < mr.len() implies (#[trigger] matrix(mr@)[x]).len()
            == mr.len() by {
            assert(matrix(mr@)[x] == mr@[x]@);
        }
    }
    mr
}

/// The tree vertices after the first `k` edges: vertex 0, then each edge's new endpoint.
pub open spec fn tree_vertices(edges: Seq<Edge>, k: int) -> Seq<int> {
    seq![0int] + Seq::new(k as nat, |i: int| edges[i].1 as int)
}

/// Edge `e` is the step Prim's algorithm takes from the tree `t` on the matrix `w`: a
/// crossing edge of least weight, to the smallest outside vertex that has one, from the
/// earliest tree vertex that reaches it at that weight.
pub open spec fn prim_step(w: Seq<Seq<u64>>, t: Seq<int>, e: Edge) -> bool {
    let n = w.len() as int;
    let v = e.1 as int;
    &&& v < n
    &&& !t.contains(v)
    &&& e.2 == w[e.0 as int][v]
    &&& e.2 < infinite_rank()
    &&& exists|j: int|
        0 <= j < t.len() && t[j] == e.0 as int && forall|i: int|
            0 <= i < j ==> w[t[i]][v] > e.2
    &&& forall|a: int, b: int|
        t.contains(a) && 0 <= b < n && !t.contains(b) ==> w[a][b] >= e.2
    &&& forall|a: int, b: int|
        t.contains(a) && 0 <= b < v && !t.contains(b) ==> w[a][b] > e.2
}

/// `inside` marks a side of the `n` items that holds item 0 but not every item, and that no
/// finite rank leaves: every rank from an item inside to an item outside is infinite.
pub open spec fn separating_side(w: Seq<Seq<u64>>, inside: Seq<bool>) -> bool {
    let n = w.len() as int;
    &&& n > 0
    &&& inside.len() == n
    &&& inside[0]
    &&& exists|b: int| 0 <= b < n && !#[trigger] inside[b]
    &&& forall|a: int, b: int|
        0 <= a < n && 0 <= b < n && #[trigger] inside[a] && !#[trigger] inside[b] ==> w[a][b]
            == infinite_rank()
}

/// Finite ranks lead from item 0 to every item: no side separates them.
pub open spec fn spans_from_first(w: Seq<Seq<u64>>) -> bool {
    forall|inside: Seq<bool>| !#[trigger] separating_side(w, inside)
}

/// Least weight from a vertex of `t` to `j`.
pub open spec fn cut_min(w: Seq<Seq<u64>>, t: Seq<int>, j: int) -> u64
    decreases t.len(),
{
    if t.len() == 0 {
        infinite_rank()
    } else if t.len() == 1 {
        w[t[0]][j]
    } else {
        let m = cut_min(w, t.drop_last(), j);
        let c = w[t.last()][j];
        if c < m {
            c
        } else {
            m
        }
    }
}

/// The earliest vertex of `t` that reaches `j` with the least weight.
pub open spec fn cut_arg(w: Seq<Seq<u64>>, t: Seq<int>, j: int) -> int
    decreases t.len(),
{
    if t.len() <= 1 {
        t[0]
    } else if w[t.last()][j] < cut_min(w, t.drop_last(), j) {
        t.last()
    } else {
        cut_arg(w, t.drop_last(), j)
    }
}

proof fn lemma_cut(w: Seq<Seq<u64>>, t: Seq<int>, j: int) -> (jj: int)
    requires
        t.len() >= 1,
    ensures
        0 <= jj < t.len(),
        t[jj] == cut_arg(w, t, j),
        w[t[jj]][j] == cut_min(w, t, j),
        forall|i: int| 0 <= i < jj ==> w[t[i]][j] > cut_min(w, t, j),
        forall|i: int| 0 <= i < t.len() ==> cut_min(w, t, j) <= w[t[i]][j],
    decreases t.len(),
{
    if t.len() == 1 {
        0
    } else {
        let d = t.drop_last();
        let k = lemma_cut(w, d, j);
        assert(forall|i: int| 0 <= i < d.len() ==> d[i] == t[i]);
        if w[t.last()][j] < cut_min(w, d, j) {
            (t.len() - 1) as int
        } else {
            k
        }
    }
}

/// Prim's algorithm from vertex 0 on the weight matrix `w`, where `u64::MAX` is an infinite
/// weight: each step adds the lightest edge from the tree to a vertex outside it, until every
/// vertex is in the tree or only infinite edges cross.
pub fn build_mst(w: &Vec<Vec<u64>>) -> (mst: Vec<Edge>)
    requires
        is_square(matrix(w@)),
    ensures
        w.len() == 0 ==> mst.len() == 0,
        w.len() > 0 ==> mst.len() < w.len(),
        forall|k: int|
            0 <= k < mst.len() ==> prim_step(
                matrix(w@),
                tree_vertices(mst@, k),
                #[trigger] mst@[k],
            ),
        w.len() > 0 && mst.len() + 1 < w.len() ==> forall|a: int, b: int|
            tree_vertices(mst@, mst.len() as int).contains(a) && 0 <= b < w.len()
                && !tree_vertices(mst@, mst.len() as int).contains(b) ==> matrix(w@)[a][b]
                == infinite_rank(),
        w.len() > 0 && (forall|a: int, b: int|
            0 <= a < w.len() && 0 <= b < w.len() ==> #[trigger] matrix(w@)[a][b] < infinite_rank())
            ==> mst.len() + 1 == w.len(),
{
    let n = w.len();
    let ghost m = matrix(w@);
    let mut mst: Vec<Edge> = Vec::new();
    if n == 0 {
        return mst;
    }
    let mut in_mst: Vec<bool> = Vec::new();
    let mut min_edge: Vec<u64> = Vec::new();
    let mut parent: Vec<usize> = Vec::new();
    let mut i: usize = 0;
    while i < n
        invariant
            i <= n,
            in_mst.len() == i,
            min_edge.len() == i,
            parent.len() == i,
            forall|x: int| 0 <= x < i ==> !in_mst@[x],
        decreases n - i,
    {
        in_mst.push(false);
        min_edge.push(u64::MAX);
        parent.push(usize::MAX);
        i = i + 1;
    }
    in_mst.set(0, true);
    assert(m[0] == w@[0]@);
    let mut j: usize = 1;
    while j < n
        invariant
            n == w.len(),
            m == matrix(w@),
            is_square(m),
            1 <= j <= n,
            w@[0]@.len() == n,
            min_edge.len() == n,
            parent.len() == n,
            forall|x: int| 1 <= x < j ==> min_edge@[x] == m[0][x] && parent@[x] == 0,
        decreases n - j,
    {
        min_edge.set(j, w[0][j]);
        parent.set(j, 0);
        j = j + 1;
    }
    let ghost mut t: Seq<int> = seq![0int];
    proof {
        assert(t[0] == 0);
        assert forall|x: int| 0 <= x < n && !t.contains(x) implies min_edge@[x] == cut_min(m, t, x)
            && parent@[x] as int == cut_arg(m, t, x) by {
            assert(x != 0);
        }
        assert(t =~= tree_vertices(mst@, 0));
    }
    let mut step: usize = 0;
    while step < n - 1
        invariant
            n == w.len(),
            n >= 1,
            m == matrix(w@),
            is_square(m),
            step <= n - 1,
            mst.len() == step,
            t == tree_vertices(mst@, step as int),
            t.len() == step + 1,
            t.no_duplicates(),
            forall|i: int| 0 <= i < t.len() ==> 0 <= #[trigger] t[i] < n,
            in_mst.len() == n,
            min_edge.len() == n,
            parent.len() == n,
            forall|x: int| 0 <= x < n ==> (in_mst@[x] <==> t.contains(x)),
            forall|x: int|
                0 <= x < n && !t.contains(x) ==> min_edge@[x] == cut_min(m, t, x) && parent@[x] as int
                    == cut_arg(m, t, x),
            forall|k: int|
                0 <= k < mst.len() ==> prim_step(m, tree_vertices(mst@, k), #[trigger] mst@[k]),
        ensures
            mst.len() + 1 < n ==> forall|a: int, b: int|
                tree_vertices(mst@, mst.len() as int).contains(a) && 0 <= b < n
                    && !tree_vertices(mst@, mst.len() as int).contains(b) ==> m[a][b]
                    == infinite_rank(),
            mst.len() < n,
            forall|k: int|
                0 <= k < mst.len() ==> prim_step(m, tree_vertices(mst@, k), #[trigger] mst@[k]),
        decreases n - 1 - step,
    {
        let mut best: usize = n;
        let mut best_dist: u64 = u64::MAX;
        let mut x: usize = 0;
        while x < n
            invariant
                n == in_mst.len(),
                n == min_edge.len(),
                x <= n,
                best <= n,
                forall|y: int| 0 <= y < n ==> (in_mst@[y] <==> t.contains(y)),
                best == n ==> best_dist == u64::MAX,
                best < n ==> best < x && !t.contains(best as int) && best_dist == min_edge@[best as int]
                    && best_dist < u64::MAX,
                forall|y: int| 0 <= y < x && !t.contains(y) ==> min_edge@[y] >= best_dist,
                forall|y: int|
                    0 <= y < x && y < best && best < n && !t.contains(y) ==> min_edge@[y] > best_dist,
            decreases n - x,
        {
            if !in_mst[x] && min_edge[x] < best_dist {
                best_dist = min_edge[x];
                best = x;
            }
            x = x + 1;
        }
        if best == n {
            proof {
                assert forall|a: int, b: int|
                    t.contains(a) && 0 <= b < n && !t.contains(b) implies m[a][b]
                    == infinite_rank() by {
                    let ia = choose|ia: int| 0 <= ia < t.len() && t[ia] == a;
                    lemma_cut(m, t, b);
                }
            }
            break;
        }
        let ghost jj = lemma_cut(m, t, best as int);
        assert(parent@[best as int] as int == t[jj]);
        let p = parent[best];
        let e: Edge = (p, best, best_dist);
        proof {
            assert(m[p as int] == w@[p as int]@);
            assert forall|a: int, b: int|
                t.contains(a) && 0 <= b < n && !t.contains(b) implies m[a][b] >= e.2 by {
                let ia = choose|ia: int| 0 <= ia < t.len() && t[ia] == a;
                lemma_cut(m, t, b);
            }
            assert forall|a: int, b: int|
                t.contains(a) && 0 <= b < best && !t.contains(b) implies m[a][b] > e.2 by {
                let ia = choose|ia: int| 0 <= ia < t.len() && t[ia] == a;
                lemma_cut(m, t, b);
            }
            assert(prim_step(m, t, e));
        }
        let ghost old_mst = mst@;
        let ghost old_in = in_mst@;
        in_mst.set(best, true);
        mst.push(e);
        let ghost old_t = t;
        proof {
            t = t.push(best as int);
            assert(mst@.drop_last() =~= old_mst);
            assert forall|x: int| 0 <= x < n implies (in_mst@[x] <==> t.contains(x)) by {
                if x == best as int {
                    assert(t[t.len() - 1] == x);
                } else {
                    if t.contains(x) {
                        let i = choose|i: int| 0 <= i < t.len() && t[i] == x;
                        assert(i < old_t.len());
                        assert(old_t[i] == x);
                    }
                    if old_t.contains(x) {
                        let i = choose|i: int| 0 <= i < old_t.len() && old_t[i] == x;
                        assert(t[i] == x);
                    }
                }
            }
            assert(t =~= tree_vertices(mst@, mst.len() as int));
            assert forall|k: int| 0 <= k < mst.len() implies prim_step(
                m,
                tree_vertices(mst@, k),
                #[trigger] mst@[k],
            ) by {
                if k < mst.len() - 1 {
                    assert(tree_vertices(mst@, k) =~= tree_vertices(old_mst, k));
                    assert(mst@[k] == old_mst[k]);
                } else {
                    assert(tree_vertices(mst@, k) =~= old_t);
                }
            }
        }
        let ghost old_min = min_edge@;
        let ghost old_parent = parent@;
        assert(m[best as int] == w@[best as int]@);
        let mut y: usize = 0;
        while y < n
            invariant
                n == w.len(),
                m == matrix(w@),
                is_square(m),
                best < n,
                m[best as int] == w@[best as int]@,
                t == old_t.push(best as int),
                old_t.len() >= 1,
                in_mst.len() == n,
                min_edge.len() == n,
                parent.len() == n,
                y <= n,
                forall|x: int| 0 <= x < n ==> (in_mst@[x] <==> t.contains(x)),
                old_min.len() == n,
                old_parent.len() == n,
                forall|x: int|
                    0 <= x < n && !old_t.contains(x) ==> old_min[x] == cut_min(m, old_t, x)
                        && old_parent[x] as int == cut_arg(m, old_t, x),
                forall|x: int|
                    y <= x < n ==> min_edge@[x] == old_min[x] && parent@[x] == old_parent[x],
                forall|x: int|
                    0 <= x < y && !t.contains(x) ==> min_edge@[x] == cut_min(m, t, x)
                        && parent@[x] as int == cut_arg(m, t, x),
            decreases n - y,
        {
            if !in_mst[y] {
                let d = w[best][y];
                proof {
                    assert(t.drop_last() =~= old_t);
                    if old_t.contains(y as int) {
                        let i = choose|i: int| 0 <= i < old_t.len() && old_t[i] == y as int;
                        assert(t[i] == y as int);
                        assert(t.contains(y as int));
                    }
                    assert(!old_t.contains(y as int));
                }
                if d < min_edge[y] {
                    min_edge.set(y, d);
                    parent.set(y, best);
                }
            }
            y = y + 1;
        }
        step = step + 1;
    }
    proof {
        if mst.len() + 1 < n {
            let b = lemma_vertex_outside(t, n as int);
            assert(t[0] == 0);
        }
    }
    mst
}

/// A duplicate-free sequence of fewer than `n` vertices below `n` misses one of them.
pub(crate) proof fn lemma_vertex_outside(t: Seq<int>, n: int) -> (b: int)
    requires
        t.no_duplicates(),
        t.len() < n,
        forall|i: int| 0 <= i < t.len() ==> 0 <= #[trigger] t[i] < n,
    ensures
        0 <= b < n,
        !t.contains(b),
{
    if forall|b: int| 0 <= b < n ==> t.contains(b) {
        vstd::set_lib::lemma_int_range(0, n);
        t.unique_seq_to_set();
        assert(vstd::set_lib::set_int_range(0, n).subset_of(t.to_set()));
        vstd::set_lib::lemma_len_subset(vstd::set_lib::set_int_range(0, n), t.to_set());
        assert(false);
    }
    choose|b: int| 0 <= b < n && !t.contains(b)
}

} // verus!
