use vstd::prelude::*;

use crate::hdbscan::{child_is, first_index, lemma_first_index};
use crate::types::CondensedTreeNode;

verus! {

/// The label of cluster `id` among the first `k` selected clusters, if it is among them.
pub open spec fn label_of(clusters: Seq<(usize, i32)>, id: usize, k: nat) -> Option<i32>
    decreases k,
{
    if k == 0 {
        None
    } else {
        let f = label_of(clusters, id, (k - 1) as nat);
        if f is Some {
            f
        } else if clusters[k - 1].0 == id {
            Some(clusters[k - 1].1)
        } else {
            None
        }
    }
}

/// The smaller of two ranks.
pub open spec fn min_rank(a: u64, b: u64) -> u64 {
    if a <= b {
        a
    } else {
        b
    }
}

/// Walking up from node `current` (each step along the entry that records it as a child, to
/// that entry's parent), the first selected cluster met, with the least lambda rank of the
/// entries walked (starting from `lambda`); `None` when the walk ends first.
pub open spec fn nearest_cluster(
    es: Seq<CondensedTreeNode>,
    lr: Seq<u64>,
    clusters: Seq<(usize, i32)>,
    current: usize,
    lambda: u64,
) -> Option<(i32, u64)>
    decreases usize::MAX - current,
{
    let f = first_index(es.len() as int, child_is(es, current as int), 0);
    if 0 <= f < es.len() && es[f].parent > current {
        let p = es[f].parent;
        let l = min_rank(lambda, lr[f]);
        match label_of(clusters, p, clusters.len()) {
            Some(label) => Some((label, l)),
            None => nearest_cluster(es, lr, clusters, p, l),
        }
    } else {
        None
    }
}

/// The cluster label and lambda rank that bubble `p` receives.
pub open spec fn eom_assignment(
    es: Seq<CondensedTreeNode>,
    lr: Seq<u64>,
    clusters: Seq<(usize, i32)>,
    p: int,
) -> Option<(i32, u64)> {
    nearest_cluster(es, lr, clusters, p as usize, u64::MAX)
}

fn label_of_cluster(clusters: &Vec<(usize, i32)>, id: usize) -> (r: Option<i32>)
    ensures
        r == label_of(clusters@, id, clusters.len() as nat),
{
    let mut k: usize = 0;
    while k < clusters.len()
        invariant
            k <= clusters.len(),
            label_of(clusters@, id, k as nat) is None,
        decreases clusters.len() - k,
    {
        if clusters[k].0 == id {
            proof {
                lemma_label_stable(clusters@, id, (k + 1) as nat, clusters.len() as nat);
            }
            return Some(clusters[k].1);
        }
        k = k + 1;
    }
    None
}

proof fn lemma_label_stable(clusters: Seq<(usize, i32)>, id: usize, k: nat, m: nat)
    requires
        k <= m,
        label_of(clusters, id, k) is Some,
    ensures
        label_of(clusters, id, m) == label_of(clusters, id, k),
    decreases m - k,
{
    if k < m {
        lemma_label_stable(clusters, id, k, (m - 1) as nat);
    }
}

/// Excess-of-mass labelling once the clusters are chosen: each of the `n` bubbles walks up
/// the condensed tree to the nearest selected cluster and takes that cluster's label,
/// together with the least lambda rank met on the way.  `lambda_ranks[i]` ranks the lambda of
/// entry `i`, and `clusters` pairs each selected cluster with its label.
pub fn assign_eom_labels(
    condensed: &Vec<CondensedTreeNode>,
    lambda_ranks: &Vec<u64>,
    n: usize,
    clusters: &Vec<(usize, i32)>,
) -> (assigned: Vec<Option<(i32, u64)>>)
    requires
        lambda_ranks.len() == condensed.len(),
        forall|i: int| 0 <= i < condensed.len() ==> (#[trigger] condensed@[i]).parent < usize::MAX,
    ensures
        assigned.len() == n,
        forall|p: int|
            0 <= p < n ==> #[trigger] assigned@[p] == eom_assignment(
                condensed@,
                lambda_ranks@,
                clusters@,
                p,
            ),
{
    let ghost es = condensed@;
    let ghost lr = lambda_ranks@;
    let len = condensed.len();
    // The largest node id recorded as a child.
    let mut max_id: usize = 0;
    let mut k: usize = 0;
    while k < len
        invariant
            len == condensed.len(),
            k <= len,
            forall|i: int| 0 <= i < k ==> (#[trigger] condensed@[i]).child <= max_id,
        decreases len - k,
    {
        if condensed[k].child > max_id {
            max_id = condensed[k].child;
        }
        k = k + 1;
    }
    // For each node id up to `max_id`, the first entry that records it as a child.
    let mut entry_of: Vec<Option<usize>> = Vec::new();
    while entry_of.len() <= max_id
        invariant
            entry_of.len() <= max_id + 1,
            forall|x: int| 0 <= x < entry_of.len() ==> entry_of@[x] is None,
        decreases max_id + 1 - entry_of.len(),
    {
        entry_of.push(None);
    }
    let mut k: usize = 0;
    while k < len
        invariant
            es == condensed@,
            len == condensed.len(),
            k <= len,
            entry_of.len() == max_id + 1,
            forall|i: int| 0 <= i < len ==> (#[trigger] condensed@[i]).child <= max_id,
            forall|x: int|
                0 <= x <= max_id ==> match #[trigger] entry_of@[x] {
                    Some(f) => f < k && es[f as int].child == x && forall|j: int|
                        0 <= j < f ==> es[j].child != x,
                    None => forall|j: int| 0 <= j < k ==> es[j].child != x,
                },
        decreases len - k,
    {
        let x = condensed[k].child;
        if entry_of[x].is_none() {
            entry_of.set(x, Some(k));
        }
        k = k + 1;
    }
    let mut assigned: Vec<Option<(i32, u64)>> = Vec::new();
    let mut point: usize = 0;
    while point < n
        invariant
            es == condensed@,
            lr == lambda_ranks@,
            len == condensed.len(),
            lambda_ranks.len() == len,
            entry_of.len() == max_id + 1,
            forall|i: int| 0 <= i < len ==> (#[trigger] condensed@[i]).child <= max_id,
            forall|i: int| 0 <= i < len ==> (#[trigger] condensed@[i]).parent < usize::MAX,
            forall|x: int|
                0 <= x <= max_id ==> match #[trigger] entry_of@[x] {
                    Some(f) => f < len && es[f as int].child == x && forall|j: int|
                        0 <= j < f ==> es[j].child != x,
                    None => forall|j: int| 0 <= j < len ==> es[j].child != x,
                },
            point <= n,
            assigned.len() == point,
            forall|p: int|
                0 <= p < point ==> #[trigger] assigned@[p] == eom_assignment(es, lr, clusters@, p),
        decreases n - point,
    {
        let mut current = point;
        let mut lambda: u64 = u64::MAX;
        let mut found: Option<(i32, u64)> = None;
        loop
            invariant_except_break
                es == condensed@,
                lr == lambda_ranks@,
                len == condensed.len(),
                lambda_ranks.len() == len,
                entry_of.len() == max_id + 1,
                forall|i: int| 0 <= i < len ==> (#[trigger] condensed@[i]).child <= max_id,
                forall|i: int| 0 <= i < len ==> (#[trigger] condensed@[i]).parent < usize::MAX,
                forall|x: int|
                    0 <= x <= max_id ==> match #[trigger] entry_of@[x] {
                        Some(f) => f < len && es[f as int].child == x && forall|j: int|
                            0 <= j < f ==> es[j].child != x,
                        None => forall|j: int| 0 <= j < len ==> es[j].child != x,
                    },
                found is None,
                nearest_cluster(es, lr, clusters@, point, u64::MAX) == nearest_cluster(
                    es,
                    lr,
                    clusters@,
                    current,
                    lambda,
                ),
            ensures
                found == nearest_cluster(es, lr, clusters@, point, u64::MAX),
            decreases usize::MAX - current,
        {
            let ghost pr = child_is(es, current as int);
            let f = if current > max_id {
                None
            } else {
                entry_of[current]
            };
            match f {
                None => {
                    proof {
                        assert forall|j: int| 0 <= j < len implies !#[trigger] pr(j) by {
                            if current <= max_id {
                                assert(entry_of@[current as int] is None);
                            }
                        }
                        lemma_first_index(len as int, pr, 0, len as int);
                    }
                    break;
                },
                Some(f) => {
                    proof {
                        assert(entry_of@[current as int] == Some(f));
                        assert forall|j: int| 0 <= j < f implies !#[trigger] pr(j) by {}
                        lemma_first_index(len as int, pr, 0, f as int);
                    }
                    let parent = condensed[f].parent;
                    if parent <= current {
                        break;
                    }
                    let edge = lambda_ranks[f];
                    let l = if lambda <= edge {
                        lambda
                    } else {
                        edge
                    };
                    let label = label_of_cluster(clusters, parent);
                    match label {
                        Some(label) => {
                            found = Some((label, l));
                            break;
                        },
                        None => {
                            current = parent;
                            lambda = l;
                        },
                    }
                },
            }
        }
        assigned.push(found);
        point = point + 1;
    }
    assigned
}

/// Node `x` is the parent of some entry: a cluster of the condensed tree.
pub open spec fn is_parent_node(es: Seq<CondensedTreeNode>, x: int) -> bool {
    exists|k: int| 0 <= k < es.len() && #[trigger] es[k].parent == x
}

/// Walking up from `current` (each step along the entry that first records it as a child),
/// some cluster other than `root` whose own stability wins is met.
pub open spec fn blocked_above(
    es: Seq<CondensedTreeNode>,
    root: usize,
    wins: Seq<bool>,
    current: usize,
) -> bool
    decreases usize::MAX - current,
{
    let f = first_index(es.len() as int, child_is(es, current as int), 0);
    if 0 <= f < es.len() && es[f].parent > current {
        let p = es[f].parent;
        if p == root {
            false
        } else if p < wins.len() && wins[p as int] {
            true
        } else {
            blocked_above(es, root, wins, p)
        }
    } else {
        false
    }
}

/// Excess-of-mass selection of cluster `x`: a cluster other than the root whose own
/// stability wins over its children's (`wins[x]`), below no other such cluster.
pub open spec fn eom_selected(es: Seq<CondensedTreeNode>, root: usize, wins: Seq<bool>, x: int) -> bool {
    &&& 0 <= x < wins.len()
    &&& is_parent_node(es, x)
    &&& x != root
    &&& wins[x]
    &&& !blocked_above(es, root, wins, x as usize)
}

/// Excess-of-mass selection once each cluster's comparison is made: `wins[x]` tells whether
/// cluster `x`'s own stability is at least the summed stability chosen below it.  The selected
/// clusters (see `eom_selected`) come out in increasing order of id, labelled 0, 1, ....
pub fn select_eom_clusters(condensed: &Vec<CondensedTreeNode>, root: usize, wins: &Vec<bool>) -> (r:
    Vec<(usize, i32)>)
    requires
        wins.len() <= i32::MAX,
    ensures
        forall|k: int| 0 <= k < r.len() ==> (#[trigger] r@[k]).1 == k,
        forall|k: int| 0 <= k < r.len() ==> eom_selected(condensed@, root, wins@, #[trigger] r@[k].0 as int),
        forall|a: int, b: int| 0 <= a < b < r.len() ==> r@[a].0 < r@[b].0,
        forall|x: int|
            #[trigger] eom_selected(condensed@, root, wins@, x) ==> exists|k: int|
                0 <= k < r.len() && r@[k].0 == x,
{
    let ghost es = condensed@;
    let len = condensed.len();
    let mut r: Vec<(usize, i32)> = Vec::new();
    let mut x: usize = 0;
    while x < wins.len()
        invariant
            es == condensed@,
            len == condensed.len(),
            wins.len() <= i32::MAX,
            x <= wins.len(),
            r.len() <= x,
            forall|k: int| 0 <= k < r.len() ==> (#[trigger] r@[k]).1 == k,
            forall|k: int|
                0 <= k < r.len() ==> eom_selected(es, root, wins@, #[trigger] r@[k].0 as int)
                    && r@[k].0 < x,
            forall|a: int, b: int| 0 <= a < b < r.len() ==> r@[a].0 < r@[b].0,
            forall|y: int|
                0 <= y < x && #[trigger] eom_selected(es, root, wins@, y) ==> exists|k: int|
                    0 <= k < r.len() && r@[k].0 == y,
        decreases wins.len() - x,
    {
        // Is `x` the parent of some entry?
        let mut is_parent = false;
        let mut k: usize = 0;
        while k < len
            invariant
                es == condensed@,
                len == condensed.len(),
                k <= len,
                is_parent <==> exists|q: int| 0 <= q < k && #[trigger] es[q].parent == x,
            decreases len - k,
        {
            if condensed[k].parent == x {
                is_parent = true;
            }
            k = k + 1;
        }
        let mut chosen = is_parent && x != root && wins[x];
        if chosen {
            // Walk up: is some winning cluster other than the root above `x`?
            let mut current = x;
            loop
                invariant_except_break
                    es == condensed@,
                    len == condensed.len(),
                    chosen,
                    blocked_above(es, root, wins@, x) == blocked_above(es, root, wins@, current),
                ensures
                    chosen == !blocked_above(es, root, wins@, x),
                decreases usize::MAX - current,
            {
                let ghost pr = child_is(es, current as int);
                let mut f: usize = 0;
                while f < len && condensed[f].child != current
                    invariant
                        es == condensed@,
                        len == condensed.len(),
                        f <= len,
                        forall|j: int| 0 <= j < f ==> es[j].child != current,
                    decreases len - f,
                {
                    f = f + 1;
                }
                proof {
                    assert forall|j: int| 0 <= j < f implies !#[trigger] pr(j) by {}
                    lemma_first_index(len as int, pr, 0, f as int);
                }
                if f == len {
                    break;
                }
                let p = condensed[f].parent;
                if p <= current || p == root {
                    break;
                }
                if p < wins.len() && wins[p] {
                    chosen = false;
                    break;
                }
                current = p;
            }
        }
        let ghost r0 = r@;
        if chosen {
            proof {
                assert(is_parent_node(es, x as int));
            }
            r.push((x, r.len() as i32));
            proof {
                assert forall|y: int|
                    0 <= y < x + 1 && #[trigger] eom_selected(es, root, wins@, y) implies exists|k: int|
                    0 <= k < r.len() && r@[k].0 == y by {
                    if y < x {
                        let k = choose|k: int| 0 <= k < r0.len() && r0[k].0 == y;
                        assert(r@[k] == r0[k]);
                    } else {
                        assert(r@[r.len() - 1].0 == y);
                    }
                }
            }
        } else {
            proof {
                if eom_selected(es, root, wins@, x as int) {
                    let q = choose|q: int| 0 <= q < es.len() && #[trigger] es[q].parent == x;
                    assert(is_parent);
                }
            }
        }
        x = x + 1;
    }
    proof {
        assert forall|y: int| #[trigger] eom_selected(es, root, wins@, y) implies exists|k: int|
            0 <= k < r.len() && r@[k].0 == y by {}
    }
    r
}

} // verus!
