use vstd::prelude::*;

use crate::mst::{is_square, matrix};

verus! {

/// What keeping the bubble tree's leaf count at its target calls for next.
#[derive(Clone, Copy, Debug, PartialEq, Eq, Structural)]
pub enum CompressionStep {
    /// Too many leaves: dissolve the smallest leaf and re-insert its points.
    RemoveUnderfilled,
    /// Too few leaves: split the largest leaf in two.
    SplitOverfilled,
    /// On target: move the points farthest from the largest leaf's centroid elsewhere.
    Reorganize,
}

/// The step to take with `num_leaves` leaves against a target of `target` leaves.
pub fn compression_step(num_leaves: usize, target: usize) -> (step: CompressionStep)
    ensures
        step == if num_leaves > target {
            CompressionStep::RemoveUnderfilled
        } else if num_leaves < target {
            CompressionStep::SplitOverfilled
        } else {
            CompressionStep::Reorganize
        },
{
    if num_leaves > target {
        CompressionStep::RemoveUnderfilled
    } else if num_leaves < target {
        CompressionStep::SplitOverfilled
    } else {
        CompressionStep::Reorganize
    }
}

/// The first leaf of least size, among the leaves (in walk order) whose size is below
/// `usize::MAX`.
pub fn most_underfilled_leaf(sizes: &Vec<usize>) -> (r: Option<usize>)
    ensures
        r is None <==> forall|i: int| 0 <= i < sizes.len() ==> sizes@[i] == usize::MAX,
        r matches Some(b) ==> {
            &&& b < sizes.len()
            &&& sizes@[b as int] < usize::MAX
            &&& forall|i: int| 0 <= i < sizes.len() ==> sizes@[i] >= sizes@[b as int]
            &&& forall|i: int| 0 <= i < b ==> sizes@[i] > sizes@[b as int]
        },
{
    let mut best: Option<usize> = None;
    let mut best_n: usize = usize::MAX;
    let mut i: usize = 0;
    while i < sizes.len()
        invariant
            i <= sizes.len(),
            best is None ==> best_n == usize::MAX && forall|j: int|
                0 <= j < i ==> sizes@[j] == usize::MAX,
            best matches Some(b) ==> {
                &&& b < i
                &&& best_n == sizes@[b as int]
                &&& best_n < usize::MAX
                &&& forall|j: int| 0 <= j < i ==> sizes@[j] >= best_n
                &&& forall|j: int| 0 <= j < b ==> sizes@[j] > best_n
            },
        decreases sizes.len() - i,
    {
        if sizes[i] < best_n {
            best_n = sizes[i];
            best = Some(i);
        }
        i = i + 1;
    }
    best
}

/// The first leaf of largest size, among the leaves (in walk order) that are not empty.
pub fn most_overfilled_leaf(sizes: &Vec<usize>) -> (r: Option<usize>)
    ensures
        r is None <==> forall|i: int| 0 <= i < sizes.len() ==> sizes@[i] == 0,
        r matches Some(b) ==> {
            &&& b < sizes.len()
            &&& sizes@[b as int] > 0
            &&& forall|i: int| 0 <= i < sizes.len() ==> sizes@[i] <= sizes@[b as int]
            &&& forall|i: int| 0 <= i < b ==> sizes@[i] < sizes@[b as int]
        },
{
    let mut best: Option<usize> = None;
    let mut best_n: usize = 0;
    let mut i: usize = 0;
    while i < sizes.len()
        invariant
            i <= sizes.len(),
            best is None ==> best_n == 0 && forall|j: int| 0 <= j < i ==> sizes@[j] == 0,
            best matches Some(b) ==> {
                &&& b < i
                &&& best_n == sizes@[b as int]
                &&& best_n > 0
                &&& forall|j: int| 0 <= j < i ==> sizes@[j] <= best_n
                &&& forall|j: int| 0 <= j < b ==> sizes@[j] < best_n
            },
        decreases sizes.len() - i,
    {
        if sizes[i] > best_n {
            best_n = sizes[i];
            best = Some(i);
        }
        i = i + 1;
    }
    best
}

/// The child to descend into: the first child at the least distance rank, among those whose
/// distance is finite (below `u64::MAX`).
pub fn closest_child(ranks: &Vec<u64>) -> (r: Option<usize>)
    ensures
        r is None <==> forall|i: int| 0 <= i < ranks.len() ==> ranks@[i] == u64::MAX,
        r matches Some(b) ==> {
            &&& b < ranks.len()
            &&& ranks@[b as int] < u64::MAX
            &&& forall|i: int| 0 <= i < ranks.len() ==> ranks@[i] >= ranks@[b as int]
            &&& forall|i: int| 0 <= i < b ==> ranks@[i] > ranks@[b as int]
        },
{
    let mut best: Option<usize> = None;
    let mut best_dist: u64 = u64::MAX;
    let mut i: usize = 0;
    while i < ranks.len()
        invariant
            i <= ranks.len(),
            best is None ==> best_dist == u64::MAX && forall|j: int|
                0 <= j < i ==> ranks@[j] == u64::MAX,
            best matches Some(b) ==> {
                &&& b < i
                &&& best_dist == ranks@[b as int]
                &&& best_dist < u64::MAX
                &&& forall|j: int| 0 <= j < i ==> ranks@[j] >= best_dist
                &&& forall|j: int| 0 <= j < b ==> ranks@[j] > best_dist
            },
        decreases ranks.len() - i,
    {
        if ranks[i] < best_dist {
            best_dist = ranks[i];
            best = Some(i);
        }
        i = i + 1;
    }
    best
}

/// Pair `(i, j)` comes before pair `(a, b)` in row-major order.
pub open spec fn pair_before(i: int, j: int, a: int, b: int) -> bool {
    i < a || (i == a && j < b)
}

/// Some pair of distinct points lies farther apart than `floor`.
pub open spec fn has_pair_above(d: Seq<Seq<u64>>, floor: u64) -> bool {
    exists|i: int, j: int| 0 <= i < j < d.len() && #[trigger] d[i][j] > floor
}

/// The seeds of a split: the first pair `i < j` (row-major) at the largest distance rank, if
/// that rank is above `floor`; `(0, 1)` otherwise.
pub fn farthest_pair(dist: &Vec<Vec<u64>>, floor: u64) -> (r: (usize, usize))
    requires
        is_square(matrix(dist@)),
    ensures
        !has_pair_above(matrix(dist@), floor) ==> r == (0usize, 1usize),
        has_pair_above(matrix(dist@), floor) ==> {
            let d = matrix(dist@);
            let best = d[r.0 as int][r.1 as int];
            &&& r.0 < r.1 < dist.len()
            &&& best > floor
            &&& forall|i: int, j: int| 0 <= i < j < d.len() ==> d[i][j] <= best
            &&& forall|i: int, j: int|
                0 <= i < j < d.len() && pair_before(i, j, r.0 as int, r.1 as int) ==> d[i][j]
                    < best
        },
{
    let ghost d = matrix(dist@);
    let n = dist.len();
    let mut max_dist: u64 = floor;
    let mut pair: (usize, usize) = (0, 1);
    let mut found: bool = false;
    let mut i: usize = 0;
    while i < n
        invariant
            n == dist.len(),
            d == matrix(dist@),
            is_square(d),
            i <= n,
            !found ==> pair == (0usize, 1usize) && max_dist == floor && forall|a: int, b: int|
                0 <= a < b < n && a < i ==> d[a][b] <= floor,
            found ==> {
                &&& pair.0 < pair.1 < n
                &&& pair.0 < i
                &&& max_dist == d[pair.0 as int][pair.1 as int]
                &&& max_dist > floor
                &&& forall|a: int, b: int| 0 <= a < b < n && a < i ==> d[a][b] <= max_dist
                &&& forall|a: int, b: int|
                    0 <= a < b < n && pair_before(a, b, pair.0 as int, pair.1 as int) ==> d[a][b]
                        < max_dist
            },
        decreases n - i,
    {
        assert(d[i as int] == dist@[i as int]@);
        let mut j: usize = i + 1;
        while j < n
            invariant
                n == dist.len(),
                d == matrix(dist@),
                is_square(d),
                d[i as int] == dist@[i as int]@,
                i < n,
                i + 1 <= j <= n,
                !found ==> pair == (0usize, 1usize) && max_dist == floor && (forall|a: int, b: int|
                    0 <= a < b < n && a < i ==> d[a][b] <= floor) && (forall|b: int|
                    i < b < j ==> d[i as int][b] <= floor),
                found ==> {
                    &&& pair.0 < pair.1 < n
                    &&& pair.0 <= i
                    &&& pair.0 == i ==> pair.1 < j
                    &&& max_dist == d[pair.0 as int][pair.1 as int]
                    &&& max_dist > floor
                    &&& forall|a: int, b: int| 0 <= a < b < n && a < i ==> d[a][b] <= max_dist
                    &&& forall|b: int| i < b < j ==> d[i as int][b] <= max_dist
                    &&& forall|a: int, b: int|
                        0 <= a < b < n && pair_before(a, b, pair.0 as int, pair.1 as int)
                            ==> d[a][b] < max_dist
                },
            decreases n - j,
        {
            let dij = dist[i][j];
            if dij > max_dist {
                max_dist = dij;
                pair = (i, j);
                found = true;
            }
            j = j + 1;
        }
        i = i + 1;
    }
    proof {
        if has_pair_above(d, floor) {
            let (a, b) = choose|a: int, b: int| 0 <= a < b < d.len() && #[trigger] d[a][b] > floor;
            assert(found);
        }
        if found {
            assert(d[pair.0 as int][pair.1 as int] > floor);
            assert(has_pair_above(d, floor));
        }
    }
    pair
}

/// Number of items among the first `k` that come before item `i` in the stable order of
/// decreasing distance.
pub open spec fn rank_desc_before(d: Seq<u64>, i: int, k: nat) -> nat
    decreases k,
{
    if k == 0 {
        0
    } else {
        rank_desc_before(d, i, (k - 1) as nat) + if d[k - 1] > d[i] || (d[k - 1] == d[i] && k - 1
            < i) {
            1nat
        } else {
            0nat
        }
    }
}

/// Item `x` comes before item `i` in the stable order of decreasing distance.
pub open spec fn desc_before(d: Seq<u64>, x: int, i: int) -> bool {
    d[x] > d[i] || (d[x] == d[i] && x < i)
}

proof fn lemma_rank_desc_bounded(d: Seq<u64>, i: int, k: nat)
    requires
        0 <= i < d.len(),
        k <= d.len(),
    ensures
        rank_desc_before(d, i, k) + (if i < k {
            1int
        } else {
            0int
        }) <= k,
    decreases k,
{
    if k > 0 {
        lemma_rank_desc_bounded(d, i, (k - 1) as nat);
    }
}

proof fn lemma_rank_desc_increases(d: Seq<u64>, i: int, j: int, k: nat)
    requires
        0 <= i < d.len(),
        0 <= j < d.len(),
        desc_before(d, i, j),
        k <= d.len(),
    ensures
        rank_desc_before(d, i, k) + (if i < k {
            1int
        } else {
            0int
        }) <= rank_desc_before(d, j, k),
    decreases k,
{
    if k > 0 {
        lemma_rank_desc_increases(d, i, j, (k - 1) as nat);
    }
}

/// The positions in the stable order of decreasing distance.
pub open spec fn desc_position(d: Seq<u64>) -> spec_fn(int) -> int {
    |i: int| rank_desc_before(d, i, d.len()) as int
}

/// Exactly `min(m, n)` of `n` items are among the `m` farthest.
pub proof fn lemma_farthest_members_count(d: Seq<u64>, m: int)
    requires
        m >= 0,
    ensures
        Set::new(|i: int| 0 <= i < d.len() && rank_desc_before(d, i, d.len()) < m).finite(),
        Set::new(|i: int| 0 <= i < d.len() && rank_desc_before(d, i, d.len()) < m).len() == if m
            <= d.len() {
            m
        } else {
            d.len() as int
        },
{
    let n = d.len() as int;
    let pos = desc_position(d);
    let all = vstd::set_lib::set_int_range(0, n);
    let lim = if m <= n {
        m
    } else {
        n
    };
    assert forall|i: int, j: int|
        all.contains(i) && all.contains(j) && #[trigger] pos(i) == #[trigger] pos(j) implies i
        == j by {
        if i != j {
            if desc_before(d, i, j) {
                lemma_rank_desc_increases(d, i, j, n as nat);
            } else {
                assert(desc_before(d, j, i));
                lemma_rank_desc_increases(d, j, i, n as nat);
            }
        }
    }
    vstd::set_lib::lemma_int_range(0, n);
    vstd::set_lib::lemma_int_range(0, lim);
    let image = all.map(pos);
    vstd::set_lib::lemma_map_size(all, image, pos);
    assert(image.subset_of(all)) by {
        assert forall|p: int| image.contains(p) implies all.contains(p) by {
            let i = choose|i: int| all.contains(i) && pos(i) == p;
            lemma_rank_desc_bounded(d, i, n as nat);
        }
    }
    vstd::set_lib::lemma_subset_equality(image, all);
    let sel = Set::new(|i: int| 0 <= i < d.len() && rank_desc_before(d, i, d.len()) < m);
    assert(sel.subset_of(all));
    vstd::set_lib::lemma_len_subset(sel, all);
    assert(sel.map(pos) =~= vstd::set_lib::set_int_range(0, lim)) by {
        assert forall|p: int| sel.map(pos).contains(p) implies vstd::set_lib::set_int_range(
            0,
            lim,
        ).contains(p) by {
            let i = choose|i: int| sel.contains(i) && pos(i) == p;
            lemma_rank_desc_bounded(d, i, n as nat);
        }
        assert forall|p: int| vstd::set_lib::set_int_range(0, lim).contains(p) implies sel.map(
            pos,
        ).contains(p) by {
            assert(image.contains(p));
            let i = choose|i: int| all.contains(i) && pos(i) == p;
            assert(sel.contains(i));
        }
    }
    vstd::set_lib::lemma_map_size(sel, vstd::set_lib::set_int_range(0, lim), pos);
}

/// Marks the `m` items farthest from the centre: item `i` is taken when fewer than `m` items
/// come before it in the stable order of decreasing distance.
pub fn farthest_members(dist: &Vec<u64>, m: usize) -> (selected: Vec<bool>)
    ensures
        selected.len() == dist.len(),
        forall|i: int|
            0 <= i < dist.len() ==> selected@[i] == (rank_desc_before(dist@, i, dist.len() as nat)
                < m),
{
    let n = dist.len();
    let mut selected: Vec<bool> = Vec::new();
    let mut i: usize = 0;
    while i < n
        invariant
            n == dist.len(),
            i <= n,
            selected.len() == i,
            forall|x: int|
                0 <= x < i ==> selected@[x] == (rank_desc_before(dist@, x, n as nat) < m),
        decreases n - i,
    {
        let mut count: usize = 0;
        let mut k: usize = 0;
        while k < n
            invariant
                n == dist.len(),
                i < n,
                k <= n,
                count == rank_desc_before(dist@, i as int, k as nat),
                count <= k,
            decreases n - k,
        {
            if dist[k] > dist[i] || (dist[k] == dist[i] && k < i) {
                count = count + 1;
            }
            k = k + 1;
        }
        selected.push(count < m);
        i = i + 1;
    }
    selected
}

/// For each point, whether it is strictly closer to the first seed than to the second.
pub fn closer_to_first(to_first: &Vec<u64>, to_second: &Vec<u64>) -> (r: Vec<bool>)
    requires
        to_first.len() == to_second.len(),
    ensures
        r.len() == to_first.len(),
        forall|i: int| 0 <= i < r.len() ==> r@[i] == (to_first@[i] < to_second@[i]),
{
    let mut r: Vec<bool> = Vec::new();
    let mut i: usize = 0;
    while i < to_first.len()
        invariant
            to_first.len() == to_second.len(),
            i <= to_first.len(),
            r.len() == i,
            forall|x: int| 0 <= x < i ==> r@[x] == (to_first@[x] < to_second@[x]),
        decreases to_first.len() - i,
    {
        r.push(to_first[i] < to_second[i]);
        i = i + 1;
    }
    r
}

} // verus!
