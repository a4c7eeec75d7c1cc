use vstd::prelude::*;

verus! {

/// How many of the first `k` flags equal `want`.
pub open spec fn count_flag(f: Seq<bool>, want: bool, k: int) -> int
    decreases k,
{
    if k <= 0 {
        0
    } else {
        count_flag(f, want, k - 1) + if f[k - 1] == want {
            1int
        } else {
            0int
        }
    }
}

/// Among the first `k` items whose flag is `side`, the one with the largest distance in `d`
/// (the first of them on a tie), or -1 when there is none.
pub open spec fn farthest_flagged(f: Seq<bool>, d: Seq<u64>, side: bool, k: int) -> int
    decreases k,
{
    if k <= 0 {
        -1
    } else {
        let b = farthest_flagged(f, d, side, k - 1);
        if f[k - 1] == side && (b < 0 || d[k - 1] > d[b]) {
            k - 1
        } else {
            b
        }
    }
}

/// Moves `t` items out of group `side`, one at a time, each time the one farthest (in `d`)
/// from that group's seed.
pub open spec fn move_farthest(f: Seq<bool>, d: Seq<u64>, side: bool, t: nat) -> Seq<bool>
    decreases t,
{
    if t == 0 {
        f
    } else {
        let g = move_farthest(f, d, side, (t - 1) as nat);
        let b = farthest_flagged(g, d, side, g.len() as int);
        if b < 0 {
            g
        } else {
            g.update(b, !side)
        }
    }
}

/// The two groups of a split once balanced: when `n >= 2m` and one group has fewer than `m`
/// items, items of the other group move over, farthest from their own seed first, until it
/// has `m`.  `d_first` and `d_second` rank each item's distance to the first and second seed.
pub open spec fn balanced(f: Seq<bool>, d_first: Seq<u64>, d_second: Seq<u64>, m: int) -> Seq<
    bool,
> {
    let n = f.len() as int;
    let a = count_flag(f, true, n);
    let b = count_flag(f, false, n);
    if n < 2 * m {
        f
    } else if a < m {
        move_farthest(f, d_second, false, (m - a) as nat)
    } else if b < m {
        move_farthest(f, d_first, true, (m - b) as nat)
    } else {
        f
    }
}

/// Every item is in one of the two groups.
pub proof fn lemma_count_total(f: Seq<bool>, k: int)
    requires
        0 <= k <= f.len(),
    ensures
        count_flag(f, true, k) + count_flag(f, false, k) == k,
        0 <= count_flag(f, true, k),
        0 <= count_flag(f, false, k),
    decreases k,
{
    if k > 0 {
        lemma_count_total(f, k - 1);
    }
}

pub proof fn lemma_count_update(f: Seq<bool>, i: int, v: bool, want: bool, k: int)
    requires
        0 <= i < f.len(),
        0 <= k <= f.len(),
    ensures
        count_flag(f.update(i, v), want, k) == count_flag(f, want, k) - (if i < k && f[i] == want {
            1int
        } else {
            0int
        }) + (if i < k && v == want {
            1int
        } else {
            0int
        }),
    decreases k,
{
    if k > 0 {
        lemma_count_update(f, i, v, want, k - 1);
    }
}

proof fn lemma_farthest_flagged(f: Seq<bool>, d: Seq<u64>, side: bool, k: int)
    requires
        0 <= k <= f.len(),
    ensures
        farthest_flagged(f, d, side, k) < 0 <==> count_flag(f, side, k) == 0,
        farthest_flagged(f, d, side, k) >= 0 ==> farthest_flagged(f, d, side, k) < k && f[farthest_flagged(
            f,
            d,
            side,
            k,
        )] == side,
        farthest_flagged(f, d, side, k) >= -1,
        count_flag(f, side, k) >= 0,
    decreases k,
{
    if k > 0 {
        lemma_farthest_flagged(f, d, side, k - 1);
    }
}

proof fn lemma_move_farthest(f: Seq<bool>, d: Seq<u64>, side: bool, t: nat)
    requires
        t <= count_flag(f, side, f.len() as int),
    ensures
        move_farthest(f, d, side, t).len() == f.len(),
        count_flag(move_farthest(f, d, side, t), side, f.len() as int) == count_flag(
            f,
            side,
            f.len() as int,
        ) - t,
        count_flag(move_farthest(f, d, side, t), !side, f.len() as int) == count_flag(
            f,
            !side,
            f.len() as int,
        ) + t,
    decreases t,
{
    if t > 0 {
        lemma_move_farthest(f, d, side, (t - 1) as nat);
        let g = move_farthest(f, d, side, (t - 1) as nat);
        let n = f.len() as int;
        lemma_farthest_flagged(g, d, side, n);
        let b = farthest_flagged(g, d, side, n);
        lemma_count_update(g, b, !side, side, n);
        lemma_count_update(g, b, !side, !side, n);
    }
}

/// The item of group `side` farthest in `d`, the first on a tie.
fn find_farthest(f: &Vec<bool>, d: &Vec<u64>, side: bool) -> (r: Option<usize>)
    requires
        d.len() == f.len(),
    ensures
        match r {
            Some(b) => b as int == farthest_flagged(f@, d@, side, f.len() as int),
            None => farthest_flagged(f@, d@, side, f.len() as int) < 0,
        },
{
    let mut best: Option<usize> = None;
    let mut k: usize = 0;
    while k < f.len()
        invariant
            d.len() == f.len(),
            k <= f.len(),
            match best {
                Some(b) => b as int == farthest_flagged(f@, d@, side, k as int) && b < k,
                None => farthest_flagged(f@, d@, side, k as int) < 0,
            },
        decreases f.len() - k,
    {
        proof {
            lemma_farthest_flagged(f@, d@, side, k as int);
        }
        if f[k] == side {
            match best {
                None => {
                    best = Some(k);
                },
                Some(b) => {
                    if d[k] > d[b] {
                        best = Some(k);
                    }
                },
            }
        }
        k = k + 1;
    }
    best
}

/// Moves `t` items out of group `side` of `f`, farthest first.
fn move_items(f: &mut Vec<bool>, d: &Vec<u64>, side: bool, t: usize)
    requires
        d.len() == old(f).len(),
    ensures
        final(f)@ == move_farthest(old(f)@, d@, side, t as nat),
{
    let ghost f0 = f@;
    let mut i: usize = 0;
    while i < t
        invariant
            i <= t,
            d.len() == f.len(),
            f@ == move_farthest(f0, d@, side, i as nat),
        decreases t - i,
    {
        match find_farthest(f, d, side) {
            Some(b) => {
                proof {
                    lemma_farthest_flagged(f@, d@, side, f.len() as int);
                }
                f.set(b, !side);
            },
            None => {},
        }
        i = i + 1;
    }
}

/// Balances the two groups of a split: `to_first[i]` puts item `i` with the first seed, and
/// `d_first`, `d_second` rank its distances to the two seeds.  When there are at least
/// `2 * m` items and a group has fewer than `m`, items of the other group move over, farthest
/// from their own seed first, until both groups have at least `m`.
pub fn balance_groups(to_first: &Vec<bool>, d_first: &Vec<u64>, d_second: &Vec<u64>, m: usize) -> (r:
    Vec<bool>)
    requires
        d_first.len() == to_first.len(),
        d_second.len() == to_first.len(),
    ensures
        r@ == balanced(to_first@, d_first@, d_second@, m as int),
        r.len() == to_first.len(),
        to_first.len() >= 2 * m ==> count_flag(r@, true, r.len() as int) >= m && count_flag(
            r@,
            false,
            r.len() as int,
        ) >= m,
{
    let n = to_first.len();
    let mut r: Vec<bool> = Vec::new();
    let mut a: usize = 0;
    let mut k: usize = 0;
    while k < n
        invariant
            n == to_first.len(),
            k <= n,
            r@ == to_first@.take(k as int),
            a as int == count_flag(to_first@, true, k as int),
            a <= k,
        decreases n - k,
    {
        proof {
            lemma_count_total(to_first@, k as int);
        }
        r.push(to_first[k]);
        if to_first[k] {
            a = a + 1;
        }
        proof {
            assert(to_first@.take(k + 1) =~= to_first@.take(k as int).push(to_first@[k as int]));
        }
        k = k + 1;
    }
    proof {
        assert(to_first@.take(n as int) =~= to_first@);
        lemma_count_total(to_first@, n as int);
    }
    let b = n - a;
    if n / 2 < m {
        return r;
    }
    if a < m {
        move_items(&mut r, d_second, false, m - a);
        proof {
            lemma_move_farthest(to_first@, d_second@, false, (m - a) as nat);
        }
    } else if b < m {
        move_items(&mut r, d_first, true, m - b);
        proof {
            lemma_move_farthest(to_first@, d_first@, true, (m - b) as nat);
        }
    }
    r
}

} // verus!
