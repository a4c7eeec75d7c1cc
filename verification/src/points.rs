use vstd::prelude::*;

use crate::balance::{count_flag, lemma_count_total, lemma_count_update};
use crate::types::HdbscanError;

verus! {

/// The ids handed out to inserted points: ids are given in insertion order starting from 0,
/// each point has the index's dimension, and a removed id stays removed.
pub struct PointRegistry {
    dim: usize,
    present: Vec<bool>,
}

impl PointRegistry {
    /// The dimension every point must have.
    pub closed spec fn dim(&self) -> usize {
        self.dim
    }

    /// For each id handed out so far, whether its point is still in the index.
    pub closed spec fn present(&self) -> Seq<bool> {
        self.present@
    }

    /// An empty registry for points of dimension `dim`.
    pub fn new(dim: usize) -> (r: Self)
        ensures
            r.dim() == dim,
            r.present() == Seq::<bool>::empty(),
            r.live_count() == 0,
    {
        PointRegistry { dim, present: Vec::new() }
    }

    /// Checks the length of a new point and hands out its id: the number of ids handed out
    /// before it.  A point of the wrong length is refused and nothing changes.
    pub fn register(&mut self, len: usize) -> (r: Result<usize, HdbscanError>)
        ensures
            final(self).dim() == old(self).dim(),
            len != old(self).dim() ==> final(self).present() == old(self).present(),
            len != old(self).dim() ==> (r matches Err(
                HdbscanError::InvalidDimension { expected, actual },
            ) && expected == old(self).dim() && actual == len),
            len == old(self).dim() ==> r == Ok::<usize, HdbscanError>(
                old(self).present().len() as usize,
            ) && final(self).present() == old(self).present().push(true),
            final(self).live_count() == old(self).live_count() + if len == old(self).dim() {
                1int
            } else {
                0int
            },
    {
        if len != self.dim {
            return Err(HdbscanError::InvalidDimension { expected: self.dim, actual: len });
        }
        let id = self.present.len();
        let ghost p0 = self.present@;
        self.present.push(true);
        proof {
            assert(self.present@.drop_last() =~= p0);
            lemma_count_prefix(self.present@, p0.len() as int);
        }
        Ok(id)
    }

    /// Removes the point `id`: refused with `PointNotFound` when the id was never handed out;
    /// otherwise tells whether the point was still present, and marks it removed.
    pub fn release(&mut self, id: usize) -> (r: Result<bool, HdbscanError>)
        ensures
            final(self).dim() == old(self).dim(),
            id >= old(self).present().len() ==> final(self).present() == old(self).present(),
            id >= old(self).present().len() ==> (r matches Err(HdbscanError::PointNotFound(x))
                && x == id),
            id < old(self).present().len() ==> r == Ok::<bool, HdbscanError>(
                old(self).present()[id as int],
            ) && final(self).present() == old(self).present().update(id as int, false),
            final(self).live_count() == old(self).live_count() - if r == Ok::<bool, HdbscanError>(
                true,
            ) {
                1int
            } else {
                0int
            },
    {
        if id >= self.present.len() {
            return Err(HdbscanError::PointNotFound(id));
        }
        let was_present = self.present[id];
        proof {
            lemma_count_update(self.present@, id as int, false, true, self.present@.len() as int);
        }
        self.present.set(id, false);
        Ok(was_present)
    }

    /// The number of points still present.
    pub closed spec fn live_count(&self) -> int {
        count_flag(self.present@, true, self.present@.len() as int)
    }

    /// Removes the points `ids` in order, as `release` does each: stops at the first id never
    /// handed out, with `PointNotFound` for it, after removing the ids before it.  Returns the
    /// ids that were still present, each once, in the order they were removed; the number of
    /// present points drops by exactly their number.
    pub fn release_all(&mut self, ids: &Vec<usize>) -> (r: (Vec<usize>, Result<(), HdbscanError>))
        ensures
            final(self).dim() == old(self).dim(),
            final(self).present().len() == old(self).present().len(),
            ({
                let n = old(self).present().len();
                let k = first_unknown(ids@, n, 0);
                &&& 0 <= k <= ids.len()
                &&& (k < ids.len() <==> r.1 is Err)
                &&& k < ids.len() ==> (r.1 matches Err(HdbscanError::PointNotFound(x)) && x
                    == ids@[k])
                &&& final(self).present() == cleared(old(self).present(), ids@.take(k))
                &&& r.0@.no_duplicates()
                &&& forall|x: usize|
                    #[trigger] r.0@.contains(x) <==> (x < n && old(self).present()[x as int]
                        && ids@.take(k).contains(x))
                &&& final(self).live_count() == old(self).live_count() - r.0.len()
            }),
    {
        let ghost p0 = self.present@;
        let ghost n = p0.len();
        let mut released: Vec<usize> = Vec::new();
        let mut j: usize = 0;
        while j < ids.len()
            invariant
                self.dim == old(self).dim,
                p0 == old(self).present@,
                n == p0.len(),
                self.present@.len() == n,
                j <= ids.len(),
                forall|q: int| 0 <= q < j ==> ids@[q] < n,
                self.present@ == cleared(p0, ids@.take(j as int)),
                released@.no_duplicates(),
                forall|x: usize|
                    #[trigger] released@.contains(x) <==> (x < n && p0[x as int] && ids@.take(
                        j as int,
                    ).contains(x)),
                count_flag(self.present@, true, n as int) == count_flag(p0, true, n as int)
                    - released.len(),
            decreases ids.len() - j,
        {
            let id = ids[j];
            proof {
                assert(ids@.take(j + 1) =~= ids@.take(j as int).push(id));
            }
            if id >= self.present.len() {
                proof {
                    lemma_first_unknown(ids@, n, 0, j as int);
                }
                return (released, Err(HdbscanError::PointNotFound(id)));
            }
            let ghost r0 = released@;
            let ghost was = self.present@[id as int];
            if self.present[id] {
                let ghost before = self.present@;
                self.present.set(id, false);
                proof {
                    lemma_count_update(before, id as int, false, true, n as int);
                    assert(!released@.contains(id));
                }
                released.push(id);
            }
            proof {
                let t0 = ids@.take(j as int);
                assert(ids@.take(j + 1) == t0.push(id));
                assert forall|y: usize| #[trigger] t0.push(id).contains(y) <==> (t0.contains(y) || y
                    == id) by {
                    lemma_push_contains(t0, id, y);
                }
                assert forall|x: int| 0 <= x < n implies #[trigger] self.present@[x] == cleared(
                    p0,
                    t0.push(id),
                )[x] by {
                    assert(t0.push(id).contains(x as usize) <==> (t0.contains(x as usize) || x as usize
                        == id));
                }
                assert(self.present@ =~= cleared(p0, ids@.take(j + 1)));
                assert forall|x: usize| #[trigger] released@.contains(x) <==> (x < n && p0[x as int]
                    && ids@.take(j + 1).contains(x)) by {
                    assert(t0.push(id).contains(x) <==> (t0.contains(x) || x == id));
                    assert(r0.contains(x) <==> (x < n && p0[x as int] && t0.contains(x)));
                    if was {
                        assert(released@ == r0.push(id));
                        lemma_push_contains(r0, id, x);
                        assert(p0[id as int] && !t0.contains(id));
                    } else {
                        assert(released@ == r0);
                        if x == id {
                            assert(!(p0[id as int] && !t0.contains(id)));
                        }
                    }
                }
            }
            j = j + 1;
        }
        proof {
            lemma_first_unknown(ids@, n, 0, ids.len() as int);
            assert(ids@.take(ids.len() as int) =~= ids@);
        }
        (released, Ok(()))
    }

    /// The number of points still present.
    pub fn num_present(&self) -> (n: usize)
        ensures
            n == self.live_count(),
    {
        let mut c: usize = 0;
        let mut i: usize = 0;
        while i < self.present.len()
            invariant
                i <= self.present.len(),
                c as int == count_flag(self.present@, true, i as int),
                c <= i,
            decreases self.present.len() - i,
        {
            proof {
                lemma_count_total(self.present@, i as int);
            }
            if self.present[i] {
                c = c + 1;
            }
            i = i + 1;
        }
        c
    }

    /// The number of ids handed out so far.
    pub fn num_registered(&self) -> (n: usize)
        ensures
            n == self.present().len(),
    {
        self.present.len()
    }
}

/// The presence flags once the ids in `s` are removed.
pub open spec fn cleared(p: Seq<bool>, s: Seq<usize>) -> Seq<bool> {
    Seq::new(p.len(), |x: int| p[x] && !s.contains(x as usize))
}

/// Position of the first id in `ids` from `j` on that was never handed out (with `n` ids
/// handed out), or the length of `ids`.
pub open spec fn first_unknown(ids: Seq<usize>, n: nat, j: int) -> int
    decreases ids.len() - j,
{
    if j >= ids.len() {
        ids.len() as int
    } else if ids[j] >= n {
        j
    } else {
        first_unknown(ids, n, j + 1)
    }
}

proof fn lemma_first_unknown(ids: Seq<usize>, n: nat, j: int, k: int)
    requires
        0 <= j <= k <= ids.len(),
        forall|q: int| j <= q < k ==> ids[q] < n,
        k == ids.len() || ids[k] >= n,
    ensures
        first_unknown(ids, n, j) == k,
    decreases k - j,
{
    if j < k {
        lemma_first_unknown(ids, n, j + 1, k);
    }
}

proof fn lemma_push_contains(s: Seq<usize>, a: usize, y: usize)
    ensures
        s.push(a).contains(y) <==> (s.contains(y) || y == a),
{
    if s.contains(y) {
        let t = choose|t: int| 0 <= t < s.len() && s[t] == y;
        assert(s.push(a)[t] == y);
    }
    if y == a {
        assert(s.push(a)[s.len() as int] == y);
    }
    if s.push(a).contains(y) {
        let t = choose|t: int| 0 <= t < s.push(a).len() && s.push(a)[t] == y;
        if t < s.len() {
            assert(s[t] == y);
        }
    }
}

/// Removing the same ids a second time removes nothing more.
pub proof fn lemma_release_all_twice(p: Seq<bool>, s: Seq<usize>)
    ensures
        cleared(cleared(p, s), s) == cleared(p, s),
        forall|x: int| 0 <= x < p.len() && s.contains(x as usize) ==> !#[trigger] cleared(p, s)[x],
{
    assert(cleared(cleared(p, s), s) =~= cleared(p, s));
}

/// The flags of a prefix count the same in any longer sequence.
proof fn lemma_count_prefix(p: Seq<bool>, k: int)
    requires
        0 <= k <= p.len(),
    ensures
        count_flag(p, true, k) == count_flag(p.take(k), true, k),
    decreases k,
{
    if k > 0 {
        lemma_count_prefix(p, k - 1);
        lemma_count_prefix(p.take(k), k - 1);
        assert(p.take(k).take(k - 1) =~= p.take(k - 1));
        lemma_count_prefix(p.take(k - 1), k - 1);
    }
}

/// The number of present points is the number of `true` flags.
pub proof fn lemma_live_count(r: PointRegistry)
    ensures
        r.live_count() == count_flag(r.present(), true, r.present().len() as int),
{
}

/// Removing a point twice: the second removal finds nothing left to remove.
pub proof fn lemma_release_twice(present: Seq<bool>, id: int)
    requires
        0 <= id < present.len(),
    ensures
        present.update(id, false)[id] == false,
        present.update(id, false).update(id, false) == present.update(id, false),
{
    assert(present.update(id, false).update(id, false) =~= present.update(id, false));
}

/// Registering never disturbs the ids handed out before: the new id is past all of them.
pub proof fn lemma_register_keeps_ids(present: Seq<bool>)
    ensures
        forall|i: int| 0 <= i < present.len() ==> #[trigger] present.push(true)[i] == present[i],
        present.push(true)[present.len() as int] == true,
{
}

} // verus!
