use vstd::prelude::*;
use vstd::multiset::Multiset;

use crate::balance::{count_flag, lemma_count_total};

verus! {

/// Sum of a sequence of multisets.
pub open spec fn msum(s: Seq<Multiset<usize>>) -> Multiset<usize>
    decreases s.len(),
{
    if s.len() == 0 {
        Multiset::empty()
    } else {
        msum(s.drop_last()).add(s.last())
    }
}

/// Sum of a sequence of integers.
pub open spec fn isum(s: Seq<int>) -> int
    decreases s.len(),
{
    if s.len() == 0 {
        0
    } else {
        isum(s.drop_last()) + s.last()
    }
}

/// Replacing one term of a sum of multisets replaces it in the sum.
proof fn lemma_msum_update(s: Seq<Multiset<usize>>, i: int, x: Multiset<usize>)
    requires
        0 <= i < s.len(),
    ensures
        msum(s.update(i, x)).add(s[i]) == msum(s).add(x),
    decreases s.len(),
{
    let t = s.update(i, x);
    assert(msum(t) == msum(t.drop_last()).add(t.last()));
    assert(msum(s) == msum(s.drop_last()).add(s.last()));
    if i == s.len() - 1 {
        assert(t.drop_last() =~= s.drop_last());
        assert(msum(t).add(s[i]) =~= msum(s).add(x));
    } else {
        assert(t.drop_last() =~= s.drop_last().update(i, x));
        lemma_msum_update(s.drop_last(), i, x);
        let a = msum(t.drop_last());
        let b = msum(s.drop_last());
        assert(a.add(s[i]) == b.add(x));
        assert forall|y: usize| #[trigger] msum(t).add(s[i]).count(y) == msum(s).add(x).count(y) by {
            assert(a.add(s[i]).count(y) == b.add(x).count(y));
        }
        assert(msum(t).add(s[i]) =~= msum(s).add(x));
    }
}

/// An id is in a sum of multisets exactly when it is in one of the terms.
proof fn lemma_msum_count(s: Seq<Multiset<usize>>, x: usize)
    ensures
        msum(s).count(x) > 0 <==> exists|i: int| 0 <= i < s.len() && #[trigger] s[i].count(x) > 0,
    decreases s.len(),
{
    if s.len() > 0 {
        lemma_msum_count(s.drop_last(), x);
        if msum(s.drop_last()).count(x) > 0 {
            let i = choose|i: int| 0 <= i < s.drop_last().len() && #[trigger] s.drop_last()[i].count(x) > 0;
            assert(s[i].count(x) > 0);
        }
        if exists|i: int| 0 <= i < s.len() && #[trigger] s[i].count(x) > 0 {
            let i = choose|i: int| 0 <= i < s.len() && #[trigger] s[i].count(x) > 0;
            if i < s.len() - 1 {
                assert(s.drop_last()[i].count(x) > 0);
            }
        }
    }
}

/// Replacing one term of a sum of integers replaces it in the sum.
proof fn lemma_isum_update(s: Seq<int>, i: int, x: int)
    requires
        0 <= i < s.len(),
    ensures
        isum(s.update(i, x)) == isum(s) - s[i] + x,
    decreases s.len(),
{
    let t = s.update(i, x);
    if i == s.len() - 1 {
        assert(t.drop_last() =~= s.drop_last());
    } else {
        assert(t.drop_last() =~= s.drop_last().update(i, x));
        lemma_isum_update(s.drop_last(), i, x);
    }
}

/// A sum of non-negative integers is non-negative.
/// A sum of zeros and ones is at most the number of terms.
proof fn lemma_isum_at_most_len(s: Seq<int>)
    requires
        forall|i: int| 0 <= i < s.len() ==> 0 <= #[trigger] s[i] <= 1,
    ensures
        isum(s) <= s.len(),
    decreases s.len(),
{
    if s.len() > 0 {
        lemma_isum_at_most_len(s.drop_last());
    }
}

proof fn lemma_isum_nonneg(s: Seq<int>)
    requires
        forall|i: int| 0 <= i < s.len() ==> s[i] >= 0,
    ensures
        isum(s) >= 0,
    decreases s.len(),
{
    if s.len() > 0 {
        lemma_isum_nonneg(s.drop_last());
    }
}

/// Every id but `x`.
pub open spec fn other_than(x: usize) -> spec_fn(usize) -> bool {
    |c: usize| c != x
}

/// Marks the absence of a parent.
pub open spec fn no_parent() -> usize {
    usize::MAX
}

/// The integer skeleton of a Bubble-tree: an arena of nodes, each a leaf holding the ids of
/// its points or an internal node holding the ids of its children.  Nodes that left the tree
/// stay in the arena, marked as no longer alive.
pub struct TreeShape {
    parent: Vec<usize>,
    children: Vec<Vec<usize>>,
    points: Vec<Vec<usize>>,
    leaf: Vec<bool>,
    alive: Vec<bool>,
    root: usize,
    num_leaves: usize,
}

impl TreeShape {
    /// Number of nodes ever created.
    pub closed spec fn len(&self) -> int {
        self.alive@.len() as int
    }

    /// The current root.
    pub closed spec fn root_id(&self) -> int {
        self.root as int
    }

    /// Node `i` is in the tree.
    pub closed spec fn is_alive(&self, i: int) -> bool {
        0 <= i < self.len() && self.alive@[i]
    }

    /// Node `i` is a leaf of the tree.
    pub closed spec fn is_leaf(&self, i: int) -> bool {
        self.is_alive(i) && self.leaf@[i]
    }

    /// The ids of the points held by node `i`.
    pub closed spec fn leaf_points(&self, i: int) -> Seq<usize> {
        self.points@[i]@
    }

    /// The children of node `i`.
    pub closed spec fn children_of(&self, i: int) -> Seq<usize> {
        self.children@[i]@
    }

    /// The parent of node `i`, `no_parent()` for the root.
    pub closed spec fn parent_of(&self, i: int) -> usize {
        self.parent@[i]
    }

    /// What leaf `i` contributes to the points of the tree.
    pub closed spec fn point_terms(&self) -> Seq<Multiset<usize>> {
        Seq::new(
            self.len() as nat,
            |i: int|
                if self.alive@[i] && self.leaf@[i] {
                    self.points@[i]@.to_multiset()
                } else {
                    Multiset::empty()
                },
        )
    }

    /// One for each leaf of the tree.
    pub closed spec fn leaf_terms(&self) -> Seq<int> {
        Seq::new(
            self.len() as nat,
            |i: int|
                if self.alive@[i] && self.leaf@[i] {
                    1int
                } else {
                    0int
                },
        )
    }

    /// The ids of all points held by the leaves of the tree.
    pub closed spec fn all_points(&self) -> Multiset<usize> {
        msum(self.point_terms())
    }

    /// The number of leaves of the tree.
    pub closed spec fn leaf_count(&self) -> int {
        isum(self.leaf_terms())
    }

    /// Well-formedness: the root is alive and has no parent; a leaf has no children and an
    /// internal node no points; the children of a node are alive and name it as their parent,
    /// and every node but the root is a child of its alive internal parent.
    pub closed spec fn wf(&self) -> bool {
        let n = self.len();
        &&& self.parent@.len() == n
        &&& self.children@.len() == n
        &&& self.points@.len() == n
        &&& self.leaf@.len() == n
        &&& self.root < n
        &&& self.alive@[self.root as int]
        &&& self.parent@[self.root as int] == no_parent()
        &&& self.num_leaves as int == self.leaf_count()
        &&& forall|i: int| 0 <= i < n && #[trigger] self.alive@[i] ==> self.node_ok(i)
    }

    /// The links of alive node `i` agree with the rest of the tree.
    pub closed spec fn node_ok(&self, i: int) -> bool {
        let n = self.len();
        &&& self.leaf@[i] ==> self.children@[i]@.len() == 0
        &&& self.leaf@[i] && i != self.root ==> self.points@[i]@.len() > 0
        &&& self.children@[i]@.no_duplicates()
        &&& i != self.root ==> self.parent@[i] as int != i
        &&& !self.leaf@[i] ==> self.points@[i]@.len() == 0
        &&& forall|k: int|
            0 <= k < self.children@[i]@.len() ==> {
                let c = #[trigger] self.children@[i]@[k] as int;
                &&& 0 <= c < n
                &&& self.alive@[c]
                &&& self.parent@[c] as int == i
            }
        &&& i != self.root ==> {
            let p = self.parent@[i] as int;
            &&& 0 <= p < n
            &&& self.alive@[p]
            &&& !self.leaf@[p]
            &&& self.children@[p]@.contains(i as usize)
        }
    }

    /// A tree of one empty leaf, the root.
    pub fn new() -> (t: Self)
        ensures
            t.wf(),
            t.len() == 1,
            t.is_leaf(t.root_id()),
            t.leaf_points(t.root_id()) == Seq::<usize>::empty(),
            t.all_points() == Multiset::<usize>::empty(),
            t.leaf_count() == 1,
    {
        let t = TreeShape {
            parent: vec![usize::MAX],
            children: vec![Vec::new()],
            points: vec![Vec::new()],
            leaf: vec![true],
            alive: vec![true],
            root: 0,
            num_leaves: 1,
        };
        proof {
            assert(t.leaf_terms() =~= seq![1int]);
            assert(isum(seq![1int].drop_last()) == 0);
            let e = t.points@[0]@;
            assert(e =~= Seq::<usize>::empty());
            e.to_multiset_ensures();
            vstd::multiset::lemma_multiset_empty_len(e.to_multiset());
            assert(t.point_terms() =~= seq![Multiset::<usize>::empty()]);
            assert(msum(seq![Multiset::<usize>::empty()].drop_last()) == Multiset::<usize>::empty());
            assert(t.all_points() =~= Multiset::<usize>::empty());
        }
        t
    }

    /// The root node.
    pub fn root(&self) -> (r: usize)
        ensures
            r as int == self.root_id(),
    {
        self.root
    }

    /// The number of nodes ever created; node ids are below it.
    pub fn node_count(&self) -> (r: usize)
        requires
            self.wf(),
        ensures
            r as int == self.len(),
    {
        self.alive.len()
    }

    /// The number of leaves.
    pub fn num_leaves(&self) -> (r: usize)
        requires
            self.wf(),
        ensures
            r as int == self.leaf_count(),
    {
        self.num_leaves
    }

    /// Whether node `i` is in the tree.
    pub fn node_is_alive(&self, i: usize) -> (r: bool)
        requires
            self.wf(),
        ensures
            r == self.is_alive(i as int),
    {
        i < self.alive.len() && self.alive[i]
    }

    /// Whether node `i` is a leaf of the tree.
    pub fn node_is_leaf(&self, i: usize) -> (r: bool)
        requires
            self.wf(),
        ensures
            r == self.is_leaf(i as int),
    {
        i < self.alive.len() && self.alive[i] && self.leaf[i]
    }

    /// The children of node `i`.
    pub fn children(&self, i: usize) -> (r: &Vec<usize>)
        requires
            self.wf(),
            i < self.len(),
        ensures
            r@ == self.children_of(i as int),
    {
        &self.children[i]
    }

    /// The ids of the points held by node `i`.
    pub fn points_of(&self, i: usize) -> (r: &Vec<usize>)
        requires
            self.wf(),
            i < self.len(),
        ensures
            r@ == self.leaf_points(i as int),
    {
        &self.points[i]
    }

    /// The parent of node `i`, if it has one.
    pub fn parent(&self, i: usize) -> (r: Option<usize>)
        requires
            self.wf(),
            i < self.len(),
        ensures
            r == (if self.parent_of(i as int) == no_parent() {
                None
            } else {
                Some(self.parent_of(i as int))
            }),
    {
        if self.parent[i] == usize::MAX {
            None
        } else {
            Some(self.parent[i])
        }
    }

    /// Gives leaf `leaf` a new list of point ids; nothing else changes.
    fn set_points(&mut self, leaf: usize, pts: Vec<usize>)
        requires
            old(self).wf(),
            old(self).is_leaf(leaf as int),
            leaf as int == old(self).root_id() || pts.len() > 0,
        ensures
            final(self).wf(),
            final(self).len() == old(self).len(),
            final(self).root_id() == old(self).root_id(),
            final(self).leaf_count() == old(self).leaf_count(),
            final(self).all_points().add(old(self).leaf_points(leaf as int).to_multiset()) == old(
                self,
            ).all_points().add(pts@.to_multiset()),
            final(self).leaf_points(leaf as int) == pts@,
            forall|i: int|
                0 <= i < old(self).len() && i != leaf ==> #[trigger] final(self).leaf_points(i) == old(
                    self,
                ).leaf_points(i),
            forall|i: int| #[trigger] final(self).is_leaf(i) == old(self).is_leaf(i),
            forall|i: int| #[trigger] final(self).is_alive(i) == old(self).is_alive(i),
            forall|i: int| #[trigger] final(self).children_of(i) == old(self).children_of(i),
            forall|i: int| #[trigger] final(self).parent_of(i) == old(self).parent_of(i),
    {
        let ghost pt0 = self.point_terms();
        let ghost lt0 = self.leaf_terms();
        let ghost old_pts = self.points@[leaf as int]@;
        self.points.set(leaf, pts);
        proof {
            assert(self.point_terms() =~= pt0.update(leaf as int, pts@.to_multiset()));
            assert(self.leaf_terms() =~= lt0);
            lemma_msum_update(pt0, leaf as int, pts@.to_multiset());
        }
    }

    /// Adds point `id` to leaf `leaf`.
    pub fn add_point(&mut self, leaf: usize, id: usize)
        requires
            old(self).wf(),
            old(self).is_leaf(leaf as int),
        ensures
            final(self).wf(),
            final(self).root_id() == old(self).root_id(),
            final(self).leaf_count() == old(self).leaf_count(),
            final(self).all_points() == old(self).all_points().insert(id),
            final(self).leaf_points(leaf as int) == old(self).leaf_points(leaf as int).push(id),
            forall|i: int|
                0 <= i < old(self).len() && i != leaf ==> #[trigger] final(self).leaf_points(i) == old(
                    self,
                ).leaf_points(i),
            forall|i: int| #[trigger] final(self).is_leaf(i) == old(self).is_leaf(i),
            forall|i: int| #[trigger] final(self).children_of(i) == old(self).children_of(i),
            forall|i: int| #[trigger] final(self).parent_of(i) == old(self).parent_of(i),
            forall|i: int| #[trigger] final(self).is_alive(i) == old(self).is_alive(i),
    {
        let mut pts = copy_ids(&self.points[leaf]);
        pts.push(id);
        let ghost before = self.leaf_points(leaf as int);
        let ghost all0 = self.all_points();
        self.set_points(leaf, pts);
        proof {
            before.to_multiset_ensures();
            let x = self.all_points();
            let m = before.to_multiset();
            assert(x.add(m) == all0.add(m.insert(id)));
            assert forall|y: usize| #[trigger] x.count(y) == all0.insert(id).count(y) by {
                assert(x.add(m).count(y) == all0.add(m.insert(id)).count(y));
            }
            assert(x =~= all0.insert(id));
        }
    }

    /// Removes the point at position `pos` of leaf `leaf` and returns its id.
    pub fn remove_point_at(&mut self, leaf: usize, pos: usize) -> (id: usize)
        requires
            old(self).wf(),
            old(self).is_leaf(leaf as int),
            pos < old(self).leaf_points(leaf as int).len(),
            leaf as int == old(self).root_id() || old(self).leaf_points(leaf as int).len() > 1,
        ensures
            final(self).wf(),
            final(self).root_id() == old(self).root_id(),
            id == old(self).leaf_points(leaf as int)[pos as int],
            final(self).leaf_count() == old(self).leaf_count(),
            final(self).all_points() == old(self).all_points().remove(id),
            final(self).leaf_points(leaf as int) == old(self).leaf_points(leaf as int).remove(
                pos as int,
            ),
            forall|i: int| #[trigger] final(self).is_leaf(i) == old(self).is_leaf(i),
            forall|i: int| #[trigger] final(self).children_of(i) == old(self).children_of(i),
            forall|i: int| #[trigger] final(self).parent_of(i) == old(self).parent_of(i),
            forall|i: int| #[trigger] final(self).is_alive(i) == old(self).is_alive(i),
            forall|i: int|
                0 <= i < old(self).len() && i != leaf ==> #[trigger] final(self).leaf_points(i)
                    == old(self).leaf_points(i),
            final(self).len() == old(self).len(),
    {
        let old_pts = copy_ids(&self.points[leaf]);
        let id = old_pts[pos];
        let mut pts: Vec<usize> = Vec::new();
        let mut k: usize = 0;
        while k < old_pts.len()
            invariant
                k <= old_pts.len(),
                pos < old_pts.len(),
                pts@ == if k <= pos {
                    old_pts@.take(k as int)
                } else {
                    old_pts@.remove(pos as int).take(k - 1)
                },
            decreases old_pts.len() - k,
        {
            if k != pos {
                pts.push(old_pts[k]);
            }
            proof {
                if k < pos {
                    assert(old_pts@.take(k + 1) =~= old_pts@.take(k as int).push(old_pts@[k as int]));
                } else if k == pos {
                    assert(old_pts@.take(k as int) =~= old_pts@.remove(pos as int).take(k as int));
                } else {
                    assert(old_pts@.remove(pos as int).take(k as int) =~= old_pts@.remove(
                        pos as int,
                    ).take(k - 1).push(old_pts@[k as int]));
                }
            }
            k = k + 1;
        }
        let ghost before = old_pts@;
        let ghost all0 = self.all_points();
        proof {
            assert(pts@ =~= before.remove(pos as int));
        }
        self.set_points(leaf, pts);
        proof {
            before.to_multiset_ensures();
            let x = self.all_points();
            let m = before.to_multiset();
            assert(x.add(m) == all0.add(m.remove(id)));
            assert forall|y: usize| #[trigger] x.count(y) == all0.remove(id).count(y) by {
                assert(x.add(m).count(y) == all0.add(m.remove(id)).count(y));
            }
            assert(x =~= all0.remove(id));
        }
        id
    }

    /// Takes the points of leaf `leaf` flagged in `selected` out of it, in order; the leaf
    /// keeps the others.
    pub fn take_from_leaf(&mut self, leaf: usize, selected: &Vec<bool>) -> (moved: Vec<usize>)
        requires
            old(self).wf(),
            old(self).is_leaf(leaf as int),
            selected.len() == old(self).leaf_points(leaf as int).len(),
            leaf as int == old(self).root_id() || count_flag(selected@, true, selected.len() as int)
                < selected.len(),
        ensures
            final(self).wf(),
            final(self).root_id() == old(self).root_id(),
            moved@ == picked(old(self).leaf_points(leaf as int), selected@, true),
            final(self).leaf_points(leaf as int) == picked(
                old(self).leaf_points(leaf as int),
                selected@,
                false,
            ),
            final(self).all_points().add(moved@.to_multiset()) == old(self).all_points(),
            final(self).leaf_count() == old(self).leaf_count(),
            forall|i: int| #[trigger] final(self).is_leaf(i) == old(self).is_leaf(i),
            forall|i: int| #[trigger] final(self).children_of(i) == old(self).children_of(i),
            forall|i: int| #[trigger] final(self).parent_of(i) == old(self).parent_of(i),
            forall|i: int| #[trigger] final(self).is_alive(i) == old(self).is_alive(i),
            forall|i: int|
                0 <= i < old(self).len() && i != leaf ==> #[trigger] final(self).leaf_points(i)
                    == old(self).leaf_points(i),
            final(self).len() == old(self).len(),
    {
        let moved = pick_ids(&self.points[leaf], selected, true);
        let keep = pick_ids(&self.points[leaf], selected, false);
        let ghost before = self.leaf_points(leaf as int);
        let ghost all0 = self.all_points();
        proof {
            lemma_picked_len(before, selected@, false);
            lemma_count_total(selected@, selected.len() as int);
        }
        self.set_points(leaf, keep);
        proof {
            lemma_picked_partition(before, selected@);
            let x = self.all_points();
            let a = moved@.to_multiset();
            let b = keep@.to_multiset();
            assert(x.add(before.to_multiset()) == all0.add(b));
            assert forall|y: usize| #[trigger] x.add(a).count(y) == all0.count(y) by {
                assert(x.add(before.to_multiset()).count(y) == all0.add(b).count(y));
                assert(a.add(b).count(y) == before.to_multiset().count(y));
            }
            assert(x.add(a) =~= all0);
        }
        moved
    }

    /// Detaches node `node` (not the root, and without children: a leaf, or an internal node
    /// whose children are all gone) from its parent and returns the ids of its points, which
    /// leave the tree with it.
    #[verifier::rlimit(40)]
    pub fn detach_node(&mut self, node: usize) -> (pts: Vec<usize>)
        requires
            old(self).wf(),
            old(self).is_alive(node as int),
            old(self).children_of(node as int).len() == 0,
            node as int != old(self).root_id(),
        ensures
            final(self).wf(),
            final(self).root_id() == old(self).root_id(),
            pts@ == old(self).leaf_points(node as int),
            final(self).all_points().add(pts@.to_multiset()) == old(self).all_points(),
            final(self).leaf_count() == old(self).leaf_count() - if old(self).is_leaf(node as int) {
                1int
            } else {
                0int
            },
            !final(self).is_alive(node as int),
            final(self).len() == old(self).len(),
            forall|i: int| i != node ==> #[trigger] final(self).is_leaf(i) == old(self).is_leaf(i),
            forall|i: int| i != node ==> #[trigger] final(self).is_alive(i) == old(self).is_alive(i),
            forall|i: int| #[trigger] final(self).parent_of(i) == old(self).parent_of(i),
            forall|i: int|
                0 <= i < old(self).len() && i != old(self).parent_of(node as int)
                    ==> #[trigger] final(self).children_of(i)
                    == old(self).children_of(i),
            final(self).children_of(old(self).parent_of(node as int) as int) == old(
                self,
            ).children_of(old(self).parent_of(node as int) as int).filter(other_than(node)),
            forall|c: usize|
                #[trigger] final(self).children_of(old(self).parent_of(node as int) as int).contains(c)
                    <==> (old(self).children_of(old(self).parent_of(node as int) as int).contains(c)
                    && c != node),
            forall|i: int|
                0 <= i < old(self).len() ==> #[trigger] final(self).leaf_points(i) == old(
                    self,
                ).leaf_points(i),
    {
        let total = self.alive.len();
        let ghost n = self.len();
        let ghost pt0 = self.point_terms();
        let ghost lt0 = self.leaf_terms();
        let ghost ch0 = self.children@;
        let ghost al0 = self.alive@;
        let pts = copy_ids(&self.points[node]);
        let p = self.parent[node];
        assert(0 <= p < n && self.alive@[p as int] && !self.leaf@[p as int]);
        let old_children = copy_ids(&self.children[p]);
        let mut kept: Vec<usize> = Vec::new();
        let mut k: usize = 0;
        proof {
            assert(self.node_ok(p as int));
        }
        while k < old_children.len()
            invariant
                k <= old_children.len(),
                old_children@.no_duplicates(),
                kept@.no_duplicates(),
                forall|q: int|
                    0 <= q < kept.len() ==> #[trigger] kept@[q] != node && old_children@.contains(
                        kept@[q],
                    ),
                forall|q: int|
                    0 <= q < kept.len() ==> exists|t: int|
                        0 <= t < k && old_children@[t] == #[trigger] kept@[q],
                forall|q: int|
                    0 <= q < k && old_children@[q] != node ==> kept@.contains(
                        #[trigger] old_children@[q],
                    ),
                kept@ == old_children@.take(k as int).filter(other_than(node)),
            decreases old_children.len() - k,
        {
            let ghost k0 = kept@;
            proof {
                reveal(Seq::filter);
                assert(old_children@.take(k + 1).drop_last() =~= old_children@.take(k as int));
                assert(old_children@.take(k + 1).last() == old_children@[k as int]);
            }
            if old_children[k] != node {
                proof {
                    assert forall|q: int| 0 <= q < k0.len() implies k0[q] != old_children@[k as int] by {
                        let t = choose|t: int| 0 <= t < k && old_children@[t] == #[trigger] k0[q];
                    }
                }
                kept.push(old_children[k]);
                proof {
                    assert(kept@[kept.len() - 1] == old_children@[k as int]);
                    assert forall|q: int| 0 <= q < kept.len() implies exists|t: int|
                        0 <= t < k + 1 && old_children@[t] == #[trigger] kept@[q] by {
                        if q < k0.len() {
                            assert(kept@[q] == k0[q]);
                            let t = choose|t: int| 0 <= t < k && old_children@[t] == #[trigger] k0[q];
                        } else {
                            assert(old_children@[k as int] == kept@[q]);
                        }
                    }
                }
            }
            proof {
                assert forall|q: int|
                    0 <= q < k + 1 && old_children@[q] != node implies kept@.contains(
                    #[trigger] old_children@[q],
                ) by {
                    if q < k {
                        assert(k0.contains(old_children@[q]));
                        let t = choose|t: int| 0 <= t < k0.len() && k0[t] == old_children@[q];
                        assert(kept@[t] == k0[t]);
                    } else {
                        assert(kept@[kept.len() - 1] == old_children@[q]);
                    }
                }
            }
            k = k + 1;
        }
        proof {
            assert(old_children@.take(old_children.len() as int) =~= old_children@);
            lemma_isum_update(lt0, node as int, 0);
            lemma_isum_nonneg(lt0.update(node as int, 0));
            if !self.leaf@[node as int] {
                let e = self.points@[node as int]@;
                e.to_multiset_ensures();
                vstd::multiset::lemma_multiset_empty_len(e.to_multiset());
            }
            assert(pts@.to_multiset() == pt0[node as int]);
        }
        let ghost s0 = *self;
        let ghost kept_ids = kept@;
        self.children.set(p, kept);
        self.alive.set(node, false);
        if self.leaf[node] {
            self.num_leaves = self.num_leaves - 1;
        }
        proof {
            assert(self.point_terms() =~= pt0.update(node as int, Multiset::empty()));
            assert(self.leaf_terms() =~= lt0.update(node as int, 0));
            lemma_msum_update(pt0, node as int, Multiset::empty());
            assert(self.all_points().add(pts@.to_multiset()) =~= msum(pt0));
            assert forall|i: int| 0 <= i < n && #[trigger] self.alive@[i] implies self.node_ok(i) by {
                assert(al0[i]);
                assert(s0.node_ok(i));
                if i == p {
                    assert forall|k: int| 0 <= k < self.children@[i]@.len() implies {
                        let c = #[trigger] self.children@[i]@[k] as int;
                        &&& 0 <= c < n
                        &&& self.alive@[c]
                        &&& self.parent@[c] as int == i
                    } by {
                        let c = self.children@[i]@[k];
                        assert(old_children@.contains(c));
                        let t = choose|t: int| 0 <= t < old_children.len() && old_children@[t] == c;
                        assert(ch0[i]@[t] == c);
                    }
                } else {
                    assert forall|k: int| 0 <= k < self.children@[i]@.len() implies {
                        let c = #[trigger] self.children@[i]@[k] as int;
                        &&& 0 <= c < n
                        &&& self.alive@[c]
                        &&& self.parent@[c] as int == i
                    } by {
                        assert(ch0[i]@[k] == self.children@[i]@[k]);
                        let c = ch0[i]@[k] as int;
                        if c == node {
                            assert(self.parent@[c] as int == p);
                        }
                    }
                }
                if i != self.root {
                    let q = self.parent@[i] as int;
                    assert(ch0[q]@.contains(i as usize));
                    if q == node {
                        assert(false);
                    }
                    if q == p {
                        let t = choose|t: int| 0 <= t < ch0[q]@.len() && ch0[q]@[t] == i as usize;
                        assert(old_children@[t] == i as usize);
                        assert(i != node);
                        assert(self.children@[q]@ == kept_ids);
                        assert(kept_ids.contains(old_children@[t]));
                    } else {
                        assert(self.children@[q] == ch0[q]);
                    }
                }
            }
        }
        proof {
            assert forall|c: usize| #[trigger] kept_ids.contains(c) <==> (old_children@.contains(c)
                && c != node) by {
                if old_children@.contains(c) && c != node {
                    let t = choose|t: int| 0 <= t < old_children.len() && old_children@[t] == c;
                    assert(kept_ids.contains(old_children@[t]));
                }
                if kept_ids.contains(c) {
                    let t = choose|t: int| 0 <= t < kept_ids.len() && kept_ids[t] == c;
                }
            }
        }
        pts
    }

    /// Removes point `id` from the first leaf (by node id) that holds it, at its first
    /// position there; a leaf other than the root that it empties is detached.  Returns that
    /// leaf, or `None`, with nothing changed, when no leaf holds `id`.
    pub fn remove_id(&mut self, id: usize) -> (r: Option<usize>)
        requires
            old(self).wf(),
        ensures
            final(self).wf(),
            final(self).root_id() == old(self).root_id(),
            r is None <==> old(self).all_points().count(id) == 0,
            r is None ==> *final(self) == *old(self),
            r matches Some(l) ==> {
                &&& old(self).is_leaf(l as int)
                &&& old(self).leaf_points(l as int).contains(id)
                &&& forall|j: int|
                    0 <= j < l ==> !(old(self).is_leaf(j) && #[trigger] old(self).leaf_points(
                        j,
                    ).contains(id))
                &&& final(self).all_points() == old(self).all_points().remove(id)
                &&& if l as int == old(self).root_id() || old(self).leaf_points(l as int).len() > 1 {
                    &&& final(self).is_leaf(l as int)
                    &&& final(self).leaf_count() == old(self).leaf_count()
                    &&& exists|p: int|
                        0 <= p < old(self).leaf_points(l as int).len() && old(self).leaf_points(
                            l as int,
                        )[p] == id && (forall|q: int|
                            0 <= q < p ==> old(self).leaf_points(l as int)[q] != id)
                            && #[trigger] final(self).leaf_points(l as int) == old(
                            self,
                        ).leaf_points(l as int).remove(p)
                } else {
                    &&& !final(self).is_alive(l as int)
                    &&& final(self).leaf_count() == old(self).leaf_count() - 1
                    &&& final(self).children_of(old(self).parent_of(l as int) as int) == old(
                        self,
                    ).children_of(old(self).parent_of(l as int) as int).filter(other_than(l))
                }
                &&& final(self).len() == old(self).len()
                &&& forall|i: int|
                    0 <= i < old(self).len() && i != l ==> #[trigger] final(self).leaf_points(i)
                        == old(self).leaf_points(i)
                &&& forall|i: int| i != l ==> #[trigger] final(self).is_leaf(i) == old(self).is_leaf(i)
                &&& forall|i: int| i != l ==> #[trigger] final(self).is_alive(i) == old(self).is_alive(i)
                &&& forall|i: int| #[trigger] final(self).parent_of(i) == old(self).parent_of(i)
                &&& forall|i: int|
                    0 <= i < old(self).len() && (i != old(self).parent_of(l as int) || l as int
                        == old(self).root_id() || old(self).leaf_points(l as int).len() > 1)
                        ==> #[trigger] final(self).children_of(i) == old(self).children_of(i)
            },
    {
        let n = self.alive.len();
        let mut i: usize = 0;
        while i < n
            invariant
                self.wf(),
                *self == *old(self),
                n == self.len(),
                i <= n,
                forall|j: int|
                    0 <= j < i ==> !(self.is_leaf(j) && #[trigger] self.leaf_points(j).contains(id)),
            decreases n - i,
        {
            if self.alive[i] && self.leaf[i] {
                let len = self.points[i].len();
                let mut pos: usize = 0;
                while pos < len && self.points[i][pos] != id
                    invariant
                        self.wf(),
                        *self == *old(self),
                        n == self.len(),
                        i < n,
                        len == self.leaf_points(i as int).len(),
                        pos <= len,
                        forall|q: int| 0 <= q < pos ==> self.leaf_points(i as int)[q] != id,
                    decreases len - pos,
                {
                    pos = pos + 1;
                }
                if pos < len {
                    let ghost s0 = *self;
                    proof {
                        let t = s0.point_terms();
                        s0.leaf_points(i as int).to_multiset_ensures();
                        assert(s0.leaf_points(i as int).contains(id));
                        assert(t[i as int].count(id) > 0);
                        lemma_msum_count(t, id);
                    }
                    if i == self.root || len > 1 {
                        self.remove_point_at(i, pos);
                        proof {
                            assert(self.leaf_points(i as int) == s0.leaf_points(i as int).remove(
                                pos as int,
                            ));
                        }
                    } else {
                        let gone = self.detach_node(i);
                        proof {
                            assert(gone@ =~= seq![id]);
                            gone@.to_multiset_ensures();
                            Seq::<usize>::empty().to_multiset_ensures();
                            vstd::multiset::lemma_multiset_empty_len(
                                Seq::<usize>::empty().to_multiset(),
                            );
                            assert(seq![id] =~= Seq::<usize>::empty().push(id));
                            let x = self.all_points();
                            let m0 = s0.all_points();
                            assert(x.add(gone@.to_multiset()) == m0);
                            assert forall|y: usize| #[trigger] x.count(y) == m0.remove(id).count(
                                y,
                            ) by {
                                assert(x.add(gone@.to_multiset()).count(y) == m0.count(y));
                            }
                            assert(x =~= m0.remove(id));
                        }
                    }
                    return Some(i);
                }
            }
            i = i + 1;
        }
        proof {
            let t = self.point_terms();
            lemma_msum_count(t, id);
            if self.all_points().count(id) > 0 {
                let j = choose|j: int| 0 <= j < t.len() && #[trigger] t[j].count(id) > 0;
                self.leaf_points(j).to_multiset_ensures();
                assert(self.is_leaf(j));
                assert(self.leaf_points(j).contains(id));
            }
        }
        None
    }

    /// When every child of the root is gone, the root becomes an empty leaf again; otherwise
    /// nothing changes.
    pub fn reset_root(&mut self)
        requires
            old(self).wf(),
        ensures
            final(self).wf(),
            final(self).root_id() == old(self).root_id(),
            final(self).all_points() == old(self).all_points(),
            final(self).len() == old(self).len(),
            !old(self).is_leaf(old(self).root_id()) && old(self).children_of(old(self).root_id()).len()
                == 0 ==> {
                &&& final(self).is_leaf(final(self).root_id())
                &&& final(self).leaf_points(final(self).root_id()).len() == 0
                &&& final(self).leaf_count() == old(self).leaf_count() + 1
            },
            old(self).is_leaf(old(self).root_id()) || old(self).children_of(old(self).root_id()).len()
                > 0 ==> *final(self) == *old(self),
    {
        let r = self.root;
        if self.leaf[r] || self.children[r].len() > 0 {
            return;
        }
        let ghost s0 = *self;
        let ghost pt0 = self.point_terms();
        let ghost lt0 = self.leaf_terms();
        proof {
            lemma_isum_at_most_len(lt0);
            lemma_isum_update(lt0, r as int, 1);
            lemma_isum_at_most_len(lt0.update(r as int, 1));
            assert(s0.node_ok(r as int));
            let e = self.points@[r as int]@;
            e.to_multiset_ensures();
            vstd::multiset::lemma_multiset_empty_len(e.to_multiset());
        }
        let total = self.alive.len();
        self.leaf.set(r, true);
        self.num_leaves = self.num_leaves + 1;
        proof {
            assert(self.point_terms() =~= pt0);
            assert(self.leaf_terms() =~= lt0.update(r as int, 1));
            assert forall|i: int| 0 <= i < self.len() && #[trigger] self.alive@[i] implies self.node_ok(
                i,
            ) by {
                assert(s0.node_ok(i));
                if i != r {
                    let p = self.parent@[i] as int;
                    if p == r {
                        assert(s0.children@[r as int]@.contains(i as usize));
                    }
                }
            }
        }
    }

    /// Splits internal node `node` in two when it has at least `2 * m` children: it keeps the
    /// children flagged in `to_first`, and a new internal node next to it (under the same
    /// parent, or under a new root when `node` was the root) takes the others, which now name
    /// it as their parent.  Returns the two nodes; `None`, with nothing changed, when `node`
    /// has fewer than `2 * m` children.
    #[verifier::rlimit(100)]
    #[verifier::spinoff_prover]
    pub fn split_node(&mut self, node: usize, to_first: &Vec<bool>, m: usize) -> (r: Option<
        (usize, usize),
    >)
        requires
            old(self).wf(),
            old(self).is_alive(node as int),
            !old(self).is_leaf(node as int),
            to_first.len() == old(self).children_of(node as int).len(),
            old(self).len() + 2 <= usize::MAX,
            m >= 1,
            to_first.len() >= 2 * m ==> count_flag(to_first@, true, to_first.len() as int) >= m
                && count_flag(to_first@, false, to_first.len() as int) >= m,
        ensures
            final(self).wf(),
            r is None <==> old(self).children_of(node as int).len() < 2 * m,
            r is None ==> *final(self) == *old(self),
            r matches Some(ab) ==> {
                let ch = old(self).children_of(node as int);
                &&& ab.0 == node
                &&& ab.1 as int == old(self).len()
                &&& final(self).is_alive(ab.1 as int)
                &&& !final(self).is_leaf(ab.1 as int)
                &&& final(self).children_of(ab.0 as int) == picked(ch, to_first@, true)
                &&& final(self).children_of(ab.1 as int) == picked(ch, to_first@, false)
                &&& forall|k: int|
                    0 <= k < final(self).children_of(ab.1 as int).len() ==> final(self).parent_of(
                        #[trigger] final(self).children_of(ab.1 as int)[k] as int,
                    ) == ab.1
                &&& forall|k: int|
                    0 <= k < final(self).children_of(ab.0 as int).len() ==> final(self).parent_of(
                        #[trigger] final(self).children_of(ab.0 as int)[k] as int,
                    ) == ab.0
                &&& m <= final(self).children_of(ab.0 as int).len() <= ch.len() - m
                &&& m <= final(self).children_of(ab.1 as int).len() <= ch.len() - m
                &&& final(self).all_points() == old(self).all_points()
                &&& final(self).leaf_count() == old(self).leaf_count()
                &&& final(self).parent_of(ab.1 as int) == final(self).parent_of(node as int)
                &&& node as int != old(self).root_id() ==> {
                    &&& final(self).len() == old(self).len() + 1
                    &&& final(self).root_id() == old(self).root_id()
                    &&& final(self).parent_of(node as int) == old(self).parent_of(node as int)
                    &&& final(self).children_of(old(self).parent_of(node as int) as int) == old(
                        self,
                    ).children_of(old(self).parent_of(node as int) as int).push(ab.1)
                }
                &&& node as int == old(self).root_id() ==> {
                    let root = final(self).root_id();
                    &&& final(self).len() == old(self).len() + 2
                    &&& root == old(self).len() + 1
                    &&& final(self).is_alive(root)
                    &&& !final(self).is_leaf(root)
                    &&& final(self).parent_of(root) == no_parent()
                    &&& final(self).children_of(root) == seq![node, ab.1]
                    &&& final(self).parent_of(node as int) == root
                }
                &&& forall|i: int|
                    0 <= i < old(self).len() && i != node && !picked(ch, to_first@, false).contains(
                        i as usize,
                    ) ==> #[trigger] final(self).parent_of(i) == old(self).parent_of(i)
                &&& forall|i: int|
                    0 <= i < old(self).len() && i != node && (node as int == old(self).root_id() || i
                        != old(self).parent_of(node as int)) ==> #[trigger] final(self).children_of(i)
                        == old(self).children_of(i)
                &&& forall|i: int|
                    0 <= i < old(self).len() ==> #[trigger] final(self).is_leaf(i) == old(self).is_leaf(
                        i,
                    ) && final(self).leaf_points(i) == old(self).leaf_points(i)
            },
    {
        let total = self.alive.len();
        let ch = copy_ids(&self.children[node]);
        if ch.len() / 2 < m {
            return None;
        }
        let ghost s0 = *self;
        let ghost n = self.len();
        let ghost pt0 = self.point_terms();
        let ghost lt0 = self.leaf_terms();
        let keep = pick_ids(&ch, to_first, true);
        let moved = pick_ids(&ch, to_first, false);
        let ghost keep_s = keep@;
        let ghost moved_s = moved@;
        proof {
            assert(s0.node_ok(node as int));
            lemma_picked_members(ch@, to_first@, true);
            lemma_picked_members(ch@, to_first@, false);
            lemma_picked_partition(ch@, to_first@);
            lemma_picked_len(ch@, to_first@, true);
            lemma_picked_len(ch@, to_first@, false);
            lemma_count_total(to_first@, to_first.len() as int);
            // the two groups share no child
            assert forall|x: usize| keep_s.contains(x) implies !moved_s.contains(x) by {
                if moved_s.contains(x) {
                    let i = choose|i: int| 0 <= i < ch@.len() && ch@[i] == x && to_first@[i] == true;
                    let j = choose|j: int|
                        0 <= j < ch@.len() && ch@[j] == x && to_first@[j] == false;
                    assert(i != j);
                }
            }
            assert forall|k: int| 0 <= k < moved_s.len() implies (#[trigger] moved_s[k] as int) < n by {
                assert(moved_s.contains(moved_s[k]));
                let i = choose|i: int| 0 <= i < ch@.len() && ch@[i] == moved_s[k] && to_first@[i] == false;
                assert(s0.children@[node as int]@[i] == moved_s[k]);
            }
            // the children of `node` are alive, distinct from it, and name it as parent
            assert forall|x: usize| #[trigger] ch@.contains(x) implies 0 <= x < n && s0.alive@[x as int]
                && s0.parent@[x as int] == node && x != node && x as int != s0.root_id() by {
                let k = choose|k: int| 0 <= k < ch@.len() && ch@[k] == x;
                assert(s0.children@[node as int]@[k] == x);
                assert(s0.node_ok(x as int));
            }
        }
        let c = total;
        // The moved children name the new node as their parent.
        let mut j: usize = 0;
        while j < moved.len()
            invariant
                j <= moved.len(),
                moved@ == moved_s,
                n == s0.len(),
                n == total,
                forall|k: int| 0 <= k < moved_s.len() ==> (#[trigger] moved_s[k] as int) < n,
                self.parent@.len() == n,
                self.alive@ == s0.alive@,
                self.leaf@ == s0.leaf@,
                self.points@ == s0.points@,
                self.children@ == s0.children@,
                self.root == s0.root,
                self.num_leaves == s0.num_leaves,
                forall|y: int|
                    0 <= y < n ==> #[trigger] self.parent@[y] == if moved_s.take(j as int).contains(
                        y as usize,
                    ) {
                        c
                    } else {
                        s0.parent@[y]
                    },
            decreases moved.len() - j,
        {
            let x = moved[j];
            self.parent.set(x, c);
            proof {
                let t0 = moved_s.take(j as int);
                assert(moved_s.take(j + 1) == t0.push(x));
                assert forall|y: int| 0 <= y < n implies #[trigger] self.parent@[y] == if moved_s.take(
                    j + 1,
                ).contains(y as usize) {
                    c
                } else {
                    s0.parent@[y]
                } by {
                    assert(x == moved_s[j as int]);
                    lemma_push_contains_id(t0, x, y as usize);
                }
            }
            j = j + 1;
        }
        proof {
            assert(moved_s.take(moved_s.len() as int) == moved_s);
        }
        let ghost s1 = *self;
        if node != self.root {
            let p = self.parent[node];
            proof {
                assert(!moved_s.contains(node));
                assert(p == s0.parent@[node as int]);
                assert(s0.node_ok(node as int));
                assert(s0.node_ok(p as int));
            }
            let mut pch = copy_ids(&self.children[p]);
            pch.push(c);
            let ghost pch_s = pch@;
            self.children.set(node, keep);
            self.parent.push(p);
            self.children.push(moved);
            self.points.push(Vec::new());
            self.leaf.push(false);
            self.alive.push(true);
            self.children.set(p, pch);
            proof {
                let e = self.points@[c as int]@;
                assert(e =~= Seq::<usize>::empty());
                e.to_multiset_ensures();
                vstd::multiset::lemma_multiset_empty_len(e.to_multiset());
                assert(self.point_terms() =~= pt0.push(Multiset::empty()));
                assert(self.point_terms().drop_last() =~= pt0);
                assert(self.all_points() =~= msum(pt0));
                assert(self.leaf_terms() =~= lt0.push(0));
                assert(self.leaf_terms().drop_last() =~= lt0);
                let pc0 = s0.children@[p as int]@;
                assert(pch_s == pc0.push(c));
                assert forall|k: int| 0 <= k < pc0.len() implies #[trigger] pc0[k] != c by {
                    assert(s0.node_ok(p as int));
                }
                assert(pch_s.no_duplicates()) by {
                    assert forall|a: int, b: int|
                        0 <= a < pch_s.len() && 0 <= b < pch_s.len() && a != b implies pch_s[a]
                        != pch_s[b] by {
                        if a < pc0.len() && b < pc0.len() {
                            assert(pc0[a] != pc0[b]);
                        }
                    }
                }
                assert forall|i: int| 0 <= i < self.len() && #[trigger] self.alive@[i] implies self.node_ok(
                    i,
                ) by {
                    if i == c {
                        assert forall|k: int| 0 <= k < self.children@[i]@.len() implies {
                            let y = #[trigger] self.children@[i]@[k] as int;
                            &&& 0 <= y < self.len()
                            &&& self.alive@[y]
                            &&& self.parent@[y] as int == i
                        } by {
                            let y = moved_s[k];
                            assert(moved_s.contains(y));
                            assert(moved_s.take(moved_s.len() as int).contains(y));
                            assert(ch@.contains(y));
                        }
                        assert(pch_s[pch_s.len() - 1] == c);
                    } else {
                        assert(s0.node_ok(i));
                        if i == node {
                            assert forall|k: int| 0 <= k < self.children@[i]@.len() implies {
                                let y = #[trigger] self.children@[i]@[k] as int;
                                &&& 0 <= y < self.len()
                                &&& self.alive@[y]
                                &&& self.parent@[y] as int == i
                            } by {
                                let y = keep_s[k];
                                assert(keep_s.contains(y));
                                assert(ch@.contains(y));
                                assert(!moved_s.contains(y));
                            }
                            let t = choose|t: int|
                                0 <= t < s0.children@[p as int]@.len() && s0.children@[p as int]@[t]
                                    == node;
                            assert(pch_s[t] == node);
                        } else if moved_s.contains(i as usize) {
                            assert(self.parent@[i] == c);
                            assert(moved_s.take(moved_s.len() as int).contains(i as usize));
                            let t = choose|t: int| 0 <= t < moved_s.len() && moved_s[t] == i as usize;
                            assert(self.children@[c as int]@[t] == i);
                            assert forall|k: int| 0 <= k < self.children@[i]@.len() implies {
                                let y = #[trigger] self.children@[i]@[k] as int;
                                &&& 0 <= y < self.len()
                                &&& self.alive@[y]
                                &&& self.parent@[y] as int == i
                            } by {
                                let y = s0.children@[i]@[k];
                                if moved_s.contains(y) {
                                    assert(ch@.contains(y));
                                }
                            }
                        } else {
                            assert(self.parent@[i] == s0.parent@[i]);
                            assert forall|k: int| 0 <= k < self.children@[i]@.len() implies {
                                let y = #[trigger] self.children@[i]@[k] as int;
                                &&& 0 <= y < self.len()
                                &&& self.alive@[y]
                                &&& self.parent@[y] as int == i
                            } by {
                                if i == p && k == self.children@[i]@.len() - 1 {
                                    assert(pch_s[k] == c);
                                } else {
                                    let y = s0.children@[i]@[k];
                                    assert(self.children@[i]@[k] == y);
                                    if moved_s.contains(y) {
                                        assert(ch@.contains(y));
                                    }
                                }
                            }
                            if i != self.root {
                                let q = s0.parent@[i] as int;
                                if q == p {
                                    let t = choose|t: int|
                                        0 <= t < s0.children@[q]@.len() && s0.children@[q]@[t]
                                            == i as usize;
                                    assert(pch_s[t] == i as usize);
                                }
                                if q == node {
                                    assert(s0.children@[node as int]@.contains(i as usize));
                                    let t = choose|t: int|
                                        0 <= t < ch@.len() && ch@[t] == i as usize;
                                    if to_first@[t] {
                                        assert(keep_s.contains(i as usize));
                                        let u = choose|u: int|
                                            0 <= u < keep_s.len() && keep_s[u] == i as usize;
                                        assert(self.children@[node as int]@[u] == i as usize);
                                    } else {
                                        assert(moved_s.contains(i as usize));
                                    }
                                }
                            }
                        }
                    }
                }
            }
            proof {
                assert(self.wf());
                assert(self.alive@[c as int]);
                assert(self.alive@[node as int]);
                assert(self.node_ok(c as int));
                assert(self.node_ok(node as int));
            }
            Some((node, c))
        } else {
            let r = total + 1;
            self.children.set(node, keep);
            self.parent.set(node, r);
            self.parent.push(r);
            self.children.push(moved);
            self.points.push(Vec::new());
            self.leaf.push(false);
            self.alive.push(true);
            let mut rc: Vec<usize> = Vec::new();
            rc.push(node);
            rc.push(c);
            self.parent.push(usize::MAX);
            self.children.push(rc);
            self.points.push(Vec::new());
            self.leaf.push(false);
            self.alive.push(true);
            self.root = r;
            proof {
                let e = self.points@[c as int]@;
                assert(e =~= Seq::<usize>::empty());
                e.to_multiset_ensures();
                vstd::multiset::lemma_multiset_empty_len(e.to_multiset());
                let e2 = self.points@[r as int]@;
                assert(e2 =~= Seq::<usize>::empty());
                e2.to_multiset_ensures();
                vstd::multiset::lemma_multiset_empty_len(e2.to_multiset());
                let ub = pt0.push(Multiset::<usize>::empty());
                assert(self.point_terms() =~= ub.push(Multiset::empty()));
                assert(self.point_terms().drop_last() =~= ub);
                assert(ub.drop_last() =~= pt0);
                assert(self.all_points() == msum(ub).add(Multiset::empty()));
                assert(msum(ub) == msum(pt0).add(Multiset::empty()));
                assert(self.all_points() =~= msum(pt0));
                let lb = lt0.push(0);
                assert(self.leaf_terms() =~= lb.push(0));
                assert(self.leaf_terms().drop_last() =~= lb);
                assert(lb.drop_last() =~= lt0);
                assert(self.leaf_count() == isum(lb) + 0);
                assert(isum(lb) == isum(lt0) + 0);
                assert(!moved_s.contains(node));
                assert forall|i: int| 0 <= i < self.len() && #[trigger] self.alive@[i] implies self.node_ok(
                    i,
                ) by {
                    if i == r {
                        assert(self.children@[i]@ =~= seq![node, c]);
                    } else if i == c {
                        assert(self.children@[r as int]@ =~= seq![node, c]);
                        assert(self.children@[r as int]@[1] == c);
                        assert forall|k: int| 0 <= k < self.children@[i]@.len() implies {
                            let y = #[trigger] self.children@[i]@[k] as int;
                            &&& 0 <= y < self.len()
                            &&& self.alive@[y]
                            &&& self.parent@[y] as int == i
                        } by {
                            let y = moved_s[k];
                            assert(moved_s.contains(y));
                            assert(moved_s.take(moved_s.len() as int).contains(y));
                            assert(ch@.contains(y));
                        }
                    } else {
                        assert(s0.node_ok(i));
                        if i == node {
                            assert(self.children@[r as int]@ =~= seq![node, c]);
                            assert(self.children@[r as int]@[0] == node);
                            assert forall|k: int| 0 <= k < self.children@[i]@.len() implies {
                                let y = #[trigger] self.children@[i]@[k] as int;
                                &&& 0 <= y < self.len()
                                &&& self.alive@[y]
                                &&& self.parent@[y] as int == i
                            } by {
                                let y = keep_s[k];
                                assert(keep_s.contains(y));
                                assert(ch@.contains(y));
                                assert(!moved_s.contains(y));
                            }
                        } else if moved_s.contains(i as usize) {
                            assert(moved_s.take(moved_s.len() as int).contains(i as usize));
                            let t = choose|t: int| 0 <= t < moved_s.len() && moved_s[t] == i as usize;
                            assert(self.children@[c as int]@[t] == i);
                            assert forall|k: int| 0 <= k < self.children@[i]@.len() implies {
                                let y = #[trigger] self.children@[i]@[k] as int;
                                &&& 0 <= y < self.len()
                                &&& self.alive@[y]
                                &&& self.parent@[y] as int == i
                            } by {
                                let y = s0.children@[i]@[k];
                                if moved_s.contains(y) {
                                    assert(ch@.contains(y));
                                }
                            }
                        } else {
                            assert forall|k: int| 0 <= k < self.children@[i]@.len() implies {
                                let y = #[trigger] self.children@[i]@[k] as int;
                                &&& 0 <= y < self.len()
                                &&& self.alive@[y]
                                &&& self.parent@[y] as int == i
                            } by {
                                let y = s0.children@[i]@[k];
                                assert(self.children@[i]@[k] == y);
                                if moved_s.contains(y) {
                                    assert(ch@.contains(y));
                                }
                                if y == node {
                                    assert(s0.parent@[node as int] == no_parent());
                                }
                            }
                            let q = s0.parent@[i] as int;
                            if q == node {
                                let t = choose|t: int| 0 <= t < ch@.len() && ch@[t] == i as usize;
                                if to_first@[t] {
                                    assert(keep_s.contains(i as usize));
                                    let u = choose|u: int|
                                        0 <= u < keep_s.len() && keep_s[u] == i as usize;
                                    assert(self.children@[node as int]@[u] == i as usize);
                                } else {
                                    assert(moved_s.contains(i as usize));
                                }
                            }
                        }
                    }
                }
            }
            proof {
                assert(self.wf());
                assert(self.alive@[c as int]);
                assert(self.alive@[node as int]);
                assert(self.node_ok(c as int));
                assert(self.node_ok(node as int));
            }
            Some((node, c))
        }
    }

    /// The leaves of the tree, in increasing order of node id.
    pub fn leaves(&self) -> (r: Vec<usize>)
        requires
            self.wf(),
        ensures
            r.len() == self.leaf_count(),
            forall|k: int| 0 <= k < r.len() ==> self.is_leaf(#[trigger] r@[k] as int),
            forall|a: int, b: int| 0 <= a < b < r.len() ==> r@[a] < r@[b],
            forall|i: int| #[trigger] self.is_leaf(i) ==> r@.contains(i as usize),
    {
        let n = self.alive.len();
        let ghost lt = self.leaf_terms();
        let mut r: Vec<usize> = Vec::new();
        let mut i: usize = 0;
        while i < n
            invariant
                self.wf(),
                n == self.len(),
                lt == self.leaf_terms(),
                i <= n,
                r.len() == isum(lt.take(i as int)),
                forall|k: int| 0 <= k < r.len() ==> self.is_leaf(#[trigger] r@[k] as int) && r@[k] < i,
                forall|a: int, b: int| 0 <= a < b < r.len() ==> r@[a] < r@[b],
                forall|j: int| 0 <= j < i && #[trigger] self.is_leaf(j) ==> r@.contains(j as usize),
            decreases n - i,
        {
            proof {
                assert(lt.take(i + 1).drop_last() =~= lt.take(i as int));
            }
            let ghost r0 = r@;
            if self.alive[i] && self.leaf[i] {
                r.push(i);
                proof {
                    assert forall|j: int| 0 <= j < i + 1 && #[trigger] self.is_leaf(j) implies r@.contains(
                        j as usize,
                    ) by {
                        if j < i {
                            let t = choose|t: int| 0 <= t < r0.len() && r0[t] == j as usize;
                            assert(r@[t] == j as usize);
                        } else {
                            assert(r@[r.len() - 1] == j as usize);
                        }
                    }
                }
            }
            i = i + 1;
        }
        proof {
            assert(lt.take(n as int) =~= lt);
            assert forall|j: int| #[trigger] self.is_leaf(j) implies r@.contains(j as usize) by {}
        }
        r
    }

    /// After node `gone` left the tree, walks up from its parent and detaches each ancestor
    /// that is now an internal node without children (never the root).  Returns the first
    /// ancestor kept, if any.  No point and no leaf changes.
    pub fn prune_from(&mut self, gone: usize) -> (r: Option<usize>)
        requires
            old(self).wf(),
            gone < old(self).len(),
        ensures
            final(self).wf(),
            final(self).root_id() == old(self).root_id(),
            final(self).len() == old(self).len(),
            final(self).all_points() == old(self).all_points(),
            final(self).leaf_count() == old(self).leaf_count(),
            forall|i: int| #[trigger] final(self).is_leaf(i) == old(self).is_leaf(i),
            forall|i: int|
                0 <= i < old(self).len() ==> #[trigger] final(self).leaf_points(i) == old(
                    self,
                ).leaf_points(i),
            forall|i: int| #[trigger] final(self).parent_of(i) == old(self).parent_of(i),
            forall|i: int|
                old(self).is_alive(i) && !#[trigger] final(self).is_alive(i) ==> !old(self).is_leaf(i)
                    && i != old(self).root_id(),
            forall|i: int| #[trigger] final(self).is_alive(i) ==> old(self).is_alive(i),
            r matches Some(p) ==> final(self).is_alive(p as int),
    {
        let n = self.alive.len();
        let mut current = self.parent(gone);
        let mut steps: usize = 0;
        while steps < n
            invariant
                self.wf(),
                n == self.len(),
                self.len() == old(self).len(),
                self.root == old(self).root,
                self.all_points() == old(self).all_points(),
                self.leaf_count() == old(self).leaf_count(),
                forall|i: int| #[trigger] self.is_leaf(i) == old(self).is_leaf(i),
                forall|i: int|
                    0 <= i < old(self).len() ==> #[trigger] self.leaf_points(i) == old(
                        self,
                    ).leaf_points(i),
                forall|i: int| #[trigger] self.parent_of(i) == old(self).parent_of(i),
                forall|i: int|
                    old(self).is_alive(i) && !#[trigger] self.is_alive(i) ==> !old(self).is_leaf(i)
                        && i != old(self).root_id(),
                forall|i: int| #[trigger] self.is_alive(i) ==> old(self).is_alive(i),
            decreases n - steps,
        {
            match current {
                None => {
                    return None;
                },
                Some(p) => {
                    if !self.node_is_alive(p) {
                        return None;
                    }
                    if p == self.root || self.node_is_leaf(p) || self.children(p).len() > 0 {
                        return Some(p);
                    }
                    let next = self.parent(p);
                    proof {
                        assert(self.alive@[p as int]);
                        assert(self.node_ok(p as int));
                    }
                    let gone_pts = self.detach_node(p);
                    proof {
                        assert(gone_pts@.len() == 0);
                        gone_pts@.to_multiset_ensures();
                        vstd::multiset::lemma_multiset_empty_len(gone_pts@.to_multiset());
                        assert(self.all_points() =~= old(self).all_points());
                    }
                    current = next;
                },
            }
            steps = steps + 1;
        }
        None
    }

    /// Splits leaf `leaf` in two when it holds at least `2 * m` points: the leaf keeps the
    /// points flagged in `to_first`, and a new leaf next to it (under the same parent, or
    /// under a new root when `leaf` was the root) takes the others.  Returns the two leaves;
    /// `None`, with nothing changed, when the leaf holds fewer than `2 * m` points.
    #[verifier::rlimit(80)]
    pub fn split_leaf(&mut self, leaf: usize, to_first: &Vec<bool>, m: usize) -> (r: Option<
        (usize, usize),
    >)
        requires
            old(self).wf(),
            old(self).is_leaf(leaf as int),
            to_first.len() == old(self).leaf_points(leaf as int).len(),
            old(self).len() + 2 <= usize::MAX,
            m >= 1,
            to_first.len() >= 2 * m ==> count_flag(to_first@, true, to_first.len() as int) >= m
                && count_flag(to_first@, false, to_first.len() as int) >= m,
        ensures
            final(self).wf(),
            r is None <==> old(self).leaf_points(leaf as int).len() < 2 * m,
            r is None ==> *final(self) == *old(self),
            r matches Some(ab) ==> {
                &&& ab.0 == leaf
                &&& ab.1 as int == old(self).len()
                &&& final(self).is_leaf(ab.0 as int)
                &&& final(self).is_leaf(ab.1 as int)
                &&& final(self).leaf_points(ab.0 as int) == picked(
                    old(self).leaf_points(leaf as int),
                    to_first@,
                    true,
                )
                &&& final(self).leaf_points(ab.1 as int) == picked(
                    old(self).leaf_points(leaf as int),
                    to_first@,
                    false,
                )
                &&& final(self).leaf_points(ab.0 as int).len() >= m
                &&& final(self).leaf_points(ab.1 as int).len() >= m
                &&& final(self).all_points() == old(self).all_points()
                &&& final(self).leaf_count() == old(self).leaf_count() + 1
                &&& final(self).parent_of(ab.1 as int) == final(self).parent_of(leaf as int)
                &&& leaf as int != old(self).root_id() ==> {
                    &&& final(self).len() == old(self).len() + 1
                    &&& final(self).root_id() == old(self).root_id()
                    &&& final(self).parent_of(leaf as int) == old(self).parent_of(leaf as int)
                    &&& final(self).children_of(old(self).parent_of(leaf as int) as int) == old(
                        self,
                    ).children_of(old(self).parent_of(leaf as int) as int).push(ab.1)
                }
                &&& leaf as int == old(self).root_id() ==> {
                    let root = final(self).root_id();
                    &&& final(self).len() == old(self).len() + 2
                    &&& root == old(self).len() + 1
                    &&& final(self).is_alive(root)
                    &&& !final(self).is_leaf(root)
                    &&& final(self).parent_of(root) == no_parent()
                    &&& final(self).children_of(root) == seq![leaf, ab.1]
                    &&& final(self).parent_of(leaf as int) == root
                }
                &&& forall|i: int|
                    0 <= i < old(self).len() && i != leaf ==> #[trigger] final(self).parent_of(i)
                        == old(self).parent_of(i)
                &&& forall|i: int|
                    0 <= i < old(self).len() && (leaf as int == old(self).root_id() || i
                        != old(self).parent_of(leaf as int)) ==> #[trigger] final(self).children_of(i)
                        == old(self).children_of(i)
            },
            forall|i: int|
                0 <= i < old(self).len() && i != leaf ==> #[trigger] final(self).is_leaf(i) == old(
                    self,
                ).is_leaf(i) && final(self).leaf_points(i) == old(self).leaf_points(i),
    {
        let total = self.alive.len();
        let pts_len = self.points[leaf].len();
        if pts_len / 2 < m {
            return None;
        }
        let ghost s0 = *self;
        let ghost n = self.len();
        let ghost pt0 = self.point_terms();
        let ghost lt0 = self.leaf_terms();
        let ghost before = self.leaf_points(leaf as int);
        let a_pts = pick_ids(&self.points[leaf], to_first, true);
        let b_pts = pick_ids(&self.points[leaf], to_first, false);
        let ghost a_seq = a_pts@;
        let ghost b_seq = b_pts@;
        proof {
            lemma_isum_at_most_len(lt0);
            lemma_picked_partition(before, to_first@);
            lemma_picked_len(before, to_first@, true);
            lemma_picked_len(before, to_first@, false);
        }
        let b = total;
        if leaf != self.root {
            let p = self.parent[leaf];
            assert(s0.node_ok(leaf as int));
            let mut ch = copy_ids(&self.children[p]);
            ch.push(b);
            let ghost ch_seq = ch@;
            self.points.set(leaf, a_pts);
            self.parent.push(p);
            self.children.push(Vec::new());
            self.points.push(b_pts);
            self.leaf.push(true);
            self.alive.push(true);
            self.children.set(p, ch);
            self.num_leaves = self.num_leaves + 1;
            proof {
                assert(self.point_terms() =~= pt0.update(leaf as int, a_seq.to_multiset()).push(
                    b_seq.to_multiset(),
                ));
                assert(self.point_terms().drop_last() =~= pt0.update(
                    leaf as int,
                    a_seq.to_multiset(),
                ));
                assert(self.leaf_terms().drop_last() =~= lt0);
                lemma_msum_update(pt0, leaf as int, a_seq.to_multiset());
                let x = self.all_points();
                assert forall|y: usize| #[trigger] x.count(y) == msum(pt0).count(y) by {
                    assert(msum(pt0.update(leaf as int, a_seq.to_multiset())).add(pt0[leaf as int]).count(y)
                        == msum(pt0).add(a_seq.to_multiset()).count(y));
                    assert(a_seq.to_multiset().add(b_seq.to_multiset()).count(y)
                        == before.to_multiset().count(y));
                }
                assert(x =~= msum(pt0));
                assert forall|i: int| 0 <= i < self.len() && #[trigger] self.alive@[i] implies self.node_ok(
                    i,
                ) by {
                    if i == b {
                        assert(ch_seq[ch_seq.len() - 1] == b);
                    } else {
                        assert(s0.node_ok(i));
                        assert forall|k: int| 0 <= k < self.children@[i]@.len() implies {
                            let c = #[trigger] self.children@[i]@[k] as int;
                            &&& 0 <= c < self.len()
                            &&& self.alive@[c]
                            &&& self.parent@[c] as int == i
                        } by {
                            if i == p && k == self.children@[i]@.len() - 1 {
                            } else {
                                assert(self.children@[i]@[k] == s0.children@[i]@[k]);
                            }
                        }
                        if i != self.root {
                            let q = self.parent@[i] as int;
                            if q == p {
                                let t = choose|t: int|
                                    0 <= t < s0.children@[q]@.len() && s0.children@[q]@[t]
                                        == i as usize;
                                assert(ch_seq[t] == i as usize);
                            }
                        }
                    }
                }
            }
            Some((leaf, b))
        } else {
            let r = total + 1;
            self.points.set(leaf, a_pts);
            self.parent.set(leaf, r);
            self.parent.push(r);
            self.children.push(Vec::new());
            self.points.push(b_pts);
            self.leaf.push(true);
            self.alive.push(true);
            let mut ch: Vec<usize> = Vec::new();
            ch.push(leaf);
            ch.push(b);
            self.parent.push(usize::MAX);
            self.children.push(ch);
            self.points.push(Vec::new());
            self.leaf.push(false);
            self.alive.push(true);
            self.root = r;
            self.num_leaves = self.num_leaves + 1;
            proof {
                let u = pt0.update(leaf as int, a_seq.to_multiset());
                let e = self.points@[r as int]@;
                assert(e =~= Seq::<usize>::empty());
                e.to_multiset_ensures();
                vstd::multiset::lemma_multiset_empty_len(e.to_multiset());
                assert(self.point_terms() =~= u.push(b_seq.to_multiset()).push(Multiset::empty()));
                assert(self.point_terms().drop_last() =~= u.push(b_seq.to_multiset()));
                assert(u.push(b_seq.to_multiset()).drop_last() =~= u);
                assert(self.leaf_terms() =~= lt0.push(1).push(0));
                assert(self.leaf_terms().drop_last() =~= lt0.push(1));
                assert(lt0.push(1).drop_last() =~= lt0);
                lemma_msum_update(pt0, leaf as int, a_seq.to_multiset());
                let x = self.all_points();
                let ub = u.push(b_seq.to_multiset());
                assert(x == msum(ub).add(self.point_terms().last()));
                assert(msum(ub) == msum(u).add(b_seq.to_multiset()));
                assert(self.leaf_count() == isum(lt0.push(1)) + 0);
                assert(isum(lt0.push(1)) == isum(lt0) + 1);
                assert forall|y: usize| #[trigger] x.count(y) == msum(pt0).count(y) by {
                    assert(msum(u).add(pt0[leaf as int]).count(y) == msum(pt0).add(
                        a_seq.to_multiset(),
                    ).count(y));
                    assert(a_seq.to_multiset().add(b_seq.to_multiset()).count(y)
                        == before.to_multiset().count(y));
                }
                assert(x =~= msum(pt0));
                assert forall|i: int| 0 <= i < self.len() && #[trigger] self.alive@[i] implies self.node_ok(
                    i,
                ) by {
                    if i == r {
                        assert(self.children@[i]@ =~= seq![leaf, b]);
                    } else if i == b {
                        assert(self.children@[r as int]@ =~= seq![leaf, b]);
                        assert(self.children@[r as int]@[1] == b);
                    } else if i == leaf {
                        assert(self.children@[r as int]@ =~= seq![leaf, b]);
                        assert(self.children@[r as int]@[0] == leaf);
                    } else {
                        assert(s0.node_ok(i));
                        assert forall|k: int| 0 <= k < self.children@[i]@.len() implies {
                            let c = #[trigger] self.children@[i]@[k] as int;
                            &&& 0 <= c < self.len()
                            &&& self.alive@[c]
                            &&& self.parent@[c] as int == i
                        } by {
                            assert(self.children@[i]@[k] == s0.children@[i]@[k]);
                            let c = s0.children@[i]@[k] as int;
                            if c == leaf {
                                assert(s0.parent@[c] == no_parent());
                            }
                        }
                    }
                }
            }
            Some((leaf, b))
        }
    }
}

/// The ids of `pts` whose flag in `sel` equals `want`, in order.
pub open spec fn picked(pts: Seq<usize>, sel: Seq<bool>, want: bool) -> Seq<usize>
    decreases pts.len(),
{
    if pts.len() == 0 {
        seq![]
    } else if sel[pts.len() - 1] == want {
        picked(pts.drop_last(), sel, want).push(pts.last())
    } else {
        picked(pts.drop_last(), sel, want)
    }
}

/// The picked and the unpicked ids together are the ids.
pub proof fn lemma_picked_partition(pts: Seq<usize>, sel: Seq<bool>)
    ensures
        picked(pts, sel, true).to_multiset().add(picked(pts, sel, false).to_multiset())
            == pts.to_multiset(),
        picked(pts, sel, true).len() + picked(pts, sel, false).len() == pts.len(),
    decreases pts.len(),
{
    if pts.len() == 0 {
        let e = picked(pts, sel, true);
        e.to_multiset_ensures();
        pts.to_multiset_ensures();
        vstd::multiset::lemma_multiset_empty_len(e.to_multiset());
        vstd::multiset::lemma_multiset_empty_len(pts.to_multiset());
        assert(e.to_multiset().add(e.to_multiset()) =~= pts.to_multiset());
    } else {
        let d = pts.drop_last();
        lemma_picked_partition(d, sel);
        let a = picked(d, sel, true);
        let b = picked(d, sel, false);
        a.to_multiset_ensures();
        b.to_multiset_ensures();
        d.to_multiset_ensures();
        assert(d.push(pts.last()) =~= pts);
        let x = pts.last();
        if sel[pts.len() - 1] {
            assert(picked(pts, sel, true).to_multiset().add(picked(pts, sel, false).to_multiset())
                =~= pts.to_multiset());
        } else {
            assert(picked(pts, sel, true).to_multiset().add(picked(pts, sel, false).to_multiset())
                =~= pts.to_multiset());
        }
    }
}

/// As many ids are picked as there are flags equal to `want`.
pub proof fn lemma_picked_len(pts: Seq<usize>, sel: Seq<bool>, want: bool)
    ensures
        picked(pts, sel, want).len() == count_flag(sel, want, pts.len() as int),
    decreases pts.len(),
{
    if pts.len() > 0 {
        lemma_picked_len(pts.drop_last(), sel, want);
    }
}

/// An id is picked exactly when some position holds it with the wanted flag; picking keeps
/// ids distinct.
pub proof fn lemma_picked_members(pts: Seq<usize>, sel: Seq<bool>, want: bool)
    ensures
        forall|x: usize|
            #[trigger] picked(pts, sel, want).contains(x) <==> exists|i: int|
                0 <= i < pts.len() && pts[i] == x && sel[i] == want,
        pts.no_duplicates() ==> picked(pts, sel, want).no_duplicates(),
    decreases pts.len(),
{
    if pts.len() > 0 {
        let d = pts.drop_last();
        lemma_picked_members(d, sel, want);
        let q = picked(d, sel, want);
        let l = pts.len() - 1;
        assert forall|x: usize|
            #[trigger] picked(pts, sel, want).contains(x) <==> exists|i: int|
                0 <= i < pts.len() && pts[i] == x && sel[i] == want by {
            if sel[l] == want {
                assert(picked(pts, sel, want) == q.push(pts[l]));
                if picked(pts, sel, want).contains(x) {
                    let t = choose|t: int|
                        0 <= t < q.push(pts[l]).len() && q.push(pts[l])[t] == x;
                    if t < q.len() {
                        assert(q.contains(x));
                        let i = choose|i: int| 0 <= i < d.len() && d[i] == x && sel[i] == want;
                        assert(pts[i] == x);
                    } else {
                        assert(pts[l] == x);
                    }
                }
                if exists|i: int| 0 <= i < pts.len() && pts[i] == x && sel[i] == want {
                    let i = choose|i: int| 0 <= i < pts.len() && pts[i] == x && sel[i] == want;
                    if i < l {
                        assert(d[i] == x);
                        assert(q.contains(x));
                        let t = choose|t: int| 0 <= t < q.len() && q[t] == x;
                        assert(q.push(pts[l])[t] == x);
                    } else {
                        assert(q.push(pts[l])[q.len() as int] == x);
                    }
                }
            } else {
                if exists|i: int| 0 <= i < pts.len() && pts[i] == x && sel[i] == want {
                    let i = choose|i: int| 0 <= i < pts.len() && pts[i] == x && sel[i] == want;
                    assert(i < l);
                    assert(d[i] == x);
                }
                if q.contains(x) {
                    let i = choose|i: int| 0 <= i < d.len() && d[i] == x && sel[i] == want;
                    assert(pts[i] == x);
                }
            }
        }
        if pts.no_duplicates() && sel[l] == want {
            assert(d.no_duplicates());
            if q.contains(pts[l]) {
                let i = choose|i: int| 0 <= i < d.len() && d[i] == pts[l] && sel[i] == want;
                assert(pts[i] == pts[l]);
            }
            assert(picked(pts, sel, want) == q.push(pts[l]));
            assert forall|a: int, b: int|
                0 <= a < q.push(pts[l]).len() && 0 <= b < q.push(pts[l]).len() && a != b implies q.push(
                pts[l],
            )[a] != q.push(pts[l])[b] by {
                if a < q.len() && b == q.len() {
                    assert(q.contains(q[a]));
                }
                if b < q.len() && a == q.len() {
                    assert(q.contains(q[b]));
                }
            }
        }
        if pts.no_duplicates() {
            assert(d.no_duplicates());
        }
    }
}

proof fn lemma_push_contains_id(s: Seq<usize>, a: usize, y: usize)
    ensures
        s.push(a).contains(y) <==> (s.contains(y) || y == a),
{
    if s.contains(y) {
        let t = choose|t: int| 0 <= t < s.len() && s[t] == y;
        assert(s.push(a)[t] == y);
    }
    if y == a {
        assert(s.push(a)[s.len() as int] == y);
    }
    if s.push(a).contains(y) {
        let t = choose|t: int| 0 <= t < s.push(a).len() && s.push(a)[t] == y;
        if t < s.len() {
            assert(s[t] == y);
        }
    }
}

/// The ids of `v` whose flag in `sel` equals `want`.
fn pick_ids(v: &Vec<usize>, sel: &Vec<bool>, want: bool) -> (r: Vec<usize>)
    requires
        sel.len() == v.len(),
    ensures
        r@ == picked(v@, sel@, want),
{
    let mut r: Vec<usize> = Vec::new();
    let mut i: usize = 0;
    while i < v.len()
        invariant
            sel.len() == v.len(),
            i <= v.len(),
            r@ == picked(v@.take(i as int), sel@, want),
        decreases v.len() - i,
    {
        proof {
            assert(v@.take(i + 1).drop_last() =~= v@.take(i as int));
        }
        if sel[i] == want {
            r.push(v[i]);
        }
        i = i + 1;
    }
    proof {
        assert(v@.take(v.len() as int) =~= v@);
    }
    r
}

/// A copy of a list of ids.
fn copy_ids(v: &Vec<usize>) -> (r: Vec<usize>)
    ensures
        r@ == v@,
{
    let mut r: Vec<usize> = Vec::new();
    let mut i: usize = 0;
    while i < v.len()
        invariant
            i <= v.len(),
            r@ == v@.take(i as int),
        decreases v.len() - i,
    {
        r.push(v[i]);
        proof {
            assert(v@.take(i + 1) =~= v@.take(i as int).push(v@[i as int]));
        }
        i = i + 1;
    }
    proof {
        assert(v@.take(v.len() as int) =~= v@);
    }
    r
}

} // verus!
