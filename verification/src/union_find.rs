use vstd::prelude::*;

verus! {

/// Sum of `ws[y]` over the elements `y < k` whose root is `r`.
pub open spec fn component_total(ws: Seq<int>, roots: Seq<int>, r: int, k: nat) -> int
    decreases k,
{
    if k == 0 {
        0
    } else {
        component_total(ws, roots, r, (k - 1) as nat) + if roots[k - 1] == r {
            ws[k - 1]
        } else {
            0
        }
    }
}

/// Sum of the first `k` entries of `ws`.
pub open spec fn prefix_total(ws: Seq<int>, k: nat) -> int
    decreases k,
{
    if k == 0 {
        0
    } else {
        prefix_total(ws, (k - 1) as nat) + ws[k - 1]
    }
}

/// A sequence of `n` ones: the weight that counts elements.
pub open spec fn ones(n: nat) -> Seq<int> {
    Seq::new(n, |i: int| 1int)
}

/// The roots after every element of the component rooted at `from` is moved under `to`.
pub open spec fn merged_roots(roots: Seq<int>, from: int, to: int) -> Seq<int> {
    Seq::new(roots.len(), |y: int| if roots[y] == from { to } else { roots[y] })
}

/// Two distinct components together weigh no more than everything.
pub proof fn lemma_two_components_bounded(ws: Seq<int>, roots: Seq<int>, a: int, b: int, k: nat)
    requires
        a != b,
        k <= ws.len(),
        k <= roots.len(),
        forall|i: int| 0 <= i < k ==> ws[i] >= 0,
    ensures
        0 <= component_total(ws, roots, a, k),
        0 <= component_total(ws, roots, b, k),
        component_total(ws, roots, a, k) + component_total(ws, roots, b, k) <= prefix_total(ws, k),
    decreases k,
{
    if k > 0 {
        lemma_two_components_bounded(ws, roots, a, b, (k - 1) as nat);
    }
}

/// Merging the component `from` into `to` adds their weights and leaves the others alone.
pub proof fn lemma_merge_totals(ws: Seq<int>, roots: Seq<int>, from: int, to: int, k: nat)
    requires
        from != to,
        k <= roots.len(),
    ensures
        component_total(ws, merged_roots(roots, from, to), to, k) == component_total(
            ws,
            roots,
            to,
            k,
        ) + component_total(ws, roots, from, k),
        component_total(ws, merged_roots(roots, from, to), from, k) == 0,
        forall|r: int|
            r != from && r != to ==> #[trigger] component_total(ws, merged_roots(roots, from, to), r, k)
                == component_total(ws, roots, r, k),
    decreases k,
{
    if k > 0 {
        lemma_merge_totals(ws, roots, from, to, (k - 1) as nat);
    }
    assert forall|r: int| r != from && r != to implies #[trigger] component_total(
        ws,
        merged_roots(roots, from, to),
        r,
        k,
    ) == component_total(ws, roots, r, k) by {
        lemma_merge_other(ws, roots, from, to, r, k);
    }
}

proof fn lemma_merge_other(ws: Seq<int>, roots: Seq<int>, from: int, to: int, r: int, k: nat)
    requires
        r != from,
        r != to,
        k <= roots.len(),
    ensures
        component_total(ws, merged_roots(roots, from, to), r, k) == component_total(
            ws,
            roots,
            r,
            k,
        ),
    decreases k,
{
    if k > 0 {
        lemma_merge_other(ws, roots, from, to, r, (k - 1) as nat);
    }
}

/// Counting with unit weights gives the number of elements.
pub proof fn lemma_prefix_total_ones(n: nat, k: nat)
    requires
        k <= n,
    ensures
        prefix_total(ones(n), k) == k,
    decreases k,
{
    if k > 0 {
        lemma_prefix_total_ones(n, (k - 1) as nat);
    }
}

/// Component totals depend only on the roots of the elements they range over.
pub proof fn lemma_component_total_agree(
    ws: Seq<int>,
    roots1: Seq<int>,
    roots2: Seq<int>,
    r: int,
    k: nat,
)
    requires
        k <= roots1.len(),
        k <= roots2.len(),
        forall|y: int| 0 <= y < k ==> roots1[y] == roots2[y],
    ensures
        component_total(ws, roots1, r, k) == component_total(ws, roots2, r, k),
    decreases k,
{
    if k > 0 {
        lemma_component_total_agree(ws, roots1, roots2, r, (k - 1) as nat);
    }
}

/// Elements past `k` of weight zero do not change a component's total.
pub proof fn lemma_component_total_zero_tail(ws: Seq<int>, roots: Seq<int>, r: int, k: nat, m: nat)
    requires
        k <= m,
        m <= ws.len(),
        m <= roots.len(),
        forall|i: int| k <= i < m ==> ws[i] == 0,
    ensures
        component_total(ws, roots, r, m) == component_total(ws, roots, r, k),
    decreases m,
{
    if m > k {
        lemma_component_total_zero_tail(ws, roots, r, k, (m - 1) as nat);
    }
}

/// Component totals only read the first `k` weights.
pub proof fn lemma_component_total_prefix_weights(
    ws1: Seq<int>,
    ws2: Seq<int>,
    roots: Seq<int>,
    r: int,
    k: nat,
)
    requires
        k <= ws1.len(),
        k <= ws2.len(),
        forall|i: int| 0 <= i < k ==> ws1[i] == ws2[i],
    ensures
        component_total(ws1, roots, r, k) == component_total(ws2, roots, r, k),
    decreases k,
{
    if k > 0 {
        lemma_component_total_prefix_weights(ws1, ws2, roots, r, (k - 1) as nat);
    }
}

/// Union-find over the elements `0..len`, each carrying a weight; the root of every
/// component also records the component's element count and total weight.
pub struct UnionFind {
    parent: Vec<usize>,
    size: Vec<usize>,
    weight: Vec<usize>,
    roots: Ghost<Seq<int>>,
    height: Ghost<Seq<nat>>,
    initial: Ghost<Seq<int>>,
}

impl UnionFind {
    /// The root of each element.
    pub closed spec fn roots(&self) -> Seq<int> {
        self.roots@
    }

    /// The weight each element was created with.
    pub closed spec fn initial_weights(&self) -> Seq<int> {
        self.initial@
    }

    /// The number of elements.
    pub closed spec fn len(&self) -> nat {
        self.parent@.len()
    }

    /// Heights that strictly grow along every parent pointer.
    pub closed spec fn heights(&self) -> Seq<nat> {
        self.height@
    }

    /// How far `x` can still be from its root, measured in the heights that bound every path.
    pub closed spec fn distance_to_root(&self, x: int) -> int {
        self.height@[self.roots@[x]] - self.height@[x]
    }

    /// Total weight of the component whose root is `r`.
    pub open spec fn component_weight_of(&self, r: int) -> int {
        component_total(self.initial_weights(), self.roots(), r, self.len())
    }

    pub closed spec fn wf(&self) -> bool {
        let n = self.parent@.len();
        let p = self.parent@;
        let rt = self.roots@;
        let h = self.height@;
        &&& n <= usize::MAX
        &&& self.size@.len() == n
        &&& self.weight@.len() == n
        &&& rt.len() == n
        &&& h.len() == n
        &&& self.initial@.len() == n
        &&& forall|x: int| 0 <= x < n ==> (p[x] as int) < n
        &&& forall|x: int| 0 <= x < n ==> 0 <= #[trigger] rt[x] < n
        &&& forall|x: int| 0 <= x < n ==> rt[rt[x]] == #[trigger] rt[x]
        &&& forall|x: int| 0 <= x < n ==> ((#[trigger] p[x] as int == x) <==> rt[x] == x)
        &&& forall|x: int| 0 <= x < n ==> rt[#[trigger] p[x] as int] == rt[x]
        &&& forall|x: int| 0 <= x < n && p[x] as int != x ==> h[#[trigger] p[x] as int] > h[x]
        &&& forall|x: int| 0 <= x < n ==> h[#[trigger] rt[x]] >= h[x]
        &&& forall|x: int| 0 <= x < n ==> #[trigger] self.initial@[x] >= 0
        &&& prefix_total(self.initial@, n) <= usize::MAX
        &&& forall|x: int|
            0 <= x < n && #[trigger] rt[x] == x ==> self.weight@[x] == component_total(
                self.initial@,
                rt,
                x,
                n,
            ) && self.size@[x] == component_total(ones(n), rt, x, n)
    }

    /// Every element starts as its own component, with the given weight.
    pub fn new(size: usize, weights: &[usize]) -> (uf: Self)
        requires
            weights@.len() == size,
            prefix_total(weights@.map_values(|w: usize| w as int), size as nat) <= usize::MAX,
        ensures
            uf.wf(),
            uf.len() == size,
            uf.roots() == Seq::new(size as nat, |i: int| i),
            uf.initial_weights() == weights@.map_values(|w: usize| w as int),
    {
        let mut parent: Vec<usize> = Vec::new();
        let mut sizes: Vec<usize> = Vec::new();
        let mut weight: Vec<usize> = Vec::new();
        let mut i: usize = 0;
        while i < size
            invariant
                i <= size,
                weights@.len() == size,
                parent@.len() == i,
                sizes@.len() == i,
                weight@.len() == i,
                forall|x: int| 0 <= x < i ==> parent@[x] == x,
                forall|x: int| 0 <= x < i ==> sizes@[x] == 1,
                forall|x: int| 0 <= x < i ==> weight@[x] == weights@[x],
            decreases size - i,
        {
            parent.push(i);
            sizes.push(1);
            weight.push(weights[i]);
            i = i + 1;
        }
        let ghost n = size as nat;
        let ghost init = weights@.map_values(|w: usize| w as int);
        let ghost rt = Seq::new(n, |x: int| x);
        let uf = UnionFind {
            parent,
            size: sizes,
            weight,
            roots: Ghost(rt),
            height: Ghost(Seq::new(n, |x: int| 0nat)),
            initial: Ghost(init),
        };
        assert forall|x: int| 0 <= x < n && #[trigger] rt[x] == x implies uf.weight@[x]
            == component_total(init, rt, x, n) && uf.size@[x] == component_total(
            ones(n),
            rt,
            x,
            n,
        ) by {
            lemma_singleton_total(init, n, x, n);
            lemma_singleton_total(ones(n), n, x, n);
        }
        uf
    }

    /// The ghost sequences have one entry per element.
    pub proof fn lemma_lengths(&self)
        requires
            self.wf(),
        ensures
            self.roots().len() == self.len(),
            self.initial_weights().len() == self.len(),
    {
    }

    /// Returns the root of `x`, pointing every element on the way directly at it.
    pub fn find(&mut self, x: usize) -> (r: usize)
        requires
            old(self).wf(),
            x < old(self).len(),
        ensures
            final(self).wf(),
            final(self).len() == old(self).len(),
            final(self).roots() == old(self).roots(),
            final(self).initial_weights() == old(self).initial_weights(),
            final(self).heights() == old(self).heights(),
            r as int == old(self).roots()[x as int],
        decreases old(self).distance_to_root(x as int),
    {
        let p = self.parent[x];
        if p != x {
            proof {
                assert(self.roots@[p as int] == self.roots@[x as int]);
                assert(self.height@[p as int] > self.height@[x as int]);
                assert(self.height@[self.roots@[p as int]] >= self.height@[p as int]);
            }
            let r = self.find(p);
            self.parent.set(x, r);
            proof {
                let n = self.parent@.len() as int;
                let pp = self.parent@;
                let rt = self.roots@;
                let h = self.height@;
                assert(rt[x as int] != x);
                assert forall|y: int| 0 <= y < n implies (#[trigger] pp[y] as int == y) <==> rt[y]
                    == y by {
                    if y == x as int {
                        assert(rt[rt[y]] == rt[y]);
                    }
                }
                assert forall|y: int| 0 <= y < n implies rt[#[trigger] pp[y] as int] == rt[y] by {
                    if y == x as int {
                        assert(rt[rt[y]] == rt[y]);
                    }
                }
                assert forall|y: int| 0 <= y < n && pp[y] as int != y implies h[
                    #[trigger] pp[y] as int] > h[y] by {}
            }
        }
        self.parent[x]
    }

    /// Joins the component of `child` to the component of `parent`, whose root stays the root.
    pub fn union_to_parent(&mut self, child: usize, parent: usize)
        requires
            old(self).wf(),
            child < old(self).len(),
            parent < old(self).len(),
        ensures
            final(self).wf(),
            final(self).len() == old(self).len(),
            final(self).initial_weights() == old(self).initial_weights(),
            final(self).roots() == merged_roots(
                old(self).roots(),
                old(self).roots()[child as int],
                old(self).roots()[parent as int],
            ),
    {
        let ghost r0 = self.roots@;
        let root_child = self.find(child);
        let root_parent = self.find(parent);
        if root_child != root_parent {
            let ghost n = self.parent@.len();
            let ghost init = self.initial@;
            proof {
                assert(r0[root_child as int] == root_child);
                assert(r0[root_parent as int] == root_parent);
                lemma_two_components_bounded(init, r0, root_child as int, root_parent as int, n);
                lemma_two_components_bounded(
                    ones(n),
                    r0,
                    root_child as int,
                    root_parent as int,
                    n,
                );
                lemma_prefix_total_ones(n, n);
                assert(self.size@[root_child as int] == component_total(ones(n), r0, root_child as int, n));
                assert(self.size@[root_parent as int] == component_total(ones(n), r0, root_parent as int, n));
                assert(self.weight@[root_child as int] == component_total(init, r0, root_child as int, n));
                assert(self.weight@[root_parent as int] == component_total(init, r0, root_parent as int, n));
                assert(n <= usize::MAX);
            }
            let new_size = self.size[root_child] + self.size[root_parent];
            let new_weight = self.weight[root_child] + self.weight[root_parent];
            self.parent.set(root_child, root_parent);
            self.size.set(root_parent, new_size);
            self.weight.set(root_parent, new_weight);
            let ghost merged = merged_roots(r0, root_child as int, root_parent as int);
            let ghost h0 = self.height@;
            let ghost hp = if h0[root_parent as int] > h0[root_child as int] {
                h0[root_parent as int]
            } else {
                h0[root_child as int] + 1
            };
            self.roots = Ghost(merged);
            self.height = Ghost(h0.update(root_parent as int, hp));
            proof {
                let rc = root_child as int;
                let rp = root_parent as int;
                let pp = self.parent@;
                let h = self.height@;
                lemma_merge_totals(init, r0, rc, rp, n);
                lemma_merge_totals(ones(n), r0, rc, rp, n);
                assert forall|x: int| 0 <= x < n implies 0 <= #[trigger] merged[x] < n by {}
                assert forall|x: int| 0 <= x < n implies merged[merged[x]] == #[trigger] merged[x] by {}
                assert forall|x: int| 0 <= x < n implies ((#[trigger] pp[x] as int == x) <==> merged[x]
                    == x) by {}
                assert forall|x: int| 0 <= x < n implies merged[#[trigger] pp[x] as int]
                    == merged[x] by {}
                assert forall|x: int| 0 <= x < n && pp[x] as int != x implies h[
                    #[trigger] pp[x] as int] > h[x] by {
                    if x != rc {
                        assert(r0[pp[x] as int] == r0[x]);
                    }
                }
                assert forall|x: int| 0 <= x < n implies h[#[trigger] merged[x]] >= h[x] by {}
                assert forall|x: int|
                    0 <= x < n && #[trigger] merged[x] == x implies self.weight@[x]
                    == component_total(init, merged, x, n) && self.size@[x] == component_total(
                    ones(n),
                    merged,
                    x,
                    n,
                ) by {
                    assert(r0[x] == x);
                }
            }
        }
        proof {
            if root_child == root_parent {
                assert(self.roots@ =~= merged_roots(
                    r0,
                    r0[child as int],
                    r0[parent as int],
                ));
            }
        }
    }

    /// Total weight of the component of `x`.
    pub fn component_weight(&mut self, x: usize) -> (w: usize)
        requires
            old(self).wf(),
            x < old(self).len(),
        ensures
            final(self).wf(),
            final(self).len() == old(self).len(),
            final(self).roots() == old(self).roots(),
            final(self).initial_weights() == old(self).initial_weights(),
            w as int == old(self).component_weight_of(old(self).roots()[x as int]),
    {
        let root = self.find(x);
        self.weight[root]
    }
}

/// In the all-singletons forest each component weighs exactly its element.
proof fn lemma_singleton_total(ws: Seq<int>, n: nat, x: int, k: nat)
    requires
        k <= n,
        0 <= x < n,
    ensures
        component_total(ws, Seq::new(n, |y: int| y), x, k) == if x < k {
            ws[x]
        } else {
            0
        },
    decreases k,
{
    if k > 0 {
        lemma_singleton_total(ws, n, x, (k - 1) as nat);
    }
}

/// A root is its own root: asking for the root of a root changes nothing.
pub proof fn lemma_find_idempotent(uf: &UnionFind, x: int)
    requires
        uf.wf(),
        0 <= x < uf.len(),
    ensures
        uf.roots()[uf.roots()[x]] == uf.roots()[x],
        0 <= uf.roots()[x] < uf.len(),
{
}

/// After a union the two joined elements share one root, and the merged component
/// weighs the sum of the two components it was made of.
pub proof fn lemma_union_joins(roots: Seq<int>, ws: Seq<int>, child: int, parent: int)
    requires
        0 <= child < roots.len(),
        0 <= parent < roots.len(),
        roots[child] != roots[parent],
    ensures
        merged_roots(roots, roots[child], roots[parent])[child] == merged_roots(
            roots,
            roots[child],
            roots[parent],
        )[parent],
        component_total(
            ws,
            merged_roots(roots, roots[child], roots[parent]),
            roots[parent],
            roots.len(),
        ) == component_total(ws, roots, roots[parent], roots.len()) + component_total(
            ws,
            roots,
            roots[child],
            roots.len(),
        ),
{
    lemma_merge_totals(ws, roots, roots[child], roots[parent], roots.len());
}

} // verus!
