use vstd::prelude::*;

use crate::types::Edge;

verus! {

/// Number of items of `s` whose key is at most `k`.
pub open spec fn count_key_le<T>(s: Seq<T>, key: spec_fn(T) -> u64, k: u64) -> nat
    decreases s.len(),
{
    if s.len() == 0 {
        0
    } else {
        count_key_le(s.drop_last(), key, k) + if key(s.last()) <= k {
            1nat
        } else {
            0nat
        }
    }
}

/// `s` stably sorted by `key`: each item, in input order, goes after every item already
/// placed whose key is not larger.
pub open spec fn stable_sort_by<T>(s: Seq<T>, key: spec_fn(T) -> u64) -> Seq<T>
    decreases s.len(),
{
    if s.len() == 0 {
        s
    } else {
        let rest = stable_sort_by(s.drop_last(), key);
        rest.insert(count_key_le(rest, key, key(s.last())) as int, s.last())
    }
}

/// The keys never decrease along `s`.
pub open spec fn key_sorted<T>(s: Seq<T>, key: spec_fn(T) -> u64) -> bool {
    forall|i: int, j: int| 0 <= i < j < s.len() ==> key(s[i]) <= key(s[j])
}

/// The key of an edge is its rank.
pub open spec fn rank_key() -> spec_fn(Edge) -> u64 {
    |e: Edge| e.2
}

/// The key of a value is the value.
pub open spec fn value_key() -> spec_fn(u64) -> u64 {
    |v: u64| v
}

/// The edges stably sorted by rank.
pub open spec fn sorted_by_rank(s: Seq<Edge>) -> Seq<Edge> {
    stable_sort_by(s, rank_key())
}

/// The values sorted in ascending order.
pub open spec fn sorted_values(s: Seq<u64>) -> Seq<u64> {
    stable_sort_by(s, value_key())
}

/// In a sorted sequence, the items of key at most `k` are exactly the first `p`.
proof fn lemma_count_prefix<T>(s: Seq<T>, key: spec_fn(T) -> u64, k: u64, p: int)
    requires
        key_sorted(s, key),
        0 <= p <= s.len(),
        forall|q: int| 0 <= q < p ==> key(s[q]) <= k,
        p < s.len() ==> key(s[p]) > k,
    ensures
        count_key_le(s, key, k) == p,
    decreases s.len(),
{
    if s.len() > 0 {
        let d = s.drop_last();
        assert(forall|q: int| 0 <= q < d.len() ==> d[q] == s[q]);
        if p == s.len() {
            lemma_count_prefix(d, key, k, p - 1);
        } else {
            assert(key(s.last()) >= key(s[p]));
            lemma_count_prefix(d, key, k, p);
        }
    }
}

/// In a sorted sequence the items of key at most `k` come first.
proof fn lemma_count_split<T>(s: Seq<T>, key: spec_fn(T) -> u64, k: u64)
    requires
        key_sorted(s, key),
    ensures
        count_key_le(s, key, k) <= s.len(),
        forall|q: int| 0 <= q < count_key_le(s, key, k) ==> key(s[q]) <= k,
        forall|q: int| count_key_le(s, key, k) <= q < s.len() ==> key(s[q]) > k,
    decreases s.len(),
{
    if s.len() > 0 {
        let d = s.drop_last();
        assert(forall|q: int| 0 <= q < d.len() ==> d[q] == s[q]);
        assert(key_sorted(d, key));
        lemma_count_split(d, key, k);
        if key(s.last()) <= k {
            assert forall|q: int| 0 <= q < s.len() implies key(s[q]) <= k by {
                if q < s.len() - 1 {
                    assert(key(s[q]) <= key(s.last()));
                }
            }
        }
    }
}

/// Inserting at the counted position keeps a sorted sequence sorted.
proof fn lemma_insert_sorted<T>(rest: Seq<T>, key: spec_fn(T) -> u64, e: T)
    requires
        key_sorted(rest, key),
    ensures
        key_sorted(rest.insert(count_key_le(rest, key, key(e)) as int, e), key),
        count_key_le(rest, key, key(e)) <= rest.len(),
{
    lemma_count_split(rest, key, key(e));
    let p = count_key_le(rest, key, key(e)) as int;
    let r = rest.insert(p, e);
    assert forall|i: int, j: int| 0 <= i < j < r.len() implies key(r[i]) <= key(r[j]) by {
        if j < p {
        } else if j == p {
        } else if i < p {
            assert(key(rest[i]) <= key(e));
            assert(key(rest[j - 1]) > key(e));
        } else if i == p {
            assert(key(rest[j - 1]) > key(e));
        } else {
        }
    }
}

proof fn lemma_insert_multiset<T>(s: Seq<T>, p: int, e: T)
    requires
        0 <= p <= s.len(),
    ensures
        s.insert(p, e).to_multiset() == s.to_multiset().insert(e),
{
    let a = s.subrange(0, p);
    let b = s.subrange(p, s.len() as int);
    assert(s =~= a + b);
    assert(s.insert(p, e) =~= a.push(e) + b);
    vstd::seq_lib::lemma_multiset_commutative(a, b);
    vstd::seq_lib::lemma_multiset_commutative(a.push(e), b);
    a.to_multiset_ensures();
    assert(a.push(e).to_multiset() == a.to_multiset().insert(e));
    assert(a.to_multiset().insert(e).add(b.to_multiset()) =~= a.to_multiset().add(
        b.to_multiset(),
    ).insert(e));
}

/// A stable sort is sorted and holds exactly the input items.
pub proof fn lemma_stable_sort_is_sorted_permutation<T>(s: Seq<T>, key: spec_fn(T) -> u64)
    ensures
        key_sorted(stable_sort_by(s, key), key),
        stable_sort_by(s, key).len() == s.len(),
        stable_sort_by(s, key).to_multiset() == s.to_multiset(),
    decreases s.len(),
{
    if s.len() > 0 {
        let rest = stable_sort_by(s.drop_last(), key);
        lemma_stable_sort_is_sorted_permutation(s.drop_last(), key);
        lemma_insert_sorted(rest, key, s.last());
        let p = count_key_le(rest, key, key(s.last())) as int;
        assert(s =~= s.drop_last().push(s.last()));
        s.drop_last().to_multiset_ensures();
        lemma_insert_multiset(rest, p, s.last());
    }
}

/// The stable sort by rank is sorted by rank and holds exactly the input edges.
pub proof fn lemma_sorted_by_rank_is_sorted_permutation(s: Seq<Edge>)
    ensures
        key_sorted(sorted_by_rank(s), rank_key()),
        sorted_by_rank(s).len() == s.len(),
        sorted_by_rank(s).to_multiset() == s.to_multiset(),
{
    lemma_stable_sort_is_sorted_permutation(s, rank_key());
}

/// The ascending sort of values is sorted and holds exactly the input values.
pub proof fn lemma_sorted_values_is_sorted_permutation(s: Seq<u64>)
    ensures
        key_sorted(sorted_values(s), value_key()),
        sorted_values(s).len() == s.len(),
        sorted_values(s).to_multiset() == s.to_multiset(),
{
    lemma_stable_sort_is_sorted_permutation(s, value_key());
}

/// Sorts the edges by rank, keeping edges of equal rank in their input order.
pub fn sort_edges_by_rank(edges: &Vec<Edge>) -> (sorted: Vec<Edge>)
    ensures
        sorted@ == sorted_by_rank(edges@),
{
    let ghost key = rank_key();
    let mut out: Vec<Edge> = Vec::new();
    let mut i: usize = 0;
    while i < edges.len()
        invariant
            key == rank_key(),
            i <= edges.len(),
            out@ == stable_sort_by(edges@.take(i as int), key),
            key_sorted(out@, key),
        decreases edges.len() - i,
    {
        let e = edges[i];
        let mut p: usize = 0;
        while p < out.len() && out[p].2 <= e.2
            invariant
                key == rank_key(),
                p <= out.len(),
                forall|q: int| 0 <= q < p ==> key(out@[q]) <= key(e),
            decreases out.len() - p,
        {
            p = p + 1;
        }
        proof {
            lemma_count_prefix(out@, key, key(e), p as int);
            lemma_insert_sorted(out@, key, e);
            assert(edges@.take(i + 1).drop_last() =~= edges@.take(i as int));
            assert(edges@.take(i + 1).last() == e);
        }
        out.insert(p, e);
        i = i + 1;
    }
    proof {
        assert(edges@.take(edges@.len() as int) =~= edges@);
    }
    out
}

/// Sorts the values in ascending order.
pub fn sort_values(values: &Vec<u64>) -> (sorted: Vec<u64>)
    ensures
        sorted@ == sorted_values(values@),
{
    let ghost key = value_key();
    let mut out: Vec<u64> = Vec::new();
    let mut i: usize = 0;
    while i < values.len()
        invariant
            key == value_key(),
            i <= values.len(),
            out@ == stable_sort_by(values@.take(i as int), key),
            key_sorted(out@, key),
        decreases values.len() - i,
    {
        let e = values[i];
        let mut p: usize = 0;
        while p < out.len() && out[p] <= e
            invariant
                key == value_key(),
                p <= out.len(),
                forall|q: int| 0 <= q < p ==> key(out@[q]) <= key(e),
            decreases out.len() - p,
        {
            p = p + 1;
        }
        proof {
            lemma_count_prefix(out@, key, key(e), p as int);
            lemma_insert_sorted(out@, key, e);
            assert(values@.take(i + 1).drop_last() =~= values@.take(i as int));
            assert(values@.take(i + 1).last() == e);
        }
        out.insert(p, e);
        i = i + 1;
    }
    proof {
        assert(values@.take(values@.len() as int) =~= values@);
    }
    out
}

} // verus!
