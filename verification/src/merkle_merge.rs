//! The progressive Merkle tree over vector cluster centroids: batches of
//! fresh vectors are merged into the clusters at its leaves, overfull
//! clusters are split, and the tree is rebuilt over the resulting clusters.
//!
//! The caller names the cluster each vector joins (its nearest, as the
//! centroid type measures distance); the tree decides how clusters are
//! counted, named and split, and how the tree is shaped and hashed; the
//! centroid type computes the points themselves.

use vstd::prelude::*;
use crate::merkle_hash::leaf_hash;
use crate::merkle_tree::{
    build_tree, built_from, hashes_of, ids_increasing, leaf_id, lemma_sound_count, root_hash, total_count, Centroid,
    MerkleNode,
};

verus! {

/// The number of vectors of `batch` whose length is `d`.
pub open spec fn matching<C>(batch: Seq<(usize, C)>, d: usize) -> int
    decreases batch.len(),
{
    if batch.len() == 0 {
        0
    } else {
        matching(batch.drop_last(), d) + if batch.last().0 == d {
            1int
        } else {
            0int
        }
    }
}

/// The sum of a sequence of counts.
pub open spec fn sum_of(s: Seq<u64>) -> int
    decreases s.len(),
{
    if s.len() == 0 {
        0
    } else {
        sum_of(s.drop_last()) + s.last()
    }
}

/// The cluster ids of a sequence of leaves.
pub open spec fn ids_of<C>(s: Seq<MerkleNode<C>>) -> Seq<u64> {
    s.map_values(|n: MerkleNode<C>| leaf_id(n))
}

/// The vector counts of a sequence of nodes.
pub open spec fn counts_of<C>(s: Seq<MerkleNode<C>>) -> Seq<u64> {
    s.map_values(|n: MerkleNode<C>| n.count_spec())
}

/// No id occurs twice.
pub open spec fn distinct(s: Seq<u64>) -> bool {
    forall|i: int, j: int| 0 <= i < j < s.len() ==> #[trigger] s[i] != #[trigger] s[j]
}

/// Every count is at least one.
pub open spec fn all_positive(s: Seq<u64>) -> bool {
    forall|i: int| 0 <= i < s.len() ==> #[trigger] s[i] >= 1
}

/// Every id is below `next`.
pub open spec fn all_below(s: Seq<u64>, next: u64) -> bool {
    forall|i: int| 0 <= i < s.len() ==> #[trigger] s[i] < next
}

proof fn lemma_sum_push(s: Seq<u64>, x: u64)
    ensures
        sum_of(s.push(x)) == sum_of(s) + x,
{
    assert(s.push(x).drop_last() =~= s);
}

proof fn lemma_sum_nonneg(s: Seq<u64>)
    ensures
        sum_of(s) >= 0,
    decreases s.len(),
{
    if s.len() > 0 {
        lemma_sum_nonneg(s.drop_last());
    }
}

proof fn lemma_sum_prefix(s: Seq<u64>, k: int)
    requires
        0 <= k <= s.len(),
    ensures
        sum_of(s.take(k)) <= sum_of(s),
    decreases s.len(),
{
    if k == s.len() {
        assert(s.take(k) =~= s);
    } else {
        let t = s.drop_last();
        assert(s.take(k) =~= t.take(k));
        lemma_sum_prefix(t, k);
    }
}

proof fn lemma_sum_take_step(s: Seq<u64>, k: int)
    requires
        0 <= k < s.len(),
    ensures
        sum_of(s.take(k + 1)) == sum_of(s.take(k)) + s[k],
{
    assert(s.take(k + 1).drop_last() =~= s.take(k));
}

proof fn lemma_elem_le_sum(s: Seq<u64>, i: int)
    requires
        0 <= i < s.len(),
    ensures
        s[i] <= sum_of(s),
    decreases s.len(),
{
    lemma_sum_nonneg(s.drop_last());
    if i < s.len() - 1 {
        lemma_elem_le_sum(s.drop_last(), i);
    }
}

proof fn lemma_sum_update(s: Seq<u64>, i: int, x: u64)
    requires
        0 <= i < s.len(),
    ensures
        sum_of(s.update(i, x)) == sum_of(s) - s[i] + x,
    decreases s.len(),
{
    let u = s.update(i, x);
    if i == s.len() - 1 {
        assert(u.drop_last() =~= s.drop_last());
    } else {
        lemma_sum_update(s.drop_last(), i, x);
        assert(u.drop_last() =~= s.drop_last().update(i, x));
    }
}

proof fn lemma_matching_step<C>(b: Seq<(usize, C)>, k: int, d: usize)
    requires
        0 <= k < b.len(),
    ensures
        matching(b.take(k + 1), d) == matching(b.take(k), d) + if b[k].0 == d { 1int } else { 0int },
{
    assert(b.take(k + 1).drop_last() =~= b.take(k));
}

proof fn lemma_matching_bound<C>(b: Seq<(usize, C)>, d: usize)
    ensures
        0 <= matching(b, d) <= b.len(),
    decreases b.len(),
{
    if b.len() > 0 {
        lemma_matching_bound(b.drop_last(), d);
    }
}

proof fn lemma_counts_total<C>(s: Seq<MerkleNode<C>>)
    ensures
        sum_of(counts_of(s)) == total_count(s),
    decreases s.len(),
{
    if s.len() > 0 {
        lemma_counts_total(s.drop_last());
        assert(counts_of(s).drop_last() =~= counts_of(s.drop_last()));
    }
}

/// Every node among a subtree's leaves is a leaf.
pub proof fn lemma_leaves_are_leaves<C>(n: MerkleNode<C>)
    ensures
        forall|i: int| 0 <= i < n.leaves().len() ==> #[trigger] n.leaves()[i] is Leaf,
    decreases n,
{
    match n {
        MerkleNode::Leaf { .. } => {},
        MerkleNode::Internal { left, right, .. } => {
            lemma_leaves_are_leaves(*left);
            lemma_leaves_are_leaves(*right);
            let l = (*left).leaves();
            let r = (*right).leaves();
            assert forall|i: int| 0 <= i < n.leaves().len() implies #[trigger] n.leaves()[i] is Leaf by {
                if i < l.len() {
                    assert(n.leaves()[i] == l[i]);
                } else {
                    assert(n.leaves()[i] == r[i - l.len()]);
                }
            }
        },
    }
}

/// Takes a subtree apart into the ids, counts and centroids of its leaves,
/// left to right, appended to the three lists.
fn unzip_leaves<C>(node: MerkleNode<C>, ids: &mut Vec<u64>, counts: &mut Vec<u64>, cents: &mut Vec<C>)
    ensures
        final(ids)@ == old(ids)@ + ids_of(node.leaves()),
        final(counts)@ == old(counts)@ + counts_of(node.leaves()),
        final(cents)@.len() == old(cents)@.len() + node.leaves().len(),
    decreases node,
{
    let ghost all = node.leaves();
    match node {
        MerkleNode::Leaf { centroid, cluster_id, count, .. } => {
            ids.push(cluster_id);
            counts.push(count);
            cents.push(centroid);
            proof {
                assert(ids_of(all) =~= seq![cluster_id]);
                assert(counts_of(all) =~= seq![count]);
            }
        },
        MerkleNode::Internal { left, right, .. } => {
            let ghost ll = (*left).leaves();
            let ghost rl = (*right).leaves();
            unzip_leaves(*left, ids, counts, cents);
            unzip_leaves(*right, ids, counts, cents);
            proof {
                assert(all == ll + rl);
                assert(ids_of(all) =~= ids_of(ll) + ids_of(rl));
                assert(counts_of(all) =~= counts_of(ll) + counts_of(rl));
                assert(ids@ =~= old(ids)@ + ids_of(all));
                assert(counts@ =~= old(counts)@ + counts_of(all));
            }
        },
    }
}

/// The items of `v` in reverse order.
fn reversed<T>(v: Vec<T>) -> (r: Vec<T>)
    ensures
        r@.len() == v@.len(),
        forall|i: int| 0 <= i < v@.len() ==> #[trigger] r@[i] == v@[v@.len() - 1 - i],
{
    let ghost orig = v@;
    let mut v = v;
    let mut r: Vec<T> = Vec::new();
    while v.len() > 0
        invariant
            v@ == orig.take(v@.len() as int),
            r@.len() + v@.len() == orig.len(),
            forall|i: int| 0 <= i < r@.len() ==> #[trigger] r@[i] == orig[orig.len() - 1 - i],
        decreases v.len(),
    {
        let x = v.pop().unwrap();
        r.push(x);
        proof {
            assert(v@ =~= orig.take(v@.len() as int));
        }
    }
    r
}

/// The (cluster id, vector count) pairs of parallel lists of ids and counts.
pub open spec fn pairs(ids: Seq<u64>, counts: Seq<u64>) -> Seq<(int, int)> {
    Seq::new(ids.len(), |i: int| (ids[i] as int, counts[i] as int))
}

/// The (cluster id, vector count) pairs of a sequence of leaves.
pub open spec fn leaf_pairs<C>(s: Seq<MerkleNode<C>>) -> Seq<(int, int)> {
    s.map_values(|n: MerkleNode<C>| (leaf_id(n) as int, n.count_spec() as int))
}

/// Some cluster of `s` holds more than `max` vectors.
pub open spec fn overfull(s: Seq<(int, int)>, max: int) -> bool {
    exists|i: int| 0 <= i < s.len() && #[trigger] s[i].1 > max
}

/// One pass of splitting over the clusters `s`, in order, with fresh ids
/// from `next` on: a cluster of more than `max` vectors becomes two, of half
/// its vectors rounded down and the rest; the others stay. Gives the new
/// clusters and the next free id.
pub open spec fn split_once(s: Seq<(int, int)>, next: int, max: int) -> (Seq<(int, int)>, int)
    decreases s.len(),
{
    if s.len() == 0 {
        (Seq::empty(), next)
    } else {
        let p = split_once(s.drop_last(), next, max);
        let c = s.last().1;
        if c > max {
            (p.0.push((p.1, c / 2)).push((p.1 + 1, c - c / 2)), p.1 + 2)
        } else {
            (p.0.push(s.last()), p.1)
        }
    }
}

/// How many clusters of `s` hold more than `max` vectors.
pub open spec fn splits(s: Seq<(int, int)>, max: int) -> int
    decreases s.len(),
{
    if s.len() == 0 {
        0
    } else {
        splits(s.drop_last(), max) + if s.last().1 > max {
            1int
        } else {
            0int
        }
    }
}

/// By how much the counts of `s` exceed one, summed over counts of at
/// least one.
pub open spec fn pair_excess(s: Seq<(int, int)>) -> int
    decreases s.len(),
{
    if s.len() == 0 {
        0
    } else {
        pair_excess(s.drop_last()) + if s.last().1 >= 1 {
            s.last().1 - 1
        } else {
            0
        }
    }
}

/// Passes of splitting until no cluster holds more than `max` vectors:
/// the final clusters and the next free id.
pub open spec fn split_all(s: Seq<(int, int)>, next: int, max: int) -> (Seq<(int, int)>, int)
    decreases pair_excess(s) when max >= 1
{
    if !overfull(s, max) {
        (s, next)
    } else {
        proof {
            lemma_split_once(s, next, max);
            lemma_pair_excess_nonneg(split_once(s, next, max).0);
        }
        split_all(split_once(s, next, max).0, split_once(s, next, max).1, max)
    }
}

/// The target of vector `k`: the leaf position given for it, if any.
pub open spec fn target_of(t: Seq<Option<usize>>, k: int) -> Option<usize> {
    if 0 <= k < t.len() {
        t[k]
    } else {
        None
    }
}

/// Vector `k` of the batch has length `d` and joins the leaf at position `j`.
pub open spec fn joins_here<C>(b: Seq<(usize, C)>, t: Seq<Option<usize>>, d: usize, k: int, j: int) -> bool {
    &&& b[k].0 == d
    &&& match target_of(t, k) {
        Some(x) => x == j,
        None => false,
    }
}

/// Vector `k` of the batch has length `d` and names none of the `n_old`
/// leaves: it starts a cluster of its own.
pub open spec fn starts_here<C>(b: Seq<(usize, C)>, t: Seq<Option<usize>>, d: usize, k: int, n_old: int) -> bool {
    &&& b[k].0 == d
    &&& match target_of(t, k) {
        Some(x) => x >= n_old,
        None => true,
    }
}

/// How many of the first `k` vectors join the leaf at position `j`.
pub open spec fn joins<C>(b: Seq<(usize, C)>, t: Seq<Option<usize>>, d: usize, j: int, k: nat) -> int
    decreases k,
{
    if k == 0 {
        0
    } else {
        joins(b, t, d, j, (k - 1) as nat) + if joins_here(b, t, d, k - 1, j) {
            1int
        } else {
            0int
        }
    }
}

/// How many of the first `k` vectors start clusters of their own.
pub open spec fn starts<C>(b: Seq<(usize, C)>, t: Seq<Option<usize>>, d: usize, n_old: int, k: nat) -> int
    decreases k,
{
    if k == 0 {
        0
    } else {
        starts(b, t, d, n_old, (k - 1) as nat) + if starts_here(b, t, d, k - 1, n_old) {
            1int
        } else {
            0int
        }
    }
}

/// The clusters after a batch joins the clusters `p0`, before splitting:
/// each old cluster counts the vectors that join it, and each vector that
/// joins none starts a cluster of one, with ids from `next0` on, in order.
pub open spec fn merged<C>(p0: Seq<(int, int)>, b: Seq<(usize, C)>, t: Seq<Option<usize>>, d: usize, next0: int) -> Seq<
    (int, int),
> {
    Seq::new(
        (p0.len() + starts(b, t, d, p0.len() as int, b.len())) as nat,
        |i: int|
            if i < p0.len() {
                (p0[i].0, p0[i].1 + joins(b, t, d, i, b.len()))
            } else {
                (next0 + (i - p0.len()), 1int)
            },
    )
}

/// The clusters and the next free id after merging batch `b`, with leaf
/// targets `t`, into the leaves `old` of a tree whose next id is `next0`
/// and whose clusters keep at most `max` vectors.
pub open spec fn merge_result<C>(
    old: Seq<MerkleNode<C>>,
    b: Seq<(usize, C)>,
    t: Seq<Option<usize>>,
    next0: int,
    max: int,
) -> (Seq<(int, int)>, int) {
    split_all(
        merged(leaf_pairs(old), b, t, b[0].0, next0),
        next0 + starts(b, t, b[0].0, old.len() as int, b.len()),
        max,
    )
}

pub proof fn lemma_pair_excess_nonneg(s: Seq<(int, int)>)
    ensures
        pair_excess(s) >= 0,
    decreases s.len(),
{
    if s.len() > 0 {
        lemma_pair_excess_nonneg(s.drop_last());
    }
}

/// A pass of splitting hands out two ids and takes one from the excess per
/// overfull cluster, and changes nothing when no cluster is overfull.
pub proof fn lemma_split_once(s: Seq<(int, int)>, next: int, max: int)
    requires
        max >= 1,
    ensures
        splits(s, max) >= 0,
        split_once(s, next, max).1 == next + 2 * splits(s, max),
        pair_excess(split_once(s, next, max).0) == pair_excess(s) - splits(s, max),
        overfull(s, max) ==> splits(s, max) >= 1,
        !overfull(s, max) ==> split_once(s, next, max) == (s, next),
    decreases s.len(),
{
    if s.len() > 0 {
        let t = s.drop_last();
        lemma_split_once(t, next, max);
        let p = split_once(t, next, max);
        let c = s.last().1;
        if c > max {
            let a = c / 2;
            assert(c >= 2);
            assert(a >= 1 && c - a >= 1);
            let q = p.0.push((p.1, a));
            assert(q.push((p.1 + 1, c - a)).drop_last() =~= q);
            assert(q.drop_last() =~= p.0);
            assert(pair_excess(q) == pair_excess(p.0) + a - 1);
            assert(pair_excess(q.push((p.1 + 1, c - a))) == pair_excess(q) + c - a - 1);
            assert(pair_excess(s) == pair_excess(t) + c - 1);
        } else {
            assert(p.0.push(s.last()).drop_last() =~= p.0);
            assert(p.0.push(s.last()).last() == s.last());
        }
        if overfull(s, max) {
            let i = choose|i: int| 0 <= i < s.len() && #[trigger] s[i].1 > max;
            if i < s.len() - 1 {
                assert(t[i] == s[i]);
            }
        }
        if overfull(t, max) {
            let i = choose|i: int| 0 <= i < t.len() && #[trigger] t[i].1 > max;
            assert(s[i] == t[i]);
        }
        if !overfull(s, max) {
            assert(!(s[s.len() - 1].1 > max));
            assert(t.push(s.last()) =~= s);
        }
    }
}

/// Splitting to the end hands out at least the ids of the first pass.
pub proof fn lemma_split_all_next(s: Seq<(int, int)>, next: int, max: int)
    requires
        max >= 1,
    ensures
        split_all(s, next, max).1 >= split_once(s, next, max).1,
        split_once(s, next, max).1 >= next,
    decreases pair_excess(s),
{
    lemma_split_once(s, next, max);
    if overfull(s, max) {
        let p = split_once(s, next, max);
        lemma_pair_excess_nonneg(p.0);
        lemma_split_all_next(p.0, p.1, max);
    }
}

/// A pass over a prefix hands out no more ids than the pass over the whole.
pub proof fn lemma_split_once_prefix(s: Seq<(int, int)>, k: int, next: int, max: int)
    requires
        0 <= k <= s.len(),
    ensures
        split_once(s.take(k), next, max).1 <= split_once(s, next, max).1,
    decreases s.len(),
{
    if k == s.len() {
        assert(s.take(k) =~= s);
    } else {
        let t = s.drop_last();
        assert(s.take(k) =~= t.take(k));
        lemma_split_once_prefix(t, k, next, max);
    }
}

proof fn lemma_starts_monotone<C>(b: Seq<(usize, C)>, t: Seq<Option<usize>>, d: usize, n_old: int, k: nat, m: nat)
    requires
        k <= m,
    ensures
        starts(b, t, d, n_old, k) <= starts(b, t, d, n_old, m),
        starts(b, t, d, n_old, m) >= 0,
    decreases m,
{
    if m > 0 {
        lemma_starts_monotone(b, t, d, n_old, if k == m { (m - 1) as nat } else { k }, (m - 1) as nat);
    }
}

proof fn lemma_starts_all<C>(b: Seq<(usize, C)>, t: Seq<Option<usize>>, d: usize, k: nat)
    requires
        k <= b.len(),
    ensures
        starts(b, t, d, 0, k) == matching(b.take(k as int), d),
    decreases k,
{
    if k == 0 {
        assert(b.take(0) =~= Seq::<(usize, C)>::empty());
    } else {
        lemma_starts_all(b, t, d, (k - 1) as nat);
        lemma_matching_step(b, k - 1, d);
    }
}

/// One pass of splitting: every cluster of more than `max` vectors, in
/// order, is replaced by two clusters of half its vectors each (the first
/// half rounded down), with centroids split apart and fresh ids taken from
/// `next` on. Returns the new ids, counts and centroids, the next free id,
/// and whether any cluster was split.
fn split_pass<C: Centroid>(
    ids: Vec<u64>,
    counts: Vec<u64>,
    cents: Vec<C>,
    next: u64,
    max: usize,
) -> (r: (Vec<u64>, Vec<u64>, Vec<C>, u64, bool))
    requires
        ids@.len() == counts@.len(),
        cents@.len() == counts@.len(),
        max >= 1,
        distinct(ids@),
        all_below(ids@, next),
        forall|i: int| 0 <= i < counts@.len() ==> #[trigger] counts@[i] >= 1,
        split_once(pairs(ids@, counts@), next as int, max as int).1 <= u64::MAX,
    ensures
        r.0@.len() == r.1@.len(),
        r.2@.len() == r.1@.len(),
        distinct(r.0@),
        all_below(r.0@, r.3),
        r.3 >= next,
        forall|i: int| 0 <= i < r.0@.len() ==> ids@.contains(#[trigger] r.0@[i]) || next <= r.0@[i],
        forall|i: int| 0 <= i < r.1@.len() ==> #[trigger] r.1@[i] >= 1,
        sum_of(r.1@) == sum_of(counts@),
        pairs(r.0@, r.1@) == split_once(pairs(ids@, counts@), next as int, max as int).0,
        r.3 == split_once(pairs(ids@, counts@), next as int, max as int).1,
        r.4 == overfull(pairs(ids@, counts@), max as int),
{
    let ghost ps = pairs(ids@, counts@);
    let n = ids.len();
    let mut rev = reversed(cents);
    let mut out_ids: Vec<u64> = Vec::new();
    let mut out_counts: Vec<u64> = Vec::new();
    let mut out_cents: Vec<C> = Vec::new();
    let mut cur = next;
    let mut split = false;
    let mut j: usize = 0;
    proof {
        assert(counts@.take(0) =~= Seq::<u64>::empty());
        assert(ps.take(0) =~= Seq::<(int, int)>::empty());
        assert(pairs(out_ids@, out_counts@) =~= Seq::<(int, int)>::empty());
        assert(!overfull(ps.take(0), max as int));
    }
    while j < n
        invariant
            n == ids@.len(),
            n == counts@.len(),
            ps == pairs(ids@, counts@),
            j <= n,
            max >= 1,
            rev@.len() == n - j,
            out_ids@.len() == out_counts@.len(),
            out_cents@.len() == out_counts@.len(),
            distinct(ids@),
            all_below(ids@, next),
            forall|i: int| 0 <= i < counts@.len() ==> #[trigger] counts@[i] >= 1,
            split_once(ps, next as int, max as int).1 <= u64::MAX,
            distinct(out_ids@),
            all_below(out_ids@, cur),
            cur >= next,
            forall|i: int| 0 <= i < out_ids@.len() ==> (exists|k: int| 0 <= k < j && ids@[k] == #[trigger] out_ids@[i])
                || next <= out_ids@[i],
            forall|i: int| 0 <= i < out_counts@.len() ==> #[trigger] out_counts@[i] >= 1,
            sum_of(out_counts@) == sum_of(counts@.take(j as int)),
            pairs(out_ids@, out_counts@) == split_once(ps.take(j as int), next as int, max as int).0,
            cur == split_once(ps.take(j as int), next as int, max as int).1,
            split == overfull(ps.take(j as int), max as int),
        decreases n - j,
    {
        let c = rev.pop().unwrap();
        let id = ids[j];
        let count = counts[j];
        let ghost pj = ps.take(j as int);
        let ghost pj1 = ps.take(j + 1);
        proof {
            lemma_sum_take_step(counts@, j as int);
            lemma_split_once_prefix(ps, j + 1, next as int, max as int);
            assert(pj1.drop_last() =~= pj);
            assert(pj1.last() == (id as int, count as int));
            assert(overfull(pj1, max as int) == (overfull(pj, max as int) || count > max)) by {
                if overfull(pj, max as int) {
                    let w = choose|w: int| 0 <= w < pj.len() && #[trigger] pj[w].1 > max;
                    assert(pj1[w] == pj[w]);
                }
                if count > max {
                    assert(pj1[j as int].1 > max);
                }
                if overfull(pj1, max as int) {
                    let w = choose|w: int| 0 <= w < pj1.len() && #[trigger] pj1[w].1 > max;
                    if w < j {
                        assert(pj[w] == pj1[w]);
                    }
                }
            }
        }
        let ghost o0 = out_ids@;
        let ghost oc0 = out_counts@;
        if count as u128 > max as u128 {
            let (c1, c2) = c.split();
            let a = count / 2;
            let b = count - count / 2;
            let id1 = cur;
            let id2 = cur + 1;
            out_ids.push(id1);
            out_ids.push(id2);
            out_counts.push(a);
            out_counts.push(b);
            out_cents.push(c1);
            out_cents.push(c2);
            cur = cur + 2;
            split = true;
            proof {
                lemma_sum_push(oc0, a);
                lemma_sum_push(oc0.push(a), b);
                assert(out_counts@ == oc0.push(a).push(b));
                assert(out_ids@ == o0.push(id1).push(id2));
                assert(pairs(out_ids@, out_counts@) =~= pairs(o0, oc0).push((id1 as int, a as int)).push((id2 as int, b as int)));
                assert forall|i: int| 0 <= i < out_counts@.len() implies #[trigger] out_counts@[i] >= 1 by {
                    if i < oc0.len() {
                        assert(out_counts@[i] == oc0[i]);
                    }
                }
                assert forall|i: int| 0 <= i < out_ids@.len() implies #[trigger] out_ids@[i] < cur by {
                    if i < o0.len() {
                        assert(out_ids@[i] == o0[i]);
                    }
                }
                assert forall|x: int, y: int| 0 <= x < y < out_ids@.len() implies #[trigger] out_ids@[x] != #[trigger] out_ids@[y] by {
                    if y < o0.len() {
                        assert(out_ids@[x] == o0[x] && out_ids@[y] == o0[y]);
                    } else if x < o0.len() {
                        assert(out_ids@[x] == o0[x]);
                        assert(o0[x] < id1);
                    }
                }
                assert forall|i: int| 0 <= i < out_ids@.len() implies (exists|k: int| 0 <= k < j + 1 && ids@[k] == #[trigger] out_ids@[i])
                    || next <= out_ids@[i] by {
                    if i < o0.len() {
                        assert(out_ids@[i] == o0[i]);
                        if !(next <= o0[i]) {
                            let k = choose|k: int| 0 <= k < j && ids@[k] == #[trigger] o0[i];
                            assert(ids@[k] == out_ids@[i]);
                        }
                    }
                }
            }
        } else {
            out_ids.push(id);
            out_counts.push(count);
            out_cents.push(c);
            proof {
                lemma_sum_push(oc0, count);
                assert(pairs(out_ids@, out_counts@) =~= pairs(o0, oc0).push((id as int, count as int)));
                assert(id < next);
                assert forall|i: int| 0 <= i < out_counts@.len() implies #[trigger] out_counts@[i] >= 1 by {
                    if i < oc0.len() {
                        assert(out_counts@[i] == oc0[i]);
                    }
                }
                assert forall|i: int| 0 <= i < out_ids@.len() implies #[trigger] out_ids@[i] < cur by {
                    if i < o0.len() {
                        assert(out_ids@[i] == o0[i]);
                    }
                }
                assert forall|x: int, y: int| 0 <= x < y < out_ids@.len() implies #[trigger] out_ids@[x] != #[trigger] out_ids@[y] by {
                    if y < o0.len() {
                        assert(out_ids@[x] == o0[x] && out_ids@[y] == o0[y]);
                    } else {
                        assert(out_ids@[x] == o0[x]);
                        if !(next <= o0[x]) {
                            let k = choose|k: int| 0 <= k < j && ids@[k] == #[trigger] o0[x];
                            assert(ids@[k] != ids@[j as int]);
                        }
                    }
                }
                assert forall|i: int| 0 <= i < out_ids@.len() implies (exists|k: int| 0 <= k < j + 1 && ids@[k] == #[trigger] out_ids@[i])
                    || next <= out_ids@[i] by {
                    if i < o0.len() {
                        assert(out_ids@[i] == o0[i]);
                        if !(next <= o0[i]) {
                            let k = choose|k: int| 0 <= k < j && ids@[k] == #[trigger] o0[i];
                            assert(ids@[k] == out_ids@[i]);
                        }
                    } else {
                        assert(ids@[j as int] == out_ids@[i]);
                    }
                }
            }
        }
        j = j + 1;
    }
    proof {
        assert(counts@.take(n as int) =~= counts@);
        assert(ps.take(n as int) =~= ps);
        assert forall|i: int| 0 <= i < out_ids@.len() implies ids@.contains(#[trigger] out_ids@[i]) || next <= out_ids@[i] by {
            if !(next <= out_ids@[i]) {
                let k = choose|k: int| 0 <= k < n && ids@[k] == #[trigger] out_ids@[i];
                assert(ids@[k] == out_ids@[i]);
            }
        }
    }
    (out_ids, out_counts, out_cents, cur, split)
}

/// The progressive Merkle tree: a binary Merkle tree over cluster leaves,
/// the next cluster id to hand out, and the largest cluster it keeps.
pub struct MerkleTree<C> {
    root: Option<Box<MerkleNode<C>>>,
    next_cluster_id: u64,
    max_cluster_size: usize,
}

impl<C> MerkleTree<C> {
    /// The root of the tree.
    pub closed spec fn root_spec(&self) -> Option<Box<MerkleNode<C>>> {
        self.root
    }

    /// The cluster leaves of the tree, left to right.
    pub open spec fn leaves_spec(&self) -> Seq<MerkleNode<C>> {
        match self.root_spec() {
            Some(r) => (*r).leaves(),
            None => Seq::empty(),
        }
    }

    /// The next cluster id to hand out.
    pub closed spec fn next_id_spec(&self) -> u64 {
        self.next_cluster_id
    }

    /// The largest number of vectors a cluster keeps before it splits.
    pub closed spec fn max_spec(&self) -> usize {
        self.max_cluster_size
    }

    /// The cluster ids are distinct and below the next id to hand out, and
    /// every cluster holds at least one vector.
    pub open spec fn wf(&self) -> bool {
        &&& distinct(ids_of(self.leaves_spec()))
        &&& all_below(ids_of(self.leaves_spec()), self.next_id_spec())
        &&& all_positive(counts_of(self.leaves_spec()))
    }

    /// The root is sound, its leaves ordered by cluster id, and its hash is
    /// the balanced pairing of the leaves' hashes.
    pub open spec fn built(&self) -> bool {
        self.root_spec() matches Some(r) ==> {
            &&& (*r).sound()
            &&& ids_increasing((*r).leaves())
            &&& (*r).hash_spec()@ == root_hash(hashes_of((*r).leaves()))
        }
    }

    /// Create a new empty Merkle tree; cluster ids start at 1.
    pub fn new(max_cluster_size: usize) -> (r: Self)
        ensures
            r.wf(),
            r.root_spec() is None,
            r.next_id_spec() == 1,
            r.max_spec() == max_cluster_size,
    {
        MerkleTree { root: None, next_cluster_id: 1, max_cluster_size }
    }

    /// A tree from a stored root, next id and cluster size limit, when its
    /// cluster ids are distinct and below the next id and every cluster
    /// holds a vector (`None` otherwise).
    pub fn from_parts(root: Option<Box<MerkleNode<C>>>, next_cluster_id: u64, max_cluster_size: usize) -> (r: Option<Self>)
        ensures
            r is Some <==> ({
                let l = match root {
                    Some(b) => (*b).leaves(),
                    None => Seq::<MerkleNode<C>>::empty(),
                };
                distinct(ids_of(l)) && all_below(ids_of(l), next_cluster_id) && all_positive(counts_of(l))
            }),
            r matches Some(t) ==> t.root_spec() == root && t.next_id_spec() == next_cluster_id
                && t.max_spec() == max_cluster_size && t.wf(),
    {
        let ok = match &root {
            Some(b) => {
                let leaves = b.collect_leaves();
                let ghost l = (**b).leaves();
                let n = leaves.len();
                let mut ids: Vec<u64> = Vec::new();
                let mut positive = true;
                let mut i: usize = 0;
                proof {
                    lemma_leaves_are_leaves(**b);
                }
                while i < n
                    invariant
                        n == leaves@.len(),
                        n == l.len(),
                        i <= n,
                        forall|k: int| 0 <= k < n ==> *leaves@[k] == #[trigger] l[k],
                        forall|k: int| 0 <= k < n ==> #[trigger] l[k] is Leaf,
                        ids@ == ids_of(l).take(i as int),
                        positive <==> forall|k: int| 0 <= k < i ==> #[trigger] counts_of(l)[k] >= 1,
                    decreases n - i,
                {
                    let id = match leaves[i].cluster_id() {
                        Some(x) => x,
                        None => 0,
                    };
                    if leaves[i].count() == 0 {
                        positive = false;
                    }
                    ids.push(id);
                    proof {
                        assert(ids@ =~= ids_of(l).take(i + 1));
                        assert(counts_of(l)[i as int] == l[i as int].count_spec());
                    }
                    i = i + 1;
                }
                proof {
                    assert(ids@ =~= ids_of(l));
                }
                let mut good = true;
                let mut a: usize = 0;
                while a < n
                    invariant
                        n == ids@.len(),
                        a <= n,
                        good <==> (forall|x: int| 0 <= x < a ==> #[trigger] ids@[x] < next_cluster_id)
                            && (forall|x: int, y: int| 0 <= x < y < n && x < a ==> #[trigger] ids@[x] != #[trigger] ids@[y]),
                    decreases n - a,
                {
                    if ids[a] >= next_cluster_id {
                        good = false;
                    }
                    let mut c: usize = a + 1;
                    while c < n
                        invariant
                            n == ids@.len(),
                            a < n,
                            a < c <= n,
                            good ==> forall|y: int| a < y < c ==> ids@[a as int] != #[trigger] ids@[y],
                            !good ==> !((forall|x: int| 0 <= x <= a ==> #[trigger] ids@[x] < next_cluster_id)
                                && (forall|x: int, y: int| 0 <= x < y < n && x <= a ==> #[trigger] ids@[x] != #[trigger] ids@[y])),
                            good ==> (forall|x: int| 0 <= x <= a ==> #[trigger] ids@[x] < next_cluster_id)
                                && (forall|x: int, y: int| 0 <= x < y < n && x < a ==> #[trigger] ids@[x] != #[trigger] ids@[y]),
                        decreases n - c,
                    {
                        if ids[a] == ids[c] {
                            good = false;
                        }
                        c = c + 1;
                    }
                    a = a + 1;
                }
                good && positive
            },
            None => {
                proof {
                    assert(ids_of(Seq::<MerkleNode<C>>::empty()) =~= Seq::<u64>::empty());
                    assert(counts_of(Seq::<MerkleNode<C>>::empty()) =~= Seq::<u64>::empty());
                }
                true
            },
        };
        if ok {
            Some(MerkleTree { root, next_cluster_id, max_cluster_size })
        } else {
            None
        }
    }

    /// Return a reference to the root node, if any.
    pub fn root(&self) -> (r: Option<&MerkleNode<C>>)
        ensures
            r matches Some(n) ==> self.root_spec() matches Some(b) && *n == *b,
            r is None <==> self.root_spec() is None,
    {
        match &self.root {
            Some(b) => Some(&**b),
            None => None,
        }
    }

    /// The next cluster id to hand out.
    pub fn next_cluster_id(&self) -> (r: u64)
        ensures
            r == self.next_id_spec(),
    {
        self.next_cluster_id
    }

    /// The largest number of vectors a cluster keeps before it splits.
    pub fn max_cluster_size(&self) -> (r: usize)
        ensures
            r == self.max_spec(),
    {
        self.max_cluster_size
    }

    /// The number of centroids (leaf clusters) in the tree.
    pub fn num_centroids(&self) -> (r: usize)
        ensures
            r == self.leaves_spec().len(),
    {
        match &self.root {
            Some(root) => root.collect_leaves().len(),
            None => 0,
        }
    }
}

impl<C: Centroid> MerkleTree<C> {
    /// Merge a batch of vectors, each given with its length, into the tree.
    ///
    /// `targets[k]` is the position, among the tree's leaves before the batch
    /// (left to right), of the cluster that vector `k` joins: the one whose
    /// centroid is nearest to it. Vectors whose length differs from the
    /// first vector's are skipped. Each other vector joins its target
    /// cluster; a vector without a target, or whose target names no leaf
    /// (always so on an empty tree), starts a new cluster of its own, with
    /// the next cluster id. The centroids of the joined clusters then absorb
    /// their new vectors and their counts grow by them. After that, every
    /// cluster of more than `max_cluster_size` vectors is split into two
    /// halves with fresh ids, pass after pass, until none is too large, and
    /// the tree is rebuilt over the clusters, each leaf hashed over its
    /// centroid's coordinates, its count and its id. An empty batch changes
    /// nothing.
    #[verifier::rlimit(60)]
    #[verifier::spinoff_prover]
    pub fn insert_batch(&mut self, batch: Vec<(usize, C)>, targets: Vec<Option<usize>>)
        requires
            old(self).wf(),
            old(self).max_spec() >= 1,
            batch@.len() > 0 ==> merge_result(
                old(self).leaves_spec(),
                batch@,
                targets@,
                old(self).next_id_spec() as int,
                old(self).max_spec() as int,
            ).1 <= u64::MAX,
            batch@.len() > 0 ==> total_count(old(self).leaves_spec()) + matching(batch@, batch@[0].0) <= u64::MAX,
        ensures
            final(self).wf(),
            final(self).max_spec() == old(self).max_spec(),
            final(self).next_id_spec() >= old(self).next_id_spec(),
            batch@.len() == 0 ==> *final(self) == *old(self),
            batch@.len() > 0 ==> ({
                let f = merge_result(
                    old(self).leaves_spec(),
                    batch@,
                    targets@,
                    old(self).next_id_spec() as int,
                    old(self).max_spec() as int,
                );
                &&& final(self).next_id_spec() == f.1
                &&& forall|x: (int, int)| #[trigger] leaf_pairs(final(self).leaves_spec()).contains(x) <==> f.0.contains(x)
                &&& final(self).leaves_spec().len() == f.0.len()
            }),
            batch@.len() > 0 ==> final(self).built(),
            batch@.len() > 0 ==> total_count(final(self).leaves_spec())
                == total_count(old(self).leaves_spec()) + matching(batch@, batch@[0].0),
            batch@.len() > 0 ==> forall|i: int| 0 <= i < final(self).leaves_spec().len()
                ==> (#[trigger] final(self).leaves_spec()[i]).count_spec() <= old(self).max_spec(),
            batch@.len() > 0 && old(self).leaves_spec().len() == 0 ==> {
                &&& final(self).leaves_spec().len() == matching(batch@, batch@[0].0)
                &&& forall|i: int| 0 <= i < final(self).leaves_spec().len() ==> {
                    &&& (#[trigger] final(self).leaves_spec()[i]).count_spec() == 1
                    &&& old(self).next_id_spec() <= leaf_id(final(self).leaves_spec()[i])
                    &&& leaf_id(final(self).leaves_spec()[i]) < old(self).next_id_spec() + matching(batch@, batch@[0].0)
                }
            },
            forall|i: int| 0 <= i < final(self).leaves_spec().len()
                ==> ids_of(old(self).leaves_spec()).contains(leaf_id(#[trigger] final(self).leaves_spec()[i]))
                || old(self).next_id_spec() <= leaf_id(final(self).leaves_spec()[i]),
    {
        if batch.len() == 0 {
            proof {
                let l = self.leaves_spec();
                assert forall|i: int| 0 <= i < l.len() implies ids_of(l).contains(leaf_id(#[trigger] l[i])) by {
                    assert(ids_of(l)[i] == leaf_id(l[i]));
                }
            }
            return;
        }
        let dim0 = batch[0].0;
        let max = self.max_cluster_size;
        let next0 = self.next_cluster_id;
        let ghost old_leaves = self.leaves_spec();
        let ghost b = batch@;
        let ghost t = targets@;
        let ghost f = merge_result(old_leaves, b, t, next0 as int, max as int);
        let nb = batch.len();
        let mut root: Option<Box<MerkleNode<C>>> = None;
        std::mem::swap(&mut root, &mut self.root);
        let mut ids: Vec<u64> = Vec::new();
        let mut counts: Vec<u64> = Vec::new();
        let mut cents: Vec<C> = Vec::new();
        match root {
            Some(r) => {
                unzip_leaves(*r, &mut ids, &mut counts, &mut cents);
            },
            None => {},
        }
        proof {
            assert(ids@ =~= ids_of(old_leaves));
            assert(counts@ =~= counts_of(old_leaves));
            lemma_counts_total(old_leaves);
            lemma_sum_nonneg(counts@);
            assert(pairs(ids@, counts@) =~= leaf_pairs(old_leaves));
        }
        let ghost s0 = sum_of(counts@);
        let ghost p0 = pairs(ids@, counts@);
        let ghost ids0 = ids@;
        let n_old = ids.len();

        // Each vector of the first vector's length joins its target cluster
        // among those held before the batch, or starts a new one.
        let mut sums: Vec<C> = Vec::new();
        let mut added: Vec<u64> = Vec::new();
        let mut i: usize = 0;
        while i < n_old
            invariant
                i <= n_old,
                sums@.len() == i,
                added@.len() == i,
                forall|k: int| 0 <= k < i ==> #[trigger] added@[k] == 0,
            decreases n_old - i,
        {
            sums.push(C::zero(dim0));
            added.push(0);
            i = i + 1;
        }
        proof {
            assert(sum_of(added@) == 0) by {
                lemma_zero_sum(added@);
            }
            lemma_starts_monotone(b, t, dim0, n_old as int, 0, nb as nat);
        }
        let mut rev = reversed(batch);
        let mut new_ids: Vec<u64> = Vec::new();
        let mut new_cents: Vec<C> = Vec::new();
        let mut next = next0;
        let mut k: usize = 0;
        proof {
            assert(b.take(0) =~= Seq::<(usize, C)>::empty());
            let nm = next0 + starts(b, t, dim0, n_old as int, nb as nat);
            lemma_split_all_next(merged(p0, b, t, dim0, next0 as int), nm, max as int);
        }
        while k < nb
            invariant
                nb == b.len(),
                k <= nb,
                t == targets@,
                rev@.len() == nb - k,
                forall|x: int| 0 <= x < nb - k ==> #[trigger] rev@[x] == b[nb - 1 - x],
                n_old == ids@.len(),
                n_old == cents@.len(),
                sums@.len() == n_old,
                added@.len() == n_old,
                new_cents@.len() == new_ids@.len(),
                sum_of(added@) + new_ids@.len() == matching(b.take(k as int), dim0),
                forall|j: int| 0 <= j < n_old ==> #[trigger] added@[j] == joins(b, t, dim0, j, k as nat),
                new_ids@.len() == starts(b, t, dim0, n_old as int, k as nat),
                next == next0 + new_ids@.len(),
                forall|x: int| 0 <= x < new_ids@.len() ==> #[trigger] new_ids@[x] == next0 + x,
                next0 + starts(b, t, dim0, n_old as int, nb as nat) <= u64::MAX,
                s0 + matching(b, dim0) <= u64::MAX,
                s0 >= 0,
            decreases nb - k,
        {
            let (d, v) = rev.pop().unwrap();
            let tk: Option<usize> = if k < targets.len() {
                targets[k]
            } else {
                None
            };
            proof {
                lemma_matching_step(b, k as int, dim0);
                lemma_matching_bound(b.take(k as int), dim0);
                lemma_sum_nonneg(added@);
                lemma_starts_monotone(b, t, dim0, n_old as int, (k + 1) as nat, nb as nat);
                assert(target_of(t, k as int) == tk);
                assert(b[k as int].0 == d);
            }
            let ghost a0 = added@;
            if d == dim0 {
                let joined = match tk {
                    Some(j) => j < n_old,
                    None => false,
                };
                if joined {
                    let j = tk.unwrap();
                    let s = C::add(&sums[j], &v);
                    sums.set(j, s);
                    let a = added[j];
                    proof {
                        lemma_elem_le_sum(added@, j as int);
                        lemma_sum_update(added@, j as int, (a + 1) as u64);
                    }
                    added.set(j, a + 1);
                } else {
                    let ghost ni = new_ids@;
                    new_ids.push(next);
                    new_cents.push(v);
                    next = next + 1;
                    proof {
                        assert forall|x: int| 0 <= x < new_ids@.len() implies #[trigger] new_ids@[x] == next0 + x by {
                            if x < ni.len() {
                                assert(new_ids@[x] == ni[x]);
                            }
                        }
                    }
                }
            }
            proof {
                assert forall|j: int| 0 <= j < n_old implies #[trigger] added@[j] == joins(b, t, dim0, j, (k + 1) as nat) by {
                    assert(joins(b, t, dim0, j, (k + 1) as nat) == joins(b, t, dim0, j, k as nat) + if joins_here(b, t, dim0, k as int, j) { 1int } else { 0int });
                    assert(a0[j] == joins(b, t, dim0, j, k as nat));
                }
            }
            k = k + 1;
        }
        proof {
            assert(b.take(nb as int) =~= b);
            lemma_matching_bound(b, dim0);
            lemma_sum_nonneg(added@);
        }

        // The joined clusters absorb their new vectors.
        let ghost c0 = counts@;
        let mut i: usize = 0;
        proof {
            assert(added@.take(0) =~= Seq::<u64>::empty());
        }
        while i < n_old
            invariant
                i <= n_old,
                n_old == ids@.len(),
                n_old == counts@.len(),
                n_old == cents@.len(),
                n_old == c0.len(),
                sums@.len() == n_old,
                added@.len() == n_old,
                sum_of(counts@) == s0 + sum_of(added@.take(i as int)),
                forall|x: int| i <= x < n_old ==> #[trigger] counts@[x] == c0[x],
                forall|x: int| 0 <= x < i ==> #[trigger] counts@[x] == c0[x] + added@[x],
                sum_of(c0) == s0,
                s0 + sum_of(added@) <= u64::MAX,
            decreases n_old - i,
        {
            let a = added[i];
            proof {
                lemma_sum_take_step(added@, i as int);
                lemma_sum_prefix(added@, i + 1);
                lemma_elem_le_sum(counts@, i as int);
                lemma_sum_nonneg(added@.take(i as int));
            }
            if a > 0 {
                let old_count = counts[i];
                let total = old_count + a;
                let c = C::absorb(&cents[i], old_count, &sums[i], total);
                cents.set(i, c);
                proof {
                    lemma_sum_update(counts@, i as int, total);
                }
                counts.set(i, total);
            }
            i = i + 1;
        }
        proof {
            assert(added@.take(n_old as int) =~= added@);
        }

        // The new clusters join the others, one vector each.
        let ghost ids_before = ids@;
        let ghost counts_before = counts@;
        let n_new = new_ids.len();
        let mut x: usize = 0;
        while x < n_new
            invariant
                x <= n_new,
                n_new == new_ids@.len(),
                counts@.len() == n_old + x,
                counts@.take(n_old as int) == counts_before,
                forall|y: int| n_old <= y < n_old + x ==> #[trigger] counts@[y] == 1,
                sum_of(counts@) == s0 + sum_of(added@) + x,
            decreases n_new - x,
        {
            proof {
                lemma_sum_push(counts@, 1);
            }
            let ghost cb = counts@;
            counts.push(1);
            proof {
                assert(counts@.take(n_old as int) =~= cb.take(n_old as int));
            }
            x = x + 1;
        }
        ids.append(&mut new_ids);
        cents.append(&mut new_cents);
        let ghost m0 = merged(p0, b, t, dim0, next0 as int);
        proof {
            lemma_sum_nonneg(counts@);
            assert forall|p: int| 0 <= p < counts@.len() implies #[trigger] counts@[p] >= 1 by {
                if p < n_old {
                    assert(counts@[p] == counts_before[p]);
                    assert(counts_of(old_leaves)[p] == c0[p]);
                }
            }
            assert forall|p: int, q: int| 0 <= p < q < ids@.len() implies #[trigger] ids@[p] != #[trigger] ids@[q] by {
                if q < n_old {
                    assert(ids@[p] == ids_before[p] && ids@[q] == ids_before[q]);
                } else if p < n_old {
                    assert(ids@[p] == ids_before[p]);
                    assert(ids_before[p] < next0);
                }
            }
            assert forall|p: int| 0 <= p < ids@.len() implies #[trigger] ids@[p] < next by {
                if p < n_old {
                    assert(ids@[p] == ids_before[p]);
                }
            }
            assert forall|p: int| 0 <= p < ids@.len() implies ids_of(old_leaves).contains(#[trigger] ids@[p]) || next0 <= ids@[p] by {
                if p < n_old {
                    assert(ids@[p] == ids_before[p]);
                    assert(ids_of(old_leaves)[p] == ids@[p]);
                }
            }
            assert(pairs(ids@, counts@) =~= m0) by {
                assert forall|p: int| 0 <= p < ids@.len() implies #[trigger] pairs(ids@, counts@)[p] == m0[p] by {
                    if p < n_old {
                        assert(ids@[p] == ids0[p]);
                        assert(counts@[p] == counts_before[p]);
                        assert(counts_before[p] == c0[p] + added@[p]);
                    } else {
                        assert(ids@[p] == next0 + (p - n_old));
                        assert(counts@[p] == 1);
                    }
                }
            }
        }
        let ghost total = sum_of(counts@);

        // Overfull clusters split, pass after pass, until none is too large.
        loop
            invariant
                ids@.len() == counts@.len(),
                cents@.len() == counts@.len(),
                max >= 1,
                distinct(ids@),
                all_below(ids@, next),
                next >= next0,
                forall|p: int| 0 <= p < ids@.len() ==> ids_of(old_leaves).contains(#[trigger] ids@[p]) || next0 <= ids@[p],
                forall|p: int| 0 <= p < counts@.len() ==> #[trigger] counts@[p] >= 1,
                sum_of(counts@) == total,
                total == s0 + matching(b, dim0),
                split_all(pairs(ids@, counts@), next as int, max as int) == f,
                f.1 <= u64::MAX,
            ensures
                forall|p: int| 0 <= p < counts@.len() ==> #[trigger] counts@[p] <= max,
                pairs(ids@, counts@) == f.0,
                next == f.1,
            decreases pair_excess(pairs(ids@, counts@)),
        {
            let ghost ids1 = ids@;
            let ghost next1 = next;
            let ghost p1 = pairs(ids@, counts@);
            proof {
                lemma_split_all_next(p1, next as int, max as int);
                lemma_split_once(p1, next as int, max as int);
                lemma_pair_excess_nonneg(split_once(p1, next as int, max as int).0);
            }
            let (i2, c2, ce2, n2, split) = split_pass(ids, counts, cents, next, max);
            ids = i2;
            counts = c2;
            cents = ce2;
            next = n2;
            proof {
                assert forall|p: int| 0 <= p < ids@.len() implies ids_of(old_leaves).contains(#[trigger] ids@[p]) || next0 <= ids@[p] by {
                    if !(next1 <= ids@[p]) {
                        let q = choose|q: int| 0 <= q < ids1.len() && ids1[q] == ids@[p];
                        assert(ids_of(old_leaves).contains(ids1[q]) || next0 <= ids1[q]);
                    }
                }
                if !split {
                    assert forall|p: int| 0 <= p < counts@.len() implies #[trigger] counts@[p] <= max by {
                        assert(pairs(ids@, counts@)[p] == p1[p]);
                        assert(!(p1[p].1 > max));
                    }
                }
            }
            if !split {
                break;
            }
        }

        // The tree is rebuilt over the clusters.
        let n = ids.len();
        let mut rev = reversed(cents);
        let mut leaves: Vec<MerkleNode<C>> = Vec::new();
        let mut i: usize = 0;
        proof {
            assert(counts@.take(0) =~= Seq::<u64>::empty());
        }
        while i < n
            invariant
                i <= n,
                n == ids@.len(),
                n == counts@.len(),
                rev@.len() == n - i,
                leaves@.len() == i,
                forall|p: int| 0 <= p < i ==> #[trigger] leaves@[p] is Leaf,
                forall|p: int| 0 <= p < i ==> leaf_id(#[trigger] leaves@[p]) == ids@[p],
                forall|p: int| 0 <= p < i ==> (#[trigger] leaves@[p]).count_spec() == counts@[p],
                total_count(leaves@) == sum_of(counts@.take(i as int)),
            decreases n - i,
        {
            let c = rev.pop().unwrap();
            let bits = c.coordinate_bits();
            let hash = leaf_hash(&bits, counts[i], ids[i]);
            let ghost l0 = leaves@;
            let leaf = MerkleNode::Leaf { centroid: c, cluster_id: ids[i], count: counts[i], hash };
            leaves.push(leaf);
            proof {
                lemma_sum_take_step(counts@, i as int);
                assert(leaves@.drop_last() =~= l0);
            }
            i = i + 1;
        }
        proof {
            assert(counts@.take(n as int) =~= counts@);
            assert forall|p: int, q: int| 0 <= p < q < leaves@.len() implies leaf_id(#[trigger] leaves@[p]) != leaf_id(#[trigger] leaves@[q]) by {
                assert(ids@[p] != ids@[q]);
            }
        }
        let ghost lv = leaves@;
        let built = build_tree(leaves);
        self.root = built;
        self.next_cluster_id = next;
        proof {
            assert(leaf_pairs(lv) =~= pairs(ids@, counts@));
            assert(lv.no_duplicates()) by {
                assert forall|p: int, q: int| 0 <= p < lv.len() && 0 <= q < lv.len() && p != q implies lv[p] != lv[q] by {
                    if p < q {
                        assert(ids@[p] != ids@[q]);
                    } else {
                        assert(ids@[q] != ids@[p]);
                    }
                }
            }
            let rt = self.root;
            match rt {
                Some(r) => {
                    lemma_rebuilt(*r, lv);
                    lemma_sound_count(*r);
                    let rl = (*r).leaves();
                    assert forall|p: int| 0 <= p < rl.len() implies
                        (#[trigger] rl[p]).count_spec() <= max
                        && rl[p].count_spec() >= 1
                        && leaf_id(rl[p]) < next
                        && (ids_of(old_leaves).contains(leaf_id(rl[p])) || next0 <= leaf_id(rl[p])) by {
                        let q = choose|q: int| 0 <= q < lv.len() && lv[q] == rl[p];
                        assert(leaf_id(lv[q]) == ids@[q]);
                        assert(lv[q].count_spec() == counts@[q]);
                    }
                    assert forall|p: int, q: int| 0 <= p < q < ids_of(rl).len() implies #[trigger] ids_of(rl)[p] != #[trigger] ids_of(rl)[q] by {
                        assert(leaf_id(rl[p]) < leaf_id(rl[q]));
                    }
                    assert forall|p: int| 0 <= p < counts_of(rl).len() implies #[trigger] counts_of(rl)[p] >= 1 by {
                        assert(rl[p].count_spec() >= 1);
                    }
                },
                None => {
                    assert(lv.len() == 0);
                    assert(leaf_pairs(Seq::<MerkleNode<C>>::empty()) =~= Seq::<(int, int)>::empty());
                    assert(ids_of(Seq::<MerkleNode<C>>::empty()) =~= Seq::<u64>::empty());
                    assert(counts_of(Seq::<MerkleNode<C>>::empty()) =~= Seq::<u64>::empty());
                },
            }
            if n_old == 0 {
                lemma_starts_all(b, t, dim0, nb as nat);
                assert(b.take(nb as int) =~= b);
                assert forall|p: int| 0 <= p < m0.len() implies #[trigger] m0[p].1 <= max by {}
                assert(!overfull(m0, max as int));
                assert(f == (m0, next0 + starts(b, t, dim0, 0, nb as nat)));
                let fl = self.leaves_spec();
                assert forall|p: int| 0 <= p < fl.len() implies {
                    &&& (#[trigger] fl[p]).count_spec() == 1
                    &&& next0 <= leaf_id(fl[p])
                    &&& leaf_id(fl[p]) < next0 + matching(b, dim0)
                } by {
                    assert(leaf_pairs(fl)[p] == (leaf_id(fl[p]) as int, fl[p].count_spec() as int));
                    assert(leaf_pairs(fl).contains(leaf_pairs(fl)[p]));
                    let q = choose|q: int| 0 <= q < f.0.len() && f.0[q] == leaf_pairs(fl)[p];
                }
            }
        }
    }
}

/// A tree built from leaves `lv` that are all distinct holds exactly those
/// leaves, as many, in another order.
proof fn lemma_rebuilt<C>(r: MerkleNode<C>, lv: Seq<MerkleNode<C>>)
    requires
        built_from(r, lv),
        lv.no_duplicates(),
    ensures
        r.leaves().len() == lv.len(),
        forall|p: int| 0 <= p < r.leaves().len() ==> exists|q: int| 0 <= q < lv.len() && lv[q] == #[trigger] r.leaves()[p],
        forall|x: (int, int)| #[trigger] leaf_pairs(r.leaves()).contains(x) <==> leaf_pairs(lv).contains(x),
{
    let rl = r.leaves();
    assert forall|p: int| 0 <= p < rl.len() implies exists|q: int| 0 <= q < lv.len() && lv[q] == #[trigger] rl[p] by {
        assert(rl.contains(rl[p]));
        assert(lv.contains(rl[p]));
    }
    assert(rl.no_duplicates()) by {
        assert forall|p: int, q: int| 0 <= p < rl.len() && 0 <= q < rl.len() && p != q implies rl[p] != rl[q] by {
            if p < q {
                assert(leaf_id(rl[p]) < leaf_id(rl[q]));
            } else {
                assert(leaf_id(rl[q]) < leaf_id(rl[p]));
            }
        }
    }
    assert(rl.to_set() =~= lv.to_set()) by {
        assert forall|x: MerkleNode<C>| rl.to_set().contains(x) <==> lv.to_set().contains(x) by {
            assert(rl.contains(x) <==> lv.contains(x));
        }
    }
    rl.unique_seq_to_set();
    lv.unique_seq_to_set();
    assert forall|x: (int, int)| #[trigger] leaf_pairs(rl).contains(x) <==> leaf_pairs(lv).contains(x) by {
        if leaf_pairs(rl).contains(x) {
            let p = choose|p: int| 0 <= p < leaf_pairs(rl).len() && leaf_pairs(rl)[p] == x;
            assert(rl.contains(rl[p]));
            assert(lv.contains(rl[p]));
            let q = choose|q: int| 0 <= q < lv.len() && lv[q] == rl[p];
            assert(leaf_pairs(lv)[q] == x);
        }
        if leaf_pairs(lv).contains(x) {
            let q = choose|q: int| 0 <= q < leaf_pairs(lv).len() && leaf_pairs(lv)[q] == x;
            assert(lv.contains(lv[q]));
            assert(rl.contains(lv[q]));
            let p = choose|p: int| 0 <= p < rl.len() && rl[p] == lv[q];
            assert(leaf_pairs(rl)[p] == x);
        }
    }
}

proof fn lemma_zero_sum(s: Seq<u64>)
    requires
        forall|k: int| 0 <= k < s.len() ==> #[trigger] s[k] == 0,
    ensures
        sum_of(s) == 0,
    decreases s.len(),
{
    if s.len() > 0 {
        lemma_zero_sum(s.drop_last());
    }
}

} // verus!
