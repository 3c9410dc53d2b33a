//! The node structure of the progressive Merkle tree over vector cluster
//! centroids: leaves are clusters, internal nodes aggregate two subtrees, and
//! every internal node's hash chains its children's hashes. The centroids
//! themselves are opaque here: a centroid type says how two combine.

use vstd::prelude::*;
use crate::merkle_hash::{blake3_spec, internal_hash};

verus! {

/// A cluster centroid, a point of the vector space: the arithmetic on
/// points that the tree's merge needs. The tree decides which clusters
/// split and how they are counted and named; the centroid type computes the
/// points.
pub trait Centroid: Sized {
    /// The weighted average of centroid `a` of `count_a` vectors and
    /// centroid `b` of `count_b` vectors.
    fn weighted_average(a: &Self, count_a: u64, b: &Self, count_b: u64) -> Self;

    /// The origin of a space of `dim` coordinates.
    fn zero(dim: usize) -> Self;

    /// The sum of two points.
    fn add(sum: &Self, v: &Self) -> Self;

    /// The centroid of a cluster of `old_count` vectors around `c` after
    /// vectors summing to `sum` join it, making `total` vectors.
    fn absorb(c: &Self, old_count: u64, sum: &Self, total: u64) -> Self;

    /// Two centroids near this one, on opposite sides of it, for the two
    /// halves of a split cluster.
    fn split(&self) -> (Self, Self);

    /// The bit patterns of the coordinates, as they enter a leaf's hash.
    fn coordinate_bits(&self) -> Vec<u32>;
}

/// A node of the Merkle tree.
pub enum MerkleNode<C> {
    /// A cluster of vectors: its centroid, identifier, vector count and hash.
    Leaf { centroid: C, cluster_id: u64, count: u64, hash: [u8; 32] },
    /// Two subtrees, with the hash of their hashes, their combined centroid
    /// and their total vector count.
    Internal { hash: [u8; 32], left: Box<MerkleNode<C>>, right: Box<MerkleNode<C>>, centroid: C, count: u64 },
}

/// The cluster id of a leaf (0 for an internal node).
pub open spec fn leaf_id<C>(n: MerkleNode<C>) -> u64 {
    match n {
        MerkleNode::Leaf { cluster_id, .. } => cluster_id,
        MerkleNode::Internal { .. } => 0,
    }
}

impl<C> MerkleNode<C> {
    /// The node's vector count.
    pub open spec fn count_spec(self) -> u64 {
        match self {
            MerkleNode::Leaf { count, .. } => count,
            MerkleNode::Internal { count, .. } => count,
        }
    }

    /// The node's hash.
    pub open spec fn hash_spec(self) -> [u8; 32] {
        match self {
            MerkleNode::Leaf { hash, .. } => hash,
            MerkleNode::Internal { hash, .. } => hash,
        }
    }

    /// The node's centroid.
    pub open spec fn centroid_spec(self) -> C {
        match self {
            MerkleNode::Leaf { centroid, .. } => centroid,
            MerkleNode::Internal { centroid, .. } => centroid,
        }
    }

    /// The leaves of the subtree, left to right.
    pub open spec fn leaves(self) -> Seq<MerkleNode<C>>
        decreases self,
    {
        match self {
            MerkleNode::Leaf { .. } => seq![self],
            MerkleNode::Internal { left, right, .. } => (*left).leaves() + (*right).leaves(),
        }
    }

    /// Every internal node of the subtree counts the vectors of both children
    /// and hashes their hashes, left then right.
    pub open spec fn sound(self) -> bool
        decreases self,
    {
        match self {
            MerkleNode::Leaf { .. } => true,
            MerkleNode::Internal { hash, left, right, count, .. } => {
                &&& (*left).sound()
                &&& (*right).sound()
                &&& count == (*left).count_spec() + (*right).count_spec()
                &&& hash@ == blake3_spec((*left).hash_spec()@ + (*right).hash_spec()@)
            },
        }
    }

    /// Return the hash regardless of variant.
    pub fn hash(&self) -> (r: &[u8; 32])
        ensures
            *r == self.hash_spec(),
    {
        match self {
            MerkleNode::Leaf { hash, .. } => hash,
            MerkleNode::Internal { hash, .. } => hash,
        }
    }

    /// Return the vector count regardless of variant.
    pub fn count(&self) -> (r: u64)
        ensures
            r == self.count_spec(),
    {
        match self {
            MerkleNode::Leaf { count, .. } => *count,
            MerkleNode::Internal { count, .. } => *count,
        }
    }

    /// Return the centroid regardless of variant.
    pub fn centroid(&self) -> (r: &C)
        ensures
            *r == self.centroid_spec(),
    {
        match self {
            MerkleNode::Leaf { centroid, .. } => centroid,
            MerkleNode::Internal { centroid, .. } => centroid,
        }
    }

    /// Return the cluster ID if this is a leaf node.
    pub fn cluster_id(&self) -> (r: Option<u64>)
        ensures
            r == match *self {
                MerkleNode::Leaf { cluster_id, .. } => Some(cluster_id),
                MerkleNode::Internal { .. } => None::<u64>,
            },
    {
        match self {
            MerkleNode::Leaf { cluster_id, .. } => Some(*cluster_id),
            MerkleNode::Internal { .. } => None,
        }
    }

    /// Appends references to the leaves of this subtree, left to right.
    fn collect_leaves_into<'a>(&'a self, out: &mut Vec<&'a MerkleNode<C>>)
        ensures
            final(out)@.len() == old(out)@.len() + self.leaves().len(),
            forall|i: int| 0 <= i < old(out)@.len() ==> #[trigger] final(out)@[i] == old(out)@[i],
            forall|i: int| 0 <= i < self.leaves().len() ==> *final(out)@[old(out)@.len() + i] == #[trigger] self.leaves()[i],
        decreases self,
    {
        match self {
            MerkleNode::Leaf { .. } => {
                out.push(self);
            },
            MerkleNode::Internal { left, right, .. } => {
                let l: &'a MerkleNode<C> = left;
                let r: &'a MerkleNode<C> = right;
                let ghost before = out@;
                l.collect_leaves_into(out);
                let ghost mid = out@;
                r.collect_leaves_into(out);
                proof {
                    let ll = (*l).leaves();
                    let rl = (*r).leaves();
                    assert(self.leaves() == ll + rl);
                    assert forall|i: int| 0 <= i < self.leaves().len() implies *out@[before.len() + i] == #[trigger] self.leaves()[i] by {
                        if i < ll.len() {
                            assert(out@[before.len() + i] == mid[before.len() + i]);
                        } else {
                            assert(out@[mid.len() + (i - ll.len())] == out@[before.len() + i]);
                        }
                    }
                }
            },
        }
    }

    /// The leaves of this subtree, left to right.
    pub fn collect_leaves(&self) -> (r: Vec<&MerkleNode<C>>)
        ensures
            r@.len() == self.leaves().len(),
            forall|i: int| 0 <= i < r@.len() ==> *r@[i] == #[trigger] self.leaves()[i],
    {
        let mut out: Vec<&MerkleNode<C>> = Vec::new();
        self.collect_leaves_into(&mut out);
        proof {
            assert forall|i: int| 0 <= i < out@.len() implies *out@[i] == #[trigger] self.leaves()[i] by {
                assert(*out@[0 + i] == self.leaves()[i]);
            }
        }
        out
    }

    /// Appends the leaves of this subtree, left to right.
    fn collect_leaves_owned_into(self, out: &mut Vec<MerkleNode<C>>)
        ensures
            final(out)@ == old(out)@ + self.leaves(),
        decreases self,
    {
        let ghost all = self.leaves();
        match self {
            MerkleNode::Leaf { centroid, cluster_id, count, hash } => {
                out.push(MerkleNode::Leaf { centroid, cluster_id, count, hash });
                proof {
                    assert(out@ =~= old(out)@ + all);
                }
            },
            MerkleNode::Internal { left, right, .. } => {
                let ghost ll = (*left).leaves();
                let ghost rl = (*right).leaves();
                (*left).collect_leaves_owned_into(out);
                (*right).collect_leaves_owned_into(out);
                proof {
                    assert(all == ll + rl);
                    assert(out@ =~= old(out)@ + all);
                }
            },
        }
    }

    /// The leaves of this subtree, left to right, taken apart from it.
    pub fn collect_leaves_owned(self) -> (r: Vec<MerkleNode<C>>)
        ensures
            r@ == self.leaves(),
    {
        let mut out: Vec<MerkleNode<C>> = Vec::new();
        self.collect_leaves_owned_into(&mut out);
        proof {
            assert(out@ =~= Seq::<MerkleNode<C>>::empty() + self.leaves());
        }
        out
    }
}

/// The total vector count of a sequence of nodes.
pub open spec fn total_count<C>(s: Seq<MerkleNode<C>>) -> int
    decreases s.len(),
{
    if s.len() == 0 {
        0
    } else {
        total_count(s.drop_last()) + s.last().count_spec()
    }
}

/// The leaves of a sequence of subtrees, left to right.
pub open spec fn all_leaves<C>(s: Seq<MerkleNode<C>>) -> Seq<MerkleNode<C>>
    decreases s.len(),
{
    if s.len() == 0 {
        Seq::empty()
    } else {
        all_leaves(s.drop_last()) + s.last().leaves()
    }
}

/// The nodes are leaves with strictly increasing cluster ids.
pub open spec fn ids_increasing<C>(s: Seq<MerkleNode<C>>) -> bool {
    &&& forall|i: int| 0 <= i < s.len() ==> #[trigger] s[i] is Leaf
    &&& forall|i: int, j: int| 0 <= i < j < s.len() ==> leaf_id(#[trigger] s[i]) < leaf_id(#[trigger] s[j])
}

/// The hashes of a sequence of nodes.
pub open spec fn hashes_of<C>(s: Seq<MerkleNode<C>>) -> Seq<Seq<u8>> {
    s.map_values(|n: MerkleNode<C>| n.hash_spec()@)
}

/// One level up: adjacent hashes paired left to right and hashed together,
/// an odd one out carried up as it is.
pub open spec fn pair_hashes(hs: Seq<Seq<u8>>) -> Seq<Seq<u8>>
    decreases hs.len(),
{
    if hs.len() < 2 {
        hs
    } else {
        seq![blake3_spec(hs[0] + hs[1])] + pair_hashes(hs.subrange(2, hs.len() as int))
    }
}

/// Pairing halves a level, rounding up.
pub proof fn lemma_pair_hashes_len(hs: Seq<Seq<u8>>)
    ensures
        pair_hashes(hs).len() == (hs.len() + 1) / 2,
    decreases hs.len(),
{
    if hs.len() >= 2 {
        lemma_pair_hashes_len(hs.subrange(2, hs.len() as int));
    }
}

/// The root hash of the balanced tree over hashes `hs`: levels are paired
/// until one hash remains.
pub open spec fn root_hash(hs: Seq<Seq<u8>>) -> Seq<u8>
    decreases hs.len(),
{
    if hs.len() < 2 {
        hs[0]
    } else {
        proof {
            lemma_pair_hashes_len(hs);
        }
        root_hash(pair_hashes(hs))
    }
}

/// What `build_tree` makes of `input`: a sound tree whose leaves are the
/// input's leaves in increasing cluster-id order, whose hash is the balanced
/// pairing of those leaves' hashes, and which counts all their vectors.
pub open spec fn built_from<C>(root: MerkleNode<C>, input: Seq<MerkleNode<C>>) -> bool {
    &&& root.sound()
    &&& ids_increasing(root.leaves())
    &&& forall|x: MerkleNode<C>| #[trigger] root.leaves().contains(x) <==> input.contains(x)
    &&& root.hash_spec()@ == root_hash(hashes_of(root.leaves()))
    &&& root.count_spec() == total_count(input)
}

proof fn lemma_hashes_of_push<C>(s: Seq<MerkleNode<C>>, x: MerkleNode<C>)
    ensures
        hashes_of(s.push(x)) == hashes_of(s).push(x.hash_spec()@),
{
    assert(hashes_of(s.push(x)) =~= hashes_of(s).push(x.hash_spec()@));
}

proof fn lemma_pair_front<C>(n0: Seq<MerkleNode<C>>)
    requires
        n0.len() >= 2,
    ensures
        pair_hashes(hashes_of(n0)) == seq![blake3_spec(n0[0].hash_spec()@ + n0[1].hash_spec()@)]
            + pair_hashes(hashes_of(n0.subrange(2, n0.len() as int))),
{
    let hs = hashes_of(n0);
    assert(hs.subrange(2, hs.len() as int) =~= hashes_of(n0.subrange(2, n0.len() as int)));
}

proof fn lemma_total_nonneg<C>(s: Seq<MerkleNode<C>>)
    ensures
        total_count(s) >= 0,
    decreases s.len(),
{
    if s.len() > 0 {
        lemma_total_nonneg(s.drop_last());
    }
}

proof fn lemma_total_concat<C>(a: Seq<MerkleNode<C>>, b: Seq<MerkleNode<C>>)
    ensures
        total_count(a + b) == total_count(a) + total_count(b),
    decreases b.len(),
{
    if b.len() == 0 {
        assert(a + b =~= a);
    } else {
        lemma_total_concat(a, b.drop_last());
        assert((a + b).drop_last() =~= a + b.drop_last());
        assert((a + b).last() == b.last());
    }
}

proof fn lemma_total_insert<C>(s: Seq<MerkleNode<C>>, i: int, x: MerkleNode<C>)
    requires
        0 <= i <= s.len(),
    ensures
        total_count(s.insert(i, x)) == total_count(s) + x.count_spec(),
{
    let a = s.take(i);
    let b = s.skip(i);
    assert(s =~= a + b);
    assert(s.insert(i, x) =~= a.push(x) + b);
    lemma_total_concat(a, b);
    lemma_total_concat(a.push(x), b);
    assert(a.push(x).drop_last() =~= a);
}

/// A sound subtree counts the vectors of its leaves.
pub proof fn lemma_sound_count<C>(n: MerkleNode<C>)
    requires
        n.sound(),
    ensures
        n.count_spec() == total_count(n.leaves()),
    decreases n,
{
    match n {
        MerkleNode::Leaf { .. } => {
            assert(n.leaves() == seq![n]);
            assert(seq![n].drop_last() =~= Seq::<MerkleNode<C>>::empty());
            assert(seq![n].last() == n);
            assert(total_count(Seq::<MerkleNode<C>>::empty()) == 0);
        },
        MerkleNode::Internal { left, right, .. } => {
            lemma_sound_count(*left);
            lemma_sound_count(*right);
            lemma_total_concat((*left).leaves(), (*right).leaves());
        },
    }
}

proof fn lemma_all_leaves_concat<C>(a: Seq<MerkleNode<C>>, b: Seq<MerkleNode<C>>)
    ensures
        all_leaves(a + b) == all_leaves(a) + all_leaves(b),
    decreases b.len(),
{
    if b.len() == 0 {
        assert(a + b =~= a);
        assert(all_leaves(a) + all_leaves(b) =~= all_leaves(a));
    } else {
        lemma_all_leaves_concat(a, b.drop_last());
        assert((a + b).drop_last() =~= a + b.drop_last());
        assert((a + b).last() == b.last());
        assert(all_leaves(a + b) =~= all_leaves(a) + all_leaves(b));
    }
}

proof fn lemma_all_leaves_single<C>(x: MerkleNode<C>)
    ensures
        all_leaves(seq![x]) == x.leaves(),
{
    assert(seq![x].drop_last() =~= Seq::<MerkleNode<C>>::empty());
    assert(seq![x].last() == x);
    assert(all_leaves(Seq::<MerkleNode<C>>::empty()) == Seq::<MerkleNode<C>>::empty());
    assert(all_leaves(seq![x]) =~= x.leaves());
}

proof fn lemma_all_leaves_of_leaves<C>(s: Seq<MerkleNode<C>>)
    requires
        forall|i: int| 0 <= i < s.len() ==> #[trigger] s[i] is Leaf,
    ensures
        all_leaves(s) == s,
    decreases s.len(),
{
    if s.len() > 0 {
        lemma_all_leaves_of_leaves(s.drop_last());
        assert(s.last() is Leaf);
        assert(s.last().leaves() == seq![s.last()]);
        assert(s.drop_last().push(s.last()) =~= s);
        assert(all_leaves(s) =~= s);
    }
}

/// The cluster id of a leaf (0 for an internal node).
fn id_of<C>(n: &MerkleNode<C>) -> (r: u64)
    ensures
        r == leaf_id(*n),
{
    match n {
        MerkleNode::Leaf { cluster_id, .. } => *cluster_id,
        MerkleNode::Internal { .. } => 0,
    }
}

/// The leaves ordered by cluster id.
fn sort_by_cluster_id<C>(leaves: Vec<MerkleNode<C>>) -> (r: Vec<MerkleNode<C>>)
    requires
        forall|i: int| 0 <= i < leaves.len() ==> #[trigger] leaves@[i] is Leaf,
        forall|i: int, j: int| 0 <= i < j < leaves.len() ==> leaf_id(#[trigger] leaves@[i]) != leaf_id(#[trigger] leaves@[j]),
    ensures
        ids_increasing(r@),
        forall|x: MerkleNode<C>| #[trigger] r@.contains(x) <==> leaves@.contains(x),
        total_count(r@) == total_count(leaves@),
{
    let ghost orig = leaves@;
    let mut input = leaves;
    let mut sorted: Vec<MerkleNode<C>> = Vec::new();
    proof {
        assert(orig.take(orig.len() as int) =~= orig);
    }
    while input.len() > 0
        invariant
            input@.len() <= orig.len(),
            input@ == orig.take(input@.len() as int),
            forall|i: int| 0 <= i < orig.len() ==> #[trigger] orig[i] is Leaf,
            forall|i: int, j: int| 0 <= i < j < orig.len() ==> leaf_id(#[trigger] orig[i]) != leaf_id(#[trigger] orig[j]),
            ids_increasing(sorted@),
            forall|x: MerkleNode<C>| #[trigger] sorted@.contains(x) || input@.contains(x) <==> orig.contains(x),
            forall|a: int, b: int| 0 <= a < sorted@.len() && 0 <= b < input@.len() ==> leaf_id(#[trigger] sorted@[a]) != leaf_id(#[trigger] input@[b]),
            total_count(sorted@) + total_count(input@) == total_count(orig),
        decreases input.len(),
    {
        let ghost before_input = input@;
        let ghost before = sorted@;
        let x = input.pop().unwrap();
        let ghost k = input@.len() as int;
        proof {
            assert(before_input.drop_last() == input@);
            assert(x == before_input.last());
            assert(x == orig[k]);
        }
        let id = id_of(&x);
        let mut pos: usize = 0;
        while pos < sorted.len() && id_of(&sorted[pos]) < id
            invariant
                pos <= sorted.len(),
                sorted@ == before,
                ids_increasing(before),
                forall|j: int| 0 <= j < pos ==> leaf_id(#[trigger] before[j]) < id,
            decreases sorted.len() - pos,
        {
            pos = pos + 1;
        }
        proof {
            assert forall|j: int| 0 <= j < before.len() implies leaf_id(#[trigger] before[j]) != id by {
                assert(leaf_id(before[j]) != leaf_id(before_input[k]));
            }
            if pos < before.len() {
                assert(before[pos as int] is Leaf);
                assert(leaf_id(before[pos as int]) > id);
            }
        }
        sorted.insert(pos, x);
        proof {
            let after = sorted@;
            assert(after =~= before.insert(pos as int, x));
            assert forall|i: int| 0 <= i < after.len() implies #[trigger] after[i] is Leaf by {
                if i < pos {
                    assert(after[i] == before[i]);
                } else if i > pos {
                    assert(after[i] == before[i - 1]);
                }
            }
            assert forall|a: int, b: int| 0 <= a < b < after.len() implies leaf_id(#[trigger] after[a]) < leaf_id(#[trigger] after[b]) by {
                if b < pos {
                    assert(after[a] == before[a] && after[b] == before[b]);
                } else if b == pos {
                    assert(after[a] == before[a]);
                } else if a == pos {
                    assert(after[b] == before[b - 1]);
                    if b - 1 > pos {
                        assert(leaf_id(before[pos as int]) < leaf_id(before[b - 1]));
                    }
                } else if a < pos {
                    assert(after[a] == before[a] && after[b] == before[b - 1]);
                    if b - 1 > pos {
                        assert(leaf_id(before[pos as int]) < leaf_id(before[b - 1]));
                    }
                } else {
                    assert(after[a] == before[a - 1] && after[b] == before[b - 1]);
                }
            }
            assert forall|y: MerkleNode<C>| #[trigger] after.contains(y) || input@.contains(y) <==> orig.contains(y) by {
                if after.contains(y) {
                    let j = choose|j: int| 0 <= j < after.len() && after[j] == y;
                    if j < pos {
                        assert(before[j] == y);
                        assert(before.contains(y));
                    } else if j > pos {
                        assert(before[j - 1] == y);
                        assert(before.contains(y));
                    } else {
                        assert(before_input[k] == y);
                        assert(before_input.contains(y));
                    }
                }
                if input@.contains(y) {
                    let j = choose|j: int| 0 <= j < input@.len() && input@[j] == y;
                    assert(before_input[j] == y);
                    assert(before_input.contains(y));
                }
                if orig.contains(y) {
                    if before.contains(y) {
                        let j = choose|j: int| 0 <= j < before.len() && before[j] == y;
                        if j < pos {
                            assert(after[j] == y);
                        } else {
                            assert(after[j + 1] == y);
                        }
                    } else {
                        assert(before_input.contains(y));
                        let j = choose|j: int| 0 <= j < before_input.len() && before_input[j] == y;
                        if j < k {
                            assert(input@[j] == y);
                        } else {
                            assert(after[pos as int] == y);
                        }
                    }
                }
            }
            assert forall|a: int, b: int| 0 <= a < after.len() && 0 <= b < input@.len() implies leaf_id(#[trigger] after[a]) != leaf_id(#[trigger] input@[b]) by {
                assert(input@[b] == before_input[b]);
                if a < pos {
                    assert(after[a] == before[a]);
                } else if a > pos {
                    assert(after[a] == before[a - 1]);
                } else {
                    assert(before_input[b] == orig[b]);
                    assert(leaf_id(orig[b]) != leaf_id(orig[k]));
                }
            }
            lemma_total_insert(before, pos as int, x);
            assert(before_input.drop_last() == input@);
            assert(input@ =~= orig.take(input@.len() as int));
        }
    }
    proof {
        assert(input@ =~= Seq::<MerkleNode<C>>::empty());
    }
    sorted
}

/// Build a balanced binary Merkle tree over cluster leaves: the leaves are
/// ordered by cluster id, then paired left to right into internal nodes,
/// level by level, an odd node out being carried up as it is, until one
/// node remains. Each internal node counts its children's vectors, averages
/// their centroids by those counts, and hashes their hashes. `None` when
/// there are no leaves.
pub fn build_tree<C: Centroid>(leaves: Vec<MerkleNode<C>>) -> (r: Option<Box<MerkleNode<C>>>)
    requires
        forall|i: int| 0 <= i < leaves.len() ==> #[trigger] leaves@[i] is Leaf,
        forall|i: int, j: int| 0 <= i < j < leaves.len() ==> leaf_id(#[trigger] leaves@[i]) != leaf_id(#[trigger] leaves@[j]),
        total_count(leaves@) <= u64::MAX,
    ensures
        r is None <==> leaves@.len() == 0,
        r matches Some(root) ==> built_from(*root, leaves@),
{
    if leaves.len() == 0 {
        return None;
    }
    let ghost orig = leaves@;
    let sorted = sort_by_cluster_id(leaves);
    let ghost target = sorted@;
    proof {
        assert(orig.contains(orig[0]));
        assert(target.contains(orig[0]));
        lemma_all_leaves_of_leaves(target);
    }
    let mut nodes = sorted;
    while nodes.len() > 1
        invariant
            nodes@.len() >= 1,
            forall|i: int| 0 <= i < nodes@.len() ==> (#[trigger] nodes@[i]).sound(),
            all_leaves(nodes@) == target,
            total_count(target) <= u64::MAX,
            root_hash(hashes_of(nodes@)) == root_hash(hashes_of(target)),
        decreases nodes.len(),
    {
        let ghost level = nodes@;
        let mut parents: Vec<MerkleNode<C>> = Vec::new();
        proof {
            assert(all_leaves(parents@) + all_leaves(nodes@) =~= all_leaves(level));
            assert(hashes_of(parents@) + pair_hashes(hashes_of(nodes@)) =~= pair_hashes(hashes_of(level)));
        }
        while nodes.len() >= 2
            invariant
                2 * parents@.len() + nodes@.len() == level.len(),
                forall|i: int| 0 <= i < parents@.len() ==> (#[trigger] parents@[i]).sound(),
                forall|i: int| 0 <= i < nodes@.len() ==> (#[trigger] nodes@[i]).sound(),
                all_leaves(parents@) + all_leaves(nodes@) == target,
                total_count(target) <= u64::MAX,
                hashes_of(parents@) + pair_hashes(hashes_of(nodes@)) == pair_hashes(hashes_of(level)),
            decreases nodes.len(),
        {
            let ghost n0 = nodes@;
            let ghost ps = parents@;
            let left = nodes.remove(0);
            let right = nodes.remove(0);
            proof {
                let rest = nodes@;
                assert(n0 =~= seq![left] + (seq![right] + rest));
                lemma_all_leaves_concat(seq![left], seq![right] + rest);
                lemma_all_leaves_concat(seq![right], rest);
                lemma_all_leaves_single(left);
                lemma_all_leaves_single(right);
                assert(n0[0] == left && n0[1] == right);
                lemma_sound_count(left);
                lemma_sound_count(right);
                lemma_total_concat(left.leaves(), right.leaves());
                lemma_total_concat(all_leaves(ps), all_leaves(n0));
                lemma_total_concat(left.leaves() + right.leaves(), all_leaves(rest));
                lemma_total_nonneg(all_leaves(ps));
                lemma_total_nonneg(all_leaves(rest));
                assert(all_leaves(n0) == left.leaves() + right.leaves() + all_leaves(rest));
                assert forall|i: int| 0 <= i < rest.len() implies (#[trigger] rest[i]).sound() by {
                    assert(rest[i] == n0[i + 2]);
                }
                assert(rest =~= n0.subrange(2, n0.len() as int));
                lemma_pair_front(n0);
            }
            let count = left.count() + right.count();
            let hash = internal_hash(left.hash(), right.hash());
            let centroid = C::weighted_average(left.centroid(), left.count(), right.centroid(), right.count());
            let ghost lv = left.leaves();
            let ghost rv = right.leaves();
            let p = MerkleNode::Internal { hash, left: Box::new(left), right: Box::new(right), centroid, count };
            proof {
                assert(p.leaves() == lv + rv);
            }
            let ghost ph = p.hash_spec()@;
            parents.push(p);
            proof {
                assert(parents@.drop_last() =~= ps);
                assert(all_leaves(parents@) == all_leaves(ps) + p.leaves());
                assert(all_leaves(parents@) + all_leaves(nodes@) =~= all_leaves(ps) + all_leaves(n0));
                lemma_hashes_of_push(ps, p);
                assert(ph == blake3_spec(n0[0].hash_spec()@ + n0[1].hash_spec()@));
                assert(hashes_of(parents@) + pair_hashes(hashes_of(nodes@))
                    =~= hashes_of(ps) + pair_hashes(hashes_of(n0)));
            }
        }
        if nodes.len() == 1 {
            let ghost ps = parents@;
            let ghost n1 = nodes@;
            let last = nodes.pop().unwrap();
            proof {
                lemma_all_leaves_single(last);
            }
            parents.push(last);
            proof {
                assert(parents@.drop_last() =~= ps);
                assert(all_leaves(parents@) =~= all_leaves(ps) + last.leaves());
                lemma_hashes_of_push(ps, last);
                assert(n1 =~= seq![last]);
                assert(hashes_of(n1) =~= seq![last.hash_spec()@]);
                assert(pair_hashes(hashes_of(n1)) == hashes_of(n1));
                assert(hashes_of(parents@) =~= pair_hashes(hashes_of(level)));
            }
        } else {
            proof {
                assert(hashes_of(nodes@) =~= Seq::<Seq<u8>>::empty());
                assert(pair_hashes(hashes_of(nodes@)) == hashes_of(nodes@));
                assert(hashes_of(parents@) =~= pair_hashes(hashes_of(level)));
            }
        }
        proof {
            assert(hashes_of(level).len() >= 2);
            assert(root_hash(hashes_of(level)) == root_hash(pair_hashes(hashes_of(level))));
            if nodes@.len() == 0 {
                assert(nodes@ =~= Seq::<MerkleNode<C>>::empty());
                assert(all_leaves(nodes@) == Seq::<MerkleNode<C>>::empty());
                assert(all_leaves(parents@) =~= target);
            }
        }
        nodes = parents;
    }
    let ghost last_level = nodes@;
    let root = nodes.pop().unwrap();
    proof {
        assert(last_level =~= seq![root]);
        lemma_all_leaves_single(root);
        assert(root.leaves() == target);
        lemma_sound_count(root);
        assert(hashes_of(last_level) =~= seq![root.hash_spec()@]);
    }
    Some(Box::new(root))
}

} // verus!
