//! The BLAKE3 hashes of the progressive Merkle tree's nodes: a leaf hashes
//! its centroid, vector count and cluster id; an internal node hashes its
//! children's hashes.

use vstd::prelude::*;

verus! {

/// What BLAKE3 gives for a byte string.
pub uninterp spec fn blake3_spec(data: Seq<u8>) -> Seq<u8>;

/// The BLAKE3 hash of `data` (`blake3::hash`; hashing the same bytes in
/// several `Hasher::update` calls gives the same hash).
#[verifier::external_body]
fn blake3_digest(data: &[u8]) -> (r: [u8; 32])
    ensures
        r@ == blake3_spec(data@),
{
    *blake3::hash(data).as_bytes()
}

/// The `n` low bytes of `x`, least significant first (`to_le_bytes`).
pub open spec fn le_bytes(x: u64, n: nat) -> Seq<u8> {
    Seq::new(n, |i: int| ((x >> ((8 * i) as u64)) & 0xff) as u8)
}

/// The little-endian bytes of 32-bit words, one word after another.
pub open spec fn words_le(words: Seq<u32>) -> Seq<u8>
    decreases words.len(),
{
    if words.len() == 0 {
        Seq::empty()
    } else {
        words_le(words.drop_last()) + le_bytes(words.last() as u64, 4)
    }
}

/// What a leaf hashes: the bit patterns of its centroid's coordinates, its
/// vector count and its cluster id, each little-endian.
pub open spec fn leaf_hash_input(centroid_bits: Seq<u32>, count: u64, cluster_id: u64) -> Seq<u8> {
    words_le(centroid_bits) + le_bytes(count, 8) + le_bytes(cluster_id, 8)
}

/// Appends the `n` low bytes of `x`, least significant first.
fn push_le(out: &mut Vec<u8>, x: u64, n: usize)
    requires
        n <= 8,
    ensures
        final(out)@ == old(out)@ + le_bytes(x, n as nat),
{
    let ghost start = out@;
    let mut i: usize = 0;
    while i < n
        invariant
            n <= 8,
            i <= n,
            out@ == start + le_bytes(x, i as nat),
        decreases n - i,
    {
        let b = ((x >> ((i as u64) * 8)) & 0xff) as u8;
        proof {
            assert(((i as u64) * 8) == ((8 * i) as u64));
        }
        out.push(b);
        proof {
            assert(le_bytes(x, (i + 1) as nat) =~= le_bytes(x, i as nat).push(b));
            assert(out@ =~= start + le_bytes(x, (i + 1) as nat));
        }
        i = i + 1;
    }
}

/// The hash of a leaf whose centroid coordinates have the bit patterns
/// `centroid_bits`, holding `count` vectors, of cluster `cluster_id`.
pub fn leaf_hash(centroid_bits: &Vec<u32>, count: u64, cluster_id: u64) -> (r: [u8; 32])
    ensures
        r@ == blake3_spec(leaf_hash_input(centroid_bits@, count, cluster_id)),
{
    let mut bytes: Vec<u8> = Vec::new();
    let n = centroid_bits.len();
    let mut i: usize = 0;
    proof {
        assert(centroid_bits@.take(0) =~= Seq::<u32>::empty());
    }
    while i < n
        invariant
            n == centroid_bits.len(),
            i <= n,
            bytes@ == words_le(centroid_bits@.take(i as int)),
        decreases n - i,
    {
        push_le(&mut bytes, centroid_bits[i] as u64, 4);
        proof {
            let t = centroid_bits@.take(i + 1);
            assert(t.drop_last() =~= centroid_bits@.take(i as int));
            assert(t.last() == centroid_bits@[i as int]);
        }
        i = i + 1;
    }
    proof {
        assert(centroid_bits@.take(n as int) =~= centroid_bits@);
    }
    push_le(&mut bytes, count, 8);
    push_le(&mut bytes, cluster_id, 8);
    blake3_digest(bytes.as_slice())
}

/// The hash of an internal node: of its left child's hash followed by its
/// right child's.
pub fn internal_hash(left: &[u8; 32], right: &[u8; 32]) -> (r: [u8; 32])
    ensures
        r@ == blake3_spec(left@ + right@),
{
    let mut bytes: Vec<u8> = Vec::new();
    let mut i: usize = 0;
    while i < 32
        invariant
            i <= 32,
            left@.len() == 32,
            bytes@ == left@.take(i as int),
        decreases 32 - i,
    {
        bytes.push(left[i]);
        proof {
            assert(bytes@ =~= left@.take(i + 1));
        }
        i = i + 1;
    }
    let mut j: usize = 0;
    while j < 32
        invariant
            j <= 32,
            left@.len() == 32,
            right@.len() == 32,
            bytes@ == left@ + right@.take(j as int),
        decreases 32 - j,
    {
        bytes.push(right[j]);
        proof {
            assert(bytes@ =~= left@ + right@.take(j + 1));
        }
        j = j + 1;
    }
    proof {
        assert(left@.take(32) =~= left@);
        assert(right@.take(32) =~= right@);
    }
    blake3_digest(bytes.as_slice())
}

} // verus!
