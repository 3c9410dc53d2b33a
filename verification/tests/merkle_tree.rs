use tesseract::merkle_hash::{internal_hash, leaf_hash};
use tesseract::merkle_tree::{build_tree, Centroid, MerkleNode};

fn make_leaf(centroid: Vec<f32>, cluster_id: u64, count: u64) -> MerkleNode<Vec<f32>> {
    MerkleNode::Leaf { centroid, cluster_id, count, hash: [0u8; 32] }
}

fn bits(centroid: &[f32]) -> Vec<u32> {
    centroid.iter().map(|x| x.to_bits()).collect()
}

/// A centroid averaged coordinate by coordinate, weighted by counts.
#[derive(Debug, Clone, PartialEq)]
struct Mean(Vec<f32>);

impl Centroid for Mean {
    fn weighted_average(a: &Self, count_a: u64, b: &Self, count_b: u64) -> Self {
        let total = (count_a + count_b) as f32;
        Mean(a.0.iter().zip(b.0.iter()).map(|(x, y)| (x * count_a as f32 + y * count_b as f32) / total).collect())
    }
    fn zero(dim: usize) -> Self {
        Mean(vec![0.0; dim])
    }
    fn add(sum: &Self, v: &Self) -> Self {
        Mean(sum.0.iter().zip(v.0.iter()).map(|(s, x)| s + x).collect())
    }
    fn absorb(c: &Self, old_count: u64, sum: &Self, total: u64) -> Self {
        Mean(c.0.iter().zip(sum.0.iter()).map(|(c, s)| (c * old_count as f32 + s) / total as f32).collect())
    }
    fn split(&self) -> (Self, Self) {
        (self.clone(), self.clone())
    }
    fn coordinate_bits(&self) -> Vec<u32> {
        bits(&self.0)
    }
}

fn hashed_leaf(centroid: Vec<f32>, cluster_id: u64, count: u64) -> MerkleNode<Mean> {
    let hash = leaf_hash(&bits(&centroid), count, cluster_id);
    MerkleNode::Leaf { centroid: Mean(centroid), cluster_id, count, hash }
}

fn ids<C>(node: &MerkleNode<C>) -> Vec<u64> {
    node.collect_leaves().iter().filter_map(|l| l.cluster_id()).collect()
}

#[test]
fn leaf_recompute_hash_produces_deterministic_result() {
    let hash1 = leaf_hash(&bits(&[1.0, 0.0, 0.0]), 5, 1);
    let hash2 = leaf_hash(&bits(&[1.0, 0.0, 0.0]), 5, 1);
    assert_eq!(hash1, hash2, "same leaf content must produce same hash");
}

#[test]
fn different_centroids_produce_different_hashes() {
    let h1 = leaf_hash(&bits(&[1.0, 0.0, 0.0]), 5, 1);
    let h2 = leaf_hash(&bits(&[0.0, 1.0, 0.0]), 5, 2);
    assert_ne!(h1, h2, "different centroids must produce different hashes");
}

#[test]
fn different_counts_produce_different_hashes() {
    let h1 = leaf_hash(&bits(&[1.0, 0.0, 0.0]), 5, 1);
    let h2 = leaf_hash(&bits(&[1.0, 0.0, 0.0]), 10, 1);
    assert_ne!(h1, h2, "different counts must produce different hashes");
}

#[test]
fn internal_hash_aggregates_children() {
    let left_hash = leaf_hash(&bits(&[1.0, 0.0, 0.0]), 5, 1);
    let right_hash = leaf_hash(&bits(&[0.0, 1.0, 0.0]), 3, 2);
    let internal = internal_hash(&left_hash, &right_hash);
    assert_ne!(internal, left_hash);
    assert_ne!(internal, right_hash);
}

#[test]
fn single_leaf_collects_itself() {
    let leaf = make_leaf(vec![1.0, 0.0, 0.0], 1, 5);
    let leaves = leaf.collect_leaves();
    assert_eq!(leaves.len(), 1);
    assert_eq!(leaves[0].cluster_id(), Some(1));
}

#[test]
fn internal_collects_all_leaves() {
    let left = make_leaf(vec![1.0, 0.0, 0.0], 1, 5);
    let right = make_leaf(vec![0.0, 1.0, 0.0], 2, 3);
    let internal = MerkleNode::Internal {
        hash: [0u8; 32],
        left: Box::new(left),
        right: Box::new(right),
        centroid: vec![0.625, 0.375, 0.0],
        count: 8,
    };
    let leaves = internal.collect_leaves();
    assert_eq!(leaves.len(), 2);
    let ids: Vec<u64> = leaves.iter().filter_map(|l| l.cluster_id()).collect();
    assert!(ids.contains(&1));
    assert!(ids.contains(&2));
}

#[test]
fn empty_subtree_via_no_leaves() {
    let leaf = make_leaf(vec![0.5, 0.5], 42, 1);
    assert_eq!(leaf.collect_leaves().len(), 1);
}

#[test]
fn leaf_accessors() {
    let leaf = make_leaf(vec![1.0, 2.0, 3.0], 7, 42);
    assert_eq!(leaf.centroid(), &[1.0, 2.0, 3.0]);
    assert_eq!(leaf.count(), 42);
    assert_eq!(leaf.cluster_id(), Some(7));
    assert_eq!(leaf.hash(), &[0u8; 32]);
}

#[test]
fn internal_accessors() {
    let left = make_leaf(vec![1.0, 0.0], 1, 10);
    let right = make_leaf(vec![0.0, 1.0], 2, 5);
    let internal = MerkleNode::Internal {
        hash: [0xABu8; 32],
        left: Box::new(left),
        right: Box::new(right),
        centroid: vec![0.67, 0.33],
        count: 15,
    };
    assert!((internal.centroid()[0] - 0.67).abs() < 0.01);
    assert_eq!(internal.count(), 15);
    assert!(internal.cluster_id().is_none());
    assert_eq!(*internal.hash(), [0xABu8; 32]);
}

#[test]
fn collect_leaves_owned_returns_owned_nodes() {
    let left = make_leaf(vec![1.0, 0.0, 0.0], 1, 5);
    let right = make_leaf(vec![0.0, 1.0, 0.0], 2, 3);
    let internal = MerkleNode::Internal {
        hash: [0u8; 32],
        left: Box::new(left),
        right: Box::new(right),
        centroid: vec![0.625, 0.375, 0.0],
        count: 8,
    };
    let owned = internal.collect_leaves_owned();
    assert_eq!(owned.len(), 2);
    assert_eq!(owned[0].cluster_id(), Some(1));
    assert_eq!(owned[1].cluster_id(), Some(2));
}

#[test]
fn build_tree_of_no_leaves_is_none() {
    assert!(build_tree::<Mean>(Vec::new()).is_none());
}

#[test]
fn build_tree_of_one_leaf_is_that_leaf() {
    let leaf = hashed_leaf(vec![1.0, 0.0], 9, 4);
    let expected = *leaf.hash();
    let root = build_tree(vec![leaf]).unwrap();
    assert_eq!(root.cluster_id(), Some(9));
    assert_eq!(root.count(), 4);
    assert_eq!(*root.hash(), expected);
}

#[test]
fn build_tree_orders_leaves_and_chains_hashes() {
    let l3 = hashed_leaf(vec![0.0, 0.0, 1.0], 3, 2);
    let l1 = hashed_leaf(vec![1.0, 0.0, 0.0], 1, 5);
    let l2 = hashed_leaf(vec![0.0, 1.0, 0.0], 2, 3);
    let (h1, h2, h3) = (*l1.hash(), *l2.hash(), *l3.hash());
    let root = build_tree(vec![l3, l1, l2]).unwrap();
    // Level one pairs 1 with 2 and carries 3 up; level two pairs the two.
    assert_eq!(ids(&root), vec![1, 2, 3]);
    assert_eq!(root.count(), 10);
    assert_eq!(*root.hash(), internal_hash(&internal_hash(&h1, &h2), &h3));
    match &*root {
        MerkleNode::Internal { left, right, centroid, .. } => {
            assert_eq!(left.count(), 8);
            assert_eq!(*left.centroid(), Mean(vec![0.625, 0.375, 0.0]));
            assert_eq!(right.cluster_id(), Some(3));
            assert_eq!(*centroid, Mean(vec![0.5, 0.3, 0.2]));
        }
        MerkleNode::Leaf { .. } => panic!("three leaves make an internal root"),
    }
}

#[test]
fn build_tree_balances_four_leaves() {
    let leaves: Vec<MerkleNode<Mean>> = (1..=4u64).rev().map(|id| hashed_leaf(vec![id as f32], id, id)).collect();
    let hashes: Vec<[u8; 32]> = (1..=4u64).map(|id| leaf_hash(&bits(&[id as f32]), id, id)).collect();
    let root = build_tree(leaves).unwrap();
    assert_eq!(ids(&root), vec![1, 2, 3, 4]);
    assert_eq!(root.count(), 10);
    let expected = internal_hash(&internal_hash(&hashes[0], &hashes[1]), &internal_hash(&hashes[2], &hashes[3]));
    assert_eq!(*root.hash(), expected);
}

#[test]
fn build_tree_ignores_leaf_order() {
    let make = |order: &[u64]| -> Vec<MerkleNode<Mean>> {
        order.iter().map(|&id| hashed_leaf(vec![id as f32, 1.0], id, id + 1)).collect()
    };
    let a = build_tree(make(&[5, 2, 9, 1, 7])).unwrap();
    let b = build_tree(make(&[9, 7, 5, 2, 1])).unwrap();
    assert_eq!(ids(&a), vec![1, 2, 5, 7, 9]);
    assert_eq!(ids(&a), ids(&b));
    assert_eq!(a.hash(), b.hash());
    assert_eq!(a.count(), 29);
    assert_eq!(a.count(), b.count());
}
