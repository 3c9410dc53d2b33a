use tesseract::merkle_hash::{internal_hash, leaf_hash};
use tesseract::merkle_merge::MerkleTree;
use tesseract::merkle_tree::{Centroid, MerkleNode};

/// A point with cosine nearest-centroid search and running means.
#[derive(Debug, Clone, PartialEq)]
struct P(Vec<f32>);

fn cosine_distance(q: &[f32], c: &[f32]) -> f32 {
    let dot: f32 = q.iter().zip(c.iter()).map(|(a, b)| a * b).sum();
    let nq: f32 = q.iter().map(|x| x * x).sum::<f32>().sqrt();
    let nc: f32 = c.iter().map(|x| x * x).sum::<f32>().sqrt();
    if nq == 0.0 || nc == 0.0 {
        return 1.0;
    }
    1.0 - dot / (nq * nc)
}

impl Centroid for P {
    fn weighted_average(a: &Self, count_a: u64, b: &Self, count_b: u64) -> Self {
        let total = (count_a + count_b) as f32;
        P(a.0.iter().zip(b.0.iter()).map(|(x, y)| (x * count_a as f32 + y * count_b as f32) / total).collect())
    }
    fn zero(dim: usize) -> Self {
        P(vec![0.0; dim])
    }
    fn add(sum: &Self, v: &Self) -> Self {
        P(sum.0.iter().zip(v.0.iter()).map(|(s, x)| s + x).collect())
    }
    fn absorb(c: &Self, old_count: u64, sum: &Self, total: u64) -> Self {
        P(c.0.iter().zip(sum.0.iter()).map(|(c, s)| (c * old_count as f32 + s) / total as f32).collect())
    }
    fn split(&self) -> (Self, Self) {
        (P(self.0.iter().map(|x| x + 0.01).collect()), P(self.0.iter().map(|x| x - 0.01).collect()))
    }
    fn coordinate_bits(&self) -> Vec<u32> {
        self.0.iter().map(|x| x.to_bits()).collect()
    }
}

fn batch(vectors: &[Vec<f32>]) -> Vec<(usize, P)> {
    vectors.iter().map(|v| (v.len(), P(v.clone()))).collect()
}

/// The nearest leaf of the tree for each vector of the first one's length.
fn targets(tree: &MerkleTree<P>, vectors: &[Vec<f32>]) -> Vec<Option<usize>> {
    let leaves = match tree.root() {
        Some(r) => r.collect_leaves(),
        None => return vec![None; vectors.len()],
    };
    vectors
        .iter()
        .map(|v| {
            if v.len() != vectors[0].len() {
                return None;
            }
            leaves
                .iter()
                .enumerate()
                .map(|(i, l)| (i, cosine_distance(v, &l.centroid().0)))
                .min_by(|a, b| a.1.partial_cmp(&b.1).unwrap_or(std::cmp::Ordering::Equal))
                .map(|(i, _)| i)
        })
        .collect()
}

/// Merge `vectors` into the tree, each joining its nearest cluster.
fn insert(tree: &mut MerkleTree<P>, vectors: &[Vec<f32>]) {
    let t = targets(tree, vectors);
    tree.insert_batch(batch(vectors), t);
}

fn leaves(tree: &MerkleTree<P>) -> Vec<(u64, u64)> {
    match tree.root() {
        Some(r) => r.collect_leaves().iter().map(|l| (l.cluster_id().unwrap(), l.count())).collect(),
        None => Vec::new(),
    }
}

#[test]
fn empty_tree_has_no_centroids() {
    let tree: MerkleTree<P> = MerkleTree::new(100);
    assert_eq!(tree.num_centroids(), 0);
    assert!(tree.root().is_none());
}

#[test]
fn first_batch_creates_centroids() {
    let mut tree = MerkleTree::new(1000);
    insert(&mut tree, &[vec![1.0, 0.0, 0.0], vec![0.0, 1.0, 0.0], vec![0.0, 0.0, 1.0]]);
    assert_eq!(tree.num_centroids(), 3);
    assert!(tree.root().is_some());
    assert_eq!(leaves(&tree), vec![(1, 1), (2, 1), (3, 1)]);
    assert_eq!(tree.next_cluster_id(), 4);
}

#[test]
fn second_batch_assigns_to_nearest_centroid() {
    let mut tree = MerkleTree::new(1000);
    insert(&mut tree, &[vec![1.0, 0.0, 0.0], vec![0.0, 1.0, 0.0]]);
    assert_eq!(tree.num_centroids(), 2);
    insert(&mut tree, &[vec![0.95, 0.05, 0.0], vec![0.98, 0.02, 0.0]]);
    assert_eq!(tree.num_centroids(), 2);
    assert_eq!(leaves(&tree), vec![(1, 3), (2, 1)]);
    let root = tree.root().unwrap();
    match root {
        MerkleNode::Internal { left, .. } => {
            // (1 + 0.95 + 0.98) / 3 and (0 + 0.05 + 0.02) / 3
            let c = left.centroid();
            assert!((c.0[0] - 2.93 / 3.0).abs() < 1e-6);
            assert!((c.0[1] - 0.07 / 3.0).abs() < 1e-6);
        }
        MerkleNode::Leaf { .. } => panic!("two clusters make an internal root"),
    }
}

#[test]
fn overfull_cluster_splits() {
    let mut tree = MerkleTree::new(3);
    insert(&mut tree, &[vec![1.0, 0.0, 0.0]]);
    assert_eq!(tree.num_centroids(), 1);
    for i in 2..=5u64 {
        let perturbation = (i as f32) * 0.001;
        insert(&mut tree, &[vec![1.0 - perturbation, perturbation, 0.0, 0.0]]);
    }
    assert!(tree.num_centroids() >= 2, "should have split into at least 2 centroids, got {}", tree.num_centroids());
}

#[test]
fn overfull_cluster_splits_into_halves_with_fresh_ids() {
    let mut tree = MerkleTree::new(3);
    insert(&mut tree, &[vec![1.0, 0.0]]);
    // Four more vectors join cluster 1, making 5 > 3: it splits into 2 and 3.
    insert(&mut tree, &[vec![1.0, 0.1], vec![1.0, 0.2], vec![1.0, 0.0], vec![0.9, 0.1]]);
    assert_eq!(leaves(&tree), vec![(2, 2), (3, 3)]);
    assert_eq!(tree.next_cluster_id(), 4);
    // Nine vectors join a cluster of one, making 10: 5 and 5, then 2, 3, 2, 3.
    let mut tree = MerkleTree::new(3);
    insert(&mut tree, &[vec![1.0, 0.0]]);
    insert(&mut tree, &vec![vec![1.0, 0.0]; 9]);
    assert_eq!(leaves(&tree), vec![(4, 2), (5, 3), (6, 2), (7, 3)]);
    assert_eq!(tree.root().unwrap().count(), 10);
}

#[test]
fn vectors_of_another_length_are_skipped() {
    let mut tree = MerkleTree::new(10);
    insert(&mut tree, &[vec![1.0, 0.0], vec![1.0, 0.0, 0.0], vec![0.0, 1.0]]);
    assert_eq!(leaves(&tree), vec![(1, 1), (2, 1)]);
    assert_eq!(tree.root().unwrap().count(), 2);
}

#[test]
fn leaves_are_hashed_over_centroid_count_and_id() {
    let mut tree = MerkleTree::new(10);
    insert(&mut tree, &[vec![1.0, 0.0], vec![0.0, 1.0]]);
    let h1 = leaf_hash(&vec![1.0f32.to_bits(), 0.0f32.to_bits()], 1, 1);
    let h2 = leaf_hash(&vec![0.0f32.to_bits(), 1.0f32.to_bits()], 1, 2);
    assert_eq!(*tree.root().unwrap().hash(), internal_hash(&h1, &h2));
}

#[test]
fn large_batch_does_not_panic() {
    let mut tree = MerkleTree::new(100);
    let mut vectors = Vec::with_capacity(100);
    for i in 0..100u64 {
        let mut v = vec![i as f32 / 100.0; 4];
        let norm: f32 = v.iter().map(|x| x * x).sum::<f32>().sqrt();
        if norm > 0.0 {
            for x in &mut v {
                *x /= norm;
            }
        }
        vectors.push(v);
    }
    insert(&mut tree, &vectors);
    assert_eq!(tree.num_centroids(), 100);
    insert(&mut tree, &vectors);
    assert!(tree.num_centroids() >= 100, "should have at least 100 centroids");
    assert_eq!(tree.root().unwrap().count(), 200);
}

#[test]
fn empty_batch_does_nothing() {
    let mut tree = MerkleTree::new(100);
    tree.insert_batch(Vec::new(), Vec::new());
    assert_eq!(tree.num_centroids(), 0);
    insert(&mut tree, &[vec![1.0, 0.0, 0.0]]);
    let before = tree.num_centroids();
    tree.insert_batch(Vec::new(), Vec::new());
    assert_eq!(tree.num_centroids(), before);
}

#[test]
fn root_hash_changes_after_insert() {
    let mut tree = MerkleTree::new(100);
    insert(&mut tree, &[vec![1.0, 0.0, 0.0]]);
    let hash_before = *tree.root().unwrap().hash();
    insert(&mut tree, &[vec![0.0, 1.0, 0.0]]);
    let hash_after = *tree.root().unwrap().hash();
    assert_ne!(hash_before, hash_after, "inserting new data must change root hash");
}

#[test]
fn same_data_produces_same_root_hash() {
    let mut tree1 = MerkleTree::new(100);
    let mut tree2 = MerkleTree::new(100);
    let data = [vec![1.0, 0.0, 0.0], vec![0.0, 1.0, 0.0]];
    insert(&mut tree1, &data);
    insert(&mut tree2, &data);
    assert_eq!(*tree1.root().unwrap().hash(), *tree2.root().unwrap().hash(), "same data must produce same root hash");
}

#[test]
fn with_path_creates_tree() {
    let tree: MerkleTree<P> = MerkleTree::new(100);
    assert_eq!(tree.max_cluster_size(), 100);
    assert!(tree.root().is_none());
}

#[test]
fn from_parts_checks_cluster_ids() {
    let mut tree = MerkleTree::new(100);
    insert(&mut tree, &[vec![1.0, 0.0], vec![0.0, 1.0]]);
    let leaf = |id: u64| MerkleNode::Leaf { centroid: P(vec![1.0]), cluster_id: id, count: 1, hash: [0u8; 32] };
    let node = |a: u64, b: u64| MerkleNode::Internal {
        hash: [0u8; 32],
        left: Box::new(leaf(a)),
        right: Box::new(leaf(b)),
        centroid: P(vec![1.0]),
        count: 2,
    };
    assert!(MerkleTree::from_parts(Some(Box::new(node(1, 2))), 3, 10).is_some());
    assert!(MerkleTree::from_parts(Some(Box::new(node(1, 1))), 3, 10).is_none());
    assert!(MerkleTree::from_parts(Some(Box::new(node(1, 3))), 3, 10).is_none());
    assert!(MerkleTree::<P>::from_parts(None, 1, 10).is_some());
    let t = MerkleTree::from_parts(Some(Box::new(node(1, 2))), 3, 10).unwrap();
    assert_eq!(t.num_centroids(), 2);
    assert_eq!(t.next_cluster_id(), 3);
}

#[test]
fn targets_decide_which_cluster_a_vector_joins() {
    let mut tree = MerkleTree::new(100);
    insert(&mut tree, &[vec![1.0, 0.0], vec![0.0, 1.0]]);
    // Leaves are ordered by id: position 0 is cluster 1, position 1 cluster 2.
    tree.insert_batch(batch(&[vec![1.0, 0.0], vec![1.0, 0.0], vec![0.5, 0.5]]), vec![Some(1), None, Some(7)]);
    // Vector 0 joins cluster 2; vectors 1 and 2 (no target, a target naming
    // no leaf) start clusters 3 and 4.
    assert_eq!(leaves(&tree), vec![(1, 1), (2, 2), (3, 1), (4, 1)]);
    assert_eq!(tree.next_cluster_id(), 5);
    // Missing targets count as none.
    tree.insert_batch(batch(&[vec![0.0, 1.0]]), Vec::new());
    assert_eq!(leaves(&tree), vec![(1, 1), (2, 2), (3, 1), (4, 1), (5, 1)]);
}

#[test]
fn every_cluster_keeps_a_vector() {
    let mut tree = MerkleTree::new(1);
    insert(&mut tree, &[vec![1.0, 0.0]]);
    insert(&mut tree, &vec![vec![1.0, 0.0]; 6]);
    let l = leaves(&tree);
    assert!(l.iter().all(|&(_, c)| c == 1));
    assert_eq!(l.len(), 7);
}
