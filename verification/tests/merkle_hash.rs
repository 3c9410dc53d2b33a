use tesseract::merkle_hash::{internal_hash, leaf_hash};

fn reference_leaf(centroid: &[f32], count: u64, cluster_id: u64) -> [u8; 32] {
    let mut hasher = blake3::Hasher::new();
    for &x in centroid {
        hasher.update(&x.to_le_bytes());
    }
    hasher.update(&count.to_le_bytes());
    hasher.update(&cluster_id.to_le_bytes());
    hasher.finalize().into()
}

fn bits(centroid: &[f32]) -> Vec<u32> {
    centroid.iter().map(|x| x.to_bits()).collect()
}

#[test]
fn leaf_hash_matches_streamed_hash() {
    for (c, count, id) in [
        (vec![1.0f32, 0.0, 0.0], 5u64, 1u64),
        (vec![], 0, 0),
        (vec![-0.5f32, 3.25, f32::MAX, f32::MIN_POSITIVE], u64::MAX, 1 << 40),
    ] {
        assert_eq!(leaf_hash(&bits(&c), count, id), reference_leaf(&c, count, id));
    }
}

#[test]
fn leaf_hash_depends_on_every_field() {
    let base = leaf_hash(&bits(&[1.0, 0.0, 0.0]), 5, 1);
    assert_eq!(base, leaf_hash(&bits(&[1.0, 0.0, 0.0]), 5, 1));
    assert_ne!(base, leaf_hash(&bits(&[0.0, 1.0, 0.0]), 5, 1));
    assert_ne!(base, leaf_hash(&bits(&[1.0, 0.0, 0.0]), 10, 1));
    assert_ne!(base, leaf_hash(&bits(&[1.0, 0.0, 0.0]), 5, 2));
}

#[test]
fn internal_hash_hashes_children_in_order() {
    let a = leaf_hash(&bits(&[1.0]), 1, 1);
    let b = leaf_hash(&bits(&[2.0]), 1, 2);
    let mut hasher = blake3::Hasher::new();
    hasher.update(&a);
    hasher.update(&b);
    let expected: [u8; 32] = hasher.finalize().into();
    assert_eq!(internal_hash(&a, &b), expected);
    assert_ne!(internal_hash(&a, &b), internal_hash(&b, &a));
}
