use tesseract::jump_hash::jump_hash;

/// The floating-point formulation of Jump Consistent Hash.
fn jump_hash_float(key: u64, num_buckets: u64) -> u64 {
    if num_buckets == 0 {
        return 0;
    }
    let mut key = key;
    let mut b = -1i64;
    let mut j = 0i64;
    while j < num_buckets as i64 {
        b = j;
        key = key.wrapping_mul(2862933555777941757).wrapping_add(1);
        j = ((b.wrapping_add(1) as f64) * (1u64 << 31) as f64 / ((key >> 33) + 1) as f64) as i64;
    }
    b as u64
}

#[test]
fn same_key_same_bucket() {
    for num_buckets in [1, 2, 8, 16, 64, 127] {
        for key in [0, 1, 42, u64::MAX, u64::MAX >> 1] {
            let first = jump_hash(key, num_buckets);
            let second = jump_hash(key, num_buckets);
            assert_eq!(first, second, "key={key} with {num_buckets} buckets must be deterministic");
        }
    }
}

#[test]
fn all_buckets_reachable() {
    let num_buckets = 64;
    let mut seen = [false; 64];
    for step in 0..1024 {
        let key = (step as u64) << 32;
        let bucket = jump_hash(key, num_buckets) as usize;
        seen[bucket] = true;
    }
    let populated: usize = seen.iter().filter(|&&s| s).count();
    assert_eq!(populated, 64, "expected all 64 buckets to be reachable, got {populated}");
}

#[test]
fn distribution_uniform() {
    let num_buckets = 64;
    let samples = 100_000u64;
    let expected = samples as f64 / num_buckets as f64;

    let mut counts = vec![0u64; num_buckets as usize];
    for key in 0..samples {
        let bucket = jump_hash(key, num_buckets) as usize;
        counts[bucket] += 1;
    }

    let chi_squared: f64 = counts
        .iter()
        .map(|&observed| {
            let diff = observed as f64 - expected;
            diff * diff / expected
        })
        .sum();

    assert!(chi_squared < 200.0, "chi-squared = {chi_squared} exceeds threshold 200.0");
}

#[test]
fn minimal_redistribution_on_bucket_change() {
    let num_keys = 10_000u64;
    let old_buckets = 64;
    let new_buckets = 65;

    let mut changed = 0u64;
    for key in 0..num_keys {
        let old_b = jump_hash(key, old_buckets);
        let new_b = jump_hash(key, new_buckets);
        if old_b != new_b {
            changed += 1;
        }
    }

    let expected = (num_keys as f64 / (new_buckets as f64)) as u64;
    let lower = (expected as f64 * 0.5) as u64;
    let upper = (expected as f64 * 2.5) as u64;

    assert!(changed >= lower && changed <= upper, "expected ~{expected} keys to change bucket, got {changed}");
}

#[test]
fn minimal_redistribution_on_bucket_removal() {
    let num_keys = 10_000u64;
    let old_buckets = 65;
    let new_buckets = 64;

    let mut changed = 0u64;
    for key in 0..num_keys {
        let old_b = jump_hash(key, old_buckets);
        let new_b = jump_hash(key, new_buckets);
        if old_b != new_b {
            changed += 1;
        }
    }

    let expected = (num_keys as f64 / (new_buckets as f64)) as u64;
    let lower = (expected as f64 * 0.5) as u64;
    let upper = (expected as f64 * 2.5) as u64;

    assert!(changed >= lower && changed <= upper, "expected ~{expected} keys to change bucket, got {changed}");
}

#[test]
fn single_bucket() {
    for key in [0, 1, 42, u64::MAX] {
        assert_eq!(jump_hash(key, 1), 0);
    }
}

#[test]
fn zero_buckets() {
    assert_eq!(jump_hash(42, 0), 0);
}

#[test]
fn matches_floating_point_formulation() {
    for num_buckets in [1u64, 2, 3, 7, 16, 64, 65, 100, 1000, 4096] {
        for key in 0..2_000u64 {
            let k = key.wrapping_mul(0x9E37_79B9_7F4A_7C15);
            assert_eq!(jump_hash(k, num_buckets), jump_hash_float(k, num_buckets), "key={k} buckets={num_buckets}");
        }
    }
}

#[test]
fn known_values() {
    assert_eq!(jump_hash(0, 64), 0);
    assert_eq!(jump_hash(1, 2), 0);
    assert_eq!(jump_hash(u64::MAX, 1000), 313);
    assert_eq!(jump_hash(42, 10), 2);
    assert_eq!(jump_hash(123456789, 100), 34);
}

#[test]
fn growing_by_one_bucket_moves_keys_only_to_the_new_bucket() {
    for key in 0..5_000u64 {
        for n in [1u64, 5, 64] {
            let a = jump_hash(key, n);
            let b = jump_hash(key, n + 1);
            assert!(a < n && b <= n);
            assert!(a == b || b == n, "key={key} n={n}: {a} -> {b}");
        }
    }
}
