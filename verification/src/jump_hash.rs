//! Jump consistent hashing: maps a 64-bit key onto one of `n` buckets so
//! that growing the bucket count only ever moves keys onto the new buckets.

use vstd::prelude::*;

verus! {

/// Multiplier of the linear congruential step that drives the jumps.
pub const JUMP_MULTIPLIER: u64 = 2862933555777941757;

/// One step of the 64-bit linear congruential generator: `key * M + 1 (mod 2^64)`.
#[verifier::opaque]
pub open spec fn lcg_step(key: u64) -> u64 {
    ((key as nat * JUMP_MULTIPLIER as nat + 1) % 0x1_0000_0000_0000_0000) as u64
}

/// The next candidate bucket after bucket `b`, for generator state `key`:
/// `floor((b + 1) * 2^31 / ((key >> 33) + 1))`.
#[verifier::opaque]
pub open spec fn jump_target(b: nat, key: u64) -> nat {
    (b + 1) * 0x8000_0000 / (((key >> 33u64) as nat) + 1)
}

/// The next candidate always lies strictly beyond the current bucket.
pub proof fn lemma_jump_target_advances(b: nat, key: u64)
    ensures
        jump_target(b, key) > b,
{
    reveal(jump_target);
    let d: nat = ((key >> 33u64) as nat) + 1;
    assert((key >> 33u64) <= 0x7fff_ffff) by (bit_vector);
    assert(1 <= d <= 0x8000_0000);
    assert((b + 1) * 0x8000_0000 / d >= b + 1) by (nonlinear_arith)
        requires
            1 <= d <= 0x8000_0000,
    {
        assert((b + 1) * 0x8000_0000 >= (b + 1) * d);
        assert(((b + 1) * d) / d == b + 1);
    }
}

/// The bucket reached by jumping from bucket `b` (with generator state `key`
/// before the step) while the next candidate stays below `n`.
pub open spec fn jump_from(key: u64, b: nat, n: nat) -> nat
    decreases n - b,
{
    let k = lcg_step(key);
    let next = jump_target(b, k);
    if next < n && b < n {
        proof {
            lemma_jump_target_advances(b, k);
        }
        jump_from(k, next, n)
    } else {
        b
    }
}

proof fn lemma_wrapping_step(key: u64, product: u64, k: u64)
    requires
        product as nat == (key as nat * JUMP_MULTIPLIER as nat) % 0x1_0000_0000_0000_0000,
        k == (if product + 1 > u64::MAX {
            (product + 1 - 0x1_0000_0000_0000_0000) as u64
        } else {
            (product + 1) as u64
        }),
    ensures
        k == lcg_step(key),
{
    reveal(lcg_step);
    let a: nat = key as nat * JUMP_MULTIPLIER as nat;
    let m: nat = 0x1_0000_0000_0000_0000;
    let q: nat = a / m;
    assert(a == q * m + product) by (nonlinear_arith)
        requires
            product == a % m,
            q == a / m,
            m > 0,
    ;
    if product + 1 < m {
        assert((a + 1) % m == product + 1) by (nonlinear_arith)
            requires
                a + 1 == q * m + (product + 1),
                product + 1 < m,
                m > 0,
        ;
    } else {
        assert((a + 1) % m == 0) by (nonlinear_arith)
            requires
                a + 1 == (q + 1) * m,
                m > 0,
        ;
    }
}

/// Jumping from a bucket below `n` ends at a bucket at least as far, still below `n`.
pub proof fn lemma_jump_from_range(key: u64, b: nat, n: nat)
    requires
        b < n,
    ensures
        b <= jump_from(key, b, n) < n,
    decreases n - b,
{
    reveal(jump_from);
    let k = lcg_step(key);
    let next = jump_target(b, k);
    lemma_jump_target_advances(b, k);
    if next < n {
        lemma_jump_from_range(k, next, n);
    }
}

proof fn lemma_jump_from_unfold(key: u64, b: nat, n: nat)
    requires
        b < n,
    ensures
        jump_from(key, b, n) == (if jump_target(b, lcg_step(key)) < n {
            jump_from(lcg_step(key), jump_target(b, lcg_step(key)), n)
        } else {
            b
        }),
{
    reveal(jump_from);
}

fn next_candidate(b: u64, k: u64) -> (j: u128)
    ensures
        j as nat == jump_target(b as nat, k),
{
    reveal(jump_target);
    let shifted: u64 = k >> 33;
    let num: u128 = (b as u128 + 1) * 0x8000_0000;
    num / (shifted as u128 + 1)
}

/// The bucket that jump consistent hashing assigns to `key` among `n` buckets
/// (0 when there are no buckets).
pub open spec fn jump_hash_spec(key: u64, n: nat) -> nat {
    if n == 0 {
        0
    } else {
        jump_from(key, 0, n)
    }
}

/// JumpHash consistent hash function: the bucket in `[0, num_buckets)` for
/// `key`, or 0 when `num_buckets` is 0.
///
/// Each jump target `(b + 1) * 2^31 / ((k >> 33) + 1)` is computed exactly,
/// in integers. Versions of the algorithm that compute this quotient in
/// double precision agree with it up to about 2^22 buckets; beyond that their
/// rounding can land some keys in a different bucket.
pub fn jump_hash(key: u64, num_buckets: u64) -> (bucket: u64)
    ensures
        bucket as nat == jump_hash_spec(key, num_buckets as nat),
        num_buckets > 0 ==> bucket < num_buckets,
        num_buckets == 0 ==> bucket == 0,
{
    if num_buckets == 0 {
        return 0;
    }
    let mut cur = key;
    let mut b: u64 = 0;
    loop
        invariant
            b < num_buckets,
            jump_from(cur, b as nat, num_buckets as nat) == jump_hash_spec(key, num_buckets as nat),
        decreases num_buckets - b,
    {
        let product = cur.wrapping_mul(JUMP_MULTIPLIER);
        let k = product.wrapping_add(1);
        proof {
            lemma_wrapping_step(cur, product, k);
        }
        let j = next_candidate(b, k);
        proof {
            lemma_jump_target_advances(b as nat, k);
            lemma_jump_from_unfold(cur, b as nat, num_buckets as nat);
        }
        if j < num_buckets as u128 {
            cur = k;
            b = j as u64;
        } else {
            return b;
        }
    }
}

proof fn lemma_jump_from_grow_one(key: u64, b: nat, n: nat)
    requires
        b < n,
    ensures
        jump_from(key, b, n + 1) == jump_from(key, b, n) || jump_from(key, b, n + 1) == n,
    decreases n - b,
{
    let k = lcg_step(key);
    let next = jump_target(b, k);
    lemma_jump_target_advances(b, k);
    lemma_jump_from_unfold(key, b, n);
    lemma_jump_from_unfold(key, b, n + 1);
    if next < n {
        lemma_jump_from_grow_one(k, next, n);
    } else if next == n {
        let k2 = lcg_step(k);
        lemma_jump_target_advances(n, k2);
        lemma_jump_from_unfold(k, n, n + 1);
    }
}

/// Every key lands on an existing bucket: with `n > 0` buckets the result is below `n`.
pub proof fn lemma_jump_hash_in_range(key: u64, n: nat)
    requires
        n > 0,
    ensures
        jump_hash_spec(key, n) < n,
{
    lemma_jump_from_range(key, 0, n);
}

/// Adding one bucket moves a key only onto the new bucket: with `n + 1`
/// buckets a key either keeps the bucket it had among `n`, or moves to bucket `n`.
pub proof fn lemma_jump_hash_grow_one(key: u64, n: nat)
    requires
        n > 0,
    ensures
        jump_hash_spec(key, n + 1) == jump_hash_spec(key, n) || jump_hash_spec(key, n + 1) == n,
{
    lemma_jump_from_grow_one(key, 0, n);
}

/// Growing from `n` to `m >= n` buckets never moves a key between old buckets:
/// it keeps its bucket or moves to one of the new buckets `n..m`.
pub proof fn lemma_jump_hash_monotone(key: u64, n: nat, m: nat)
    requires
        0 < n <= m,
    ensures
        jump_hash_spec(key, m) == jump_hash_spec(key, n) || jump_hash_spec(key, m) >= n,
    decreases m - n,
{
    if m > n {
        lemma_jump_hash_monotone(key, n, (m - 1) as nat);
        lemma_jump_hash_grow_one(key, (m - 1) as nat);
    }
}

} // verus!
