//! Sequences of records with distinct keys, read as finite maps.
//!
//! The registries of the library keep their records in vectors whose keys
//! never repeat; these definitions and lemmas relate such a sequence to the
//! map from key to record that it stands for.

use vstd::prelude::*;

verus! {

/// No two records of `s` share a key.
pub open spec fn unique_keys<K, V>(s: Seq<V>, key: spec_fn(V) -> K) -> bool {
    forall|i: int, j: int| 0 <= i < j < s.len() ==> key(#[trigger] s[i]) != key(#[trigger] s[j])
}

/// Some record of `s` has key `k`.
pub open spec fn has_key<K, V>(s: Seq<V>, key: spec_fn(V) -> K, k: K) -> bool {
    exists|i: int| 0 <= i < s.len() && key(#[trigger] s[i]) == k
}

/// The map from key to record that `s` stands for (a later record wins).
pub open spec fn keyed_map<K, V>(s: Seq<V>, key: spec_fn(V) -> K) -> Map<K, V>
    decreases s.len(),
{
    if s.len() == 0 {
        Map::empty()
    } else {
        keyed_map(s.drop_last(), key).insert(key(s.last()), s.last())
    }
}

/// The keys of the map are the keys of the records, and with distinct keys
/// each record is what the map holds under its key.
pub proof fn lemma_keyed_map_index<K, V>(s: Seq<V>, key: spec_fn(V) -> K)
    ensures
        forall|k: K| #[trigger] keyed_map(s, key).contains_key(k) <==> has_key(s, key, k),
        unique_keys(s, key) ==> forall|i: int|
            0 <= i < s.len() ==> #[trigger] keyed_map(s, key)[key(s[i])] == s[i],
        keyed_map(s, key).dom().finite(),
    decreases s.len(),
{
    if s.len() > 0 {
        let t = s.drop_last();
        lemma_keyed_map_index(t, key);
        assert forall|k: K| #[trigger] keyed_map(s, key).contains_key(k) <==> has_key(s, key, k) by {
            if has_key(s, key, k) {
                let i = choose|i: int| 0 <= i < s.len() && key(#[trigger] s[i]) == k;
                if i < s.len() - 1 {
                    assert(t[i] == s[i]);
                    assert(has_key(t, key, k));
                }
            }
            if has_key(t, key, k) {
                let i = choose|i: int| 0 <= i < t.len() && key(#[trigger] t[i]) == k;
                assert(s[i] == t[i]);
            }
            if k == key(s.last()) {
                assert(key(s[s.len() - 1]) == k);
            }
        }
        if unique_keys(s, key) {
            assert(unique_keys(t, key)) by {
                assert forall|i: int, j: int| 0 <= i < j < t.len() implies key(#[trigger] t[i]) != key(
                    #[trigger] t[j],
                ) by {
                    assert(t[i] == s[i] && t[j] == s[j]);
                }
            }
            assert forall|i: int| 0 <= i < s.len() implies #[trigger] keyed_map(s, key)[key(s[i])]
                == s[i] by {
                if i < s.len() - 1 {
                    assert(t[i] == s[i]);
                    assert(key(s[i]) != key(s[s.len() - 1]));
                }
            }
        }
    }
}

/// Appending a record with a new key adds that key to the map.
pub proof fn lemma_keyed_push<K, V>(s: Seq<V>, key: spec_fn(V) -> K, x: V)
    requires
        unique_keys(s, key),
        !has_key(s, key, key(x)),
    ensures
        unique_keys(s.push(x), key),
        keyed_map(s.push(x), key) == keyed_map(s, key).insert(key(x), x),
{
    let t = s.push(x);
    assert(t.drop_last() =~= s);
    assert forall|i: int, j: int| 0 <= i < j < t.len() implies key(#[trigger] t[i]) != key(
        #[trigger] t[j],
    ) by {
        assert(t[i] == s[i]);
        if j == s.len() {
            if key(s[i]) == key(x) {
                assert(has_key(s, key, key(x)));
            }
        } else {
            assert(t[j] == s[j]);
        }
    }
}

/// Replacing a record by one with the same key replaces the map's entry.
pub proof fn lemma_keyed_update<K, V>(s: Seq<V>, key: spec_fn(V) -> K, i: int, x: V)
    requires
        unique_keys(s, key),
        0 <= i < s.len(),
        key(x) == key(s[i]),
    ensures
        unique_keys(s.update(i, x), key),
        keyed_map(s.update(i, x), key) == keyed_map(s, key).insert(key(x), x),
    decreases s.len(),
{
    let t = s.update(i, x);
    assert forall|a: int, b: int| 0 <= a < b < t.len() implies key(#[trigger] t[a]) != key(
        #[trigger] t[b],
    ) by {
        assert(key(t[a]) == key(s[a]));
        assert(key(t[b]) == key(s[b]));
    }
    if i == s.len() - 1 {
        assert(t.drop_last() =~= s.drop_last());
        assert(keyed_map(s, key) == keyed_map(s.drop_last(), key).insert(key(s.last()), s.last()));
        assert(keyed_map(t, key) =~= keyed_map(s, key).insert(key(x), x));
    } else {
        let s0 = s.drop_last();
        assert(unique_keys(s0, key)) by {
            assert forall|a: int, b: int| 0 <= a < b < s0.len() implies key(#[trigger] s0[a]) != key(
                #[trigger] s0[b],
            ) by {
                assert(s0[a] == s[a] && s0[b] == s[b]);
            }
        }
        lemma_keyed_update(s0, key, i, x);
        assert(t.drop_last() =~= s0.update(i, x));
        assert(t.last() == s.last());
        assert(key(s.last()) != key(x)) by {
            assert(key(s[s.len() - 1]) != key(s[i]));
        }
        assert(keyed_map(t, key) =~= keyed_map(s, key).insert(key(x), x));
    }
}

/// Removing a record removes its key from the map.
pub proof fn lemma_keyed_remove<K, V>(s: Seq<V>, key: spec_fn(V) -> K, i: int)
    requires
        unique_keys(s, key),
        0 <= i < s.len(),
    ensures
        unique_keys(s.remove(i), key),
        keyed_map(s.remove(i), key) == keyed_map(s, key).remove(key(s[i])),
    decreases s.len(),
{
    let t = s.remove(i);
    assert forall|a: int, b: int| 0 <= a < b < t.len() implies key(#[trigger] t[a]) != key(
        #[trigger] t[b],
    ) by {
        let a2 = if a < i { a } else { a + 1 };
        let b2 = if b < i { b } else { b + 1 };
        assert(t[a] == s[a2] && t[b] == s[b2]);
    }
    let s0 = s.drop_last();
    assert(unique_keys(s0, key)) by {
        assert forall|a: int, b: int| 0 <= a < b < s0.len() implies key(#[trigger] s0[a]) != key(
            #[trigger] s0[b],
        ) by {
            assert(s0[a] == s[a] && s0[b] == s[b]);
        }
    }
    lemma_keyed_map_index(s0, key);
    if i == s.len() - 1 {
        assert(t =~= s0);
        assert(!has_key(s0, key, key(s[i]))) by {
            if has_key(s0, key, key(s[i])) {
                let a = choose|a: int| 0 <= a < s0.len() && key(#[trigger] s0[a]) == key(s[i]);
                assert(s0[a] == s[a]);
            }
        }
        assert(keyed_map(t, key) =~= keyed_map(s, key).remove(key(s[i])));
    } else {
        lemma_keyed_remove(s0, key, i);
        assert(t.drop_last() =~= s0.remove(i));
        assert(t.last() == s.last());
        assert(key(s.last()) != key(s[i])) by {
            assert(key(s[s.len() - 1]) != key(s[i]));
        }
        assert(keyed_map(t, key) =~= keyed_map(s, key).remove(key(s[i])));
    }
}

/// The map of a prefix one record longer adds that record.
pub proof fn lemma_keyed_take_step<K, V>(s: Seq<V>, key: spec_fn(V) -> K, i: int)
    requires
        0 <= i < s.len(),
    ensures
        keyed_map(s.take(i + 1), key) == keyed_map(s.take(i), key).insert(key(s[i]), s[i]),
{
    assert(s.take(i + 1).drop_last() =~= s.take(i));
}

/// With distinct keys, the map has one entry per record.
pub proof fn lemma_keyed_len<K, V>(s: Seq<V>, key: spec_fn(V) -> K)
    requires
        unique_keys(s, key),
    ensures
        keyed_map(s, key).dom().len() == s.len(),
    decreases s.len(),
{
    if s.len() > 0 {
        let t = s.drop_last();
        assert(unique_keys(t, key)) by {
            assert forall|a: int, b: int| 0 <= a < b < t.len() implies key(#[trigger] t[a]) != key(
                #[trigger] t[b],
            ) by {
                assert(t[a] == s[a] && t[b] == s[b]);
            }
        }
        lemma_keyed_len(t, key);
        lemma_keyed_map_index(t, key);
        assert(!keyed_map(t, key).contains_key(key(s.last()))) by {
            if has_key(t, key, key(s.last())) {
                let a = choose|a: int| 0 <= a < t.len() && key(#[trigger] t[a]) == key(s.last());
                assert(t[a] == s[a]);
                assert(key(s[a]) != key(s[s.len() - 1]));
            }
        }
    }
}

/// The entries of `m` whose record satisfies `p`.
pub open spec fn filter_map<K, V>(m: Map<K, V>, p: spec_fn(V) -> bool) -> Map<K, V> {
    Map::new(|k: K| m.contains_key(k) && p(m[k]), |k: K| m[k])
}

/// One step of copying the records that satisfy `p` out of `s`, front to back:
/// if `out` holds the selected records of the first `i` records, then after
/// looking at record `i` (and appending it when selected) it holds those of
/// the first `i + 1`.
pub proof fn lemma_filter_step<K, V>(
    s: Seq<V>,
    key: spec_fn(V) -> K,
    p: spec_fn(V) -> bool,
    out: Seq<V>,
    i: int,
)
    requires
        unique_keys(s, key),
        unique_keys(out, key),
        0 <= i < s.len(),
        keyed_map(out, key) == filter_map(keyed_map(s.take(i), key), p),
    ensures
        p(s[i]) ==> unique_keys(out.push(s[i]), key) && keyed_map(out.push(s[i]), key)
            == filter_map(keyed_map(s.take(i + 1), key), p),
        !p(s[i]) ==> keyed_map(out, key) == filter_map(keyed_map(s.take(i + 1), key), p),
{
    let t = s.take(i);
    lemma_keyed_take_step(s, key, i);
    lemma_keyed_map_index(t, key);
    lemma_keyed_map_index(out, key);
    assert(!has_key(t, key, key(s[i]))) by {
        if has_key(t, key, key(s[i])) {
            let a = choose|a: int| 0 <= a < t.len() && key(#[trigger] t[a]) == key(s[i]);
            assert(t[a] == s[a]);
        }
    }
    if p(s[i]) {
        assert(!has_key(out, key, key(s[i]))) by {
            if has_key(out, key, key(s[i])) {
                assert(keyed_map(out, key).contains_key(key(s[i])));
            }
        }
        lemma_keyed_push(out, key, s[i]);
        assert(keyed_map(out.push(s[i]), key) =~= filter_map(keyed_map(s.take(i + 1), key), p));
    } else {
        assert(keyed_map(out, key) =~= filter_map(keyed_map(s.take(i + 1), key), p));
    }
}

/// Applying a key-preserving change to every record changes every entry of the map.
pub proof fn lemma_keyed_map_all<K, V>(s0: Seq<V>, s1: Seq<V>, key: spec_fn(V) -> K, f: spec_fn(V) -> V)
    requires
        unique_keys(s0, key),
        s1.len() == s0.len(),
        forall|j: int| 0 <= j < s0.len() ==> #[trigger] s1[j] == f(s0[j]) && key(s1[j]) == key(s0[j]),
    ensures
        unique_keys(s1, key),
        keyed_map(s1, key) == Map::new(
            |k: K| keyed_map(s0, key).contains_key(k),
            |k: K| f(keyed_map(s0, key)[k]),
        ),
{
    assert forall|a: int, b: int| 0 <= a < b < s1.len() implies key(#[trigger] s1[a]) != key(
        #[trigger] s1[b],
    ) by {
        assert(key(s0[a]) != key(s0[b]));
    }
    lemma_keyed_map_index(s0, key);
    lemma_keyed_map_index(s1, key);
    let target = Map::new(|k: K| keyed_map(s0, key).contains_key(k), |k: K| f(keyed_map(s0, key)[k]));
    assert forall|k: K| #[trigger] keyed_map(s1, key).contains_key(k) <==> target.contains_key(k) by {
        if has_key(s1, key, k) {
            let j = choose|j: int| 0 <= j < s1.len() && key(#[trigger] s1[j]) == k;
            assert(key(s0[j]) == k);
            assert(has_key(s0, key, k));
        }
        if has_key(s0, key, k) {
            let j = choose|j: int| 0 <= j < s0.len() && key(#[trigger] s0[j]) == k;
            assert(key(s1[j]) == k);
            assert(has_key(s1, key, k));
        }
    }
    assert forall|k: K| #[trigger] keyed_map(s1, key).contains_key(k) implies keyed_map(s1, key)[k]
        == target[k] by {
        let j = choose|j: int| 0 <= j < s1.len() && key(#[trigger] s1[j]) == k;
        assert(keyed_map(s1, key)[key(s1[j])] == s1[j]);
        assert(keyed_map(s0, key)[key(s0[j])] == s0[j]);
    }
    assert(keyed_map(s1, key) =~= target);
}

/// The key of a pair record: its first component.
pub open spec fn first_key<K, V>() -> spec_fn((K, V)) -> K {
    |p: (K, V)| p.0
}

/// The position of the first pair whose first component is `k`, if any.
pub fn find_u64<V>(v: &Vec<(u64, V)>, k: u64) -> (r: Option<usize>)
    ensures
        match r {
            Some(i) => i < v.len() && v@[i as int].0 == k,
            None => forall|j: int| 0 <= j < v.len() ==> #[trigger] v@[j].0 != k,
        },
{
    let n = v.len();
    let mut i: usize = 0;
    while i < n
        invariant
            n == v.len(),
            i <= n,
            forall|j: int| 0 <= j < i ==> #[trigger] v@[j].0 != k,
        decreases n - i,
    {
        if v[i].0 == k {
            return Some(i);
        }
        i = i + 1;
    }
    None
}

/// Two sequences with distinct keys that hold the same records stand for the
/// same map.
pub proof fn lemma_keyed_same_elements<K, V>(s: Seq<V>, t: Seq<V>, key: spec_fn(V) -> K)
    requires
        unique_keys(s, key),
        unique_keys(t, key),
        forall|x: V| #[trigger] s.contains(x) <==> t.contains(x),
    ensures
        keyed_map(s, key) == keyed_map(t, key),
{
    lemma_keyed_map_index(s, key);
    lemma_keyed_map_index(t, key);
    assert forall|k: K| #[trigger] keyed_map(s, key).contains_key(k) implies keyed_map(t, key).contains_key(k)
        && keyed_map(s, key)[k] == keyed_map(t, key)[k] by {
        let i = choose|i: int| 0 <= i < s.len() && key(#[trigger] s[i]) == k;
        assert(s.contains(s[i]));
        let j = choose|j: int| 0 <= j < t.len() && t[j] == s[i];
        assert(key(t[j]) == k);
        assert(has_key(t, key, k));
    }
    assert forall|k: K| #[trigger] keyed_map(t, key).contains_key(k) implies keyed_map(s, key).contains_key(k) by {
        let j = choose|j: int| 0 <= j < t.len() && key(#[trigger] t[j]) == k;
        assert(t.contains(t[j]));
        assert(s.contains(t[j]));
        let i = choose|i: int| 0 <= i < s.len() && s[i] == t[j];
        assert(key(s[i]) == k);
        assert(has_key(s, key, k));
    }
    assert(keyed_map(s, key) =~= keyed_map(t, key));
}

} // verus!
