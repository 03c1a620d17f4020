//! Sequences of records with unique keys, read as finite maps.
//!
//! The caches and connection tables of the library keep their records in a
//! `Vec` in insertion order; these spec functions and lemmas give such a
//! vector the meaning of a map from key to record.

use vstd::prelude::*;

verus! {

/// No two records of `s` share a key.
pub open spec fn keys_unique<T, K>(s: Seq<T>, key: spec_fn(T) -> K) -> bool {
    forall|i: int, j: int| 0 <= i < s.len() && 0 <= j < s.len() && i != j ==> key(s[i]) != key(s[j])
}

/// The map from each record's key to the record (later records win).
pub open spec fn to_map<T, K>(s: Seq<T>, key: spec_fn(T) -> K) -> Map<K, T>
    decreases s.len(),
{
    if s.len() == 0 {
        Map::empty()
    } else {
        to_map(s.drop_last(), key).insert(key(s.last()), s.last())
    }
}

/// Index of the record with key `k`, or -1.
pub open spec fn index_of<T, K>(s: Seq<T>, key: spec_fn(T) -> K, k: K) -> int
    decreases s.len(),
{
    if s.len() == 0 {
        -1
    } else if key(s.last()) == k {
        s.len() - 1
    } else {
        index_of(s.drop_last(), key, k)
    }
}

pub proof fn lemma_index_of<T, K>(s: Seq<T>, key: spec_fn(T) -> K, k: K)
    ensures
        -1 <= index_of(s, key, k) < s.len(),
        index_of(s, key, k) >= 0 ==> key(s[index_of(s, key, k)]) == k,
        index_of(s, key, k) == -1 ==> forall|i: int| 0 <= i < s.len() ==> key(s[i]) != k,
        to_map(s, key).dom().contains(k) <==> index_of(s, key, k) >= 0,
        index_of(s, key, k) >= 0 && keys_unique(s, key) ==> to_map(s, key)[k] == s[index_of(
            s,
            key,
            k,
        )],
        keys_unique(s, key) ==> forall|i: int|
            0 <= i < s.len() && key(s[i]) == k ==> i == index_of(s, key, k),
    decreases s.len(),
{
    if s.len() > 0 {
        let p = s.drop_last();
        lemma_index_of(p, key, k);
        assert forall|i: int| 0 <= i < p.len() implies #[trigger] p[i] == s[i] by {}
        if keys_unique(s, key) {
            assert(keys_unique(p, key));
            assert forall|i: int| 0 <= i < s.len() && key(s[i]) == k implies i == index_of(
                s,
                key,
                k,
            ) by {
                if i < p.len() {
                    assert(key(p[i]) == k);
                }
            }
        }
        if index_of(s, key, k) == -1 {
            assert forall|i: int| 0 <= i < s.len() implies key(s[i]) != k by {
                if i < p.len() {
                    assert(key(p[i]) != k);
                }
            }
        }
    }
}

pub proof fn lemma_map_dom<T, K>(s: Seq<T>, key: spec_fn(T) -> K, i: int)
    requires
        0 <= i < s.len(),
        keys_unique(s, key),
    ensures
        to_map(s, key).dom().contains(key(s[i])),
        to_map(s, key)[key(s[i])] == s[i],
{
    lemma_index_of(s, key, key(s[i]));
}

/// Replacing a record by one with the same key updates the map at that key.
pub proof fn lemma_update<T, K>(s: Seq<T>, key: spec_fn(T) -> K, i: int, e: T)
    requires
        0 <= i < s.len(),
        keys_unique(s, key),
        key(e) == key(s[i]),
    ensures
        keys_unique(s.update(i, e), key),
        to_map(s.update(i, e), key) == to_map(s, key).insert(key(e), e),
    decreases s.len(),
{
    let t = s.update(i, e);
    assert forall|a: int, b: int| 0 <= a < t.len() && 0 <= b < t.len() && a != b implies key(t[a])
        != key(t[b]) by {
        assert(key(t[a]) == key(s[a]));
        assert(key(t[b]) == key(s[b]));
    }
    if i == s.len() - 1 {
        assert(t.drop_last() =~= s.drop_last());
        assert(to_map(t, key) == to_map(s, key).insert(key(e), e));
    } else {
        let p = s.drop_last();
        assert(keys_unique(p, key));
        lemma_update(p, key, i, e);
        assert(t.drop_last() =~= p.update(i, e));
        assert(key(s.last()) != key(e));
        assert(to_map(t, key) =~= to_map(s, key).insert(key(e), e));
    }
}

/// Appending a record with a fresh key adds it to the map.
pub proof fn lemma_push<T, K>(s: Seq<T>, key: spec_fn(T) -> K, e: T)
    requires
        keys_unique(s, key),
        !to_map(s, key).dom().contains(key(e)),
    ensures
        keys_unique(s.push(e), key),
        to_map(s.push(e), key) == to_map(s, key).insert(key(e), e),
{
    lemma_index_of(s, key, key(e));
    let t = s.push(e);
    assert(t.drop_last() =~= s);
    assert forall|a: int, b: int| 0 <= a < t.len() && 0 <= b < t.len() && a != b implies key(t[a])
        != key(t[b]) by {
        if a < s.len() && b < s.len() {
            assert(t[a] == s[a] && t[b] == s[b]);
        } else if a < s.len() {
            assert(t[a] == s[a]);
        } else {
            assert(t[b] == s[b]);
        }
    }
}

/// Removing a record removes its key from the map.
pub proof fn lemma_remove<T, K>(s: Seq<T>, key: spec_fn(T) -> K, i: int)
    requires
        0 <= i < s.len(),
        keys_unique(s, key),
    ensures
        keys_unique(s.remove(i), key),
        to_map(s.remove(i), key) == to_map(s, key).remove(key(s[i])),
    decreases s.len(),
{
    let t = s.remove(i);
    assert forall|a: int, b: int| 0 <= a < t.len() && 0 <= b < t.len() && a != b implies key(t[a])
        != key(t[b]) by {
        let a2 = if a < i { a } else { a + 1 };
        let b2 = if b < i { b } else { b + 1 };
        assert(t[a] == s[a2]);
        assert(t[b] == s[b2]);
    }
    if i == s.len() - 1 {
        assert(t =~= s.drop_last());
        lemma_index_of(t, key, key(s[i]));
        assert(!to_map(t, key).dom().contains(key(s[i])));
        assert(to_map(t, key) =~= to_map(s, key).remove(key(s[i])));
    } else {
        let p = s.drop_last();
        assert(keys_unique(p, key));
        lemma_remove(p, key, i);
        assert(t.drop_last() =~= p.remove(i));
        assert(t.last() == s.last());
        assert(key(s.last()) != key(s[i]));
        assert(to_map(t, key) =~= to_map(s, key).remove(key(s[i])));
    }
}

/// Keeping only the records that satisfy `p`, in order.
pub proof fn lemma_filter_unique<T, K>(s: Seq<T>, key: spec_fn(T) -> K, p: spec_fn(T) -> bool)
    requires
        keys_unique(s, key),
    ensures
        keys_unique(s.filter(p), key),
        forall|k: K| #[trigger]
            to_map(s.filter(p), key).dom().contains(k) <==> to_map(s, key).dom().contains(k) && p(
                to_map(s, key)[k],
            ),
        forall|k: K| #[trigger]
            to_map(s.filter(p), key).dom().contains(k) ==> to_map(s.filter(p), key)[k] == to_map(
                s,
                key,
            )[k],
    decreases s.len(),
{
    reveal_with_fuel(Seq::filter, 1);
    if s.len() > 0 {
        let q = s.drop_last();
        assert(keys_unique(q, key));
        lemma_filter_unique(q, key, p);
        let fq = q.filter(p);
        lemma_index_of(q, key, key(s.last()));
        assert(!to_map(q, key).dom().contains(key(s.last())));
        if p(s.last()) {
            assert(s.filter(p) == fq.push(s.last()));
            assert(!to_map(fq, key).dom().contains(key(s.last())));
            lemma_push(fq, key, s.last());
        } else {
            assert(s.filter(p) == fq);
        }
    }
}

} // verus!
