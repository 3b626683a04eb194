//! Association lists in specifications: a sequence of key and value pairs,
//! read as the map it stands for.
//!
//! The collections of this crate keep their contents in vectors of pairs
//! whose keys are pairwise different. The functions here say which map such
//! a sequence denotes, and the lemmas relate the map to single positions of
//! the sequence.
use vstd::prelude::*;

verus! {

/// No key stands at two positions of `pairs`.
pub open spec fn distinct_keys<K, V>(pairs: Seq<(K, V)>) -> bool {
    forall|i: int, j: int| 0 <= i < j < pairs.len() ==> pairs[i].0 != pairs[j].0
}

/// `key` stands at some position of `pairs`.
pub open spec fn has_key<K, V>(pairs: Seq<(K, V)>, key: K) -> bool {
    exists|i: int| 0 <= i < pairs.len() && pairs[i].0 == key
}

/// A position of `pairs` that holds `key`, if there is one.
pub open spec fn index_of<K, V>(pairs: Seq<(K, V)>, key: K) -> int {
    choose|i: int| 0 <= i < pairs.len() && pairs[i].0 == key
}

/// The map that `pairs` stands for: each key with the value beside it.
pub open spec fn as_map<K, V>(pairs: Seq<(K, V)>) -> Map<K, V> {
    Map::new(|key: K| has_key(pairs, key), |key: K| pairs[index_of(pairs, key)].1)
}

/// With distinct keys, the pair at position `i` is what the map holds for
/// its key.
pub proof fn lemma_entry<K, V>(pairs: Seq<(K, V)>, i: int)
    requires
        distinct_keys(pairs),
        0 <= i < pairs.len(),
    ensures
        has_key(pairs, pairs[i].0),
        index_of(pairs, pairs[i].0) == i,
        as_map(pairs).contains_key(pairs[i].0),
        as_map(pairs)[pairs[i].0] == pairs[i].1,
{
    let key = pairs[i].0;
    let j = index_of(pairs, key);
    assert(0 <= j < pairs.len() && pairs[j].0 == key);
    if j < i {
        assert(pairs[j].0 != pairs[i].0);
    } else if i < j {
        assert(pairs[i].0 != pairs[j].0);
    }
}

/// A key of the map stands at a position of the sequence.
pub proof fn lemma_index<K, V>(pairs: Seq<(K, V)>, key: K)
    requires
        has_key(pairs, key),
    ensures
        0 <= index_of(pairs, key) < pairs.len(),
        pairs[index_of(pairs, key)].0 == key,
        as_map(pairs)[key] == pairs[index_of(pairs, key)].1,
{
}

/// The empty sequence stands for the empty map.
pub proof fn lemma_empty<K, V>()
    ensures
        distinct_keys(Seq::<(K, V)>::empty()),
        as_map(Seq::<(K, V)>::empty()) == Map::<K, V>::empty(),
{
    assert(as_map(Seq::<(K, V)>::empty()) =~= Map::<K, V>::empty());
}

/// Appending a pair with a new key inserts it into the map.
pub proof fn lemma_push<K, V>(pairs: Seq<(K, V)>, key: K, value: V)
    requires
        distinct_keys(pairs),
        !has_key(pairs, key),
    ensures
        distinct_keys(pairs.push((key, value))),
        as_map(pairs.push((key, value))) == as_map(pairs).insert(key, value),
{
    let after = pairs.push((key, value));
    assert forall|i: int, j: int| 0 <= i < j < after.len() implies after[i].0 != after[j].0 by {
        if j == pairs.len() {
            assert(pairs[i].0 != key);
        } else {
            assert(pairs[i].0 != pairs[j].0);
        }
    }
    assert forall|k: K| #[trigger] as_map(after).contains_key(k) <==> as_map(pairs).insert(key, value).contains_key(k) by {
        if has_key(after, k) {
            let i = index_of(after, k);
            if i < pairs.len() {
                assert(pairs[i].0 == k);
            }
        }
        if has_key(pairs, k) {
            let i = index_of(pairs, k);
            assert(after[i].0 == k);
        }
        if k == key {
            assert(after[pairs.len() as int].0 == k);
        }
    }
    assert forall|k: K| #[trigger] as_map(after).contains_key(k) implies as_map(after)[k] == as_map(pairs).insert(key, value)[k] by {
        let i = index_of(after, k);
        lemma_entry(after, i);
        if i < pairs.len() {
            lemma_entry(pairs, i);
        }
    }
    assert(as_map(after) =~= as_map(pairs).insert(key, value));
}

/// Replacing the value at position `i` replaces it in the map.
pub proof fn lemma_update<K, V>(pairs: Seq<(K, V)>, i: int, value: V)
    requires
        distinct_keys(pairs),
        0 <= i < pairs.len(),
    ensures
        distinct_keys(pairs.update(i, (pairs[i].0, value))),
        as_map(pairs.update(i, (pairs[i].0, value))) == as_map(pairs).insert(pairs[i].0, value),
{
    let key = pairs[i].0;
    let after = pairs.update(i, (key, value));
    assert forall|a: int, b: int| 0 <= a < b < after.len() implies after[a].0 != after[b].0 by {
        assert(pairs[a].0 != pairs[b].0);
    }
    assert forall|k: K| #[trigger] as_map(after).contains_key(k) <==> as_map(pairs).insert(key, value).contains_key(k) by {
        if has_key(after, k) {
            let a = index_of(after, k);
            assert(pairs[a].0 == k);
        }
        if has_key(pairs, k) {
            let a = index_of(pairs, k);
            assert(after[a].0 == k);
        }
        if k == key {
            assert(after[i].0 == k);
        }
    }
    assert forall|k: K| #[trigger] as_map(after).contains_key(k) implies as_map(after)[k] == as_map(pairs).insert(key, value)[k] by {
        let a = index_of(after, k);
        lemma_entry(after, a);
        lemma_entry(pairs, a);
    }
    assert(as_map(after) =~= as_map(pairs).insert(key, value));
}

/// With distinct keys, the map has as many keys as the sequence has pairs.
pub proof fn lemma_len<K, V>(pairs: Seq<(K, V)>)
    requires
        distinct_keys(pairs),
    ensures
        as_map(pairs).dom().finite(),
        as_map(pairs).dom().len() == pairs.len(),
{
    let keys = Seq::new(pairs.len(), |i: int| pairs[i].0);
    assert forall|k: K| as_map(pairs).dom().contains(k) <==> keys.to_set().contains(k) by {
        if has_key(pairs, k) {
            let i = index_of(pairs, k);
            assert(keys[i] == k);
        }
        if keys.contains(k) {
            let i = choose|i: int| 0 <= i < keys.len() && keys[i] == k;
            assert(pairs[i].0 == k);
        }
    }
    assert(as_map(pairs).dom() =~= keys.to_set());
    assert forall|i: int, j: int| 0 <= i < keys.len() && 0 <= j < keys.len() && i != j implies keys[i]
        != keys[j] by {
        if i < j {
            assert(pairs[i].0 != pairs[j].0);
        } else {
            assert(pairs[j].0 != pairs[i].0);
        }
    }
    keys.unique_seq_to_set();
    vstd::seq_lib::seq_to_set_is_finite(keys);
}

/// A key that stands at no position is no key of the map.
pub proof fn lemma_absent<K, V>(pairs: Seq<(K, V)>, key: K)
    requires
        forall|i: int| 0 <= i < pairs.len() ==> pairs[i].0 != key,
    ensures
        !has_key(pairs, key),
        !as_map(pairs).contains_key(key),
{
}

} // verus!
