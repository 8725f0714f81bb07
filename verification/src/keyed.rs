//! Keyed vectors: a vector whose elements carry distinct keys, viewed as a map.
//!
//! The coordinator keeps its per-instance and per-chain tables as vectors with
//! distinct keys; these definitions and lemmas relate them to `Map` views.

use vstd::prelude::*;

verus! {

broadcast use vstd::seq::group_seq_axioms;

/// No two elements of `s` share a key.
pub open spec fn keys_distinct<T, K>(s: Seq<T>, key: spec_fn(T) -> K) -> bool {
    forall|i: int, j: int|
        #![trigger key(s[i]), key(s[j])]
        0 <= i < s.len() && 0 <= j < s.len() && i != j ==> key(s[i]) != key(s[j])
}

/// Some element of `s` has key `k`.
pub open spec fn has_key<T, K>(s: Seq<T>, key: spec_fn(T) -> K, k: K) -> bool {
    exists|i: int| 0 <= i < s.len() && #[trigger] key(s[i]) == k
}

/// The map from each key to the element that carries it.
pub open spec fn keyed_map<T, K>(s: Seq<T>, key: spec_fn(T) -> K) -> Map<K, T> {
    Map::new(
        |k: K| has_key(s, key, k),
        |k: K| s[choose|i: int| 0 <= i < s.len() && #[trigger] key(s[i]) == k],
    )
}

pub proof fn lemma_keyed_at<T, K>(s: Seq<T>, key: spec_fn(T) -> K, i: int)
    requires
        keys_distinct(s, key),
        0 <= i < s.len(),
    ensures
        keyed_map(s, key).dom().contains(key(s[i])),
        keyed_map(s, key)[key(s[i])] == s[i],
{
    let k = key(s[i]);
    assert(has_key(s, key, k));
    let j = choose|j: int| 0 <= j < s.len() && #[trigger] key(s[j]) == k;
    assert(key(s[j]) == key(s[i]));
}

/// Two elements with the same key are the same element.
pub proof fn lemma_keyed_same<T, K>(s: Seq<T>, key: spec_fn(T) -> K, i: int, j: int)
    requires
        keys_distinct(s, key),
        0 <= i < s.len(),
        0 <= j < s.len(),
        key(s[i]) == key(s[j]),
    ensures
        i == j,
{
}

pub proof fn lemma_keyed_index<T, K>(s: Seq<T>, key: spec_fn(T) -> K, k: K) -> (i: int)
    requires
        keys_distinct(s, key),
        keyed_map(s, key).dom().contains(k),
    ensures
        0 <= i < s.len(),
        key(s[i]) == k,
        keyed_map(s, key)[k] == s[i],
{
    let i = choose|i: int| 0 <= i < s.len() && #[trigger] key(s[i]) == k;
    lemma_keyed_at(s, key, i);
    i
}

pub proof fn lemma_keyed_update<T, K>(s: Seq<T>, key: spec_fn(T) -> K, i: int, x: T)
    requires
        keys_distinct(s, key),
        0 <= i < s.len(),
        key(x) == key(s[i]),
    ensures
        keys_distinct(s.update(i, x), key),
        keyed_map(s.update(i, x), key) =~= keyed_map(s, key).insert(key(x), x),
{
    let t = s.update(i, x);
    assert forall|a: int, b: int|
        #![trigger key(t[a]), key(t[b])]
        0 <= a < t.len() && 0 <= b < t.len() && a != b implies key(t[a]) != key(t[b]) by {
        assert(key(t[a]) == key(s[a]));
        assert(key(t[b]) == key(s[b]));
    }
    assert forall|k: K| #[trigger] keyed_map(t, key).dom().contains(k) implies keyed_map(
        s,
        key,
    ).insert(key(x), x).dom().contains(k) && keyed_map(t, key)[k] == keyed_map(s, key).insert(
        key(x),
        x,
    )[k] by {
        let j = lemma_keyed_index(t, key, k);
        if j != i {
            assert(t[j] == s[j]);
            lemma_keyed_at(s, key, j);
        }
    }
    assert forall|k: K| #[trigger] keyed_map(s, key).insert(key(x), x).dom().contains(k) implies keyed_map(
        t,
        key,
    ).dom().contains(k) by {
        if k == key(x) {
            lemma_keyed_at(t, key, i);
        } else {
            let j = lemma_keyed_index(s, key, k);
            assert(t[j] == s[j]);
            lemma_keyed_at(t, key, j);
        }
    }
}

pub proof fn lemma_keyed_push<T, K>(s: Seq<T>, key: spec_fn(T) -> K, x: T)
    requires
        keys_distinct(s, key),
        !keyed_map(s, key).dom().contains(key(x)),
    ensures
        keys_distinct(s.push(x), key),
        keyed_map(s.push(x), key) =~= keyed_map(s, key).insert(key(x), x),
{
    let t = s.push(x);
    assert forall|a: int, b: int|
        #![trigger key(t[a]), key(t[b])]
        0 <= a < t.len() && 0 <= b < t.len() && a != b implies key(t[a]) != key(t[b]) by {
        if a == s.len() {
            assert(t[b] == s[b]);
            if key(s[b]) == key(x) {
                lemma_keyed_at(s, key, b);
            }
        } else if b == s.len() {
            assert(t[a] == s[a]);
            if key(s[a]) == key(x) {
                lemma_keyed_at(s, key, a);
            }
        } else {
            assert(t[a] == s[a]);
            assert(t[b] == s[b]);
        }
    }
    assert forall|k: K| #[trigger] keyed_map(t, key).dom().contains(k) implies keyed_map(
        s,
        key,
    ).insert(key(x), x).dom().contains(k) && keyed_map(t, key)[k] == keyed_map(s, key).insert(
        key(x),
        x,
    )[k] by {
        let j = lemma_keyed_index(t, key, k);
        if j < s.len() {
            assert(t[j] == s[j]);
            lemma_keyed_at(s, key, j);
        }
    }
    assert forall|k: K| #[trigger] keyed_map(s, key).insert(key(x), x).dom().contains(k) implies keyed_map(
        t,
        key,
    ).dom().contains(k) by {
        if k == key(x) {
            lemma_keyed_at(t, key, s.len() as int);
        } else {
            let j = lemma_keyed_index(s, key, k);
            assert(t[j] == s[j]);
            lemma_keyed_at(t, key, j);
        }
    }
}

pub proof fn lemma_keyed_remove<T, K>(s: Seq<T>, key: spec_fn(T) -> K, i: int)
    requires
        keys_distinct(s, key),
        0 <= i < s.len(),
    ensures
        keys_distinct(s.remove(i), key),
        keyed_map(s.remove(i), key) =~= keyed_map(s, key).remove(key(s[i])),
{
    let t = s.remove(i);
    assert forall|a: int, b: int|
        #![trigger key(t[a]), key(t[b])]
        0 <= a < t.len() && 0 <= b < t.len() && a != b implies key(t[a]) != key(t[b]) by {
        let a2 = if a < i { a } else { a + 1 };
        let b2 = if b < i { b } else { b + 1 };
        assert(t[a] == s[a2]);
        assert(t[b] == s[b2]);
    }
    assert forall|k: K| #[trigger] keyed_map(t, key).dom().contains(k) implies keyed_map(
        s,
        key,
    ).remove(key(s[i])).dom().contains(k) && keyed_map(t, key)[k] == keyed_map(s, key).remove(
        key(s[i]),
    )[k] by {
        let j = lemma_keyed_index(t, key, k);
        let j2 = if j < i { j } else { j + 1 };
        assert(t[j] == s[j2]);
        lemma_keyed_at(s, key, j2);
    }
    assert forall|k: K| #[trigger] keyed_map(s, key).remove(key(s[i])).dom().contains(k) implies keyed_map(
        t,
        key,
    ).dom().contains(k) by {
        let j = lemma_keyed_index(s, key, k);
        assert(j != i);
        let j2 = if j < i { j } else { j - 1 };
        assert(t[j2] == s[j]);
        lemma_keyed_at(t, key, j2);
    }
}

pub proof fn lemma_keyed_absent<T, K>(s: Seq<T>, key: spec_fn(T) -> K, k: K)
    requires
        forall|i: int| 0 <= i < s.len() ==> #[trigger] key(s[i]) != k,
    ensures
        !keyed_map(s, key).dom().contains(k),
{
}

pub proof fn lemma_keyed_empty<T, K>(key: spec_fn(T) -> K)
    ensures
        keys_distinct(Seq::<T>::empty(), key),
        keyed_map(Seq::<T>::empty(), key) =~= Map::<K, T>::empty(),
{
}

/// Mapping every element by a key-preserving function maps the view pointwise.
pub proof fn lemma_keyed_map_values<T, K>(s: Seq<T>, key: spec_fn(T) -> K, f: spec_fn(T) -> T)
    requires
        keys_distinct(s, key),
        forall|i: int| 0 <= i < s.len() ==> key(#[trigger] f(s[i])) == key(s[i]),
    ensures
        keys_distinct(s.map_values(f), key),
        keyed_map(s.map_values(f), key) =~= Map::new(
            |k: K| keyed_map(s, key).dom().contains(k),
            |k: K| f(keyed_map(s, key)[k]),
        ),
{
    let t = s.map_values(f);
    assert forall|a: int, b: int|
        #![trigger key(t[a]), key(t[b])]
        0 <= a < t.len() && 0 <= b < t.len() && a != b implies key(t[a]) != key(t[b]) by {
        assert(t[a] == f(s[a]));
        assert(t[b] == f(s[b]));
    }
    let target = Map::new(|k: K| keyed_map(s, key).dom().contains(k), |k: K| f(keyed_map(s, key)[k]));
    assert forall|k: K| #[trigger] keyed_map(t, key).dom().contains(k) implies target.dom().contains(k)
        && keyed_map(t, key)[k] == target[k] by {
        let j = lemma_keyed_index(t, key, k);
        assert(t[j] == f(s[j]));
        lemma_keyed_at(s, key, j);
    }
    assert forall|k: K| #[trigger] target.dom().contains(k) implies keyed_map(t, key).dom().contains(k) by {
        let j = lemma_keyed_index(s, key, k);
        assert(t[j] == f(s[j]));
        lemma_keyed_at(t, key, j);
    }
}

/// A table with distinct keys has as many keys as elements.
pub proof fn lemma_keyed_len<T, K>(s: Seq<T>, key: spec_fn(T) -> K)
    requires
        keys_distinct(s, key),
    ensures
        keyed_map(s, key).dom().finite(),
        keyed_map(s, key).dom().len() == s.len(),
    decreases s.len(),
{
    if s.len() == 0 {
        assert(keyed_map(s, key).dom() =~= Set::<K>::empty());
    } else {
        let r = s.drop_last();
        assert(keys_distinct(r, key)) by {
            assert forall|a: int, b: int|
                #![trigger key(r[a]), key(r[b])]
                0 <= a < r.len() && 0 <= b < r.len() && a != b implies key(r[a]) != key(r[b]) by {
                assert(r[a] == s[a]);
                assert(r[b] == s[b]);
            }
        }
        lemma_keyed_len(r, key);
        assert(!keyed_map(r, key).dom().contains(key(s.last()))) by {
            if keyed_map(r, key).dom().contains(key(s.last())) {
                let j = lemma_keyed_index(r, key, key(s.last()));
                assert(r[j] == s[j]);
            }
        }
        lemma_keyed_push(r, key, s.last());
        assert(r.push(s.last()) =~= s);
    }
}

} // verus!
