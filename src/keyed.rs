//! A sequence of records with pairwise distinct keys, seen as a map from key
//! to value. The ARP cache and the set of reassembly buffers are kept so.

use vstd::prelude::*;

verus! {

/// No two records share a key.
pub open spec fn keys_unique<T, K>(s: Seq<T>, key: spec_fn(T) -> K) -> bool {
    forall|i: int, j: int| 0 <= i < s.len() && 0 <= j < s.len() && i != j ==> key(s[i]) != key(
        s[j],
    )
}

/// The map from each record's key to its value; a later record wins.
pub open spec fn keyed_map<T, K, V>(s: Seq<T>, key: spec_fn(T) -> K, val: spec_fn(T) -> V) -> Map<
    K,
    V,
>
    decreases s.len(),
{
    if s.len() == 0 {
        Map::empty()
    } else {
        keyed_map(s.drop_last(), key, val).insert(key(s.last()), val(s.last()))
    }
}

/// A key is in the map exactly when some record carries it, and with unique
/// keys it maps to that record's value.
pub proof fn lemma_keyed_map_index<T, K, V>(s: Seq<T>, key: spec_fn(T) -> K, val: spec_fn(T) -> V)
    ensures
        forall|k: K|
            #![trigger keyed_map(s, key, val).contains_key(k)]
            keyed_map(s, key, val).contains_key(k) <==> exists|i: int|
                0 <= i < s.len() && key(s[i]) == k,
        keys_unique(s, key) ==> forall|i: int|
            #![trigger s[i]]
            0 <= i < s.len() ==> keyed_map(s, key, val)[key(s[i])] == val(s[i]),
    decreases s.len(),
{
    if s.len() > 0 {
        let p = s.drop_last();
        lemma_keyed_map_index(p, key, val);
        assert forall|k: K|
            #![trigger keyed_map(s, key, val).contains_key(k)]
            keyed_map(s, key, val).contains_key(k) <==> exists|i: int|
                0 <= i < s.len() && key(s[i]) == k by {
            let mp = keyed_map(p, key, val);
            assert(keyed_map(s, key, val) == mp.insert(key(s.last()), val(s.last())));
            if keyed_map(s, key, val).contains_key(k) {
                if k == key(s.last()) {
                    assert(key(s[s.len() - 1]) == k);
                } else {
                    assert(mp.contains_key(k));
                    let i = choose|i: int| 0 <= i < p.len() && key(p[i]) == k;
                    assert(p[i] == s[i]);
                    assert(key(s[i]) == k);
                }
            }
            if exists|i: int| 0 <= i < s.len() && key(s[i]) == k {
                let i = choose|i: int| 0 <= i < s.len() && key(s[i]) == k;
                if i < s.len() - 1 {
                    assert(p[i] == s[i]);
                    assert(key(p[i]) == k);
                    assert(mp.contains_key(k));
                } else {
                    assert(k == key(s.last()));
                }
            }
        }
        if keys_unique(s, key) {
            assert(keys_unique(p, key)) by {
                assert forall|i: int, j: int|
                    0 <= i < p.len() && 0 <= j < p.len() && i != j implies key(p[i]) != key(
                        p[j],
                    ) by {
                    assert(p[i] == s[i] && p[j] == s[j]);
                }
            }
            assert forall|i: int| #![trigger s[i]] 0 <= i < s.len() implies keyed_map(
                s,
                key,
                val,
            )[key(s[i])] == val(s[i]) by {
                if i < s.len() - 1 {
                    assert(p[i] == s[i]);
                    assert(key(s[i]) != key(s[s.len() - 1]));
                }
            }
        }
    }
}

/// Appending a record inserts its key.
pub proof fn lemma_keyed_map_push<T, K, V>(
    s: Seq<T>,
    x: T,
    key: spec_fn(T) -> K,
    val: spec_fn(T) -> V,
)
    ensures
        keyed_map(s.push(x), key, val) == keyed_map(s, key, val).insert(key(x), val(x)),
        keys_unique(s, key) && !keyed_map(s, key, val).contains_key(key(x)) ==> keys_unique(
            s.push(x),
            key,
        ),
{
    assert(s.push(x).drop_last() =~= s);
    lemma_keyed_map_index(s, key, val);
    if keys_unique(s, key) && !keyed_map(s, key, val).contains_key(key(x)) {
        let t = s.push(x);
        assert forall|i: int, j: int|
            0 <= i < t.len() && 0 <= j < t.len() && i != j implies key(t[i]) != key(t[j]) by {
            if i < s.len() && j < s.len() {
                assert(t[i] == s[i] && t[j] == s[j]);
            } else if i < s.len() {
                assert(t[i] == s[i]);
            } else {
                assert(t[j] == s[j]);
            }
        }
    }
}

/// Removing the record at `i` removes its key.
pub proof fn lemma_keyed_map_remove<T, K, V>(
    s: Seq<T>,
    i: int,
    key: spec_fn(T) -> K,
    val: spec_fn(T) -> V,
)
    requires
        0 <= i < s.len(),
        keys_unique(s, key),
    ensures
        keyed_map(s.remove(i), key, val) == keyed_map(s, key, val).remove(key(s[i])),
        keys_unique(s.remove(i), key),
    decreases s.len(),
{
    let t = s.remove(i);
    let p = s.drop_last();
    assert forall|a: int, b: int|
        0 <= a < t.len() && 0 <= b < t.len() && a != b implies key(t[a]) != key(t[b]) by {
        let sa = if a < i { a } else { a + 1 };
        let sb = if b < i { b } else { b + 1 };
        assert(t[a] == s[sa] && t[b] == s[sb]);
    }
    assert(keys_unique(p, key)) by {
        assert forall|a: int, b: int|
            0 <= a < p.len() && 0 <= b < p.len() && a != b implies key(p[a]) != key(p[b]) by {
            assert(p[a] == s[a] && p[b] == s[b]);
        }
    }
    lemma_keyed_map_index(p, key, val);
    if i == s.len() - 1 {
        assert(t =~= p);
        assert(!keyed_map(p, key, val).contains_key(key(s[i]))) by {
            if keyed_map(p, key, val).contains_key(key(s[i])) {
                let j = choose|j: int| 0 <= j < p.len() && key(p[j]) == key(s[i]);
                assert(p[j] == s[j]);
            }
        }
        assert(keyed_map(s, key, val).remove(key(s[i])) =~= keyed_map(p, key, val));
    } else {
        lemma_keyed_map_remove(p, i, key, val);
        assert(t.drop_last() =~= p.remove(i));
        assert(t.last() == s.last());
        assert(p[i] == s[i]);
        assert(key(s[i]) != key(s.last()));
        assert(keyed_map(t, key, val) =~= keyed_map(s, key, val).remove(key(s[i])));
    }
}

/// Replacing the record at `i` by one with the same key sets that key's
/// value.
pub proof fn lemma_keyed_map_update<T, K, V>(
    s: Seq<T>,
    i: int,
    x: T,
    key: spec_fn(T) -> K,
    val: spec_fn(T) -> V,
)
    requires
        0 <= i < s.len(),
        keys_unique(s, key),
        key(x) == key(s[i]),
    ensures
        keyed_map(s.update(i, x), key, val) == keyed_map(s, key, val).insert(key(x), val(x)),
        keys_unique(s.update(i, x), key),
{
    let t = s.update(i, x);
    lemma_keyed_map_remove(s, i, key, val);
    assert(keys_unique(t, key)) by {
        assert forall|a: int, b: int|
            0 <= a < t.len() && 0 <= b < t.len() && a != b implies key(t[a]) != key(t[b]) by {
            assert(key(t[a]) == key(s[a]) && key(t[b]) == key(s[b]));
        }
    }
    lemma_keyed_map_remove(t, i, key, val);
    assert(t.remove(i) =~= s.remove(i));
    lemma_keyed_map_index(s, key, val);
    lemma_keyed_map_index(t, key, val);
    assert(t[i] == x);
    assert(keyed_map(t, key, val) =~= keyed_map(s, key, val).insert(key(x), val(x))) by {
        let mt = keyed_map(t, key, val);
        let ms = keyed_map(s, key, val);
        assert forall|k: K| #[trigger] mt.contains_key(k) == ms.insert(key(x), val(x)).contains_key(k) by {
            if k != key(x) {
                assert(mt.remove(key(x)).contains_key(k) == mt.contains_key(k));
                assert(ms.remove(key(x)).contains_key(k) == ms.contains_key(k));
            }
        }
        assert forall|k: K| #[trigger] mt.contains_key(k) implies mt[k] == ms.insert(key(x), val(x))[k] by {
            if k != key(x) {
                assert(mt.remove(key(x))[k] == mt[k]);
                assert(ms.remove(key(x))[k] == ms[k]);
            }
        }
    }
}

} // verus!
