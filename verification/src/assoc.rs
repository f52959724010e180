//! Association lists: sequences of key-value pairs read as finite maps.

use vstd::prelude::*;

verus! {

/// The index of the last entry of `s` with key `k`, or -1 when there is none.
pub open spec fn key_index<K, V>(s: Seq<(K, V)>, k: K) -> int
    decreases s.len(),
{
    if s.len() == 0 {
        -1
    } else if s.last().0 == k {
        s.len() - 1
    } else {
        key_index(s.drop_last(), k)
    }
}

/// No key occurs twice in `s`.
pub open spec fn keys_unique<K, V>(s: Seq<(K, V)>) -> bool {
    forall|i: int, j: int| 0 <= i < s.len() && 0 <= j < s.len() && i != j ==> s[i].0 != s[j].0
}

/// The value stored under `k`, if any.
pub open spec fn assoc_get<K, V>(s: Seq<(K, V)>, k: K) -> Option<V> {
    if key_index(s, k) >= 0 {
        Some(s[key_index(s, k)].1)
    } else {
        None
    }
}

/// The finite map that an association list stands for.
pub open spec fn to_map<K, V>(s: Seq<(K, V)>) -> Map<K, V> {
    Map::new(|k: K| key_index(s, k) >= 0, |k: K| s[key_index(s, k)].1)
}

/// What `key_index` finds.
pub broadcast proof fn lemma_key_index<K, V>(s: Seq<(K, V)>, k: K)
    ensures
        -1 <= #[trigger] key_index(s, k) < s.len(),
        key_index(s, k) >= 0 ==> s[key_index(s, k)].0 == k,
        key_index(s, k) == -1 <==> forall|i: int| 0 <= i < s.len() ==> s[i].0 != k,
        keys_unique(s) ==> forall|i: int| 0 <= i < s.len() && s[i].0 == k ==> key_index(s, k) == i,
    decreases s.len(),
{
    if s.len() > 0 {
        lemma_key_index(s.drop_last(), k);
        if s.last().0 != k {
            assert forall|i: int| 0 <= i < s.len() - 1 implies s.drop_last()[i] == s[i] by {}
        }
    }
}

/// An index at which `k` occurs, above which it does not, is where `key_index` finds it.
pub proof fn lemma_key_index_at<K, V>(s: Seq<(K, V)>, k: K, i: int)
    requires
        0 <= i < s.len(),
        s[i].0 == k,
        forall|j: int| i < j < s.len() ==> s[j].0 != k,
    ensures
        key_index(s, k) == i,
    decreases s.len(),
{
    if i < s.len() - 1 {
        assert(s.drop_last()[i] == s[i]);
        assert forall|j: int| i < j < s.len() - 1 implies s.drop_last()[j].0 != k by {
            assert(s.drop_last()[j] == s[j]);
        }
        lemma_key_index_at(s.drop_last(), k, i);
    }
}

/// Replacing the value of an existing entry keeps the keys and stores the new value.
pub proof fn lemma_assoc_update<K, V>(s: Seq<(K, V)>, i: int, v: V)
    requires
        keys_unique(s),
        0 <= i < s.len(),
    ensures
        keys_unique(s.update(i, (s[i].0, v))),
        forall|k: K| key_index(s.update(i, (s[i].0, v)), k) == key_index(s, k),
        to_map(s.update(i, (s[i].0, v))) == to_map(s).insert(s[i].0, v),
{
    broadcast use lemma_key_index;

    let t = s.update(i, (s[i].0, v));
    assert forall|k: K| key_index(t, k) == key_index(s, k) by {
        assert(forall|j: int| 0 <= j < s.len() ==> t[j].0 == s[j].0);
        if key_index(s, k) >= 0 {
            assert(t[key_index(s, k)].0 == k);
        } else {
            assert(forall|j: int| 0 <= j < t.len() ==> t[j].0 != k);
        }
    }
    assert(to_map(t) =~= to_map(s).insert(s[i].0, v));
}

/// Appending an entry under a new key keeps the other keys and adds the new one.
pub proof fn lemma_assoc_push<K, V>(s: Seq<(K, V)>, k: K, v: V)
    requires
        keys_unique(s),
        key_index(s, k) == -1,
    ensures
        keys_unique(s.push((k, v))),
        key_index(s.push((k, v)), k) == s.len(),
        forall|k2: K| k2 != k ==> key_index(s.push((k, v)), k2) == key_index(s, k2),
        to_map(s.push((k, v))) == to_map(s).insert(k, v),
{
    broadcast use lemma_key_index;

    let t = s.push((k, v));
    assert(t.drop_last() =~= s);
    assert forall|k2: K| k2 != k implies key_index(t, k2) == key_index(s, k2) by {}
    assert(to_map(t) =~= to_map(s).insert(k, v));
}

/// Removing the entry at `i` removes its key and keeps the other entries.
pub proof fn lemma_assoc_remove<K, V>(s: Seq<(K, V)>, i: int)
    requires
        keys_unique(s),
        0 <= i < s.len(),
    ensures
        keys_unique(s.remove(i)),
        to_map(s.remove(i)) == to_map(s).remove(s[i].0),
{
    broadcast use lemma_key_index;

    let t = s.remove(i);
    assert forall|a: int, b: int| 0 <= a < t.len() && 0 <= b < t.len() && a != b implies t[a].0
        != t[b].0 by {
        let a2 = if a < i { a } else { a + 1 };
        let b2 = if b < i { b } else { b + 1 };
        assert(t[a] == s[a2]);
        assert(t[b] == s[b2]);
    }
    assert forall|k: K| #[trigger] to_map(t).dom().contains(k) == to_map(s).remove(
        s[i].0,
    ).dom().contains(k) && (to_map(t).dom().contains(k) ==> to_map(t)[k] == to_map(s)[k]) by {
        if key_index(t, k) >= 0 {
            let j = key_index(t, k);
            let j2 = if j < i { j } else { j + 1 };
            assert(t[j] == s[j2]);
            assert(key_index(s, k) == j2);
        }
        if key_index(s, k) >= 0 && k != s[i].0 {
            let j = key_index(s, k);
            let j1 = if j < i { j } else { j - 1 };
            assert(t[j1] == s[j]);
        }
    }
    assert(to_map(t) =~= to_map(s).remove(s[i].0));
}

/// Stores `v` under `k`: in place when `idx` is the index of the entry with key `k`, at the end
/// when `idx` is `None` and no entry has key `k`.
pub fn assoc_put<K, V>(s: &mut Vec<(K, V)>, idx: Option<usize>, k: K, v: V)
    requires
        keys_unique(old(s)@),
        match idx {
            Some(i) => key_index(old(s)@, k) == i,
            None => key_index(old(s)@, k) == -1,
        },
    ensures
        keys_unique(final(s)@),
        to_map(final(s)@) == to_map(old(s)@).insert(k, v),
        match idx {
            Some(i) => final(s)@ == old(s)@.update(i as int, (k, v)),
            None => final(s)@ == old(s)@.push((k, v)),
        },
{
    broadcast use lemma_key_index;

    match idx {
        Some(i) => {
            proof {
                lemma_assoc_update(s@, i as int, v);
            }
            s.set(i, (k, v));
        },
        None => {
            proof {
                lemma_assoc_push(s@, k, v);
            }
            s.push((k, v));
        },
    }
}

} // verus!
