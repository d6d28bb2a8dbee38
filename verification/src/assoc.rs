use vstd::prelude::*;

verus! {

/// The map that a list of entries stands for: each key in `keys` maps to the
/// value at the same position in `vals`.
pub open spec fn assoc_map<K, V>(keys: Seq<K>, vals: Seq<V>) -> Map<K, V> {
    Map::new(|k: K| keys.contains(k), |k: K| vals[keys.index_of(k)])
}

/// In a sequence without duplicates, the element at `i` is found at `i`.
pub proof fn lemma_index_of_unique<K>(keys: Seq<K>, i: int)
    requires
        keys.no_duplicates(),
        0 <= i < keys.len(),
    ensures
        keys.contains(keys[i]),
        keys.index_of(keys[i]) == i,
{
    assert(keys.contains(keys[i]));
    let j = keys.index_of(keys[i]);
    assert(0 <= j < keys.len() && keys[j] == keys[i]);
}

/// Replacing the value at a position replaces the value of its key.
pub proof fn lemma_assoc_update<K, V>(keys: Seq<K>, vals: Seq<V>, i: int, v: V)
    requires
        keys.no_duplicates(),
        keys.len() == vals.len(),
        0 <= i < keys.len(),
    ensures
        assoc_map(keys, vals.update(i, v)) == assoc_map(keys, vals).insert(keys[i], v),
{
    lemma_index_of_unique(keys, i);
    let a = assoc_map(keys, vals.update(i, v));
    let b = assoc_map(keys, vals).insert(keys[i], v);
    assert forall|k: K| #[trigger] a.contains_key(k) implies a[k] == b[k] by {
        let j = keys.index_of(k);
        lemma_index_of_unique(keys, j);
    }
    assert(a =~= b);
}

/// Appending an entry for a fresh key inserts that key, and keeps the keys
/// free of duplicates.
pub proof fn lemma_assoc_push<K, V>(keys: Seq<K>, vals: Seq<V>, k: K, v: V)
    requires
        keys.no_duplicates(),
        keys.len() == vals.len(),
        !keys.contains(k),
    ensures
        keys.push(k).no_duplicates(),
        assoc_map(keys.push(k), vals.push(v)) == assoc_map(keys, vals).insert(k, v),
{
    let n = keys.len() as int;
    let nk = keys.push(k);
    assert forall|a: int, b: int| 0 <= a < nk.len() && 0 <= b < nk.len() && a != b implies nk[a]
        != nk[b] by {
        if a < n && b < n {
            assert(keys[a] != keys[b]);
        } else if a < n {
            assert(keys.contains(keys[a]));
        } else {
            assert(keys.contains(keys[b]));
        }
    }
    let m = assoc_map(nk, vals.push(v));
    let target = assoc_map(keys, vals).insert(k, v);
    assert forall|x: K| #[trigger] target.contains_key(x) implies m.contains_key(x) by {
        if x == k {
            assert(nk[n] == x);
        } else {
            let j = keys.index_of(x);
            assert(nk[j] == x);
        }
    }
    assert forall|x: K| #[trigger] m.contains_key(x) implies m[x] == target[x] by {
        if x == k {
            lemma_index_of_unique(nk, n);
        } else {
            let j = nk.index_of(x);
            assert(j != n);
            lemma_index_of_unique(nk, j);
            lemma_index_of_unique(keys, j);
        }
    }
    assert(m =~= target);
}

/// Removing the entry at a position removes its key, and keeps the keys free
/// of duplicates.
pub proof fn lemma_assoc_remove<K, V>(keys: Seq<K>, vals: Seq<V>, i: int)
    requires
        keys.no_duplicates(),
        keys.len() == vals.len(),
        0 <= i < keys.len(),
    ensures
        keys.remove(i).no_duplicates(),
        assoc_map(keys.remove(i), vals.remove(i)) == assoc_map(keys, vals).remove(keys[i]),
{
    let nk = keys.remove(i);
    let nv = vals.remove(i);
    assert forall|a: int, b: int| 0 <= a < nk.len() && 0 <= b < nk.len() && a != b implies nk[a]
        != nk[b] by {
        let a1 = if a < i { a } else { a + 1 };
        let b1 = if b < i { b } else { b + 1 };
        assert(nk[a] == keys[a1] && nk[b] == keys[b1]);
    }
    let m = assoc_map(nk, nv);
    let target = assoc_map(keys, vals).remove(keys[i]);
    assert forall|x: K| #[trigger] target.contains_key(x) implies m.contains_key(x) by {
        let j = keys.index_of(x);
        assert(j != i);
        if j < i {
            assert(nk[j] == x);
        } else {
            assert(nk[j - 1] == x);
        }
    }
    assert forall|x: K| #[trigger] m.contains_key(x) implies target.contains_key(x) && m[x]
        == target[x] by {
        let j = nk.index_of(x);
        lemma_index_of_unique(nk, j);
        let j1 = if j < i { j } else { j + 1 };
        assert(nk[j] == keys[j1] && nv[j] == vals[j1]);
        lemma_index_of_unique(keys, j1);
        lemma_index_of_unique(keys, i);
        assert(keys.contains(x));
    }
    assert(m =~= target);
}

} // verus!
