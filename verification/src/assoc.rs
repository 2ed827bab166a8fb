use vstd::prelude::*;

verus! {

/// Association lists: sequences of key-value pairs in which no key occurs twice,
/// read as maps.
/// No key occurs twice.
pub open spec fn keys_distinct<K, V>(s: Seq<(K, V)>) -> bool {
    forall|i: int, j: int| 0 <= i < s.len() && 0 <= j < s.len() && i != j ==> s[i].0 != s[j].0
}

pub open spec fn has_key<K, V>(s: Seq<(K, V)>, k: K) -> bool {
    exists|i: int| 0 <= i < s.len() && s[i].0 == k
}

pub open spec fn key_index<K, V>(s: Seq<(K, V)>, k: K) -> int {
    choose|i: int| 0 <= i < s.len() && s[i].0 == k
}

/// The map that an association list describes.
pub open spec fn assoc_map<K, V>(s: Seq<(K, V)>) -> Map<K, V> {
    Map::new(|k: K| has_key(s, k), |k: K| s[key_index(s, k)].1)
}

pub proof fn lemma_key_at<K, V>(s: Seq<(K, V)>, p: int)
    requires
        keys_distinct(s),
        0 <= p < s.len(),
    ensures
        has_key(s, s[p].0),
        key_index(s, s[p].0) == p,
        assoc_map(s).contains_key(s[p].0),
        assoc_map(s)[s[p].0] == s[p].1,
{
    let k = s[p].0;
    assert(has_key(s, k));
}

/// Replacing the value at a position keeps the keys and changes one entry of the map.
pub proof fn lemma_update<K, V>(s: Seq<(K, V)>, p: int, v: V)
    requires
        keys_distinct(s),
        0 <= p < s.len(),
    ensures
        keys_distinct(s.update(p, (s[p].0, v))),
        assoc_map(s.update(p, (s[p].0, v))) == assoc_map(s).insert(s[p].0, v),
{
    let t = s.update(p, (s[p].0, v));
    assert forall|i: int, j: int| 0 <= i < t.len() && 0 <= j < t.len() && i != j implies t[i].0 != t[j].0 by {
        assert(t[i].0 == s[i].0);
        assert(t[j].0 == s[j].0);
    }
    assert forall|k: K| #[trigger] has_key(t, k) == has_key(s, k) by {
        if has_key(s, k) {
            let i = key_index(s, k);
            assert(t[i].0 == k);
        }
        if has_key(t, k) {
            let i = key_index(t, k);
            assert(s[i].0 == k);
        }
    }
    assert forall|k: K| #[trigger] assoc_map(t).contains_key(k) implies assoc_map(t)[k] == assoc_map(s).insert(s[p].0, v)[k] by {
        let i = key_index(t, k);
        lemma_key_at(t, i);
        lemma_key_at(s, i);
    }
    assert(assoc_map(t) =~= assoc_map(s).insert(s[p].0, v));
}

/// Appending an entry with a new key adds that entry to the map.
pub proof fn lemma_push<K, V>(s: Seq<(K, V)>, k: K, v: V)
    requires
        keys_distinct(s),
        !has_key(s, k),
    ensures
        keys_distinct(s.push((k, v))),
        assoc_map(s.push((k, v))) == assoc_map(s).insert(k, v),
{
    let t = s.push((k, v));
    assert forall|i: int, j: int| 0 <= i < t.len() && 0 <= j < t.len() && i != j implies t[i].0 != t[j].0 by {
        if i < s.len() && j < s.len() {
            assert(t[i] == s[i] && t[j] == s[j]);
        } else if i < s.len() {
            assert(t[i] == s[i]);
        } else {
            assert(t[j] == s[j]);
        }
    }
    assert forall|q: K| #[trigger] assoc_map(t).contains_key(q) == assoc_map(s).insert(k, v).contains_key(q) by {
        if has_key(s, q) {
            let i = key_index(s, q);
            assert(t[i].0 == q);
        }
        if has_key(t, q) && q != k {
            let i = key_index(t, q);
            assert(i < s.len());
            assert(s[i].0 == q);
        }
        if q == k {
            assert(t[s.len() as int].0 == k);
        }
    }
    assert forall|q: K| #[trigger] assoc_map(t).contains_key(q) implies assoc_map(t)[q] == assoc_map(s).insert(k, v)[q] by {
        let i = key_index(t, q);
        lemma_key_at(t, i);
        if i < s.len() {
            assert(t[i] == s[i]);
            lemma_key_at(s, i);
        }
    }
    assert(assoc_map(t) =~= assoc_map(s).insert(k, v));
}

/// Removing the entry at a position removes its key from the map.
pub proof fn lemma_remove<K, V>(s: Seq<(K, V)>, p: int)
    requires
        keys_distinct(s),
        0 <= p < s.len(),
    ensures
        keys_distinct(s.remove(p)),
        assoc_map(s.remove(p)) == assoc_map(s).remove(s[p].0),
{
    let t = s.remove(p);
    let k = s[p].0;
    assert forall|i: int, j: int| 0 <= i < t.len() && 0 <= j < t.len() && i != j implies t[i].0 != t[j].0 by {
        let si = if i < p { i } else { i + 1 };
        let sj = if j < p { j } else { j + 1 };
        assert(t[i] == s[si] && t[j] == s[sj]);
    }
    assert forall|q: K| #[trigger] assoc_map(t).contains_key(q) == assoc_map(s).remove(k).contains_key(q) by {
        if has_key(s, q) && q != k {
            let i = key_index(s, q);
            let ti = if i < p { i } else { i - 1 };
            assert(t[ti] == s[i]);
        }
        if has_key(t, q) {
            let i = key_index(t, q);
            let si = if i < p { i } else { i + 1 };
            assert(t[i] == s[si]);
            assert(si != p);
        }
    }
    assert forall|q: K| #[trigger] assoc_map(t).contains_key(q) implies assoc_map(t)[q] == assoc_map(s).remove(k)[q] by {
        let i = key_index(t, q);
        lemma_key_at(t, i);
        let si = if i < p { i } else { i + 1 };
        assert(t[i] == s[si]);
        lemma_key_at(s, si);
    }
    assert(assoc_map(t) =~= assoc_map(s).remove(k));
}

pub proof fn lemma_empty<K, V>(s: Seq<(K, V)>)
    requires
        s.len() == 0,
    ensures
        keys_distinct(s),
        assoc_map(s) == Map::<K, V>::empty(),
{
    assert(assoc_map(s) =~= Map::<K, V>::empty());
}

} // verus!
