//! Association lists: sequences of `(key, value)` pairs in which the first
//! entry with a key is the one that counts.
use vstd::prelude::*;

verus! {

/// `i` is the first position of key `k` in `s`.
pub open spec fn first_key_at<K, V>(s: Seq<(K, V)>, k: K, i: int) -> bool {
    &&& 0 <= i < s.len()
    &&& s[i].0 == k
    &&& forall|j: int| 0 <= j < i ==> s[j].0 != k
}

/// First position of key `k` in `s`, or -1.
pub open spec fn assoc_index<K, V>(s: Seq<(K, V)>, k: K) -> int {
    if exists|i: int| first_key_at(s, k, i) {
        choose|i: int| first_key_at(s, k, i)
    } else {
        -1
    }
}

/// The value stored under `k`, if any.
pub open spec fn assoc_get<K, V>(s: Seq<(K, V)>, k: K) -> Option<V> {
    let i = assoc_index(s, k);
    if 0 <= i { Some(s[i].1) } else { None }
}

/// `s` with the value under `k` replaced in place, or appended when absent.
pub open spec fn assoc_set<K, V>(s: Seq<(K, V)>, k: K, v: V) -> Seq<(K, V)> {
    let i = assoc_index(s, k);
    if 0 <= i { s.update(i, (k, v)) } else { s.push((k, v)) }
}

/// `s` without the entry under `k`.
pub open spec fn assoc_remove<K, V>(s: Seq<(K, V)>, k: K) -> Seq<(K, V)> {
    let i = assoc_index(s, k);
    if 0 <= i { s.remove(i) } else { s }
}

pub proof fn lemma_assoc_index_at<K, V>(s: Seq<(K, V)>, k: K, i: int)
    requires
        first_key_at(s, k, i),
    ensures
        assoc_index(s, k) == i,
{
    let c = choose|c: int| first_key_at(s, k, c);
    assert(first_key_at(s, k, c));
    if c < i {
        assert(s[c].0 != k);
    } else if c > i {
        assert(s[i].0 != k);
    }
}

pub proof fn lemma_assoc_index_none<K, V>(s: Seq<(K, V)>, k: K)
    requires
        forall|j: int| 0 <= j < s.len() ==> s[j].0 != k,
    ensures
        assoc_index(s, k) == -1,
{
    if exists|i: int| first_key_at(s, k, i) {
        let c = choose|c: int| first_key_at(s, k, c);
        assert(s[c].0 == k);
    }
}

} // verus!
