//! Maps held as sequences of (key, value) pairs
//! with distinct keys; a new key goes to the end, and a key that is there
//! keeps its place when its value changes.
use crate::domain::SystemMessageHeader;
use vstd::prelude::*;

verus! {

/// Whether some pair has key `k`.
pub open spec fn has_key<K, V>(s: Seq<(K, V)>, k: K) -> bool {
    exists|i: int| 0 <= i < s.len() && s[i].0 == k
}

/// A place where key `k` stands (the only one, where keys are distinct).
pub open spec fn key_pos<K, V>(s: Seq<(K, V)>, k: K) -> int {
    choose|i: int| 0 <= i < s.len() && s[i].0 == k
}

/// The value bound to `k`.
pub open spec fn map_get<K, V>(s: Seq<(K, V)>, k: K) -> V {
    s[key_pos(s, k)].1
}

/// No two pairs share a key.
pub open spec fn unique_keys<K, V>(s: Seq<(K, V)>) -> bool {
    forall|i: int, j: int| 0 <= i < s.len() && 0 <= j < s.len() && i != j ==> s[i].0 != s[j].0
}

/// `s` with `k` bound to `v`: in the place of `k` where it is there, at the
/// end otherwise.
pub open spec fn map_put<K, V>(s: Seq<(K, V)>, k: K, v: V) -> Seq<(K, V)> {
    if has_key(s, k) {
        s.update(key_pos(s, k), (k, v))
    } else {
        s.push((k, v))
    }
}

/// `s` without the pair of key `k`.
pub open spec fn map_remove<K, V>(s: Seq<(K, V)>, k: K) -> Seq<(K, V)> {
    if has_key(s, k) {
        s.remove(key_pos(s, k))
    } else {
        s
    }
}

/// The keys, in order.
pub open spec fn keys_of<K, V>(s: Seq<(K, V)>) -> Seq<K> {
    s.map_values(|p: (K, V)| p.0)
}

/// Pairs whose values are taken by their views.
pub open spec fn view_pairs<K, V: View>(s: Seq<(K, V)>) -> Seq<(K, V::V)> {
    s.map_values(|p: (K, V)| (p.0, p.1@))
}

/// Where keys are distinct, the place of a key is the one where it stands.
pub proof fn lemma_key_pos<K, V>(s: Seq<(K, V)>, k: K, i: int)
    requires
        unique_keys(s),
        0 <= i < s.len(),
        s[i].0 == k,
    ensures
        has_key(s, k),
        key_pos(s, k) == i,
{
}

/// Binding or removing a key keeps keys distinct.
pub proof fn lemma_map_put_remove_unique<K, V>(s: Seq<(K, V)>, k: K, v: V)
    requires
        unique_keys(s),
    ensures
        unique_keys(map_put(s, k, v)),
        unique_keys(map_remove(s, k)),
        has_key(map_put(s, k, v), k),
        map_get(map_put(s, k, v), k) == v,
        !has_key(map_remove(s, k), k),
{
    let p = map_put(s, k, v);
    if has_key(s, k) {
        let i = key_pos(s, k);
        assert(p[i].0 == k);
        lemma_key_pos(p, k, i);
        let r = map_remove(s, k);
        assert forall|a: int, b: int| 0 <= a < r.len() && 0 <= b < r.len() && a != b implies r[a].0
            != r[b].0 by {
            let a1 = if a < i { a } else { a + 1 };
            let b1 = if b < i { b } else { b + 1 };
            assert(r[a] == s[a1]);
            assert(r[b] == s[b1]);
        }
        if has_key(r, k) {
            let j = choose|j: int| 0 <= j < r.len() && r[j].0 == k;
            let j1 = if j < i { j } else { j + 1 };
            assert(r[j] == s[j1]);
        }
    } else {
        let n = s.len() as int;
        assert(p[n].0 == k);
        lemma_key_pos(p, k, n);
    }
}

/// Binding `k` leaves every other key as it was.
pub proof fn lemma_map_put_other<K, V>(s: Seq<(K, V)>, k: K, v: V, k2: K)
    requires
        unique_keys(s),
        k2 != k,
    ensures
        has_key(map_put(s, k, v), k2) == has_key(s, k2),
        has_key(s, k2) ==> map_get(map_put(s, k, v), k2) == map_get(s, k2),
{
    let p = map_put(s, k, v);
    lemma_map_put_remove_unique(s, k, v);
    if has_key(s, k2) {
        let i = key_pos(s, k2);
        assert(p[i] == s[i]);
        lemma_key_pos(p, k2, i);
    }
    if has_key(p, k2) {
        let j = choose|j: int| 0 <= j < p.len() && p[j].0 == k2;
        assert(j < s.len() && p[j] == s[j]);
    }
}

/// Removing key `k` removes it and nothing else: every other key stays,
/// bound to the same value, and one pair fewer is left where `k` was there.
pub proof fn law_map_remove_keeps_others<K, V>(s: Seq<(K, V)>, k: K)
    requires
        unique_keys(s),
    ensures
        !has_key(map_remove(s, k), k),
        has_key(s, k) ==> map_remove(s, k).len() == s.len() - 1,
        !has_key(s, k) ==> map_remove(s, k) == s,
        forall|k2: K|
            k2 != k ==> (#[trigger] has_key(map_remove(s, k), k2) == has_key(s, k2)),
        forall|k2: K|
            k2 != k && has_key(s, k2) ==> #[trigger] map_get(map_remove(s, k), k2) == map_get(s, k2),
{
    lemma_map_put_remove_unique(s, k, arbitrary());
    let r = map_remove(s, k);
    if has_key(s, k) {
        let i = key_pos(s, k);
        assert forall|k2: K| k2 != k implies (#[trigger] has_key(r, k2) == has_key(s, k2)) by {
            if has_key(s, k2) {
                let j = key_pos(s, k2);
                assert(j != i);
                let j1 = if j < i { j } else { j - 1 };
                assert(r[j1] == s[j]);
            }
            if has_key(r, k2) {
                let j = choose|j: int| 0 <= j < r.len() && r[j].0 == k2;
                let j1 = if j < i { j } else { j + 1 };
                assert(r[j] == s[j1]);
            }
        }
        assert forall|k2: K| k2 != k && has_key(s, k2) implies #[trigger] map_get(r, k2) == map_get(s, k2) by {
            let j = key_pos(s, k2);
            assert(j != i);
            let j1 = if j < i { j } else { j - 1 };
            assert(r[j1] == s[j]);
            lemma_key_pos(r, k2, j1);
        }
    }
}

/// Binding key `k` to `v` binds it and changes nothing else: every other
/// key stays, bound to the same value, and one pair more is there where `k`
/// was not.
pub proof fn law_map_put_keeps_others<K, V>(s: Seq<(K, V)>, k: K, v: V)
    requires
        unique_keys(s),
    ensures
        has_key(map_put(s, k, v), k),
        map_get(map_put(s, k, v), k) == v,
        has_key(s, k) ==> map_put(s, k, v).len() == s.len(),
        !has_key(s, k) ==> map_put(s, k, v).len() == s.len() + 1,
        forall|k2: K| k2 != k ==> (#[trigger] has_key(map_put(s, k, v), k2) == has_key(s, k2)),
        forall|k2: K|
            k2 != k && has_key(s, k2) ==> #[trigger] map_get(map_put(s, k, v), k2) == map_get(s, k2),
{
    lemma_map_put_remove_unique(s, k, v);
    assert forall|k2: K| k2 != k implies (#[trigger] has_key(map_put(s, k, v), k2) == has_key(s, k2)) by {
        lemma_map_put_other(s, k, v, k2);
    }
    assert forall|k2: K| k2 != k && has_key(s, k2) implies #[trigger] map_get(map_put(s, k, v), k2) == map_get(
        s,
        k2,
    ) by {
        lemma_map_put_other(s, k, v, k2);
    }
}

/// The view of the pairs has the same keys, in the same places.
pub proof fn lemma_view_pairs<K, V: View>(s: Seq<(K, V)>)
    ensures
        view_pairs(s).len() == s.len(),
        forall|i: int| 0 <= i < s.len() ==> #[trigger] view_pairs(s)[i] == (s[i].0, s[i].1@),
        forall|k: K| #[trigger] has_key(view_pairs(s), k) == has_key(s, k),
        unique_keys(s) == unique_keys(view_pairs(s)),
{
    let t = view_pairs(s);
    assert forall|k: K| #[trigger] has_key(t, k) == has_key(s, k) by {
        if has_key(s, k) {
            let i = choose|i: int| 0 <= i < s.len() && s[i].0 == k;
            assert(t[i].0 == k);
        }
        if has_key(t, k) {
            let i = choose|i: int| 0 <= i < t.len() && t[i].0 == k;
            assert(s[i].0 == k);
        }
    }
    if unique_keys(s) {
        assert forall|i: int, j: int| 0 <= i < t.len() && 0 <= j < t.len() && i != j implies t[i].0
            != t[j].0 by {
            assert(t[i].0 == s[i].0);
            assert(t[j].0 == s[j].0);
        }
    }
    if unique_keys(t) {
        assert forall|i: int, j: int| 0 <= i < s.len() && 0 <= j < s.len() && i != j implies s[i].0
            != s[j].0 by {
            assert(t[i].0 == s[i].0);
            assert(t[j].0 == s[j].0);
        }
    }
}

/// The place of the first pair of key `k`, if any.
pub fn find_key<V>(v: &Vec<(SystemMessageHeader, V)>, k: SystemMessageHeader) -> (r: Option<usize>)
    ensures
        r is None <==> !has_key(v@, k),
        r matches Some(i) ==> i < v@.len() && v@[i as int].0 == k,
{
    let mut i: usize = 0;
    while i < v.len()
        invariant
            i <= v@.len(),
            forall|j: int| 0 <= j < i ==> v@[j].0 != k,
        decreases v@.len() - i,
    {
        if v[i].0 == k {
            return Some(i);
        }
        i = i + 1;
    }
    None
}

/// The place of the first pair of key `k`, if any.
pub fn find_id_key<V>(v: &Vec<(u128, V)>, k: u128) -> (r: Option<usize>)
    ensures
        r is None <==> !has_key(v@, k),
        r matches Some(i) ==> i < v@.len() && v@[i as int].0 == k,
{
    let mut i: usize = 0;
    while i < v.len()
        invariant
            i <= v@.len(),
            forall|j: int| 0 <= j < i ==> v@[j].0 != k,
        decreases v@.len() - i,
    {
        if v[i].0 == k {
            return Some(i);
        }
        i = i + 1;
    }
    None
}

} // verus!
