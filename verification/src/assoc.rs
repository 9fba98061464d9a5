//! Association lists: pairs of a key and a value, no key twice (what a
//! `HashMap` gave), seen as a map.
use vstd::prelude::*;

verus! {

pub open spec fn unique_keys<K, V>(e: Seq<(K, V)>) -> bool {
    forall|i: int, j: int| 0 <= i < j < e.len() ==> #[trigger] e[i].0 != #[trigger] e[j].0
}

pub open spec fn has_key<K, V>(e: Seq<(K, V)>, k: K) -> bool {
    exists|i: int| 0 <= i < e.len() && #[trigger] e[i].0 == k
}

pub open spec fn key_index<K, V>(e: Seq<(K, V)>, k: K) -> int {
    choose|i: int| 0 <= i < e.len() && #[trigger] e[i].0 == k
}

/// The map that an association list holds.
pub open spec fn assoc_map<K, V>(e: Seq<(K, V)>) -> Map<K, V> {
    Map::new(|k: K| has_key(e, k), |k: K| e[key_index(e, k)].1)
}

pub proof fn lemma_key_index<K, V>(e: Seq<(K, V)>, a: int)
    requires
        unique_keys(e),
        0 <= a < e.len(),
    ensures
        has_key(e, e[a].0),
        key_index(e, e[a].0) == a,
        assoc_map(e).contains_key(e[a].0),
        assoc_map(e)[e[a].0] == e[a].1,
{
    assert(has_key(e, e[a].0));
    let b = key_index(e, e[a].0);
    if b < a {
        assert(e[b].0 != e[a].0);
    } else if a < b {
        assert(e[a].0 != e[b].0);
    }
}

/// Giving the key at index `i` a new value.
pub proof fn lemma_assoc_update<K, V>(e: Seq<(K, V)>, i: int, v: V)
    requires
        unique_keys(e),
        0 <= i < e.len(),
    ensures
        unique_keys(e.update(i, (e[i].0, v))),
        assoc_map(e.update(i, (e[i].0, v))) == assoc_map(e).insert(e[i].0, v),
{
    let k = e[i].0;
    let n = e.update(i, (k, v));
    assert forall|a: int, b: int| 0 <= a < b < n.len() implies #[trigger] n[a].0 != #[trigger] n[b].0 by {
        assert(n[a].0 == e[a].0 && n[b].0 == e[b].0);
    }
    assert forall|x: K| #[trigger] has_key(n, x) <==> has_key(e, x) by {
        if has_key(n, x) {
            let j = choose|j: int| 0 <= j < n.len() && #[trigger] n[j].0 == x;
            assert(e[j].0 == x);
        }
        if has_key(e, x) {
            let j = choose|j: int| 0 <= j < e.len() && #[trigger] e[j].0 == x;
            assert(n[j].0 == x);
        }
    }
    assert forall|x: K| #[trigger] has_key(n, x) implies assoc_map(n)[x] == assoc_map(e).insert(
        k,
        v,
    )[x] by {
        let j = choose|j: int| 0 <= j < n.len() && #[trigger] n[j].0 == x;
        lemma_key_index(n, j);
        lemma_key_index(e, j);
    }
    assert(assoc_map(n) =~= assoc_map(e).insert(k, v));
}

/// Adding a new key at the end.
pub proof fn lemma_assoc_push<K, V>(e: Seq<(K, V)>, k: K, v: V)
    requires
        unique_keys(e),
        !has_key(e, k),
    ensures
        unique_keys(e.push((k, v))),
        assoc_map(e.push((k, v))) == assoc_map(e).insert(k, v),
{
    let n = e.push((k, v));
    assert forall|a: int, b: int| 0 <= a < b < n.len() implies #[trigger] n[a].0 != #[trigger] n[b].0 by {
        if b == e.len() {
            assert(n[a].0 == e[a].0);
        } else {
            assert(n[a].0 == e[a].0 && n[b].0 == e[b].0);
        }
    }
    assert forall|x: K| #[trigger] has_key(n, x) <==> has_key(e, x) || x == k by {
        if has_key(n, x) {
            let j = choose|j: int| 0 <= j < n.len() && #[trigger] n[j].0 == x;
            if j < e.len() {
                assert(e[j].0 == x);
            }
        }
        if has_key(e, x) {
            let j = choose|j: int| 0 <= j < e.len() && #[trigger] e[j].0 == x;
            assert(n[j].0 == x);
        }
        if x == k {
            assert(n[e.len() as int].0 == x);
        }
    }
    assert forall|x: K| #[trigger] has_key(n, x) implies assoc_map(n)[x] == assoc_map(e).insert(
        k,
        v,
    )[x] by {
        let j = choose|j: int| 0 <= j < n.len() && #[trigger] n[j].0 == x;
        lemma_key_index(n, j);
        if j < e.len() {
            lemma_key_index(e, j);
        }
    }
    assert(assoc_map(n) =~= assoc_map(e).insert(k, v));
}

/// Taking out the key at index `i`.
pub proof fn lemma_assoc_remove<K, V>(e: Seq<(K, V)>, i: int)
    requires
        unique_keys(e),
        0 <= i < e.len(),
    ensures
        unique_keys(e.remove(i)),
        assoc_map(e.remove(i)) == assoc_map(e).remove(e[i].0),
{
    let k = e[i].0;
    let n = e.remove(i);
    assert forall|a: int, b: int| 0 <= a < b < n.len() implies #[trigger] n[a].0 != #[trigger] n[b].0 by {
        let a2 = if a < i { a } else { a + 1 };
        let b2 = if b < i { b } else { b + 1 };
        assert(n[a].0 == e[a2].0 && n[b].0 == e[b2].0);
    }
    assert forall|x: K| #[trigger] has_key(n, x) <==> has_key(e, x) && x != k by {
        if has_key(n, x) {
            let j = choose|j: int| 0 <= j < n.len() && #[trigger] n[j].0 == x;
            let j2 = if j < i { j } else { j + 1 };
            assert(e[j2].0 == x);
            assert(e[j2].0 != e[i].0);
        }
        if has_key(e, x) && x != k {
            let j = choose|j: int| 0 <= j < e.len() && #[trigger] e[j].0 == x;
            if j < i {
                assert(n[j].0 == x);
            } else {
                assert(n[j - 1].0 == x);
            }
        }
    }
    assert forall|x: K| #[trigger] has_key(n, x) implies assoc_map(n)[x] == assoc_map(e).remove(
        k,
    )[x] by {
        let j = choose|j: int| 0 <= j < n.len() && #[trigger] n[j].0 == x;
        lemma_key_index(n, j);
        if j < i {
            lemma_key_index(e, j);
        } else {
            lemma_key_index(e, j + 1);
        }
    }
    assert(assoc_map(n) =~= assoc_map(e).remove(k));
}

} // verus!
