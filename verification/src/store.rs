//! Key-value entries kept in key order (what `BTreeMap` gave): the store
//! itself, its map, prefix queries and the JSON tree of a prefix.
use vstd::prelude::*;

use crate::keys::{
    compare, has_prefix, key_lt, lemma_key_lt_irreflexive, lemma_key_lt_transitive, starts_with,
    KeyOrder,
};
use crate::text::string_of;

verus! {

/// A value the store can hold: one that can be copied with its view.
pub trait StoreValue: View + Sized {
    fn duplicate(&self) -> (r: Self)
        ensures
            r@ == self@,
    ;
}

impl StoreValue for Vec<u8> {
    fn duplicate(&self) -> (r: Self) {
        vstd::slice::slice_to_vec(self.as_slice())
    }
}

impl StoreValue for u64 {
    fn duplicate(&self) -> (r: Self) {
        *self
    }
}

impl StoreValue for String {
    fn duplicate(&self) -> (r: Self) {
        self.clone()
    }
}

/// Entries of keys and values.
pub type Entries<W> = Seq<(Seq<char>, W)>;

/// Every key comes strictly before the next: in order, none twice.
pub open spec fn sorted_keys<W>(e: Entries<W>) -> bool {
    forall|i: int, j: int| 0 <= i < j < e.len() ==> key_lt(#[trigger] e[i].0, #[trigger] e[j].0)
}

pub open spec fn contains_key<W>(e: Entries<W>, k: Seq<char>) -> bool {
    exists|i: int| 0 <= i < e.len() && #[trigger] e[i].0 == k
}

pub open spec fn index_of<W>(e: Entries<W>, k: Seq<char>) -> int {
    choose|i: int| 0 <= i < e.len() && #[trigger] e[i].0 == k
}

/// The map that the entries hold.
pub open spec fn to_map<W>(e: Entries<W>) -> Map<Seq<char>, W> {
    Map::new(|k: Seq<char>| contains_key(e, k), |k: Seq<char>| e[index_of(e, k)].1)
}

/// The entries whose key starts with `p`, in order.
pub open spec fn with_prefix<W>(e: Entries<W>, p: Seq<char>) -> Entries<W>
    decreases e.len(),
{
    if e.len() == 0 {
        e
    } else if has_prefix(e.last().0, p) {
        with_prefix(e.drop_last(), p).push(e.last())
    } else {
        with_prefix(e.drop_last(), p)
    }
}

pub open spec fn entry_views<V: View>(e: Seq<(Vec<char>, V)>) -> Entries<V::V> {
    e.map_values(|x: (Vec<char>, V)| (x.0@, x.1@))
}

/// In sorted entries a key stands at one index only.
pub proof fn lemma_index_of<W>(e: Entries<W>, a: int)
    requires
        sorted_keys(e),
        0 <= a < e.len(),
    ensures
        contains_key(e, e[a].0),
        index_of(e, e[a].0) == a,
{
    let k = e[a].0;
    assert(contains_key(e, k));
    let b = index_of(e, k);
    if b < a {
        lemma_key_lt_irreflexive(k);
        assert(key_lt(e[b].0, e[a].0));
    } else if a < b {
        lemma_key_lt_irreflexive(k);
        assert(key_lt(e[a].0, e[b].0));
    }
}

/// Inserting a new key where it belongs keeps the order and adds the key.
pub proof fn lemma_insert_entry<W>(e: Entries<W>, i: int, k: Seq<char>, v: W)
    requires
        sorted_keys(e),
        0 <= i <= e.len(),
        forall|j: int| 0 <= j < i ==> key_lt(#[trigger] e[j].0, k),
        forall|j: int| i <= j < e.len() ==> key_lt(k, #[trigger] e[j].0),
    ensures
        sorted_keys(e.insert(i, (k, v))),
        to_map(e.insert(i, (k, v))) == to_map(e).insert(k, v),
{
    let n = e.insert(i, (k, v));
    assert forall|a: int, b: int| 0 <= a < b < n.len() implies key_lt(
        #[trigger] n[a].0,
        #[trigger] n[b].0,
    ) by {
        if b < i {
        } else if a < i && b == i {
        } else if a < i {
            lemma_key_lt_transitive(e[a].0, k, e[b - 1].0);
        } else if a == i {
        } else {
        }
    }
    assert forall|x: Seq<char>| #[trigger] contains_key(n, x) <==> contains_key(e, x) || x == k by {
        if contains_key(n, x) {
            let j = choose|j: int| 0 <= j < n.len() && #[trigger] n[j].0 == x;
            if j < i {
                assert(e[j].0 == x);
            } else if j > i {
                assert(e[j - 1].0 == x);
            }
        }
        if contains_key(e, x) {
            let j = choose|j: int| 0 <= j < e.len() && #[trigger] e[j].0 == x;
            if j < i {
                assert(n[j].0 == x);
            } else {
                assert(n[j + 1].0 == x);
            }
        }
        if x == k {
            assert(n[i].0 == x);
        }
    }
    assert forall|x: Seq<char>| #[trigger] contains_key(n, x) implies to_map(n)[x] == to_map(
        e,
    ).insert(k, v)[x] by {
        let j = choose|j: int| 0 <= j < n.len() && #[trigger] n[j].0 == x;
        lemma_index_of(n, j);
        if j < i {
            lemma_index_of(e, j);
            lemma_key_lt_irreflexive(k);
        } else if j > i {
            lemma_index_of(e, j - 1);
            lemma_key_lt_irreflexive(k);
        }
    }
    assert(to_map(n) =~= to_map(e).insert(k, v));
}

/// Giving an existing key a new value keeps the order.
pub proof fn lemma_update_entry<W>(e: Entries<W>, i: int, v: W)
    requires
        sorted_keys(e),
        0 <= i < e.len(),
    ensures
        sorted_keys(e.update(i, (e[i].0, v))),
        to_map(e.update(i, (e[i].0, v))) == to_map(e).insert(e[i].0, v),
{
    let k = e[i].0;
    let n = e.update(i, (k, v));
    assert forall|a: int, b: int| 0 <= a < b < n.len() implies key_lt(
        #[trigger] n[a].0,
        #[trigger] n[b].0,
    ) by {
        assert(n[a].0 == e[a].0 && n[b].0 == e[b].0);
    }
    assert forall|x: Seq<char>| #[trigger] contains_key(n, x) <==> contains_key(e, x) by {
        if contains_key(n, x) {
            let j = choose|j: int| 0 <= j < n.len() && #[trigger] n[j].0 == x;
            assert(e[j].0 == x);
        }
        if contains_key(e, x) {
            let j = choose|j: int| 0 <= j < e.len() && #[trigger] e[j].0 == x;
            assert(n[j].0 == x);
        }
    }
    lemma_index_of(e, i);
    assert forall|x: Seq<char>| #[trigger] contains_key(n, x) implies to_map(n)[x] == to_map(
        e,
    ).insert(k, v)[x] by {
        let j = choose|j: int| 0 <= j < n.len() && #[trigger] n[j].0 == x;
        lemma_index_of(n, j);
        lemma_index_of(e, j);
    }
    assert(to_map(n) =~= to_map(e).insert(k, v));
}

/// Taking an entry out keeps the order and removes its key.
pub proof fn lemma_remove_entry<W>(e: Entries<W>, i: int)
    requires
        sorted_keys(e),
        0 <= i < e.len(),
    ensures
        sorted_keys(e.remove(i)),
        to_map(e.remove(i)) == to_map(e).remove(e[i].0),
{
    let k = e[i].0;
    let n = e.remove(i);
    assert forall|a: int, b: int| 0 <= a < b < n.len() implies key_lt(
        #[trigger] n[a].0,
        #[trigger] n[b].0,
    ) by {
        if b < i {
        } else if a < i {
            assert(n[b].0 == e[b + 1].0);
        } else {
            assert(n[a].0 == e[a + 1].0 && n[b].0 == e[b + 1].0);
        }
    }
    lemma_key_lt_irreflexive(k);
    assert forall|x: Seq<char>| #[trigger] contains_key(n, x) <==> contains_key(e, x) && x != k by {
        if contains_key(n, x) {
            let j = choose|j: int| 0 <= j < n.len() && #[trigger] n[j].0 == x;
            if j < i {
                assert(e[j].0 == x);
                assert(key_lt(e[j].0, e[i].0));
            } else {
                assert(e[j + 1].0 == x);
                assert(key_lt(e[i].0, e[j + 1].0));
            }
        }
        if contains_key(e, x) && x != k {
            let j = choose|j: int| 0 <= j < e.len() && #[trigger] e[j].0 == x;
            if j < i {
                assert(n[j].0 == x);
            } else {
                assert(n[j - 1].0 == x);
            }
        }
    }
    assert forall|x: Seq<char>| #[trigger] contains_key(n, x) implies to_map(n)[x] == to_map(
        e,
    ).remove(k)[x] by {
        let j = choose|j: int| 0 <= j < n.len() && #[trigger] n[j].0 == x;
        lemma_index_of(n, j);
        if j < i {
            lemma_index_of(e, j);
        } else {
            lemma_index_of(e, j + 1);
        }
    }
    assert(to_map(n) =~= to_map(e).remove(k));
}

/// The key-value data, its keys kept in order (what `BTreeMap` gave).
pub struct Store<V> {
    entries: Vec<(Vec<char>, V)>,
}

impl<V: View> View for Store<V> {
    type V = Entries<V::V>;

    closed spec fn view(&self) -> Entries<V::V> {
        entry_views(self.entries@)
    }
}

impl<V: StoreValue> Store<V> {
    /// The keys are in order and none occurs twice.
    pub open spec fn wf(&self) -> bool {
        sorted_keys(self@)
    }

    /// The map from keys to values that the store holds.
    pub open spec fn map(&self) -> Map<Seq<char>, V::V> {
        to_map(self@)
    }

    pub fn new() -> (s: Store<V>)
        ensures
            s.wf(),
            s@ == Seq::<(Seq<char>, V::V)>::empty(),
            s.map() == Map::<Seq<char>, V::V>::empty(),
    {
        let s = Store { entries: Vec::new() };
        assert(s@ =~= Seq::<(Seq<char>, V::V)>::empty());
        assert(s.map() =~= Map::<Seq<char>, V::V>::empty());
        s
    }

    pub fn len(&self) -> (n: usize)
        ensures
            n == self@.len(),
    {
        self.entries.len()
    }

    /// The key and value at index `i`, in key order.
    pub fn entry(&self, i: usize) -> (kv: (&Vec<char>, &V))
        requires
            i < self@.len(),
        ensures
            kv.0@ == self@[i as int].0,
            kv.1@ == self@[i as int].1,
    {
        let e = &self.entries[i];
        (&e.0, &e.1)
    }

    /// Where a key stands: `Ok` with its index, or `Err` with the index where
    /// it would go.
    pub fn find(&self, key: &[char]) -> (r: Result<usize, usize>)
        requires
            self.wf(),
        ensures
            match r {
                Ok(i) => i < self@.len() && self@[i as int].0 == key@,
                Err(i) => {
                    &&& i <= self@.len()
                    &&& !contains_key(self@, key@)
                    &&& forall|j: int| 0 <= j < i ==> key_lt(#[trigger] self@[j].0, key@)
                    &&& forall|j: int| i <= j < self@.len() ==> key_lt(key@, #[trigger] self@[j].0)
                },
            },
    {
        let mut i: usize = 0;
        while i < self.entries.len()
            invariant
                self.wf(),
                i <= self@.len(),
                forall|j: int| 0 <= j < i ==> key_lt(#[trigger] self@[j].0, key@),
            decreases self@.len() - i,
        {
            match compare(self.entries[i].0.as_slice(), key) {
                KeyOrder::Less => {
                    i = i + 1;
                },
                KeyOrder::Equal => {
                    return Ok(i);
                },
                KeyOrder::Greater => {
                    proof {
                        assert forall|j: int| i <= j < self@.len() implies key_lt(
                            key@,
                            #[trigger] self@[j].0,
                        ) by {
                            if j > i {
                                lemma_key_lt_transitive(key@, self@[i as int].0, self@[j].0);
                            }
                        }
                        self.lemma_absent(key@, i as int);
                    }
                    return Err(i);
                },
            }
        }
        proof {
            self.lemma_absent(key@, i as int);
        }
        Err(i)
    }

    proof fn lemma_absent(&self, k: Seq<char>, i: int)
        requires
            0 <= i <= self@.len(),
            forall|j: int| 0 <= j < i ==> key_lt(#[trigger] self@[j].0, k),
            forall|j: int| i <= j < self@.len() ==> key_lt(k, #[trigger] self@[j].0),
        ensures
            !contains_key(self@, k),
    {
        lemma_key_lt_irreflexive(k);
        if contains_key(self@, k) {
            let j = choose|j: int| 0 <= j < self@.len() && #[trigger] self@[j].0 == k;
            if j < i {
                assert(key_lt(self@[j].0, k));
            } else {
                assert(key_lt(k, self@[j].0));
            }
        }
    }

    /// The value of a key.
    pub fn get(&self, key: &[char]) -> (v: Option<&V>)
        requires
            self.wf(),
        ensures
            match v {
                Some(v) => self.map().contains_key(key@) && v@ == self.map()[key@],
                None => !self.map().contains_key(key@),
            },
    {
        match self.find(key) {
            Ok(i) => {
                proof {
                    lemma_index_of(self@, i as int);
                }
                Some(&self.entries[i].1)
            },
            Err(_) => None,
        }
    }

    /// Sets the value of a key.
    pub fn insert(&mut self, key: Vec<char>, value: V)
        requires
            old(self).wf(),
        ensures
            final(self).wf(),
            final(self).map() == old(self).map().insert(key@, value@),
    {
        match self.find(key.as_slice()) {
            Ok(i) => {
                let ghost e = self@;
                let k = vstd::slice::slice_to_vec(self.entries[i].0.as_slice());
                self.entries.set(i, (k, value));
                proof {
                    assert(self@ =~= e.update(i as int, (e[i as int].0, value@)));
                    lemma_update_entry(e, i as int, value@);
                }
            },
            Err(i) => {
                let ghost e = self@;
                let ghost kv = key@;
                self.entries.insert(i, (key, value));
                proof {
                    assert(self@ =~= e.insert(i as int, (kv, value@)));
                    lemma_insert_entry(e, i as int, kv, value@);
                }
            },
        }
    }

    /// Takes a key out; whether it was there.
    pub fn remove(&mut self, key: &[char]) -> (removed: bool)
        requires
            old(self).wf(),
        ensures
            final(self).wf(),
            removed == old(self).map().contains_key(key@),
            final(self).map() == old(self).map().remove(key@),
    {
        match self.find(key) {
            Ok(i) => {
                let ghost e = self@;
                proof {
                    lemma_index_of(e, i as int);
                }
                let _ = self.entries.remove(i);
                proof {
                    assert(self@ =~= e.remove(i as int));
                    lemma_remove_entry(e, i as int);
                }
                true
            },
            Err(_) => {
                assert(self.map() =~= self.map().remove(key@));
                false
            },
        }
    }
}

/// The stored value of a key, empty when the key is absent.
pub open spec fn value_or_empty<T>(m: Map<Seq<char>, Seq<T>>, k: Seq<char>) -> Seq<T> {
    if m.contains_key(k) {
        m[k]
    } else {
        Seq::empty()
    }
}

pub open spec fn pair_views<V: View>(e: Seq<(Vec<char>, V)>) -> Entries<V::V> {
    entry_views(e)
}

impl<V: StoreValue> Store<V> {
    /// The entries whose key starts with `prefix`, in key order.
    pub fn prefixed(&self, prefix: &[char]) -> (out: Vec<(Vec<char>, V)>)
        ensures
            pair_views(out@) == with_prefix(self@, prefix@),
    {
        let mut out: Vec<(Vec<char>, V)> = Vec::new();
        let mut i: usize = 0;
        while i < self.entries.len()
            invariant
                i <= self@.len(),
                pair_views(out@) == with_prefix(self@.take(i as int), prefix@),
            decreases self@.len() - i,
        {
            let ghost t = self@.take(i + 1);
            assert(t.drop_last() =~= self@.take(i as int));
            assert(t.last() == self@[i as int]);
            if starts_with(self.entries[i].0.as_slice(), prefix) {
                let k = vstd::slice::slice_to_vec(self.entries[i].0.as_slice());
                let v = self.entries[i].1.duplicate();
                let ghost before = out@;
                out.push((k, v));
                assert(pair_views(out@) =~= pair_views(before).push(self@[i as int]));
            }
            i = i + 1;
        }
        assert(self@.take(self@.len() as int) =~= self@);
        out
    }
}

/// The map after setting each pair in turn.
pub open spec fn insert_pairs<W>(m: Map<Seq<char>, W>, pairs: Entries<W>) -> Map<Seq<char>, W>
    decreases pairs.len(),
{
    if pairs.len() == 0 {
        m
    } else {
        insert_pairs(m, pairs.drop_last()).insert(pairs.last().0, pairs.last().1)
    }
}

/// Setting the entries of a store in turn, from nothing, gives its map.
pub proof fn lemma_insert_pairs_to_map<W>(e: Entries<W>)
    requires
        sorted_keys(e),
    ensures
        insert_pairs(Map::<Seq<char>, W>::empty(), e) == to_map(e),
    decreases e.len(),
{
    if e.len() == 0 {
        assert(to_map(e) =~= Map::<Seq<char>, W>::empty());
    } else {
        let d = e.drop_last();
        assert(sorted_keys(d)) by {
            assert forall|i: int, j: int| 0 <= i < j < d.len() implies key_lt(#[trigger] d[i].0, #[trigger] d[j].0) by {
                assert(d[i] == e[i] && d[j] == e[j]);
            }
        }
        lemma_insert_pairs_to_map(d);
        let (k, v) = e.last();
        let n = e.len() - 1;
        lemma_index_of(e, n);
        assert forall|x: Seq<char>| #[trigger] contains_key(e, x) <==> contains_key(d, x) || x == k by {
            if contains_key(e, x) {
                let i = choose|i: int| 0 <= i < e.len() && #[trigger] e[i].0 == x;
                if i < n {
                    assert(d[i].0 == x);
                }
            }
            if contains_key(d, x) {
                let i = choose|i: int| 0 <= i < d.len() && #[trigger] d[i].0 == x;
                assert(e[i].0 == x);
            }
        }
        assert forall|x: Seq<char>| #[trigger] contains_key(d, x) implies to_map(e)[x] == to_map(d)[x] && x != k by {
            let i = choose|i: int| 0 <= i < d.len() && #[trigger] d[i].0 == x;
            assert(e[i] == d[i]);
            lemma_index_of(e, i);
            lemma_index_of(d, i);
            if x == k {
                assert(key_lt(e[i].0, e[n].0));
                lemma_key_lt_irreflexive(x);
            }
        }
        assert(to_map(e) =~= to_map(d).insert(k, v));
    }
}

impl<V: StoreValue> Store<V> {
    /// A copy of the entries, in key order.
    pub fn pairs(&self) -> (out: Vec<(Vec<char>, V)>)
        ensures
            pair_views(out@) == self@,
    {
        let mut out: Vec<(Vec<char>, V)> = Vec::new();
        let mut i: usize = 0;
        while i < self.entries.len()
            invariant
                i <= self@.len(),
                pair_views(out@) == self@.take(i as int),
            decreases self@.len() - i,
        {
            let k = vstd::slice::slice_to_vec(self.entries[i].0.as_slice());
            let v = self.entries[i].1.duplicate();
            let ghost before = out@;
            out.push((k, v));
            assert(pair_views(out@) =~= pair_views(before).push(self@[i as int]));
            assert(self@.take(i + 1) =~= self@.take(i as int).push(self@[i as int]));
            i = i + 1;
        }
        assert(self@.take(self@.len() as int) =~= self@);
        out
    }

    /// A store holding the pairs, each set in turn.
    pub fn from_pairs(pairs: Vec<(Vec<char>, V)>) -> (s: Store<V>)
        ensures
            s.wf(),
            s.map() == insert_pairs(Map::<Seq<char>, V::V>::empty(), pair_views(pairs@)),
    {
        let mut s: Store<V> = Store::new();
        let ghost all = pair_views(pairs@);
        let mut rest = pairs;
        let n = rest.len();
        let mut i: usize = 0;
        proof {
            assert(all.take(0) =~= Seq::<(Seq<char>, V::V)>::empty());
            assert(pair_views(rest@) =~= all.skip(0));
        }
        while i < n
            invariant
                n == all.len(),
                i <= n,
                s.wf(),
                pair_views(rest@) == all.skip(i as int),
                s.map() == insert_pairs(Map::<Seq<char>, V::V>::empty(), all.take(i as int)),
            decreases n - i,
        {
            let ghost before = rest@;
            assert(pair_views(before).len() == n - i);
            let (k, v) = rest.remove(0);
            assert(pair_views(before)[0] == all[i as int]);
            assert(pair_views(rest@) =~= all.skip(i + 1)) by {
                assert(rest@ =~= before.skip(1));
                assert forall|j: int| 0 <= j < rest@.len() implies #[trigger] pair_views(rest@)[j] == all.skip(i + 1)[j] by {
                    assert(pair_views(rest@)[j] == (rest@[j].0@, rest@[j].1@));
                    assert(rest@[j] == before[j + 1]);
                    assert(pair_views(before)[j + 1] == all.skip(i as int)[j + 1]);
                }
            }
            s.insert(k, v);
            assert(all.take(i + 1).drop_last() =~= all.take(i as int));
            assert(all.take(i + 1).last() == all[i as int]);
            i = i + 1;
        }
        assert(all.take(n as int) =~= all);
        s
    }
}

/// Some entry's key continues `k` with a dot: `k` has children in JSON.
pub open spec fn has_dotted_child<W>(e: Entries<W>, k: Seq<char>) -> bool {
    exists|j: int| 0 <= j < e.len() && has_prefix(#[trigger] e[j].0, k.push('.'))
}

/// The entries of `e` that stay leaves of the JSON tree built from `all`:
/// those without children (a key with children becomes an object).
pub open spec fn leaves_of<W>(all: Entries<W>, e: Entries<W>) -> Entries<W>
    decreases e.len(),
{
    if e.len() == 0 {
        e
    } else if has_dotted_child(all, e.last().0) {
        leaves_of(all, e.drop_last())
    } else {
        leaves_of(all, e.drop_last()).push(e.last())
    }
}

/// The pieces of `k` between dots (`str::split('.')`).
pub open spec fn split_dots(k: Seq<char>) -> Seq<Seq<char>>
    decreases k.len(),
{
    if k.len() == 0 {
        seq![Seq::empty()]
    } else {
        let prev = split_dots(k.drop_last());
        if k.last() == '.' {
            prev.push(Seq::empty())
        } else {
            prev.update(prev.len() - 1, prev.last().push(k.last()))
        }
    }
}

proof fn lemma_split_dots_len(k: Seq<char>)
    ensures
        split_dots(k).len() >= 1,
    decreases k.len(),
{
    if k.len() > 0 {
        lemma_split_dots_len(k.drop_last());
    }
}

pub open spec fn string_views(v: Seq<String>) -> Seq<Seq<char>> {
    v.map_values(|x: String| x@)
}

/// Splits a key at its dots.
pub fn split_key(k: &[char]) -> (parts: Vec<String>)
    ensures
        string_views(parts@) == split_dots(k@),
{
    let mut parts: Vec<String> = Vec::new();
    let mut cur: Vec<char> = Vec::new();
    let mut i: usize = 0;
    assert(k@.take(0) =~= Seq::<char>::empty());
    assert(string_views(parts@).push(cur@) =~= split_dots(k@.take(0)));
    while i < k.len()
        invariant
            i <= k@.len(),
            string_views(parts@).push(cur@) == split_dots(k@.take(i as int)),
        decreases k@.len() - i,
    {
        let ghost t = k@.take(i + 1);
        assert(t.drop_last() =~= k@.take(i as int));
        proof {
            lemma_split_dots_len(k@.take(i as int));
        }
        if k[i] == '.' {
            let done = string_of(cur.as_slice());
            cur = Vec::new();
            parts.push(done);
            assert(string_views(parts@).push(cur@) =~= split_dots(t));
        } else {
            cur.push(k[i]);
            assert(string_views(parts@).push(cur@) =~= split_dots(t));
        }
        i = i + 1;
    }
    assert(k@.take(k@.len() as int) =~= k@);
    let last = string_of(cur.as_slice());
    parts.push(last);
    assert(string_views(parts@) =~= split_dots(k@));
    parts
}

/// A leaf of the JSON tree: the path of object keys to it, and its bytes.
pub struct JsonLeaf<V> {
    pub path: Vec<String>,
    pub value: V,
}

pub open spec fn leaf_views<V: View>(v: Seq<JsonLeaf<V>>) -> Seq<(Seq<Seq<char>>, V::V)> {
    v.map_values(|l: JsonLeaf<V>| (string_views(l.path@), l.value@))
}

/// The leaves, with their paths, of the JSON tree built from entries.
pub open spec fn json_leaves_spec<W>(e: Entries<W>) -> Seq<(Seq<Seq<char>>, W)> {
    leaves_of(e, e).map_values(|x: (Seq<char>, W)| (split_dots(x.0), x.1))
}

fn has_child<V: View>(kv: &[(Vec<char>, V)], k: &[char]) -> (b: bool)
    ensures
        b == has_dotted_child(pair_views(kv@), k@),
{
    let mut dotted = vstd::slice::slice_to_vec(k);
    dotted.push('.');
    let mut j: usize = 0;
    while j < kv.len()
        invariant
            j <= kv@.len(),
            dotted@ == k@.push('.'),
            forall|i: int| 0 <= i < j ==> !has_prefix(#[trigger] pair_views(kv@)[i].0, k@.push('.')),
        decreases kv@.len() - j,
    {
        if starts_with(kv[j].0.as_slice(), dotted.as_slice()) {
            assert(has_prefix(pair_views(kv@)[j as int].0, k@.push('.')));
            return true;
        }
        j = j + 1;
    }
    false
}

/// Merges json values with the same parent: every entry becomes a leaf at the
/// path of its dotted key, unless other keys continue it (then it is an object
/// of those). The entries are sorted, so no leaf stands where an object must.
pub fn kv_to_json<V: StoreValue>(kv: &[(Vec<char>, V)]) -> (leaves: Vec<JsonLeaf<V>>)
    ensures
        leaf_views(leaves@) == json_leaves_spec(pair_views(kv@)),
{
    let ghost all = pair_views(kv@);
    let mut leaves: Vec<JsonLeaf<V>> = Vec::new();
    let mut i: usize = 0;
    while i < kv.len()
        invariant
            i <= kv@.len(),
            all == pair_views(kv@),
            leaf_views(leaves@) == leaves_of(all, all.take(i as int)).map_values(
                |x: (Seq<char>, V::V)| (split_dots(x.0), x.1),
            ),
        decreases kv@.len() - i,
    {
        let ghost t = all.take(i + 1);
        assert(t.drop_last() =~= all.take(i as int));
        assert(t.last() == all[i as int]);
        if !has_child(kv, kv[i].0.as_slice()) {
            let path = split_key(kv[i].0.as_slice());
            let value = kv[i].1.duplicate();
            let ghost before = leaf_views(leaves@);
            leaves.push(JsonLeaf { path, value });
            assert(leaf_views(leaves@) =~= before.push((split_dots(all[i as int].0), all[i as int].1)));
        }
        assert(leaf_views(leaves@) =~= leaves_of(all, t).map_values(
            |x: (Seq<char>, V::V)| (split_dots(x.0), x.1),
        ));
        i = i + 1;
    }
    assert(all.take(all.len() as int) =~= all);
    leaves
}

/// The JSON pointer of a key: `/` and the key, its dots made slashes.
pub open spec fn pointer_spec(k: Seq<char>) -> Seq<char> {
    seq!['/'] + k.map_values(|c: char| if c == '.' { '/' } else { c })
}

pub fn json_pointer(k: &[char]) -> (p: String)
    ensures
        p@ == pointer_spec(k@),
{
    let mut v: Vec<char> = Vec::new();
    v.push('/');
    let mut i: usize = 0;
    while i < k.len()
        invariant
            i <= k@.len(),
            v@ == seq!['/'] + k@.take(i as int).map_values(|c: char| if c == '.' { '/' } else { c }),
        decreases k@.len() - i,
    {
        let c = k[i];
        v.push(if c == '.' { '/' } else { c });
        assert(k@.take(i + 1).map_values(|c: char| if c == '.' { '/' } else { c })
            =~= k@.take(i as int).map_values(|c: char| if c == '.' { '/' } else { c }).push(
            if c == '.' { '/' } else { c },
        ));
        i = i + 1;
        assert(v@ =~= seq!['/'] + k@.take(i as int).map_values(|c: char| if c == '.' { '/' } else { c }));
    }
    assert(k@.take(k@.len() as int) =~= k@);
    string_of(v.as_slice())
}


/// A JSON reply to build: the tree's leaves, the pointer into it, and how to
/// answer. With `trim` the reply is the value at the pointer, else the whole
/// tree when the pointer leads somewhere; when it leads nowhere, the reply is
/// the whole tree if `whole_on_miss` (an empty key), else an empty object.
pub struct JsonRequest<V> {
    pub leaves: Vec<JsonLeaf<V>>,
    pub pointer: String,
    pub trim: bool,
    pub whole_on_miss: bool,
    pub from_id: usize,
    pub msg_id: usize,
}

pub struct JsonRequestModel<W> {
    pub leaves: Seq<(Seq<Seq<char>>, W)>,
    pub pointer: Seq<char>,
    pub trim: bool,
    pub whole_on_miss: bool,
    pub from_id: usize,
    pub msg_id: usize,
}

impl<V: View> View for JsonRequest<V> {
    type V = JsonRequestModel<V::V>;

    open spec fn view(&self) -> JsonRequestModel<V::V> {
        JsonRequestModel {
            leaves: leaf_views(self.leaves@),
            pointer: self.pointer@,
            trim: self.trim,
            whole_on_miss: self.whole_on_miss,
            from_id: self.from_id,
            msg_id: self.msg_id,
        }
    }
}


/// The JSON reply that a `j` (`trim`) or `js` query of key `k` asks for.
pub open spec fn json_request<W>(e: Entries<W>, k: Seq<char>, trim: bool, f: usize, g: usize) -> JsonRequestModel<W> {
    JsonRequestModel {
        leaves: json_leaves_spec(with_prefix(e, k)),
        pointer: pointer_spec(k),
        trim,
        whole_on_miss: k.len() == 0,
        from_id: f,
        msg_id: g,
    }
}

impl<V: StoreValue> Store<V> {
    /// The JSON reply to a `j` or `js` query of a key.
    pub fn json_reply(&self, key: String, trim: bool, from_id: usize, msg_id: usize) -> (out: JsonRequest<V>)
        requires
            self.wf(),
        ensures
            out@ == json_request(self@, key@, trim, from_id, msg_id),
    {
        let k = crate::text::chars_of(key.as_str());
        let kv = self.prefixed(k.as_slice());
        let leaves = kv_to_json(kv.as_slice());
        let pointer = json_pointer(k.as_slice());
        JsonRequest { leaves, pointer, trim, whole_on_miss: k.len() == 0, from_id, msg_id }
    }
}

} // verus!
