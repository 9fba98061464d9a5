//! The subscriptions of the text server: who listens to which key, the
//! messages that a change sends, and the subscriptions whose client is gone.
use vstd::prelude::*;

use crate::assoc::{assoc_map, has_key, lemma_assoc_push, lemma_assoc_update, lemma_key_index, unique_keys};
use crate::server::parse::Instr;
use crate::subs::{get_key_combinations, json_object_string, json_object_text, key_combinations, string_views};
use crate::text::{chars_of, is_last_segment, last_segment, last_segment_of, law_last_segment, string_of};

verus! {

/// One subscription: the client that listens, and the form it wants.
#[derive(Clone, Copy)]
pub struct Sub {
    pub id: usize,
    pub instr: Instr,
}

pub open spec fn sub_views(v: Seq<Sub>) -> Seq<(usize, Instr)> {
    v.map_values(|s: Sub| (s.id, s.instr))
}

/// The message that a subscription of form `instr` gets when `key` takes
/// `val`: the value as JSON under the key's last segment, the value alone,
/// or the last segment and the value; none for another form.
pub open spec fn message_for(instr: Instr, key: Seq<char>, val: Seq<char>) -> Option<Seq<char>> {
    match instr {
        Instr::SubJ => Some(json_object_text(last_segment(key), val)),
        Instr::SubGet => Some(val),
        Instr::SubBite => Some(last_segment(key) + seq![' '] + val),
        _ => None,
    }
}

/// A message for one subscription: the key it subscribed to, its place
/// among that key's subscriptions, its client, and the text.
pub struct Delivery {
    pub key: String,
    pub index: usize,
    pub to: usize,
    pub message: String,
}

pub type DeliveryModel = (Seq<char>, int, usize, Seq<char>);

pub open spec fn delivery_views(v: Seq<Delivery>) -> Seq<DeliveryModel> {
    v.map_values(|d: Delivery| (d.key@, d.index as int, d.to, d.message@))
}

/// The messages for the first `n` subscriptions `s` of key `alt`.
pub open spec fn alt_deliveries(alt: Seq<char>, s: Seq<(usize, Instr)>, n: int, key: Seq<char>, val: Seq<char>) -> Seq<DeliveryModel>
    decreases n,
{
    if n <= 0 {
        Seq::empty()
    } else {
        let prev = alt_deliveries(alt, s, n - 1, key, val);
        match message_for(s[n - 1].1, key, val) {
            Some(m) => prev.push((alt, n - 1, s[n - 1].0, m)),
            None => prev,
        }
    }
}

pub open spec fn subs_at(ks: Map<Seq<char>, Seq<(usize, Instr)>>, k: Seq<char>) -> Seq<(usize, Instr)> {
    if ks.contains_key(k) {
        ks[k]
    } else {
        Seq::empty()
    }
}

/// The messages when `key` takes `val`: for the key and each parent key,
/// longest first, each subscription in the order it was made.
pub open spec fn call_deliveries(ks: Map<Seq<char>, Seq<(usize, Instr)>>, alts: Seq<Seq<char>>, key: Seq<char>, val: Seq<char>) -> Seq<DeliveryModel>
    decreases alts.len(),
{
    if alts.len() == 0 {
        Seq::empty()
    } else {
        let s = subs_at(ks, alts.last());
        call_deliveries(ks, alts.drop_last(), key, val) + alt_deliveries(alts.last(), s, s.len() as int, key, val)
    }
}

/// `Vec::swap_remove` at index `i`: the last subscription takes its place.
pub open spec fn swap_remove_at<T>(s: Seq<T>, i: int) -> Seq<T> {
    s.update(i, s.last()).drop_last()
}

/// The subscriptions after removing those at the indices `idx`, the last
/// index first.
pub open spec fn remove_positions<T>(s: Seq<T>, idx: Seq<int>) -> Seq<T>
    decreases idx.len(),
{
    if idx.len() == 0 {
        s
    } else {
        remove_positions(swap_remove_at(s, idx.last()), idx.drop_last())
    }
}

/// A subscriber of the text server gets, when `key` takes `val`: in the `#j`
/// form the JSON object of the text after the last `.` of the key and the
/// value; in the `#b` form that text, a space and the value; in the `#g`
/// form the value.
pub proof fn law_message_for(key: Seq<char>, val: Seq<char>, seg: Seq<char>)
    requires
        is_last_segment(key, seg),
    ensures
        message_for(Instr::SubJ, key, val) == Some(json_object_text(seg, val)),
        message_for(Instr::SubBite, key, val) == Some(seg + seq![' '] + val),
        message_for(Instr::SubGet, key, val) == Some(val),
{
    law_last_segment(key);
}

/// Who listens to which key.
pub struct Subs {
    subs: Vec<(String, Vec<Sub>)>,
}

impl Subs {
    pub closed spec fn entries(&self) -> Seq<(Seq<char>, Seq<(usize, Instr)>)> {
        self.subs@.map_values(|e: (String, Vec<Sub>)| (e.0@, sub_views(e.1@)))
    }

    /// The subscriptions of each key, in the order they were made.
    pub open spec fn keys(&self) -> Map<Seq<char>, Seq<(usize, Instr)>> {
        assoc_map(self.entries())
    }

    /// No key twice.
    pub open spec fn wf(&self) -> bool {
        unique_keys(self.entries())
    }

    pub fn new() -> (s: Subs)
        ensures
            s.wf(),
            s.keys() == Map::<Seq<char>, Seq<(usize, Instr)>>::empty(),
    {
        let s = Subs { subs: Vec::new() };
        assert(s.entries() =~= Seq::<(Seq<char>, Seq<(usize, Instr)>)>::empty());
        assert(s.keys() =~= Map::<Seq<char>, Seq<(usize, Instr)>>::empty());
        s
    }

    fn find(&self, key: &String) -> (r: Option<usize>)
        ensures
            match r {
                Some(i) => i < self.entries().len() && self.entries()[i as int].0 == key@,
                None => !has_key(self.entries(), key@),
            },
    {
        let mut i: usize = 0;
        while i < self.subs.len()
            invariant
                i <= self.subs@.len(),
                forall|j: int| 0 <= j < i ==> #[trigger] self.entries()[j].0 != key@,
            decreases self.subs@.len() - i,
        {
            if self.subs[i].0 == *key {
                return Some(i);
            }
            i = i + 1;
        }
        None
    }

    /// How many subscriptions `key` has.
    pub fn count_of(&self, key: &String) -> (n: usize)
        requires
            self.wf(),
        ensures
            n == subs_at(self.keys(), key@).len(),
    {
        match self.find(key) {
            Some(i) => {
                proof {
                    lemma_key_index(self.entries(), i as int);
                }
                assert(sub_views(self.subs@[i as int].1@).len() == self.subs@[i as int].1@.len());
                self.subs[i].1.len()
            },
            None => 0,
        }
    }

    /// Client `id` subscribes to `key` in form `instr`.
    pub fn add(&mut self, key: String, id: usize, instr: Instr)
        requires
            old(self).wf(),
        ensures
            final(self).wf(),
            final(self).keys() == old(self).keys().insert(key@, subs_at(old(self).keys(), key@).push((id, instr))),
    {
        let ghost e = self.entries();
        match self.find(&key) {
            Some(i) => {
                proof {
                    lemma_key_index(e, i as int);
                }
                let (k, mut v) = self.subs.remove(i);
                let ghost old_v = sub_views(v@);
                v.push(Sub { id, instr });
                assert(sub_views(v@) =~= old_v.push((id, instr)));
                self.subs.insert(i, (k, v));
                proof {
                    assert(self.entries() =~= e.update(i as int, (key@, old_v.push((id, instr)))));
                    lemma_assoc_update(e, i as int, old_v.push((id, instr)));
                }
            },
            None => {
                let mut v: Vec<Sub> = Vec::new();
                v.push(Sub { id, instr });
                assert(sub_views(v@) =~= Seq::<(usize, Instr)>::empty().push((id, instr)));
                let ghost kv = key@;
                self.subs.push((key, v));
                proof {
                    assert(self.entries() =~= e.push((kv, seq![(id, instr)])));
                    lemma_assoc_push(e, kv, seq![(id, instr)]);
                }
            },
        }
    }

    /// The messages to send when `key` takes `val`.
    pub fn call(&self, key: &String, val: &String) -> (out: Vec<Delivery>)
        requires
            self.wf(),
        ensures
            delivery_views(out@) == call_deliveries(self.keys(), key_combinations(key@), key@, val@),
    {
        let alts = get_key_combinations(key.as_str());
        let ghost all = string_views(alts@);
        let seg = string_of(last_segment_of(chars_of(key.as_str()).as_slice()).as_slice());
        let mut out: Vec<Delivery> = Vec::new();
        let mut a: usize = 0;
        while a < alts.len()
            invariant
                a <= alts@.len(),
                all == string_views(alts@),
                all == key_combinations(key@),
                seg@ == last_segment(key@),
                self.wf(),
                delivery_views(out@) == call_deliveries(self.keys(), all.take(a as int), key@, val@),
            decreases alts@.len() - a,
        {
            let alt = &alts[a];
            let ghost before = delivery_views(out@);
            let ghost s = subs_at(self.keys(), alt@);
            match self.find(alt) {
                Some(i) => {
                    proof {
                        lemma_key_index(self.entries(), i as int);
                    }
                    let subs = &self.subs[i].1;
                    assert(sub_views(subs@) == s);
                    let mut j: usize = 0;
                    while j < subs.len()
                        invariant
                            j <= subs@.len(),
                            sub_views(subs@) == s,
                            seg@ == last_segment(key@),
                            delivery_views(out@) == before + alt_deliveries(alt@, s, j as int, key@, val@),
                        decreases subs@.len() - j,
                    {
                        let sub = subs[j];
                        let ghost prev = delivery_views(out@);
                        assert(s[j as int] == (sub.id, sub.instr));
                        let ghost expected = message_for(sub.instr, key@, val@);
                        let message: Option<String> = match sub.instr {
                            Instr::SubJ => Some(json_object_string(seg.as_str(), val.as_str())),
                            Instr::SubGet => {
                                let m = val.clone();
                                assert(m@ == val@);
                                Some(m)
                            },
                            Instr::SubBite => {
                                let mut m = chars_of(seg.as_str());
                                m.push(' ');
                                let mut rest = chars_of(val.as_str());
                                m.append(&mut rest);
                                assert(m@ =~= seg@ + seq![' '] + val@);
                                Some(string_of(m.as_slice()))
                            },
                            _ => None,
                        };
                        assert(message is Some <==> expected is Some);
                        assert(message matches Some(m) ==> m@ == expected->0);
                        match message {
                            Some(m) => {
                                out.push(Delivery { key: alt.clone(), index: j, to: sub.id, message: m });
                                assert(delivery_views(out@) =~= prev.push((alt@, j as int, sub.id, message_for(sub.instr, key@, val@)->0)));
                            },
                            None => {},
                        }
                        j = j + 1;
                    }
                },
                None => {
                    assert(s =~= Seq::<(usize, Instr)>::empty());
                },
            }
            proof {
                assert(all.take(a + 1).drop_last() =~= all.take(a as int));
                assert(all.take(a + 1).last() == alt@);
            }
            a = a + 1;
        }
        assert(all.take(alts@.len() as int) =~= all);
        out
    }

    /// Removes the subscriptions of `key` at the indices `failed` (whose
    /// client is gone), the last index first; they are in increasing order.
    pub fn drop_failed(&mut self, key: &String, failed: &[usize])
        requires
            old(self).wf(),
            forall|a: int, b: int| 0 <= a < b < failed@.len() ==> failed@[a] < failed@[b],
            failed@.len() > 0 ==> failed@.last() < subs_at(old(self).keys(), key@).len(),
        ensures
            final(self).wf(),
            final(self).keys() == if old(self).keys().contains_key(key@) {
                old(self).keys().insert(
                    key@,
                    remove_positions(old(self).keys()[key@], failed@.map_values(|i: usize| i as int)),
                )
            } else {
                old(self).keys()
            },
    {
        let ghost e = self.entries();
        let ghost idx = failed@.map_values(|i: usize| i as int);
        match self.find(key) {
            Some(i) => {
                proof {
                    lemma_key_index(e, i as int);
                }
                let (k, mut v) = self.subs.remove(i);
                let ghost s0 = sub_views(v@);
                let mut j = failed.len();
                assert(idx.take(j as int) =~= idx);
                while j > 0
                    invariant
                        j <= failed@.len(),
                        idx == failed@.map_values(|i: usize| i as int),
                        forall|a: int, b: int| 0 <= a < b < failed@.len() ==> failed@[a] < failed@[b],
                        failed@.len() > 0 ==> failed@.last() < s0.len(),
                        v@.len() == s0.len() - (failed@.len() - j),
                        remove_positions(s0, idx) == remove_positions(sub_views(v@), idx.take(j as int)),
                    decreases j,
                {
                    proof {
                        lemma_ascending_gap(failed@, j - 1, failed@.len() - 1);
                    }
                    let ghost cur = sub_views(v@);
                    let p = failed[j - 1];
                    let _ = v.swap_remove(p);
                    proof {
                        assert(sub_views(v@) =~= swap_remove_at(cur, p as int));
                        assert(idx.take(j as int).drop_last() =~= idx.take(j - 1));
                        assert(idx.take(j as int).last() == p as int);
                    }
                    j = j - 1;
                }
                assert(idx.take(0) =~= Seq::<int>::empty());
                let ghost nv = sub_views(v@);
                self.subs.insert(i, (k, v));
                proof {
                    assert(self.entries() =~= e.update(i as int, (key@, nv)));
                    lemma_assoc_update(e, i as int, nv);
                    assert(idx.len() == failed@.len());
                }
            },
            None => {},
        }
    }
}

proof fn lemma_ascending_gap(s: Seq<usize>, a: int, b: int)
    requires
        0 <= a <= b < s.len(),
        forall|x: int, y: int| 0 <= x < y < s.len() ==> s[x] < s[y],
    ensures
        s[a] + (b - a) <= s[b],
    decreases b - a,
{
    if a < b {
        lemma_ascending_gap(s, a, b - 1);
    }
}

proof fn lemma_alt_has(alt: Seq<char>, s: Seq<(usize, Instr)>, n: int, key: Seq<char>, val: Seq<char>, i: int)
    requires
        0 <= i < n <= s.len(),
        message_for(s[i].1, key, val) is Some,
    ensures
        alt_deliveries(alt, s, n, key, val).contains((alt, i, s[i].0, message_for(s[i].1, key, val)->0)),
    decreases n,
{
    let d = (alt, i, s[i].0, message_for(s[i].1, key, val)->0);
    let prev = alt_deliveries(alt, s, n - 1, key, val);
    if i == n - 1 {
        assert(alt_deliveries(alt, s, n, key, val) == prev.push(d));
        assert(prev.push(d)[prev.len() as int] == d);
    } else {
        lemma_alt_has(alt, s, n - 1, key, val, i);
        let x = choose|x: int| 0 <= x < prev.len() && prev[x] == d;
        match message_for(s[n - 1].1, key, val) {
            Some(m) => assert(prev.push((alt, n - 1, s[n - 1].0, m))[x] == d),
            None => {},
        }
    }
}

proof fn lemma_call_has(
    ks: Map<Seq<char>, Seq<(usize, Instr)>>,
    alts: Seq<Seq<char>>,
    key: Seq<char>,
    val: Seq<char>,
    j: int,
    i: int,
)
    requires
        0 <= j < alts.len(),
        0 <= i < subs_at(ks, alts[j]).len(),
        message_for(subs_at(ks, alts[j])[i].1, key, val) is Some,
    ensures
        call_deliveries(ks, alts, key, val).contains(
            (alts[j], i, subs_at(ks, alts[j])[i].0, message_for(subs_at(ks, alts[j])[i].1, key, val)->0),
        ),
    decreases alts.len(),
{
    let s = subs_at(ks, alts.last());
    let prev = call_deliveries(ks, alts.drop_last(), key, val);
    let last = alt_deliveries(alts.last(), s, s.len() as int, key, val);
    let d = (alts[j], i, subs_at(ks, alts[j])[i].0, message_for(subs_at(ks, alts[j])[i].1, key, val)->0);
    if j == alts.len() - 1 {
        lemma_alt_has(alts.last(), s, s.len() as int, key, val, i);
        let x = choose|x: int| 0 <= x < last.len() && last[x] == d;
        assert((prev + last)[prev.len() + x] == d);
    } else {
        assert(alts.drop_last()[j] == alts[j]);
        lemma_call_has(ks, alts.drop_last(), key, val, j, i);
        let x = choose|x: int| 0 <= x < prev.len() && prev[x] == d;
        assert((prev + last)[x] == d);
    }
}

/// A client that subscribes to a key with `#g` is sent the value that the
/// key, or a key under it, then takes.
pub proof fn law_subscriber_gets_value(
    ks: Map<Seq<char>, Seq<(usize, Instr)>>,
    k: Seq<char>,
    id: usize,
    changed: Seq<char>,
    val: Seq<char>,
)
    requires
        key_combinations(changed).contains(k),
    ensures
        ({
            let ks1 = ks.insert(k, subs_at(ks, k).push((id, Instr::SubGet)));
            call_deliveries(ks1, key_combinations(changed), changed, val).contains(
                (k, subs_at(ks, k).len() as int, id, val),
            )
        }),
{
    let ks1 = ks.insert(k, subs_at(ks, k).push((id, Instr::SubGet)));
    let alts = key_combinations(changed);
    let j = choose|j: int| 0 <= j < alts.len() && alts[j] == k;
    let i = subs_at(ks, k).len() as int;
    assert(subs_at(ks1, k)[i] == (id, Instr::SubGet));
    lemma_call_has(ks1, alts, changed, val, j, i);
}

/// The index of the last group of key `k`.
pub open spec fn group_of(g: Seq<(Seq<char>, Seq<usize>)>, k: Seq<char>) -> Option<int>
    decreases g.len(),
{
    if g.len() == 0 {
        None
    } else if g.last().0 == k {
        Some(g.len() - 1)
    } else {
        group_of(g.drop_last(), k)
    }
}

/// Failed deliveries grouped by key: the keys in the order they first
/// failed, each with its indices in the order they failed.
pub open spec fn group_spec(f: Seq<(Seq<char>, usize)>) -> Seq<(Seq<char>, Seq<usize>)>
    decreases f.len(),
{
    if f.len() == 0 {
        Seq::empty()
    } else {
        let g = group_spec(f.drop_last());
        let (k, i) = f.last();
        match group_of(g, k) {
            Some(p) => g.update(p, (k, g[p].1.push(i))),
            None => g.push((k, seq![i])),
        }
    }
}

pub open spec fn failed_views(v: Seq<(String, usize)>) -> Seq<(Seq<char>, usize)> {
    v.map_values(|x: (String, usize)| (x.0@, x.1))
}

pub open spec fn group_views(v: Seq<(String, Vec<usize>)>) -> Seq<(Seq<char>, Seq<usize>)> {
    v.map_values(|x: (String, Vec<usize>)| (x.0@, x.1@))
}

proof fn lemma_group_of_range(g: Seq<(Seq<char>, Seq<usize>)>, k: Seq<char>)
    ensures
        match group_of(g, k) {
            Some(p) => 0 <= p < g.len() && g[p].0 == k,
            None => true,
        },
    decreases g.len(),
{
    if g.len() > 0 && g.last().0 != k {
        lemma_group_of_range(g.drop_last(), k);
    }
}

/// Groups the failed deliveries (key, index) by key, for `drop_failed`.
pub fn group_failed(failed: &Vec<(String, usize)>) -> (groups: Vec<(String, Vec<usize>)>)
    ensures
        group_views(groups@) == group_spec(failed_views(failed@)),
{
    let ghost fv = failed_views(failed@);
    let mut groups: Vec<(String, Vec<usize>)> = Vec::new();
    let mut n: usize = 0;
    while n < failed.len()
        invariant
            n <= failed@.len(),
            fv == failed_views(failed@),
            group_views(groups@) == group_spec(fv.take(n as int)),
        decreases failed@.len() - n,
    {
        let ghost g = group_views(groups@);
        let k = &failed[n].0;
        let i = failed[n].1;
        assert(fv.take(n + 1).drop_last() =~= fv.take(n as int));
        assert(fv.take(n + 1).last() == (k@, i));
        // The last group of `k`.
        let mut found: Option<usize> = None;
        let mut j: usize = 0;
        while j < groups.len()
            invariant
                j <= groups@.len(),
                g == group_views(groups@),
                match found {
                    Some(x) => group_of(g.take(j as int), k@) == Some(x as int),
                    None => group_of(g.take(j as int), k@) is None,
                },
            decreases groups@.len() - j,
        {
            assert(g.take(j + 1).drop_last() =~= g.take(j as int));
            assert(g.take(j + 1).last() == g[j as int]);
            if groups[j].0 == *k {
                found = Some(j);
            }
            j = j + 1;
        }
        assert(g.take(g.len() as int) =~= g);
        proof {
            lemma_group_of_range(g, k@);
        }
        match found {
            Some(p) => {
                let (key, mut indices) = groups.remove(p);
                indices.push(i);
                groups.insert(p, (key, indices));
                assert(group_views(groups@) =~= g.update(p as int, (k@, g[p as int].1.push(i))));
            },
            None => {
                let key = k.clone();
                let mut indices: Vec<usize> = Vec::new();
                indices.push(i);
                assert(indices@ =~= seq![i]);
                let ghost before = groups@;
                groups.push((key, indices));
                assert(groups@ =~= before.push((key, indices)));
                assert(group_views(groups@) =~= g.push((k@, seq![i])));
            },
        }
        n = n + 1;
    }
    assert(fv.take(fv.len() as int) =~= fv);
    groups
}

} // verus!
