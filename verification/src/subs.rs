//! Subscriptions: which clients listen to which keys, and the messages that a
//! change of a key sends them.
use vstd::prelude::*;

use crate::parser::Command;
use crate::text::{chars_of, is_last_segment, last_segment, last_segment_of, law_last_segment, lossy_string, string_of, utf8_lossy};
use crate::assoc::{
    assoc_map, has_key, lemma_assoc_push, lemma_assoc_remove, lemma_assoc_update, lemma_key_index,
    unique_keys,
};
use crate::writer::{Order, OrderModel};
use vstd::utf8::encode_utf8;

verus! {

/// What the subscriptions are asked to do.
pub enum Action {
    /// Subscribe client `id` to a key, with a subscription command.
    Add(String, usize, Command),
    /// Unsubscribe client `id` from a key.
    Del(String, usize),
    /// Unsubscribe client `id` from every key.
    DelAll(usize),
    /// A key got a value: tell its subscribers and those of its parents
    /// (key, data, id of the client that set it, message id). Each push
    /// carries its subscriber's own id in the header, not the setter's.
    Call(String, Vec<u8>, usize, usize),
}

pub enum ActionModel {
    Add(Seq<char>, usize, Command),
    Del(Seq<char>, usize),
    DelAll(usize),
    Call(Seq<char>, Seq<u8>, usize, usize),
}

impl View for Action {
    type V = ActionModel;

    open spec fn view(&self) -> ActionModel {
        match self {
            Action::Add(k, id, c) => ActionModel::Add(k@, *id, *c),
            Action::Del(k, id) => ActionModel::Del(k@, *id),
            Action::DelAll(id) => ActionModel::DelAll(*id),
            Action::Call(k, d, f, m) => ActionModel::Call(k@, d@, *f, *m),
        }
    }
}

/// The index of the last dot of a key, if it has one.
pub open spec fn last_dot(k: Seq<char>) -> Option<int>
    decreases k.len(),
{
    if k.len() == 0 {
        None
    } else if k.last() == '.' {
        Some(k.len() - 1)
    } else {
        last_dot(k.drop_last())
    }
}

proof fn lemma_last_dot(k: Seq<char>)
    ensures
        match last_dot(k) {
            Some(d) => 0 <= d < k.len() && k[d] == '.' && forall|j: int| d < j < k.len() ==> k[j] != '.',
            None => forall|j: int| 0 <= j < k.len() ==> k[j] != '.',
        },
    decreases k.len(),
{
    if k.len() > 0 && k.last() != '.' {
        lemma_last_dot(k.drop_last());
        assert forall|j: int| 0 <= j < k.len() - 1 implies k[j] == k.drop_last()[j] by {}
    }
}

/// The key and each parent key, longest first:
/// "data.inner.value" -> ["data.inner.value", "data.inner", "data"]
pub open spec fn key_combinations(k: Seq<char>) -> Seq<Seq<char>>
    decreases k.len(),
{
    match last_dot(k) {
        Some(d) => {
            if 0 <= d < k.len() {
                seq![k] + key_combinations(k.take(d))
            } else {
                seq![k]
            }
        },
        None => seq![k],
    }
}

pub open spec fn string_views(v: Seq<String>) -> Seq<Seq<char>> {
    v.map_values(|x: String| x@)
}

/// "data.inner.value" -> ["data.inner.value", "data.inner", "data"]
pub fn get_key_combinations(key: &str) -> (keys: Vec<String>)
    ensures
        string_views(keys@) == key_combinations(key@),
{
    let mut cur = chars_of(key);
    let mut keys: Vec<String> = Vec::new();
    let ghost k0 = key@;
    loop
        invariant
            k0 == key@,
            string_views(keys@) + key_combinations(cur@) == key_combinations(k0),
        decreases cur@.len(),
    {
        let ghost before = string_views(keys@);
        keys.push(string_of(cur.as_slice()));
        let mut d = cur.len();
        while d > 0 && cur[d - 1] != '.'
            invariant
                d <= cur@.len(),
                forall|j: int| d <= j < cur@.len() ==> cur@[j] != '.',
            decreases d,
        {
            d = d - 1;
        }
        proof {
            lemma_last_dot(cur@);
            let ld = last_dot(cur@);
            if d > 0 {
                assert(ld == Some((d - 1) as int)) by {
                    match ld {
                        Some(x) => {
                            if x < d - 1 {
                                assert(cur@[d - 1] != '.');
                            } else if x > d - 1 {
                                assert(cur@[x] != '.');
                            }
                        },
                        None => {
                            assert(cur@[d - 1] != '.');
                        },
                    }
                }
            } else {
                assert(ld is None) by {
                    match ld {
                        Some(x) => {
                            assert(cur@[x] != '.');
                        },
                        None => {},
                    }
                }
            }
        }
        if d == 0 {
            assert(string_views(keys@) =~= before.push(cur@));
            assert(key_combinations(cur@) == seq![cur@]);
            assert(before.push(cur@) =~= before + seq![cur@]);
            assert(string_views(keys@) =~= key_combinations(k0)) by {
                assert(key_combinations(cur@) == seq![cur@]);
            }
            return keys;
        }
        let ghost old_cur = cur@;
        cur.truncate(d - 1);
        assert(cur@ =~= old_cur.take(d - 1));
        assert(string_views(keys@) =~= before.push(old_cur));
        assert(key_combinations(old_cur) == seq![old_cur] + key_combinations(cur@));
        assert(string_views(keys@) + key_combinations(cur@) =~= before + key_combinations(old_cur));
    }
}

/// The commands that a subscription is made with.
pub open spec fn is_sub_command(c: Command) -> bool {
    c == Command::SubGet || c == Command::SubKeyValue || c == Command::SubJson
}

/// Whether a command makes a subscription.
pub fn is_subscription(c: &Command) -> (b: bool)
    ensures
        b == is_sub_command(*c),
{
    match c {
        Command::SubGet | Command::SubKeyValue | Command::SubJson => true,
        _ => false,
    }
}

/// A hexadecimal digit as serde_json writes it (lower case).
pub open spec fn hex_digit(n: int) -> char {
    if n < 10 {
        (48 + n) as char
    } else {
        (87 + n) as char
    }
}

/// How serde_json writes a character inside a JSON string: a quote, a
/// backslash and the control characters are escaped, the short forms where
/// JSON has them and `\u00XX` for the others.
pub open spec fn json_escape_char(c: char) -> Seq<char> {
    if c == '"' {
        seq!['\\', '"']
    } else if c == '\\' {
        seq!['\\', '\\']
    } else if c == '\u{8}' {
        seq!['\\', 'b']
    } else if c == '\u{c}' {
        seq!['\\', 'f']
    } else if c == '\n' {
        seq!['\\', 'n']
    } else if c == '\r' {
        seq!['\\', 'r']
    } else if c == '\t' {
        seq!['\\', 't']
    } else if (c as int) < 0x20 {
        seq!['\\', 'u', '0', '0', hex_digit(c as int / 16), hex_digit(c as int % 16)]
    } else {
        seq![c]
    }
}

/// A text as it stands between the quotes of a JSON string.
pub open spec fn json_escape(s: Seq<char>) -> Seq<char>
    decreases s.len(),
{
    if s.len() == 0 {
        Seq::empty()
    } else {
        json_escape(s.drop_last()) + json_escape_char(s.last())
    }
}

/// The text of the JSON object `{key: value}` of one string value.
pub open spec fn json_object_text(key: Seq<char>, value: Seq<char>) -> Seq<char> {
    seq!['{', '"'] + json_escape(key) + seq!['"', ':', '"'] + json_escape(value) + seq!['"', '}']
}

/// serde_json: the text of the JSON object with one member, `key` with the
/// string `value` (`json!({ key: value }).to_string()`): the key and the
/// value in quotes, escaped as serde_json's string writer does.
#[verifier::external_body]
pub(crate) fn json_object_string(key: &str, value: &str) -> (text: String)
    ensures
        text@ == json_object_text(key@, value@),
{
    let mut object = serde_json::Map::new();
    object.insert(key.to_string(), serde_json::Value::String(value.to_string()));
    serde_json::Value::Object(object).to_string()
}

/// What a subscriber with command `c` receives when `k` gets `data`.
pub open spec fn render(c: Command, k: Seq<char>, data: Seq<u8>) -> Seq<u8> {
    if c == Command::SubKeyValue {
        encode_utf8(last_segment(k)) + seq![0x20u8] + data
    } else if c == Command::SubJson {
        encode_utf8(json_object_text(last_segment(k), utf8_lossy(data)))
    } else {
        data
    }
}

/// What a subscriber of a key or of one of its parents receives when the key
/// `k` gets `data`: in the `#k` form the text after the last `.` of `k`, a
/// space and the data; in the `#j` form the JSON object of that text and the
/// data as text; in the `#g` form the data itself.
pub proof fn law_render(k: Seq<char>, data: Seq<u8>, seg: Seq<char>)
    requires
        is_last_segment(k, seg),
    ensures
        render(Command::SubKeyValue, k, data) == encode_utf8(seg) + seq![0x20u8] + data,
        render(Command::SubJson, k, data) == encode_utf8(json_object_text(seg, utf8_lossy(data))),
        render(Command::SubGet, k, data) == data,
{
    law_last_segment(k);
}

fn render_for(c: Command, k: &str, data: &Vec<u8>) -> (out: Vec<u8>)
    ensures
        out@ == render(c, k@, data@),
{
    match c {
        Command::SubKeyValue => {
            let seg = string_of(last_segment_of(chars_of(k).as_slice()).as_slice());
            let mut message = vstd::slice::slice_to_vec(seg.as_str().as_bytes());
            message.push(0x20u8);
            let mut tail = vstd::slice::slice_to_vec(data.as_slice());
            message.append(&mut tail);
            message
        },
        Command::SubJson => {
            let seg = string_of(last_segment_of(chars_of(k).as_slice()).as_slice());
            let text = lossy_string(data.as_slice());
            let json = json_object_string(seg.as_str(), text.as_str());
            vstd::slice::slice_to_vec(json.as_str().as_bytes())
        },
        _ => vstd::slice::slice_to_vec(data.as_slice()),
    }
}

/// One subscription: a client and the form it wants values in.
#[derive(Clone, Copy)]
pub struct Sub {
    id: usize,
    command: Command,
}

pub type SubModel = (usize, Command);

impl View for Sub {
    type V = SubModel;

    closed spec fn view(&self) -> SubModel {
        (self.id, self.command)
    }
}

pub open spec fn sub_views(v: Seq<Sub>) -> Seq<SubModel> {
    v.map_values(|x: Sub| x@)
}

/// The subscriptions without those of client `id`, in order.
pub open spec fn without_id(s: Seq<SubModel>, id: usize) -> Seq<SubModel>
    decreases s.len(),
{
    if s.len() == 0 {
        s
    } else if s.last().0 == id {
        without_id(s.drop_last(), id)
    } else {
        without_id(s.drop_last(), id).push(s.last())
    }
}

pub open spec fn subs_of(ks: Map<Seq<char>, Seq<SubModel>>, k: Seq<char>) -> Seq<SubModel> {
    if ks.contains_key(k) {
        ks[k]
    } else {
        Seq::empty()
    }
}

pub open spec fn keys_of(ik: Map<usize, Seq<Seq<char>>>, id: usize) -> Seq<Seq<char>> {
    if ik.contains_key(id) {
        ik[id]
    } else {
        Seq::empty()
    }
}

/// The orders for the subscribers in `s` when `k` gets `data`.
/// Each order goes to its subscriber and carries that subscriber's own id in
/// its header.
pub open spec fn sub_orders(s: Seq<SubModel>, k: Seq<char>, data: Seq<u8>, msg: usize) -> Seq<OrderModel> {
    s.map_values(|x: SubModel| OrderModel { from_id: x.0, to_id: x.0, msg_id: msg, data: render(x.1, k, data) })
}

/// The orders for the subscribers of each key of `alts`, in that order.
pub open spec fn call_orders(
    ks: Map<Seq<char>, Seq<SubModel>>,
    alts: Seq<Seq<char>>,
    k: Seq<char>,
    data: Seq<u8>,
    msg: usize,
) -> Seq<OrderModel>
    decreases alts.len(),
{
    if alts.len() == 0 {
        Seq::empty()
    } else {
        call_orders(ks, alts.drop_last(), k, data, msg) + sub_orders(subs_of(ks, alts.last()), k, data, msg)
    }
}

/// Removes client `id` from the subscriptions of each key of `keys`.
pub open spec fn drop_id_from(ks: Map<Seq<char>, Seq<SubModel>>, keys: Seq<Seq<char>>, id: usize) -> Map<Seq<char>, Seq<SubModel>>
    decreases keys.len(),
{
    if keys.len() == 0 {
        ks
    } else {
        let prev = drop_id_from(ks, keys.drop_last(), id);
        prev.insert(keys.last(), without_id(subs_of(prev, keys.last()), id))
    }
}

/// What a request does to the subscriptions (subscribers by key, keys by
/// client) and the orders it gives the writer.
pub open spec fn subs_step(
    ks: Map<Seq<char>, Seq<SubModel>>,
    ik: Map<usize, Seq<Seq<char>>>,
    a: ActionModel,
) -> (Map<Seq<char>, Seq<SubModel>>, Map<usize, Seq<Seq<char>>>, Seq<OrderModel>) {
    match a {
        ActionModel::Add(k, id, c) => {
            let keys = keys_of(ik, id);
            let subs = subs_of(ks, k);
            (
                ks.insert(k, if subs.contains((id, c)) { subs } else { subs.push((id, c)) }),
                ik.insert(id, if keys.contains(k) { keys } else { keys.push(k) }),
                Seq::empty(),
            )
        },
        ActionModel::Del(k, id) => (ks.insert(k, without_id(subs_of(ks, k), id)), ik, Seq::empty()),
        ActionModel::DelAll(id) => if ik.contains_key(id) {
            (drop_id_from(ks, ik[id], id), ik.remove(id), Seq::empty())
        } else {
            (ks, ik, Seq::empty())
        },
        ActionModel::Call(k, data, _, msg) => (
            ks,
            ik,
            call_orders(ks, key_combinations(k), k, data, msg),
        ),
    }
}

pub open spec fn order_views(v: Seq<Order>) -> Seq<OrderModel> {
    v.map_values(|o: Order| o@)
}

/// Who is subscribed to which keys.
pub struct Subs {
    key_subs: Vec<(String, Vec<Sub>)>,
    id_keys: Vec<(usize, Vec<String>)>,
}

impl Subs {
    pub closed spec fn ks_view(&self) -> Seq<(Seq<char>, Seq<SubModel>)> {
        self.key_subs@.map_values(|e: (String, Vec<Sub>)| (e.0@, sub_views(e.1@)))
    }

    pub closed spec fn ik_view(&self) -> Seq<(usize, Seq<Seq<char>>)> {
        self.id_keys@.map_values(|e: (usize, Vec<String>)| (e.0, string_views(e.1@)))
    }

    /// The subscriptions of each key, in the order they were made.
    pub open spec fn keys(&self) -> Map<Seq<char>, Seq<SubModel>> {
        assoc_map(self.ks_view())
    }

    /// The keys each client subscribed to.
    pub open spec fn ids(&self) -> Map<usize, Seq<Seq<char>>> {
        assoc_map(self.ik_view())
    }

    /// The subscriptions are well formed, and each of them is listed among
    /// the keys of its client, so unsubscribing a client from every key
    /// reaches all of its subscriptions.
    pub open spec fn wf(&self) -> bool {
        &&& self.well_shaped()
        &&& index_complete(self.keys(), self.ids())
    }

    /// No key or client twice, and every subscription made with a
    /// subscription command.
    pub open spec fn well_shaped(&self) -> bool {
        &&& unique_keys(self.ks_view())
        &&& unique_keys(self.ik_view())
        &&& forall|k: Seq<char>, i: int| #[trigger] self.keys().contains_key(k) && 0 <= i < self.keys()[k].len()
            ==> is_sub_command(#[trigger] self.keys()[k][i].1)
    }

    pub fn new() -> (s: Subs)
        ensures
            s.wf(),
            s.keys() == Map::<Seq<char>, Seq<SubModel>>::empty(),
            s.ids() == Map::<usize, Seq<Seq<char>>>::empty(),
    {
        let s = Subs { key_subs: Vec::new(), id_keys: Vec::new() };
        assert(s.ks_view() =~= Seq::<(Seq<char>, Seq<SubModel>)>::empty());
        assert(s.ik_view() =~= Seq::<(usize, Seq<Seq<char>>)>::empty());
        assert(s.keys() =~= Map::<Seq<char>, Seq<SubModel>>::empty());
        assert(s.ids() =~= Map::<usize, Seq<Seq<char>>>::empty());
        s
    }

    fn find_key(&self, key: &String) -> (r: Option<usize>)
        ensures
            match r {
                Some(i) => i < self.ks_view().len() && self.ks_view()[i as int].0 == key@,
                None => !has_key(self.ks_view(), key@),
            },
    {
        let mut i: usize = 0;
        while i < self.key_subs.len()
            invariant
                i <= self.key_subs@.len(),
                forall|j: int| 0 <= j < i ==> #[trigger] self.ks_view()[j].0 != key@,
            decreases self.key_subs@.len() - i,
        {
            if self.key_subs[i].0 == *key {
                return Some(i);
            }
            i = i + 1;
        }
        None
    }

    fn find_id(&self, id: usize) -> (r: Option<usize>)
        ensures
            match r {
                Some(i) => i < self.ik_view().len() && self.ik_view()[i as int].0 == id,
                None => !has_key(self.ik_view(), id),
            },
    {
        let mut i: usize = 0;
        while i < self.id_keys.len()
            invariant
                i <= self.id_keys@.len(),
                forall|j: int| 0 <= j < i ==> #[trigger] self.ik_view()[j].0 != id,
            decreases self.id_keys@.len() - i,
        {
            if self.id_keys[i].0 == id {
                return Some(i);
            }
            i = i + 1;
        }
        None
    }

    /// The subscriptions of a key, with an empty entry made for it when it has
    /// none (`entry(key).or_insert_with(Vec::new)`); its index.
    fn key_entry(&mut self, key: &String) -> (i: usize)
        requires
            old(self).well_shaped(),
        ensures
            final(self).well_shaped(),
            i < final(self).ks_view().len(),
            final(self).ks_view()[i as int].0 == key@,
            final(self).keys() == old(self).keys().insert(key@, subs_of(old(self).keys(), key@)),
            final(self).ids() == old(self).ids(),
    {
        match self.find_key(key) {
            Some(i) => {
                proof {
                    lemma_key_index(self.ks_view(), i as int);
                    assert(self.keys() =~= self.keys().insert(key@, subs_of(self.keys(), key@)));
                }
                i
            },
            None => {
                let ghost e = self.ks_view();
                let empty: Vec<Sub> = Vec::new();
                assert(sub_views(empty@) =~= Seq::<SubModel>::empty());
                self.key_subs.push((key.clone(), empty));
                proof {
                    assert(self.ks_view() =~= e.push((key@, Seq::<SubModel>::empty())));
                    lemma_assoc_push(e, key@, Seq::<SubModel>::empty());
                    assert forall|k: Seq<char>, j: int| #[trigger] self.keys().contains_key(k) && 0 <= j < self.keys()[k].len()
                        implies is_sub_command(#[trigger] self.keys()[k][j].1) by {
                        if k != key@ {
                            assert(old(self).keys()[k] == self.keys()[k]);
                        }
                    }
                }
                self.key_subs.len() - 1
            },
        }
    }

    /// Sets the subscriptions of the key at index `i`.
    fn set_subs(&mut self, i: usize, subs: Vec<Sub>)
        requires
            old(self).well_shaped(),
            i < old(self).ks_view().len(),
            forall|j: int| 0 <= j < subs@.len() ==> is_sub_command(#[trigger] sub_views(subs@)[j].1),
        ensures
            final(self).well_shaped(),
            final(self).keys() == old(self).keys().insert(old(self).ks_view()[i as int].0, sub_views(subs@)),
            final(self).ids() == old(self).ids(),
    {
        let ghost e = self.ks_view();
        let ghost k = e[i as int].0;
        let (key, _) = self.key_subs.remove(i);
        self.key_subs.insert(i, (key, subs));
        proof {
            assert(self.ks_view() =~= e.update(i as int, (k, sub_views(subs@))));
            lemma_assoc_update(e, i as int, sub_views(subs@));
            assert forall|kk: Seq<char>, j: int| #[trigger] self.keys().contains_key(kk) && 0 <= j < self.keys()[kk].len()
                implies is_sub_command(#[trigger] self.keys()[kk][j].1) by {
                if kk != k {
                    assert(old(self).keys()[kk] == self.keys()[kk]);
                }
            }
        }
    }

    /// Subscribes client `id` to `key` with `command`.
    pub fn add(&mut self, key: String, id: usize, command: Command)
        requires
            old(self).wf(),
            is_sub_command(command),
        ensures
            final(self).wf(),
            (final(self).keys(), final(self).ids(), Seq::<OrderModel>::empty()) == subs_step(
                old(self).keys(),
                old(self).ids(),
                ActionModel::Add(key@, id, command),
            ),
    {
        let ghost ks0 = self.keys();
        let ghost ik0 = self.ids();
        // The keys of the client.
        match self.find_id(id) {
            Some(i) => {
                let ghost e = self.ik_view();
                proof {
                    lemma_key_index(e, i as int);
                }
                let (eid, mut keys) = self.id_keys.remove(i);
                let ghost old_keys = string_views(keys@);
                let mut found = false;
                let mut j: usize = 0;
                while j < keys.len()
                    invariant
                        j <= keys@.len(),
                        string_views(keys@) == old_keys,
                        found == exists|x: int| 0 <= x < j && #[trigger] old_keys[x] == key@,
                    decreases keys@.len() - j,
                {
                    assert(old_keys[j as int] == keys@[j as int]@);
                    if keys[j] == key {
                        found = true;
                    }
                    j = j + 1;
                }
                if !found {
                    keys.push(key.clone());
                }
                self.id_keys.insert(i, (eid, keys));
                proof {
                    let nk = if old_keys.contains(key@) { old_keys } else { old_keys.push(key@) };
                    assert(string_views(keys@) =~= nk);
                    assert(self.ik_view() =~= e.update(i as int, (id, nk)));
                    lemma_assoc_update(e, i as int, nk);
                }
            },
            None => {
                let ghost e = self.ik_view();
                let mut keys: Vec<String> = Vec::new();
                keys.push(key.clone());
                self.id_keys.push((id, keys));
                proof {
                    assert(string_views(keys@) =~= seq![key@]);
                    assert(self.ik_view() =~= e.push((id, seq![key@])));
                    lemma_assoc_push(e, id, seq![key@]);
                    assert(Seq::<Seq<char>>::empty().push(key@) =~= seq![key@]);
                }
            },
        }
        assert(self.ids() == ik0.insert(id, if keys_of(ik0, id).contains(key@) { keys_of(ik0, id) } else { keys_of(ik0, id).push(key@) }));
        assert(self.keys() == ks0);
        // The subscribers of the key.
        let i = self.key_entry(&key);
        let mut subs: Vec<Sub> = Vec::new();
        let mut found = false;
        let mut j: usize = 0;
        let n = self.key_subs[i].1.len();
        let ghost cur = sub_views(self.key_subs@[i as int].1@);
        assert(cur == subs_of(ks0, key@)) by {
            lemma_key_index(self.ks_view(), i as int);
        }
        while j < n
            invariant
                j <= n,
                i < self.ks_view().len(),
                n == self.key_subs@[i as int].1@.len(),
                cur == sub_views(self.key_subs@[i as int].1@),
                sub_views(subs@) == cur.take(j as int),
                found == exists|x: int| 0 <= x < j && #[trigger] cur[x] == (id, command),
            decreases n - j,
        {
            let sub = self.key_subs[i].1[j];
            assert(sub@ == cur[j as int]);
            if sub.id == id && sub.command == command {
                found = true;
            }
            let ghost before = subs@;
            subs.push(sub);
            assert(subs@ =~= before.push(sub));
            assert(sub_views(subs@) =~= sub_views(before).push(sub@));
            assert(cur.take(j + 1) =~= cur.take(j as int).push(cur[j as int]));
            j = j + 1;
        }
        assert(cur.take(n as int) =~= cur);
        if !found {
            subs.push(Sub { id, command });
        }
        proof {
            let ns = if cur.contains((id, command)) { cur } else { cur.push((id, command)) };
            assert(sub_views(subs@) =~= ns);
            lemma_key_index(self.ks_view(), i as int);
            assert forall|x: int| 0 <= x < subs@.len() implies is_sub_command(#[trigger] sub_views(subs@)[x].1) by {
                if x < cur.len() {
                    assert(self.keys()[key@][x] == cur[x]);
                }
            }
        }
        self.set_subs(i, subs);
        proof {
            assert((self.keys(), self.ids(), Seq::<OrderModel>::empty()) == subs_step(ks0, ik0, ActionModel::Add(key@, id, command)));
            law_steps_keep_index(ks0, ik0, ActionModel::Add(key@, id, command));
        }
    }

    /// The subscriptions of the key at index `i` without those of client `id`.
    fn subs_without(&self, i: usize, id: usize) -> (out: Vec<Sub>)
        requires
            self.well_shaped(),
            i < self.ks_view().len(),
        ensures
            sub_views(out@) == without_id(self.ks_view()[i as int].1, id),
            forall|j: int| 0 <= j < out@.len() ==> is_sub_command(#[trigger] sub_views(out@)[j].1),
    {
        let ghost cur = self.ks_view()[i as int].1;
        proof {
            lemma_key_index(self.ks_view(), i as int);
        }
        let n = self.key_subs[i].1.len();
        let mut out: Vec<Sub> = Vec::new();
        let mut j: usize = 0;
        while j < n
            invariant
                j <= n,
                self.well_shaped(),
                i < self.ks_view().len(),
                n == cur.len(),
                cur == sub_views(self.key_subs@[i as int].1@),
                cur == self.keys()[self.ks_view()[i as int].0],
                self.keys().contains_key(self.ks_view()[i as int].0),
                sub_views(out@) == without_id(cur.take(j as int), id),
                forall|x: int| 0 <= x < out@.len() ==> is_sub_command(#[trigger] sub_views(out@)[x].1),
            decreases n - j,
        {
            let sub = self.key_subs[i].1[j];
            assert(sub@ == cur[j as int]);
            assert(cur.take(j + 1).drop_last() =~= cur.take(j as int));
            assert(is_sub_command(self.keys()[self.ks_view()[i as int].0][j as int].1));
            if sub.id != id {
                let ghost before = out@;
                out.push(sub);
                assert(out@ =~= before.push(sub));
                assert(sub_views(out@) =~= sub_views(before).push(sub@));
            }
            j = j + 1;
        }
        assert(cur.take(n as int) =~= cur);
        out
    }

    /// Unsubscribes client `id` from `key`.
    pub fn del(&mut self, key: &String, id: usize)
        requires
            old(self).wf(),
        ensures
            final(self).wf(),
            (final(self).keys(), final(self).ids(), Seq::<OrderModel>::empty()) == subs_step(
                old(self).keys(),
                old(self).ids(),
                ActionModel::Del(key@, id),
            ),
    {
        let ghost ks0 = self.keys();
        let ghost ik0 = self.ids();
        let i = self.key_entry(key);
        let subs = self.subs_without(i, id);
        proof {
            lemma_key_index(self.ks_view(), i as int);
        }
        self.set_subs(i, subs);
        proof {
            assert((self.keys(), self.ids(), Seq::<OrderModel>::empty()) == subs_step(ks0, ik0, ActionModel::Del(key@, id)));
            law_steps_keep_index(ks0, ik0, ActionModel::Del(key@, id));
        }
    }

    /// Unsubscribes client `id` from every key it subscribed to.
    pub fn del_all(&mut self, id: usize)
        requires
            old(self).wf(),
        ensures
            final(self).wf(),
            (final(self).keys(), final(self).ids(), Seq::<OrderModel>::empty()) == subs_step(
                old(self).keys(),
                old(self).ids(),
                ActionModel::DelAll(id),
            ),
            forall|k: Seq<char>, i: int|
                #![trigger final(self).keys()[k][i]]
                final(self).keys().contains_key(k) && 0 <= i < final(self).keys()[k].len()
                    ==> final(self).keys()[k][i].0 != id,
            !final(self).ids().contains_key(id),
    {
        let ghost ks0 = self.keys();
        let ghost ik0 = self.ids();
        match self.find_id(id) {
            None => {},
            Some(i) => {
                let ghost e = self.ik_view();
                proof {
                    lemma_key_index(e, i as int);
                }
                let (_, keys) = self.id_keys.remove(i);
                let ghost kv = string_views(keys@);
                proof {
                    assert(self.ik_view() =~= e.remove(i as int));
                    lemma_assoc_remove(e, i as int);
                    assert(kv == ik0[id]);
                }
                let mut j: usize = 0;
                while j < keys.len()
                    invariant
                        j <= keys@.len(),
                        self.well_shaped(),
                        kv == string_views(keys@),
                        self.keys() == drop_id_from(ks0, kv.take(j as int), id),
                        self.ids() == ik0.remove(id),
                    decreases keys@.len() - j,
                {
                    let ghost prev = self.keys();
                    let k = self.key_entry(&keys[j]);
                    let subs = self.subs_without(k, id);
                    proof {
                        lemma_key_index(self.ks_view(), k as int);
                        assert(kv.take(j + 1).drop_last() =~= kv.take(j as int));
                        assert(kv.take(j + 1).last() == keys@[j as int]@);
                    }
                    self.set_subs(k, subs);
                    j = j + 1;
                }
                assert(kv.take(kv.len() as int) =~= kv);
            },
        }
        proof {
            law_steps_keep_index(ks0, ik0, ActionModel::DelAll(id));
            law_del_all_unsubscribes(ks0, ik0, id);
        }
    }

    /// The orders that tell the subscribers of `key`, and of each of its
    /// parents, that `key` got `data`.
    pub fn call(&self, key: &String, data: &Vec<u8>, msg_id: usize) -> (orders: Vec<Order>)
        requires
            self.wf(),
        ensures
            order_views(orders@) == call_orders(self.keys(), key_combinations(key@), key@, data@, msg_id),
    {
        let alts = get_key_combinations(key.as_str());
        let ghost av = string_views(alts@);
        let mut orders: Vec<Order> = Vec::new();
        let mut a: usize = 0;
        while a < alts.len()
            invariant
                a <= alts@.len(),
                self.wf(),
                av == string_views(alts@),
                order_views(orders@) == call_orders(self.keys(), av.take(a as int), key@, data@, msg_id),
            decreases alts@.len() - a,
        {
            let ghost before = order_views(orders@);
            assert(av.take(a + 1).drop_last() =~= av.take(a as int));
            assert(av.take(a + 1).last() == alts@[a as int]@);
            match self.find_key(&alts[a]) {
                None => {
                    assert(sub_orders(subs_of(self.keys(), alts@[a as int]@), key@, data@, msg_id) =~= Seq::<OrderModel>::empty());
                    assert(order_views(orders@) =~= before + Seq::<OrderModel>::empty());
                },
                Some(i) => {
                    proof {
                        lemma_key_index(self.ks_view(), i as int);
                    }
                    let ghost cur = self.ks_view()[i as int].1;
                    let n = self.key_subs[i].1.len();
                    let mut j: usize = 0;
                    while j < n
                        invariant
                            j <= n,
                            i < self.ks_view().len(),
                            n == cur.len(),
                            cur == sub_views(self.key_subs@[i as int].1@),
                            order_views(orders@) == before + sub_orders(cur.take(j as int), key@, data@, msg_id),
                        decreases n - j,
                    {
                        let sub = self.key_subs[i].1[j];
                        assert(sub@ == cur[j as int]);
                        let rendered = render_for(sub.command, key.as_str(), data);
                        let ghost ov = orders@;
                        let ghost om = OrderModel { from_id: sub.id, to_id: sub.id, msg_id, data: rendered@ };
                        orders.push(Order { from_id: sub.id, to_id: sub.id, msg_id, data: rendered });
                        assert(orders@ =~= ov.push(orders@[orders@.len() - 1]));
                        assert(order_views(orders@) =~= order_views(ov).push(om));
                        assert(cur.take(j + 1) =~= cur.take(j as int).push(cur[j as int]));
                        assert(sub_orders(cur.take(j + 1), key@, data@, msg_id) =~= sub_orders(cur.take(j as int), key@, data@, msg_id).push(om));
                        assert(order_views(orders@) =~= before + sub_orders(cur.take(j + 1), key@, data@, msg_id));
                        j = j + 1;
                    }
                    assert(cur.take(n as int) =~= cur);
                },
            }
            a = a + 1;
        }
        assert(av.take(av.len() as int) =~= av);
        orders
    }

    /// Serves one request: the subscriptions change, and the orders for the
    /// writer come back (only a call has any).
    pub fn apply(&mut self, action: Action) -> (orders: Vec<Order>)
        requires
            old(self).wf(),
            action@ matches ActionModel::Add(_, _, c) ==> is_sub_command(c),
        ensures
            final(self).wf(),
            (final(self).keys(), final(self).ids(), order_views(orders@)) == subs_step(
                old(self).keys(),
                old(self).ids(),
                action@,
            ),
    {
        match action {
            Action::Add(key, id, command) => {
                self.add(key, id, command);
                let orders: Vec<Order> = Vec::new();
                assert(order_views(orders@) =~= Seq::<OrderModel>::empty());
                orders
            },
            Action::Del(key, id) => {
                self.del(&key, id);
                let orders: Vec<Order> = Vec::new();
                assert(order_views(orders@) =~= Seq::<OrderModel>::empty());
                orders
            },
            Action::DelAll(id) => {
                self.del_all(id);
                let orders: Vec<Order> = Vec::new();
                assert(order_views(orders@) =~= Seq::<OrderModel>::empty());
                orders
            },
            Action::Call(key, data, _, msg_id) => self.call(&key, &data, msg_id),
        }
    }
}


/// Every subscription of a key is listed among the keys of its client.
pub open spec fn index_complete(ks: Map<Seq<char>, Seq<SubModel>>, ik: Map<usize, Seq<Seq<char>>>) -> bool {
    forall|k: Seq<char>, i: int|
        #![trigger ks[k][i]]
        ks.contains_key(k) && 0 <= i < ks[k].len() ==> ik.contains_key(ks[k][i].0) && ik[ks[k][i].0].contains(k)
}

proof fn lemma_combinations_first(k: Seq<char>)
    ensures
        key_combinations(k).len() > 0,
        key_combinations(k)[0] == k,
{
}

proof fn lemma_call_orders_has(
    ks: Map<Seq<char>, Seq<SubModel>>,
    alts: Seq<Seq<char>>,
    k: Seq<char>,
    data: Seq<u8>,
    msg: usize,
    j: int,
    i: int,
)
    requires
        0 <= j < alts.len(),
        0 <= i < subs_of(ks, alts[j]).len(),
    ensures
        call_orders(ks, alts, k, data, msg).contains(
            OrderModel {
                from_id: subs_of(ks, alts[j])[i].0,
                to_id: subs_of(ks, alts[j])[i].0,
                msg_id: msg,
                data: render(subs_of(ks, alts[j])[i].1, k, data),
            },
        ),
    decreases alts.len(),
{
    let prev = call_orders(ks, alts.drop_last(), k, data, msg);
    let last = sub_orders(subs_of(ks, alts.last()), k, data, msg);
    let o = OrderModel {
        from_id: subs_of(ks, alts[j])[i].0,
        to_id: subs_of(ks, alts[j])[i].0,
        msg_id: msg,
        data: render(subs_of(ks, alts[j])[i].1, k, data),
    };
    if j == alts.len() - 1 {
        assert(last[i] == o);
        assert((prev + last)[prev.len() + i] == o);
    } else {
        assert(alts.drop_last()[j] == alts[j]);
        lemma_call_orders_has(ks, alts.drop_last(), k, data, msg, j, i);
        let x = choose|x: int| 0 <= x < prev.len() && prev[x] == o;
        assert((prev + last)[x] == o);
    }
}

/// A key is among its own combinations, and so is each parent key before a
/// dot: `p` is a combination of `p.q`.
pub proof fn law_parent_key_is_called(p: Seq<char>, q: Seq<char>)
    ensures
        key_combinations(p).contains(p),
        key_combinations(p + seq!['.'] + q).contains(p),
    decreases q.len(),
{
    lemma_combinations_first(p);
    assert(key_combinations(p)[0] == p);
    let s = p + seq!['.'] + q;
    let n = p.len() as int;
    assert(s[n] == '.');
    lemma_last_dot(s);
    match last_dot(s) {
        Some(d) => {
            if d < n {
                assert(false);
            } else if d == n {
                assert(s.take(d) =~= p);
                assert(key_combinations(s) == seq![s] + key_combinations(p));
                assert(key_combinations(s)[1] == p);
            } else {
                let q2 = q.take(d - n - 1);
                assert(s.take(d) =~= p + seq!['.'] + q2);
                law_parent_key_is_called(p, q2);
                assert(key_combinations(s) == seq![s] + key_combinations(s.take(d)));
                let x = choose|x: int| 0 <= x < key_combinations(s.take(d)).len() && key_combinations(s.take(d))[x] == p;
                assert(key_combinations(s)[x + 1] == p);
            }
        },
        None => {
            assert(false);
        },
    }
}

/// A client that subscribes to a key is called, in the form it subscribed
/// with, when that key or a key under it gets a value.
pub proof fn law_call_reaches_subscriber(
    ks: Map<Seq<char>, Seq<SubModel>>,
    ik: Map<usize, Seq<Seq<char>>>,
    k: Seq<char>,
    id: usize,
    c: Command,
    changed: Seq<char>,
    data: Seq<u8>,
    from: usize,
    msg: usize,
)
    requires
        key_combinations(changed).contains(k),
    ensures
        ({
            let (ks1, ik1, _) = subs_step(ks, ik, ActionModel::Add(k, id, c));
            subs_step(ks1, ik1, ActionModel::Call(changed, data, from, msg)).2.contains(
                OrderModel { from_id: id, to_id: id, msg_id: msg, data: render(c, changed, data) },
            )
        }),
{
    let (ks1, ik1, _) = subs_step(ks, ik, ActionModel::Add(k, id, c));
    let subs = subs_of(ks, k);
    let s1 = subs_of(ks1, k);
    let i = if subs.contains((id, c)) {
        choose|i: int| 0 <= i < subs.len() && subs[i] == (id, c)
    } else {
        subs.len() as int
    };
    assert(s1[i] == (id, c));
    let alts = key_combinations(changed);
    let j = choose|j: int| 0 <= j < alts.len() && alts[j] == k;
    lemma_call_orders_has(ks1, alts, changed, data, msg, j, i);
}

proof fn lemma_without_id(s: Seq<SubModel>, id: usize)
    ensures
        forall|i: int| 0 <= i < without_id(s, id).len() ==> s.contains(#[trigger] without_id(s, id)[i]) && without_id(s, id)[i].0 != id,
    decreases s.len(),
{
    if s.len() > 0 {
        let prev = without_id(s.drop_last(), id);
        lemma_without_id(s.drop_last(), id);
        assert forall|i: int| 0 <= i < without_id(s, id).len() implies s.contains(#[trigger] without_id(s, id)[i]) && without_id(s, id)[i].0 != id by {
            if s.last().0 == id || i < prev.len() {
                let x = prev[i];
                let j = choose|j: int| 0 <= j < s.drop_last().len() && s.drop_last()[j] == x;
                assert(s[j] == x);
            } else {
                assert(s[s.len() - 1] == s.last());
            }
        }
    }
}

/// What dropping client `id` from `keys` leaves at position `i` of key `k`:
/// a subscription that was there before, and not one of `id` under `keys`.
spec fn dropped_ok(ks: Map<Seq<char>, Seq<SubModel>>, keys: Seq<Seq<char>>, id: usize, k: Seq<char>, i: int) -> bool {
    let d = drop_id_from(ks, keys, id);
    d.contains_key(k) && 0 <= i < d[k].len() ==> {
        &&& ks.contains_key(k)
        &&& ks[k].contains(d[k][i])
        &&& keys.contains(k) ==> d[k][i].0 != id
    }
}

proof fn lemma_drop_id_from(ks: Map<Seq<char>, Seq<SubModel>>, keys: Seq<Seq<char>>, id: usize)
    ensures
        forall|k: Seq<char>, i: int| #[trigger] dropped_ok(ks, keys, id, k, i),
    decreases keys.len(),
{
    let d = drop_id_from(ks, keys, id);
    if keys.len() == 0 {
        assert(d == ks);
        assert forall|k: Seq<char>, i: int| #[trigger] dropped_ok(ks, keys, id, k, i) by {
            if d.contains_key(k) && 0 <= i < d[k].len() {
                assert(ks[k][i] == d[k][i]);
            }
        }
    } else {
        let prev = drop_id_from(ks, keys.drop_last(), id);
        lemma_drop_id_from(ks, keys.drop_last(), id);
        let kl = keys.last();
        let sl = subs_of(prev, kl);
        lemma_without_id(sl, id);
        assert(d == prev.insert(kl, without_id(sl, id)));
        assert forall|k: Seq<char>, i: int| #[trigger] dropped_ok(ks, keys, id, k, i) by {
            if d.contains_key(k) && 0 <= i < d[k].len() {
                if k == kl {
                    let x = without_id(sl, id)[i];
                    assert(d[k][i] == x);
                    assert(sl.contains(x));
                    let j = choose|j: int| 0 <= j < sl.len() && sl[j] == x;
                    assert(prev.contains_key(kl));
                    assert(prev[kl][j] == x);
                    assert(dropped_ok(ks, keys.drop_last(), id, kl, j));
                } else {
                    assert(d[k] == prev[k]);
                    assert(prev.contains_key(k));
                    assert(prev[k][i] == d[k][i]);
                    assert(dropped_ok(ks, keys.drop_last(), id, k, i));
                    if keys.contains(k) {
                        let j = choose|j: int| 0 <= j < keys.len() && keys[j] == k;
                        assert(j != keys.len() - 1);
                        assert(keys.drop_last()[j] == k);
                        assert(keys.drop_last().contains(k));
                    }
                }
            }
        }
    }
}

/// Every request keeps each subscription listed among its client's keys.
pub proof fn law_steps_keep_index(
    ks: Map<Seq<char>, Seq<SubModel>>,
    ik: Map<usize, Seq<Seq<char>>>,
    a: ActionModel,
)
    requires
        index_complete(ks, ik),
    ensures
        ({
            let (ks1, ik1, _) = subs_step(ks, ik, a);
            index_complete(ks1, ik1)
        }),
{
    let (ks1, ik1, _) = subs_step(ks, ik, a);
    match a {
        ActionModel::Add(k, id, c) => {
            let keys = keys_of(ik, id);
            let subs = subs_of(ks, k);
            let nk = if keys.contains(k) { keys } else { keys.push(k) };
            assert(nk.contains(k)) by {
                if !keys.contains(k) {
                    assert(nk[keys.len() as int] == k);
                }
            }
            assert forall|k2: Seq<char>, i: int|
                #![trigger ks1[k2][i]]
                ks1.contains_key(k2) && 0 <= i < ks1[k2].len() implies ik1.contains_key(ks1[k2][i].0)
                    && ik1[ks1[k2][i].0].contains(k2) by {
                let x = ks1[k2][i];
                if x.0 == id && k2 == k {
                } else {
                    if k2 == k {
                        assert(i < subs.len());
                        assert(ks.contains_key(k));
                        assert(ks[k][i] == x);
                    } else {
                        assert(ks1[k2] == ks[k2]);
                        assert(ks[k2][i] == x);
                    }
                    if x.0 == id {
                        let j = choose|j: int| 0 <= j < ik[id].len() && ik[id][j] == k2;
                        assert(nk[j] == k2);
                    }
                }
            }
        },
        ActionModel::Del(k, id) => {
            let subs = subs_of(ks, k);
            lemma_without_id(subs, id);
            assert forall|k2: Seq<char>, i: int|
                #![trigger ks1[k2][i]]
                ks1.contains_key(k2) && 0 <= i < ks1[k2].len() implies ik1.contains_key(ks1[k2][i].0)
                    && ik1[ks1[k2][i].0].contains(k2) by {
                let x = ks1[k2][i];
                if k2 == k {
                    assert(subs.contains(x));
                    let j = choose|j: int| 0 <= j < subs.len() && subs[j] == x;
                    assert(ks.contains_key(k));
                    assert(ks[k][j] == x);
                } else {
                    assert(ks[k2][i] == x);
                }
            }
        },
        ActionModel::DelAll(id) => {
            if ik.contains_key(id) {
                lemma_drop_id_from(ks, ik[id], id);
                assert forall|k2: Seq<char>, i: int|
                    #![trigger ks1[k2][i]]
                    ks1.contains_key(k2) && 0 <= i < ks1[k2].len() implies ik1.contains_key(ks1[k2][i].0)
                        && ik1[ks1[k2][i].0].contains(k2) by {
                    let x = ks1[k2][i];
                    assert(dropped_ok(ks, ik[id], id, k2, i));
                    assert(ks[k2].contains(x));
                    let j = choose|j: int| 0 <= j < ks[k2].len() && ks[k2][j] == x;
                    assert(ks[k2][j] == x);
                }
            }
        },
        ActionModel::Call(..) => {},
    }
}

/// Once a client unsubscribes from every key, no key lists it.
pub proof fn law_del_all_unsubscribes(
    ks: Map<Seq<char>, Seq<SubModel>>,
    ik: Map<usize, Seq<Seq<char>>>,
    id: usize,
)
    requires
        index_complete(ks, ik),
    ensures
        ({
            let (ks1, _, _) = subs_step(ks, ik, ActionModel::DelAll(id));
            forall|k: Seq<char>, i: int|
                #![trigger ks1[k][i]]
                ks1.contains_key(k) && 0 <= i < ks1[k].len() ==> ks1[k][i].0 != id
        }),
{
    let (ks1, _, _) = subs_step(ks, ik, ActionModel::DelAll(id));
    if ik.contains_key(id) {
        lemma_drop_id_from(ks, ik[id], id);
        assert forall|k: Seq<char>, i: int|
            #![trigger ks1[k][i]]
            ks1.contains_key(k) && 0 <= i < ks1[k].len() implies ks1[k][i].0 != id by {
            let x = ks1[k][i];
            assert(dropped_ok(ks, ik[id], id, k, i));
            assert(ks[k].contains(x));
            let j = choose|j: int| 0 <= j < ks[k].len() && ks[k][j] == x;
            assert(ks[k][j] == x);
        }
    } else {
        assert forall|k: Seq<char>, i: int|
            #![trigger ks1[k][i]]
            ks1.contains_key(k) && 0 <= i < ks1[k].len() implies ks1[k][i].0 != id by {
            assert(ks[k][i] == ks1[k][i]);
        }
    }
}

/// Once a client unsubscribes from a key, that key no longer lists it.
pub proof fn law_del_unsubscribes(
    ks: Map<Seq<char>, Seq<SubModel>>,
    ik: Map<usize, Seq<Seq<char>>>,
    k: Seq<char>,
    id: usize,
)
    ensures
        ({
            let (ks1, _, _) = subs_step(ks, ik, ActionModel::Del(k, id));
            forall|i: int| 0 <= i < ks1[k].len() ==> #[trigger] ks1[k][i].0 != id
        }),
{
    lemma_without_id(subs_of(ks, k), id);
}

/// Subscribing twice is subscribing once: a second `Add` of the same
/// subscription leaves the subscriptions as the first left them, and a later
/// call then finds it once.
pub proof fn law_add_twice(
    ks: Map<Seq<char>, Seq<SubModel>>,
    ik: Map<usize, Seq<Seq<char>>>,
    k: Seq<char>,
    id: usize,
    c: Command,
)
    ensures
        ({
            let (ks1, ik1, _) = subs_step(ks, ik, ActionModel::Add(k, id, c));
            subs_step(ks1, ik1, ActionModel::Add(k, id, c)) == (ks1, ik1, Seq::<OrderModel>::empty())
        }),
{
    let (ks1, ik1, _) = subs_step(ks, ik, ActionModel::Add(k, id, c));
    let subs = subs_of(ks, k);
    let keys = keys_of(ik, id);
    if !subs.contains((id, c)) {
        assert(subs.push((id, c))[subs.len() as int] == (id, c));
    }
    if !keys.contains(k) {
        assert(keys.push(k)[keys.len() as int] == k);
    }
    assert(subs_of(ks1, k).contains((id, c)));
    assert(keys_of(ik1, id).contains(k));
    assert(ks1.insert(k, subs_of(ks1, k)) =~= ks1);
    assert(ik1.insert(id, keys_of(ik1, id)) =~= ik1);
}

/// The subscriptions of client `x`, in order.
pub open spec fn subs_of_id(s: Seq<SubModel>, x: usize) -> Seq<SubModel>
    decreases s.len(),
{
    if s.len() == 0 {
        s
    } else if s.last().0 == x {
        subs_of_id(s.drop_last(), x).push(s.last())
    } else {
        subs_of_id(s.drop_last(), x)
    }
}

proof fn lemma_without_other(s: Seq<SubModel>, id: usize, x: usize)
    requires
        x != id,
    ensures
        subs_of_id(without_id(s, id), x) == subs_of_id(s, x),
    decreases s.len(),
{
    if s.len() > 0 {
        lemma_without_other(s.drop_last(), id, x);
        if s.last().0 != id {
            let w = without_id(s.drop_last(), id);
            assert(w.push(s.last()).drop_last() =~= w);
        }
    }
}

proof fn lemma_drop_id_other(ks: Map<Seq<char>, Seq<SubModel>>, keys: Seq<Seq<char>>, id: usize, x: usize, k2: Seq<char>)
    requires
        x != id,
    ensures
        subs_of_id(subs_of(drop_id_from(ks, keys, id), k2), x) == subs_of_id(subs_of(ks, k2), x),
    decreases keys.len(),
{
    if keys.len() > 0 {
        let prev = drop_id_from(ks, keys.drop_last(), id);
        lemma_drop_id_other(ks, keys.drop_last(), id, x, k2);
        if k2 == keys.last() {
            lemma_without_other(subs_of(prev, k2), id, x);
        }
    }
}

/// Unsubscribing client `id` from a key leaves every other client's
/// subscriptions, on every key, as they were, and the keys of each client.
pub proof fn law_del_keeps_others(
    ks: Map<Seq<char>, Seq<SubModel>>,
    ik: Map<usize, Seq<Seq<char>>>,
    k: Seq<char>,
    id: usize,
)
    ensures
        ({
            let (ks1, ik1, _) = subs_step(ks, ik, ActionModel::Del(k, id));
            &&& ik1 == ik
            &&& forall|k2: Seq<char>, x: usize|
                x != id ==> #[trigger] subs_of_id(subs_of(ks1, k2), x) == subs_of_id(subs_of(ks, k2), x)
        }),
{
    let (ks1, ik1, _) = subs_step(ks, ik, ActionModel::Del(k, id));
    assert forall|k2: Seq<char>, x: usize| x != id implies #[trigger] subs_of_id(subs_of(ks1, k2), x) == subs_of_id(
        subs_of(ks, k2),
        x,
    ) by {
        if k2 == k {
            lemma_without_other(subs_of(ks, k), id, x);
        }
    }
}

/// Unsubscribing client `id` from every key leaves every other client's
/// subscriptions, on every key, as they were, and the keys of each other
/// client.
pub proof fn law_del_all_keeps_others(ks: Map<Seq<char>, Seq<SubModel>>, ik: Map<usize, Seq<Seq<char>>>, id: usize)
    ensures
        ({
            let (ks1, ik1, _) = subs_step(ks, ik, ActionModel::DelAll(id));
            &&& forall|x: usize| x != id ==> (#[trigger] ik1.contains_key(x) == ik.contains_key(x) && keys_of(ik1, x) == keys_of(ik, x))
            &&& forall|k2: Seq<char>, x: usize|
                x != id ==> #[trigger] subs_of_id(subs_of(ks1, k2), x) == subs_of_id(subs_of(ks, k2), x)
        }),
{
    let (ks1, ik1, _) = subs_step(ks, ik, ActionModel::DelAll(id));
    if ik.contains_key(id) {
        assert forall|k2: Seq<char>, x: usize| x != id implies #[trigger] subs_of_id(subs_of(ks1, k2), x) == subs_of_id(
            subs_of(ks, k2),
            x,
        ) by {
            lemma_drop_id_other(ks, ik[id], id, x, k2);
        }
    }
}

/// A new registry lists nothing, so its index is complete.
pub proof fn law_new_index_complete()
    ensures
        index_complete(Map::<Seq<char>, Seq<SubModel>>::empty(), Map::<usize, Seq<Seq<char>>>::empty()),
{
}

} // verus!
