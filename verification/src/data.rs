//! The key-value data: a map from keys to byte values, kept in key order, and
//! what each request does to it.
use vstd::prelude::*;

use crate::cursor::{rest_at, word_at, Cursor};
use crate::numbers::{
    all_digits, be_bytes, be_value, digits_value, from_be_bytes, is_digit, parse_unsigned, parse_unsigned_spec, to_be_bytes,
    unsigned_text,
};
use crate::parser::{next_word, remaining, space_sep};
use crate::subs;
use crate::text::{chars_of, is_last_segment, last_segment, last_segment_of, law_last_segment, lossy_string, string_of, utf8_lossy};
use crate::writer::{reply, reply_model, Order, OrderModel};
use crate::json::json_answer;
use vstd::utf8::encode_utf8;
use crate::keys::{has_prefix, key_lt};
use crate::store::{contains_key, pair_views, sorted_keys, to_map, value_or_empty, with_prefix, Store};

verus! {

/// What the data is asked to do. The two numbers are the client id and the
/// message id that a reply goes back with.
pub enum Action {
    /// Sets the value of a key (the `s` command).
    SetValue(String, Vec<u8>),
    SetIfNone(String, Vec<u8>, usize, usize),
    SetList(String, Vec<u8>, usize, usize),
    Inc(String, usize, usize),
    Append(String, Vec<u8>, usize, usize),
    Delete(String),
    Get(String, usize, usize),
    KeyValue(String, usize, usize),
    Jtrim(String, usize, usize),
    Json(String, usize, usize),
}

pub enum ActionModel {
    SetValue(Seq<char>, Seq<u8>),
    SetIfNone(Seq<char>, Seq<u8>, usize, usize),
    SetList(Seq<char>, Seq<u8>, usize, usize),
    Inc(Seq<char>, usize, usize),
    Append(Seq<char>, Seq<u8>, usize, usize),
    Delete(Seq<char>),
    Get(Seq<char>, usize, usize),
    KeyValue(Seq<char>, usize, usize),
    Jtrim(Seq<char>, usize, usize),
    Json(Seq<char>, usize, usize),
}

impl View for Action {
    type V = ActionModel;

    open spec fn view(&self) -> ActionModel {
        match self {
            Action::SetValue(k, v) => ActionModel::SetValue(k@, v@),
            Action::SetIfNone(k, v, f, m) => ActionModel::SetIfNone(k@, v@, *f, *m),
            Action::SetList(k, v, f, m) => ActionModel::SetList(k@, v@, *f, *m),
            Action::Inc(k, f, m) => ActionModel::Inc(k@, *f, *m),
            Action::Append(k, v, f, m) => ActionModel::Append(k@, v@, *f, *m),
            Action::Delete(k) => ActionModel::Delete(k@),
            Action::Get(k, f, m) => ActionModel::Get(k@, *f, *m),
            Action::KeyValue(k, f, m) => ActionModel::KeyValue(k@, *f, *m),
            Action::Jtrim(k, f, m) => ActionModel::Jtrim(k@, *f, *m),
            Action::Json(k, f, m) => ActionModel::Json(k@, *f, *m),
        }
    }
}

/// Entries of keys and byte values.
pub type Entries = Seq<(Seq<char>, Seq<u8>)>;


/// The number that a stored value counts: 8 bytes are big-endian, any other
/// length is decimal text (0 when it is not a number). The decimal text is
/// read from the bytes themselves: in `String::from_utf8_lossy` of a value, a
/// digit or `+` stands only where the byte is that ASCII character, so the
/// text parses exactly when the bytes do.
pub open spec fn counter_value(v: Seq<u8>) -> u64 {
    if v.len() != 8 {
        match parse_unsigned_spec(v, u64::MAX as nat) {
            Some(n) => n,
            None => 0,
        }
    } else {
        be_value(v) as u64
    }
}

/// The decimal digits of a number, as bytes (what `to_string` writes).
pub open spec fn decimal_bytes(n: nat) -> Seq<u8>
    decreases n,
{
    if n < 10 {
        seq![(0x30 + n) as u8]
    } else {
        decimal_bytes(n / 10).push((0x30 + n % 10) as u8)
    }
}

proof fn lemma_decimal_bytes(n: nat)
    ensures
        decimal_bytes(n).len() > 0,
        all_digits(decimal_bytes(n)),
        digits_value(decimal_bytes(n)) == n,
    decreases n,
{
    if n >= 10 {
        lemma_decimal_bytes(n / 10);
        let d = decimal_bytes(n / 10);
        let s = d.push((0x30 + n % 10) as u8);
        assert(s.drop_last() =~= d);
        assert forall|i: int| 0 <= i < s.len() implies is_digit(#[trigger] s[i]) by {
            if i < d.len() {
                assert(s[i] == d[i]);
            }
        }
        assert(s.last() == (0x30 + n % 10) as u8);
        assert((s.last() - 0x30u8) as nat == n % 10);
        assert((n / 10) * 10 + n % 10 == n) by (nonlinear_arith);
        assert(digits_value(s) == digits_value(d) * 10 + (s.last() - 0x30u8) as nat);
    } else {
        let s = seq![(0x30 + n) as u8];
        assert(s.drop_last() =~= Seq::<u8>::empty());
        assert(digits_value(s) == digits_value(s.drop_last()) * 10 + (s.last() - 0x30u8) as nat);
    }
}

/// A counter that is not 8 bytes long is read as the decimal number its
/// digits spell (optionally after a `+`), whatever its size up to
/// `u64::MAX`; other text counts as 0.
pub proof fn law_counter_digits(d: Seq<u8>)
    requires
        d.len() != 8,
    ensures
        d.len() > 0 && all_digits(d) && digits_value(d) <= u64::MAX ==> counter_value(d) == digits_value(d),
        d.len() > 0 && all_digits(d) && digits_value(d) > u64::MAX ==> counter_value(d) == 0,
        !all_digits(d) && !(d.len() > 0 && d[0] == 0x2Bu8) ==> counter_value(d) == 0,
        d.len() == 0 ==> counter_value(d) == 0,
{
    if d.len() > 0 && all_digits(d) {
        assert(is_digit(d[0]));
    }
    if !all_digits(d) && !(d.len() > 0 && d[0] == 0x2Bu8) {
        assert(unsigned_text(d) is None);
    }
}

/// Incrementing reads back what a counter's decimal text says: the text of
/// any `u64` (unless it is 8 bytes long, when it is read as big-endian
/// bytes) is read as that number.
pub proof fn law_counter_decimal(n: u64)
    requires
        decimal_bytes(n as nat).len() != 8,
    ensures
        counter_value(decimal_bytes(n as nat)) == n,
{
    lemma_decimal_bytes(n as nat);
    law_counter_digits(decimal_bytes(n as nat));
}

/// `+1` on a key that holds the decimal text of `n` stores `n + 1` as 8
/// big-endian bytes and answers with them.
pub proof fn law_inc_decimal(e: Entries, k: Seq<char>, n: u64, f: usize, g: usize)
    requires
        to_map(e).contains_key(k),
        to_map(e)[k] == decimal_bytes(n as nat),
        decimal_bytes(n as nat).len() != 8,
        n < u64::MAX,
    ensures
        apply_spec(e, ActionModel::Inc(k, f, g)).0[k] == be_bytes((n + 1) as u64),
        apply_spec(e, ActionModel::Inc(k, f, g)).1.replies == seq![reply_model(f, g, be_bytes((n + 1) as u64))],
{
    law_counter_decimal(n);
}

/// Transforms a byte array into a u64. Tries to parse from string when the size
/// isn't 64 bits, but this means that "12345678" will be considered a u64 and
/// not a string, because it has a length of 8 bytes. Pretty simple but inexact
/// rule.
pub fn vec_to_u64(vec: &[u8]) -> (n: u64)
    ensures
        n == counter_value(vec@),
{
    if vec.len() != 8 {
        return match parse_unsigned(vec, u64::MAX) {
            Some(n) => n,
            None => 0,
        };
    }
    from_be_bytes(vec)
}

pub fn u64_to_vec(n: u64) -> (v: Vec<u8>)
    ensures
        v@ == be_bytes(n),
{
    to_be_bytes(n)
}

impl Store<Vec<u8>> {
    /// Appends bytes to the value of a key, an absent key counting as empty.
    pub fn append(&mut self, key: Vec<char>, data: &[u8])
        requires
            old(self).wf(),
        ensures
            final(self).wf(),
            final(self).map() == old(self).map().insert(
                key@,
                value_or_empty(old(self).map(), key@) + data@,
            ),
    {
        let mut value: Vec<u8> = match self.get(key.as_slice()) {
            Some(v) => vstd::slice::slice_to_vec(v.as_slice()),
            None => Vec::new(),
        };
        let mut tail = vstd::slice::slice_to_vec(data);
        value.append(&mut tail);
        self.insert(key, value);
    }
}

/// `key value\0` for each entry, the key cut to its last dotted segment.
pub open spec fn kv_text(e: Entries) -> Seq<u8>
    decreases e.len(),
{
    if e.len() == 0 {
        Seq::empty()
    } else {
        kv_text(e.drop_last()) + encode_utf8(last_segment(e.last().0)) + seq![0x20u8] + e.last().1
            + seq![0u8]
    }
}

/// The `k` reply: the entries as `key value`, separated by `\0`.
pub open spec fn kv_message(e: Entries) -> Seq<u8> {
    let t = kv_text(e);
    if t.len() > 0 && t.last() == 0u8 {
        t.drop_last()
    } else {
        t
    }
}

/// Each entry of a `k` reply is written as the text after the last `.` of
/// its key, a space and its value; the entries are separated by `\0`, with
/// none after the last.
pub proof fn law_kv_message_entries(e: Entries, k: Seq<char>, v: Seq<u8>, seg: Seq<char>)
    requires
        is_last_segment(k, seg),
    ensures
        kv_text(e.push((k, v))) == kv_text(e) + encode_utf8(seg) + seq![0x20u8] + v + seq![0u8],
        kv_message(e.push((k, v))) == kv_text(e) + encode_utf8(seg) + seq![0x20u8] + v,
        kv_message(Seq::empty()) == Seq::<u8>::empty(),
{
    law_last_segment(k);
    let t = kv_text(e.push((k, v)));
    assert(e.push((k, v)).drop_last() =~= e);
    assert(t.drop_last() =~= kv_text(e) + encode_utf8(seg) + seq![0x20u8] + v);
}

/// 0x0 separated key value enumeration: key value\0x0key2 value2
pub fn key_value_message(kv: &[(Vec<char>, Vec<u8>)]) -> (message: Vec<u8>)
    ensures
        message@ == kv_message(pair_views(kv@)),
{
    let mut message: Vec<u8> = Vec::new();
    let mut i: usize = 0;
    while i < kv.len()
        invariant
            i <= kv@.len(),
            message@ == kv_text(pair_views(kv@.take(i as int))),
        decreases kv@.len() - i,
    {
        let ghost before = message@;
        let seg = string_of(last_segment_of(kv[i].0.as_slice()).as_slice());
        let mut key_bytes = vstd::slice::slice_to_vec(seg.as_str().as_bytes());
        message.append(&mut key_bytes);
        message.push(0x20u8);
        let mut value = vstd::slice::slice_to_vec(kv[i].1.as_slice());
        message.append(&mut value);
        message.push(0u8);
        proof {
            let t = pair_views(kv@.take(i + 1));
            assert(t.drop_last() =~= pair_views(kv@.take(i as int)));
            assert(t.last() == (kv@[i as int].0@, kv@[i as int].1@));
            assert(message@ =~= kv_text(t));
        }
        i = i + 1;
    }
    assert(kv@.take(kv@.len() as int) =~= kv@);
    if message.len() > 0 && message[message.len() - 1] == 0u8 {
        message.pop();
    }
    message
}

/// The pieces of `s` between separator bytes (`<[u8]>::split`).
pub open spec fn split_on(s: Seq<u8>, sep: u8) -> Seq<Seq<u8>>
    decreases s.len(),
{
    if s.len() == 0 {
        seq![Seq::empty()]
    } else {
        let prev = split_on(s.drop_last(), sep);
        if s.last() == sep {
            prev.push(Seq::empty())
        } else {
            prev.update(prev.len() - 1, prev.last().push(s.last()))
        }
    }
}

proof fn lemma_split_on_len(s: Seq<u8>, sep: u8)
    ensures
        split_on(s, sep).len() >= 1,
    decreases s.len(),
{
    if s.len() > 0 {
        lemma_split_on_len(s.drop_last(), sep);
    }
}

pub open spec fn bytes_views(v: Seq<Vec<u8>>) -> Seq<Seq<u8>> {
    v.map_values(|x: Vec<u8>| x@)
}

/// Splits bytes at each separator byte.
pub fn split_bytes(s: &[u8], sep: u8) -> (pieces: Vec<Vec<u8>>)
    ensures
        bytes_views(pieces@) == split_on(s@, sep),
{
    let mut pieces: Vec<Vec<u8>> = Vec::new();
    let mut cur: Vec<u8> = Vec::new();
    let mut i: usize = 0;
    assert(s@.take(0) =~= Seq::<u8>::empty());
    assert(bytes_views(pieces@).push(cur@) =~= split_on(s@.take(0), sep));
    while i < s.len()
        invariant
            i <= s@.len(),
            bytes_views(pieces@).push(cur@) == split_on(s@.take(i as int), sep),
        decreases s@.len() - i,
    {
        let ghost t = s@.take(i + 1);
        assert(t.drop_last() =~= s@.take(i as int));
        proof {
            lemma_split_on_len(s@.take(i as int), sep);
        }
        if s[i] == sep {
            let mut done: Vec<u8> = Vec::new();
            std::mem::swap(&mut done, &mut cur);
            pieces.push(done);
            assert(bytes_views(pieces@).push(cur@) =~= split_on(t, sep));
        } else {
            let ghost before = bytes_views(pieces@);
            cur.push(s[i]);
            assert(bytes_views(pieces@).push(cur@) =~= split_on(t, sep));
        }
        i = i + 1;
    }
    assert(s@.take(s@.len() as int) =~= s@);
    pieces.push(cur);
    assert(bytes_views(pieces@) =~= split_on(s@, sep));
    pieces
}

/// The key and value that one piece of a set list names: its first word,
/// read as text, and the rest.
pub open spec fn piece_pair(piece: Seq<u8>) -> (Seq<char>, Seq<u8>) {
    let (w, p) = word_at(piece, 0, space_sep());
    (utf8_lossy(w), rest_at(piece, p, space_sep()))
}

fn split_piece(piece: &[u8]) -> (kv: (String, Vec<u8>))
    ensures
        kv.0@ == piece_pair(piece@).0,
        kv.1@ == piece_pair(piece@).1,
{
    let mut cursor = Cursor::new(piece);
    let len = piece.len();
    let w = next_word(&mut cursor);
    proof {
        crate::cursor::lemma_token_end(piece@, 0, space_sep());
    }
    let ghost p = cursor.pos();
    assert((p as usize) as int == p);
    let val = remaining(&mut cursor);
    let key = lossy_string(w);
    (key, vstd::slice::slice_to_vec(val))
}


/// What a request to the data gives back: the replies for the writer, the
/// calls for the subscriptions, and whether the data changed (and needs
/// saving).
pub struct Outcome {
    pub replies: Vec<Order>,
    pub calls: Vec<subs::Action>,
    pub modified: bool,
}

pub struct OutcomeModel {
    pub replies: Seq<OrderModel>,
    pub calls: Seq<subs::ActionModel>,
    pub modified: bool,
}

pub open spec fn order_views(v: Seq<Order>) -> Seq<OrderModel> {
    v.map_values(|o: Order| o@)
}

pub open spec fn call_views(v: Seq<subs::Action>) -> Seq<subs::ActionModel> {
    v.map_values(|a: subs::Action| a@)
}

impl View for Outcome {
    type V = OutcomeModel;

    open spec fn view(&self) -> OutcomeModel {
        OutcomeModel {
            replies: order_views(self.replies@),
            calls: call_views(self.calls@),
            modified: self.modified,
        }
    }
}

/// The map after setting each pair in turn.
pub open spec fn insert_all(m: Map<Seq<char>, Seq<u8>>, pairs: Entries) -> Map<Seq<char>, Seq<u8>>
    decreases pairs.len(),
{
    if pairs.len() == 0 {
        m
    } else {
        insert_all(m, pairs.drop_last()).insert(pairs.last().0, pairs.last().1)
    }
}

/// The separator of a set list: the first character of its key, cut to a
/// byte as `char as u8` does.
pub open spec fn list_separator(k: Seq<char>) -> u8 {
    (k[0] as u32) as u8
}

pub open spec fn list_pairs(k: Seq<char>, v: Seq<u8>) -> Entries {
    split_on(v, list_separator(k)).map_values(|piece: Seq<u8>| piece_pair(piece))
}

pub open spec fn quiet(modified: bool) -> OutcomeModel {
    OutcomeModel { replies: Seq::empty(), calls: Seq::empty(), modified }
}

pub open spec fn json_outcome(e: Entries, k: Seq<char>, trim: bool, f: usize, g: usize) -> OutcomeModel {
    OutcomeModel {
        replies: seq![reply_model(f, g, encode_utf8(json_answer::<Vec<u8>>(e, k, trim)))],
        calls: Seq::empty(),
        modified: false,
    }
}

/// What a request does to the data (given its entries in key order) and what
/// it gives back.
pub open spec fn apply_spec(e: Entries, a: ActionModel) -> (Map<Seq<char>, Seq<u8>>, OutcomeModel) {
    let m = to_map(e);
    match a {
        ActionModel::SetValue(k, v) => (m.insert(k, v), quiet(true)),
        ActionModel::SetIfNone(k, v, f, g) => if m.contains_key(k) {
            (m, quiet(false))
        } else {
            (
                m.insert(k, v),
                OutcomeModel {
                    replies: Seq::empty(),
                    calls: seq![subs::ActionModel::Call(k, v, f, g)],
                    modified: true,
                },
            )
        },
        ActionModel::SetList(k, v, f, g) => {
            let pairs = list_pairs(k, v);
            (
                insert_all(m, pairs),
                OutcomeModel {
                    replies: Seq::empty(),
                    calls: pairs.map_values(
                        |p: (Seq<char>, Seq<u8>)| subs::ActionModel::Call(p.0, p.1, f, g),
                    ),
                    modified: true,
                },
            )
        },
        ActionModel::Inc(k, f, g) => {
            let n = if m.contains_key(k) {
                counter_value(m[k]) + 1
            } else {
                1
            };
            let bytes = be_bytes(n as u64);
            (
                m.insert(k, bytes),
                OutcomeModel {
                    replies: seq![reply_model(f, g, bytes)],
                    calls: seq![subs::ActionModel::Call(k, bytes, f, g)],
                    modified: true,
                },
            )
        },
        ActionModel::Append(k, d, f, g) => (
            m.insert(k, value_or_empty(m, k) + d),
            OutcomeModel {
                replies: Seq::empty(),
                calls: seq![subs::ActionModel::Call(k, d, f, g)],
                modified: true,
            },
        ),
        ActionModel::Delete(k) => (m.remove(k), quiet(m.contains_key(k))),
        ActionModel::Get(k, f, g) => (
            m,
            OutcomeModel {
                replies: seq![reply_model(f, g, value_or_empty(m, k))],
                calls: Seq::empty(),
                modified: false,
            },
        ),
        ActionModel::KeyValue(k, f, g) => (
            m,
            OutcomeModel {
                replies: seq![reply_model(f, g, kv_message(with_prefix(e, k)))],
                calls: Seq::empty(),
                modified: false,
            },
        ),
        ActionModel::Jtrim(k, f, g) => (m, json_outcome(e, k, true, f, g)),
        ActionModel::Json(k, f, g) => (m, json_outcome(e, k, false, f, g)),
    }
}

/// What a request needs to hold for the data to serve it without a panic:
/// an incremented counter stays below 2^64, and a set list has a key whose
/// first character is the separator.
pub open spec fn apply_ready(e: Entries, a: ActionModel) -> bool {
    match a {
        ActionModel::Inc(k, _, _) => !(to_map(e).contains_key(k) && counter_value(to_map(e)[k])
            == u64::MAX),
        ActionModel::SetList(k, _, _, _) => k.len() > 0,
        _ => true,
    }
}

impl Store<Vec<u8>> {
    /// Whether an incremented counter would pass `u64::MAX`.
    pub fn inc_overflows(&self, key: &String) -> (b: bool)
        requires
            self.wf(),
        ensures
            b == (self.map().contains_key(key@) && counter_value(self.map()[key@]) == u64::MAX),
    {
        let k = chars_of(key.as_str());
        match self.get(k.as_slice()) {
            Some(v) => vec_to_u64(v.as_slice()) == u64::MAX,
            None => false,
        }
    }

    fn empty_outcome(modified: bool) -> (out: Outcome)
        ensures
            out@ == quiet(modified),
    {
        let out = Outcome { replies: Vec::new(), calls: Vec::new(), modified };
        assert(out@.replies =~= Seq::<OrderModel>::empty());
        assert(out@.calls =~= Seq::<subs::ActionModel>::empty());
        out
    }

    fn set_list(&mut self, key: String, val: Vec<u8>, from_id: usize, msg_id: usize) -> (out: Outcome)
        requires
            old(self).wf(),
            key@.len() > 0,
        ensures
            final(self).wf(),
            (final(self).map(), out@) == apply_spec(
                old(self)@,
                ActionModel::SetList(key@, val@, from_id, msg_id),
            ),
    {
        let k = chars_of(key.as_str());
        let separator = (k[0] as u32) as u8;
        let pieces = split_bytes(val.as_slice(), separator);
        let ghost pairs = list_pairs(key@, val@);
        let ghost m0 = self.map();
        let mut calls: Vec<subs::Action> = Vec::new();
        let mut i: usize = 0;
        while i < pieces.len()
            invariant
                self.wf(),
                i <= pieces@.len(),
                bytes_views(pieces@) == split_on(val@, separator),
                pairs == list_pairs(key@, val@),
                separator == list_separator(key@),
                pairs.len() == pieces@.len(),
                forall|j: int| 0 <= j < pairs.len() ==> #[trigger] pairs[j] == piece_pair(pieces@[j]@),
                self.map() == insert_all(m0, pairs.take(i as int)),
                call_views(calls@) == pairs.take(i as int).map_values(
                    |p: (Seq<char>, Seq<u8>)| subs::ActionModel::Call(p.0, p.1, from_id, msg_id),
                ),
            decreases pieces@.len() - i,
        {
            let (pk, pv) = split_piece(pieces[i].as_slice());
            let pv2 = vstd::slice::slice_to_vec(pv.as_slice());
            let pkc = chars_of(pk.as_str());
            self.insert(pkc, pv2);
            let ghost before = call_views(calls@);
            let ghost pair = (pk@, pv@);
            assert(pairs[i as int] == pair);
            calls.push(subs::Action::Call(pk, pv, from_id, msg_id));
            proof {
                assert(call_views(calls@) =~= before.push(
                    subs::ActionModel::Call(pair.0, pair.1, from_id, msg_id),
                ));
                assert(pairs.take(i + 1).drop_last() =~= pairs.take(i as int));
                assert(pairs.take(i + 1).last() == pairs[i as int]);
                assert(call_views(calls@) =~= pairs.take(i + 1).map_values(
                    |p: (Seq<char>, Seq<u8>)| subs::ActionModel::Call(p.0, p.1, from_id, msg_id),
                ));
            }
            i = i + 1;
        }
        assert(pairs.take(pairs.len() as int) =~= pairs);
        let out = Outcome { replies: Vec::new(), calls, modified: true };
        assert(out@.replies =~= Seq::<OrderModel>::empty());
        out
    }

    /// Serves one request to the data.
    pub fn apply(&mut self, action: Action) -> (out: Outcome)
        requires
            old(self).wf(),
            apply_ready(old(self)@, action@),
        ensures
            final(self).wf(),
            (final(self).map(), out@) == apply_spec(old(self)@, action@),
    {
        match action {
            Action::SetValue(key, val) => {
                let k = chars_of(key.as_str());
                self.insert(k, val);
                Self::empty_outcome(true)
            },
            Action::SetIfNone(key, val, from_id, msg_id) => {
                let k = chars_of(key.as_str());
                if self.get(k.as_slice()).is_some() {
                    return Self::empty_outcome(false);
                }
                let v2 = vstd::slice::slice_to_vec(val.as_slice());
                self.insert(k, v2);
                let mut calls: Vec<subs::Action> = Vec::new();
                calls.push(subs::Action::Call(key, val, from_id, msg_id));
                let out = Outcome { replies: Vec::new(), calls, modified: true };
                assert(out@.replies =~= Seq::<OrderModel>::empty());
                assert(out@.calls =~= seq![subs::ActionModel::Call(key@, val@, from_id, msg_id)]);
                out
            },
            Action::SetList(key, val, from_id, msg_id) => self.set_list(key, val, from_id, msg_id),
            Action::Inc(key, from_id, msg_id) => {
                let k = chars_of(key.as_str());
                let inc: u64 = match self.get(k.as_slice()) {
                    Some(val) => vec_to_u64(val.as_slice()) + 1,
                    None => 1,
                };
                let inc_vec = u64_to_vec(inc);
                let stored = vstd::slice::slice_to_vec(inc_vec.as_slice());
                let called = vstd::slice::slice_to_vec(inc_vec.as_slice());
                self.insert(k, stored);
                let mut replies: Vec<Order> = Vec::new();
                replies.push(reply(from_id, msg_id, inc_vec));
                let mut calls: Vec<subs::Action> = Vec::new();
                calls.push(subs::Action::Call(key, called, from_id, msg_id));
                let out = Outcome { replies, calls, modified: true };
                assert(out@.replies =~= seq![reply_model(from_id, msg_id, be_bytes(inc))]);
                assert(out@.calls =~= seq![subs::ActionModel::Call(key@, be_bytes(inc), from_id, msg_id)]);
                out
            },
            Action::Append(key, data, from_id, msg_id) => {
                let k = chars_of(key.as_str());
                self.append(k, data.as_slice());
                let mut calls: Vec<subs::Action> = Vec::new();
                calls.push(subs::Action::Call(key, data, from_id, msg_id));
                let out = Outcome { replies: Vec::new(), calls, modified: true };
                assert(out@.replies =~= Seq::<OrderModel>::empty());
                assert(out@.calls =~= seq![subs::ActionModel::Call(key@, data@, from_id, msg_id)]);
                out
            },
            Action::Delete(key) => {
                let k = chars_of(key.as_str());
                let removed = self.remove(k.as_slice());
                Self::empty_outcome(removed)
            },
            Action::Get(key, from_id, msg_id) => {
                let k = chars_of(key.as_str());
                let message: Vec<u8> = match self.get(k.as_slice()) {
                    Some(value) => vstd::slice::slice_to_vec(value.as_slice()),
                    None => Vec::new(),
                };
                let mut replies: Vec<Order> = Vec::new();
                replies.push(reply(from_id, msg_id, message));
                let out = Outcome { replies, calls: Vec::new(), modified: false };
                assert(out@.replies =~= seq![reply_model(from_id, msg_id, value_or_empty(self.map(), key@))]);
                assert(out@.calls =~= Seq::<subs::ActionModel>::empty());
                out
            },
            Action::KeyValue(key, from_id, msg_id) => {
                let k = chars_of(key.as_str());
                let kv = self.prefixed(k.as_slice());
                let message = key_value_message(kv.as_slice());
                let mut replies: Vec<Order> = Vec::new();
                replies.push(reply(from_id, msg_id, message));
                let out = Outcome { replies, calls: Vec::new(), modified: false };
                assert(out@.replies =~= seq![reply_model(from_id, msg_id, kv_message(with_prefix(self@, key@)))]);
                assert(out@.calls =~= Seq::<subs::ActionModel>::empty());
                out
            },
            Action::Jtrim(key, from_id, msg_id) => {
                let ghost k = key@;
                let text = self.json_text(key, true);
                let mut replies: Vec<Order> = Vec::new();
                replies.push(reply(from_id, msg_id, vstd::slice::slice_to_vec(text.as_str().as_bytes())));
                let out = Outcome { replies, calls: Vec::new(), modified: false };
                assert(out@.replies =~= json_outcome(self@, k, true, from_id, msg_id).replies);
                assert(out@.calls =~= Seq::<subs::ActionModel>::empty());
                out
            },
            Action::Json(key, from_id, msg_id) => {
                let ghost k = key@;
                let text = self.json_text(key, false);
                let mut replies: Vec<Order> = Vec::new();
                replies.push(reply(from_id, msg_id, vstd::slice::slice_to_vec(text.as_str().as_bytes())));
                let out = Outcome { replies, calls: Vec::new(), modified: false };
                assert(out@.replies =~= json_outcome(self@, k, false, from_id, msg_id).replies);
                assert(out@.calls =~= Seq::<subs::ActionModel>::empty());
                out
            },
        }
    }
}

/// The client and message that a request came from (none for a set or a
/// delete, which get no reply from the data).
pub open spec fn requester(a: ActionModel) -> (usize, usize) {
    match a {
        ActionModel::SetValue(..) | ActionModel::Delete(..) => (0, 0),
        ActionModel::SetIfNone(_, _, f, g) | ActionModel::SetList(_, _, f, g) | ActionModel::Append(_, _, f, g) => (f, g),
        ActionModel::Inc(_, f, g) | ActionModel::Get(_, f, g) | ActionModel::KeyValue(_, f, g)
        | ActionModel::Jtrim(_, f, g) | ActionModel::Json(_, f, g) => (f, g),
    }
}

/// Every answer goes back to the client that asked, with the id of its
/// message.
pub proof fn law_replies_to_sender(e: Entries, a: ActionModel)
    ensures
        ({
            let out = apply_spec(e, a).1;
            let (f, g) = requester(a);
            forall|i: int| 0 <= i < out.replies.len() ==> #[trigger] out.replies[i] == reply_model(f, g, out.replies[i].data)
        }),
{
}

/// A get after a set gives back the value that was set.
pub proof fn law_get_after_set(e: Entries, e1: Entries, k: Seq<char>, v: Seq<u8>, f: usize, g: usize)
    requires
        sorted_keys(e),
        sorted_keys(e1),
        to_map(e1) == apply_spec(e, ActionModel::SetValue(k, v)).0,
    ensures
        apply_spec(e1, ActionModel::Get(k, f, g)).1.replies == seq![reply_model(f, g, v)],
{
}

/// A get after a delete gives back nothing.
pub proof fn law_get_after_delete(e: Entries, e1: Entries, k: Seq<char>, f: usize, g: usize)
    requires
        sorted_keys(e),
        sorted_keys(e1),
        to_map(e1) == apply_spec(e, ActionModel::Delete(k)).0,
    ensures
        apply_spec(e1, ActionModel::Get(k, f, g)).1.replies == seq![reply_model(f, g, Seq::<u8>::empty())],
{
}

/// Setting a key only if it has no value leaves a present key alone and
/// tells no subscriber.
pub proof fn law_set_if_none_keeps(e: Entries, k: Seq<char>, v: Seq<u8>, f: usize, g: usize)
    requires
        to_map(e).contains_key(k),
    ensures
        apply_spec(e, ActionModel::SetIfNone(k, v, f, g)).0 == to_map(e),
        apply_spec(e, ActionModel::SetIfNone(k, v, f, g)).1 == quiet(false),
{
}

/// Reads change nothing and need no saving.
pub proof fn law_reads_change_nothing(e: Entries, k: Seq<char>, f: usize, g: usize)
    ensures
        apply_spec(e, ActionModel::Get(k, f, g)).0 == to_map(e),
        !apply_spec(e, ActionModel::Get(k, f, g)).1.modified,
        apply_spec(e, ActionModel::KeyValue(k, f, g)).0 == to_map(e),
        !apply_spec(e, ActionModel::KeyValue(k, f, g)).1.modified,
        apply_spec(e, ActionModel::Jtrim(k, f, g)).0 == to_map(e),
        !apply_spec(e, ActionModel::Jtrim(k, f, g)).1.modified,
        apply_spec(e, ActionModel::Json(k, f, g)).0 == to_map(e),
        !apply_spec(e, ActionModel::Json(k, f, g)).1.modified,
{
}

/// A counter stored by an increment reads back as its number.
pub proof fn law_counter_roundtrip(n: u64)
    ensures
        counter_value(be_bytes(n)) == n,
{
    crate::numbers::law_be_roundtrip(n);
}

/// An increment counts on from the last one: the second of two increments
/// replies with the first one's number plus one.
pub proof fn law_inc_counts_up(e: Entries, e1: Entries, k: Seq<char>, f: usize, g: usize)
    requires
        sorted_keys(e),
        sorted_keys(e1),
        apply_ready(e, ActionModel::Inc(k, f, g)),
        to_map(e1) == apply_spec(e, ActionModel::Inc(k, f, g)).0,
    ensures
        ({
            let n = if to_map(e).contains_key(k) { counter_value(to_map(e)[k]) + 1 } else { 1 };
            &&& apply_spec(e, ActionModel::Inc(k, f, g)).1.replies == seq![reply_model(f, g, be_bytes(n as u64))]
            &&& n < u64::MAX ==> apply_spec(e1, ActionModel::Inc(k, f, g)).1.replies == seq![
                reply_model(f, g, be_bytes((n + 1) as u64)),
            ]
        }),
{
    let n = if to_map(e).contains_key(k) { counter_value(to_map(e)[k]) + 1 } else { 1 };
    law_counter_roundtrip(n as u64);
}

/// An append puts the bytes behind the value the key had (none for a new key).
pub proof fn law_append_extends(e: Entries, k: Seq<char>, d: Seq<u8>, f: usize, g: usize)
    ensures
        apply_spec(e, ActionModel::Append(k, d, f, g)).0[k] == value_or_empty(to_map(e), k) + d,
{
}

/// The entries that a prefix query lists are exactly those whose key starts
/// with the prefix, in key order.
pub proof fn law_prefix_entries(e: Entries, p: Seq<char>)
    ensures
        forall|i: int| 0 <= i < with_prefix(e, p).len() ==> has_prefix(#[trigger] with_prefix(e, p)[i].0, p),
        forall|i: int| 0 <= i < e.len() && has_prefix(#[trigger] e[i].0, p) ==> with_prefix(e, p).contains(e[i]),
        sorted_keys(e) ==> sorted_keys(with_prefix(e, p)),
    decreases e.len(),
{
    if e.len() > 0 {
        let d = e.drop_last();
        law_prefix_entries(d, p);
        assert forall|i: int| 0 <= i < e.len() && has_prefix(#[trigger] e[i].0, p) implies with_prefix(e, p).contains(e[i]) by {
            if i < e.len() - 1 {
                assert(d[i] == e[i]);
                let j = choose|j: int| 0 <= j < with_prefix(d, p).len() && with_prefix(d, p)[j] == d[i];
                if has_prefix(e.last().0, p) {
                    assert(with_prefix(e, p)[j] == e[i]);
                }
            } else {
                assert(with_prefix(e, p)[with_prefix(e, p).len() - 1] == e[i]);
            }
        }
        if sorted_keys(e) {
            assert(sorted_keys(d));
            if has_prefix(e.last().0, p) {
                let w = with_prefix(d, p);
                assert forall|a: int, b: int| 0 <= a < b < w.push(e.last()).len() implies key_lt(
                    #[trigger] w.push(e.last())[a].0,
                    #[trigger] w.push(e.last())[b].0,
                ) by {
                    if b == w.len() {
                        lemma_with_prefix_from(d, p, a);
                        let x = choose|x: int| 0 <= x < d.len() && d[x] == w[a];
                        assert(key_lt(e[x].0, e[e.len() - 1].0));
                    }
                }
            }
        }
    }
}

proof fn lemma_with_prefix_from(e: Entries, p: Seq<char>, a: int)
    requires
        0 <= a < with_prefix(e, p).len(),
    ensures
        exists|x: int| 0 <= x < e.len() && e[x] == with_prefix(e, p)[a],
    decreases e.len(),
{
    if e.len() > 0 {
        let d = e.drop_last();
        if has_prefix(e.last().0, p) && a == with_prefix(e, p).len() - 1 {
            assert(e[e.len() - 1] == with_prefix(e, p)[a]);
        } else {
            lemma_with_prefix_from(d, p, a);
            let x = choose|x: int| 0 <= x < d.len() && d[x] == with_prefix(d, p)[a];
            assert(e[x] == with_prefix(e, p)[a]);
        }
    }
}

} // verus!
