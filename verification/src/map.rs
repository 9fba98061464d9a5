//! A data map with text values: what each command does to it and
//! what it answers.
use vstd::prelude::*;

use crate::numbers::{decimal_chars, decimal_text, parse_unsigned, parse_unsigned_spec};
use crate::json::json_answer;
use crate::store::{pair_views, to_map, value_or_empty, with_prefix, Entries, Store};
use crate::text::{chars_of, is_last_segment, last_segment, last_segment_of, law_last_segment, string_of, trim_end, trim_end_spec};
use vstd::utf8::encode_utf8;

verus! {

/// A reply of the map.
pub enum MapResult {
    Message(String),
}

/// What the map is asked to do; the reply comes back from `handle`.
pub enum Cmd {
    /// Sets the value of a key.
    SetValue(String, String),
    SetIfNone(String, String),
    Inc(String),
    Append(String, String),
    Get(String),
    Bite(String),
    Jtrim(String),
    Json(String),
    Delete(String),
}

pub enum CmdModel {
    SetValue(Seq<char>, Seq<char>),
    SetIfNone(Seq<char>, Seq<char>),
    Inc(Seq<char>),
    Append(Seq<char>, Seq<char>),
    Get(Seq<char>),
    Bite(Seq<char>),
    Jtrim(Seq<char>),
    Json(Seq<char>),
    Delete(Seq<char>),
}

impl View for Cmd {
    type V = CmdModel;

    open spec fn view(&self) -> CmdModel {
        match self {
            Cmd::SetValue(k, v) => CmdModel::SetValue(k@, v@),
            Cmd::SetIfNone(k, v) => CmdModel::SetIfNone(k@, v@),
            Cmd::Inc(k) => CmdModel::Inc(k@),
            Cmd::Append(k, v) => CmdModel::Append(k@, v@),
            Cmd::Get(k) => CmdModel::Get(k@),
            Cmd::Bite(k) => CmdModel::Bite(k@),
            Cmd::Jtrim(k) => CmdModel::Jtrim(k@),
            Cmd::Json(k) => CmdModel::Json(k@),
            Cmd::Delete(k) => CmdModel::Delete(k@),
        }
    }
}

/// What a command gives back: a reply, and whether the map changed (and
/// needs saving).
pub struct MapOutcome {
    pub reply: Option<MapResult>,
    pub modified: bool,
}

pub struct MapOutcomeModel {
    pub reply: Option<Seq<char>>,
    pub modified: bool,
}

impl View for MapOutcome {
    type V = MapOutcomeModel;

    open spec fn view(&self) -> MapOutcomeModel {
        MapOutcomeModel {
            reply: match &self.reply {
                Some(MapResult::Message(s)) => Some(s@),
                None => None,
            },
            modified: self.modified,
        }
    }
}

/// The number that a text value counts (`str::parse::<u32>`).
pub open spec fn text_counter(v: Seq<char>) -> Option<u64> {
    parse_unsigned_spec(encode_utf8(v), u32::MAX as nat)
}

/// The count after an increment: one more than a number, else 0.
pub open spec fn next_count(m: Map<Seq<char>, Seq<char>>, k: Seq<char>) -> nat {
    if m.contains_key(k) {
        match text_counter(m[k]) {
            Some(n) => (n + 1) as nat,
            None => 0,
        }
    } else {
        0
    }
}

/// `key value` for one entry, the key cut to its last dotted segment.
pub open spec fn bite_entry(p: (Seq<char>, Seq<char>)) -> Seq<char> {
    last_segment(p.0) + seq![' '] + p.1
}

/// The entries as `key value`, separated by `\0`, with none after the last.
pub open spec fn bite_text(e: Entries<Seq<char>>) -> Seq<char>
    decreases e.len(),
{
    if e.len() == 0 {
        Seq::empty()
    } else if e.len() == 1 {
        bite_entry(e[0])
    } else {
        bite_text(e.drop_last()) + seq!['\0'] + bite_entry(e.last())
    }
}

/// A `k` listing writes each entry as the text after the last `.` of its
/// key, a space and its value, and separates the entries by `\0`, with none
/// after the last.
pub proof fn law_bite_text(e: Entries<Seq<char>>, k: Seq<char>, v: Seq<char>, seg: Seq<char>)
    requires
        is_last_segment(k, seg),
    ensures
        bite_text(Seq::empty()) == Seq::<char>::empty(),
        bite_text(e.push((k, v))) == (if e.len() == 0 {
            Seq::<char>::empty()
        } else {
            bite_text(e) + seq!['\0']
        }) + seg + seq![' '] + v,
{
    law_last_segment(k);
    let f = e.push((k, v));
    assert(f.drop_last() =~= e);
    if e.len() == 0 {
        assert(f[0] == (k, v));
        assert(Seq::<char>::empty() + seg + seq![' '] + v =~= seg + seq![' '] + v);
    }
}

pub open spec fn answer(text: Seq<char>, modified: bool) -> MapOutcomeModel {
    MapOutcomeModel { reply: Some(text), modified }
}

pub open spec fn silent(modified: bool) -> MapOutcomeModel {
    MapOutcomeModel { reply: None, modified }
}

/// What a command does to the map (given its entries in key order) and what
/// it gives back.
pub open spec fn handle_spec(e: Entries<Seq<char>>, c: CmdModel) -> (Map<Seq<char>, Seq<char>>, MapOutcomeModel) {
    let m = to_map(e);
    match c {
        CmdModel::SetValue(k, v) => (m.insert(k, v), silent(true)),
        CmdModel::SetIfNone(k, v) => if m.contains_key(k) {
            (m, silent(false))
        } else {
            (m.insert(k, v), silent(true))
        },
        CmdModel::Inc(k) => {
            let text = decimal_text(next_count(m, k));
            (m.insert(k, text), answer(text, true))
        },
        CmdModel::Append(k, v) => {
            let text = value_or_empty(m, k) + v;
            (m.insert(k, text), answer(text, true))
        },
        CmdModel::Get(k) => (m, answer(value_or_empty(m, k), false)),
        CmdModel::Bite(k) => (m, answer(trim_end_spec(bite_text(with_prefix(e, k))), false)),
        CmdModel::Jtrim(k) => (m, MapOutcomeModel { reply: Some(json_answer::<String>(e, k, true)), modified: false }),
        CmdModel::Json(k) => (m, MapOutcomeModel { reply: Some(json_answer::<String>(e, k, false)), modified: false }),
        CmdModel::Delete(k) => (m.remove(k), silent(true)),
    }
}

/// An increment needs the count to stay within `u32`; a larger count
/// overflows.
pub open spec fn handle_ready(e: Entries<Seq<char>>, c: CmdModel) -> bool {
    match c {
        CmdModel::Inc(k) => next_count(to_map(e), k) <= u32::MAX,
        _ => true,
    }
}

/// The count after an increment of a text value.
pub fn count_after(store: &Store<String>, k: &[char]) -> (n: u64)
    requires
        store.wf(),
    ensures
        n == next_count(store.map(), k@),
{
    match store.get(k) {
        Some(val) => match parse_unsigned(val.as_str().as_bytes(), 0xFFFF_FFFFu64) {
            Some(n) => n + 1,
            None => 0,
        },
        None => 0,
    }
}

/// `key value` for each entry, separated by `\0`.
pub fn bite_message(kv: &[(Vec<char>, String)]) -> (text: String)
    ensures
        text@ == trim_end_spec(bite_text(pair_views(kv@))),
{
    let mut msg: Vec<char> = Vec::new();
    let mut i: usize = 0;
    while i < kv.len()
        invariant
            i <= kv@.len(),
            msg@ == bite_text(pair_views(kv@.take(i as int))),
        decreases kv@.len() - i,
    {
        if i > 0 {
            msg.push('\0');
        }
        let mut seg = last_segment_of(kv[i].0.as_slice());
        msg.append(&mut seg);
        msg.push(' ');
        let mut value = chars_of(kv[i].1.as_str());
        msg.append(&mut value);
        proof {
            let t = pair_views(kv@.take(i + 1));
            assert(t.drop_last() =~= pair_views(kv@.take(i as int)));
            assert(t.last() == (kv@[i as int].0@, kv@[i as int].1@));
            assert(msg@ =~= bite_text(t));
        }
        i = i + 1;
    }
    assert(kv@.take(kv@.len() as int) =~= kv@);
    trim_end(string_of(msg.as_slice()).as_str())
}

fn text_reply(text: String, modified: bool) -> (out: MapOutcome)
    ensures
        out@ == answer(text@, modified),
{
    MapOutcome { reply: Some(MapResult::Message(text)), modified }
}

fn no_reply(modified: bool) -> (out: MapOutcome)
    ensures
        out@ == silent(modified),
{
    MapOutcome { reply: None, modified }
}

/// Whether a command can be served: an increment whose count would pass
/// `u32::MAX` cannot: it would overflow.
pub fn handle_ready_for(store: &Store<String>, cmd: &Cmd) -> (b: bool)
    requires
        store.wf(),
    ensures
        b == handle_ready(store@, cmd@),
{
    match cmd {
        Cmd::Inc(key) => {
            let k = chars_of(key.as_str());
            count_after(store, k.as_slice()) <= 0xFFFF_FFFFu64
        },
        _ => true,
    }
}

/// Serves one command.
pub fn handle(store: &mut Store<String>, cmd: Cmd) -> (out: MapOutcome)
    requires
        old(store).wf(),
        handle_ready(old(store)@, cmd@),
    ensures
        final(store).wf(),
        (final(store).map(), out@) == handle_spec(old(store)@, cmd@),
{
    match cmd {
        Cmd::SetValue(key, val) => {
            store.insert(chars_of(key.as_str()), val);
            no_reply(true)
        },
        Cmd::SetIfNone(key, val) => {
            let k = chars_of(key.as_str());
            if store.get(k.as_slice()).is_none() {
                store.insert(k, val);
                no_reply(true)
            } else {
                no_reply(false)
            }
        },
        Cmd::Inc(key) => {
            let k = chars_of(key.as_str());
            let inc = count_after(store, k.as_slice());
            let text = string_of(decimal_chars(inc).as_slice());
            store.insert(k, text.clone());
            text_reply(text, true)
        },
        Cmd::Append(key, val) => {
            let k = chars_of(key.as_str());
            let mut append: String = match store.get(k.as_slice()) {
                Some(v) => v.clone(),
                None => String::new(),
            };
            append.append(val.as_str());
            store.insert(k, append.clone());
            text_reply(append, true)
        },
        Cmd::Get(key) => {
            let k = chars_of(key.as_str());
            let msg: String = match store.get(k.as_slice()) {
                Some(v) => v.clone(),
                None => String::new(),
            };
            text_reply(msg, false)
        },
        Cmd::Bite(key) => {
            let k = chars_of(key.as_str());
            let kv = store.prefixed(k.as_slice());
            text_reply(bite_message(kv.as_slice()), false)
        },
        Cmd::Jtrim(key) => {
            let text = store.json_text(key, true);
            MapOutcome { reply: Some(MapResult::Message(text)), modified: false }
        },
        Cmd::Json(key) => {
            let text = store.json_text(key, false);
            MapOutcome { reply: Some(MapResult::Message(text)), modified: false }
        },
        Cmd::Delete(key) => {
            let k = chars_of(key.as_str());
            store.remove(k.as_slice());
            no_reply(true)
        },
    }
}

/// A get after a set gives back the value that was set.
pub proof fn law_get_after_set(e: Entries<Seq<char>>, e1: Entries<Seq<char>>, k: Seq<char>, v: Seq<char>)
    requires
        to_map(e1) == handle_spec(e, CmdModel::SetValue(k, v)).0,
    ensures
        handle_spec(e1, CmdModel::Get(k)).1.reply == Some(v),
{
}

/// A get after a delete gives back the empty text.
pub proof fn law_get_after_delete(e: Entries<Seq<char>>, e1: Entries<Seq<char>>, k: Seq<char>)
    requires
        to_map(e1) == handle_spec(e, CmdModel::Delete(k)).0,
    ensures
        handle_spec(e1, CmdModel::Get(k)).1.reply == Some(Seq::<char>::empty()),
{
}

/// An append answers, and stores, the value the key had (none for a new
/// key) followed by the appended text.
pub proof fn law_append_extends(e: Entries<Seq<char>>, k: Seq<char>, v: Seq<char>)
    ensures
        handle_spec(e, CmdModel::Append(k, v)).0[k] == value_or_empty(to_map(e), k) + v,
        handle_spec(e, CmdModel::Append(k, v)).1.reply == Some(value_or_empty(to_map(e), k) + v),
{
}

} // verus!
