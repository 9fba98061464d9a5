//! The data map of the text server, with text values: what each command
//! does to it, what it answers and which subscribers it calls.
use vstd::prelude::*;

use crate::map::{count_after, next_count, MapResult};
use crate::numbers::{decimal_chars, decimal_text};
use crate::json::json_answer;
use crate::store::{to_map, value_or_empty, Entries, Store};
use crate::text::{chars_of, string_of};

verus! {

/// What the map is asked to do.
pub enum Command {
    Get(String),
    /// Sets the value of a key.
    SetValue(String, String),
    SetIfNone(String, String),
    Json(String),
    Jtrim(String),
    Inc(String),
}

pub enum CommandModel {
    Get(Seq<char>),
    SetValue(Seq<char>, Seq<char>),
    SetIfNone(Seq<char>, Seq<char>),
    Json(Seq<char>),
    Jtrim(Seq<char>),
    Inc(Seq<char>),
}

impl View for Command {
    type V = CommandModel;

    open spec fn view(&self) -> CommandModel {
        match self {
            Command::Get(k) => CommandModel::Get(k@),
            Command::SetValue(k, v) => CommandModel::SetValue(k@, v@),
            Command::SetIfNone(k, v) => CommandModel::SetIfNone(k@, v@),
            Command::Json(k) => CommandModel::Json(k@),
            Command::Jtrim(k) => CommandModel::Jtrim(k@),
            Command::Inc(k) => CommandModel::Inc(k@),
        }
    }
}

/// What a command gives back: a reply, a call of the subscribers of a key
/// with a value, and whether the map needs saving.
pub struct Outcome {
    pub reply: Option<MapResult>,
    pub call: Option<(String, String)>,
    pub modified: bool,
}

pub struct OutcomeModel {
    pub reply: Option<Seq<char>>,
    pub call: Option<(Seq<char>, Seq<char>)>,
    pub modified: bool,
}

impl View for Outcome {
    type V = OutcomeModel;

    open spec fn view(&self) -> OutcomeModel {
        OutcomeModel {
            reply: match &self.reply {
                Some(MapResult::Message(s)) => Some(s@),
                None => None,
            },
            call: match &self.call {
                Some((k, v)) => Some((k@, v@)),
                None => None,
            },
            modified: self.modified,
        }
    }
}

pub open spec fn quiet(call: Option<(Seq<char>, Seq<char>)>, modified: bool) -> OutcomeModel {
    OutcomeModel { reply: None, call, modified }
}

/// What a command does to the map (given its entries in key order) and what
/// it gives back. `s?` calls the key's subscribers with the value it keeps;
/// `+1` answers and calls them with the new count, and does not mark the map
/// for saving.
pub open spec fn handle_spec(e: Entries<Seq<char>>, c: CommandModel) -> (Map<Seq<char>, Seq<char>>, OutcomeModel) {
    let m = to_map(e);
    match c {
        CommandModel::Get(k) => (m, OutcomeModel { reply: Some(value_or_empty(m, k)), call: None, modified: false }),
        CommandModel::SetValue(k, v) => (m.insert(k, v), quiet(None, true)),
        CommandModel::SetIfNone(k, v) => if m.contains_key(k) {
            (m, quiet(Some((k, m[k])), false))
        } else {
            (m.insert(k, v), quiet(Some((k, v)), true))
        },
        CommandModel::Json(k) => (m, OutcomeModel { reply: Some(json_answer::<String>(e, k, false)), call: None, modified: false }),
        CommandModel::Jtrim(k) => (m, OutcomeModel { reply: Some(json_answer::<String>(e, k, true)), call: None, modified: false }),
        CommandModel::Inc(k) => {
            let text = decimal_text(next_count(m, k));
            (m.insert(k, text), OutcomeModel { reply: Some(text), call: Some((k, text)), modified: false })
        },
    }
}

/// An increment needs the count to stay within `u32`; a larger count
/// overflows.
pub open spec fn handle_ready(e: Entries<Seq<char>>, c: CommandModel) -> bool {
    match c {
        CommandModel::Inc(k) => next_count(to_map(e), k) <= u32::MAX,
        _ => true,
    }
}

/// Whether a command can be served: an increment whose count would pass
/// `u32::MAX` cannot: it would overflow.
pub fn handle_ready_for(store: &Store<String>, cmd: &Command) -> (b: bool)
    requires
        store.wf(),
    ensures
        b == handle_ready(store@, cmd@),
{
    match cmd {
        Command::Inc(key) => {
            let k = chars_of(key.as_str());
            count_after(store, k.as_slice()) <= 0xFFFF_FFFFu64
        },
        _ => true,
    }
}

/// Serves one command.
pub fn handle(store: &mut Store<String>, cmd: Command) -> (out: Outcome)
    requires
        old(store).wf(),
        handle_ready(old(store)@, cmd@),
    ensures
        final(store).wf(),
        (final(store).map(), out@) == handle_spec(old(store)@, cmd@),
{
    match cmd {
        Command::Get(key) => {
            let k = chars_of(key.as_str());
            let msg: String = match store.get(k.as_slice()) {
                Some(v) => v.clone(),
                None => String::new(),
            };
            Outcome { reply: Some(MapResult::Message(msg)), call: None, modified: false }
        },
        Command::SetValue(key, val) => {
            store.insert(chars_of(key.as_str()), val);
            Outcome { reply: None, call: None, modified: true }
        },
        Command::SetIfNone(key, val) => {
            let k = chars_of(key.as_str());
            let existing: Option<String> = match store.get(k.as_slice()) {
                Some(v) => Some(v.clone()),
                None => None,
            };
            match existing {
                Some(v) => Outcome { reply: None, call: Some((key, v)), modified: false },
                None => {
                    store.insert(k, val.clone());
                    Outcome { reply: None, call: Some((key, val)), modified: true }
                },
            }
        },
        Command::Json(key) => {
            let text = store.json_text(key, false);
            Outcome { reply: Some(MapResult::Message(text)), call: None, modified: false }
        },
        Command::Jtrim(key) => {
            let text = store.json_text(key, true);
            Outcome { reply: Some(MapResult::Message(text)), call: None, modified: false }
        },
        Command::Inc(key) => {
            let k = chars_of(key.as_str());
            let inc = count_after(store, k.as_slice());
            let text = string_of(decimal_chars(inc).as_slice());
            store.insert(k, text.clone());
            Outcome { reply: Some(MapResult::Message(text.clone())), call: Some((key, text)), modified: false }
        },
    }
}

/// A get after a set gives back the value that was set.
pub proof fn law_get_after_set(e: Entries<Seq<char>>, e1: Entries<Seq<char>>, k: Seq<char>, v: Seq<char>)
    requires
        to_map(e1) == handle_spec(e, CommandModel::SetValue(k, v)).0,
    ensures
        handle_spec(e1, CommandModel::Get(k)).1.reply == Some(v),
{
}

/// Setting a key only if it has none leaves a present value alone, and the
/// key's subscribers are called with the value that the key then has.
pub proof fn law_set_if_none_keeps(e: Entries<Seq<char>>, k: Seq<char>, v: Seq<char>)
    ensures
        ({
            let (m1, out) = handle_spec(e, CommandModel::SetIfNone(k, v));
            &&& to_map(e).contains_key(k) ==> m1 == to_map(e)
            &&& m1.contains_key(k)
            &&& out.call == Some((k, m1[k]))
        }),
{
}

} // verus!
