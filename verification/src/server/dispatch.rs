//! How a worker of the text server serves a parsed request: what goes to
//! the map and to the subscriptions, and how the request is answered.
use vstd::prelude::*;

use crate::server::map::{Command, CommandModel};
use crate::server::parse::{AsyncInstr, Instr, Proc};
use crate::text::string_of;

verus! {

/// The work that a request asks for.
pub enum Work {
    /// Send the map command and the subscribers' call, where there are any,
    /// then answer as `reply` says.
    Run { map: Option<Command>, publish: Option<(String, String)>, reply: AsyncInstr },
    /// The connection subscribes to a key and receives its calls from then on.
    Subscribe(String, Instr),
}

/// A work; an answer of `None` waits for the map's reply.
pub enum WorkModel {
    Run { map: Option<CommandModel>, publish: Option<(Seq<char>, Seq<char>)>, reply: Option<Seq<char>> },
    Subscribe(Seq<char>, Instr),
}

impl View for Work {
    type V = WorkModel;

    open spec fn view(&self) -> WorkModel {
        match self {
            Work::Run { map, publish, reply } => WorkModel::Run {
                map: match map {
                    Some(c) => Some(c@),
                    None => None,
                },
                publish: match publish {
                    Some((k, v)) => Some((k@, v@)),
                    None => None,
                },
                reply: match reply {
                    AsyncInstr::Yes => None,
                    AsyncInstr::No(s) => Some(s@),
                },
            },
            Work::Subscribe(k, i) => WorkModel::Subscribe(k@, *i),
        }
    }
}

pub open spec fn answer_now(text: Seq<char>) -> WorkModel {
    WorkModel::Run { map: None, publish: None, reply: Some(text) }
}

pub open spec fn ask_map(c: CommandModel) -> WorkModel {
    WorkModel::Run { map: Some(c), publish: None, reply: None }
}

/// The work for an instruction, a key and a value. A key is needed by `s`,
/// `s?`, `+1` and `g`; without one the answer is `KEY?`.
pub open spec fn work_spec(instr: Instr, k: Seq<char>, v: Seq<char>) -> WorkModel {
    let ok = seq!['O', 'K'];
    let no_key = k.len() == 0;
    match instr {
        Instr::Nop => answer_now(seq!['N', 'O', 'P']),
        Instr::SetValue => if no_key {
            answer_now(seq!['K', 'E', 'Y', '?'])
        } else {
            WorkModel::Run { map: Some(CommandModel::SetValue(k, v)), publish: Some((k, v)), reply: Some(ok) }
        },
        Instr::SetIfNone => if no_key {
            answer_now(seq!['K', 'E', 'Y', '?'])
        } else {
            WorkModel::Run { map: Some(CommandModel::SetIfNone(k, v)), publish: None, reply: Some(ok) }
        },
        Instr::Inc => if no_key {
            answer_now(seq!['K', 'E', 'Y', '?'])
        } else {
            ask_map(CommandModel::Inc(k))
        },
        Instr::Get => if no_key {
            answer_now(seq!['K', 'E', 'Y', '?'])
        } else {
            ask_map(CommandModel::Get(k))
        },
        Instr::Jtrim => ask_map(CommandModel::Jtrim(k)),
        Instr::Json => ask_map(CommandModel::Json(k)),
        Instr::SubJ | Instr::SubGet | Instr::SubBite => WorkModel::Subscribe(k, instr),
    }
}

fn now(text: &[char]) -> (w: Work)
    ensures
        w@ == answer_now(text@),
{
    Work::Run { map: None, publish: None, reply: AsyncInstr::No(string_of(text)) }
}

fn no_key() -> (w: Work)
    ensures
        w@ == answer_now(seq!['K', 'E', 'Y', '?']),
{
    let t = vec!['K', 'E', 'Y', '?'];
    assert(t@ =~= seq!['K', 'E', 'Y', '?']);
    now(t.as_slice())
}

fn ok() -> (r: AsyncInstr)
    ensures
        r matches AsyncInstr::No(s) && s@ == seq!['O', 'K'],
{
    let t = vec!['O', 'K'];
    assert(t@ =~= seq!['O', 'K']);
    AsyncInstr::No(string_of(t.as_slice()))
}

/// The work that a parsed request asks for.
pub fn dispatch(proc: Proc) -> (w: Work)
    ensures
        w@ == work_spec(proc.instr, proc.key@, proc.value@),
{
    let Proc { instr, key, value } = proc;
    let missing = key.as_str().is_empty();
    match instr {
        Instr::Nop => {
            let t = vec!['N', 'O', 'P'];
            assert(t@ =~= seq!['N', 'O', 'P']);
            now(t.as_slice())
        },
        Instr::SetValue => if missing {
            no_key()
        } else {
            Work::Run {
                map: Some(Command::SetValue(key.clone(), value.clone())),
                publish: Some((key, value)),
                reply: ok(),
            }
        },
        Instr::SetIfNone => if missing {
            no_key()
        } else {
            Work::Run { map: Some(Command::SetIfNone(key, value)), publish: None, reply: ok() }
        },
        Instr::Inc => if missing {
            no_key()
        } else {
            Work::Run { map: Some(Command::Inc(key)), publish: None, reply: AsyncInstr::Yes }
        },
        Instr::Get => if missing {
            no_key()
        } else {
            Work::Run { map: Some(Command::Get(key)), publish: None, reply: AsyncInstr::Yes }
        },
        Instr::Jtrim => Work::Run { map: Some(Command::Jtrim(key)), publish: None, reply: AsyncInstr::Yes },
        Instr::Json => Work::Run { map: Some(Command::Json(key)), publish: None, reply: AsyncInstr::Yes },
        Instr::SubJ | Instr::SubGet | Instr::SubBite => Work::Subscribe(key, instr),
    }
}

} // verus!
