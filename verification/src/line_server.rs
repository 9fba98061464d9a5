//! The line server: one request per line, `get key` or `set key value`, on a
//! map of text values.
use vstd::prelude::*;

use crate::server::parse::{joined_key, proc_words, request_words};
use crate::store::{value_or_empty, Store};
use crate::text::{chars_of, lowercase, string_of, to_lowercase, trim, trim_spec};

verus! {

/// The error type of `std::io`, which `parse_message` reports in.
#[verifier::external_type_specification]
#[verifier::external_body]
pub struct ExIoError(std::io::Error);

/// A parsed request.
pub struct Process {
    pub instruction: Instruction,
    pub key: String,
    pub value: String,
}

#[derive(PartialEq, Eq, Structural, Debug, Clone, Copy)]
pub enum Instruction {
    /// Sets the value of a key.
    SetValue,
    Get,
    Nop,
}

/// The answer to a request, with the request.
pub struct Update {
    pub result: String,
    pub process: Process,
}

/// The instruction that a lowercase word names.
pub open spec fn instruction_spec(w: Seq<char>) -> Instruction {
    if w == seq!['g', 'e', 't'] {
        Instruction::Get
    } else if w == seq!['s', 'e', 't'] {
        Instruction::SetValue
    } else {
        Instruction::Nop
    }
}

/// What a request line parses to: its instruction, key and value (words as
/// `proc_words` splits them). An unknown instruction is `Nop`, and then the
/// key is the instruction word, a space and the key word.
pub open spec fn process_spec(content: Seq<char>) -> (Instruction, Seq<char>, Seq<char>) {
    let (inst, key, val) = proc_words(trim_spec(content));
    let instruction = instruction_spec(lowercase(trim_spec(inst)));
    let k = if instruction == Instruction::Nop {
        inst + seq![' '] + key
    } else {
        key
    };
    (instruction, trim_spec(k), trim_spec(val))
}

/// What a request does to the map and what it answers: the value for `get`
/// (empty when there is none), `OK` for `set`, `NOP` for anything else.
pub open spec fn update_spec(m: Map<Seq<char>, Seq<char>>, i: Instruction, k: Seq<char>, v: Seq<char>) -> (Map<Seq<char>, Seq<char>>, Seq<char>) {
    match i {
        Instruction::Get => (m, value_or_empty(m, k)),
        Instruction::SetValue => (m.insert(k, v), seq!['O', 'K']),
        Instruction::Nop => (m, seq!['N', 'O', 'P']),
    }
}

fn instruction_from_lowercase(w: &str) -> (i: Instruction)
    ensures
        i == instruction_spec(w@),
{
    let t = chars_of(w);
    if t.len() == 3 && t[0] == 'g' && t[1] == 'e' && t[2] == 't' {
        assert(t@ =~= seq!['g', 'e', 't']);
        Instruction::Get
    } else if t.len() == 3 && t[0] == 's' && t[1] == 'e' && t[2] == 't' {
        assert(t@ =~= seq!['s', 'e', 't']);
        Instruction::SetValue
    } else {
        Instruction::Nop
    }
}

/// Parses a request line; it always succeeds.
pub fn parse_message(content: &mut String) -> (r: std::io::Result<Process>)
    ensures
        *final(content) == *old(content),
        r matches Ok(p) && (p.instruction, p.key@, p.value@) == process_spec(old(content)@),
{
    let (inst, key, val) = request_words(content.as_str());
    let lower = to_lowercase(trim(inst.as_str()).as_str());
    let instruction = instruction_from_lowercase(lower.as_str());
    let key = match instruction {
        Instruction::Nop => joined_key(inst.as_str(), key.as_str()),
        _ => key,
    };
    Ok(Process { instruction, key: trim(key.as_str()), value: trim(val.as_str()) })
}

/// Serves a request on the map.
pub fn update_btreemap(process: Process, store: &mut Store<String>) -> (u: Update)
    requires
        old(store).wf(),
    ensures
        final(store).wf(),
        (final(store).map(), u.result@) == update_spec(
            old(store).map(),
            process.instruction,
            process.key@,
            process.value@,
        ),
        u.process.instruction == process.instruction,
        u.process.key@ == process.key@,
        u.process.value@ == process.value@,
{
    match process.instruction {
        Instruction::Get => {
            let k = chars_of(process.key.as_str());
            let result: String = match store.get(k.as_slice()) {
                Some(content) => content.clone(),
                None => String::new(),
            };
            Update { result, process }
        },
        Instruction::SetValue => {
            store.insert(chars_of(process.key.as_str()), process.value.clone());
            let ok = vec!['O', 'K'];
            assert(ok@ =~= seq!['O', 'K']);
            Update { result: string_of(ok.as_slice()), process }
        },
        Instruction::Nop => {
            let nop = vec!['N', 'O', 'P'];
            assert(nop@ =~= seq!['N', 'O', 'P']);
            Update { result: string_of(nop.as_slice()), process }
        },
    }
}

/// A `get` after a `set` gives back the value that was set.
pub proof fn law_get_after_set(m: Map<Seq<char>, Seq<char>>, k: Seq<char>, v: Seq<char>, v2: Seq<char>)
    ensures
        ({
            let (m1, _) = update_spec(m, Instruction::SetValue, k, v);
            update_spec(m1, Instruction::Get, k, v2).1 == v
        }),
{
}

} // verus!
