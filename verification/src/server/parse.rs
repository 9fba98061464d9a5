//! The one-line requests of the text server: an instruction word, a key
//! word and the rest of the line as the value.
use vstd::prelude::*;

use crate::text::{chars_of, lowercase, string_of, to_lowercase, trim, trim_spec};

verus! {

/// A parsed request.
pub struct Proc {
    pub instr: Instr,
    pub key: String,
    pub value: String,
}

/// The instructions of the text server.
#[derive(PartialEq, Eq, Structural, Debug, Clone, Copy)]
pub enum Instr {
    Nop,
    /// Sets the value of a key (`s`).
    SetValue,
    Get,
    SubBite,
    Json,
    Jtrim,
    SubJ,
    SubGet,
    SetIfNone,
    Inc,
}

/// How a request is answered: by a reply that comes later from the map
/// (`Yes`), or at once with a text (`No`).
pub enum AsyncInstr {
    Yes,
    No(String),
}

/// The first index from `p` on that does not hold a space (or the end).
pub open spec fn skip_spaces(s: Seq<char>, p: int) -> int
    decreases s.len() - p,
{
    if 0 <= p < s.len() && s[p] == ' ' {
        skip_spaces(s, p + 1)
    } else {
        p
    }
}

/// The first index from `p` on that holds a space (or the end).
pub open spec fn word_end(s: Seq<char>, p: int) -> int
    decreases s.len() - p,
{
    if 0 <= p < s.len() && s[p] != ' ' {
        word_end(s, p + 1)
    } else {
        p
    }
}

/// The instruction word, the key word and the value of a trimmed line: words
/// end at a space, the spaces between them are skipped, and the value is all
/// that follows the spaces after the key.
pub open spec fn proc_words(s: Seq<char>) -> (Seq<char>, Seq<char>, Seq<char>) {
    let i1 = word_end(s, 0);
    let k1 = skip_spaces(s, i1);
    let i2 = word_end(s, k1);
    let k2 = skip_spaces(s, i2);
    (s.subrange(0, i1), s.subrange(k1, i2), s.subrange(k2, s.len() as int))
}

/// The instruction that a lowercase word names; any other word is `Nop`.
pub open spec fn instr_spec(w: Seq<char>) -> Instr {
    if w == seq!['s'] {
        Instr::SetValue
    } else if w == seq!['s', '?'] {
        Instr::SetIfNone
    } else if w == seq!['+', '1'] {
        Instr::Inc
    } else if w == seq!['g'] {
        Instr::Get
    } else if w == seq!['j'] {
        Instr::Jtrim
    } else if w == seq!['j', 's'] {
        Instr::Json
    } else if w == seq!['#', 'j'] {
        Instr::SubJ
    } else if w == seq!['#', 'g'] {
        Instr::SubGet
    } else if w == seq!['#', 'b'] {
        Instr::SubBite
    } else {
        Instr::Nop
    }
}

/// What a request line parses to: its instruction, key and value. The
/// instruction word is trimmed and lowercased; an unknown one is `Nop`, and
/// then the key is the instruction word, a space and the key word.
pub open spec fn proc_spec(content: Seq<char>) -> (Instr, Seq<char>, Seq<char>) {
    let (inst, key, val) = proc_words(trim_spec(content));
    let instr = instr_spec(lowercase(trim_spec(inst)));
    let k = if instr == Instr::Nop {
        inst + seq![' '] + key
    } else {
        key
    };
    (instr, trim_spec(k), trim_spec(val))
}

fn skip_spaces_at(s: &[char], p: usize) -> (q: usize)
    requires
        p <= s@.len(),
    ensures
        q == skip_spaces(s@, p as int),
        p <= q <= s@.len(),
{
    let mut i = p;
    while i < s.len() && s[i] == ' '
        invariant
            p <= i <= s@.len(),
            skip_spaces(s@, i as int) == skip_spaces(s@, p as int),
        decreases s@.len() - i,
    {
        i = i + 1;
    }
    i
}

fn word_end_at(s: &[char], p: usize) -> (q: usize)
    requires
        p <= s@.len(),
    ensures
        q == word_end(s@, p as int),
        p <= q <= s@.len(),
{
    let mut i = p;
    while i < s.len() && s[i] != ' '
        invariant
            p <= i <= s@.len(),
            word_end(s@, i as int) == word_end(s@, p as int),
        decreases s@.len() - i,
    {
        i = i + 1;
    }
    i
}

/// The instruction that a lowercase word names.
pub fn instr_from_lowercase(w: &str) -> (i: Instr)
    ensures
        i == instr_spec(w@),
{
    let t = chars_of(w);
    let n = t.len();
    if n == 1 {
        let a = t[0];
        if a == 's' {
            assert(t@ =~= seq!['s']);
            Instr::SetValue
        } else if a == 'g' {
            assert(t@ =~= seq!['g']);
            Instr::Get
        } else if a == 'j' {
            assert(t@ =~= seq!['j']);
            Instr::Jtrim
        } else {
            Instr::Nop
        }
    } else if n == 2 {
        let a = t[0];
        let b = t[1];
        if a == 's' && b == '?' {
            assert(t@ =~= seq!['s', '?']);
            Instr::SetIfNone
        } else if a == '+' && b == '1' {
            assert(t@ =~= seq!['+', '1']);
            Instr::Inc
        } else if a == 'j' && b == 's' {
            assert(t@ =~= seq!['j', 's']);
            Instr::Json
        } else if a == '#' && b == 'j' {
            assert(t@ =~= seq!['#', 'j']);
            Instr::SubJ
        } else if a == '#' && b == 'g' {
            assert(t@ =~= seq!['#', 'g']);
            Instr::SubGet
        } else if a == '#' && b == 'b' {
            assert(t@ =~= seq!['#', 'b']);
            Instr::SubBite
        } else {
            Instr::Nop
        }
    } else {
        Instr::Nop
    }
}

/// The instruction word, the key word and the value of a request line, once
/// it is trimmed.
pub fn request_words(content: &str) -> (w: (String, String, String))
    ensures
        (w.0@, w.1@, w.2@) == proc_words(trim_spec(content@)),
{
    let t = trim(content);
    let s = chars_of(t.as_str());
    let cs = s.as_slice();
    let i1 = word_end_at(cs, 0);
    let k1 = skip_spaces_at(cs, i1);
    let i2 = word_end_at(cs, k1);
    let k2 = skip_spaces_at(cs, i2);
    (string_of(&cs[0..i1]), string_of(&cs[k1..i2]), string_of(&cs[k2..cs.len()]))
}

/// The instruction word and a space before the key word (the key of an
/// unknown instruction).
pub fn joined_key(inst: &str, key: &str) -> (k: String)
    ensures
        k@ == inst@ + seq![' '] + key@,
{
    let mut kv = chars_of(inst);
    kv.push(' ');
    let mut rest = chars_of(key);
    kv.append(&mut rest);
    assert(kv@ =~= inst@ + seq![' '] + key@);
    string_of(kv.as_slice())
}

/// Parses a request line: instruction, key and value.
pub fn proc_from_string(content: &str) -> (p: Proc)
    ensures
        (p.instr, p.key@, p.value@) == proc_spec(content@),
{
    let (inst, key, val) = request_words(content);
    let lower = to_lowercase(trim(inst.as_str()).as_str());
    let instr = instr_from_lowercase(lower.as_str());
    let key = match instr {
        Instr::Nop => joined_key(inst.as_str(), key.as_str()),
        _ => key,
    };
    Proc { instr, key: trim(key.as_str()), value: trim(val.as_str()) }
}

} // verus!
