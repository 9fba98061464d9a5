//! A command parser whose words end at a space; the instruction, the key and
//! the value must all be UTF-8.
use vstd::prelude::*;

use crate::cursor::word_at;
use crate::parse::{line_pieces, msg_matches, parse_split, sep_of, split_line, Instr};
use crate::text::{trim_end_spec, utf8_str};
use vstd::utf8::{decode_utf8, valid_utf8};

verus! {

/// A parsed line: instruction, key and value.
pub struct Msg {
    pub instr: Instr,
    pub key: String,
    pub value: String,
}

/// The instruction, the key bytes and the value bytes of a line whose words
/// end at a space (see `split_line`).
pub open spec fn msg_pieces(s: Seq<u8>) -> (Instr, Seq<u8>, Seq<u8>) {
    split_line(s, sep_of(true))
}

/// A line can be parsed: its first word, its key and its value are UTF-8.
pub open spec fn parse_ready(s: Seq<u8>) -> bool {
    &&& valid_utf8(word_at(s, 0, sep_of(true)).0)
    &&& valid_utf8(msg_pieces(s).1)
    &&& valid_utf8(msg_pieces(s).2)
}

/// Returns a Msg with the first character found as instruction, the next
/// word as key, and the rest as value; a first word that names an
/// instruction of its own is followed by the key word.
///
/// This text: +hello world is a pretty old meme
/// Returns: Msg { Instr::Append, "hello", "world is a pretty old meme" }
pub fn parse(msg: &[u8]) -> (m: Msg)
    requires
        parse_ready(msg@),
    ensures
        m.instr == msg_pieces(msg@).0,
        m.key@ == trim_end_spec(decode_utf8(msg_pieces(msg@).1)),
        m.value@ == trim_end_spec(decode_utf8(msg_pieces(msg@).2)),
{
    let m = parse_split(msg, true);
    proof {
        assert(msg_matches(m, msg_pieces(msg@)));
    }
    Msg { instr: m.instr, key: m.key, value: m.value }
}

/// Whether a line can be parsed.
pub fn line_ready(msg: &[u8]) -> (b: bool)
    ensures
        b == parse_ready(msg@),
{
    let (op, key, value) = line_pieces(msg, true);
    utf8_str(op).is_some() && utf8_str(key).is_some() && utf8_str(value).is_some()
}

pub fn needs_key(instr: &Instr) -> (b: bool)
    ensures
        b == !(*instr == Instr::Nop || *instr == Instr::KeyValue || *instr == Instr::Jtrim
            || *instr == Instr::Json),
{
    crate::parse::needs_key(instr)
}

} // verus!
