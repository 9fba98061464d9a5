//! A command parser whose words are separated by any ASCII
//! white space, and the value is text.
use vstd::prelude::*;

use crate::cursor::{lemma_skip_seps_is, lemma_find_sep_is, lemma_token_end, rest_at, token_at, word_at, Cursor};
use crate::parser::{command_from_lowercase, command_spec, newline_sep, next_token_post, Command};
use crate::text::{lowercase, to_lowercase, trim_end, trim_end_spec, utf8_str};
use vstd::utf8::{decode_utf8, valid_utf8};

verus! {

/// The instructions of the protocol.
#[derive(PartialEq, Eq, Structural, Debug, Clone, Copy)]
pub enum Instr {
    Nop,
    SetValue,
    SetIfNone,
    Inc,
    Append,
    Delete,
    Get,
    KeyValue,
    Jtrim,
    Json,
    SubGet,
    SubKeyValue,
    SubJson,
    Unsub,
    SubCall,
}

/// The name of an instruction, as it is printed.
pub open spec fn instr_name(x: Instr) -> Seq<char> {
    match x {
        Instr::Nop => seq!['N', 'o', 'p'],
        Instr::SetValue => seq!['S', 'e', 't'],
        Instr::SetIfNone => seq!['S', 'e', 't', 'I', 'f', 'N', 'o', 'n', 'e'],
        Instr::Inc => seq!['I', 'n', 'c'],
        Instr::Append => seq!['A', 'p', 'p', 'e', 'n', 'd'],
        Instr::Delete => seq!['D', 'e', 'l', 'e', 't', 'e'],
        Instr::Get => seq!['G', 'e', 't'],
        Instr::KeyValue => seq!['K', 'e', 'y', 'V', 'a', 'l', 'u', 'e'],
        Instr::Jtrim => seq!['J', 't', 'r', 'i', 'm'],
        Instr::Json => seq!['J', 's', 'o', 'n'],
        Instr::SubGet => seq!['S', 'u', 'b', 'G', 'e', 't'],
        Instr::SubKeyValue => seq!['S', 'u', 'b', 'K', 'e', 'y', 'V', 'a', 'l', 'u', 'e'],
        Instr::SubJson => seq!['S', 'u', 'b', 'J', 's', 'o', 'n'],
        Instr::Unsub => seq!['U', 'n', 's', 'u', 'b'],
        Instr::SubCall => seq!['S', 'u', 'b', 'C', 'a', 'l', 'l'],
    }
}

impl Instr {
    /// The instruction's name, as `Display` prints it.
    pub fn name(&self) -> (s: &'static str)
        ensures
            s@ == instr_name(*self),
    {
        match self {
            Instr::Nop => {
                proof {
                    reveal_strlit("Nop");
                }
                "Nop"
            },
            Instr::SetValue => {
                proof {
                    reveal_strlit("Set");
                }
                "Set"
            },
            Instr::SetIfNone => {
                proof {
                    reveal_strlit("SetIfNone");
                }
                "SetIfNone"
            },
            Instr::Inc => {
                proof {
                    reveal_strlit("Inc");
                }
                "Inc"
            },
            Instr::Append => {
                proof {
                    reveal_strlit("Append");
                }
                "Append"
            },
            Instr::Delete => {
                proof {
                    reveal_strlit("Delete");
                }
                "Delete"
            },
            Instr::Get => {
                proof {
                    reveal_strlit("Get");
                }
                "Get"
            },
            Instr::KeyValue => {
                proof {
                    reveal_strlit("KeyValue");
                }
                "KeyValue"
            },
            Instr::Jtrim => {
                proof {
                    reveal_strlit("Jtrim");
                }
                "Jtrim"
            },
            Instr::Json => {
                proof {
                    reveal_strlit("Json");
                }
                "Json"
            },
            Instr::SubGet => {
                proof {
                    reveal_strlit("SubGet");
                }
                "SubGet"
            },
            Instr::SubKeyValue => {
                proof {
                    reveal_strlit("SubKeyValue");
                }
                "SubKeyValue"
            },
            Instr::SubJson => {
                proof {
                    reveal_strlit("SubJson");
                }
                "SubJson"
            },
            Instr::Unsub => {
                proof {
                    reveal_strlit("Unsub");
                }
                "Unsub"
            },
            Instr::SubCall => {
                proof {
                    reveal_strlit("SubCall");
                }
                "SubCall"
            },
        }
    }
}

/// The instruction that a command names (they are named alike).
pub open spec fn instr_of(c: Command) -> Instr {
    match c {
        Command::No => Instr::Nop,
        Command::SetValue => Instr::SetValue,
        Command::SetIfNone => Instr::SetIfNone,
        Command::Inc => Instr::Inc,
        Command::Append => Instr::Append,
        Command::Delete => Instr::Delete,
        Command::Get => Instr::Get,
        Command::KeyValue => Instr::KeyValue,
        Command::Jtrim => Instr::Jtrim,
        Command::Json => Instr::Json,
        Command::SubGet => Instr::SubGet,
        Command::SubKeyValue => Instr::SubKeyValue,
        Command::SubJson => Instr::SubJson,
        Command::Unsub => Instr::Unsub,
        Command::SubCall => Instr::SubCall,
    }
}

pub fn to_instr(c: Command) -> (i: Instr)
    ensures
        i == instr_of(c),
{
    match c {
        Command::No => Instr::Nop,
        Command::SetValue => Instr::SetValue,
        Command::SetIfNone => Instr::SetIfNone,
        Command::Inc => Instr::Inc,
        Command::Append => Instr::Append,
        Command::Delete => Instr::Delete,
        Command::Get => Instr::Get,
        Command::KeyValue => Instr::KeyValue,
        Command::Jtrim => Instr::Jtrim,
        Command::Json => Instr::Json,
        Command::SubGet => Instr::SubGet,
        Command::SubKeyValue => Instr::SubKeyValue,
        Command::SubJson => Instr::SubJson,
        Command::Unsub => Instr::Unsub,
        Command::SubCall => Instr::SubCall,
    }
}

/// A parsed line: instruction, key and value.
pub struct Msg {
    pub instr: Instr,
    pub key: String,
    pub value: String,
}

/// The separators of words: space, tab, carriage return, line feed.
pub open spec fn white_sep() -> spec_fn(u8) -> bool {
    |b: u8| b == 0x20u8 || b == 0x09u8 || b == 0x0Du8 || b == 0x0Au8
}

/// The separators of words: the space alone, or any ASCII white space.
pub open spec fn sep_of(spaces_only: bool) -> spec_fn(u8) -> bool {
    if spaces_only {
        |b: u8| b == 0x20u8
    } else {
        white_sep()
    }
}

/// The instruction that a single character names, or `Nop`.
pub open spec fn short_instr(b: u8) -> Instr {
    if b == 0x2Bu8 {
        Instr::Append
    } else if b == 0x73u8 || b == 0x53u8 {
        Instr::SetValue
    } else if b == 0x64u8 || b == 0x44u8 {
        Instr::Delete
    } else if b == 0x67u8 || b == 0x47u8 {
        Instr::Get
    } else if b == 0x6Bu8 || b == 0x4Bu8 {
        Instr::KeyValue
    } else if b == 0x6Au8 || b == 0x4Au8 {
        Instr::Jtrim
    } else if b == 0x21u8 {
        Instr::SubCall
    } else {
        Instr::Nop
    }
}

/// The text of bytes, or nothing when they are not UTF-8.
pub open spec fn utf8_or_empty(b: Seq<u8>) -> Seq<char> {
    if valid_utf8(b) {
        decode_utf8(b)
    } else {
        Seq::empty()
    }
}

/// The instruction, the key bytes and the value bytes of a line whose words
/// end at `sep`. A first word that names an instruction is followed by the
/// key word and the value. A first word that names none but starts with a
/// one-character instruction holds that instruction and, after it, the key;
/// the value is the text after that word (`+hello world` appends `world` to
/// `hello`). Any other first word names nothing.
pub open spec fn split_line(s: Seq<u8>, sep: spec_fn(u8) -> bool) -> (Instr, Seq<u8>, Seq<u8>) {
    let (w0, p1) = word_at(s, 0, sep);
    let (w1, p2) = word_at(s, p1, sep);
    let named = instr_of(command_spec(trim_end_spec(lowercase(utf8_or_empty(w0)))));
    if named == Instr::Nop && w0.len() >= 2 && short_instr(w0[0]) != Instr::Nop {
        (short_instr(w0[0]), w0.subrange(1, w0.len() as int), rest_at(s, p1, sep))
    } else {
        (named, w1, rest_at(s, p2, sep))
    }
}

/// The instruction, the key bytes and the value bytes of a line whose words
/// are separated by white space.
pub open spec fn msg_words(s: Seq<u8>) -> (Instr, Seq<u8>, Seq<u8>) {
    split_line(s, white_sep())
}

/// A line can be parsed: its value is UTF-8.
pub open spec fn parse_ready(s: Seq<u8>) -> bool {
    valid_utf8(msg_words(s).2)
}

/// What a parsed line holds, given its instruction, key and value bytes.
pub open spec fn msg_matches(m: Msg, split: (Instr, Seq<u8>, Seq<u8>)) -> bool {
    &&& m.instr == split.0
    &&& m.key@ == trim_end_spec(utf8_or_empty(split.1))
    &&& m.value@ == trim_end_spec(decode_utf8(split.2))
}

/// Returns a Msg with the first word as instruction, the next word as key,
/// and the rest as value; a first word made of a one-character instruction
/// and a key is split in two.
///
/// This text: +hello world is a pretty old meme
/// Returns: Msg { Instr::Append, "hello", "world is a pretty old meme" }
pub fn parse(msg: &[u8]) -> (m: Msg)
    requires
        parse_ready(msg@),
    ensures
        msg_matches(m, msg_words(msg@)),
{
    parse_split(msg, false)
}

/// The instruction that a single character names, or `Nop`.
pub fn short_instr_of(b: u8) -> (i: Instr)
    ensures
        i == short_instr(b),
{
    if b == 0x2Bu8 {
        Instr::Append
    } else if b == 0x73u8 || b == 0x53u8 {
        Instr::SetValue
    } else if b == 0x64u8 || b == 0x44u8 {
        Instr::Delete
    } else if b == 0x67u8 || b == 0x47u8 {
        Instr::Get
    } else if b == 0x6Bu8 || b == 0x4Bu8 {
        Instr::KeyValue
    } else if b == 0x6Au8 || b == 0x4Au8 {
        Instr::Jtrim
    } else if b == 0x21u8 {
        Instr::SubCall
    } else {
        Instr::Nop
    }
}

/// Parses a line whose words end at the separators of `spaces_only`.
pub(crate) fn parse_split(msg: &[u8], spaces_only: bool) -> (m: Msg)
    requires
        valid_utf8(split_line(msg@, sep_of(spaces_only)).2),
    ensures
        msg_matches(m, split_line(msg@, sep_of(spaces_only))),
{
    let ghost sep = sep_of(spaces_only);
    let mut cursor = Cursor::new(msg);
    let _len = msg.len();
    let w0 = word_with(&mut cursor, spaces_only);
    proof {
        lemma_token_end(msg@, 0, sep);
    }
    let ghost p1 = cursor.pos();
    assert((p1 as usize) as int == p1);
    let rest1 = rest_with(&mut cursor, spaces_only);
    let w1 = word_with(&mut cursor, spaces_only);
    proof {
        lemma_token_end(msg@, p1, sep);
    }
    let ghost p2 = cursor.pos();
    assert((p2 as usize) as int == p2);
    let rest2 = rest_with(&mut cursor, spaces_only);
    let named = to_instr(command_from_lowercase(to_lowercase(to_utf8(w0)).as_str()));
    let short = if w0.len() >= 2 {
        short_instr_of(w0[0])
    } else {
        Instr::Nop
    };
    if named == Instr::Nop && short != Instr::Nop {
        let key_bytes = &w0[1..w0.len()];
        assert(key_bytes@ =~= w0@.subrange(1, w0@.len() as int));
        let key = to_utf8(key_bytes);
        let value = match utf8_str(rest1) {
            Some(v) => v,
            None => {
                assert(false);
                ""
            },
        };
        Msg { instr: short, key: trim_end(key), value: trim_end(value) }
    } else {
        let key = to_utf8(w1);
        let value = match utf8_str(rest2) {
            Some(v) => v,
            None => {
                assert(false);
                ""
            },
        };
        Msg { instr: named, key: trim_end(key), value: trim_end(value) }
    }
}

/// The first word, the key bytes and the value bytes of a line whose words
/// end at the separators of `spaces_only`.
pub(crate) fn line_pieces(msg: &[u8], spaces_only: bool) -> (r: (&[u8], &[u8], &[u8]))
    ensures
        r.0@ == word_at(msg@, 0, sep_of(spaces_only)).0,
        r.1@ == split_line(msg@, sep_of(spaces_only)).1,
        r.2@ == split_line(msg@, sep_of(spaces_only)).2,
{
    let ghost sep = sep_of(spaces_only);
    let mut cursor = Cursor::new(msg);
    let _len = msg.len();
    let w0 = word_with(&mut cursor, spaces_only);
    proof {
        lemma_token_end(msg@, 0, sep);
    }
    let ghost p1 = cursor.pos();
    assert((p1 as usize) as int == p1);
    let rest1 = rest_with(&mut cursor, spaces_only);
    let w1 = word_with(&mut cursor, spaces_only);
    proof {
        lemma_token_end(msg@, p1, sep);
    }
    let ghost p2 = cursor.pos();
    assert((p2 as usize) as int == p2);
    let rest2 = rest_with(&mut cursor, spaces_only);
    let named = to_instr(command_from_lowercase(to_lowercase(to_utf8(w0)).as_str()));
    let short = if w0.len() >= 2 {
        short_instr_of(w0[0])
    } else {
        Instr::Nop
    };
    if named == Instr::Nop && short != Instr::Nop {
        let key_bytes = &w0[1..w0.len()];
        assert(key_bytes@ =~= w0@.subrange(1, w0@.len() as int));
        (w0, key_bytes, rest1)
    } else {
        (w0, w1, rest2)
    }
}

/// Whether a line can be parsed: its value is UTF-8.
pub fn line_ready(msg: &[u8]) -> (b: bool)
    ensures
        b == parse_ready(msg@),
{
    let (_, _, value) = line_pieces(msg, false);
    utf8_str(value).is_some()
}

pub fn needs_key(instr: &Instr) -> (b: bool)
    ensures
        b == !(*instr == Instr::Nop || *instr == Instr::KeyValue || *instr == Instr::Jtrim
            || *instr == Instr::Json),
{
    match instr {
        Instr::Nop | Instr::KeyValue | Instr::Jtrim | Instr::Json => false,
        Instr::SetValue
        | Instr::SetIfNone
        | Instr::Inc
        | Instr::Append
        | Instr::Delete
        | Instr::Get
        | Instr::SubGet
        | Instr::SubKeyValue
        | Instr::SubJson
        | Instr::Unsub
        | Instr::SubCall => true,
    }
}

/// The next line from the cursor, with the line breaks before it skipped.
pub fn next_line<'a>(cursor: &mut Cursor<'a>) -> (line: Option<&'a [u8]>)
    ensures
        token_at(old(cursor).bytes(), (old(cursor).pos() as usize) as int, newline_sep()) is None
            <==> line is None,
        next_token_post(
            *old(cursor),
            *final(cursor),
            match line {
                Some(l) => l@,
                None => Seq::empty(),
            },
            newline_sep(),
        ),
{
    crate::parser::next_line(cursor)
}

/// The next word from the cursor, with the white space before it skipped.
pub fn next_word<'a>(src: &mut Cursor<'a>) -> (word: &'a [u8])
    ensures
        next_token_post(*old(src), *final(src), word@, white_sep()),
{
    word_with(src, false)
}

/// The next word from the cursor, with the separators before it skipped.
fn word_with<'a>(src: &mut Cursor<'a>, spaces_only: bool) -> (word: &'a [u8])
    ensures
        next_token_post(*old(src), *final(src), word@, sep_of(spaces_only)),
{
    let data = src.get_ref();
    let mut start = src.position() as usize;
    let end = data.len();
    let ghost s = data@;
    let ghost p = start as int;
    if start >= end {
        assert(data@.subrange(0, 0) =~= Seq::<u8>::empty());
        return &data[0..0];
    }
    while is_sep(data[start], spaces_only)
        invariant
            0 <= p <= start < end,
            end == s.len(),
            s == data@,
            s == old(src).bytes(),
            p == (old(src).pos() as usize) as int,
            *src == *old(src),
            forall|j: int| p <= j < start ==> (sep_of(spaces_only))(#[trigger] s[j]),
        decreases end - start,
    {
        start = start + 1;
        if start >= end {
            proof {
                lemma_skip_seps_is(s, p, start as int, sep_of(spaces_only));
            }
            assert(data@.subrange(0, 0) =~= Seq::<u8>::empty());
            return &data[0..0];
        }
    }
    proof {
        lemma_skip_seps_is(s, p, start as int, sep_of(spaces_only));
    }
    let mut i = start;
    while i < end && !is_sep(data[i], spaces_only)
        invariant
            start <= i <= end,
            end == s.len(),
            s == data@,
            forall|j: int| start <= j < i ==> !(sep_of(spaces_only))(#[trigger] s[j]),
        decreases end - i,
    {
        i = i + 1;
    }
    proof {
        lemma_find_sep_is(s, start as int, i as int, sep_of(spaces_only));
    }
    src.set_position(i as u64);
    &data[start..i]
}

/// The rest of the line from the cursor, with the separators before it
/// skipped.
fn rest_with<'a>(src: &mut Cursor<'a>, spaces_only: bool) -> (rest: &'a [u8])
    ensures
        *final(src) == *old(src),
        rest@ == rest_at(old(src).bytes(), (old(src).pos() as usize) as int, sep_of(spaces_only)),
{
    let data = src.get_ref();
    let mut start = src.position() as usize;
    let end = data.len();
    let ghost s = data@;
    let ghost p = start as int;
    if start >= end {
        assert(data@.subrange(0, 0) =~= Seq::<u8>::empty());
        return &data[0..0];
    }
    while is_sep(data[start], spaces_only)
        invariant
            0 <= p <= start < end,
            end == s.len(),
            s == data@,
            s == old(src).bytes(),
            p == (old(src).pos() as usize) as int,
            *src == *old(src),
            forall|j: int| p <= j < start ==> (sep_of(spaces_only))(#[trigger] s[j]),
        decreases end - start,
    {
        start = start + 1;
        if start >= end {
            proof {
                lemma_skip_seps_is(s, p, start as int, sep_of(spaces_only));
            }
            assert(data@.subrange(0, 0) =~= Seq::<u8>::empty());
            return &data[0..0];
        }
    }
    proof {
        lemma_skip_seps_is(s, p, start as int, sep_of(spaces_only));
    }
    &data[start..end]
}

/// The text of bytes, or the empty text when they are not UTF-8.
fn to_utf8(s: &[u8]) -> (t: &str)
    ensures
        t@ == utf8_or_empty(s@),
{
    match utf8_str(s) {
        Some(t) => t,
        None => {
            proof {
                reveal_strlit("");
            }
            ""
        },
    }
}

fn is_sep(c: u8, spaces_only: bool) -> (b: bool)
    ensures
        b == (sep_of(spaces_only))(c),
{
    if spaces_only {
        c == 0x20u8
    } else {
        c == 0x20u8 || c == 0x09u8 || c == 0x0Du8 || c == 0x0Au8
    }
}

} // verus!
