//! The text commands of the protocol's data: `<command> <key> <value>`.
use vstd::prelude::*;

use crate::cursor::{lemma_find_sep_is, lemma_token_end, lemma_skip_seps_is, rest_at, token_at, word_at, Cursor};
use crate::data;
use crate::message::Message;
use crate::subs;
use crate::writer::{reply, reply_model, Order, OrderModel};
use crate::text::{chars_of, lossy_string, lowercase, to_lowercase, trim_end, trim_end_spec, utf8_lossy};

verus! {

/// The commands of the protocol.
#[derive(PartialEq, Eq, Structural, Debug, Clone, Copy)]
pub enum Command {
    No,
    SetValue,
    SetIfNone,
    Inc,
    Append,
    Delete,
    Get,
    KeyValue,
    Jtrim,
    Json,
    SubGet,
    SubKeyValue,
    SubJson,
    Unsub,
    SubCall,
}

/// The name of a command, as it is printed.
pub open spec fn command_name(x: Command) -> Seq<char> {
    match x {
        Command::No => seq!['N', 'o'],
        Command::SetValue => seq!['S', 'e', 't'],
        Command::SetIfNone => seq!['S', 'e', 't', 'I', 'f', 'N', 'o', 'n', 'e'],
        Command::Inc => seq!['I', 'n', 'c'],
        Command::Append => seq!['A', 'p', 'p', 'e', 'n', 'd'],
        Command::Delete => seq!['D', 'e', 'l', 'e', 't', 'e'],
        Command::Get => seq!['G', 'e', 't'],
        Command::KeyValue => seq!['K', 'e', 'y', 'V', 'a', 'l', 'u', 'e'],
        Command::Jtrim => seq!['J', 't', 'r', 'i', 'm'],
        Command::Json => seq!['J', 's', 'o', 'n'],
        Command::SubGet => seq!['S', 'u', 'b', 'G', 'e', 't'],
        Command::SubKeyValue => seq!['S', 'u', 'b', 'K', 'e', 'y', 'V', 'a', 'l', 'u', 'e'],
        Command::SubJson => seq!['S', 'u', 'b', 'J', 's', 'o', 'n'],
        Command::Unsub => seq!['U', 'n', 's', 'u', 'b'],
        Command::SubCall => seq!['S', 'u', 'b', 'C', 'a', 'l', 'l'],
    }
}

impl Command {
    /// The command's name, as `Debug` prints it.
    pub fn name(&self) -> (s: &'static str)
        ensures
            s@ == command_name(*self),
    {
        match self {
            Command::No => {
                proof {
                    reveal_strlit("No");
                }
                "No"
            },
            Command::SetValue => {
                proof {
                    reveal_strlit("Set");
                }
                "Set"
            },
            Command::SetIfNone => {
                proof {
                    reveal_strlit("SetIfNone");
                }
                "SetIfNone"
            },
            Command::Inc => {
                proof {
                    reveal_strlit("Inc");
                }
                "Inc"
            },
            Command::Append => {
                proof {
                    reveal_strlit("Append");
                }
                "Append"
            },
            Command::Delete => {
                proof {
                    reveal_strlit("Delete");
                }
                "Delete"
            },
            Command::Get => {
                proof {
                    reveal_strlit("Get");
                }
                "Get"
            },
            Command::KeyValue => {
                proof {
                    reveal_strlit("KeyValue");
                }
                "KeyValue"
            },
            Command::Jtrim => {
                proof {
                    reveal_strlit("Jtrim");
                }
                "Jtrim"
            },
            Command::Json => {
                proof {
                    reveal_strlit("Json");
                }
                "Json"
            },
            Command::SubGet => {
                proof {
                    reveal_strlit("SubGet");
                }
                "SubGet"
            },
            Command::SubKeyValue => {
                proof {
                    reveal_strlit("SubKeyValue");
                }
                "SubKeyValue"
            },
            Command::SubJson => {
                proof {
                    reveal_strlit("SubJson");
                }
                "SubJson"
            },
            Command::Unsub => {
                proof {
                    reveal_strlit("Unsub");
                }
                "Unsub"
            },
            Command::SubCall => {
                proof {
                    reveal_strlit("SubCall");
                }
                "SubCall"
            },
        }
    }
}

/// A parsed command: the command, its key and the rest as data.
pub struct Parsed {
    pub command: Command,
    pub key: String,
    pub data: Vec<u8>,
}

/// The separators of words: the space.
pub open spec fn space_sep() -> spec_fn(u8) -> bool {
    |b: u8| b == 0x20u8
}

/// The separators of lines: carriage return and line feed.
pub open spec fn newline_sep() -> spec_fn(u8) -> bool {
    |b: u8| b == 0x0Du8 || b == 0x0Au8
}

/// The first word, the second word and the rest of a command.
pub open spec fn command_words(s: Seq<u8>) -> (Seq<u8>, Seq<u8>, Seq<u8>) {
    let (w0, p1) = word_at(s, 0, space_sep());
    let (w1, p2) = word_at(s, p1, space_sep());
    (w0, w1, rest_at(s, p2, space_sep()))
}

/// The command that a (lowercase, trimmed) instruction names.
pub open spec fn command_spec(s: Seq<char>) -> Command {
    if s.len() == 1 && s[0] == 's' {
        Command::SetValue
    } else if s.len() == 2 && s[0] == 's' && s[1] == '?' {
        Command::SetIfNone
    } else if s.len() == 2 && s[0] == '+' && s[1] == '1' {
        Command::Inc
    } else if s.len() == 1 && s[0] == '+' {
        Command::Append
    } else if s.len() == 1 && s[0] == 'd' {
        Command::Delete
    } else if s.len() == 1 && s[0] == 'g' {
        Command::Get
    } else if s.len() == 1 && s[0] == 'k' {
        Command::KeyValue
    } else if s.len() == 1 && s[0] == 'j' {
        Command::Jtrim
    } else if s.len() == 2 && s[0] == 'j' && s[1] == 's' {
        Command::Json
    } else if s.len() == 2 && s[0] == '#' && s[1] == 'g' {
        Command::SubGet
    } else if s.len() == 2 && s[0] == '#' && s[1] == 'k' {
        Command::SubKeyValue
    } else if s.len() == 2 && s[0] == '#' && s[1] == 'j' {
        Command::SubJson
    } else if s.len() == 2 && s[0] == '#' && s[1] == '-' {
        Command::Unsub
    } else if s.len() == 1 && s[0] == '!' {
        Command::SubCall
    } else {
        Command::No
    }
}

/// The command that an instruction names once it is lowercase: its trailing
/// white space does not count.
pub fn command_from_lowercase(lower: &str) -> (c: Command)
    ensures
        c == command_spec(trim_end_spec(lower@)),
{
    let t = chars_of(trim_end(lower).as_str());
    let n = t.len();
    if n == 1 {
        let a = t[0];
        if a == 's' {
            Command::SetValue
        } else if a == '+' {
            Command::Append
        } else if a == 'd' {
            Command::Delete
        } else if a == 'g' {
            Command::Get
        } else if a == 'k' {
            Command::KeyValue
        } else if a == 'j' {
            Command::Jtrim
        } else if a == '!' {
            Command::SubCall
        } else {
            Command::No
        }
    } else if n == 2 {
        let a = t[0];
        let b = t[1];
        if a == 's' && b == '?' {
            Command::SetIfNone
        } else if a == '+' && b == '1' {
            Command::Inc
        } else if a == 'j' && b == 's' {
            Command::Json
        } else if a == '#' && b == 'g' {
            Command::SubGet
        } else if a == '#' && b == 'k' {
            Command::SubKeyValue
        } else if a == '#' && b == 'j' {
            Command::SubJson
        } else if a == '#' && b == '-' {
            Command::Unsub
        } else {
            Command::No
        }
    } else {
        Command::No
    }
}

/// Returns a Parsed with the first word as command, the next word as key, and
/// the rest as data.
///
/// This text: + hello world is a pretty old meme
/// Returns: Parsed { Command::Append, "hello", "world is a pretty old meme" }
pub fn parse(message: &[u8]) -> (p: Parsed)
    ensures
        ({
            let (w0, w1, rest) = command_words(message@);
            &&& p.command == command_spec(trim_end_spec(lowercase(utf8_lossy(w0))))
            &&& p.key@ == trim_end_spec(utf8_lossy(w1))
            &&& p.data@ == rest
        }),
{
    let mut cursor = Cursor::new(message);
    let len = message.len();
    let w0 = next_word(&mut cursor);
    proof {
        lemma_token_end(message@, 0, space_sep());
    }
    let ghost p1 = cursor.pos();
    assert(0 <= p1 <= message@.len());
    assert((p1 as usize) as int == p1);
    let w1 = next_word(&mut cursor);
    proof {
        lemma_token_end(message@, p1, space_sep());
    }
    let ghost p2 = cursor.pos();
    assert(0 <= p2 <= message@.len());
    assert((p2 as usize) as int == p2);
    let data = remaining(&mut cursor);
    assert(w0@ == command_words(message@).0);
    assert(w1@ == command_words(message@).1);
    assert(data@ == command_words(message@).2);
    let instruction = lossy_string(w0);
    let key = lossy_string(w1);

    let command = command_from_lowercase(to_lowercase(instruction.as_str()).as_str());
    let key = trim_end(key.as_str());
    Parsed { command, key, data: vstd::slice::slice_to_vec(data) }
}

/// Whether a command means nothing without a key.
pub fn needs_key(command: &Command) -> (b: bool)
    ensures
        b == !(*command == Command::No || *command == Command::KeyValue || *command
            == Command::Jtrim || *command == Command::Json),
{
    match command {
        Command::No | Command::KeyValue | Command::Jtrim | Command::Json => false,
        Command::SetValue
        | Command::SetIfNone
        | Command::Inc
        | Command::Append
        | Command::Delete
        | Command::Get
        | Command::SubGet
        | Command::SubKeyValue
        | Command::SubJson
        | Command::Unsub
        | Command::SubCall => true,
    }
}

/// What `next_word` (with `space_sep`) or `next_line` (with `newline_sep`)
/// does to a cursor and gives back.
pub open spec fn next_token_post(
    old_c: Cursor,
    new_c: Cursor,
    w: Seq<u8>,
    sep: spec_fn(u8) -> bool,
) -> bool {
    let s = old_c.bytes();
    let p = (old_c.pos() as usize) as int;
    &&& new_c.bytes() == s
    &&& match token_at(s, p, sep) {
        Some((q, e)) => w == s.subrange(q, e) && new_c.pos() == e,
        None => w == Seq::<u8>::empty() && new_c.pos() == old_c.pos(),
    }
}

/// The next line from the cursor, with the line breaks before it skipped;
/// `None` when only line breaks are left.
pub fn next_line<'a>(cursor: &mut Cursor<'a>) -> (line: Option<&'a [u8]>)
    ensures
        token_at(old(cursor).bytes(), (old(cursor).pos() as usize) as int, newline_sep()) is None
            <==> line is None,
        next_token_post(
            *old(cursor),
            *final(cursor),
            match line {
                Some(l) => l@,
                None => Seq::empty(),
            },
            newline_sep(),
        ),
{
    let data = cursor.get_ref();
    let mut start = cursor.position() as usize;
    let mut end = data.len();
    let ghost s = data@;
    let ghost p = start as int;
    if start >= end {
        return None;
    }
    while is_newline(data[start])
        invariant
            0 <= p <= start < end,
            end == s.len(),
            s == data@,
            s == old(cursor).bytes(),
            p == (old(cursor).pos() as usize) as int,
            *cursor == *old(cursor),
            forall|j: int| p <= j < start ==> (newline_sep())(#[trigger] s[j]),
        decreases end - start,
    {
        start = start + 1;
        if start >= end {
            proof {
                lemma_skip_seps_is(s, p, start as int, newline_sep());
            }
            return None;
        }
    }
    proof {
        lemma_skip_seps_is(s, p, start as int, newline_sep());
    }
    let mut i = start;
    while i < end && !is_newline(data[i])
        invariant
            start <= i <= end,
            end == s.len(),
            s == data@,
            forall|j: int| start <= j < i ==> !(newline_sep())(#[trigger] s[j]),
        decreases end - i,
    {
        i = i + 1;
    }
    proof {
        lemma_find_sep_is(s, start as int, i as int, newline_sep());
    }
    cursor.set_position(i as u64);
    Some(&data[start..i])
}

/// The next word from the cursor, with the spaces before it skipped; empty
/// when only spaces are left.
pub fn next_word<'a>(src: &mut Cursor<'a>) -> (word: &'a [u8])
    ensures
        next_token_post(*old(src), *final(src), word@, space_sep()),
{
    let data = src.get_ref();
    let mut start = src.position() as usize;
    let mut end = data.len();
    let ghost s = data@;
    let ghost p = start as int;
    if start >= end {
        assert(p == (old(src).pos() as usize) as int);
        assert(s == old(src).bytes());
        assert(token_at(s, p, space_sep()) is None);
        assert(data@.subrange(0, 0) =~= Seq::<u8>::empty());
        return &data[0..0];
    }
    while is_space(data[start])
        invariant
            0 <= p <= start < end,
            end == s.len(),
            s == data@,
            s == old(src).bytes(),
            p == (old(src).pos() as usize) as int,
            *src == *old(src),
            forall|j: int| p <= j < start ==> (space_sep())(#[trigger] s[j]),
        decreases end - start,
    {
        start = start + 1;
        if start >= end {
            proof {
                lemma_skip_seps_is(s, p, start as int, space_sep());
            }
            assert(data@.subrange(0, 0) =~= Seq::<u8>::empty());
            return &data[0..0];
        }
    }
    proof {
        lemma_skip_seps_is(s, p, start as int, space_sep());
    }
    let mut i = start;
    while i < end && !is_space(data[i])
        invariant
            start <= i <= end,
            end == s.len(),
            s == data@,
            forall|j: int| start <= j < i ==> !(space_sep())(#[trigger] s[j]),
        decreases end - i,
    {
        i = i + 1;
    }
    proof {
        lemma_find_sep_is(s, start as int, i as int, space_sep());
    }
    src.set_position(i as u64);
    &data[start..i]
}

/// All that is left after the cursor, with the spaces before it skipped.
pub fn remaining<'a>(src: &mut Cursor<'a>) -> (rest: &'a [u8])
    ensures
        *final(src) == *old(src),
        rest@ == rest_at(old(src).bytes(), (old(src).pos() as usize) as int, space_sep()),
{
    let data = src.get_ref();
    let mut start = src.position() as usize;
    let end = data.len();
    let ghost s = data@;
    let ghost p = start as int;
    if start >= end {
        assert(data@.subrange(0, 0) =~= Seq::<u8>::empty());
        return &data[0..0];
    }
    while is_space(data[start])
        invariant
            0 <= p <= start < end,
            end == s.len(),
            s == data@,
            s == old(src).bytes(),
            p == (old(src).pos() as usize) as int,
            *src == *old(src),
            forall|j: int| p <= j < start ==> (space_sep())(#[trigger] s[j]),
        decreases end - start,
    {
        start = start + 1;
        if start >= end {
            proof {
                lemma_skip_seps_is(s, p, start as int, space_sep());
            }
            assert(data@.subrange(0, 0) =~= Seq::<u8>::empty());
            return &data[0..0];
        }
    }
    proof {
        lemma_skip_seps_is(s, p, start as int, space_sep());
    }
    &data[start..end]
}

pub fn is_newline(c: u8) -> (b: bool)
    ensures
        b == (newline_sep())(c),
{
    c == 0x0Du8 || c == 0x0Au8
}

pub fn is_space(c: u8) -> (b: bool)
    ensures
        b == (space_sep())(c),
{
    c == 0x20u8
}

/// The first `max_chars` characters of a text, or all of it when it is
/// shorter.
pub fn truncate(s: &str, max_chars: usize) -> (t: &str)
    ensures
        t@ == if s@.len() <= max_chars {
            s@
        } else {
            s@.take(max_chars as int)
        },
{
    let n = s.unicode_len();
    if n <= max_chars {
        s
    } else {
        s.substring_char(0, max_chars)
    }
}

/// What handling a parsed command asks of the other parts, in order.
pub enum Dispatch {
    /// A reply to queue for the writer.
    Reply(Order),
    /// A request for the subscriptions.
    Subs(subs::Action),
    /// A request for the data.
    Data(data::Action),
}

pub enum DispatchModel {
    Reply(OrderModel),
    Subs(subs::ActionModel),
    Data(data::ActionModel),
}

impl View for Dispatch {
    type V = DispatchModel;

    open spec fn view(&self) -> DispatchModel {
        match self {
            Dispatch::Reply(o) => DispatchModel::Reply(o@),
            Dispatch::Subs(a) => DispatchModel::Subs(a@),
            Dispatch::Data(a) => DispatchModel::Data(a@),
        }
    }
}

pub open spec fn ok_bytes() -> Seq<u8> {
    seq![0x4Fu8, 0x4Bu8]
}

pub open spec fn no_bytes() -> Seq<u8> {
    seq![0x4Eu8, 0x4Fu8]
}

pub open spec fn views(ds: Seq<Dispatch>) -> Seq<DispatchModel> {
    ds.map_values(|d: Dispatch| d@)
}

/// What a command from client `from`, message `msg`, asks for.
pub open spec fn route_spec(
    from: usize,
    msg: usize,
    command: Command,
    key: Seq<char>,
    data: Seq<u8>,
) -> Seq<DispatchModel> {
    let ok = DispatchModel::Reply(reply_model(from, msg, ok_bytes()));
    let no = DispatchModel::Reply(reply_model(from, msg, no_bytes()));
    if key.len() == 0 && !(command == Command::No || command == Command::KeyValue || command
        == Command::Jtrim || command == Command::Json) {
        seq![no]
    } else {
        match command {
            Command::No => seq![no],
            Command::SetValue => seq![
                ok,
                DispatchModel::Subs(subs::ActionModel::Call(key, data, from, msg)),
                DispatchModel::Data(data::ActionModel::SetValue(key, data)),
            ],
            Command::SetIfNone => seq![
                ok,
                DispatchModel::Data(data::ActionModel::SetIfNone(key, data, from, msg)),
            ],
            Command::Inc => seq![DispatchModel::Data(data::ActionModel::Inc(key, from, msg))],
            Command::Append => seq![
                ok,
                DispatchModel::Data(data::ActionModel::Append(key, data, from, msg)),
            ],
            Command::Delete => seq![ok, DispatchModel::Data(data::ActionModel::Delete(key))],
            Command::Get => seq![DispatchModel::Data(data::ActionModel::Get(key, from, msg))],
            Command::KeyValue => seq![
                DispatchModel::Data(data::ActionModel::KeyValue(key, from, msg)),
            ],
            Command::Jtrim => seq![DispatchModel::Data(data::ActionModel::Jtrim(key, from, msg))],
            Command::Json => seq![DispatchModel::Data(data::ActionModel::Json(key, from, msg))],
            Command::SubGet | Command::SubKeyValue | Command::SubJson => {
                let add = seq![ok, DispatchModel::Subs(subs::ActionModel::Add(key, from, command))];
                if data.len() > 0 {
                    add.push(DispatchModel::Subs(subs::ActionModel::Call(key, data, from, msg)))
                } else {
                    add
                }
            },
            Command::Unsub => {
                let del = DispatchModel::Subs(subs::ActionModel::Del(key, from));
                if data.len() > 0 {
                    seq![
                        ok,
                        DispatchModel::Subs(subs::ActionModel::Call(key, data, from, msg)),
                        del,
                    ]
                } else {
                    seq![ok, del]
                }
            },
            Command::SubCall => seq![
                ok,
                DispatchModel::Subs(subs::ActionModel::Call(key, data, from, msg)),
            ],
        }
    }
}

/// The key and data that a data action writes, if it writes any.
pub open spec fn written(a: data::ActionModel) -> Option<(Seq<char>, Seq<u8>)> {
    match a {
        data::ActionModel::SetValue(k, d) => Some((k, d)),
        data::ActionModel::SetIfNone(k, d, _, _) => Some((k, d)),
        data::ActionModel::Append(k, d, _, _) => Some((k, d)),
        _ => None,
    }
}

/// Routing a set, a set-if-none or an append of a key gives the data one
/// action, of that kind, that writes the message's key and data unchanged:
/// applied to any store, a set leaves the key holding the data, an append
/// leaves it holding its old value followed by the data, and a set-if-none
/// leaves a new key holding the data.
pub proof fn law_route_writes_data(
    from: usize,
    msg: usize,
    c: Command,
    key: Seq<char>,
    data: Seq<u8>,
    e: data::Entries,
)
    requires
        key.len() > 0,
        c == Command::SetValue || c == Command::SetIfNone || c == Command::Append,
    ensures
        ({
            let r = route_spec(from, msg, c, key, data);
            &&& exists|i: int| 0 <= i < r.len() && #[trigger] r[i] is Data
            &&& forall|i: int| 0 <= i < r.len() && #[trigger] r[i] is Data ==> {
                let a = r[i]->Data_0;
                &&& written(a) == Some((key, data))
                &&& c == Command::SetValue ==> a is SetValue && data::apply_spec(e, a).0[key] == data
                &&& c == Command::Append ==> a is Append && data::apply_spec(e, a).0[key]
                    == crate::store::value_or_empty(crate::store::to_map(e), key) + data
                &&& c == Command::SetIfNone ==> a is SetIfNone && (!crate::store::to_map(e).contains_key(key)
                    ==> data::apply_spec(e, a).0[key] == data)
            }
        }),
{
    let r = route_spec(from, msg, c, key, data);
    if c == Command::SetValue {
        assert(r[2] is Data);
    } else {
        assert(r[1] is Data);
    }
}

fn ok_reply(from: usize, msg: usize) -> (d: Dispatch)
    ensures
        d@ == DispatchModel::Reply(reply_model(from, msg, ok_bytes())),
{
    let v: Vec<u8> = vec![0x4Fu8, 0x4Bu8];
    assert(v@ =~= ok_bytes());
    Dispatch::Reply(reply(from, msg, v))
}

fn no_reply(from: usize, msg: usize) -> (d: Dispatch)
    ensures
        d@ == DispatchModel::Reply(reply_model(from, msg, no_bytes())),
{
    let v: Vec<u8> = vec![0x4Eu8, 0x4Fu8];
    assert(v@ =~= no_bytes());
    Dispatch::Reply(reply(from, msg, v))
}

/// What a parsed command from client `from_id`, message `msg_id`, asks of the
/// writer, the subscriptions and the data.
pub fn route(from_id: usize, msg_id: usize, parsed: Parsed) -> (ds: Vec<Dispatch>)
    ensures
        views(ds@) == route_spec(from_id, msg_id, parsed.command, parsed.key@, parsed.data@),
{
    let Parsed { command, key, data } = parsed;
    let mut ds: Vec<Dispatch> = Vec::new();
    if key.as_str().is_empty() && needs_key(&command) {
        ds.push(no_reply(from_id, msg_id));
    } else {
        match command {
            Command::No => {
                ds.push(no_reply(from_id, msg_id));
            },
            Command::SetValue => {
                ds.push(ok_reply(from_id, msg_id));
                let d2 = vstd::slice::slice_to_vec(data.as_slice());
                ds.push(Dispatch::Subs(subs::Action::Call(key.clone(), d2, from_id, msg_id)));
                ds.push(Dispatch::Data(data::Action::SetValue(key, data)));
            },
            Command::SetIfNone => {
                ds.push(ok_reply(from_id, msg_id));
                ds.push(Dispatch::Data(data::Action::SetIfNone(key, data, from_id, msg_id)));
            },
            Command::Inc => {
                ds.push(Dispatch::Data(data::Action::Inc(key, from_id, msg_id)));
            },
            Command::Append => {
                ds.push(ok_reply(from_id, msg_id));
                ds.push(Dispatch::Data(data::Action::Append(key, data, from_id, msg_id)));
            },
            Command::Delete => {
                ds.push(ok_reply(from_id, msg_id));
                ds.push(Dispatch::Data(data::Action::Delete(key)));
            },
            Command::Get => {
                ds.push(Dispatch::Data(data::Action::Get(key, from_id, msg_id)));
            },
            Command::KeyValue => {
                ds.push(Dispatch::Data(data::Action::KeyValue(key, from_id, msg_id)));
            },
            Command::Jtrim => {
                ds.push(Dispatch::Data(data::Action::Jtrim(key, from_id, msg_id)));
            },
            Command::Json => {
                ds.push(Dispatch::Data(data::Action::Json(key, from_id, msg_id)));
            },
            Command::SubGet | Command::SubKeyValue | Command::SubJson => {
                ds.push(ok_reply(from_id, msg_id));
                ds.push(Dispatch::Subs(subs::Action::Add(key.clone(), from_id, command)));
                if data.len() > 0 {
                    ds.push(Dispatch::Subs(subs::Action::Call(key, data, from_id, msg_id)));
                }
            },
            Command::Unsub => {
                ds.push(ok_reply(from_id, msg_id));
                if data.len() > 0 {
                    ds.push(
                        Dispatch::Subs(subs::Action::Call(key.clone(), data, from_id, msg_id)),
                    );
                }
                ds.push(Dispatch::Subs(subs::Action::Del(key, from_id)));
            },
            Command::SubCall => {
                ds.push(ok_reply(from_id, msg_id));
                ds.push(Dispatch::Subs(subs::Action::Call(key, data, from_id, msg_id)));
            },
        }
    }
    assert(views(ds@) =~= route_spec(from_id, msg_id, command, key@, data@));
    ds
}

/// What a message from a client asks for: its data parsed as a command,
/// answered to its client id and message id.
pub fn dispatch(message: Message) -> (ds: Vec<Dispatch>)
    ensures
        ({
            let (w0, w1, rest) = command_words(message.data@);
            views(ds@) == route_spec(
                message.from as usize,
                message.id as usize,
                command_spec(trim_end_spec(lowercase(utf8_lossy(w0)))),
                trim_end_spec(utf8_lossy(w1)),
                rest,
            )
        }),
{
    let parsed = parse(message.data.as_slice());
    route(message.from as usize, message.id as usize, parsed)
}

/// Every reply that routing makes goes back to the client that sent the
/// command, with the id of its message.
pub proof fn law_routed_replies_to_sender(from: usize, msg: usize, command: Command, key: Seq<char>, data: Seq<u8>)
    ensures
        forall|i: int|
            0 <= i < route_spec(from, msg, command, key, data).len() ==> (#[trigger] route_spec(
                from,
                msg,
                command,
                key,
                data,
            )[i] matches DispatchModel::Reply(o) ==> o.from_id == from && o.to_id == from && o.msg_id == msg),
{
}

/// A client that subscribes to a key with `#g` receives the value that
/// anyone then sets on that key with `s`, with the setter's message id: the
/// subscription is routed to the subscriptions, the set calls them, and the
/// call reaches the subscriber.
pub proof fn law_subscribe_then_set(
    ks: Map<Seq<char>, Seq<subs::SubModel>>,
    ik: Map<usize, Seq<Seq<char>>>,
    key: Seq<char>,
    id: usize,
    sub_msg: usize,
    value: Seq<u8>,
    from: usize,
    msg: usize,
)
    requires
        key.len() > 0,
    ensures
        route_spec(id, sub_msg, Command::SubGet, key, Seq::empty()).contains(
            DispatchModel::Subs(subs::ActionModel::Add(key, id, Command::SubGet)),
        ),
        route_spec(from, msg, Command::SetValue, key, value).contains(
            DispatchModel::Subs(subs::ActionModel::Call(key, value, from, msg)),
        ),
        ({
            let (ks1, ik1, _) = subs::subs_step(ks, ik, subs::ActionModel::Add(key, id, Command::SubGet));
            subs::subs_step(ks1, ik1, subs::ActionModel::Call(key, value, from, msg)).2.contains(
                OrderModel { from_id: id, to_id: id, msg_id: msg, data: value },
            )
        }),
{
    let r1 = route_spec(id, sub_msg, Command::SubGet, key, Seq::empty());
    assert(r1[1] == DispatchModel::Subs(subs::ActionModel::Add(key, id, Command::SubGet)));
    let r2 = route_spec(from, msg, Command::SetValue, key, value);
    assert(r2[1] == DispatchModel::Subs(subs::ActionModel::Call(key, value, from, msg)));
    subs::law_parent_key_is_called(key, Seq::empty());
    subs::law_call_reaches_subscriber(ks, ik, key, id, Command::SubGet, key, value, from, msg);
    assert(subs::render(Command::SubGet, key, value) == value);
}


} // verus!
