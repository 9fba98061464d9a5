//! A received frame: its lines, each parsed and routed to the data map, the
//! subscriptions or a direct reply.
use vstd::prelude::*;

use crate::cursor::{find_sep, lemma_find_sep, lemma_skip_seps, lemma_token_end, skip_seps, token_at, Cursor};
use crate::map::{Cmd, CmdModel};
use crate::parse::{instr_of, msg_words, needs_key, parse, parse_ready, utf8_or_empty, Instr};
use crate::parser::{command_spec, newline_sep};
use crate::text::{lowercase, string_of, trim_end_spec};
use vstd::utf8::decode_utf8;

verus! {

/// The lines of a frame from position `p` on: the runs between line breaks,
/// empty ones skipped.
pub open spec fn lines_from(s: Seq<u8>, p: int) -> Seq<Seq<u8>>
    decreases s.len() - p,
{
    match token_at(s, p, newline_sep()) {
        Some((q, e)) => if p < e <= s.len() {
            seq![s.subrange(q, e)] + lines_from(s, e)
        } else {
            Seq::empty()
        },
        None => Seq::empty(),
    }
}

/// The lines of a frame.
pub open spec fn frame_lines(s: Seq<u8>) -> Seq<Seq<u8>> {
    lines_from(s, 0)
}

/// The instruction that a line names.
pub open spec fn line_instr(l: Seq<u8>) -> Instr {
    msg_words(l).0
}

/// The key of a line.
pub open spec fn line_key(l: Seq<u8>) -> Seq<char> {
    trim_end_spec(utf8_or_empty(msg_words(l).1))
}

/// The value of a line.
pub open spec fn line_value(l: Seq<u8>) -> Seq<char> {
    trim_end_spec(decode_utf8(msg_words(l).2))
}

/// Where a line goes: a reply to the sender, a data command (whose reply, if
/// any, goes to the sender), or a subscription change.
pub enum FrameOp {
    /// A reply to the sender.
    Push(String),
    /// A command for the data map.
    Data(Cmd),
    /// The sender subscribes to a key.
    Subscribe(String, Instr),
    /// The subscribers of a key are called with a value.
    Publish(String, String),
    /// The sender's subscription to a key ends.
    Unsubscribe(String),
}

pub enum FrameOpModel {
    Push(Seq<char>),
    Data(CmdModel),
    Subscribe(Seq<char>, Instr),
    Publish(Seq<char>, Seq<char>),
    Unsubscribe(Seq<char>),
}

impl View for FrameOp {
    type V = FrameOpModel;

    open spec fn view(&self) -> FrameOpModel {
        match self {
            FrameOp::Push(s) => FrameOpModel::Push(s@),
            FrameOp::Data(c) => FrameOpModel::Data(c@),
            FrameOp::Subscribe(k, i) => FrameOpModel::Subscribe(k@, *i),
            FrameOp::Publish(k, v) => FrameOpModel::Publish(k@, v@),
            FrameOp::Unsubscribe(k) => FrameOpModel::Unsubscribe(k@),
        }
    }
}

pub open spec fn ok_text() -> Seq<char> {
    seq!['O', 'K']
}

pub open spec fn nop_text() -> Seq<char> {
    seq!['N', 'O', 'P']
}

pub open spec fn key_text() -> Seq<char> {
    seq!['K', 'E', 'Y', '?']
}

/// What one parsed line asks for, in order.
pub open spec fn line_ops(instr: Instr, k: Seq<char>, v: Seq<char>) -> Seq<FrameOpModel> {
    let ok = FrameOpModel::Push(ok_text());
    if k.len() == 0 && !(instr == Instr::Nop || instr == Instr::KeyValue || instr == Instr::Jtrim
        || instr == Instr::Json) {
        seq![FrameOpModel::Push(key_text())]
    } else {
        match instr {
            Instr::Nop => seq![FrameOpModel::Push(nop_text())],
            Instr::SetValue => seq![
                FrameOpModel::Publish(k, v),
                FrameOpModel::Data(CmdModel::SetValue(k, v)),
                ok,
            ],
            Instr::SetIfNone => seq![FrameOpModel::Data(CmdModel::SetIfNone(k, v)), ok],
            Instr::Inc => seq![FrameOpModel::Data(CmdModel::Inc(k))],
            Instr::Append => seq![FrameOpModel::Data(CmdModel::Append(k, v))],
            Instr::Delete => seq![FrameOpModel::Data(CmdModel::Delete(k)), ok],
            Instr::Get => seq![FrameOpModel::Data(CmdModel::Get(k))],
            Instr::KeyValue => seq![FrameOpModel::Data(CmdModel::Bite(k))],
            Instr::Jtrim => seq![FrameOpModel::Data(CmdModel::Jtrim(k))],
            Instr::Json => seq![FrameOpModel::Data(CmdModel::Json(k))],
            Instr::SubGet | Instr::SubKeyValue | Instr::SubJson => if v.len() == 0 {
                seq![FrameOpModel::Subscribe(k, instr), ok]
            } else {
                seq![FrameOpModel::Subscribe(k, instr), FrameOpModel::Publish(k, v), ok]
            },
            Instr::Unsub => if v.len() == 0 {
                seq![FrameOpModel::Unsubscribe(k), ok]
            } else {
                seq![FrameOpModel::Publish(k, v), FrameOpModel::Unsubscribe(k), ok]
            },
            Instr::SubCall => seq![FrameOpModel::Publish(k, v), ok],
        }
    }
}

/// What a sequence of lines asks for, line after line.
pub open spec fn lines_ops(ls: Seq<Seq<u8>>) -> Seq<FrameOpModel>
    decreases ls.len(),
{
    if ls.len() == 0 {
        Seq::empty()
    } else {
        lines_ops(ls.drop_last()) + line_ops(line_instr(ls.last()), line_key(ls.last()), line_value(ls.last()))
    }
}

pub open spec fn op_views(v: Seq<FrameOp>) -> Seq<FrameOpModel> {
    v.map_values(|o: FrameOp| o@)
}

/// Every line of a frame can be parsed: each has a UTF-8 value.
pub open spec fn frame_ready(s: Seq<u8>) -> bool {
    forall|i: int| 0 <= i < frame_lines(s).len() ==> parse_ready(#[trigger] frame_lines(s)[i])
}

fn text(c: &[char]) -> (s: String)
    ensures
        s@ == c@,
{
    string_of(c)
}

fn push_ok(ops: &mut Vec<FrameOp>)
    ensures
        op_views(final(ops)@) == op_views(old(ops)@).push(FrameOpModel::Push(ok_text())),
{
    let ok = vec!['O', 'K'];
    let ghost before = ops@;
    ops.push(FrameOp::Push(text(ok.as_slice())));
    assert(op_views(ops@) =~= op_views(before).push(FrameOpModel::Push(ok_text())));
}

fn push_op(ops: &mut Vec<FrameOp>, op: FrameOp)
    ensures
        op_views(final(ops)@) == op_views(old(ops)@).push(op@),
{
    let ghost before = ops@;
    let ghost m = op@;
    ops.push(op);
    assert(op_views(ops@) =~= op_views(before).push(m));
}

/// Appends what one parsed line asks for.
fn route_line(ops: &mut Vec<FrameOp>, instr: Instr, key: String, value: String)
    ensures
        op_views(final(ops)@) == op_views(old(ops)@) + line_ops(instr, key@, value@),
{
    let ghost before = op_views(ops@);
    let ghost k = key@;
    let ghost v = value@;
    if key.as_str().is_empty() && needs_key(&instr) {
        let t = vec!['K', 'E', 'Y', '?'];
        push_op(ops, FrameOp::Push(text(t.as_slice())));
    } else {
        match instr {
            Instr::Nop => {
                let t = vec!['N', 'O', 'P'];
                push_op(ops, FrameOp::Push(text(t.as_slice())));
            },
            Instr::SetValue => {
                push_op(ops, FrameOp::Publish(key.clone(), value.clone()));
                push_op(ops, FrameOp::Data(Cmd::SetValue(key, value)));
                push_ok(ops);
            },
            Instr::SetIfNone => {
                push_op(ops, FrameOp::Data(Cmd::SetIfNone(key, value)));
                push_ok(ops);
            },
            Instr::Inc => push_op(ops, FrameOp::Data(Cmd::Inc(key))),
            Instr::Append => push_op(ops, FrameOp::Data(Cmd::Append(key, value))),
            Instr::Delete => {
                push_op(ops, FrameOp::Data(Cmd::Delete(key)));
                push_ok(ops);
            },
            Instr::Get => push_op(ops, FrameOp::Data(Cmd::Get(key))),
            Instr::KeyValue => push_op(ops, FrameOp::Data(Cmd::Bite(key))),
            Instr::Jtrim => push_op(ops, FrameOp::Data(Cmd::Jtrim(key))),
            Instr::Json => push_op(ops, FrameOp::Data(Cmd::Json(key))),
            Instr::SubGet | Instr::SubKeyValue | Instr::SubJson => {
                push_op(ops, FrameOp::Subscribe(key.clone(), instr));
                if !value.as_str().is_empty() {
                    push_op(ops, FrameOp::Publish(key, value));
                }
                push_ok(ops);
            },
            Instr::Unsub => {
                if !value.as_str().is_empty() {
                    push_op(ops, FrameOp::Publish(key.clone(), value));
                }
                push_op(ops, FrameOp::Unsubscribe(key));
                push_ok(ops);
            },
            Instr::SubCall => {
                push_op(ops, FrameOp::Publish(key, value));
                push_ok(ops);
            },
        }
    }
    assert(op_views(ops@) =~= before + line_ops(instr, k, v));
}

/// The lines from position `p` on, after the lines before it.
proof fn lemma_lines_step(s: Seq<u8>, p: int)
    requires
        0 <= p,
    ensures
        match token_at(s, p, newline_sep()) {
            Some((q, e)) => lines_from(s, p) == seq![s.subrange(q, e)] + lines_from(s, e),
            None => lines_from(s, p) == Seq::<Seq<u8>>::empty(),
        },
{
    lemma_token_end(s, p, newline_sep());
}

/// Whether every line of a frame can be parsed (has a UTF-8 value).
pub fn is_frame_ready(message: &[u8]) -> (b: bool)
    ensures
        b == frame_ready(message@),
{
    let mut cursor = Cursor::new(message);
    let ghost s = message@;
    let n = message.len();
    let ghost mut done: Seq<Seq<u8>> = Seq::empty();
    loop
        invariant
            cursor.bytes() == s,
            s.len() == n,
            0 <= cursor.pos() <= s.len(),
            s.len() == message@.len(),
            s == message@,
            done + lines_from(s, cursor.pos()) == frame_lines(s),
            forall|i: int| 0 <= i < done.len() ==> parse_ready(#[trigger] done[i]),
        decreases s.len() - cursor.pos(),
    {
        let ghost p = cursor.pos();
        assert((p as usize) as int == p);
        proof {
            lemma_lines_step(s, p);
            lemma_token_end(s, p, newline_sep());
        }
        match crate::parse::next_line(&mut cursor) {
            Some(line) => {
                if !crate::parse::line_ready(line) {
                    proof {
                        let ls = frame_lines(s);
                        assert(ls[done.len() as int] == line@);
                    }
                    return false;
                }
                proof {
                    assert((done + seq![line@]) + lines_from(s, cursor.pos()) =~= done + lines_from(s, p));
                    done = done.push(line@);
                }
            },
            None => {
                assert(done =~= frame_lines(s));
                return true;
            },
        }
    }
}

/// Routes each line of a frame: what the data map, the subscriptions and the
/// sender get, in order.
pub fn handle(message: &[u8]) -> (ops: Vec<FrameOp>)
    requires
        frame_ready(message@),
    ensures
        op_views(ops@) == lines_ops(frame_lines(message@)),
{
    let mut cursor = Cursor::new(message);
    let mut ops: Vec<FrameOp> = Vec::new();
    let ghost s = message@;
    let n = message.len();
    let ghost mut done: Seq<Seq<u8>> = Seq::empty();
    loop
        invariant
            cursor.bytes() == s,
            s.len() == n,
            0 <= cursor.pos() <= s.len(),
            s == message@,
            frame_ready(s),
            done + lines_from(s, cursor.pos()) == frame_lines(s),
            op_views(ops@) == lines_ops(done),
        decreases s.len() - cursor.pos(),
    {
        let ghost p = cursor.pos();
        assert((p as usize) as int == p);
        proof {
            lemma_lines_step(s, p);
            lemma_token_end(s, p, newline_sep());
        }
        match crate::parse::next_line(&mut cursor) {
            Some(line) => {
                proof {
                    let ls = frame_lines(s);
                    assert(ls[done.len() as int] == line@);
                }
                let msg = parse(line);
                route_line(&mut ops, msg.instr, msg.key, msg.value);
                proof {
                    assert((done + seq![line@]) + lines_from(s, cursor.pos()) =~= done + lines_from(s, p));
                    let nd = done.push(line@);
                    assert(nd.drop_last() =~= done);
                    done = nd;
                }
            },
            None => {
                assert(done =~= frame_lines(s));
                return ops;
            },
        }
    }
}

/// In the part after a line break, the search for separators and lines
/// runs as it does on that part alone.
proof fn lemma_lines_shift(pre: Seq<u8>, b: Seq<u8>, q: int)
    requires
        0 <= q <= b.len(),
    ensures
        skip_seps(pre + b, pre.len() + q, newline_sep()) == pre.len() + skip_seps(b, q, newline_sep()),
        find_sep(pre + b, pre.len() + q, newline_sep()) == pre.len() + find_sep(b, q, newline_sep()),
        lines_from(pre + b, pre.len() + q) == lines_from(b, q),
    decreases b.len() - q,
{
    let s = pre + b;
    let m = pre.len() as int;
    if q < b.len() {
        assert(s[m + q] == b[q]);
        lemma_lines_shift(pre, b, q + 1);
    }
    lemma_token_end(b, q, newline_sep());
    match token_at(b, q, newline_sep()) {
        Some((q1, e1)) => {
            assert(s.subrange(m + q1, m + e1) =~= b.subrange(q1, e1));
            lemma_lines_shift(pre, b, e1);
        },
        None => {},
    }
}

/// Before the line break, the separators are skipped as in the first part,
/// and past its end into what follows the break.
proof fn lemma_skip_front(a: Seq<u8>, b: Seq<u8>, p: int)
    requires
        0 <= p <= a.len(),
    ensures
        skip_seps(a + seq![0x0Au8] + b, p, newline_sep()) == if skip_seps(a, p, newline_sep()) < a.len() {
            skip_seps(a, p, newline_sep())
        } else {
            skip_seps(a + seq![0x0Au8] + b, a.len() as int, newline_sep())
        },
        find_sep(a + seq![0x0Au8] + b, p, newline_sep()) == find_sep(a, p, newline_sep()),
    decreases a.len() - p,
{
    let s = a + seq![0x0Au8] + b;
    if p < a.len() {
        assert(s[p] == a[p]);
        lemma_skip_front(a, b, p + 1);
    } else {
        assert(s[a.len() as int] == 0x0Au8);
    }
}

/// The lines from a point of the first part are its lines from there, then
/// the lines of what follows the break.
proof fn lemma_lines_front(a: Seq<u8>, b: Seq<u8>, p: int)
    requires
        0 <= p <= a.len(),
    ensures
        lines_from(a + seq![0x0Au8] + b, p) == lines_from(a, p) + lines_from(b, 0),
    decreases a.len() - p,
{
    let s = a + seq![0x0Au8] + b;
    let n = a.len() as int;
    let pre = a + seq![0x0Au8];
    assert(s =~= pre + b);
    lemma_lines_shift(pre, b, 0);
    lemma_skip_front(a, b, p);
    lemma_skip_front(a, b, n);
    lemma_token_end(s, p, newline_sep());
    lemma_token_end(s, n, newline_sep());
    lemma_token_end(s, n + 1, newline_sep());
    lemma_token_end(a, p, newline_sep());
    lemma_skip_seps(a, p, newline_sep());
    assert(s[n] == 0x0Au8);
    // From the break on, the lines are those after it.
    assert(skip_seps(s, n, newline_sep()) == skip_seps(s, n + 1, newline_sep()));
    assert(lines_from(s, n) == lines_from(s, n + 1));
    let k = skip_seps(a, p, newline_sep());
    if k >= n {
        assert(token_at(a, p, newline_sep()) is None);
        assert(lines_from(a, p) == Seq::<Seq<u8>>::empty());
        assert(lines_from(s, p) == lines_from(s, n));
        assert(lines_from(a, p) + lines_from(b, 0) =~= lines_from(b, 0));
    } else {
        lemma_skip_front(a, b, k);
        lemma_find_sep(a, k, newline_sep());
        let e = find_sep(a, k, newline_sep());
        assert(token_at(a, p, newline_sep()) == Some((k, e)));
        assert(token_at(s, p, newline_sep()) == Some((k, e)));
        assert(s.subrange(k, e) =~= a.subrange(k, e));
        lemma_lines_front(a, b, e);
        assert(lines_from(a, p) == seq![a.subrange(k, e)] + lines_from(a, e));
        assert(lines_from(s, p) == seq![a.subrange(k, e)] + lines_from(s, e));
        assert(seq![a.subrange(k, e)] + (lines_from(a, e) + lines_from(b, 0)) =~= (seq![a.subrange(k, e)] + lines_from(a, e)) + lines_from(b, 0));
    }
}

proof fn lemma_lines_ops_append(x: Seq<Seq<u8>>, y: Seq<Seq<u8>>)
    ensures
        lines_ops(x + y) == lines_ops(x) + lines_ops(y),
    decreases y.len(),
{
    if y.len() == 0 {
        assert(x + y =~= x);
        assert(lines_ops(x) + lines_ops(y) =~= lines_ops(x));
    } else {
        lemma_lines_ops_append(x, y.drop_last());
        assert((x + y).drop_last() =~= x + y.drop_last());
        assert((x + y).last() == y.last());
    }
}

/// Lines that come in one frame are served as if they came one after the
/// other: a frame of two parts joined by a line break is routed as the first
/// part, then the second.
pub proof fn law_frames_concatenate(a: Seq<u8>, b: Seq<u8>)
    ensures
        frame_lines(a + seq![0x0Au8] + b) == frame_lines(a) + frame_lines(b),
        lines_ops(frame_lines(a + seq![0x0Au8] + b)) == lines_ops(frame_lines(a)) + lines_ops(frame_lines(b)),
{
    lemma_lines_front(a, b, 0);
    lemma_lines_ops_append(frame_lines(a), frame_lines(b));
}

} // verus!
