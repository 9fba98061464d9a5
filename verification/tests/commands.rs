use bite::cursor::Cursor;
use bite::data;
use bite::frame::{self, FrameOp};
use bite::keys::{compare, starts_with, KeyOrder};
use bite::map::Cmd;
use bite::message::{stamp_header, Message};
use bite::msg;
use bite::numbers::{decimal_chars, from_be_bytes, parse_unsigned, to_be_bytes};
use bite::parse::{self, Instr};
use bite::parser::{
    command_from_lowercase, dispatch, is_newline, is_space, needs_key, next_line, next_word, parse as parse_command,
    remaining, route, truncate, Command, Dispatch, Parsed,
};
use bite::subs;
use bite::text::{chars_of, last_segment_of, trim, trim_end, white_space};

fn s(v: &[char]) -> String {
    v.iter().collect()
}

#[test]
fn parse_splits_command_key_and_data() {
    let p = parse_command(b"+ hello world is a pretty old meme");
    assert_eq!(p.command, Command::Append);
    assert_eq!(p.key, "hello");
    assert_eq!(p.data, b"world is a pretty old meme".to_vec());
}

#[test]
fn parse_lowercases_the_command() {
    assert_eq!(parse_command(b"S key v").command, Command::SetValue);
    assert_eq!(parse_command(b"JS key").command, Command::Json);
    assert_eq!(parse_command(b"#G key").command, Command::SubGet);
}

#[test]
fn parse_unknown_command_is_no() {
    let p = parse_command(b"hello key value");
    assert_eq!(p.command, Command::No);
    assert_eq!(p.key, "key");
}

#[test]
fn parse_skips_extra_spaces() {
    let p = parse_command(b"  g    a.b   ");
    assert_eq!(p.command, Command::Get);
    assert_eq!(p.key, "a.b");
    assert!(p.data.is_empty());
}

#[test]
fn parse_keeps_data_bytes_as_they_are() {
    let p = parse_command(b"s k \xff\x00 x ");
    assert_eq!(p.data, b"\xff\x00 x ".to_vec());
}

#[test]
fn parse_reads_invalid_utf8_lossily() {
    let p = parse_command(b"s k\xff v");
    let expected: String = "k\u{FFFD}".into();
    assert_eq!(p.key, expected);
}

#[test]
fn command_names() {
    let all = [
        ("s", Command::SetValue),
        ("s?", Command::SetIfNone),
        ("+1", Command::Inc),
        ("+", Command::Append),
        ("d", Command::Delete),
        ("g", Command::Get),
        ("k", Command::KeyValue),
        ("j", Command::Jtrim),
        ("js", Command::Json),
        ("#g", Command::SubGet),
        ("#k", Command::SubKeyValue),
        ("#j", Command::SubJson),
        ("#-", Command::Unsub),
        ("!", Command::SubCall),
        ("x", Command::No),
        ("", Command::No),
    ];
    for (word, c) in all.iter() {
        assert_eq!(command_from_lowercase(word), *c);
    }
    assert_eq!(command_from_lowercase("g  "), Command::Get);
    assert_eq!(Command::SetValue.name(), "Set");
}

#[test]
fn keys_are_needed() {
    assert!(!needs_key(&Command::No));
    assert!(!needs_key(&Command::KeyValue));
    assert!(!needs_key(&Command::Jtrim));
    assert!(!needs_key(&Command::Json));
    assert!(needs_key(&Command::SetValue));
    assert!(needs_key(&Command::SubCall));
}

#[test]
fn cursor_words_lines_and_rest() {
    let text = b"\r\nfirst line\nsecond\r\n";
    let mut c = Cursor::new(text);
    assert_eq!(next_line(&mut c), Some(&b"first line"[..]));
    assert_eq!(next_line(&mut c), Some(&b"second"[..]));
    assert_eq!(next_line(&mut c), None);

    let mut w = Cursor::new(b"  one two   three four");
    assert_eq!(next_word(&mut w), b"one");
    assert_eq!(next_word(&mut w), b"two");
    assert_eq!(remaining(&mut w), b"three four");
    assert_eq!(next_word(&mut w), b"three");
    assert!(is_newline(b'\r') && is_newline(b'\n') && !is_newline(b' '));
    assert!(is_space(b' ') && !is_space(b'\t'));
}

#[test]
fn truncate_keeps_the_first_characters() {
    assert_eq!(truncate("héllo", 2), "hé");
    assert_eq!(truncate("héllo", 5), "héllo");
    assert_eq!(truncate("héllo", 9), "héllo");
    assert_eq!(truncate("", 0), "");
}

fn reply_of(d: &Dispatch) -> Option<(usize, usize, usize, Vec<u8>)> {
    match d {
        Dispatch::Reply(o) => Some((o.from_id, o.to_id, o.msg_id, o.data.clone())),
        _ => None,
    }
}

#[test]
fn route_set_replies_ok_calls_and_stores() {
    let ds = route(7, 3, Parsed { command: Command::SetValue, key: "a.b".into(), data: b"v".to_vec() });
    assert_eq!(ds.len(), 3);
    assert_eq!(reply_of(&ds[0]), Some((7, 7, 3, b"OK".to_vec())));
    match &ds[1] {
        Dispatch::Subs(subs::Action::Call(k, d, 7, 3)) => {
            assert_eq!(k, "a.b");
            assert_eq!(d, &b"v".to_vec());
        }
        _ => panic!("expected a call of the subscribers"),
    }
    match &ds[2] {
        Dispatch::Data(data::Action::SetValue(k, d)) => {
            assert_eq!(k, "a.b");
            assert_eq!(d, &b"v".to_vec());
        }
        _ => panic!("expected a set"),
    }
}

#[test]
fn route_without_a_key_replies_no() {
    let ds = route(2, 9, Parsed { command: Command::Get, key: String::new(), data: Vec::new() });
    assert_eq!(ds.len(), 1);
    assert_eq!(reply_of(&ds[0]), Some((2, 2, 9, b"NO".to_vec())));
    let ds = route(2, 9, Parsed { command: Command::No, key: "k".into(), data: Vec::new() });
    assert_eq!(reply_of(&ds[0]), Some((2, 2, 9, b"NO".to_vec())));
}

#[test]
fn route_reads_go_to_the_data() {
    let ds = route(1, 2, Parsed { command: Command::Get, key: "k".into(), data: Vec::new() });
    assert!(matches!(&ds[..], [Dispatch::Data(data::Action::Get(_, 1, 2))]));
    let ds = route(1, 2, Parsed { command: Command::Json, key: String::new(), data: Vec::new() });
    assert!(matches!(&ds[..], [Dispatch::Data(data::Action::Json(_, 1, 2))]));
    let ds = route(1, 2, Parsed { command: Command::Inc, key: "n".into(), data: Vec::new() });
    assert!(matches!(&ds[..], [Dispatch::Data(data::Action::Inc(_, 1, 2))]));
}

#[test]
fn route_subscription_with_a_first_value() {
    let ds = route(4, 5, Parsed { command: Command::SubGet, key: "k".into(), data: b"x".to_vec() });
    assert_eq!(ds.len(), 3);
    assert_eq!(reply_of(&ds[0]), Some((4, 4, 5, b"OK".to_vec())));
    assert!(matches!(&ds[1], Dispatch::Subs(subs::Action::Add(_, 4, Command::SubGet))));
    assert!(matches!(&ds[2], Dispatch::Subs(subs::Action::Call(_, _, 4, 5))));
    let ds = route(4, 5, Parsed { command: Command::SubJson, key: "k".into(), data: Vec::new() });
    assert_eq!(ds.len(), 2);
}

#[test]
fn route_unsubscription() {
    let ds = route(4, 5, Parsed { command: Command::Unsub, key: "k".into(), data: b"bye".to_vec() });
    assert_eq!(ds.len(), 3);
    assert!(matches!(&ds[1], Dispatch::Subs(subs::Action::Call(_, _, 4, 5))));
    assert!(matches!(&ds[2], Dispatch::Subs(subs::Action::Del(_, 4))));
    let ds = route(4, 5, Parsed { command: Command::Unsub, key: "k".into(), data: Vec::new() });
    assert_eq!(ds.len(), 2);
    assert!(matches!(&ds[1], Dispatch::Subs(subs::Action::Del(_, 4))));
}

#[test]
fn route_other_writes() {
    let ds = route(1, 1, Parsed { command: Command::SetIfNone, key: "k".into(), data: b"v".to_vec() });
    assert!(matches!(&ds[1], Dispatch::Data(data::Action::SetIfNone(_, _, 1, 1))));
    let ds = route(1, 1, Parsed { command: Command::Append, key: "k".into(), data: b"v".to_vec() });
    assert!(matches!(&ds[1], Dispatch::Data(data::Action::Append(_, _, 1, 1))));
    let ds = route(1, 1, Parsed { command: Command::Delete, key: "k".into(), data: Vec::new() });
    assert!(matches!(&ds[1], Dispatch::Data(data::Action::Delete(_))));
    let ds = route(1, 1, Parsed { command: Command::SubCall, key: "k".into(), data: b"v".to_vec() });
    assert!(matches!(&ds[1], Dispatch::Subs(subs::Action::Call(_, _, 1, 1))));
    let ds = route(1, 1, Parsed { command: Command::KeyValue, key: String::new(), data: Vec::new() });
    assert!(matches!(&ds[0], Dispatch::Data(data::Action::KeyValue(_, 1, 1))));
    let ds = route(1, 1, Parsed { command: Command::Jtrim, key: "k".into(), data: Vec::new() });
    assert!(matches!(&ds[0], Dispatch::Data(data::Action::Jtrim(_, 1, 1))));
}

#[test]
fn dispatch_answers_with_the_message_ids() {
    let m = Message::from_protocol(stamp_header(b"g".to_vec(), 12, 34)).ok().unwrap();
    let ds = dispatch(m);
    assert_eq!(ds.len(), 1);
    assert_eq!(reply_of(&ds[0]), Some((12, 12, 34, b"NO".to_vec())));
}

#[test]
fn white_space_parser_splits_lines() {
    let m = parse::parse(b"s\tkey  the value \r\n");
    assert_eq!(m.instr, Instr::SetValue);
    assert_eq!(m.key, "key");
    assert_eq!(m.value, "the value");
    assert!(parse::line_ready(b"s key value"));
    assert!(!parse::line_ready(b"s key \xff"));
    assert!(parse::needs_key(&Instr::Get));
    assert!(!parse::needs_key(&Instr::Json));
    assert_eq!(Instr::SubKeyValue.name(), "SubKeyValue");
}

#[test]
fn white_space_parser_reads_bad_words_as_empty() {
    let m = parse::parse(b"\xff k\xfe v");
    assert_eq!(m.instr, Instr::Nop);
    assert_eq!(m.key, "");
    assert_eq!(m.value, "v");
}

#[test]
fn space_parser_splits_words() {
    let m = msg::parse(b"s key value\n");
    assert_eq!(m.instr, Instr::SetValue);
    assert_eq!(m.key, "key");
    assert_eq!(m.value, "value");
    let m = msg::parse(b"g\n");
    assert_eq!(m.instr, Instr::Get);
    assert_eq!(m.key, "");
    assert_eq!(m.value, "");
    let m = msg::parse(b"");
    assert_eq!(m.instr, Instr::Nop);
    assert!(msg::needs_key(&Instr::Inc));
    assert!(msg::line_ready(b"s k v\n"));
    assert!(msg::line_ready(b""));
    assert!(!msg::line_ready(b"s k \xff\n"));
    assert!(!msg::line_ready(b"s \xff v"));
}

#[test]
fn space_parser_splits_a_leading_instruction() {
    let m = msg::parse(b"+hello world is a pretty old meme");
    assert_eq!(m.instr, Instr::Append);
    assert_eq!(m.key, "hello");
    assert_eq!(m.value, "world is a pretty old meme");
    let m = msg::parse(b"+1 n");
    assert_eq!(m.instr, Instr::Inc);
    assert_eq!(m.key, "n");
    let m = msg::parse(b"x key v");
    assert_eq!(m.instr, Instr::Nop);
    assert_eq!(m.key, "key");
}

#[test]
fn white_space_parser_splits_a_leading_instruction() {
    let m = parse::parse(b"+hello world is a pretty old meme");
    assert_eq!(m.instr, Instr::Append);
    assert_eq!(m.key, "hello");
    assert_eq!(m.value, "world is a pretty old meme");
    let m = parse::parse(b"Ghello\r\n");
    assert_eq!(m.instr, Instr::Get);
    assert_eq!(m.key, "hello");
    assert_eq!(m.value, "");
    let m = parse::parse(b"!a.b  new value ");
    assert_eq!(m.instr, Instr::SubCall);
    assert_eq!(m.key, "a.b");
    assert_eq!(m.value, "new value");
    let m = parse::parse(b"js a");
    assert_eq!(m.instr, Instr::Json);
    assert_eq!(m.key, "a");
    let m = parse::parse(b"#x key v");
    assert_eq!(m.instr, Instr::Nop);
    assert_eq!(m.key, "key");
    assert_eq!(m.value, "v");
}

fn push_text(op: &FrameOp) -> Option<String> {
    match op {
        FrameOp::Push(t) => Some(t.clone()),
        _ => None,
    }
}

#[test]
fn frame_routes_each_line() {
    let ops = frame::handle(b"s a.b 1\ng a.b\r\n#g a\nx y\n");
    assert_eq!(ops.len(), 7);
    match &ops[0] {
        FrameOp::Publish(k, v) => {
            assert_eq!(k, "a.b");
            assert_eq!(v, "1");
        }
        _ => panic!("a set tells the subscribers first"),
    }
    assert!(matches!(&ops[1], FrameOp::Data(Cmd::SetValue(_, _))));
    assert_eq!(push_text(&ops[2]), Some("OK".into()));
    assert!(matches!(&ops[3], FrameOp::Data(Cmd::Get(_))));
    assert!(matches!(&ops[4], FrameOp::Subscribe(_, Instr::SubGet)));
    assert_eq!(push_text(&ops[5]), Some("OK".into()));
    assert_eq!(push_text(&ops[6]), Some("NOP".into()));
}

#[test]
fn frame_asks_for_a_key() {
    let ops = frame::handle(b"g\n+1\n");
    assert_eq!(ops.len(), 2);
    assert_eq!(push_text(&ops[0]), Some("KEY?".into()));
    assert_eq!(push_text(&ops[1]), Some("KEY?".into()));
}

#[test]
fn frame_subscriptions() {
    let ops = frame::handle(b"#j k first\n#- k last\n! k v\n");
    assert!(matches!(&ops[0], FrameOp::Subscribe(_, Instr::SubJson)));
    assert!(matches!(&ops[1], FrameOp::Publish(_, _)));
    assert_eq!(push_text(&ops[2]), Some("OK".into()));
    assert!(matches!(&ops[3], FrameOp::Publish(_, _)));
    assert!(matches!(&ops[4], FrameOp::Unsubscribe(_)));
    assert_eq!(push_text(&ops[5]), Some("OK".into()));
    assert!(matches!(&ops[6], FrameOp::Publish(_, _)));
    assert_eq!(push_text(&ops[7]), Some("OK".into()));
    assert_eq!(ops.len(), 8);
}

#[test]
fn frame_data_commands() {
    let ops = frame::handle(b"s? k v\n+ k w\nd k\nk p\nj p\njs p\n+1 n\n");
    assert!(matches!(&ops[0], FrameOp::Data(Cmd::SetIfNone(_, _))));
    assert_eq!(push_text(&ops[1]), Some("OK".into()));
    assert!(matches!(&ops[2], FrameOp::Data(Cmd::Append(_, _))));
    assert!(matches!(&ops[3], FrameOp::Data(Cmd::Delete(_))));
    assert_eq!(push_text(&ops[4]), Some("OK".into()));
    assert!(matches!(&ops[5], FrameOp::Data(Cmd::Bite(_))));
    assert!(matches!(&ops[6], FrameOp::Data(Cmd::Jtrim(_))));
    assert!(matches!(&ops[7], FrameOp::Data(Cmd::Json(_))));
    assert!(matches!(&ops[8], FrameOp::Data(Cmd::Inc(_))));
    assert_eq!(ops.len(), 9);
}

#[test]
fn frame_readiness() {
    assert!(frame::is_frame_ready(b"s k v\ng k\n"));
    assert!(frame::is_frame_ready(b"\n\n"));
    assert!(!frame::is_frame_ready(b"g k\ns k \xff\n"));
    assert!(frame::handle(b"\r\n\r\n").is_empty());
}

#[test]
fn text_helpers() {
    assert_eq!(chars_of("añb"), vec!['a', 'ñ', 'b']);
    assert_eq!(trim_end("ab \t\n"), "ab");
    assert_eq!(trim("\u{3000} ab c \u{85}"), "ab c");
    assert!(white_space('\u{2028}') && !white_space('x'));
    assert_eq!(s(&last_segment_of(&chars_of("a.b.cd"))), "cd");
    assert_eq!(s(&last_segment_of(&chars_of("abc"))), "abc");
    assert_eq!(s(&last_segment_of(&chars_of("a."))), "");
}

#[test]
fn numbers() {
    assert_eq!(parse_unsigned(b"123", u64::MAX), Some(123));
    assert_eq!(parse_unsigned(b"+7", u64::MAX), Some(7));
    assert_eq!(parse_unsigned(b"", u64::MAX), None);
    assert_eq!(parse_unsigned(b"+", u64::MAX), None);
    assert_eq!(parse_unsigned(b"12a", u64::MAX), None);
    assert_eq!(parse_unsigned(b"4294967295", 4294967295), Some(4294967295));
    assert_eq!(parse_unsigned(b"4294967296", 4294967295), None);
    assert_eq!(parse_unsigned(b"18446744073709551615", u64::MAX), Some(u64::MAX));
    assert_eq!(parse_unsigned(b"18446744073709551616", u64::MAX), None);
    assert_eq!(to_be_bytes(258), vec![0, 0, 0, 0, 0, 0, 1, 2]);
    assert_eq!(from_be_bytes(&[0, 0, 0, 0, 0, 0, 1, 2]), 258);
    assert_eq!(from_be_bytes(&to_be_bytes(u64::MAX - 5)), u64::MAX - 5);
    assert_eq!(decimal_chars(0), vec!['0']);
    assert_eq!(decimal_chars(1984), vec!['1', '9', '8', '4']);
}

#[test]
fn key_order() {
    assert_eq!(compare(&['a'], &['b']), KeyOrder::Less);
    assert_eq!(compare(&['a', 'b'], &['a']), KeyOrder::Greater);
    assert_eq!(compare(&['a'], &['a', 'b']), KeyOrder::Less);
    assert_eq!(compare(&['x', 'y'], &['x', 'y']), KeyOrder::Equal);
    assert_eq!(compare(&['Z'], &['a']), KeyOrder::Less);
    assert!(starts_with(&['a', '.', 'b'], &['a', '.']));
    assert!(starts_with(&['a'], &[]));
    assert!(!starts_with(&['a'], &['a', 'b']));
}

#[test]
fn frame_of_two_parts_is_both_parts() {
    let first = frame::handle(b"s a 1");
    let second = frame::handle(b"#k a\nd b");
    let both = frame::handle(b"s a 1\n#k a\nd b");
    assert_eq!(both.len(), first.len() + second.len());
    assert!(matches!(&both[3], FrameOp::Subscribe(_, Instr::SubKeyValue)));
    assert!(matches!(&both[5], FrameOp::Data(Cmd::Delete(_))));
}
