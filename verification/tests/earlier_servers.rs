use bite::line_server::{parse_message, update_btreemap, Instruction};
use bite::map::MapResult;
use bite::server::db::DB;
use bite::server::dispatch::{dispatch, Work};
use bite::server::heartbeat::Heartbeat;
use bite::server::map::{handle, Command};
use bite::server::parse::{proc_from_string, AsyncInstr, Instr, Proc};
use bite::server::subs::{group_failed, Subs};
use bite::store::Store;

fn k(s: &str) -> Vec<char> {
    s.chars().collect()
}

fn reply_text(r: &Option<MapResult>) -> Option<String> {
    match r {
        Some(MapResult::Message(m)) => Some(m.clone()),
        None => None,
    }
}

#[test]
fn proc_splits_instruction_key_and_value() {
    let p = proc_from_string("  s user.name  Ada   Lovelace  \n");
    assert_eq!(p.instr, Instr::SetValue);
    assert_eq!(p.key, "user.name");
    assert_eq!(p.value, "Ada   Lovelace");
}

#[test]
fn proc_instruction_words() {
    let words = [
        ("s", Instr::SetValue),
        ("S?", Instr::SetIfNone),
        ("+1", Instr::Inc),
        ("g", Instr::Get),
        ("j", Instr::Jtrim),
        ("JS", Instr::Json),
        ("#j", Instr::SubJ),
        ("#g", Instr::SubGet),
        ("#b", Instr::SubBite),
    ];
    for (w, i) in words.iter() {
        let p = proc_from_string(&format!("{} key", w));
        assert_eq!(p.instr, *i);
        assert_eq!(p.key, "key");
    }
}

#[test]
fn proc_unknown_instruction_keeps_it_in_the_key() {
    let p = proc_from_string("hello there world");
    assert_eq!(p.instr, Instr::Nop);
    assert_eq!(p.key, "hello there");
    assert_eq!(p.value, "world");
    let p = proc_from_string("alone");
    assert_eq!(p.instr, Instr::Nop);
    assert_eq!(p.key, "alone");
    assert_eq!(p.value, "");
    let p = proc_from_string("");
    assert_eq!(p.instr, Instr::Nop);
    assert_eq!(p.key, "");
}

#[test]
fn proc_trailing_tab_in_the_instruction() {
    let p = proc_from_string("g\t key");
    assert_eq!(p.instr, Instr::Get);
    assert_eq!(p.key, "key");
}

fn now_text(w: &Work) -> Option<String> {
    match w {
        Work::Run { map: None, publish: None, reply: AsyncInstr::No(t) } => Some(t.clone()),
        _ => None,
    }
}

#[test]
fn dispatch_answers() {
    let nop = dispatch(Proc { instr: Instr::Nop, key: "x".into(), value: String::new() });
    assert_eq!(now_text(&nop), Some("NOP".into()));
    let no_key = dispatch(Proc { instr: Instr::Get, key: String::new(), value: String::new() });
    assert_eq!(now_text(&no_key), Some("KEY?".into()));
    let no_key = dispatch(Proc { instr: Instr::SetValue, key: String::new(), value: "v".into() });
    assert_eq!(now_text(&no_key), Some("KEY?".into()));
}

#[test]
fn dispatch_set_updates_calls_and_says_ok() {
    match dispatch(proc_from_string("s a 1")) {
        Work::Run { map: Some(Command::SetValue(k, v)), publish: Some((pk, pv)), reply: AsyncInstr::No(t) } => {
            assert_eq!((k.as_str(), v.as_str(), pk.as_str(), pv.as_str(), t.as_str()), ("a", "1", "a", "1", "OK"));
        }
        _ => panic!("expected a set"),
    }
}

#[test]
fn dispatch_reads_wait_for_the_map() {
    assert!(matches!(dispatch(proc_from_string("g a")), Work::Run { map: Some(Command::Get(_)), publish: None, reply: AsyncInstr::Yes }));
    assert!(matches!(dispatch(proc_from_string("+1 a")), Work::Run { map: Some(Command::Inc(_)), publish: None, reply: AsyncInstr::Yes }));
    assert!(matches!(dispatch(proc_from_string("j")), Work::Run { map: Some(Command::Jtrim(_)), publish: None, reply: AsyncInstr::Yes }));
    assert!(matches!(dispatch(proc_from_string("js a")), Work::Run { map: Some(Command::Json(_)), publish: None, reply: AsyncInstr::Yes }));
    assert!(matches!(dispatch(proc_from_string("s? a b")), Work::Run { map: Some(Command::SetIfNone(_, _)), publish: None, reply: AsyncInstr::No(_) }));
    assert!(matches!(dispatch(proc_from_string("#b a")), Work::Subscribe(_, Instr::SubBite)));
}

#[test]
fn server_map_commands() {
    let mut st: Store<String> = Store::new();
    let out = handle(&mut st, Command::SetValue("k".into(), "v".into()));
    assert!(out.modified && out.reply.is_none() && out.call.is_none());
    let out = handle(&mut st, Command::Get("k".into()));
    assert_eq!(reply_text(&out.reply), Some("v".into()));
    let out = handle(&mut st, Command::Get("none".into()));
    assert_eq!(reply_text(&out.reply), Some(String::new()));
}

#[test]
fn server_set_if_none_calls_with_the_kept_value() {
    let mut st: Store<String> = Store::new();
    let out = handle(&mut st, Command::SetIfNone("k".into(), "first".into()));
    assert!(out.modified);
    assert_eq!(out.call, Some(("k".to_string(), "first".to_string())));
    let out = handle(&mut st, Command::SetIfNone("k".into(), "second".into()));
    assert!(!out.modified);
    assert_eq!(out.call, Some(("k".to_string(), "first".to_string())));
}

#[test]
fn server_inc_counts_without_saving() {
    let mut st: Store<String> = Store::new();
    let out = handle(&mut st, Command::Inc("n".into()));
    assert_eq!(reply_text(&out.reply), Some("0".into()));
    assert!(!out.modified);
    let out = handle(&mut st, Command::Inc("n".into()));
    assert_eq!(reply_text(&out.reply), Some("1".into()));
    assert_eq!(out.call, Some(("n".to_string(), "1".to_string())));
}

#[test]
fn server_json_requests() {
    let mut st: Store<String> = Store::new();
    st.insert(k("a.b"), "1".into());
    let out = handle(&mut st, Command::Jtrim("a".into()));
    assert_eq!(reply_text(&out.reply), Some(r#"{"b":"1"}"#.to_string()));
    assert!(!out.modified && out.call.is_none());
    let out = handle(&mut st, Command::Json("a".into()));
    assert_eq!(reply_text(&out.reply), Some(r#"{"a":{"b":"1"}}"#.to_string()));
    let out = handle(&mut st, Command::Json("b".into()));
    assert_eq!(reply_text(&out.reply), Some("{}".to_string()));
}

#[test]
fn server_db_roundtrip() {
    let mut st: Store<String> = Store::new();
    st.insert(k("b"), "2".into());
    st.insert(k("a"), "x \"quoted\"".into());
    let db = DB::new(st);
    let text = db.save_to_file().unwrap();
    assert_eq!(text, r#"{"a":"x \"quoted\"","b":"2"}"#);
    let mut other = DB::new(Store::new());
    assert!(other.load_from_file(&text));
    assert_eq!(other.data.get(&k("a")), Some(&"x \"quoted\"".to_string()));
}

#[test]
fn server_db_rejects_bad_text() {
    let mut st: Store<String> = Store::new();
    st.insert(k("a"), "1".into());
    let mut db = DB::new(st);
    assert!(db.load_from_file(""));
    assert_eq!(db.data.len(), 1);
    assert!(!db.load_from_file("not json"));
    assert_eq!(db.data.len(), 1);
    assert!(!db.load_from_file("{\"a\": 1}"));
    assert!(db.load_from_file("{}"));
    assert_eq!(db.data.len(), 0);
}

#[test]
fn server_subscribers() {
    let mut subs = Subs::new();
    subs.add("a.b".into(), 1, Instr::SubGet);
    subs.add("a".into(), 2, Instr::SubBite);
    subs.add("a".into(), 3, Instr::SubJ);
    let out = subs.call(&"a.b".to_string(), &"v".to_string());
    let got: Vec<(String, usize, usize, String)> =
        out.iter().map(|d| (d.key.clone(), d.index, d.to, d.message.clone())).collect();
    assert_eq!(
        got,
        vec![
            ("a.b".to_string(), 0, 1, "v".to_string()),
            ("a".to_string(), 0, 2, "b v".to_string()),
            ("a".to_string(), 1, 3, r#"{"b":"v"}"#.to_string()),
        ]
    );
}

#[test]
fn server_failed_subscribers_are_swap_removed() {
    let mut subs = Subs::new();
    for id in 0..5 {
        subs.add("k".into(), id, Instr::SubGet);
    }
    subs.drop_failed(&"k".to_string(), &[1, 3]);
    let to: Vec<usize> = subs.call(&"k".to_string(), &"v".to_string()).iter().map(|d| d.to).collect();
    assert_eq!(to, vec![0, 4, 2]);
    subs.drop_failed(&"other".to_string(), &[]);
}

#[test]
fn server_heartbeat() {
    let mut hb = Heartbeat::new();
    hb.add("1.1.1.1:1", 100);
    hb.add("2.2.2.2:2", 100);
    hb.add("1.1.1.1:1", 500);
    hb.touch("2.2.2.2:2", 150);
    hb.touch("3.3.3.3:3", 150);
    assert_eq!(hb.quiet(160, 30), vec!["1.1.1.1:1".to_string()]);
    assert_eq!(hb.quiet(200, 30), vec!["1.1.1.1:1".to_string(), "2.2.2.2:2".to_string()]);
    assert!(hb.quiet(50, 0).is_empty());
    hb.remove("1.1.1.1:1");
    assert_eq!(hb.quiet(200, 30), vec!["2.2.2.2:2".to_string()]);
}

#[test]
fn line_server_get_and_set() {
    let mut st: Store<String> = Store::new();
    let mut line = "  SET  color   dark blue \n".to_string();
    let p = parse_message(&mut line).unwrap();
    assert_eq!(p.instruction, Instruction::SetValue);
    assert_eq!(p.key, "color");
    assert_eq!(p.value, "dark blue");
    let u = update_btreemap(p, &mut st);
    assert_eq!(u.result, "OK");
    let mut line = "get color".to_string();
    let u = update_btreemap(parse_message(&mut line).unwrap(), &mut st);
    assert_eq!(u.result, "dark blue");
    assert_eq!(u.process.key, "color");
    let mut line = "get nothing".to_string();
    assert_eq!(update_btreemap(parse_message(&mut line).unwrap(), &mut st).result, "");
}

#[test]
fn line_server_unknown_is_nop() {
    let mut st: Store<String> = Store::new();
    let mut line = "del color now".to_string();
    let p = parse_message(&mut line).unwrap();
    assert_eq!(p.instruction, Instruction::Nop);
    assert_eq!(p.key, "del color");
    assert_eq!(p.value, "now");
    assert_eq!(update_btreemap(p, &mut st).result, "NOP");
    assert_eq!(st.len(), 0);
}

#[test]
fn failed_deliveries_grouped_by_key() {
    let failed = vec![("a".to_string(), 0), ("b".to_string(), 2), ("a".to_string(), 3)];
    let groups = group_failed(&failed);
    assert_eq!(groups, vec![("a".to_string(), vec![0, 3]), ("b".to_string(), vec![2])]);
    assert!(group_failed(&Vec::new()).is_empty());
}

#[test]
fn server_db_text_of_an_empty_store_and_escapes() {
    let db = DB::new(Store::new());
    assert_eq!(db.save_to_file().unwrap(), "{}");
    let mut st: Store<String> = Store::new();
    st.insert(k("t\tk"), "a\\b\n".into());
    let db = DB::new(st);
    assert_eq!(db.save_to_file().unwrap(), r#"{"t\tk":"a\\b\n"}"#);
}

#[test]
fn server_subscription_count() {
    let mut subs = Subs::new();
    assert_eq!(subs.count_of(&"k".to_string()), 0);
    subs.add("k".into(), 1, Instr::SubGet);
    subs.add("k".into(), 2, Instr::SubJ);
    assert_eq!(subs.count_of(&"k".to_string()), 2);
    subs.drop_failed(&"k".to_string(), &[0]);
    assert_eq!(subs.count_of(&"k".to_string()), 1);
}
