use bite::data::{key_value_message, split_bytes, u64_to_vec, vec_to_u64, Action, Outcome};
use bite::db::DB;
use bite::map::{Cmd, MapResult};
use bite::store::{json_pointer, kv_to_json, split_key, Store};
use bite::subs;
use bite::json::LeafValue;
use bite::tree::{build_tree, JsonTree};

fn k(s: &str) -> Vec<char> {
    s.chars().collect()
}

fn store_of(pairs: &[(&str, &[u8])]) -> Store<Vec<u8>> {
    let mut st: Store<Vec<u8>> = Store::new();
    for (key, v) in pairs {
        st.insert(k(key), v.to_vec());
    }
    st
}

fn replies(out: &Outcome) -> Vec<(usize, usize, usize, Vec<u8>)> {
    out.replies.iter().map(|o| (o.from_id, o.to_id, o.msg_id, o.data.clone())).collect()
}

#[test]
fn store_keeps_keys_in_order() {
    let st = store_of(&[("b", b"2"), ("a", b"1"), ("c", b"3"), ("a", b"9")]);
    assert_eq!(st.len(), 3);
    let keys: Vec<Vec<char>> = (0..st.len()).map(|i| st.entry(i).0.clone()).collect();
    assert_eq!(keys, vec![k("a"), k("b"), k("c")]);
    assert_eq!(st.get(&k("a")), Some(&b"9".to_vec()));
    assert_eq!(st.get(&k("z")), None);
    assert_eq!(st.find(&k("b")), Ok(1));
    assert_eq!(st.find(&k("bb")), Err(2));
}

#[test]
fn store_remove_and_prefix() {
    let mut st = store_of(&[("a.x", b"1"), ("a.y", b"2"), ("ab", b"3"), ("b", b"4")]);
    let p = st.prefixed(&k("a."));
    assert_eq!(p.len(), 2);
    assert_eq!(p[0].0, k("a.x"));
    assert_eq!(p[1].0, k("a.y"));
    assert!(st.remove(&k("a.x")));
    assert!(!st.remove(&k("a.x")));
    assert_eq!(st.prefixed(&k("a")).len(), 2);
    assert_eq!(st.pairs().len(), 3);
}

#[test]
fn store_from_pairs_later_wins() {
    let st = Store::from_pairs(vec![(k("x"), b"1".to_vec()), (k("a"), b"2".to_vec()), (k("x"), b"3".to_vec())]);
    assert_eq!(st.len(), 2);
    assert_eq!(st.get(&k("x")), Some(&b"3".to_vec()));
}

#[test]
fn get_after_set() {
    let mut st: Store<Vec<u8>> = Store::new();
    let out = st.apply(Action::SetValue("user.name".into(), b"Ada".to_vec()));
    assert!(out.modified && out.replies.is_empty() && out.calls.is_empty());
    let out = st.apply(Action::Get("user.name".into(), 5, 6));
    assert_eq!(replies(&out), vec![(5, 5, 6, b"Ada".to_vec())]);
    assert!(!out.modified);
}

#[test]
fn get_of_a_missing_key_is_empty() {
    let mut st: Store<Vec<u8>> = Store::new();
    let out = st.apply(Action::Get("nothing".into(), 1, 2));
    assert_eq!(replies(&out), vec![(1, 1, 2, Vec::new())]);
}

#[test]
fn get_after_delete() {
    let mut st = store_of(&[("k", b"v")]);
    let out = st.apply(Action::Delete("k".into()));
    assert!(out.modified);
    let out = st.apply(Action::Get("k".into(), 1, 2));
    assert_eq!(replies(&out), vec![(1, 1, 2, Vec::new())]);
    let out = st.apply(Action::Delete("k".into()));
    assert!(!out.modified);
}

#[test]
fn set_if_none_keeps_a_present_value() {
    let mut st = store_of(&[("k", b"old")]);
    let out = st.apply(Action::SetIfNone("k".into(), b"new".to_vec(), 1, 2));
    assert!(!out.modified && out.calls.is_empty());
    assert_eq!(st.get(&k("k")), Some(&b"old".to_vec()));
    let out = st.apply(Action::SetIfNone("n".into(), b"new".to_vec(), 1, 2));
    assert!(out.modified);
    assert!(matches!(&out.calls[..], [subs::Action::Call(_, _, 1, 2)]));
    assert_eq!(st.get(&k("n")), Some(&b"new".to_vec()));
}

#[test]
fn inc_counts_in_big_endian() {
    let mut st: Store<Vec<u8>> = Store::new();
    let out = st.apply(Action::Inc("n".into(), 3, 4));
    assert_eq!(replies(&out), vec![(3, 3, 4, vec![0, 0, 0, 0, 0, 0, 0, 1])]);
    assert!(matches!(&out.calls[..], [subs::Action::Call(_, _, 3, 4)]));
    let out = st.apply(Action::Inc("n".into(), 3, 5));
    assert_eq!(replies(&out), vec![(3, 3, 5, vec![0, 0, 0, 0, 0, 0, 0, 2])]);
}

#[test]
fn inc_reads_decimal_text() {
    let mut st = store_of(&[("n", b"41"), ("bad", b"x")]);
    let out = st.apply(Action::Inc("n".into(), 1, 1));
    assert_eq!(vec_to_u64(&out.replies[0].data), 42);
    let out = st.apply(Action::Inc("bad".into(), 1, 1));
    assert_eq!(vec_to_u64(&out.replies[0].data), 1);
}

#[test]
fn inc_overflow_is_detected() {
    let st = store_of(&[("n", &u64_to_vec(u64::MAX))]);
    assert!(st.inc_overflows(&"n".to_string()));
    assert!(!st.inc_overflows(&"m".to_string()));
}

#[test]
fn counters_roundtrip() {
    assert_eq!(vec_to_u64(&u64_to_vec(1234567)), 1234567);
    assert_eq!(vec_to_u64(b"12345678"), u64::from_be_bytes(*b"12345678"));
    assert_eq!(vec_to_u64(b"99"), 99);
    assert_eq!(vec_to_u64(b"-1"), 0);
}

#[test]
fn append_extends_the_value() {
    let mut st = store_of(&[("k", b"ab")]);
    let out = st.apply(Action::Append("k".into(), b"cd".to_vec(), 1, 1));
    assert!(out.modified && out.replies.is_empty());
    assert_eq!(st.get(&k("k")), Some(&b"abcd".to_vec()));
    st.apply(Action::Append("new".into(), b"x".to_vec(), 1, 1));
    assert_eq!(st.get(&k("new")), Some(&b"x".to_vec()));
}

#[test]
fn key_values_of_a_prefix() {
    let mut st = store_of(&[("p.a", b"1"), ("p.b", b"2"), ("q", b"3")]);
    let out = st.apply(Action::KeyValue("p".into(), 2, 3));
    assert_eq!(replies(&out), vec![(2, 2, 3, b"a 1\0b 2".to_vec())]);
}

#[test]
fn key_value_message_separates_with_zero() {
    let kv = vec![(k("x.y"), b"1".to_vec()), (k("z"), b"".to_vec())];
    assert_eq!(key_value_message(&kv), b"y 1\0z ".to_vec());
    assert!(key_value_message(&[]).is_empty());
}

#[test]
fn set_list_sets_each_pair() {
    let mut st: Store<Vec<u8>> = Store::new();
    let out = st.apply(Action::SetList(",".into(), b"a 1,b two words".to_vec(), 7, 8));
    assert!(out.modified);
    assert_eq!(out.calls.len(), 2);
    assert_eq!(st.get(&k("a")), Some(&b"1".to_vec()));
    assert_eq!(st.get(&k("b")), Some(&b"two words".to_vec()));
}

#[test]
fn split_bytes_like_slice_split() {
    let pieces = split_bytes(b"a,b,,c", b',');
    assert_eq!(pieces, vec![b"a".to_vec(), b"b".to_vec(), b"".to_vec(), b"c".to_vec()]);
    assert_eq!(split_bytes(b"", b','), vec![Vec::<u8>::new()]);
}

#[test]
fn json_replies_of_a_prefix() {
    let mut st = store_of(&[("a.b", b"1"), ("a.c", b"2"), ("x", b"3")]);
    let out = st.apply(Action::Jtrim("a".into(), 4, 5));
    assert_eq!(replies(&out), vec![(4, 4, 5, br#"{"b":[49],"c":[50]}"#.to_vec())]);
    let out = st.apply(Action::Json("a".into(), 4, 5));
    assert_eq!(replies(&out), vec![(4, 4, 5, br#"{"a":{"b":[49],"c":[50]}}"#.to_vec())]);
    let out = st.apply(Action::Jtrim("a.b".into(), 4, 5));
    assert_eq!(out.replies[0].data, b"[49]".to_vec());
    assert!(!out.modified);
}

#[test]
fn json_replies_when_the_pointer_leads_nowhere() {
    let mut st = store_of(&[("a.b", b"1"), ("x", b"3")]);
    let out = st.apply(Action::Json(String::new(), 1, 1));
    assert_eq!(out.replies[0].data, br#"{"a":{"b":[49]},"x":[51]}"#.to_vec());
    let out = st.apply(Action::Jtrim(String::new(), 1, 1));
    assert_eq!(out.replies[0].data, br#"{"a":{"b":[49]},"x":[51]}"#.to_vec());
    let out = st.apply(Action::Jtrim("zz".into(), 1, 1));
    assert_eq!(out.replies[0].data, b"{}".to_vec());
    let out = st.apply(Action::Json("zz".into(), 1, 1));
    assert_eq!(out.replies[0].data, b"{}".to_vec());
}

#[test]
fn json_request_parts() {
    let st = store_of(&[("a.b", b"1"), ("a.c", b"2"), ("x", b"3")]);
    let j = st.json_reply("a".into(), true, 4, 5);
    assert!(j.trim && !j.whole_on_miss);
    assert_eq!((j.from_id, j.msg_id), (4, 5));
    assert_eq!(j.pointer, "/a");
    assert_eq!(j.leaves.len(), 2);
    assert_eq!(j.leaves[0].path, vec!["a".to_string(), "b".to_string()]);
    assert_eq!(j.leaves[0].value, b"1".to_vec());
    assert_eq!(bite::json::reply_text(&j), r#"{"b":[49],"c":[50]}"#);
}

#[test]
fn json_leaves_skip_keys_with_children() {
    let kv = vec![(k("a"), b"1".to_vec()), (k("a.b"), b"2".to_vec())];
    let leaves = kv_to_json(&kv);
    assert_eq!(leaves.len(), 1);
    assert_eq!(leaves[0].path, vec!["a".to_string(), "b".to_string()]);
    assert_eq!(json_pointer(&k("a.b.c")), "/a/b/c");
    assert_eq!(split_key(&k("a..b")), vec!["a".to_string(), String::new(), "b".to_string()]);
}

#[test]
fn bite_lists_entries_separated_by_nul() {
    let mut st: Store<String> = Store::new();
    bite::map::handle(&mut st, Cmd::SetValue("a.b".into(), "1".into()));
    bite::map::handle(&mut st, Cmd::SetValue("a.c".into(), "2".into()));
    bite::map::handle(&mut st, Cmd::SetValue("b".into(), "3".into()));
    let out = bite::map::handle(&mut st, Cmd::Bite("a".into()));
    assert!(!out.modified);
    assert!(matches!(out.reply, Some(MapResult::Message(ref m)) if m == "b 1\0c 2"));
    let out = bite::map::handle(&mut st, Cmd::Bite("z".into()));
    assert!(matches!(out.reply, Some(MapResult::Message(ref m)) if m.is_empty()));
}

#[test]
fn text_map_commands() {
    let mut st: Store<String> = Store::new();
    let out = bite::map::handle(&mut st, Cmd::SetValue("a.b".into(), "hello".into()));
    assert!(out.modified && out.reply.is_none());
    let out = bite::map::handle(&mut st, Cmd::Get("a.b".into()));
    assert!(matches!(out.reply, Some(MapResult::Message(ref m)) if m == "hello"));
    let out = bite::map::handle(&mut st, Cmd::Append("a.b".into(), " world".into()));
    assert!(matches!(out.reply, Some(MapResult::Message(ref m)) if m == "hello world"));
    let out = bite::map::handle(&mut st, Cmd::Inc("n".into()));
    assert!(matches!(out.reply, Some(MapResult::Message(ref m)) if m == "0"));
    let out = bite::map::handle(&mut st, Cmd::Inc("n".into()));
    assert!(matches!(out.reply, Some(MapResult::Message(ref m)) if m == "1"));
    let out = bite::map::handle(&mut st, Cmd::Bite("a".into()));
    assert!(matches!(out.reply, Some(MapResult::Message(ref m)) if m == "b hello world"));
    let out = bite::map::handle(&mut st, Cmd::SetIfNone("a.b".into(), "x".into()));
    assert!(!out.modified);
    let out = bite::map::handle(&mut st, Cmd::Delete("a.b".into()));
    assert!(out.modified);
    let out = bite::map::handle(&mut st, Cmd::Get("a.b".into()));
    assert!(matches!(out.reply, Some(MapResult::Message(ref m)) if m.is_empty()));
    let out = bite::map::handle(&mut st, Cmd::Json("n".into()));
    assert!(matches!(out.reply, Some(MapResult::Message(ref m)) if m == r#"{"n":"1"}"#));
    let out = bite::map::handle(&mut st, Cmd::Jtrim("n".into()));
    assert!(matches!(out.reply, Some(MapResult::Message(ref m)) if m == r#""1""#));
}

#[test]
fn text_map_inc_of_a_non_number_restarts() {
    let mut st: Store<String> = Store::new();
    st.insert(k("n"), "abc".into());
    let out = bite::map::handle(&mut st, Cmd::Inc("n".into()));
    assert!(matches!(out.reply, Some(MapResult::Message(ref m)) if m == "0"));
    st.insert(k("m"), "41".into());
    let out = bite::map::handle(&mut st, Cmd::Inc("m".into()));
    assert!(matches!(out.reply, Some(MapResult::Message(ref m)) if m == "42"));
}

#[test]
fn db_saves_and_loads_bytes() {
    let mut db = DB::new(store_of(&[("a", b"1"), ("b", &[0, 255])]));
    assert!(!db.modified);
    let bytes = db.save_to_file().unwrap();
    let mut other = DB::new(Store::new());
    other.load_from_file(&bytes);
    assert_eq!(other.data.len(), 2);
    assert_eq!(other.data.get(&k("b")), Some(&vec![0, 255]));
    assert!(!other.modified);
}

#[test]
fn db_load_of_empty_or_bad_bytes() {
    let mut db = DB::new(store_of(&[("a", b"1")]));
    db.load_from_file(&[]);
    assert_eq!(db.data.len(), 1);
    db.load_from_file(&[1, 2, 3]);
    assert_eq!(db.data.len(), 0);
}

#[test]
fn db_marks_changes() {
    let mut db = DB::new(Store::new());
    db.touch(false);
    assert!(!db.take_modified());
    db.touch(true);
    db.touch(false);
    assert!(db.take_modified());
    assert!(!db.take_modified());
}

#[test]
fn json_empty_key_with_a_leading_dot() {
    // A key that starts with a dot puts its value under the empty key, which
    // the pointer of an empty query finds.
    let mut st = store_of(&[(".x", b"1"), ("y", b"2")]);
    let out = st.apply(Action::Jtrim(String::new(), 1, 1));
    assert_eq!(out.replies[0].data, br#"{"x":[49]}"#.to_vec());
    let out = st.apply(Action::Json(String::new(), 1, 1));
    assert_eq!(out.replies[0].data, br#"{"":{"x":[49]},"y":[50]}"#.to_vec());
}

#[test]
fn json_tree_puts_leaves_at_their_paths() {
    let leaves = vec![
        (vec!["a".to_string(), "b".to_string()], LeafValue::Text("1".into())),
        (vec!["a".to_string(), "c".to_string()], LeafValue::Bytes(vec![7])),
        (vec!["d".to_string()], LeafValue::Text("3".into())),
    ];
    match build_tree(&leaves) {
        JsonTree::Object(top) => {
            assert_eq!(top.len(), 2);
            assert_eq!(top[0].0, "a");
            assert_eq!(top[1].0, "d");
            assert!(matches!(&top[1].1, JsonTree::Leaf(LeafValue::Text(t)) if t == "3"));
            match &top[0].1 {
                JsonTree::Object(inner) => {
                    assert_eq!(inner.len(), 2);
                    assert_eq!(inner[0].0, "b");
                    assert!(matches!(&inner[0].1, JsonTree::Leaf(LeafValue::Text(t)) if t == "1"));
                    assert_eq!(inner[1].0, "c");
                    assert!(matches!(&inner[1].1, JsonTree::Leaf(LeafValue::Bytes(b)) if b == &vec![7u8]));
                },
                _ => panic!("expected an object under a"),
            }
        },
        _ => panic!("expected an object at the top"),
    }
}

#[test]
fn json_pointer_finds_each_leaf() {
    let mut st: Store<String> = Store::new();
    bite::map::handle(&mut st, Cmd::SetValue("a.b".into(), "1".into()));
    bite::map::handle(&mut st, Cmd::SetValue("a.c".into(), "2".into()));
    bite::map::handle(&mut st, Cmd::SetValue("b".into(), "3".into()));
    let out = bite::map::handle(&mut st, Cmd::Json(String::new()));
    assert!(matches!(out.reply, Some(MapResult::Message(ref m)) if m == r#"{"a":{"b":"1","c":"2"},"b":"3"}"#));
    let out = bite::map::handle(&mut st, Cmd::Jtrim("a.c".into()));
    assert!(matches!(out.reply, Some(MapResult::Message(ref m)) if m == "\"2\""));
    let out = bite::map::handle(&mut st, Cmd::Jtrim("a".into()));
    assert!(matches!(out.reply, Some(MapResult::Message(ref m)) if m == r#"{"b":"1","c":"2"}"#));
}

#[test]
fn db_bytes_are_counts_then_entries() {
    let db = DB::new(store_of(&[("a", &[1, 2]), ("bc", b"")]));
    let bytes = db.save_to_file().unwrap();
    let mut expected: Vec<u8> = vec![2, 0, 0, 0, 0, 0, 0, 0];
    expected.extend_from_slice(&[1, 0, 0, 0, 0, 0, 0, 0, b'a', 2, 0, 0, 0, 0, 0, 0, 0, 1, 2]);
    expected.extend_from_slice(&[2, 0, 0, 0, 0, 0, 0, 0, b'b', b'c', 0, 0, 0, 0, 0, 0, 0, 0]);
    assert_eq!(bytes, expected);
}
