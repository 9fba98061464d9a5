use bite::cleaner::IdPool;
use bite::heartbeat::{drop_idle_readers, ping_idle_writers, ReaderState, WriterState};
use bite::message::stamp_header;
use bite::parser::Command;
use bite::subs::{get_key_combinations, is_subscription, Action, Subs};
use bite::writer::{after_write, greeting, reply, AfterWrite, Order, SendQueue};

fn orders(v: &[Order]) -> Vec<(usize, usize, usize, Vec<u8>)> {
    v.iter().map(|o| (o.from_id, o.to_id, o.msg_id, o.data.clone())).collect()
}

#[test]
fn key_combinations_longest_first() {
    assert_eq!(
        get_key_combinations("data.inner.value"),
        vec!["data.inner.value".to_string(), "data.inner".to_string(), "data".to_string()]
    );
    assert_eq!(get_key_combinations("plain"), vec!["plain".to_string()]);
    assert_eq!(get_key_combinations("a."), vec!["a.".to_string(), "a".to_string()]);
}

#[test]
fn subscriber_receives_the_value_set() {
    let mut subs = Subs::new();
    subs.add("parent.child".into(), 2, Command::SubGet);
    let out = subs.call(&"parent.child".to_string(), &b"Some value".to_vec(), 4);
    assert_eq!(orders(&out), vec![(2, 2, 4, b"Some value".to_vec())]);
    let out = subs.apply(Action::Call("parent.child".into(), b"Some value".to_vec(), 9, 7));
    assert_eq!(orders(&out), vec![(2, 2, 7, b"Some value".to_vec())]);
}

#[test]
fn parent_subscriber_receives_children() {
    let mut subs = Subs::new();
    subs.add("parent".into(), 3, Command::SubKeyValue);
    let out = subs.call(&"parent.child".to_string(), &b"v".to_vec(), 1);
    assert_eq!(orders(&out), vec![(3, 3, 1, b"child v".to_vec())]);
    let out = subs.call(&"parentless".to_string(), &b"v".to_vec(), 1);
    assert!(out.is_empty());
}

#[test]
fn json_subscriber_gets_an_object() {
    let mut subs = Subs::new();
    subs.add("a.b".into(), 5, Command::SubJson);
    let out = subs.call(&"a.b".to_string(), &b"x\"y".to_vec(), 2);
    assert_eq!(out.len(), 1);
    assert_eq!(out[0].data, br#"{"b":"x\"y"}"#.to_vec());
}

#[test]
fn json_subscriber_gets_escaped_text() {
    let mut subs = Subs::new();
    subs.add("a.k".into(), 5, Command::SubJson);
    let out = subs.call(&"a.k".to_string(), &b"a\tb\x01\\".to_vec(), 2);
    assert_eq!(out.len(), 1);
    assert_eq!(out[0].data, br#"{"k":"a\tb\u0001\\"}"#.to_vec());
}

#[test]
fn calls_go_to_the_key_then_its_parents() {
    let mut subs = Subs::new();
    subs.add("a".into(), 1, Command::SubGet);
    subs.add("a.b".into(), 2, Command::SubGet);
    subs.add("a.b".into(), 3, Command::SubGet);
    let out = subs.call(&"a.b".to_string(), &b"v".to_vec(), 0);
    let to: Vec<usize> = out.iter().map(|o| o.to_id).collect();
    assert_eq!(to, vec![2, 3, 1]);
}

#[test]
fn subscribing_twice_counts_once() {
    let mut subs = Subs::new();
    subs.add("k".into(), 1, Command::SubGet);
    subs.add("k".into(), 1, Command::SubGet);
    assert_eq!(subs.call(&"k".to_string(), &b"v".to_vec(), 0).len(), 1);
    subs.add("k".into(), 1, Command::SubJson);
    assert_eq!(subs.call(&"k".to_string(), &b"v".to_vec(), 0).len(), 2);
}

#[test]
fn unsubscribe_from_a_key() {
    let mut subs = Subs::new();
    subs.add("k".into(), 1, Command::SubGet);
    subs.add("k".into(), 2, Command::SubGet);
    subs.del(&"k".to_string(), 1);
    let out = subs.call(&"k".to_string(), &b"v".to_vec(), 0);
    assert_eq!(orders(&out), vec![(2, 2, 0, b"v".to_vec())]);
}

#[test]
fn unsubscribe_from_everything() {
    let mut subs = Subs::new();
    subs.apply(Action::Add("a".into(), 1, Command::SubGet));
    subs.apply(Action::Add("b.c".into(), 1, Command::SubJson));
    subs.apply(Action::Add("b.c".into(), 2, Command::SubGet));
    subs.apply(Action::DelAll(1));
    assert!(subs.call(&"a".to_string(), &b"v".to_vec(), 0).is_empty());
    let out = subs.apply(Action::Call("b.c".into(), b"v".to_vec(), 9, 0));
    assert_eq!(orders(&out), vec![(2, 2, 0, b"v".to_vec())]);
    subs.apply(Action::DelAll(7));
}

#[test]
fn send_queue_is_first_in_first_out() {
    let mut q = SendQueue::new();
    assert!(q.is_empty());
    q.push_order(reply(1, 2, b"first".to_vec()));
    q.push_order(Order { from_id: 0, to_id: 3, msg_id: 0, data: Vec::new() });
    assert_eq!(q.len(), 2);
    assert_eq!(q.pop_front(), Some(stamp_header(b"first".to_vec(), 1, 2)));
    assert_eq!(q.pop_front(), Some(vec![0, 0, 0, 0, 0, 6]));
    assert_eq!(q.pop_front(), None);
}

#[test]
fn a_new_client_is_greeted_with_its_id() {
    let mut q = SendQueue::new();
    q.push_order(greeting(7));
    assert_eq!(q.pop_front(), Some(vec![0, 7, 0, 0, 0, 6]));
}

#[test]
fn after_a_write() {
    assert_eq!(after_write(true, false), AfterWrite::Drop);
    assert_eq!(after_write(false, false), AfterWrite::PollWrite);
    assert_eq!(after_write(false, true), AfterWrite::PollClean);
}

#[test]
fn heartbeat_decisions() {
    let readers = vec![
        ReaderState { id: 1, pending_read: true, idle_secs: 31 },
        ReaderState { id: 2, pending_read: false, idle_secs: 100 },
        ReaderState { id: 3, pending_read: true, idle_secs: 30 },
    ];
    assert_eq!(drop_idle_readers(&readers), vec![1]);
    let writers = vec![WriterState { id: 4, idle_secs: 61 }, WriterState { id: 5, idle_secs: 60 }];
    assert_eq!(orders(&ping_idle_writers(&writers)), vec![(0, 4, 0, Vec::new())]);
}

#[test]
fn ids_are_reused_oldest_first() {
    let mut pool = IdPool::new();
    assert!(pool.can_allocate());
    let a = pool.allocate();
    let b = pool.allocate();
    let c = pool.allocate();
    assert_eq!((a, b, c), (1, 2, 3));
    assert!(pool.is_in_use(2));
    pool.release(2);
    pool.release(1);
    assert!(!pool.is_in_use(2));
    assert_eq!(pool.allocate(), 2);
    assert_eq!(pool.allocate(), 1);
    assert_eq!(pool.allocate(), 4);
}

#[test]
fn subscription_commands() {
    assert!(is_subscription(&Command::SubGet));
    assert!(is_subscription(&Command::SubKeyValue));
    assert!(is_subscription(&Command::SubJson));
    assert!(!is_subscription(&Command::Unsub));
    assert!(!is_subscription(&Command::Get));
    assert_eq!(Command::SubKeyValue.name(), "SubKeyValue");
}

#[test]
fn dropping_a_connection_twice_queues_its_id_once() {
    let mut pool = IdPool::new();
    let a = pool.allocate();
    let b = pool.allocate();
    assert!(pool.drop_connection(a, true));
    assert!(!pool.is_in_use(a));
    assert!(!pool.drop_connection(a, false));
    assert!(pool.is_in_use(b));
    assert_eq!(pool.allocate(), a);
    assert_eq!(pool.allocate(), 3);
}
