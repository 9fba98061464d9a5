use bite::conn::{can_take_frame, take_frame, Response};
use bite::connection::{read_chunk, write_progress, IoFailure, ReadNext, ReadOutcome, WriteNext, WriteOutcome, BUFFER_SIZE};
use bite::message::{get_u32, stamp_header, Message, Messages, ProtocolError, Received};
use bite::protocol::{get_size, insert_size};
use bite::reader::{read_step, ReadError, ReadStep};

#[test]
fn insert_size_prefixes_the_frame_length() {
    let framed = insert_size(b"hello".to_vec());
    assert_eq!(framed, vec![0, 7, b'h', b'e', b'l', b'l', b'o']);
    assert_eq!(get_size(&framed), 7);
}

#[test]
fn size_of_an_empty_payload_is_two() {
    let framed = insert_size(Vec::new());
    assert_eq!(framed, vec![0, 2]);
    assert_eq!(get_size(&framed), 2);
}

#[test]
fn size_bytes_are_big_endian() {
    let framed = insert_size(vec![7u8; 300]);
    assert_eq!(framed[0], 1);
    assert_eq!(framed[1], 46);
    assert_eq!(get_size(&framed), 302);
    assert_eq!(get_size(&[0xAB, 0xCD, 0xEF]), 0xABCD);
}

#[test]
fn get_u32_reads_two_bytes() {
    assert_eq!(get_u32(&[1, 2]), 258);
    assert_eq!(get_u32(&[0xFF, 0xFF, 9]), 65535);
}

#[test]
fn stamp_header_then_decode_gives_back_the_message() {
    let stamped = stamp_header(b"g key".to_vec(), 3, 513);
    assert_eq!(stamped[..6], [0, 3, 2, 1, 0, 11]);
    let m = Message::from_protocol(stamped).ok().unwrap();
    assert_eq!(m.from, 3);
    assert_eq!(m.id, 513);
    assert_eq!(m.size, 11);
    assert_eq!(m.data, b"g key".to_vec());
}

#[test]
fn from_protocol_rejects_short_messages() {
    match Message::from_protocol(vec![0, 1, 0, 1, 0]) {
        Err(ProtocolError::SmallerThanProtocol) => {}
        _ => panic!("a 5-byte message is too short"),
    }
}

#[test]
fn from_protocol_rejects_long_messages() {
    match Message::from_protocol(vec![0u8; 65536]) {
        Err(ProtocolError::BiggerThanProtocol) => {}
        _ => panic!("65536 bytes do not fit the size bytes"),
    }
}

#[test]
fn feed_a_whole_message() {
    let mut ms = Messages::new();
    let msg = stamp_header(b"s a 1".to_vec(), 1, 1);
    match ms.feed(msg.clone()) {
        Received::Complete(m) => assert_eq!(m, msg),
        _ => panic!("expected a complete message"),
    }
}

#[test]
fn feed_in_two_parts() {
    let mut ms = Messages::new();
    let msg = stamp_header(b"s a 1".to_vec(), 1, 1);
    match ms.feed(msg[..7].to_vec()) {
        Received::Incomplete => {}
        _ => panic!("expected an incomplete message"),
    }
    match ms.feed(msg[7..].to_vec()) {
        Received::Complete(m) => assert_eq!(m, msg),
        _ => panic!("expected the whole message"),
    }
}

#[test]
fn feed_two_messages_at_once() {
    let mut ms = Messages::new();
    let m1 = stamp_header(b"g a".to_vec(), 1, 1);
    let m2 = stamp_header(b"g bb".to_vec(), 1, 2);
    let mut both = m1.clone();
    both.extend_from_slice(&m2);
    match ms.feed(both) {
        Received::Pending(m) => assert_eq!(m, m1),
        _ => panic!("expected the first message, more pending"),
    }
    match ms.feed(Vec::new()) {
        Received::Complete(m) => assert_eq!(m, m2),
        _ => panic!("expected the second message"),
    }
}

#[test]
fn feed_too_few_bytes_is_an_error() {
    let mut ms = Messages::new();
    match ms.feed(vec![0, 1, 2]) {
        Received::Error(ProtocolError::SmallerThanProtocol) => {}
        _ => panic!("three bytes cannot hold a header"),
    }
}

#[test]
fn feed_too_many_bytes_is_an_error() {
    let mut ms = Messages::new();
    match ms.feed(vec![0u8; 70000]) {
        Received::Error(ProtocolError::BiggerThanProtocol) => {}
        _ => panic!("70000 bytes are more than a message holds"),
    }
}

#[test]
fn read_step_delivers_a_message_of_its_client() {
    let mut ms = Messages::new();
    match read_step(&mut ms, stamp_header(b"g k".to_vec(), 4, 9), 4) {
        ReadStep::Deliver(m, pending) => {
            assert_eq!(m.from, 4);
            assert_eq!(m.id, 9);
            assert_eq!(m.data, b"g k".to_vec());
            assert!(!pending);
        }
        _ => panic!("expected a message"),
    }
}

#[test]
fn read_step_closes_on_another_clients_id() {
    let mut ms = Messages::new();
    match read_step(&mut ms, stamp_header(b"g k".to_vec(), 5, 9), 4) {
        ReadStep::Close(ReadError::WrongClient(9)) => {}
        _ => panic!("expected the connection to close"),
    }
}

#[test]
fn read_step_stops_on_a_partial_message() {
    let mut ms = Messages::new();
    let msg = stamp_header(b"g key".to_vec(), 4, 1);
    match read_step(&mut ms, msg[..8].to_vec(), 4) {
        ReadStep::Stop => {}
        _ => panic!("expected to wait for more"),
    }
}

#[test]
fn read_step_closes_on_a_feed_error() {
    let mut ms = Messages::new();
    match read_step(&mut ms, vec![1, 2], 4) {
        ReadStep::Close(ReadError::Feed(ProtocolError::SmallerThanProtocol)) => {}
        _ => panic!("expected the connection to close"),
    }
}

#[test]
fn read_step_closes_on_a_bad_chunk() {
    let mut ms = Messages::new();
    // A size of 3 splits off a chunk too short to be a message.
    match read_step(&mut ms, vec![0, 4, 0, 1, 0, 3, 9, 9], 4) {
        ReadStep::Close(ReadError::BadMessage(ProtocolError::SmallerThanProtocol)) => {}
        _ => panic!("expected the connection to close"),
    }
}

#[test]
fn take_frame_complete() {
    let mut buffer = Vec::new();
    match take_frame(&mut buffer, vec![0, 4, b'o', b'k']) {
        Response::Complete(p) => assert_eq!(p, b"ok".to_vec()),
        _ => panic!("expected a frame"),
    }
    assert!(buffer.is_empty());
}

#[test]
fn take_frame_waits_for_the_rest() {
    let mut buffer = Vec::new();
    match take_frame(&mut buffer, vec![0, 5, b'o']) {
        Response::Incomplete => {}
        _ => panic!("expected to wait"),
    }
    match take_frame(&mut buffer, vec![b'k', b'!']) {
        Response::Complete(p) => assert_eq!(p, b"ok!".to_vec()),
        _ => panic!("expected the frame"),
    }
}

#[test]
fn take_frame_waits_for_the_size_bytes() {
    let mut buffer = Vec::new();
    assert!(matches!(take_frame(&mut buffer, vec![]), Response::Incomplete));
    assert!(buffer.is_empty());
    assert!(matches!(take_frame(&mut buffer, vec![0]), Response::Incomplete));
    assert_eq!(buffer, vec![0]);
    match take_frame(&mut buffer, vec![4, b'o', b'k']) {
        Response::Complete(p) => assert_eq!(p, b"ok".to_vec()),
        _ => panic!("expected a complete frame"),
    }
    assert!(buffer.is_empty());
}

#[test]
fn take_frame_keeps_what_follows() {
    let mut buffer = Vec::new();
    match take_frame(&mut buffer, vec![0, 3, b'a', 0, 3, b'b']) {
        Response::Pending(p) => assert_eq!(p, b"a".to_vec()),
        _ => panic!("expected the first frame"),
    }
    assert_eq!(buffer, vec![0, 3, b'b']);
}

#[test]
fn read_chunk_collects_bytes() {
    let mut buffer = vec![1u8];
    let chunk = [2u8, 3, 4, 5];
    assert_eq!(read_chunk(&mut buffer, &chunk, ReadOutcome::Bytes(2)), ReadNext::Done);
    assert_eq!(buffer, vec![1, 2, 3]);
    assert_eq!(read_chunk(&mut buffer, &chunk, ReadOutcome::Bytes(4)), ReadNext::Again);
    assert_eq!(buffer, vec![1, 2, 3, 2, 3, 4, 5]);
}

#[test]
fn read_chunk_outcomes() {
    let mut buffer = Vec::new();
    let chunk = vec![0u8; BUFFER_SIZE];
    assert_eq!(read_chunk(&mut buffer, &chunk, ReadOutcome::Bytes(0)), ReadNext::Fail(IoFailure::BrokenPipe));
    assert_eq!(read_chunk(&mut buffer, &chunk, ReadOutcome::WouldBlock), ReadNext::Done);
    assert_eq!(read_chunk(&mut buffer, &chunk, ReadOutcome::Interrupted), ReadNext::Again);
    assert_eq!(read_chunk(&mut buffer, &chunk, ReadOutcome::Failed), ReadNext::Fail(IoFailure::Other));
    assert!(buffer.is_empty());
}

#[test]
fn write_progress_outcomes() {
    assert_eq!(write_progress(0, 10, WriteOutcome::Written(4)), WriteNext::Again(4));
    assert_eq!(write_progress(4, 10, WriteOutcome::Written(6)), WriteNext::Done(10));
    assert_eq!(write_progress(4, 10, WriteOutcome::Written(0)), WriteNext::Fail(IoFailure::BrokenPipe));
    assert_eq!(write_progress(4, 10, WriteOutcome::WouldBlock), WriteNext::Fail(IoFailure::WouldBlock));
    assert_eq!(write_progress(4, 10, WriteOutcome::Interrupted), WriteNext::Again(4));
    assert_eq!(write_progress(4, 10, WriteOutcome::Failed), WriteNext::Fail(IoFailure::Other));
}

#[test]
fn frames_can_be_taken() {
    assert!(can_take_frame(&vec![0], &vec![4]));
    // One byte holds no size yet: it waits for the next read.
    assert!(can_take_frame(&vec![], &vec![9]));
    assert!(can_take_frame(&vec![], &vec![]));
    // A size of 1 is shorter than its own size bytes.
    assert!(!can_take_frame(&vec![0, 1], &vec![7, 7]));
    assert!(can_take_frame(&vec![0, 9], &vec![7]));
}
