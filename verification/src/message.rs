//! The client protocol: a 6-byte header (client id, message id and the size of
//! the whole message, 2 big-endian bytes each) followed by at most 65529 bytes
//! of data.
use vstd::prelude::*;

use crate::protocol::{be16, high_byte, lemma_be16_of_bytes, low_byte};

verus! {

/// Why a chunk of bytes is not a message of the protocol.
#[derive(Debug, Clone, Copy, PartialEq, Eq, Structural)]
pub enum ProtocolError {
    /// Fewer than the 6 bytes of the header.
    SmallerThanProtocol,
    /// More than the 65535 bytes that the 2 size bytes can count.
    BiggerThanProtocol,
}

/// What feeding bytes to [`Messages`] gives back.
pub enum Received {
    /// No complete message yet.
    Incomplete,
    /// Exactly one complete message, and nothing left over.
    Complete(Vec<u8>),
    /// One complete message, and more bytes left in the buffer.
    Pending(Vec<u8>),
    /// The buffer was discarded.
    Error(ProtocolError),
}

/// The mathematical value of a [`Received`].
pub enum ReceivedModel {
    Incomplete,
    Complete(Seq<u8>),
    Pending(Seq<u8>),
    Error(ProtocolError),
}

impl View for Received {
    type V = ReceivedModel;

    open spec fn view(&self) -> ReceivedModel {
        match self {
            Received::Incomplete => ReceivedModel::Incomplete,
            Received::Complete(v) => ReceivedModel::Complete(v@),
            Received::Pending(v) => ReceivedModel::Pending(v@),
            Received::Error(e) => ReceivedModel::Error(*e),
        }
    }
}

/// A message of the protocol, its header decoded.
pub struct Message {
    pub from: u32,
    pub id: u32,
    pub size: u32,
    pub data: Vec<u8>,
}

/// The mathematical value of a [`Message`].
pub struct MessageModel {
    pub from: u32,
    pub id: u32,
    pub size: u32,
    pub data: Seq<u8>,
}

impl View for Message {
    type V = MessageModel;

    open spec fn view(&self) -> MessageModel {
        MessageModel { from: self.from, id: self.id, size: self.size, data: self.data@ }
    }
}

/// The 6 header bytes of a message: client id, message id and size, each
/// reduced modulo 2^16 and written big-endian.
pub open spec fn header(from: u32, id: u32, size: u32) -> Seq<u8> {
    seq![
        high_byte(from as int),
        low_byte(from as int),
        high_byte(id as int),
        low_byte(id as int),
        high_byte(size as int),
        low_byte(size as int),
    ]
}

/// The message that `stamp_header` builds from a payload.
pub open spec fn stamped(data: Seq<u8>, from: u32, id: u32) -> Seq<u8> {
    header(from, id, (data.len() + 6) as u32) + data
}

/// What `Message::from_protocol` makes of a chunk of bytes.
pub open spec fn decode(bytes: Seq<u8>) -> Result<MessageModel, ProtocolError> {
    if bytes.len() < 6 {
        Err(ProtocolError::SmallerThanProtocol)
    } else if bytes.len() > 65535 {
        Err(ProtocolError::BiggerThanProtocol)
    } else {
        Ok(
            MessageModel {
                from: be16(bytes[0], bytes[1]) as u32,
                id: be16(bytes[2], bytes[3]) as u32,
                size: be16(bytes[4], bytes[5]) as u32,
                data: bytes.subrange(6, bytes.len() as int),
            },
        )
    }
}

/// One call of `Messages::feed`: the buffer before, the bytes fed; the buffer
/// after and what is given back. The length is taken modulo 2^32, as a `u32`.
pub open spec fn feed_step(buffer: Seq<u8>, data: Seq<u8>) -> (Seq<u8>, ReceivedModel) {
    let all = buffer + data;
    let len = all.len() as u32;
    if len < 6 {
        (Seq::empty(), ReceivedModel::Error(ProtocolError::SmallerThanProtocol))
    } else if len > 65535 {
        (Seq::empty(), ReceivedModel::Error(ProtocolError::BiggerThanProtocol))
    } else {
        let size = be16(all[4], all[5]);
        if size == len {
            (Seq::empty(), ReceivedModel::Complete(all))
        } else if size < len {
            (all.subrange(size, all.len() as int), ReceivedModel::Pending(all.subrange(0, size)))
        } else {
            (all, ReceivedModel::Incomplete)
        }
    }
}

impl Message {
    /// Splits the 6 header bytes off a complete message.
    pub fn from_protocol(data: Vec<u8>) -> (result: Result<Message, ProtocolError>)
        ensures
            match (result, decode(data@)) {
                (Ok(m), Ok(d)) => m@ == d,
                (Err(e), Err(d)) => e == d,
                _ => false,
            },
    {
        if data.len() < 6 {
            return Err(smaller_size_than_protocol());
        }
        if data.len() > 65535 {
            return Err(bigger_size_than_protocol());
        }
        let from = get_u32(&data.as_slice()[0..2]);
        let id = get_u32(&data.as_slice()[2..4]);
        let size = get_u32(&data.as_slice()[4..6]);
        let mut data = data;
        let rest = data.split_off(6);
        Ok(Message { from, id, size, data: rest })
    }
}

/// A buffer that turns a stream of bytes into the messages of the protocol.
pub struct Messages {
    buffer: Vec<u8>,
}

impl View for Messages {
    type V = Seq<u8>;

    closed spec fn view(&self) -> Seq<u8> {
        self.buffer@
    }
}

impl Messages {
    pub fn new() -> (messages: Messages)
        ensures
            messages@ == Seq::<u8>::empty(),
    {
        Messages { buffer: Vec::new() }
    }

    /// Appends the data acting like a buffer to return complete messages
    /// assumming is part of the protocol. You need to call this function in a
    /// loop and retry when Received::Pending is returned.
    pub fn feed(&mut self, data: Vec<u8>) -> (received: Received)
        ensures
            (final(self)@, received@) == feed_step(old(self)@, data@),
    {
        let ghost all = self.buffer@ + data@;
        let mut data = data;
        self.buffer.append(&mut data);
        assert(self.buffer@ == all);
        let buffer_len = self.buffer.len() as u32;

        if buffer_len < 6 {
            self.buffer.clear();
            return Received::Error(smaller_size_than_protocol());
        }
        if buffer_len > 65535 {
            self.buffer.clear();
            return Received::Error(bigger_size_than_protocol());
        }

        // The bytes representing the message size.
        let size = get_u32(&self.buffer.as_slice()[4..6]);
        if size == buffer_len {
            // The message is complete, just send it.
            let mut result: Vec<u8> = Vec::new();
            std::mem::swap(&mut result, &mut self.buffer);
            Received::Complete(result)
        } else if size < buffer_len {
            // More than one message: send the first part, keep the rest.
            let len = self.buffer.len();
            assert((len as u32) as usize <= len) by (bit_vector);
            let mut result = self.buffer.split_off(size as usize);
            std::mem::swap(&mut result, &mut self.buffer);
            Received::Pending(result)
        } else {
            // Wait for the rest of the message.
            Received::Incomplete
        }
    }
}

/// The big-endian number in the first two bytes.
pub fn get_u32(bytes: &[u8]) -> (n: u32)
    requires
        bytes@.len() >= 2,
    ensures
        n == be16(bytes@[0], bytes@[1]),
{
    let hi = bytes[0] as u32;
    let lo = bytes[1] as u32;
    assert((hi << 8u32) | lo == hi * 256 + lo) by (bit_vector)
        requires
            hi < 256,
            lo < 256,
    ;
    (hi << 8u32) | lo
}

fn byte_pair(x: u32) -> (pair: (u8, u8))
    ensures
        pair.0 == high_byte(x as int),
        pair.1 == low_byte(x as int),
{
    let hi = ((x & 0xFF00u32) >> 8u32) as u8;
    let lo = (x & 0x00FFu32) as u8;
    assert(hi == ((x / 256) % 256) as u8 && lo == (x % 256) as u8) by (bit_vector)
        requires
            hi == ((x & 0xFF00u32) >> 8u32) as u8,
            lo == (x & 0x00FFu32) as u8,
    ;
    (hi, lo)
}

/// Protocol: Client id, message id and full size, 2 bytes each, as the first
/// 6 bytes of the message.
fn get_header(from: u32, id: u32, size: u32) -> (h: [u8; 6])
    ensures
        h@ == header(from, id, size),
{
    let (byte0, byte1) = byte_pair(from);
    let (byte2, byte3) = byte_pair(id);
    let (byte4, byte5) = byte_pair(size);
    let h = [byte0, byte1, byte2, byte3, byte4, byte5];
    assert(h@ =~= header(from, id, size));
    h
}

/// Puts the header in front of the data.
pub fn stamp_header(bytes: Vec<u8>, from: u32, id: u32) -> (message: Vec<u8>)
    requires
        bytes@.len() + 6 <= usize::MAX,
    ensures
        message@ == stamped(bytes@, from, id),
{
    let size = (bytes.len() + 6) as u32;
    let h = get_header(from, id, size);
    let mut message: Vec<u8> = Vec::new();
    let mut i: usize = 0;
    while i < 6
        invariant
            0 <= i <= 6,
            h@ == header(from, id, size),
            message@ == h@.subrange(0, i as int),
        decreases 6 - i,
    {
        message.push(h[i]);
        i = i + 1;
    }
    let mut rest = bytes;
    message.append(&mut rest);
    assert(message@ =~= stamped(bytes@, from, id));
    message
}

fn smaller_size_than_protocol() -> (e: ProtocolError)
    ensures
        e == ProtocolError::SmallerThanProtocol,
{
    ProtocolError::SmallerThanProtocol
}

fn bigger_size_than_protocol() -> (e: ProtocolError)
    ensures
        e == ProtocolError::BiggerThanProtocol,
{
    ProtocolError::BiggerThanProtocol
}

/// A message stamped with a header decodes to its client id and message id
/// (modulo 2^16), its full size and its data, as long as it fits the protocol.
pub proof fn law_stamp_then_decode(data: Seq<u8>, from: u32, id: u32)
    requires
        data.len() + 6 <= 65535,
    ensures
        decode(stamped(data, from, id)) == Ok::<MessageModel, ProtocolError>(
            MessageModel {
                from: (from % 65536) as u32,
                id: (id % 65536) as u32,
                size: (data.len() + 6) as u32,
                data,
            },
        ),
{
    let s = stamped(data, from, id);
    lemma_be16_of_bytes(from as int);
    lemma_be16_of_bytes(id as int);
    lemma_be16_of_bytes(data.len() + 6int);
    assert(s.subrange(6, s.len() as int) =~= data);
}

/// A whole message fed to an empty buffer comes back complete, and leaves the
/// buffer empty.
pub proof fn law_feed_whole_message(data: Seq<u8>, from: u32, id: u32)
    requires
        data.len() + 6 <= 65535,
    ensures
        feed_step(Seq::empty(), stamped(data, from, id)) == (
            Seq::<u8>::empty(),
            ReceivedModel::Complete(stamped(data, from, id)),
        ),
{
    lemma_be16_of_bytes(data.len() + 6int);
    assert(Seq::<u8>::empty() + stamped(data, from, id) =~= stamped(data, from, id));
}

/// Two whole messages that arrive in one read come out one after the other:
/// the first as pending, the second on the next feed, even with no new bytes.
pub proof fn law_feed_two_messages(m1: Seq<u8>, f1: u32, i1: u32, m2: Seq<u8>, f2: u32, i2: u32)
    requires
        m1.len() + 6 + m2.len() + 6 <= 65535,
    ensures
        ({
            let first = stamped(m1, f1, i1);
            let second = stamped(m2, f2, i2);
            &&& feed_step(Seq::empty(), first + second) == (second, ReceivedModel::Pending(first))
            &&& feed_step(second, Seq::empty()) == (
                Seq::<u8>::empty(),
                ReceivedModel::Complete(second),
            )
        }),
{
    let first = stamped(m1, f1, i1);
    let second = stamped(m2, f2, i2);
    lemma_be16_of_bytes(m1.len() + 6int);
    lemma_be16_of_bytes(m2.len() + 6int);
    let all = Seq::<u8>::empty() + (first + second);
    assert(all =~= first + second);
    assert(all[4] == first[4] && all[5] == first[5]);
    assert(all.subrange(0, first.len() as int) =~= first);
    assert(all.subrange(first.len() as int, all.len() as int) =~= second);
    assert(second + Seq::<u8>::empty() =~= second);
}

} // verus!
