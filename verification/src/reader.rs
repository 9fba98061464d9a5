//! What the reader decides when bytes arrive from a client: the messages to
//! parse and when to close the connection.
use vstd::prelude::*;

use crate::message::{decode, feed_step, stamped, Message, MessageModel, Messages, ProtocolError, Received, ReceivedModel};

verus! {

/// Why a connection is closed while reading.
#[derive(PartialEq, Eq, Structural, Debug, Clone, Copy)]
pub enum ReadError {
    /// The buffered bytes do not fit the protocol.
    Feed(ProtocolError),
    /// A complete chunk is not a message of the protocol.
    BadMessage(ProtocolError),
    /// The message carries another client's id (the value is its message id).
    WrongClient(u32),
}

/// What to do after feeding read bytes to a client's buffer.
pub enum ReadStep {
    /// No complete message: stop reading for now.
    Stop,
    /// A message to parse; `true` when more bytes wait in the buffer.
    Deliver(Message, bool),
    /// Close the connection.
    Close(ReadError),
}

pub enum ReadStepModel {
    Stop,
    Deliver(MessageModel, bool),
    Close(ReadError),
}

impl View for ReadStep {
    type V = ReadStepModel;

    open spec fn view(&self) -> ReadStepModel {
        match self {
            ReadStep::Stop => ReadStepModel::Stop,
            ReadStep::Deliver(m, p) => ReadStepModel::Deliver(m@, *p),
            ReadStep::Close(e) => ReadStepModel::Close(*e),
        }
    }
}

/// The step for a complete chunk: its message, unless it is not one or it
/// is from another client.
pub open spec fn chunk_step(chunk: Seq<u8>, pending: bool, id: usize) -> ReadStepModel {
    match decode(chunk) {
        Ok(m) => if m.from != id as u32 {
            ReadStepModel::Close(ReadError::WrongClient(m.id))
        } else {
            ReadStepModel::Deliver(m, pending)
        },
        Err(e) => ReadStepModel::Close(ReadError::BadMessage(e)),
    }
}

pub open spec fn read_step_spec(r: ReceivedModel, id: usize) -> ReadStepModel {
    match r {
        ReceivedModel::Incomplete => ReadStepModel::Stop,
        ReceivedModel::Complete(c) => chunk_step(c, false, id),
        ReceivedModel::Pending(c) => chunk_step(c, true, id),
        ReceivedModel::Error(e) => ReadStepModel::Close(ReadError::Feed(e)),
    }
}

/// Feeds bytes read from client `id` and decides what comes next.
pub fn read_step(messages: &mut Messages, data: Vec<u8>, id: usize) -> (step: ReadStep)
    ensures
        final(messages)@ == feed_step(old(messages)@, data@).0,
        step@ == read_step_spec(feed_step(old(messages)@, data@).1, id),
{
    let (received, pending) = match messages.feed(data) {
        Received::Incomplete => return ReadStep::Stop,
        Received::Complete(received) => (received, false),
        Received::Pending(received) => (received, true),
        Received::Error(err) => return ReadStep::Close(ReadError::Feed(err)),
    };
    match Message::from_protocol(received) {
        Ok(message) => {
            if message.from != id as u32 {
                let mid = message.id;
                ReadStep::Close(ReadError::WrongClient(mid))
            } else {
                ReadStep::Deliver(message, pending)
            }
        },
        Err(err) => ReadStep::Close(ReadError::BadMessage(err)),
    }
}

/// A client puts its own id in every message: what it sends with its id,
/// stamped by the protocol, reaches the parser whole; the same message with
/// another client's id closes the connection.
pub proof fn law_messages_carry_the_client_id(data: Seq<u8>, id: usize, msg: u32, other: u32)
    requires
        data.len() + 6 <= 65535,
        id < 65536,
        other < 65536,
        other != id,
    ensures
        read_step_spec(feed_step(Seq::empty(), stamped(data, id as u32, msg)).1, id) == ReadStepModel::Deliver(
            MessageModel { from: id as u32, id: (msg % 65536) as u32, size: (data.len() + 6) as u32, data },
            false,
        ),
        read_step_spec(feed_step(Seq::empty(), stamped(data, other, msg)).1, id) == ReadStepModel::Close(
            ReadError::WrongClient((msg % 65536) as u32),
        ),
{
    crate::message::law_feed_whole_message(data, id as u32, msg);
    crate::message::law_stamp_then_decode(data, id as u32, msg);
    crate::message::law_feed_whole_message(data, other, msg);
    crate::message::law_stamp_then_decode(data, other, msg);
}

} // verus!
