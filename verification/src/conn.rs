//! Size-prefixed frames on a connection: two big-endian size bytes (the size of
//! the whole frame) and then the payload.
use vstd::prelude::*;

use crate::protocol::be16;

verus! {

/// What reading from a connection gives back.
pub enum Response {
    /// No complete frame yet.
    Incomplete,
    /// The payload of the one complete frame that was buffered.
    Complete(Vec<u8>),
    /// The payload of a complete frame; more bytes wait in the buffer.
    Pending(Vec<u8>),
}

pub enum ResponseModel {
    Incomplete,
    Complete(Seq<u8>),
    Pending(Seq<u8>),
}

impl View for Response {
    type V = ResponseModel;

    open spec fn view(&self) -> ResponseModel {
        match self {
            Response::Incomplete => ResponseModel::Incomplete,
            Response::Complete(v) => ResponseModel::Complete(v@),
            Response::Pending(v) => ResponseModel::Pending(v@),
        }
    }
}

/// The buffer after a read and what it gives back. Fewer than two bytes hold
/// no size yet: they stay buffered for the next read. The length is compared
/// with the size modulo 2^32, as a `u32`.
pub open spec fn frame_step(buffer: Seq<u8>, received: Seq<u8>) -> (Seq<u8>, ResponseModel) {
    let all = buffer + received;
    if all.len() < 2 {
        (all, ResponseModel::Incomplete)
    } else {
        let size = be16(all[0], all[1]);
        let len = all.len() % 0x1_0000_0000;
        if size == len {
            (Seq::empty(), ResponseModel::Complete(all.subrange(2, all.len() as int)))
        } else if size < len {
            (all.subrange(size as int, all.len() as int), ResponseModel::Pending(all.subrange(2, size as int)))
        } else {
            (all, ResponseModel::Incomplete)
        }
    }
}

/// A frame shorter than the buffer holds its own size bytes (they are read,
/// then cut off).
pub open spec fn frame_ready(buffer: Seq<u8>, received: Seq<u8>) -> bool {
    let all = buffer + received;
    all.len() >= 2 && be16(all[0], all[1]) < all.len() % 0x1_0000_0000 ==> be16(all[0], all[1]) >= 2
}

/// Whether a read can be taken: see `frame_ready`.
pub fn can_take_frame(buffer: &Vec<u8>, received: &Vec<u8>) -> (b: bool)
    ensures
        b == frame_ready(buffer@, received@),
{
    let mut all = vstd::slice::slice_to_vec(buffer.as_slice());
    let mut more = vstd::slice::slice_to_vec(received.as_slice());
    all.append(&mut more);
    if all.len() < 2 {
        return true;
    }
    let size = crate::protocol::get_size(all.as_slice());
    let len32 = ((all.len() as u64) % 0x1_0000_0000u64) as u32;
    !(size < len32) || size >= 2
}

/// Appends the bytes read to the buffer and takes out the complete frame at
/// its front, even if it needed more than one read.
pub fn take_frame(buffer: &mut Vec<u8>, received: Vec<u8>) -> (r: Response)
    requires
        frame_ready(old(buffer)@, received@),
    ensures
        (final(buffer)@, r@) == frame_step(old(buffer)@, received@),
{
    let ghost all = buffer@ + received@;
    let mut received = received;
    buffer.append(&mut received);
    assert(buffer@ == all);
    if buffer.len() < 2 {
        return Response::Incomplete;
    }
    let hi = buffer[0] as u32;
    let lo = buffer[1] as u32;
    assert((hi << 8u32) | lo == hi * 256 + lo) by (bit_vector)
        requires
            hi < 256,
            lo < 256,
    ;
    let size = (hi << 8u32) | lo;
    let len = buffer.len();
    let buffer_len = ((len as u64) % 0x1_0000_0000u64) as u32;
    if size == buffer_len {
        let mut whole: Vec<u8> = Vec::new();
        std::mem::swap(&mut whole, buffer);
        let ghost w = whole@;
        let result = whole.split_off(2);
        assert(result@ =~= all.subrange(2, all.len() as int));
        Response::Complete(result)
    } else if size < buffer_len {
        let mut first = buffer.split_off(size as usize);
        std::mem::swap(&mut first, buffer);
        let result = first.split_off(2);
        assert(result@ =~= all.subrange(2, size as int));
        Response::Pending(result)
    } else {
        Response::Incomplete
    }
}

} // verus!
