//! The heartbeat's decisions: which readers hang on an unfinished message for
//! too long, and which writers have been quiet long enough to need a ping.
use vstd::prelude::*;

use crate::writer::{Order, OrderModel};

verus! {

/// The seconds that a reader may wait on an unfinished message.
pub const TIMEOUT_30: u64 = 30;

/// The seconds of silence after which a writer gets a ping.
pub const TIMEOUT_60: u64 = 60;

/// A reader as the heartbeat sees it: its id, whether a message is pending,
/// and the seconds since its last read.
pub struct ReaderState {
    pub id: usize,
    pub pending_read: bool,
    pub idle_secs: u64,
}

/// A writer as the heartbeat sees it: its id and the seconds since its last
/// write.
pub struct WriterState {
    pub id: usize,
    pub idle_secs: u64,
}

pub open spec fn idle_reader(r: ReaderState) -> bool {
    r.pending_read && r.idle_secs > TIMEOUT_30
}

/// The readers to shut down, in order.
pub open spec fn idle_readers(rs: Seq<ReaderState>) -> Seq<usize>
    decreases rs.len(),
{
    if rs.len() == 0 {
        Seq::empty()
    } else if idle_reader(rs.last()) {
        idle_readers(rs.drop_last()).push(rs.last().id)
    } else {
        idle_readers(rs.drop_last())
    }
}

/// The pings: an empty message from the server (id 0) to each quiet writer.
pub open spec fn pings(ws: Seq<WriterState>) -> Seq<OrderModel>
    decreases ws.len(),
{
    if ws.len() == 0 {
        Seq::empty()
    } else if ws.last().idle_secs > TIMEOUT_60 {
        pings(ws.drop_last()).push(OrderModel { from_id: 0, to_id: ws.last().id, msg_id: 0, data: Seq::empty() })
    } else {
        pings(ws.drop_last())
    }
}

/// The readers that wait on an unfinished message for more than 30 seconds.
pub fn drop_idle_readers(readers: &[ReaderState]) -> (ids: Vec<usize>)
    ensures
        ids@ == idle_readers(readers@),
{
    let mut ids: Vec<usize> = Vec::new();
    let mut i: usize = 0;
    while i < readers.len()
        invariant
            i <= readers@.len(),
            ids@ == idle_readers(readers@.take(i as int)),
        decreases readers@.len() - i,
    {
        assert(readers@.take(i + 1).drop_last() =~= readers@.take(i as int));
        let r = &readers[i];
        if r.pending_read && r.idle_secs > TIMEOUT_30 {
            ids.push(r.id);
        }
        i = i + 1;
    }
    assert(readers@.take(readers@.len() as int) =~= readers@);
    ids
}

pub open spec fn order_views(v: Seq<Order>) -> Seq<OrderModel> {
    v.map_values(|o: Order| o@)
}

/// A ping for each writer quiet for more than 60 seconds.
pub fn ping_idle_writers(writers: &[WriterState]) -> (messages: Vec<Order>)
    ensures
        order_views(messages@) == pings(writers@),
{
    let mut messages: Vec<Order> = Vec::new();
    let mut i: usize = 0;
    while i < writers.len()
        invariant
            i <= writers@.len(),
            order_views(messages@) == pings(writers@.take(i as int)),
        decreases writers@.len() - i,
    {
        assert(writers@.take(i + 1).drop_last() =~= writers@.take(i as int));
        let w = &writers[i];
        if w.idle_secs > TIMEOUT_60 {
            let ghost before = messages@;
            messages.push(Order { from_id: 0, to_id: w.id, msg_id: 0, data: Vec::new() });
            assert(order_views(messages@) =~= order_views(before).push(
                OrderModel { from_id: 0, to_id: w.id, msg_id: 0, data: Seq::empty() },
            ));
        }
        i = i + 1;
    }
    assert(writers@.take(writers@.len() as int) =~= writers@);
    messages
}

} // verus!
