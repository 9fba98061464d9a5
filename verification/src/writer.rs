//! Outgoing messages: the orders that the other parts hand to the writer, and
//! the queue of framed messages that each connection sends in turn.
use vstd::prelude::*;

use crate::message::{stamp_header, stamped};

verus! {

/// A message to send: to client `to_id`, stamped with `from_id` and `msg_id`.
pub struct Order {
    pub from_id: usize,
    pub to_id: usize,
    pub msg_id: usize,
    pub data: Vec<u8>,
}

pub struct OrderModel {
    pub from_id: usize,
    pub to_id: usize,
    pub msg_id: usize,
    pub data: Seq<u8>,
}

impl View for Order {
    type V = OrderModel;

    open spec fn view(&self) -> OrderModel {
        OrderModel {
            from_id: self.from_id,
            to_id: self.to_id,
            msg_id: self.msg_id,
            data: self.data@,
        }
    }
}

/// The order of a reply: from and to the same client.
pub open spec fn reply_model(id: usize, msg_id: usize, data: Seq<u8>) -> OrderModel {
    OrderModel { from_id: id, to_id: id, msg_id, data }
}

pub fn reply(id: usize, msg_id: usize, data: Vec<u8>) -> (o: Order)
    ensures
        o@ == reply_model(id, msg_id, data@),
{
    Order { from_id: id, to_id: id, msg_id, data }
}

/// The first message to a new client: an empty message that carries its id,
/// which it must put in every message it sends.
pub fn greeting(id: usize) -> (o: Order)
    ensures
        o@ == reply_model(id, 0, Seq::empty()),
{
    let o = Order { from_id: id, to_id: id, msg_id: 0, data: Vec::new() };
    assert(o@.data =~= Seq::<u8>::empty());
    o
}

/// What the writer is asked to do.
pub enum Action {
    Queue(Order),
    QueueAll(Vec<Order>),
    Write(usize),
}

/// The bytes that an order puts on the wire: its data behind the header.
pub open spec fn framed(o: OrderModel) -> Seq<u8> {
    stamped(o.data, o.from_id as u32, o.msg_id as u32)
}

pub open spec fn frames_view(q: Seq<Vec<u8>>) -> Seq<Seq<u8>> {
    q.map_values(|m: Vec<u8>| m@)
}

/// The framed messages that wait to be written to one connection, first in
/// first out.
pub struct SendQueue {
    queue: Vec<Vec<u8>>,
}

impl View for SendQueue {
    type V = Seq<Seq<u8>>;

    closed spec fn view(&self) -> Seq<Seq<u8>> {
        frames_view(self.queue@)
    }
}

impl SendQueue {
    pub fn new() -> (q: SendQueue)
        ensures
            q@ == Seq::<Seq<u8>>::empty(),
    {
        let q = SendQueue { queue: Vec::new() };
        assert(q@ =~= Seq::<Seq<u8>>::empty());
        q
    }

    pub fn is_empty(&self) -> (b: bool)
        ensures
            b == (self@.len() == 0),
    {
        self.queue.len() == 0
    }

    pub fn len(&self) -> (n: usize)
        ensures
            n == self@.len(),
    {
        self.queue.len()
    }

    /// Stamps an order with its header and puts it at the back.
    pub fn push_order(&mut self, order: Order)
        requires
            order.data@.len() + 6 <= usize::MAX,
        ensures
            final(self)@ == old(self)@.push(framed(order@)),
    {
        let ghost o = order@;
        let message = stamp_header(order.data, order.from_id as u32, order.msg_id as u32);
        let ghost before = self.queue@;
        self.queue.push(message);
        assert(self@ =~= frames_view(before).push(framed(o)));
    }

    /// Takes the message at the front.
    pub fn pop_front(&mut self) -> (m: Option<Vec<u8>>)
        ensures
            match m {
                Some(m) => old(self)@.len() > 0 && m@ == old(self)@[0] && final(self)@ == old(self)@.drop_first(),
                None => old(self)@.len() == 0 && final(self)@ == old(self)@,
            },
    {
        if self.queue.len() == 0 {
            return None;
        }
        let ghost before = self.queue@;
        let m = self.queue.remove(0);
        assert(self@ =~= frames_view(before).drop_first());
        Some(m)
    }
}

/// What the writer does with a connection after a write event.
#[derive(PartialEq, Eq, Structural, Debug, Clone, Copy)]
pub enum AfterWrite {
    /// The connection is closed: hand it to the cleaner.
    Drop,
    /// More is queued: wait until the socket is writable again.
    PollWrite,
    /// Nothing is left: stop waiting for writability.
    PollClean,
}

pub fn after_write(closed: bool, queue_empty: bool) -> (next: AfterWrite)
    ensures
        next == (if closed {
            AfterWrite::Drop
        } else if !queue_empty {
            AfterWrite::PollWrite
        } else {
            AfterWrite::PollClean
        }),
{
    if closed {
        AfterWrite::Drop
    } else if !queue_empty {
        AfterWrite::PollWrite
    } else {
        AfterWrite::PollClean
    }
}

/// Messages leave a queue in the order they were queued: after queueing an
/// order, the queue is the old one with that order's frame at the back, and
/// the front stays the front.
pub proof fn law_queue_fifo(q: Seq<Seq<u8>>, o: OrderModel)
    ensures
        q.push(framed(o)).len() == q.len() + 1,
        q.push(framed(o))[q.len() as int] == framed(o),
        q.len() > 0 ==> q.push(framed(o))[0] == q[0] && q.push(framed(o)).drop_first() == q.drop_first().push(framed(o)),
        q.len() == 0 ==> q.push(framed(o)).drop_first() == q,
{
    if q.len() > 0 {
        assert(q.push(framed(o)).drop_first() =~= q.drop_first().push(framed(o)));
    } else {
        assert(q.push(framed(o)).drop_first() =~= q);
    }
}

} // verus!
