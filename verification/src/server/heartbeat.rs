//! The heartbeat of the text server: the connections it watches, when
//! each was last heard from, and which are quiet long enough to be probed.
use vstd::prelude::*;

use crate::store::{Entries, Store};
use crate::text::chars_of;

verus! {

/// The seconds from `last` to `now` (none when the clock went back).
pub open spec fn elapsed(now: u64, last: u64) -> nat {
    if now >= last {
        (now - last) as nat
    } else {
        0
    }
}

/// The addresses, in order, of the connections quiet for more than `secs`.
pub open spec fn quiet_since(e: Entries<u64>, now: u64, secs: u64) -> Seq<Seq<char>>
    decreases e.len(),
{
    if e.len() == 0 {
        Seq::empty()
    } else if elapsed(now, e.last().1) > secs {
        quiet_since(e.drop_last(), now, secs).push(e.last().0)
    } else {
        quiet_since(e.drop_last(), now, secs)
    }
}

pub open spec fn string_views(v: Seq<String>) -> Seq<Seq<char>> {
    v.map_values(|s: String| s@)
}

/// The connections by address, with the second each was last heard from.
pub struct Heartbeat {
    pub conns: Store<u64>,
}

impl Heartbeat {
    pub fn new() -> (h: Heartbeat)
        ensures
            h.conns.wf(),
            h.conns.map() == Map::<Seq<char>, u64>::empty(),
    {
        Heartbeat { conns: Store::new() }
    }

    /// A new connection from `addr`, heard from at `now`; an address that is
    /// already watched keeps its time.
    pub fn add(&mut self, addr: &str, now: u64)
        requires
            old(self).conns.wf(),
        ensures
            final(self).conns.wf(),
            final(self).conns.map() == if old(self).conns.map().contains_key(addr@) {
                old(self).conns.map()
            } else {
                old(self).conns.map().insert(addr@, now)
            },
    {
        let k = chars_of(addr);
        if self.conns.get(k.as_slice()).is_none() {
            self.conns.insert(k, now);
        } else {
            assert(self.conns.map() =~= self.conns.map());
        }
    }

    /// The connection from `addr` was heard from at `now`.
    pub fn touch(&mut self, addr: &str, now: u64)
        requires
            old(self).conns.wf(),
        ensures
            final(self).conns.wf(),
            final(self).conns.map() == if old(self).conns.map().contains_key(addr@) {
                old(self).conns.map().insert(addr@, now)
            } else {
                old(self).conns.map()
            },
    {
        let k = chars_of(addr);
        if self.conns.get(k.as_slice()).is_some() {
            self.conns.insert(k, now);
        }
    }

    /// The addresses, in order, of the connections quiet for more than
    /// `secs` at `now`: those to probe.
    pub fn quiet(&self, now: u64, secs: u64) -> (addrs: Vec<String>)
        requires
            self.conns.wf(),
        ensures
            string_views(addrs@) == quiet_since(self.conns@, now, secs),
    {
        let e = self.conns.pairs();
        let mut addrs: Vec<String> = Vec::new();
        let mut i: usize = 0;
        while i < e.len()
            invariant
                i <= e@.len(),
                crate::store::pair_views(e@) == self.conns@,
                string_views(addrs@) == quiet_since(self.conns@.take(i as int), now, secs),
            decreases e@.len() - i,
        {
            let ghost t = self.conns@.take(i + 1);
            assert(t.drop_last() =~= self.conns@.take(i as int));
            assert(t.last() == self.conns@[i as int]);
            assert(self.conns@[i as int] == (e@[i as int].0@, e@[i as int].1));
            let last = e[i].1;
            let quiet = if now >= last {
                now - last > secs
            } else {
                false
            };
            if quiet {
                let ghost before = addrs@;
                addrs.push(crate::text::string_of(e[i].0.as_slice()));
                assert(string_views(addrs@) =~= string_views(before).push(e@[i as int].0@));
            }
            i = i + 1;
        }
        assert(self.conns@.take(e@.len() as int) =~= self.conns@);
        addrs
    }

    /// Stops watching the connection from `addr` (its probe failed).
    pub fn remove(&mut self, addr: &str)
        requires
            old(self).conns.wf(),
        ensures
            final(self).conns.wf(),
            final(self).conns.map() == old(self).conns.map().remove(addr@),
    {
        let k = chars_of(addr);
        let _ = self.conns.remove(k.as_slice());
    }
}

} // verus!
