//! Client ids: a connection gets a free id, and a dropped connection gives
//! its id back for reuse.
use vstd::prelude::*;

use std::collections::VecDeque;

verus! {

/// The ids of clients: those given back wait in a queue for reuse; past them
/// the next new id. Id 0 belongs to the server.
pub struct IdPool {
    free: VecDeque<usize>,
    next: usize,
}

impl IdPool {
    pub closed spec fn free(&self) -> Seq<usize> {
        self.free@
    }

    pub closed spec fn next(&self) -> nat {
        self.next as nat
    }

    /// An id is in use: it was given out and not given back.
    pub open spec fn in_use(&self, id: int) -> bool {
        1 <= id < self.next() && !self.free().contains(id as usize)
    }

    pub open spec fn wf(&self) -> bool {
        &&& 1 <= self.next()
        &&& self.free().no_duplicates()
        &&& forall|i: int| 0 <= i < self.free().len() ==> 1 <= #[trigger] self.free()[i] < self.next()
    }

    pub fn new() -> (p: IdPool)
        ensures
            p.wf(),
            p.free() == Seq::<usize>::empty(),
            p.next() == 1,
    {
        IdPool { free: VecDeque::new(), next: 1 }
    }

    /// Whether an id can be handed out without running past `usize::MAX`.
    pub fn can_allocate(&self) -> (b: bool)
        ensures
            b == (self.free().len() > 0 || self.next() < usize::MAX),
    {
        self.free.len() > 0 || self.next < usize::MAX
    }

    /// Reusing ids: the oldest id given back, else a new one.
    pub fn allocate(&mut self) -> (id: usize)
        requires
            old(self).wf(),
            old(self).free().len() > 0 || old(self).next() < usize::MAX,
        ensures
            final(self).wf(),
            old(self).free().len() > 0 ==> id == old(self).free()[0] && final(self).free()
                == old(self).free().drop_first() && final(self).next() == old(self).next(),
            old(self).free().len() == 0 ==> id == old(self).next() && final(self).free()
                == old(self).free() && final(self).next() == old(self).next() + 1,
    {
        match self.free.pop_front() {
            Some(id) => {
                assert(self.free@ =~= old(self).free@.drop_first());
                id
            },
            None => {
                let id = self.next;
                self.next = self.next + 1;
                id
            },
        }
    }

    pub fn is_in_use(&self, id: usize) -> (b: bool)
        ensures
            b == self.in_use(id as int),
    {
        if id < 1 || id >= self.next {
            return false;
        }
        let mut i: usize = 0;
        while i < self.free.len()
            invariant
                i <= self.free@.len(),
                forall|j: int| 0 <= j < i ==> self.free@[j] != id,
            decreases self.free@.len() - i,
        {
            if self.free[i] == id {
                assert(self.free@[i as int] == id);
                return false;
            }
            i = i + 1;
        }
        true
    }

    /// Gives an id back for reuse.
    pub fn release(&mut self, id: usize)
        requires
            old(self).wf(),
            old(self).in_use(id as int),
        ensures
            final(self).wf(),
            final(self).free() == old(self).free().push(id),
            final(self).next() == old(self).next(),
    {
        self.free.push_back(id);
        assert forall|i: int, j: int| 0 <= i < j < self.free@.len() implies self.free@[i] != self.free@[j] by {
            if j == self.free@.len() - 1 {
                assert(old(self).free@.contains(self.free@[i]) ==> self.free@[i] != id);
                assert(self.free@[i] == old(self).free@[i]);
            }
        }
    }

    /// Forgets a dropped connection, given whether a reader was registered
    /// under its id: then its id goes back for reuse, and the answer says to
    /// unsubscribe it from every key. Without a reader (the connection was
    /// already forgotten) nothing changes. A registered reader holds an id
    /// that was handed out and not given back.
    pub fn drop_connection(&mut self, id: usize, had_reader: bool) -> (unsubscribe: bool)
        requires
            old(self).wf(),
            had_reader ==> old(self).in_use(id as int),
        ensures
            final(self).wf(),
            unsubscribe == had_reader,
            final(self).next() == old(self).next(),
            final(self).free() == drop_spec(old(self).free(), id, had_reader),
            had_reader ==> !final(self).in_use(id as int),
            forall|x: int| x != id ==> (old(self).in_use(x) <==> #[trigger] final(self).in_use(x)),
    {
        if had_reader {
            self.release(id);
            assert(self.free()[self.free().len() - 1] == id);
            assert forall|x: int| x != id implies (old(self).in_use(x) <==> #[trigger] self.in_use(x)) by {
                if old(self).free().contains(x as usize) {
                    let j = choose|j: int| 0 <= j < old(self).free().len() && old(self).free()[j] == x as usize;
                    assert(self.free()[j] == x as usize);
                }
                if 1 <= x < self.next() && self.free().contains(x as usize) {
                    let j = choose|j: int| 0 <= j < self.free().len() && self.free()[j] == x as usize;
                    assert(j < old(self).free().len());
                    assert(old(self).free()[j] == x as usize);
                }
            }
        }
        had_reader
    }
}

/// The ids waiting for reuse after a connection is dropped: its id joins
/// them when a reader was registered under it.
pub open spec fn drop_spec(free: Seq<usize>, id: usize, had_reader: bool) -> Seq<usize> {
    if had_reader {
        free.push(id)
    } else {
        free
    }
}

/// Dropping the same connection twice never queues its id twice: after the
/// first drop gave the id back, it is not in use, so no reader can hold it
/// for the second.
pub proof fn law_drop_twice(p0: IdPool, p1: IdPool, p2: IdPool, id: usize, r1: bool, r2: bool)
    requires
        p0.wf(),
        r1 ==> p0.in_use(id as int),
        p1.free() == drop_spec(p0.free(), id, r1),
        p1.next() == p0.next(),
        r2 ==> p1.in_use(id as int),
        p2.free() == drop_spec(p1.free(), id, r2),
    ensures
        p2.free().no_duplicates(),
        !(r1 && r2),
        p2.free() == drop_spec(p0.free(), id, r1 || r2),
{
    if r1 {
        assert(p1.free()[p1.free().len() - 1] == id);
        assert(p1.free().contains(id));
        assert forall|i: int, j: int| 0 <= i < j < p2.free().len() implies p2.free()[i] != p2.free()[j] by {
            if j == p2.free().len() - 1 {
                assert(p0.free().contains(p2.free()[i]) ==> p2.free()[i] != id);
                assert(p2.free()[i] == p0.free()[i]);
            }
        }
    } else if r2 {
        assert forall|i: int, j: int| 0 <= i < j < p2.free().len() implies p2.free()[i] != p2.free()[j] by {
            if j == p2.free().len() - 1 {
                assert(p0.free().contains(p2.free()[i]) ==> p2.free()[i] != id);
                assert(p2.free()[i] == p0.free()[i]);
            }
        }
    }
}

/// A new id was not in use, and afterwards it is; no other id changes.
pub proof fn law_allocate_fresh(before: IdPool, after: IdPool, id: usize)
    requires
        before.wf(),
        before.free().len() > 0 || before.next() < usize::MAX,
        before.free().len() > 0 ==> id == before.free()[0] && after.free() == before.free().drop_first()
            && after.next() == before.next(),
        before.free().len() == 0 ==> id == before.next() && after.free() == before.free()
            && after.next() == before.next() + 1,
    ensures
        !before.in_use(id as int),
        after.in_use(id as int),
        forall|x: int| x != id ==> (before.in_use(x) <==> after.in_use(x)),
{
    if before.free().len() > 0 {
        assert(before.free().contains(id));
        assert(!after.free().contains(id)) by {
            if after.free().contains(id) {
                let j = choose|j: int| 0 <= j < after.free().len() && after.free()[j] == id;
                assert(before.free()[j + 1] == id);
                assert(before.free()[0] == id);
            }
        }
        assert forall|x: int| x != id implies (before.in_use(x) <==> after.in_use(x)) by {
            if 1 <= x < before.next() {
                if before.free().contains(x as usize) {
                    let j = choose|j: int| 0 <= j < before.free().len() && before.free()[j] == x as usize;
                    assert(j != 0);
                    assert(after.free()[j - 1] == x as usize);
                }
                if after.free().contains(x as usize) {
                    let j = choose|j: int| 0 <= j < after.free().len() && after.free()[j] == x as usize;
                    assert(before.free()[j + 1] == x as usize);
                }
            }
        }
    } else {
        assert(!before.free().contains(id));
    }
}

} // verus!
