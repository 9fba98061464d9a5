//! How a connection reads everything that is waiting on its socket and
//! writes a whole message: what each socket call's outcome leads to.
use vstd::prelude::*;

verus! {

/// The size of one read from the socket.
pub const BUFFER_SIZE: usize = 4096;

/// What one read from the socket gave.
pub enum ReadOutcome {
    /// This many bytes (none means the other side is done).
    Bytes(usize),
    WouldBlock,
    Interrupted,
    /// Any other error.
    Failed,
}

/// Why a read or a write fails.
#[derive(PartialEq, Eq, Structural, Debug, Clone, Copy)]
pub enum IoFailure {
    /// The other side closed the connection.
    BrokenPipe,
    /// The socket cannot take more now.
    WouldBlock,
    /// The socket reported another error.
    Other,
}

/// What the read loop does next.
#[derive(PartialEq, Eq, Structural, Debug, Clone, Copy)]
pub enum ReadNext {
    /// Read again.
    Again,
    /// All that was waiting has been read.
    Done,
    Fail(IoFailure),
}

/// The next step of the read loop after an outcome, for a chunk of
/// `chunk_len` bytes: a full chunk may be followed by more.
pub open spec fn read_next(got: ReadOutcome, chunk_len: nat) -> ReadNext {
    match got {
        ReadOutcome::Bytes(n) => if n == 0 {
            ReadNext::Fail(IoFailure::BrokenPipe)
        } else if n < chunk_len {
            ReadNext::Done
        } else {
            ReadNext::Again
        },
        ReadOutcome::WouldBlock => ReadNext::Done,
        ReadOutcome::Interrupted => ReadNext::Again,
        ReadOutcome::Failed => ReadNext::Fail(IoFailure::Other),
    }
}

/// Takes one read's outcome: the bytes read are added to what was read
/// before, and the loop goes on, ends or fails.
pub fn read_chunk(buffer: &mut Vec<u8>, chunk: &[u8], got: ReadOutcome) -> (next: ReadNext)
    requires
        got matches ReadOutcome::Bytes(n) ==> n <= chunk@.len(),
    ensures
        next == read_next(got, chunk@.len()),
        final(buffer)@ == match got {
            ReadOutcome::Bytes(n) => old(buffer)@ + chunk@.take(n as int),
            _ => old(buffer)@,
        },
{
    match got {
        ReadOutcome::Bytes(n) => {
            if n == 0 {
                return ReadNext::Fail(IoFailure::BrokenPipe);
            }
            let ghost before = buffer@;
            let mut i: usize = 0;
            while i < n
                invariant
                    i <= n <= chunk@.len(),
                    buffer@ == before + chunk@.take(i as int),
                decreases n - i,
            {
                buffer.push(chunk[i]);
                assert(chunk@.take(i + 1) =~= chunk@.take(i as int).push(chunk@[i as int]));
                i = i + 1;
            }
            if n < chunk.len() {
                ReadNext::Done
            } else {
                ReadNext::Again
            }
        },
        ReadOutcome::WouldBlock => ReadNext::Done,
        ReadOutcome::Interrupted => ReadNext::Again,
        ReadOutcome::Failed => ReadNext::Fail(IoFailure::Other),
    }
}

/// What one write to the socket gave.
pub enum WriteOutcome {
    /// This many bytes were written (none means the other side is done).
    Written(usize),
    WouldBlock,
    Interrupted,
    Failed,
}

/// What the write loop does next.
#[derive(PartialEq, Eq, Structural, Debug, Clone, Copy)]
pub enum WriteNext {
    /// Write the rest, from this offset.
    Again(usize),
    /// The whole message was written; its length.
    Done(usize),
    Fail(IoFailure),
}

pub open spec fn write_next(total: nat, len: nat, got: WriteOutcome) -> WriteNext {
    match got {
        WriteOutcome::Written(n) => if n == 0 {
            WriteNext::Fail(IoFailure::BrokenPipe)
        } else if total + n < len {
            WriteNext::Again((total + n) as usize)
        } else {
            WriteNext::Done((total + n) as usize)
        },
        WriteOutcome::WouldBlock => WriteNext::Fail(IoFailure::WouldBlock),
        WriteOutcome::Interrupted => WriteNext::Again(total as usize),
        WriteOutcome::Failed => WriteNext::Fail(IoFailure::Other),
    }
}

/// Takes one write's outcome, `total` bytes of `len` being written before.
pub fn write_progress(total: usize, len: usize, got: WriteOutcome) -> (next: WriteNext)
    requires
        total < len,
        got matches WriteOutcome::Written(n) ==> n <= len - total,
    ensures
        next == write_next(total as nat, len as nat, got),
{
    match got {
        WriteOutcome::Written(n) => {
            if n == 0 {
                WriteNext::Fail(IoFailure::BrokenPipe)
            } else if total + n < len {
                WriteNext::Again(total + n)
            } else {
                WriteNext::Done(total + n)
            }
        },
        WriteOutcome::WouldBlock => WriteNext::Fail(IoFailure::WouldBlock),
        WriteOutcome::Interrupted => WriteNext::Again(total),
        WriteOutcome::Failed => WriteNext::Fail(IoFailure::Other),
    }
}

/// A whole message is written once the loop ends without failing: its
/// offsets only grow, and `Done` comes exactly at the message's length.
pub proof fn law_write_reaches_length(total: nat, len: nat, got: WriteOutcome)
    requires
        total < len <= usize::MAX,
        got matches WriteOutcome::Written(n) ==> n <= len - total,
    ensures
        write_next(total, len, got) matches WriteNext::Again(t) ==> total <= t < len,
        write_next(total, len, got) matches WriteNext::Done(t) ==> t == len,
{
}

} // verus!
