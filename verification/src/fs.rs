//! The decisions of positioned file transfers that must move a whole
//! buffer: after each read or write call, whether to go on, and from where.
use vstd::prelude::*;

verus! {

/// What one positioned read or write call did.
#[derive(Debug, Clone, Copy, PartialEq, Eq, Structural)]
pub enum IoStep {
    /// It moved this many bytes.
    Moved(usize),
    /// It was interrupted before moving anything.
    Interrupted,
    /// It failed with another error.
    Failed,
}

/// What a whole-buffer transfer does after a call.
#[derive(Debug, Clone, Copy, PartialEq, Eq, Structural)]
pub enum TransferNext {
    /// Call again for the `remaining` bytes, at `offset`.
    Continue { remaining: usize, offset: u64 },
    /// The whole buffer moved.
    Finished,
    /// A read found the end of the file first ("failed to fill whole
    /// buffer").
    UnexpectedEof,
    /// A write moved nothing ("failed to write whole buffer").
    WriteZero,
    /// The call's error ends the transfer.
    Failed,
}

/// What follows a call that moved `n` of `remaining` bytes at `offset`.
pub open spec fn after_moved(remaining: usize, offset: u64, n: usize) -> TransferNext {
    if n == remaining {
        TransferNext::Finished
    } else {
        TransferNext::Continue { remaining: (remaining - n) as usize, offset: (offset + n) as u64 }
    }
}

/// The next step of reading a whole buffer of which `remaining` bytes are
/// still to fill, at `offset`: a read of nothing means the end of the file.
pub fn read_exact_next(remaining: usize, offset: u64, step: IoStep) -> (r: TransferNext)
    requires
        remaining > 0,
        step matches IoStep::Moved(n) ==> n <= remaining && offset + n <= u64::MAX,
    ensures
        r == match step {
            IoStep::Moved(n) => if n == 0 {
                TransferNext::UnexpectedEof
            } else {
                after_moved(remaining, offset, n)
            },
            IoStep::Interrupted => TransferNext::Continue { remaining, offset },
            IoStep::Failed => TransferNext::Failed,
        },
{
    match step {
        IoStep::Moved(n) => if n == 0 {
            TransferNext::UnexpectedEof
        } else if n == remaining {
            TransferNext::Finished
        } else {
            TransferNext::Continue { remaining: remaining - n, offset: offset + n as u64 }
        },
        IoStep::Interrupted => TransferNext::Continue { remaining, offset },
        IoStep::Failed => TransferNext::Failed,
    }
}

/// The next step of writing a whole buffer of which `remaining` bytes are
/// still to write, at `offset`: a write of nothing is an error.
pub fn write_all_next(remaining: usize, offset: u64, step: IoStep) -> (r: TransferNext)
    requires
        remaining > 0,
        step matches IoStep::Moved(n) ==> n <= remaining && offset + n <= u64::MAX,
    ensures
        r == match step {
            IoStep::Moved(n) => if n == 0 {
                TransferNext::WriteZero
            } else {
                after_moved(remaining, offset, n)
            },
            IoStep::Interrupted => TransferNext::Continue { remaining, offset },
            IoStep::Failed => TransferNext::Failed,
        },
{
    match step {
        IoStep::Moved(n) => if n == 0 {
            TransferNext::WriteZero
        } else if n == remaining {
            TransferNext::Finished
        } else {
            TransferNext::Continue { remaining: remaining - n, offset: offset + n as u64 }
        },
        IoStep::Interrupted => TransferNext::Continue { remaining, offset },
        IoStep::Failed => TransferNext::Failed,
    }
}

/// A transfer keeps its place in the file: after moving `n` bytes the
/// remaining bytes and the offset still add up to where the buffer ends.
pub proof fn law_transfer_keeps_end(remaining: usize, offset: u64, n: usize)
    requires
        0 < n < remaining,
        offset + n <= u64::MAX,
    ensures
        after_moved(remaining, offset, n) matches TransferNext::Continue { remaining: r2, offset: o2 }
            && r2 + o2 == remaining + offset && r2 < remaining,
{
}

} // verus!
