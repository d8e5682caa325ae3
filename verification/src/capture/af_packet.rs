//! `AF_PACKET` packet capture (Linux): one receive yields one frame.

use vstd::prelude::*;

verus! {

/// The size of the receive buffer: one frame of usual Ethernet size, with room.
pub const RECV_BUFFER_SIZE: usize = 4096;

/// Why a receive failed.
#[derive(Debug, Clone, Copy, PartialEq, Eq, Structural)]
pub enum RecvError {
    /// Interrupted before any data arrived.
    Interrupted,
    /// Nothing is queued.
    WouldBlock,
    /// Any other error number.
    Other(i32),
}

/// What a receive yields.
#[derive(Debug, Clone, Copy, PartialEq, Eq, Structural)]
pub enum FrameStep {
    /// A frame of this length is in the buffer.
    Frame(usize),
    /// Receive again: the call was interrupted.
    Retry,
    /// Receive again: the frame, of this length, did not fit and is dropped.
    Oversized(usize),
    /// Nothing more is ready.
    Empty,
    /// The receive failed.
    Failed(i32),
}

/// What a receive into `capacity` bytes yields. The length reported is the frame's real one, also
/// past the buffer, so that a frame that did not fit is dropped instead of cut.
pub fn after_recv(outcome: Result<usize, RecvError>, capacity: usize) -> (step: FrameStep)
    ensures
        step == match outcome {
            Ok(n) => if n <= capacity {
                FrameStep::Frame(n)
            } else {
                FrameStep::Oversized(n)
            },
            Err(RecvError::Interrupted) => FrameStep::Retry,
            Err(RecvError::WouldBlock) => FrameStep::Empty,
            Err(RecvError::Other(errno)) => FrameStep::Failed(errno),
        },
{
    match outcome {
        Ok(n) => if n <= capacity {
            FrameStep::Frame(n)
        } else {
            FrameStep::Oversized(n)
        },
        Err(RecvError::Interrupted) => FrameStep::Retry,
        Err(RecvError::WouldBlock) => FrameStep::Empty,
        Err(RecvError::Other(errno)) => FrameStep::Failed(errno),
    }
}

} // verus!
