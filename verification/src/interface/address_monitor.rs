//! Interface address-change monitoring: what a drain of the routing socket does with each receive.
//! The monitor only keeps already-resolved addresses fresh; a failure degrades to those.

pub mod route;
pub mod rtnetlink;

use crate::net::ByteOrder;
use vstd::prelude::*;

verus! {

/// Why a receive failed.
#[derive(Debug, Clone, Copy, PartialEq, Eq, Structural)]
pub enum RecvFailure {
    /// Interrupted before any data arrived.
    Interrupted,
    /// Nothing is queued.
    WouldBlock,
    /// The receive buffer overflowed, and notifications were dropped.
    NoBufferSpace,
    /// Any other error number.
    Other(i32),
}

/// The kernel interface that the notifications come from.
#[derive(Debug, Clone, Copy, PartialEq, Eq, Structural)]
pub enum Backend {
    /// Linux: an rtnetlink socket.
    Rtnetlink,
    /// The BSDs: a `PF_ROUTE` socket.
    Route,
}

/// What a drain does after a receive.
#[derive(Debug, Clone, Copy, PartialEq, Eq, Structural)]
pub enum DrainStep {
    /// Receive again.
    Continue,
    /// The socket is drained.
    Finished,
    /// An unrecoverable receive error ends the drain.
    Failed(i32),
}

/// The index that stands for every interface: kernel indices begin at 1.
pub const ALL_INTERFACES: u32 = 0;

/// The interfaces that a datagram of the backend names as changed.
pub open spec fn changes(backend: Backend, order: ByteOrder, datagram: Seq<u8>) -> Seq<u32> {
    match backend {
        Backend::Rtnetlink => rtnetlink::changed_interfaces(order, datagram),
        Backend::Route => route::changed_interfaces(order, datagram, 0),
    }
}

/// What a receive makes a drain do.
pub open spec fn step_after(outcome: Result<Seq<u8>, RecvFailure>) -> DrainStep {
    match outcome {
        Ok(datagram) => if datagram.len() == 0 {
            DrainStep::Finished
        } else {
            DrainStep::Continue
        },
        Err(RecvFailure::Interrupted) => DrainStep::Continue,
        Err(RecvFailure::NoBufferSpace) => DrainStep::Continue,
        Err(RecvFailure::WouldBlock) => DrainStep::Finished,
        Err(RecvFailure::Other(errno)) => DrainStep::Failed(errno),
    }
}

/// The changes that a receive reports: those the datagram names, or the signal for every interface
/// after an overflow.
pub open spec fn reported(
    backend: Backend,
    order: ByteOrder,
    outcome: Result<Seq<u8>, RecvFailure>,
) -> Seq<u32> {
    match outcome {
        Ok(datagram) => changes(backend, order, datagram),
        Err(RecvFailure::NoBufferSpace) => seq![ALL_INTERFACES],
        Err(_) => Seq::empty(),
    }
}

/// One drain of the routing socket: the changes reported so far, in order.
#[derive(Debug)]
pub struct Drain {
    pub backend: Backend,
    pub order: ByteOrder,
    pub changed: Vec<u32>,
}

impl Drain {
    /// A drain that has received nothing.
    pub fn new(backend: Backend, order: ByteOrder) -> (drain: Self)
        ensures
            drain.backend == backend,
            drain.order == order,
            drain.changed@ == Seq::<u32>::empty(),
    {
        Drain { backend, order, changed: Vec::new() }
    }

    /// Takes in the outcome of one receive, records the changes it reports, and says what the
    /// drain does next.
    pub fn on_recv(&mut self, outcome: Result<&[u8], RecvFailure>) -> (step: DrainStep)
        ensures
            final(self).backend == old(self).backend,
            final(self).order == old(self).order,
            step == step_after(outcome_view(outcome)),
            final(self).changed@ == old(self).changed@ + reported(
                old(self).backend,
                old(self).order,
                outcome_view(outcome),
            ),
    {
        match outcome {
            Ok(datagram) => {
                let mut found: Vec<u32> = match self.backend {
                    Backend::Rtnetlink => rtnetlink::for_each_change(self.order, datagram),
                    Backend::Route => route::for_each_change(self.order, datagram),
                };
                let ghost named = found@;
                self.changed.append(&mut found);
                assert(self.changed@ =~= old(self).changed@ + named);
                if datagram.len() == 0 {
                    DrainStep::Finished
                } else {
                    DrainStep::Continue
                }
            },
            Err(failure) => {
                assert(old(self).changed@ + Seq::<u32>::empty() =~= old(self).changed@);
                match failure {
                    RecvFailure::Interrupted => DrainStep::Continue,
                    RecvFailure::WouldBlock => DrainStep::Finished,
                    RecvFailure::NoBufferSpace => {
                        self.changed.push(ALL_INTERFACES);
                        assert(self.changed@ =~= old(self).changed@ + seq![ALL_INTERFACES]);
                        DrainStep::Continue
                    },
                    RecvFailure::Other(errno) => DrainStep::Failed(errno),
                }
            },
        }
    }
}

/// The outcome of a receive, the datagram taken as a sequence.
pub open spec fn outcome_view(outcome: Result<&[u8], RecvFailure>) -> Result<
    Seq<u8>,
    RecvFailure,
> {
    match outcome {
        Ok(datagram) => Ok(datagram@),
        Err(failure) => Err(failure),
    }
}

/// No datagram, whatever it holds, yields the signal for every interface: only an overflow does.
pub proof fn law_datagrams_never_signal_all(
    backend: Backend,
    order: ByteOrder,
    datagram: Seq<u8>,
    i: int,
)
    requires
        0 <= i < changes(backend, order, datagram).len(),
    ensures
        changes(backend, order, datagram)[i] != ALL_INTERFACES,
{
    match backend {
        Backend::Rtnetlink => rtnetlink::lemma_changed_nonzero(
            crate::interface::rtnetlink::messages(order, datagram, 0),
            order,
        ),
        Backend::Route => route::lemma_changed_nonzero(order, datagram, 0),
    }
}

} // verus!
