//! A single-threaded reactor: handlers and the file descriptors they watch, dispatched against
//! readiness.
//!
//! Handlers and registrations are addressed by `Copy` keys into generational arenas, so a handler
//! can reach back into the reactor without aliasing the storage it lives in, and a stale key
//! resolves to nothing. A handler owns the descriptors it watches; each is watched under its own
//! [`RegKey`], so an event names the exact descriptor. Dispatch takes the handler out of its slot
//! for its call, so that the whole reactor can be handed to it, and returns it afterwards unless
//! the call removed it.
//!
//! The kernel side of a watch is the program's: it adds an interest after [`Reactor::watch`]
//! (undoing the watch with [`Reactor::unwatch`] where the kernel refuses), and removes the
//! interests that [`Reactor::unwatch`] and [`Reactor::unregister`] hand back before the
//! descriptors close.

pub mod arena;

use crate::reactor::arena::{Arena, Key};
use vstd::prelude::*;

verus! {

/// A handle to a registered handler.
#[derive(Clone, Copy, PartialEq, Eq, Hash, Debug, Structural)]
pub struct HandlerKey(pub Key);

/// A handle to one watched descriptor of a handler.
#[derive(Clone, Copy, PartialEq, Eq, Hash, Debug, Structural)]
pub struct RegKey(pub Key);

/// What a registration is ready for: the event that a poll loop feeds the reactor.
#[derive(Debug, Clone, Copy, PartialEq, Eq, Structural)]
pub struct Readiness {
    /// The descriptor is readable.
    pub readable: bool,
    /// The descriptor is writable.
    pub writable: bool,
}

/// What fired: the descriptor, and the opaque value the handler attached when it watched it.
#[derive(Debug, Clone, Copy, PartialEq, Eq, Structural)]
pub struct ReadyEvent {
    pub fd: i32,
    pub user_data: u64,
}

/// Callbacks of a registered handler. `P` is what the program keeps beside the handlers. What a
/// callback does is the handler's own; a spec function of the handler relates the handler and the
/// reactor before each call to those after it.
pub trait Handler<P>: Sized {
    /// The instant at which the handler's timer fires, on the program's monotonic clock; one
    /// without a timer has none.
    open spec fn deadline(&self) -> Option<u64> {
        None
    }

    /// What the read callback does.
    open spec fn reads(
        self,
        event: ReadyEvent,
        reactor: Reactor<Self, P>,
        after: Self,
        reactor_after: Reactor<Self, P>,
    ) -> bool {
        true
    }

    /// What the write callback does.
    open spec fn writes(
        self,
        event: ReadyEvent,
        reactor: Reactor<Self, P>,
        after: Self,
        reactor_after: Reactor<Self, P>,
    ) -> bool {
        true
    }

    /// What the deadline callback does.
    open spec fn fires(
        self,
        now: u64,
        reactor: Reactor<Self, P>,
        after: Self,
        reactor_after: Reactor<Self, P>,
    ) -> bool {
        true
    }

    /// What the handler becomes when it learns its key.
    open spec fn adopts(self, key: HandlerKey, after: Self) -> bool {
        after == self
    }

    /// The descriptor of `event` is readable.
    fn on_readable(&mut self, event: ReadyEvent, reactor: &mut Reactor<Self, P>)
        requires
            old(reactor).wf(),
        ensures
            final(reactor).wf(),
            old(self).reads(event, *old(reactor), *final(self), *final(reactor)),
    ;

    /// The descriptor of `event` is writable and its write interest is armed.
    fn on_writable(&mut self, event: ReadyEvent, reactor: &mut Reactor<Self, P>)
        requires
            old(reactor).wf(),
        ensures
            final(reactor).wf(),
            old(self).writes(event, *old(reactor), *final(self), *final(reactor)),
    ;

    /// The earliest instant at which the handler wants its deadline callback, or `None`.
    fn next_deadline(&self) -> (at: Option<u64>)
        ensures
            at == self.deadline(),
    ;

    /// `now` has reached the handler's deadline.
    fn on_deadline(&mut self, now: u64, reactor: &mut Reactor<Self, P>)
        requires
            old(reactor).wf(),
        ensures
            final(reactor).wf(),
            old(self).fires(now, *old(reactor), *final(self), *final(reactor)),
    ;

    /// Called once, before the handler is stored, with the key it is stored under.
    fn adopt_key(&mut self, key: HandlerKey)
        ensures
            old(self).adopts(key, *final(self)),
    ;
}

/// A registered handler and the keys of the registrations that dispatch to it. The handler is
/// absent only while it is out for its own call.
pub struct HandlerEntry<H> {
    pub handler: Option<H>,
    pub regs: Vec<RegKey>,
}

/// One watched descriptor: the handler it dispatches to, and which interests are armed.
#[derive(Debug, Clone, Copy, PartialEq, Eq, Structural)]
pub struct Registration {
    pub fd: i32,
    pub handler_key: HandlerKey,
    pub read_interest: bool,
    pub write_interest: bool,
    pub user_data: u64,
}

/// The reactor: the handlers, their registrations, and what the program keeps beside them.
pub struct Reactor<H, P> {
    handlers: Arena<HandlerEntry<H>>,
    registrations: Arena<Registration>,
    shutdown: bool,
    poll: P,
}

/// Whether every registration is on the list of its live handler, and every key on a handler's
/// list, each once, is a live registration of that handler.
pub open spec fn linked<H>(
    handlers: Map<Key, HandlerEntry<H>>,
    registrations: Map<Key, Registration>,
) -> bool {
    &&& forall|r: Key| #[trigger]
        registrations.dom().contains(r) ==> {
            &&& handlers.dom().contains(registrations[r].handler_key.0)
            &&& handlers[registrations[r].handler_key.0].regs@.contains(RegKey(r))
        }
    &&& forall|h: Key, i: int|
        #![trigger handlers[h].regs@[i]]
        handlers.dom().contains(h) && 0 <= i < handlers[h].regs@.len() ==> {
            &&& registrations.dom().contains(handlers[h].regs@[i].0)
            &&& registrations[handlers[h].regs@[i].0].handler_key.0 == h
        }
    &&& forall|h: Key|
        #![trigger handlers[h]]
        handlers.dom().contains(h) ==> handlers[h].regs@.no_duplicates()
}

impl<H, P> Reactor<H, P> {
    /// The live handlers.
    pub closed spec fn handlers(&self) -> Map<Key, HandlerEntry<H>> {
        self.handlers@
    }

    /// The live registrations.
    pub closed spec fn registrations(&self) -> Map<Key, Registration> {
        self.registrations@
    }

    /// Whether the run loop has been asked to stop.
    pub closed spec fn spec_shutdown(&self) -> bool {
        self.shutdown
    }

    /// What the program keeps beside the handlers.
    pub closed spec fn spec_poll(&self) -> P {
        self.poll
    }

    /// The key that the next registered handler gets.
    pub closed spec fn next_handler_key(&self) -> HandlerKey {
        HandlerKey(self.handlers.next_key())
    }

    /// The key that the next watch gets.
    pub closed spec fn next_reg_key(&self) -> RegKey {
        RegKey(self.registrations.next_key())
    }

    /// Whether another handler fits.
    pub closed spec fn handler_room(&self) -> bool {
        self.handlers.spec_has_room()
    }

    /// Whether another registration fits.
    pub closed spec fn registration_room(&self) -> bool {
        self.registrations.spec_has_room()
    }

    /// How many more registrations fit.
    pub closed spec fn registration_slots(&self) -> int {
        self.registrations.free_slots().len() + 0x1_0000_0000 - self.registrations.generations().len()
    }

    /// The arenas are well formed, and handlers and registrations are linked.
    pub closed spec fn wf(&self) -> bool {
        &&& self.handlers.wf()
        &&& self.registrations.wf()
        &&& linked(self.handlers@, self.registrations@)
    }

    /// A reactor with no handlers.
    pub fn new(poll: P) -> (reactor: Self)
        ensures
            reactor.wf(),
            reactor.handlers() == Map::<Key, HandlerEntry<H>>::empty(),
            reactor.registrations() == Map::<Key, Registration>::empty(),
            !reactor.spec_shutdown(),
            reactor.spec_poll() == poll,
    {
        Reactor { handlers: Arena::new(), registrations: Arena::new(), shutdown: false, poll }
    }

    /// Whether another handler fits.
    pub fn has_handler_room(&self) -> (room: bool)
        ensures
            room == self.handler_room(),
    {
        self.handlers.has_room()
    }

    /// Whether another registration fits.
    pub fn has_registration_room(&self) -> (room: bool)
        ensures
            room == self.registration_room(),
            self.wf() ==> room == (self.registration_slots() > 0),
    {
        proof {
            if self.wf() {
                self.registrations.lemma_index_space();
            }
        }
        self.registrations.has_room()
    }

    /// What the program keeps beside the handlers, such as its poller.
    pub fn poll_mut(&mut self) -> (poll: &mut P)
        ensures
            *poll == old(self).spec_poll(),
            final(self).spec_poll() == *final(poll),
            final(self).wf() == old(self).wf(),
            final(self).handlers() == old(self).handlers(),
            final(self).registrations() == old(self).registrations(),
            final(self).spec_shutdown() == old(self).spec_shutdown(),
    {
        &mut self.poll
    }

    /// Asks the run loop to stop once the current dispatch returns.
    pub fn request_shutdown(&mut self)
        ensures
            final(self).wf() == old(self).wf(),
            final(self).handlers() == old(self).handlers(),
            final(self).registrations() == old(self).registrations(),
            final(self).spec_shutdown(),
            final(self).spec_poll() == old(self).spec_poll(),
    {
        self.shutdown = true;
    }

    /// Whether the run loop has been asked to stop.
    pub fn is_shutting_down(&self) -> (stop: bool)
        ensures
            stop == self.spec_shutdown(),
    {
        self.shutdown
    }

    /// Whether `handler_key` still addresses a live handler.
    pub fn is_registered(&self, handler_key: HandlerKey) -> (live: bool)
        ensures
            live == self.handlers().dom().contains(handler_key.0),
    {
        self.handlers.contains(handler_key.0)
    }

    /// Stores a handler that watches nothing yet.
    fn store(&mut self, handler: H) -> (key: HandlerKey)
        requires
            old(self).wf(),
            old(self).handler_room(),
        ensures
            final(self).wf(),
            key == old(self).next_handler_key(),
            !old(self).handlers().dom().contains(key.0),
            final(self).handlers().dom() == old(self).handlers().dom().insert(key.0),
            final(self).handlers()[key.0].handler == Some(handler),
            final(self).handlers()[key.0].regs@ == Seq::<RegKey>::empty(),
            forall|h: Key| h != key.0 ==> final(self).handlers()[h] == old(self).handlers()[h],
            final(self).registrations() == old(self).registrations(),
            final(self).spec_shutdown() == old(self).spec_shutdown(),
            final(self).spec_poll() == old(self).spec_poll(),
            final(self).registration_slots() == old(self).registration_slots(),
    {
        let key = self.handlers.insert(HandlerEntry { handler: Some(handler), regs: Vec::new() });
        assert(linked(self.handlers@, self.registrations@));
        HandlerKey(key)
    }

    /// Watches `fd` for readability on behalf of a handler, under the key returned; `None` where
    /// `handler_key` is not a live handler. The handler keeps owning the descriptor, and gets
    /// `user_data` back with each event.
    pub fn watch(&mut self, handler_key: HandlerKey, fd: i32, user_data: u64) -> (key: Option<
        RegKey,
    >)
        requires
            old(self).wf(),
            old(self).registration_room(),
        ensures
            final(self).wf(),
            !old(self).handlers().dom().contains(handler_key.0) ==> key is None && *final(self)
                == *old(self),
            old(self).handlers().dom().contains(handler_key.0) ==> {
                let new = old(self).next_reg_key();
                &&& key == Some(new)
                &&& final(self).registration_slots() == old(self).registration_slots() - 1
                &&& !old(self).registrations().dom().contains(new.0)
                &&& final(self).registrations() == old(self).registrations().insert(
                    new.0,
                    Registration {
                        fd,
                        handler_key,
                        read_interest: true,
                        write_interest: false,
                        user_data,
                    },
                )
                &&& only_regs_changed(
                    old(self).handlers(),
                    final(self).handlers(),
                    handler_key.0,
                    old(self).handlers()[handler_key.0].regs@.push(new),
                )
                &&& final(self).spec_shutdown() == old(self).spec_shutdown()
                &&& final(self).spec_poll() == old(self).spec_poll()
            },
    {
        if !self.handlers.contains(handler_key.0) {
            return None;
        }
        let ghost handlers = self.handlers@;
        let ghost registrations = self.registrations@;
        let new = RegKey(
            self.registrations.insert(
                Registration {
                    fd,
                    handler_key,
                    read_interest: true,
                    write_interest: false,
                    user_data,
                },
            ),
        );
        match self.handlers.get_mut(handler_key.0) {
            Some(entry) => {
                entry.regs.push(new);
            },
            None => {},
        }
        proof {
            assert(self.handlers@.dom() =~= handlers.dom());
            lemma_linked_after_watch(
                handlers,
                registrations,
                self.handlers@,
                handler_key.0,
                new,
                self.registrations@[new.0],
            );
        }
        Some(new)
    }

    /// Stops watching the descriptor that `reg_key` addresses and returns it, so that the program
    /// removes its kernel interest; it is not closed. `None` where the key is stale.
    pub fn unwatch(&mut self, reg_key: RegKey) -> (fd: Option<i32>)
        requires
            old(self).wf(),
        ensures
            final(self).wf(),
            !old(self).registrations().dom().contains(reg_key.0) ==> fd is None && *final(self)
                == *old(self),
            old(self).registrations().dom().contains(reg_key.0) ==> {
                let registration = old(self).registrations()[reg_key.0];
                &&& fd == Some(registration.fd)
                &&& final(self).registrations() == old(self).registrations().remove(reg_key.0)
                &&& only_regs_changed(
                    old(self).handlers(),
                    final(self).handlers(),
                    registration.handler_key.0,
                    without(
                        old(self).handlers()[registration.handler_key.0].regs@,
                        reg_key,
                    ),
                )
                &&& final(self).spec_shutdown() == old(self).spec_shutdown()
                &&& final(self).spec_poll() == old(self).spec_poll()
            },
    {
        let ghost handlers = self.handlers@;
        let ghost registrations = self.registrations@;
        match self.registrations.remove(reg_key.0) {
            None => None,
            Some(registration) => {
                match self.handlers.get_mut(registration.handler_key.0) {
                    Some(entry) => {
                        let kept = drop_key(&entry.regs, reg_key);
                        entry.regs = kept;
                    },
                    None => {},
                }
                proof {
                    assert(self.handlers@.dom() =~= handlers.dom());
                    lemma_linked_after_unwatch(
                        handlers,
                        registrations,
                        self.handlers@,
                        registration.handler_key.0,
                        reg_key,
                    );
                }
                Some(registration.fd)
            },
        }
    }

    /// Drops the handler that `handler_key` addresses and every registration of it. The handler is
    /// handed back with its watched descriptors, in the order they were watched, so that the
    /// program removes each kernel interest before the handler drops and closes them. `None` where
    /// the key is stale.
    pub fn unregister(&mut self, handler_key: HandlerKey) -> (removed: Option<Unregistered<H>>)
        requires
            old(self).wf(),
        ensures
            final(self).wf(),
            !old(self).handlers().dom().contains(handler_key.0) ==> removed is None && *final(self)
                == *old(self),
            old(self).handlers().dom().contains(handler_key.0) ==> {
                &&& removed matches Some(gone)
                &&& gone.handler == old(self).handlers()[handler_key.0].handler
                &&& gone.fds@ == watched_fds(
                    old(self).handlers()[handler_key.0].regs@,
                    old(self).registrations(),
                )
                &&& final(self).handlers() == old(self).handlers().remove(handler_key.0)
                &&& final(self).registrations() == of_others(
                    old(self).registrations(),
                    handler_key,
                )
                &&& final(self).spec_shutdown() == old(self).spec_shutdown()
                &&& final(self).spec_poll() == old(self).spec_poll()
            },
    {
        let ghost handlers = self.handlers@;
        let ghost registrations = self.registrations@;
        let entry = match self.handlers.remove(handler_key.0) {
            None => {
                return None;
            },
            Some(entry) => entry,
        };
        let regs = entry.regs;
        let n: usize = regs.len();
        let mut fds: Vec<i32> = Vec::new();
        let mut i: usize = 0;
        assert(handlers[handler_key.0].regs@ == regs@);
        assert forall|r: Key| #[trigger] self.registrations@.dom().contains(r) implies !regs@.take(
            0,
        ).contains(RegKey(r)) by {}
        while i < n
            invariant
                n == regs@.len(),
                i <= n,
                linked(handlers, registrations),
                handlers.dom().contains(handler_key.0),
                handlers[handler_key.0].regs@ == regs@,
                self.handlers.wf(),
                self.registrations.wf(),
                self.handlers@ == handlers.remove(handler_key.0),
                self.shutdown == old(self).shutdown,
                self.poll == old(self).poll,
                forall|r: Key| #[trigger]
                    self.registrations@.dom().contains(r) <==> registrations.dom().contains(r)
                        && !regs@.take(i as int).contains(RegKey(r)),
                forall|r: Key| #[trigger]
                    self.registrations@.dom().contains(r) ==> self.registrations@[r]
                        == registrations[r],
                fds@ == watched_fds(regs@, registrations).take(i as int),
            decreases n - i,
        {
            let key = regs[i];
            proof {
                assert(handlers[handler_key.0].regs@[i as int] == key);
                assert(regs@.no_duplicates());
                assert(!regs@.take(i as int).contains(key)) by {
                    assert forall|j: int| 0 <= j < i implies regs@.take(i as int)[j] != key by {}
                }
                assert(self.registrations@.dom().contains(key.0));
            }
            let ghost before = self.registrations@;
            match self.registrations.remove(key.0) {
                Some(registration) => {
                    fds.push(registration.fd);
                },
                None => {},
            }
            proof {
                let fds_all = watched_fds(regs@, registrations);
                assert(fds@ =~= fds_all.take(i + 1));
                assert(regs@.take(i + 1) =~= regs@.take(i as int).push(key));
                assert forall|r: Key|
                    #[trigger] self.registrations@.dom().contains(r) <==> registrations.dom().contains(r)
                        && !regs@.take(i + 1).contains(RegKey(r)) by {
                    lemma_push_contains(regs@.take(i as int), key, RegKey(r));
                }
            }
            i += 1;
        }
        proof {
            assert(regs@.take(n as int) =~= regs@);
            assert(watched_fds(regs@, registrations).take(n as int) =~= watched_fds(
                regs@,
                registrations,
            ));
            lemma_linked_after_unregister(handlers, registrations, handler_key);
            assert forall|r: Key| registrations.dom().contains(r) implies (regs@.contains(RegKey(r))
                <==> registrations[r].handler_key == handler_key) by {
                if regs@.contains(RegKey(r)) {
                    let j = choose|j: int| 0 <= j < regs@.len() && regs@[j] == RegKey(r);
                    assert(handlers[handler_key.0].regs@[j] == RegKey(r));
                }
            }
            assert(self.registrations@ =~= of_others(registrations, handler_key));
        }
        Some(Unregistered { handler: entry.handler, fds })
    }

    /// The armed interests of a registration, the descriptor first; `None` where the key is stale.
    pub fn interests(&self, reg_key: RegKey) -> (armed: Option<Registration>)
        ensures
            armed == if self.registrations().dom().contains(reg_key.0) {
                Some(self.registrations()[reg_key.0])
            } else {
                None
            },
    {
        match self.registrations.get(reg_key.0) {
            Some(registration) => Some(*registration),
            None => None,
        }
    }

    fn set_interest(&mut self, reg_key: RegKey, read: Option<bool>, write: Option<bool>) -> (live:
        bool)
        requires
            old(self).wf(),
        ensures
            final(self).wf(),
            live == old(self).registrations().dom().contains(reg_key.0),
            final(self).handlers() == old(self).handlers(),
            !live ==> final(self).registrations() == old(self).registrations(),
            live ==> final(self).registrations() == old(self).registrations().insert(
                reg_key.0,
                rearmed(old(self).registrations()[reg_key.0], read, write),
            ),
            final(self).spec_shutdown() == old(self).spec_shutdown(),
            final(self).spec_poll() == old(self).spec_poll(),
    {
        let ghost registrations = self.registrations@;
        match self.registrations.get_mut(reg_key.0) {
            None => false,
            Some(registration) => {
                let was = *registration;
                let read_interest: bool = match read {
                    Some(enabled) => enabled,
                    None => was.read_interest,
                };
                let write_interest: bool = match write {
                    Some(enabled) => enabled,
                    None => was.write_interest,
                };
                *registration = Registration {
                    fd: was.fd,
                    handler_key: was.handler_key,
                    read_interest,
                    write_interest,
                    user_data: was.user_data,
                };
                proof {
                    lemma_linked_after_rearm(
                        self.handlers@,
                        registrations,
                        reg_key.0,
                        rearmed(was, read, write),
                    );
                }
                true
            },
        }
    }

    /// Arms or disarms delivery of write readiness for the descriptor that `reg_key` addresses,
    /// once the kernel has accepted the change; returns whether the registration is live.
    pub fn set_write_interest(&mut self, reg_key: RegKey, enabled: bool) -> (live: bool)
        requires
            old(self).wf(),
        ensures
            final(self).wf(),
            live == old(self).registrations().dom().contains(reg_key.0),
            final(self).handlers() == old(self).handlers(),
            !live ==> final(self).registrations() == old(self).registrations(),
            live ==> final(self).registrations() == old(self).registrations().insert(
                reg_key.0,
                Registration {
                    write_interest: enabled,
                    ..old(self).registrations()[reg_key.0]
                },
            ),
            final(self).spec_shutdown() == old(self).spec_shutdown(),
            final(self).spec_poll() == old(self).spec_poll(),
    {
        self.set_interest(reg_key, None, Some(enabled))
    }

    /// Arms or disarms delivery of read readiness for the descriptor that `reg_key` addresses,
    /// once the kernel has accepted the change; returns whether the registration is live.
    pub fn set_read_interest(&mut self, reg_key: RegKey, enabled: bool) -> (live: bool)
        requires
            old(self).wf(),
        ensures
            final(self).wf(),
            live == old(self).registrations().dom().contains(reg_key.0),
            final(self).handlers() == old(self).handlers(),
            !live ==> final(self).registrations() == old(self).registrations(),
            live ==> final(self).registrations() == old(self).registrations().insert(
                reg_key.0,
                Registration { read_interest: enabled, ..old(self).registrations()[reg_key.0] },
            ),
            final(self).spec_shutdown() == old(self).spec_shutdown(),
            final(self).spec_poll() == old(self).spec_poll(),
    {
        self.set_interest(reg_key, Some(enabled), None)
    }
}

/// A handler that left the reactor: it is absent where it was out for its own call, and the
/// descriptors are those whose kernel interest is to be removed.
pub struct Unregistered<H> {
    pub handler: Option<H>,
    pub fds: Vec<i32>,
}

/// The descriptors that a list of registrations watches.
pub open spec fn watched_fds(regs: Seq<RegKey>, registrations: Map<Key, Registration>) -> Seq<i32> {
    regs.map_values(|r: RegKey| registrations[r.0].fd)
}

/// The registrations of every handler but one.
pub open spec fn of_others(registrations: Map<Key, Registration>, handler_key: HandlerKey) -> Map<
    Key,
    Registration,
> {
    Map::new(
        |r: Key| registrations.dom().contains(r) && registrations[r].handler_key != handler_key,
        |r: Key| registrations[r],
    )
}

/// A registration with the given interests set.
pub open spec fn rearmed(was: Registration, read: Option<bool>, write: Option<bool>) -> Registration {
    Registration {
        read_interest: match read {
            Some(enabled) => enabled,
            None => was.read_interest,
        },
        write_interest: match write {
            Some(enabled) => enabled,
            None => was.write_interest,
        },
        ..was
    }
}

/// A list of registrations without one key.
pub open spec fn without(regs: Seq<RegKey>, key: RegKey) -> Seq<RegKey>
    decreases regs.len(),
{
    if regs.len() == 0 {
        regs
    } else if regs.last() == key {
        without(regs.drop_last(), key)
    } else {
        without(regs.drop_last(), key).push(regs.last())
    }
}

proof fn lemma_without(regs: Seq<RegKey>, key: RegKey)
    ensures
        forall|r: RegKey| #[trigger]
            without(regs, key).contains(r) <==> regs.contains(r) && r != key,
        regs.no_duplicates() ==> without(regs, key).no_duplicates(),
    decreases regs.len(),
{
    if regs.len() > 0 {
        let front = regs.drop_last();
        lemma_without(front, key);
        assert(regs =~= front.push(regs.last()));
        let rest = without(front, key);
        assert forall|r: RegKey| #[trigger]
            without(regs, key).contains(r) <==> regs.contains(r) && r != key by {
            lemma_push_contains(front, regs.last(), r);
            lemma_push_contains(rest, regs.last(), r);
        }
        if regs.no_duplicates() {
            assert(front.no_duplicates());
            assert(!front.contains(regs.last())) by {
                if front.contains(regs.last()) {
                    let j = choose|j: int| 0 <= j < front.len() && front[j] == regs.last();
                    assert(regs[j] == regs[regs.len() - 1]);
                }
            }
            assert(!rest.contains(regs.last()));
            assert forall|a: int, b: int|
                0 <= a < without(regs, key).len() && 0 <= b < without(regs, key).len() && a
                    != b implies without(regs, key)[a] != without(regs, key)[b] by {
                if regs.last() != key {
                    if a == rest.len() {
                        assert(rest.contains(rest[b]));
                    } else if b == rest.len() {
                        assert(rest.contains(rest[a]));
                    }
                }
            }
        }
    } else {
        assert(without(regs, key) =~= regs);
    }
}

proof fn lemma_push_contains(s: Seq<RegKey>, last: RegKey, r: RegKey)
    ensures
        s.push(last).contains(r) <==> s.contains(r) || r == last,
{
    if s.contains(r) {
        let j = choose|j: int| 0 <= j < s.len() && s[j] == r;
        assert(s.push(last)[j] == r);
    }
    if r == last {
        assert(s.push(last)[s.len() as int] == r);
    }
    if s.push(last).contains(r) {
        let j = choose|j: int| 0 <= j < s.push(last).len() && s.push(last)[j] == r;
        if j < s.len() {
            assert(s[j] == r);
        }
    }
}

fn drop_key(regs: &Vec<RegKey>, key: RegKey) -> (kept: Vec<RegKey>)
    ensures
        kept@ == without(regs@, key),
{
    let mut kept: Vec<RegKey> = Vec::new();
    let n: usize = regs.len();
    let mut i: usize = 0;
    assert(regs@.take(0) =~= Seq::<RegKey>::empty());
    while i < n
        invariant
            n == regs@.len(),
            i <= n,
            kept@ == without(regs@.take(i as int), key),
        decreases n - i,
    {
        assert(regs@.take(i + 1).drop_last() =~= regs@.take(i as int));
        if regs[i] != key {
            kept.push(regs[i]);
        }
        i += 1;
    }
    assert(regs@.take(n as int) =~= regs@);
    kept
}

proof fn lemma_linked_after_unwatch<H>(
    before: Map<Key, HandlerEntry<H>>,
    registrations: Map<Key, Registration>,
    after: Map<Key, HandlerEntry<H>>,
    h: Key,
    gone: RegKey,
)
    requires
        linked(before, registrations),
        registrations.dom().contains(gone.0),
        registrations[gone.0].handler_key.0 == h,
        only_regs_changed(before, after, h, without(before[h].regs@, gone)),
    ensures
        linked(after, registrations.remove(gone.0)),
{
    let now = registrations.remove(gone.0);
    let old_regs = before[h].regs@;
    lemma_without(old_regs, gone);
    assert forall|r: Key| #[trigger] now.dom().contains(r) implies {
        &&& after.dom().contains(now[r].handler_key.0)
        &&& after[now[r].handler_key.0].regs@.contains(RegKey(r))
    } by {
        assert(registrations.dom().contains(r));
        let k = registrations[r].handler_key.0;
        if k != h {
            assert(after[k] == before[k]);
        }
    }
    assert forall|k: Key, i: int|
        #![trigger after[k].regs@[i]]
        after.dom().contains(k) && 0 <= i < after[k].regs@.len() implies {
        &&& now.dom().contains(after[k].regs@[i].0)
        &&& now[after[k].regs@[i].0].handler_key.0 == k
    } by {
        if k == h {
            let r = after[h].regs@[i];
            assert(without(old_regs, gone).contains(r));
            let j = choose|j: int| 0 <= j < old_regs.len() && old_regs[j] == r;
            assert(before[h].regs@[j] == r);
        } else {
            assert(after[k] == before[k]);
            assert(before[k].regs@[i] == after[k].regs@[i]);
        }
    }
    assert forall|k: Key| #![trigger after[k]]
        after.dom().contains(k) implies after[k].regs@.no_duplicates() by {
        assert(before[k].regs@.no_duplicates());
        if k != h {
            assert(after[k] == before[k]);
        }
    }
}

proof fn lemma_linked_after_unregister<H>(
    handlers: Map<Key, HandlerEntry<H>>,
    registrations: Map<Key, Registration>,
    gone: HandlerKey,
)
    requires
        linked(handlers, registrations),
    ensures
        linked(handlers.remove(gone.0), of_others(registrations, gone)),
{
    let after = handlers.remove(gone.0);
    let now = of_others(registrations, gone);
    assert forall|r: Key| #[trigger] now.dom().contains(r) implies {
        &&& after.dom().contains(now[r].handler_key.0)
        &&& after[now[r].handler_key.0].regs@.contains(RegKey(r))
    } by {
        assert(registrations.dom().contains(r));
    }
    assert forall|k: Key, i: int|
        #![trigger after[k].regs@[i]]
        after.dom().contains(k) && 0 <= i < after[k].regs@.len() implies {
        &&& now.dom().contains(after[k].regs@[i].0)
        &&& now[after[k].regs@[i].0].handler_key.0 == k
    } by {
        assert(handlers[k].regs@[i] == after[k].regs@[i]);
    }
    assert forall|k: Key| #![trigger after[k]]
        after.dom().contains(k) implies after[k].regs@.no_duplicates() by {
        assert(handlers[k].regs@.no_duplicates());
    }
}

proof fn lemma_linked_after_rearm<H>(
    handlers: Map<Key, HandlerEntry<H>>,
    registrations: Map<Key, Registration>,
    r: Key,
    now: Registration,
)
    requires
        linked(handlers, registrations),
        registrations.dom().contains(r),
        now.handler_key == registrations[r].handler_key,
    ensures
        linked(handlers, registrations.insert(r, now)),
{
    let after = registrations.insert(r, now);
    assert forall|k: Key| #[trigger] after.dom().contains(k) implies {
        &&& handlers.dom().contains(after[k].handler_key.0)
        &&& handlers[after[k].handler_key.0].regs@.contains(RegKey(k))
    } by {
        assert(registrations.dom().contains(k));
    }
}

/// Whether `after` is `before` but for the registration list of the handler `h`, which is `regs`.
pub open spec fn only_regs_changed<H>(
    before: Map<Key, HandlerEntry<H>>,
    after: Map<Key, HandlerEntry<H>>,
    h: Key,
    regs: Seq<RegKey>,
) -> bool {
    &&& after.dom() == before.dom()
    &&& after[h].handler == before[h].handler
    &&& after[h].regs@ == regs
    &&& forall|k: Key| k != h ==> #[trigger] after[k] == before[k]
}

proof fn lemma_linked_after_watch<H>(
    before: Map<Key, HandlerEntry<H>>,
    registrations: Map<Key, Registration>,
    after: Map<Key, HandlerEntry<H>>,
    h: Key,
    new: RegKey,
    registration: Registration,
)
    requires
        linked(before, registrations),
        before.dom().contains(h),
        !registrations.dom().contains(new.0),
        registration.handler_key.0 == h,
        only_regs_changed(before, after, h, before[h].regs@.push(new)),
    ensures
        linked(after, registrations.insert(new.0, registration)),
{
    let now = registrations.insert(new.0, registration);
    let old_regs = before[h].regs@;
    let regs = after[h].regs@;
    assert(regs[old_regs.len() as int] == new);
    assert forall|r: Key| #[trigger] now.dom().contains(r) implies {
        &&& after.dom().contains(now[r].handler_key.0)
        &&& after[now[r].handler_key.0].regs@.contains(RegKey(r))
    } by {
        if r != new.0 {
            assert(registrations.dom().contains(r));
            let k = registrations[r].handler_key.0;
            if k == h {
                let i = choose|i: int| 0 <= i < old_regs.len() && old_regs[i] == RegKey(r);
                assert(regs[i] == RegKey(r));
            } else {
                assert(after[k] == before[k]);
            }
        }
    }
    assert forall|k: Key, i: int|
        #![trigger after[k].regs@[i]]
        after.dom().contains(k) && 0 <= i < after[k].regs@.len() implies {
        &&& now.dom().contains(after[k].regs@[i].0)
        &&& now[after[k].regs@[i].0].handler_key.0 == k
    } by {
        if k == h {
            if i < old_regs.len() {
                assert(regs[i] == before[h].regs@[i]);
            }
        } else {
            assert(after[k] == before[k]);
            assert(before[k].regs@[i] == after[k].regs@[i]);
        }
    }
    assert forall|k: Key| #![trigger after[k]]
        after.dom().contains(k) implies after[k].regs@.no_duplicates() by {
        if k == h {
            assert(before[h].regs@.no_duplicates());
            assert forall|a: int, b: int|
                0 <= a < regs.len() && 0 <= b < regs.len() && a != b implies regs[a]
                != regs[b] by {
                if a < old_regs.len() {
                    assert(before[h].regs@[a] == regs[a]);
                }
                if b < old_regs.len() {
                    assert(before[h].regs@[b] == regs[b]);
                }
            }
        } else {
            assert(after[k] == before[k]);
            assert(before[k].regs@.no_duplicates());
        }
    }
}

/// Whether `after` is `before` but for the handler stored under `h`, which is `handler`.
pub open spec fn only_handler_changed<H>(
    before: Map<Key, HandlerEntry<H>>,
    after: Map<Key, HandlerEntry<H>>,
    h: Key,
    handler: Option<H>,
) -> bool {
    &&& before.dom().contains(h)
    &&& after.dom() == before.dom()
    &&& after[h].handler == handler
    &&& after[h].regs == before[h].regs
    &&& forall|k: Key| k != h ==> #[trigger] after[k] == before[k]
}

proof fn lemma_linked_same_regs<H>(
    before: Map<Key, HandlerEntry<H>>,
    after: Map<Key, HandlerEntry<H>>,
    registrations: Map<Key, Registration>,
    h: Key,
    handler: Option<H>,
)
    requires
        linked(before, registrations),
        only_handler_changed(before, after, h, handler),
    ensures
        linked(after, registrations),
{
    assert forall|k: Key| #[trigger] after.dom().contains(k) implies after[k].regs == before[k].regs by {
        if k != h {
            assert(after[k] == before[k]);
        }
    }
    assert forall|r: Key| #[trigger] registrations.dom().contains(r) implies {
        &&& after.dom().contains(registrations[r].handler_key.0)
        &&& after[registrations[r].handler_key.0].regs@.contains(RegKey(r))
    } by {
        assert(after.dom().contains(registrations[r].handler_key.0));
    }
    assert forall|k: Key, i: int|
        #![trigger after[k].regs@[i]]
        after.dom().contains(k) && 0 <= i < after[k].regs@.len() implies {
        &&& registrations.dom().contains(after[k].regs@[i].0)
        &&& registrations[after[k].regs@[i].0].handler_key.0 == k
    } by {
        assert(before[k].regs@[i] == after[k].regs@[i]);
    }
    assert forall|k: Key| #![trigger after[k]]
        after.dom().contains(k) implies after[k].regs@.no_duplicates() by {
        assert(before[k].regs@.no_duplicates());
    }
}

/// A delivery under way: the handler taken out of its slot, and the event it is called with.
pub struct Delivery<H> {
    pub handler_key: HandlerKey,
    pub event: ReadyEvent,
    pub handler: H,
}

impl<H, P> Reactor<H, P> {
    /// Whether an event on `reg_key` reaches a handler: the registration is live, and its handler
    /// is not out for a call already.
    pub open spec fn deliverable(&self, reg_key: RegKey) -> bool {
        &&& self.registrations().dom().contains(reg_key.0)
        &&& self.handlers()[self.registrations()[reg_key.0].handler_key.0].handler is Some
    }

    /// Takes a handler out of its slot, which stays put, so that its key stays valid.
    fn take_handler(&mut self, key: Key) -> (handler: Option<H>)
        requires
            old(self).wf(),
        ensures
            final(self).wf(),
            final(self).registrations() == old(self).registrations(),
            final(self).spec_shutdown() == old(self).spec_shutdown(),
            final(self).spec_poll() == old(self).spec_poll(),
            old(self).handlers().dom().contains(key) ==> handler
                == old(self).handlers()[key].handler,
            !old(self).handlers().dom().contains(key) ==> handler is None,
            handler is None ==> final(self).handlers() == old(self).handlers(),
            handler is Some ==> only_handler_changed(
                old(self).handlers(),
                final(self).handlers(),
                key,
                None,
            ),
    {
        let ghost before = self.handlers@;
        match self.handlers.get_mut(key) {
            None => None,
            Some(entry) => {
                let taken = entry.handler.take();
                proof {
                    assert(self.handlers@.dom() =~= before.dom());
                    if taken is None {
                        assert(self.handlers@ =~= before);
                    } else {
                        lemma_linked_same_regs(
                            before,
                            self.handlers@,
                            self.registrations@,
                            key,
                            None,
                        );
                    }
                }
                taken
            },
        }
    }

    /// Returns a handler to its slot, unless the slot is gone: then the handler is dropped.
    fn put_back(&mut self, key: Key, handler: H)
        requires
            old(self).wf(),
        ensures
            final(self).wf(),
            final(self).registrations() == old(self).registrations(),
            final(self).spec_shutdown() == old(self).spec_shutdown(),
            final(self).spec_poll() == old(self).spec_poll(),
            old(self).handlers().dom().contains(key) ==> only_handler_changed(
                old(self).handlers(),
                final(self).handlers(),
                key,
                Some(handler),
            ),
            !old(self).handlers().dom().contains(key) ==> final(self).handlers() == old(self).handlers(),
    {
        let ghost before = self.handlers@;
        match self.handlers.get_mut(key) {
            None => {},
            Some(entry) => {
                entry.handler = Some(handler);
                proof {
                    assert(self.handlers@.dom() =~= before.dom());
                    lemma_linked_same_regs(
                        before,
                        self.handlers@,
                        self.registrations@,
                        key,
                        Some(handler),
                    );
                }
            },
        }
    }

    /// Resolves which descriptor fired and takes its handler out for the call. `None`, with nothing
    /// changed, where the key is stale or the handler is out already.
    pub fn begin_dispatch(&mut self, reg_key: RegKey) -> (delivery: Option<Delivery<H>>)
        requires
            old(self).wf(),
        ensures
            final(self).wf(),
            final(self).registrations() == old(self).registrations(),
            final(self).spec_shutdown() == old(self).spec_shutdown(),
            final(self).spec_poll() == old(self).spec_poll(),
            !old(self).deliverable(reg_key) ==> delivery is None && final(self).handlers()
                == old(self).handlers(),
            old(self).deliverable(reg_key) ==> {
                let registration = old(self).registrations()[reg_key.0];
                &&& delivery == Some(
                    Delivery {
                        handler_key: registration.handler_key,
                        event: ReadyEvent {
                            fd: registration.fd,
                            user_data: registration.user_data,
                        },
                        handler: old(self).handlers()[registration.handler_key.0].handler->0,
                    },
                )
                &&& only_handler_changed(
                    old(self).handlers(),
                    final(self).handlers(),
                    registration.handler_key.0,
                    None,
                )
            },
    {
        let registration = match self.registrations.get(reg_key.0) {
            None => {
                return None;
            },
            Some(registration) => *registration,
        };
        match self.take_handler(registration.handler_key.0) {
            None => None,
            Some(handler) => Some(
                Delivery {
                    handler_key: registration.handler_key,
                    event: ReadyEvent { fd: registration.fd, user_data: registration.user_data },
                    handler,
                },
            ),
        }
    }

    /// Whether write readiness on `reg_key` is delivered: asked after the read callback, which may
    /// have unwatched the descriptor or disarmed its write interest.
    pub fn delivers_write(&self, reg_key: RegKey, readiness: Readiness) -> (deliver: bool)
        ensures
            deliver == (readiness.writable && self.registrations().dom().contains(reg_key.0)
                && self.registrations()[reg_key.0].write_interest),
    {
        readiness.writable && match self.registrations.get(reg_key.0) {
            Some(registration) => registration.write_interest,
            None => false,
        }
    }
}

/// Whether the handler of an entry is present and due at `now`.
pub open spec fn is_due<P, H: Handler<P>>(entry: HandlerEntry<H>, now: u64) -> bool {
    entry.handler matches Some(h) && h.deadline() matches Some(at) && at <= now
}

/// Whether `at` is the soonest deadline of the present handlers; `None` where none has one.
pub open spec fn is_soonest<P, H: Handler<P>>(
    handlers: Map<Key, HandlerEntry<H>>,
    at: Option<u64>,
) -> bool {
    &&& forall|k: Key| #[trigger]
        handlers.dom().contains(k) && handlers[k].handler is Some
            && handlers[k].handler->0.deadline() is Some ==> at is Some && at->0
            <= handlers[k].handler->0.deadline()->0
    &&& at is Some ==> exists|k: Key| #[trigger]
        handlers.dom().contains(k) && handlers[k].handler is Some && handlers[k].handler->0.deadline()
            == at
}

/// Whether `out` is `before` with the handler under `key` taken out of its slot.
pub open spec fn taken_out<H, P>(before: Reactor<H, P>, key: Key, out: Reactor<H, P>) -> bool {
    &&& only_handler_changed(before.handlers(), out.handlers(), key, None)
    &&& out.registrations() == before.registrations()
    &&& out.spec_shutdown() == before.spec_shutdown()
    &&& out.spec_poll() == before.spec_poll()
}

/// Whether `after` is `before` with `handler` returned to the slot under `key`, or dropped where
/// that is gone.
pub open spec fn returned<H, P>(
    before: Reactor<H, P>,
    key: Key,
    handler: H,
    after: Reactor<H, P>,
) -> bool {
    &&& if before.handlers().dom().contains(key) {
        only_handler_changed(before.handlers(), after.handlers(), key, Some(handler))
    } else {
        after.handlers() == before.handlers()
    }
    &&& after.registrations() == before.registrations()
    &&& after.spec_shutdown() == before.spec_shutdown()
    &&& after.spec_poll() == before.spec_poll()
}

/// The states that a dispatch passes through: the reactor without the handler, then both after the
/// read and after the write.
pub struct DispatchSteps<H, P> {
    pub out: Reactor<H, P>,
    pub read: (H, Reactor<H, P>),
    pub written: (H, Reactor<H, P>),
}

/// Whether a dispatch goes from `before` to `after` through `steps`: the handler is taken out, gets
/// the event on its read callback where the descriptor is readable, then on its write callback where
/// it is writable and its write interest is still armed, and returns.
pub open spec fn dispatch_goes<P, H: Handler<P>>(
    before: Reactor<H, P>,
    reg_key: RegKey,
    readiness: Readiness,
    after: Reactor<H, P>,
    steps: DispatchSteps<H, P>,
) -> bool {
    let registration = before.registrations()[reg_key.0];
    let key = registration.handler_key.0;
    let handler = before.handlers()[key].handler->0;
    let event = ReadyEvent { fd: registration.fd, user_data: registration.user_data };
    let now = steps.read.1.registrations();
    &&& taken_out(before, key, steps.out)
    &&& if readiness.readable {
        handler.reads(event, steps.out, steps.read.0, steps.read.1)
    } else {
        steps.read == (handler, steps.out)
    }
    &&& if readiness.writable && now.dom().contains(reg_key.0) && now[reg_key.0].write_interest {
        steps.read.0.writes(event, steps.read.1, steps.written.0, steps.written.1)
    } else {
        steps.written == steps.read
    }
    &&& returned(steps.written.1, key, steps.written.0, after)
}

/// Whether readiness of `reg_key` was delivered between `before` and `after`: a key that is stale,
/// or whose handler is out for a call, changes nothing.
pub open spec fn dispatched<P, H: Handler<P>>(
    before: Reactor<H, P>,
    reg_key: RegKey,
    readiness: Readiness,
    after: Reactor<H, P>,
) -> bool {
    if before.deliverable(reg_key) {
        exists|steps: DispatchSteps<H, P>| #[trigger]
            dispatch_goes(before, reg_key, readiness, after, steps)
    } else {
        &&& after.handlers() == before.handlers()
        &&& after.registrations() == before.registrations()
        &&& after.spec_shutdown() == before.spec_shutdown()
        &&& after.spec_poll() == before.spec_poll()
    }
}

/// Whether `events` were delivered one after the other between `before` and `after`.
pub open spec fn delivered<P, H: Handler<P>>(
    before: Reactor<H, P>,
    events: Seq<(RegKey, Readiness)>,
    after: Reactor<H, P>,
) -> bool
    decreases events.len(),
{
    if events.len() == 0 {
        after == before
    } else {
        exists|mid: Reactor<H, P>|
            delivered(before, events.drop_last(), mid) && #[trigger] dispatched(
                mid,
                events.last().0,
                events.last().1,
                after,
            )
    }
}

/// The states that the firing of one deadline passes through: the reactor without the handler, then
/// both after the callback.
pub struct FireSteps<H, P> {
    pub out: Reactor<H, P>,
    pub fired: (H, Reactor<H, P>),
}

/// Whether the firing of the handler under `key` goes from `before` to `after` through `steps`.
pub open spec fn fire_goes<P, H: Handler<P>>(
    before: Reactor<H, P>,
    key: Key,
    now: u64,
    after: Reactor<H, P>,
    steps: FireSteps<H, P>,
) -> bool {
    &&& taken_out(before, key, steps.out)
    &&& before.handlers()[key].handler->0.fires(now, steps.out, steps.fired.0, steps.fired.1)
    &&& returned(steps.fired.1, key, steps.fired.0, after)
}

/// Whether one deadline was handled between `before` and `after`: the handler fired, or it was gone
/// or out for a call and nothing changed.
pub open spec fn handled<P, H: Handler<P>>(
    before: Reactor<H, P>,
    key: Key,
    now: u64,
    after: Reactor<H, P>,
) -> bool {
    if before.handlers().dom().contains(key) && before.handlers()[key].handler is Some {
        exists|steps: FireSteps<H, P>| #[trigger] fire_goes(before, key, now, after, steps)
    } else {
        &&& after.handlers() == before.handlers()
        &&& after.registrations() == before.registrations()
        &&& after.spec_shutdown() == before.spec_shutdown()
        &&& after.spec_poll() == before.spec_poll()
    }
}

/// Whether the deadlines of `due` were handled one after the other between `before` and `after`.
pub open spec fn swept<P, H: Handler<P>>(
    before: Reactor<H, P>,
    due: Seq<HandlerKey>,
    now: u64,
    after: Reactor<H, P>,
) -> bool
    decreases due.len(),
{
    if due.len() == 0 {
        after == before
    } else {
        exists|mid: Reactor<H, P>|
            swept(before, due.drop_last(), now, mid) && #[trigger] handled(
                mid,
                due.last().0,
                now,
                after,
            )
    }
}

/// Whether `due` are the keys of the handlers that are due at `now`, in slot order.
pub open spec fn is_due_list<P, H: Handler<P>>(
    handlers: Map<Key, HandlerEntry<H>>,
    now: u64,
    due: Seq<HandlerKey>,
) -> bool {
    &&& forall|k: Key| #[trigger]
        due.contains(HandlerKey(k)) <==> handlers.dom().contains(k) && is_due::<P, H>(
            handlers[k],
            now,
        )
    &&& forall|i: int, j: int|
        0 <= i < j < due.len() ==> (#[trigger] due[i]).0.index < (#[trigger] due[j]).0.index
}

/// Whether `after` is `before` with a registration of `handler_key` for each of `fds`, new and
/// distinct, under the keys `regs` in order.
pub open spec fn watches_added(
    before: Map<Key, Registration>,
    after: Map<Key, Registration>,
    handler_key: HandlerKey,
    fds: Seq<(i32, u64)>,
    regs: Seq<RegKey>,
) -> bool {
    &&& regs.len() == fds.len()
    &&& regs.no_duplicates()
    &&& forall|i: int|
        0 <= i < fds.len() ==> {
            &&& !before.dom().contains((#[trigger] regs[i]).0)
            &&& after.dom().contains(regs[i].0)
            &&& after[regs[i].0] == (Registration {
                fd: fds[i].0,
                handler_key,
                read_interest: true,
                write_interest: false,
                user_data: fds[i].1,
            })
        }
    &&& forall|r: Key| #[trigger]
        after.dom().contains(r) ==> before.dom().contains(r) || regs.contains(RegKey(r))
    &&& forall|r: Key| #[trigger]
        before.dom().contains(r) ==> after.dom().contains(r) && after[r] == before[r]
}

proof fn lemma_watch_added(
    start: Map<Key, Registration>,
    before: Map<Key, Registration>,
    after: Map<Key, Registration>,
    handler_key: HandlerKey,
    fds: Seq<(i32, u64)>,
    regs: Seq<RegKey>,
    fd: (i32, u64),
    reg: RegKey,
)
    requires
        watches_added(start, before, handler_key, fds, regs),
        !before.dom().contains(reg.0),
        after == before.insert(
            reg.0,
            Registration {
                fd: fd.0,
                handler_key,
                read_interest: true,
                write_interest: false,
                user_data: fd.1,
            },
        ),
    ensures
        watches_added(start, after, handler_key, fds.push(fd), regs.push(reg)),
{
    let now = regs.push(reg);
    assert forall|i: int| 0 <= i < regs.len() implies (#[trigger] regs[i]) != reg by {
        assert(before.dom().contains(regs[i].0));
    }
    assert(now.no_duplicates());
    assert forall|r: Key| #[trigger] after.dom().contains(r) implies start.dom().contains(r)
        || now.contains(RegKey(r)) by {
        if r == reg.0 {
            assert(now[regs.len() as int] == RegKey(r));
        } else if !start.dom().contains(r) {
            assert(before.dom().contains(r));
            assert(regs.contains(RegKey(r)));
            let i = choose|i: int| 0 <= i < regs.len() && regs[i] == RegKey(r);
            assert(now[i] == RegKey(r));
        }
    }
}

impl<P, H: Handler<P>> Reactor<H, P> {
    /// Registers a handler, which is told its key first. It watches nothing yet.
    pub fn register(&mut self, handler: H) -> (key: HandlerKey)
        requires
            old(self).wf(),
            old(self).handler_room(),
        ensures
            final(self).wf(),
            key == old(self).next_handler_key(),
            !old(self).handlers().dom().contains(key.0),
            final(self).handlers().dom() == old(self).handlers().dom().insert(key.0),
            final(self).handlers()[key.0].handler is Some,
            handler.adopts(key, final(self).handlers()[key.0].handler->0),
            final(self).handlers()[key.0].regs@ == Seq::<RegKey>::empty(),
            forall|h: Key|
                h != key.0 ==> #[trigger] final(self).handlers()[h] == old(self).handlers()[h],
            final(self).registrations() == old(self).registrations(),
            final(self).spec_shutdown() == old(self).spec_shutdown(),
            final(self).spec_poll() == old(self).spec_poll(),
            final(self).registration_slots() == old(self).registration_slots(),
    {
        let mut handler = handler;
        handler.adopt_key(HandlerKey(self.handlers.peek_key()));
        self.store(handler)
    }

    /// Registers a handler and watches each `(fd, user_data)` of `fds` under it in one step, in
    /// order. Where not all of them fit, `None`: nothing is left behind.
    pub fn register_with_fds(&mut self, handler: H, fds: &[(i32, u64)]) -> (r: Option<
        (HandlerKey, Vec<RegKey>),
    >)
        requires
            old(self).wf(),
            old(self).handler_room(),
        ensures
            final(self).wf(),
            final(self).spec_shutdown() == old(self).spec_shutdown(),
            final(self).spec_poll() == old(self).spec_poll(),
            r is Some <==> fds@.len() <= old(self).registration_slots(),
            r is None ==> {
                &&& final(self).handlers() == old(self).handlers()
                &&& final(self).registrations() == old(self).registrations()
            },
            r matches Some(keys) ==> {
                &&& keys.0 == old(self).next_handler_key()
                &&& final(self).handlers().dom() == old(self).handlers().dom().insert(keys.0.0)
                &&& final(self).handlers()[keys.0.0].handler is Some
                &&& handler.adopts(keys.0, final(self).handlers()[keys.0.0].handler->0)
                &&& final(self).handlers()[keys.0.0].regs@ == keys.1@
                &&& forall|h: Key|
                    h != keys.0.0 ==> #[trigger] final(self).handlers()[h]
                        == old(self).handlers()[h]
                &&& watches_added(
                    old(self).registrations(),
                    final(self).registrations(),
                    keys.0,
                    fds@,
                    keys.1@,
                )
            },
    {
        let key = self.register(handler);
        let mut regs: Vec<RegKey> = Vec::new();
        let n: usize = fds.len();
        let mut i: usize = 0;
        while i < n
            invariant
                self.wf(),
                old(self).wf(),
                n == fds@.len(),
                i <= n,
                key == old(self).next_handler_key(),
                !old(self).handlers().dom().contains(key.0),
                self.handlers().dom() == old(self).handlers().dom().insert(key.0),
                self.handlers()[key.0].handler is Some,
                handler.adopts(key, self.handlers()[key.0].handler->0),
                self.handlers()[key.0].regs@ == regs@,
                forall|h: Key|
                    h != key.0 ==> #[trigger] self.handlers()[h] == old(self).handlers()[h],
                watches_added(
                    old(self).registrations(),
                    self.registrations(),
                    key,
                    fds@.take(i as int),
                    regs@,
                ),
                self.registration_slots() == old(self).registration_slots() - i,
                self.spec_shutdown() == old(self).spec_shutdown(),
                self.spec_poll() == old(self).spec_poll(),
            decreases n - i,
        {
            if !self.has_registration_room() {
                proof {
                    law_unregistering_undoes_registering(
                        *old(self),
                        *self,
                        key,
                        fds@.take(i as int),
                        regs@,
                    );
                }
                self.unregister(key);
                return None;
            }
            let ghost before = self.registrations();
            let (fd, user_data) = fds[i];
            if let Some(reg) = self.watch(key, fd, user_data) {
                let ghost listed = regs@;
                regs.push(reg);
                proof {
                    assert(fds@.take(i + 1) =~= fds@.take(i as int).push(fds@[i as int]));
                    lemma_watch_added(
                        old(self).registrations(),
                        before,
                        self.registrations(),
                        key,
                        fds@.take(i as int),
                        listed,
                        fds@[i as int],
                        reg,
                    );
                }
            }
            i += 1;
        }
        assert(fds@.take(n as int) =~= fds@);
        proof {
            self.registrations.lemma_index_space();
        }
        Some((key, regs))
    }

    /// Delivers `readiness` to the descriptor that `reg_key` addresses. A stale key, or one whose
    /// handler is out for a call already, is ignored. A write is delivered only where the write
    /// interest is still armed after the read callback. The handler returns to its slot unless a
    /// callback removed it.
    pub fn dispatch(&mut self, reg_key: RegKey, readiness: Readiness)
        requires
            old(self).wf(),
        ensures
            final(self).wf(),
            old(self).deliverable(reg_key) ==> exists|steps: DispatchSteps<H, P>| #[trigger]
                dispatch_goes(*old(self), reg_key, readiness, *final(self), steps),
            !old(self).deliverable(reg_key) || (!readiness.readable && !(readiness.writable && old(
                self,
            ).registrations()[reg_key.0].write_interest)) ==> {
                &&& final(self).handlers() == old(self).handlers()
                &&& final(self).registrations() == old(self).registrations()
                &&& final(self).spec_shutdown() == old(self).spec_shutdown()
                &&& final(self).spec_poll() == old(self).spec_poll()
            },
            old(self).deliverable(reg_key) ==> {
                let h = old(self).registrations()[reg_key.0].handler_key.0;
                final(self).handlers().dom().contains(h) ==> final(self).handlers()[h].handler
                    is Some
            },
    {
        let ghost before = self.handlers();
        let delivery = match self.begin_dispatch(reg_key) {
            None => {
                return;
            },
            Some(delivery) => delivery,
        };
        let ghost out = *self;
        let mut handler = delivery.handler;
        if readiness.readable {
            handler.on_readable(delivery.event, self);
        }
        let ghost read = (handler, *self);
        if self.delivers_write(reg_key, readiness) {
            handler.on_writable(delivery.event, self);
        }
        let ghost written = (handler, *self);
        let ghost between = self.handlers();
        let key = delivery.handler_key.0;
        self.put_back(key, handler);
        proof {
            assert(dispatch_goes(
                *old(self),
                reg_key,
                readiness,
                *self,
                DispatchSteps { out, read, written },
            ));
            if !readiness.readable && !(readiness.writable && old(
                self,
            ).registrations()[reg_key.0].write_interest) {
                assert forall|k: Key| #[trigger] before.dom().contains(k) implies self.handlers()[k]
                    == before[k] by {
                    if k != key {
                        assert(self.handlers()[k] == between[k]);
                        assert(between[k] == before[k]);
                    }
                }
                assert(self.handlers() =~= before);
            }
        }
    }

    /// The soonest deadline any present handler waits on, or `None`.
    pub fn next_deadline(&self) -> (at: Option<u64>)
        requires
            self.wf(),
        ensures
            is_soonest::<P, H>(self.handlers(), at),
    {
        let keys = self.handlers.keys();
        let n: usize = keys.len();
        let mut soonest: Option<u64> = None;
        let mut i: usize = 0;
        while i < n
            invariant
                self.wf(),
                n == keys@.len(),
                i <= n,
                forall|k: Key| #[trigger] keys@.contains(k) <==> self.handlers@.dom().contains(k),
                forall|j: int|
                    0 <= j < i && self.handlers@[#[trigger] keys@[j]].handler is Some
                        && self.handlers@[keys@[j]].handler->0.deadline() is Some ==> soonest
                        is Some && soonest->0 <= self.handlers@[keys@[j]].handler->0.deadline()->0,
                soonest is Some ==> exists|k: Key| #[trigger]
                    self.handlers@.dom().contains(k) && self.handlers@[k].handler is Some
                        && self.handlers@[k].handler->0.deadline() == soonest,
            decreases n - i,
        {
            let key = keys[i];
            assert(keys@.contains(keys@[i as int]));
            match self.handlers.get(key) {
                Some(entry) => match &entry.handler {
                    Some(handler) => {
                        let deadline = handler.next_deadline();
                        match (deadline, soonest) {
                            (Some(d), Some(s)) => {
                                if d < s {
                                    soonest = deadline;
                                }
                            },
                            (Some(d), None) => {
                                soonest = deadline;
                            },
                            _ => {},
                        }
                    },
                    None => {},
                },
                None => {},
            }
            i += 1;
        }
        proof {
            assert forall|k: Key| #[trigger]
                self.handlers().dom().contains(k) && self.handlers()[k].handler is Some
                    && self.handlers()[k].handler->0.deadline() is Some implies soonest is Some
                && soonest->0 <= self.handlers()[k].handler->0.deadline()->0 by {
                assert(keys@.contains(k));
                let j = choose|j: int| 0 <= j < keys@.len() && keys@[j] == k;
                assert(keys@[j] == k);
            }
        }
        soonest
    }

    /// The handlers whose deadline has reached `now`, in slot order.
    pub fn due(&self, now: u64) -> (due: Vec<HandlerKey>)
        requires
            self.wf(),
        ensures
            is_due_list::<P, H>(self.handlers(), now, due@),
    {
        let keys = self.handlers.keys();
        let n: usize = keys.len();
        let mut due: Vec<HandlerKey> = Vec::new();
        let mut i: usize = 0;
        while i < n
            invariant
                self.wf(),
                n == keys@.len(),
                i <= n,
                forall|k: Key| #[trigger] keys@.contains(k) <==> self.handlers@.dom().contains(k),
                forall|a: int, b: int|
                    0 <= a < b < keys@.len() ==> (#[trigger] keys@[a]).index < (
                    #[trigger] keys@[b]).index,
                forall|j: int|
                    0 <= j < i && is_due::<P, H>(self.handlers@[#[trigger] keys@[j]], now)
                        ==> due@.contains(HandlerKey(keys@[j])),
                forall|d: int|
                    0 <= d < due@.len() ==> self.handlers@.dom().contains((#[trigger] due@[d]).0)
                        && is_due::<P, H>(self.handlers@[due@[d].0], now),
                forall|d: int|
                    i < n && 0 <= d < due@.len() ==> (#[trigger] due@[d]).0.index < keys@[i as int].index,
                forall|a: int, b: int|
                    0 <= a < b < due@.len() ==> (#[trigger] due@[a]).0.index < (
                    #[trigger] due@[b]).0.index,
            decreases n - i,
        {
            let key = keys[i];
            let ghost before = due@;
            assert(keys@.contains(keys@[i as int]));
            let fires: bool = match self.handlers.get(key) {
                Some(entry) => match &entry.handler {
                    Some(handler) => match handler.next_deadline() {
                        Some(at) => at <= now,
                        None => false,
                    },
                    None => false,
                },
                None => false,
            };
            if fires {
                due.push(HandlerKey(key));
            }
            proof {
                assert forall|j: int|
                    0 <= j < i + 1 && is_due::<P, H>(self.handlers@[#[trigger] keys@[j]], now)
                        implies due@.contains(HandlerKey(keys@[j])) by {
                    if j < i {
                        assert(before.contains(HandlerKey(keys@[j])));
                        let d = choose|d: int| 0 <= d < before.len() && before[d] == HandlerKey(keys@[j]);
                        assert(due@[d] == HandlerKey(keys@[j]));
                    } else {
                        assert(due@[before.len() as int] == HandlerKey(key));
                    }
                }
            }
            i += 1;
        }
        proof {
            assert forall|k: Key| #[trigger]
                due@.contains(HandlerKey(k)) <==> self.handlers().dom().contains(k) && is_due::<P, H>(
                    self.handlers()[k],
                    now,
                ) by {
                if due@.contains(HandlerKey(k)) {
                    let d = choose|d: int| 0 <= d < due@.len() && due@[d] == HandlerKey(k);
                    assert(due@[d].0 == k);
                }
                if self.handlers().dom().contains(k) && is_due::<P, H>(self.handlers()[k], now) {
                    assert(keys@.contains(k));
                    let j = choose|j: int| 0 <= j < keys@.len() && keys@[j] == k;
                    assert(keys@[j] == k);
                }
            }
        }
        due
    }

    /// Fires the deadline callback of every handler that is due at `now`, as the snapshot at the
    /// start finds them; one that an earlier callback removed is skipped, and one that removes
    /// itself is not put back.
    pub fn dispatch_deadlines(&mut self, now: u64)
        requires
            old(self).wf(),
        ensures
            final(self).wf(),
            exists|due: Seq<HandlerKey>|
                is_due_list::<P, H>(old(self).handlers(), now, due) && #[trigger] swept(
                    *old(self),
                    due,
                    now,
                    *final(self),
                ),
            (forall|k: Key| #[trigger]
                old(self).handlers().dom().contains(k) ==> !is_due::<P, H>(
                    old(self).handlers()[k],
                    now,
                )) ==> *final(self) == *old(self),
    {
        let due = self.due(now);
        let n: usize = due.len();
        let mut i: usize = 0;
        assert(due@.take(0) =~= Seq::<HandlerKey>::empty());
        while i < n
            invariant
                self.wf(),
                n == due@.len(),
                i <= n,
                swept(*old(self), due@.take(i as int), now, *self),
                i == 0 ==> *self == *old(self),
            decreases n - i,
        {
            let key = due[i].0;
            let ghost mid = *self;
            match self.take_handler(key) {
                None => {},
                Some(handler) => {
                    let ghost out = *self;
                    let mut handler = handler;
                    handler.on_deadline(now, self);
                    let ghost fired = (handler, *self);
                    self.put_back(key, handler);
                    assert(fire_goes(mid, key, now, *self, FireSteps { out, fired }));
                },
            }
            proof {
                assert(due@.take(i + 1).drop_last() =~= due@.take(i as int));
                assert(due@.take(i + 1).last() == due@[i as int]);
                assert(handled(mid, key, now, *self));
            }
            i += 1;
        }
        proof {
            assert(due@.take(n as int) =~= due@);
            if n > 0 {
                assert(due@.contains(HandlerKey(due@[0].0)));
            }
        }
    }
}

/// One wait of the run loop: until a descriptor is ready, and no longer than the deadline.
#[derive(Debug, Clone, Copy, PartialEq, Eq, Structural)]
pub struct Wait {
    pub deadline: Option<u64>,
}

impl Wait {
    /// How long the wait may last from `now` on, or `None` where it has no end.
    pub open spec fn spec_timeout(self, now: u64) -> Option<u64> {
        match self.deadline {
            None => None,
            Some(at) => Some(
                if at > now {
                    (at - now) as u64
                } else {
                    0
                },
            ),
        }
    }

    /// How long the wait may last from `now` on, or `None` where it has no end.
    pub fn timeout(&self, now: u64) -> (timeout: Option<u64>)
        ensures
            timeout == self.spec_timeout(now),
    {
        match self.deadline {
            None => None,
            Some(at) => Some(
                if at > now {
                    at - now
                } else {
                    0
                },
            ),
        }
    }

    /// Whether the deadline of the wait has come by `now`.
    pub open spec fn spec_is_over(self, now: u64) -> bool {
        self.deadline matches Some(at) && at <= now
    }

    /// Whether the deadline of the wait has come by `now`.
    pub fn is_over(&self, now: u64) -> (over: bool)
        ensures
            over == self.spec_is_over(now),
    {
        match self.deadline {
            None => false,
            Some(at) => at <= now,
        }
    }
}

/// A wait that lasts its timeout ends with its deadline over, and one that is shorter does not.
pub proof fn law_the_loop_wakes_for_the_deadline(wait: Wait, now: u64, later: u64)
    requires
        wait.deadline is Some,
        now <= later,
    ensures
        wait.spec_timeout(now) is Some,
        later - now >= wait.spec_timeout(now)->0 <==> wait.spec_is_over(later),
{
}

/// Whether one turn of the run loop went from `before` to `after`: the events that the wait brought
/// are delivered in order, and where the deadline is over the handlers that are due fire.
pub open spec fn turned<P, H: Handler<P>>(
    before: Reactor<H, P>,
    wait: Wait,
    events: Seq<(RegKey, Readiness)>,
    now: u64,
    after: Reactor<H, P>,
    mid: Reactor<H, P>,
) -> bool {
    &&& delivered(before, events, mid)
    &&& if wait.spec_is_over(now) {
        exists|due: Seq<HandlerKey>|
            is_due_list::<P, H>(mid.handlers(), now, due) && #[trigger] swept(mid, due, now, after)
    } else {
        after == mid
    }
}

impl<P, H: Handler<P>> Reactor<H, P> {
    /// The next wait of the run loop, or `None` where it was asked to stop.
    pub fn next_wait(&self) -> (wait: Option<Wait>)
        requires
            self.wf(),
        ensures
            wait is None <==> self.spec_shutdown(),
            wait matches Some(w) ==> is_soonest::<P, H>(self.handlers(), w.deadline),
    {
        if self.shutdown {
            None
        } else {
            Some(Wait { deadline: self.next_deadline() })
        }
    }

    /// Delivers what a wait brought: every event in order, then, where the wait's deadline is over
    /// by `now`, the deadlines that are due.
    pub fn after_wait(&mut self, wait: Wait, events: &[(RegKey, Readiness)], now: u64)
        requires
            old(self).wf(),
        ensures
            final(self).wf(),
            exists|mid: Reactor<H, P>| #[trigger]
                turned(*old(self), wait, events@, now, *final(self), mid),
    {
        let n: usize = events.len();
        let mut i: usize = 0;
        assert(events@.take(0) =~= Seq::<(RegKey, Readiness)>::empty());
        while i < n
            invariant
                self.wf(),
                n == events@.len(),
                i <= n,
                delivered(*old(self), events@.take(i as int), *self),
            decreases n - i,
        {
            let (reg_key, readiness) = events[i];
            let ghost mid = *self;
            self.dispatch(reg_key, readiness);
            proof {
                assert(events@.take(i + 1).drop_last() =~= events@.take(i as int));
                assert(events@.take(i + 1).last() == events@[i as int]);
                assert(dispatched(mid, reg_key, readiness, *self));
            }
            i += 1;
        }
        assert(events@.take(n as int) =~= events@);
        let ghost mid = *self;
        if wait.is_over(now) {
            self.dispatch_deadlines(now);
        }
        assert(turned(*old(self), wait, events@, now, *self, mid));
    }
}

/// Whatever a handler watched is gone with it: after it left, no registration dispatches to it.
pub proof fn law_unregister_leaves_no_registration(
    registrations: Map<Key, Registration>,
    handler_key: HandlerKey,
    r: Key,
)
    requires
        of_others(registrations, handler_key).dom().contains(r),
    ensures
        of_others(registrations, handler_key)[r].handler_key != handler_key,
{
}

/// Every key on a live handler's list is a live registration of that handler.
pub proof fn lemma_regs_are_live<H, P>(reactor: Reactor<H, P>, h: Key, i: int)
    requires
        reactor.wf(),
        reactor.handlers().dom().contains(h),
        0 <= i < reactor.handlers()[h].regs@.len(),
    ensures
        reactor.registrations().dom().contains(reactor.handlers()[h].regs@[i].0),
        reactor.registrations()[reactor.handlers()[h].regs@[i].0].handler_key.0 == h,
{
}

/// Every live registration dispatches to a live handler.
pub proof fn law_registrations_have_live_handlers<H, P>(reactor: Reactor<H, P>, reg_key: RegKey)
    requires
        reactor.wf(),
        reactor.registrations().dom().contains(reg_key.0),
    ensures
        reactor.handlers().dom().contains(reactor.registrations()[reg_key.0].handler_key.0),
{
}

/// Unregistering a handler that was registered with some descriptors leaves what there was before.
pub proof fn law_unregistering_undoes_registering<H, P>(
    before: Reactor<H, P>,
    after: Reactor<H, P>,
    key: HandlerKey,
    fds: Seq<(i32, u64)>,
    regs: Seq<RegKey>,
)
    requires
        before.wf(),
        !before.handlers().dom().contains(key.0),
        after.handlers().dom() == before.handlers().dom().insert(key.0),
        forall|h: Key| h != key.0 ==> #[trigger] after.handlers()[h] == before.handlers()[h],
        watches_added(before.registrations(), after.registrations(), key, fds, regs),
    ensures
        after.handlers().remove(key.0) == before.handlers(),
        of_others(after.registrations(), key) == before.registrations(),
{
    assert(after.handlers().remove(key.0) =~= before.handlers());
    assert forall|r: Key| before.registrations().dom().contains(
        r,
    ) implies before.registrations()[r].handler_key != key by {
        law_registrations_have_live_handlers(before, RegKey(r));
    }
    assert(of_others(after.registrations(), key) =~= before.registrations());
}

} // verus!
