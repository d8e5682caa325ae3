//! Laws of the event loop: which handler gets an event, when a deadline is due, and what stays as it
//! was.

#[allow(unused_imports)]
use crate::dispatch::{
    self, applies, frame_routed, is_live_list, offered, packet_goes, routed, CallSteps, CaptureKey,
    PacketHandler, World,
};
#[allow(unused_imports)]
use crate::net::packet::PacketView;
#[allow(unused_imports)]
use crate::reactor::arena::{successor, Key};
#[allow(unused_imports)]
use crate::reactor::{
    delivered, dispatch_goes, dispatched, fire_goes, handled, is_due, is_due_list, is_soonest,
    of_others, rearmed, swept, turned, watched_fds, without, DispatchSteps, FireSteps, Handler,
    HandlerEntry, HandlerKey, Readiness, Reactor, ReadyEvent, RegKey, Registration, Wait,
};
use vstd::prelude::*;

verus! {

/// A key and the number it is packed into say the same: the index above the lower 32 bits, the
/// generation in them.
pub proof fn law_packed_keys_are_read_back(key: Key)
    ensures
        key.packed() / 0x1_0000_0000 == key.index,
        key.packed() % 0x1_0000_0000 == key.generation,
{
}

/// The generation behind another is the next number, and zero behind the last.
pub proof fn law_generations_count_up(generation: u32)
    ensures
        successor(generation) == (generation + 1) % 0x1_0000_0000,
{
}

/// A wait lasts until its deadline and no longer: from an instant before it, for the time that is
/// left; from the deadline itself on it is over. Without a deadline it has no end.
pub proof fn law_waits_end_at_their_deadline(wait: Wait, at: u64, now: u64)
    ensures
        wait.deadline is None ==> wait.spec_timeout(now) is None && !wait.spec_is_over(now),
        wait.deadline == Some(at) && now < at ==> wait.spec_timeout(now) is Some && now
            + wait.spec_timeout(now)->0 == at && !wait.spec_is_over(now),
        wait.deadline == Some(at) && now >= at ==> wait.spec_timeout(now) == Some(0u64)
            && wait.spec_is_over(now),
{
}

/// A handler is due from the instant of its deadline on, and not before; one without a deadline, or
/// out for a call, is never due.
pub proof fn law_handlers_are_due_from_their_deadline_on<P, H: Handler<P>>(
    entry: HandlerEntry<H>,
    now: u64,
)
    ensures
        entry.handler is None ==> !is_due::<P, H>(entry, now),
        entry.handler matches Some(h) ==> match h.deadline() {
            Some(at) => is_due::<P, H>(entry, now) <==> now >= at,
            None => !is_due::<P, H>(entry, now),
        },
{
}

/// The same of reflectors.
pub proof fn law_reflectors_are_due_from_their_deadline_on<C, R, P, H: PacketHandler<C, R, P>>(
    registration: dispatch::Registration<H>,
    now: u64,
)
    ensures
        registration.handler is None ==> !dispatch::is_due::<C, R, P, H>(registration, now),
        registration.handler matches Some(h) ==> match h.deadline() {
            Some(at) => dispatch::is_due::<C, R, P, H>(registration, now) <==> now >= at,
            None => !dispatch::is_due::<C, R, P, H>(registration, now),
        },
{
}

/// The soonest deadline is no later than that of any handler that is in place, and is one of them.
pub proof fn law_the_soonest_deadline<P, H: Handler<P>>(
    handlers: Map<Key, HandlerEntry<H>>,
    at: Option<u64>,
    key: Key,
    h: H,
)
    requires
        is_soonest::<P, H>(handlers, at),
        handlers.dom().contains(key),
        handlers[key].handler == Some(h),
    ensures
        h.deadline() is Some ==> at is Some && at->0 <= h.deadline()->0,
        at is Some ==> exists|k: Key| #[trigger]
            handlers.dom().contains(k) && handlers[k].handler is Some
                && handlers[k].handler->0.deadline() == at,
{
}

/// The same of reflectors.
pub proof fn law_the_soonest_deadline_of_reflectors<C, R, P, H: PacketHandler<C, R, P>>(
    registrations: Map<Key, dispatch::Registration<H>>,
    at: Option<u64>,
    key: Key,
    h: H,
)
    requires
        dispatch::is_soonest::<C, R, P, H>(registrations, at),
        registrations.dom().contains(key),
        registrations[key].handler == Some(h),
    ensures
        h.deadline() is Some ==> at is Some && at->0 <= h.deadline()->0,
        at is Some ==> exists|k: Key| #[trigger]
            registrations.dom().contains(k) && registrations[k].handler is Some
                && registrations[k].handler->0.deadline() == at,
{
}

/// Re-arming sets the interests that are given, and leaves the others and all else.
pub proof fn law_rearming(was: Registration, read: Option<bool>, write: Option<bool>)
    ensures
        ({
            let now = rearmed(was, read, write);
            &&& now.fd == was.fd
            &&& now.handler_key == was.handler_key
            &&& now.user_data == was.user_data
            &&& read is None ==> now.read_interest == was.read_interest
            &&& read is Some ==> now.read_interest == read->0
            &&& write is None ==> now.write_interest == was.write_interest
            &&& write is Some ==> now.write_interest == write->0
        }),
{
}

/// Taking a registration out of a list leaves the others, in order.
pub proof fn law_taking_a_registration_out(a: Seq<RegKey>, r: RegKey, key: RegKey)
    ensures
        without(Seq::empty(), key).len() == 0,
        r == key ==> without(a.push(r), key) == without(a, key),
        r != key ==> without(a.push(r), key) == without(a, key).push(r),
        !without(a, key).contains(key),
    decreases a.len(),
{
    assert(a.push(r).drop_last() =~= a);
    if a.len() > 0 {
        let rest = a.drop_last();
        law_taking_a_registration_out(rest, a.last(), key);
        assert(rest.push(a.last()) =~= a);
        if without(a, key).contains(key) {
            let i = choose|i: int| 0 <= i < without(a, key).len() && without(a, key)[i] == key;
            if a.last() != key {
                let before = without(rest, key);
                if i < before.len() {
                    assert(before[i] == key);
                    assert(before.contains(key));
                }
            }
        }
    }
}

/// The registrations of the other handlers are those of every handler but one, as they were; and
/// the descriptors of some registrations are theirs, in order.
pub proof fn law_registrations_of_others(
    registrations: Map<Key, Registration>,
    handler_key: HandlerKey,
    r: Key,
    regs: Seq<RegKey>,
    i: int,
)
    requires
        0 <= i < regs.len(),
    ensures
        of_others(registrations, handler_key).dom().contains(r) <==> registrations.dom().contains(r)
            && registrations[r].handler_key != handler_key,
        of_others(registrations, handler_key).dom().contains(r) ==> of_others(
            registrations,
            handler_key,
        )[r] == registrations[r],
        watched_fds(regs, registrations).len() == regs.len(),
        watched_fds(regs, registrations)[i] == registrations[regs[i].0].fd,
{
}

/// Whether `now` is `was` with the handler under `key` replaced, and nothing else changed.
pub open spec fn replaced<H, P>(
    was: Reactor<H, P>,
    now: Reactor<H, P>,
    key: Key,
    handler: Option<H>,
) -> bool {
    &&& was.handlers().dom().contains(key)
    &&& now.handlers().dom() == was.handlers().dom()
    &&& now.handlers()[key].handler == handler
    &&& now.handlers()[key].regs == was.handlers()[key].regs
    &&& forall|k: Key| k != key ==> #[trigger] now.handlers()[k] == was.handlers()[k]
    &&& now.registrations() == was.registrations()
    &&& now.spec_shutdown() == was.spec_shutdown()
    &&& now.spec_poll() == was.spec_poll()
}

/// Whether a handler came back from a call: to its slot, or, where that is gone, nowhere.
pub open spec fn came_back<H, P>(
    was: Reactor<H, P>,
    now: Reactor<H, P>,
    key: Key,
    handler: H,
) -> bool {
    if was.handlers().dom().contains(key) {
        replaced(was, now, key, Some(handler))
    } else {
        &&& now.handlers() == was.handlers()
        &&& now.registrations() == was.registrations()
        &&& now.spec_shutdown() == was.spec_shutdown()
        &&& now.spec_poll() == was.spec_poll()
    }
}

/// The course of an event: the reactor without the handler, the handler and the reactor after the
/// read callback, and after the write callback.
pub open spec fn event_course<P, H: Handler<P>>(
    before: Reactor<H, P>,
    reg_key: RegKey,
    readiness: Readiness,
    after: Reactor<H, P>,
    steps: DispatchSteps<H, P>,
) -> bool {
    let reg = before.registrations()[reg_key.0];
    let key = reg.handler_key.0;
    let event = ReadyEvent { fd: reg.fd, user_data: reg.user_data };
    let h = before.handlers()[key].handler->0;
    let (h1, r1) = steps.read;
    let (h2, r2) = steps.written;
    let armed = r1.registrations().dom().contains(reg_key.0)
        && r1.registrations()[reg_key.0].write_interest;
    &&& replaced(before, steps.out, key, None)
    &&& readiness.readable ==> h.reads(event, steps.out, h1, r1)
    &&& !readiness.readable ==> h1 == h && r1 == steps.out
    &&& readiness.writable && armed ==> h1.writes(event, r1, h2, r2)
    &&& !(readiness.writable && armed) ==> h2 == h1 && r2 == r1
    &&& came_back(r2, after, key, h2)
}

/// An event goes to the handler of its registration, with the registration's descriptor and data:
/// to the read callback where it is readable, then to the write callback where it is writable and
/// the write interest is still armed. The handler is out of its slot meanwhile and comes back. An
/// event of a registration that is gone, or whose handler is out, changes nothing.
pub proof fn law_events_go_to_their_handler<P, H: Handler<P>>(
    before: Reactor<H, P>,
    reg_key: RegKey,
    readiness: Readiness,
    after: Reactor<H, P>,
)
    requires
        dispatched(before, reg_key, readiness, after),
    ensures
        ({
            let known = before.registrations().dom().contains(reg_key.0);
            let key = before.registrations()[reg_key.0].handler_key.0;
            if known && before.handlers()[key].handler is Some {
                exists|steps: DispatchSteps<H, P>| #[trigger]
                    event_course(before, reg_key, readiness, after, steps)
            } else {
                &&& after.handlers() == before.handlers()
                &&& after.registrations() == before.registrations()
                &&& after.spec_shutdown() == before.spec_shutdown()
                &&& after.spec_poll() == before.spec_poll()
            }
        }),
{
    if before.deliverable(reg_key) {
        let steps = choose|steps: DispatchSteps<H, P>| #[trigger]
            dispatch_goes(before, reg_key, readiness, after, steps);
        assert(event_course(before, reg_key, readiness, after, steps));
    }
}

/// The course of a deadline.
pub open spec fn deadline_course<P, H: Handler<P>>(
    before: Reactor<H, P>,
    key: Key,
    now: u64,
    after: Reactor<H, P>,
    steps: FireSteps<H, P>,
) -> bool {
    &&& replaced(before, steps.out, key, None)
    &&& before.handlers()[key].handler->0.fires(now, steps.out, steps.fired.0, steps.fired.1)
    &&& came_back(steps.fired.1, after, key, steps.fired.0)
}

/// A deadline goes to its handler, which is out of its slot meanwhile and comes back; one whose
/// handler is gone or out changes nothing.
pub proof fn law_deadlines_go_to_their_handler<P, H: Handler<P>>(
    before: Reactor<H, P>,
    key: Key,
    now: u64,
    after: Reactor<H, P>,
)
    requires
        handled(before, key, now, after),
    ensures
        if before.handlers().dom().contains(key) && before.handlers()[key].handler is Some {
            exists|steps: FireSteps<H, P>| #[trigger]
                deadline_course(before, key, now, after, steps)
        } else {
            &&& after.handlers() == before.handlers()
            &&& after.registrations() == before.registrations()
            &&& after.spec_shutdown() == before.spec_shutdown()
            &&& after.spec_poll() == before.spec_poll()
        },
{
    if before.handlers().dom().contains(key) && before.handlers()[key].handler is Some {
        let steps = choose|steps: FireSteps<H, P>| #[trigger]
            fire_goes(before, key, now, after, steps);
        assert(deadline_course(before, key, now, after, steps));
    }
}

/// Events are delivered one by one, in order; so are deadlines.
pub proof fn law_events_are_delivered_in_order<P, H: Handler<P>>(
    before: Reactor<H, P>,
    first: Seq<(RegKey, Readiness)>,
    event: (RegKey, Readiness),
    due: Seq<HandlerKey>,
    key: HandlerKey,
    now: u64,
    after: Reactor<H, P>,
)
    ensures
        delivered(before, Seq::<(RegKey, Readiness)>::empty(), after) <==> after == before,
        delivered(before, first.push(event), after) ==> exists|mid: Reactor<H, P>|
            delivered(before, first, mid) && #[trigger] dispatched(mid, event.0, event.1, after),
        swept(before, Seq::<HandlerKey>::empty(), now, after) <==> after == before,
        swept(before, due.push(key), now, after) ==> exists|mid: Reactor<H, P>|
            swept(before, due, now, mid) && #[trigger] handled(mid, key.0, now, after),
{
    assert(first.push(event).drop_last() =~= first);
    assert(due.push(key).drop_last() =~= due);
}

/// A turn of the loop delivers its events, and then, where the wait is over, sweeps exactly the
/// handlers that are due by then, in slot order.
pub proof fn law_a_turn_sweeps_what_is_due<P, H: Handler<P>>(
    before: Reactor<H, P>,
    wait: Wait,
    events: Seq<(RegKey, Readiness)>,
    now: u64,
    after: Reactor<H, P>,
    mid: Reactor<H, P>,
)
    requires
        turned(before, wait, events, now, after, mid),
    ensures
        delivered(before, events, mid),
        wait.deadline is None ==> after == mid,
        wait.deadline matches Some(at) && now < at ==> after == mid,
        wait.deadline matches Some(at) && now >= at ==> exists|due: Seq<HandlerKey>| #[trigger]
            swept(mid, due, now, after) && (forall|k: Key| #[trigger]
                due.contains(HandlerKey(k)) <==> mid.handlers().dom().contains(k)
                    && mid.handlers()[k].handler is Some
                    && mid.handlers()[k].handler->0.deadline() is Some
                    && mid.handlers()[k].handler->0.deadline()->0 <= now) && forall|i: int, j: int|
                0 <= i < j < due.len() ==> (#[trigger] due[i]).0.index < (#[trigger] due[j]).0.index,
{
    if let Some(at) = wait.deadline {
        if now >= at {
            let due = choose|due: Seq<HandlerKey>|
                is_due_list::<P, H>(mid.handlers(), now, due) && #[trigger] swept(
                    mid,
                    due,
                    now,
                    after,
                );
            assert(swept(mid, due, now, after));
        }
    }
}

/// Whether `now` is `was` with the reflector under `key` replaced, and nothing else changed.
pub open spec fn reflector_replaced<C, H>(
    was: dispatch::PacketDispatcher<C, H>,
    now: dispatch::PacketDispatcher<C, H>,
    key: Key,
    handler: Option<H>,
) -> bool {
    &&& was.registrations().dom().contains(key)
    &&& now.registrations().dom() == was.registrations().dom()
    &&& now.registrations()[key].handler == handler
    &&& now.registrations()[key].ingress == was.registrations()[key].ingress
    &&& now.registrations()[key].filter == was.registrations()[key].filter
    &&& forall|k: Key| k != key ==> #[trigger] now.registrations()[k] == was.registrations()[k]
    &&& now.spec_table() == was.spec_table()
    &&& now.spec_dial() == was.spec_dial()
    &&& now.spec_host() == was.spec_host()
    &&& now.spec_monitor() == was.spec_monitor()
}

/// The course of a packet: the reflector is out of its slot while it gets the packet, and comes
/// back, or is dropped where its registration is gone.
pub open spec fn packet_course<C, R, P, H: PacketHandler<C, R, P>>(
    before: World<C, H, R, P>,
    key: Key,
    packet: PacketView,
    after: World<C, H, R, P>,
    steps: CallSteps<C, H, R, P>,
) -> bool {
    let called = steps.world.dispatcher;
    &&& reflector_replaced(before.dispatcher, steps.out, key, None)
    &&& before.dispatcher.registrations()[key].handler->0.takes(
        packet,
        World { dispatcher: steps.out, reactor: before.reactor },
        steps.handler,
        steps.world,
    )
    &&& called.registrations().dom().contains(key) ==> reflector_replaced(
        called,
        after.dispatcher,
        key,
        Some(steps.handler),
    )
    &&& !called.registrations().dom().contains(key) ==> after.dispatcher.registrations()
        == called.registrations()
    &&& after.reactor == steps.world.reactor
}

/// A packet goes to a registration's reflector exactly where the registration is live, is for the
/// capture it came in on, its filter accepts it, and the reflector is not out for a call; otherwise
/// nothing changes.
pub proof fn law_packets_go_to_the_reflectors_that_accept_them<
    C,
    R,
    P,
    H: PacketHandler<C, R, P>,
>(
    before: World<C, H, R, P>,
    key: Key,
    ingress: CaptureKey,
    packet: PacketView,
    after: World<C, H, R, P>,
)
    requires
        offered(before, key, ingress, packet, after),
    ensures
        ({
            let list = before.dispatcher.registrations();
            if list.dom().contains(key) && list[key].ingress == ingress && list[key].filter.accepts(
                packet,
            ) && list[key].handler is Some {
                exists|steps: CallSteps<C, H, R, P>| #[trigger]
                    packet_course(before, key, packet, after, steps)
            } else {
                &&& after.dispatcher.registrations() == list
                &&& after.dispatcher.spec_table() == before.dispatcher.spec_table()
                &&& after.dispatcher.spec_dial() == before.dispatcher.spec_dial()
                &&& after.dispatcher.spec_host() == before.dispatcher.spec_host()
                &&& after.dispatcher.spec_monitor() == before.dispatcher.spec_monitor()
                &&& after.reactor == before.reactor
            }
        }),
{
    let list = before.dispatcher.registrations();
    if list.dom().contains(key) && applies(list[key], ingress, packet) && list[key].handler is Some {
        let steps = choose|steps: CallSteps<C, H, R, P>| #[trigger]
            packet_goes(before, key, packet, after, steps);
        let called = steps.world.dispatcher;
        lemma_reflector_replaced(before.dispatcher, steps.out, key, None);
        if called.registrations().dom().contains(key) {
            lemma_reflector_replaced(called, after.dispatcher, key, Some(steps.handler));
        }
        assert(packet_course(before, key, packet, after, steps));
    }
}

proof fn lemma_reflector_replaced<C, H>(
    was: dispatch::PacketDispatcher<C, H>,
    now: dispatch::PacketDispatcher<C, H>,
    key: Key,
    handler: Option<H>,
)
    requires
        now.same_but_registrations(&was),
        dispatch::only_handler_changed(was.registrations(), now.registrations(), key, handler),
    ensures
        reflector_replaced(was, now, key, handler),
{
    assert(now.registrations().dom() =~= was.registrations().dom());
}

/// A captured frame is offered, as the packet it holds, to every live registration in slot order,
/// one after the other; a frame that holds none changes nothing.
pub proof fn law_frames_are_offered_to_every_registration<C, R, P, H: PacketHandler<C, R, P>>(
    before: World<C, H, R, P>,
    ingress: CaptureKey,
    link: crate::net::LinkType,
    frame: Seq<u8>,
    after: World<C, H, R, P>,
)
    requires
        frame_routed(before, ingress, link, frame, after),
    ensures
        match crate::net::packet::parsed(link, frame) {
            Err(_) => after == before,
            Ok(packet) => exists|keys: Seq<Key>| #[trigger]
                routed(before, keys, ingress, packet, after) && (forall|k: Key| #[trigger]
                    keys.contains(k) <==> before.dispatcher.registrations().dom().contains(k))
                    && forall|i: int, j: int|
                    0 <= i < j < keys.len() ==> (#[trigger] keys[i]).index < (
                    #[trigger] keys[j]).index,
        },
{
    if let Ok(packet) = crate::net::packet::parsed(link, frame) {
        let keys = choose|keys: Seq<Key>|
            is_live_list(before.dispatcher.registrations(), keys) && #[trigger] routed(
                before,
                keys,
                ingress,
                packet,
                after,
            );
        assert(routed(before, keys, ingress, packet, after));
    }
}

/// A packet is offered to registrations one after the other, in order.
pub proof fn law_packets_are_offered_in_order<C, R, P, H: PacketHandler<C, R, P>>(
    before: World<C, H, R, P>,
    first: Seq<Key>,
    key: Key,
    ingress: CaptureKey,
    packet: PacketView,
    after: World<C, H, R, P>,
)
    ensures
        routed(before, Seq::<Key>::empty(), ingress, packet, after) <==> after == before,
        routed(before, first.push(key), ingress, packet, after) ==> exists|mid: World<C, H, R, P>|
            routed(before, first, ingress, packet, mid) && #[trigger] offered(
                mid,
                key,
                ingress,
                packet,
                after,
            ),
{
    assert(first.push(key).drop_last() =~= first);
}

/// The watches of a new handler: each a registration of its own for one of the descriptors, with
/// its data, armed to be read and not to be written; every other registration stays.
pub proof fn law_new_watches_are_armed_to_be_read(
    before: Map<Key, Registration>,
    after: Map<Key, Registration>,
    handler_key: HandlerKey,
    fds: Seq<(i32, u64)>,
    regs: Seq<RegKey>,
    i: int,
    r: Key,
)
    requires
        crate::reactor::watches_added(before, after, handler_key, fds, regs),
        0 <= i < fds.len(),
    ensures
        regs.len() == fds.len(),
        regs.no_duplicates(),
        !before.dom().contains(regs[i].0),
        after.dom().contains(regs[i].0),
        after[regs[i].0].fd == fds[i].0,
        after[regs[i].0].user_data == fds[i].1,
        after[regs[i].0].handler_key == handler_key,
        after[regs[i].0].read_interest,
        !after[regs[i].0].write_interest,
        before.dom().contains(r) ==> after.dom().contains(r) && after[r] == before[r],
        after.dom().contains(r) ==> before.dom().contains(r) || regs.contains(RegKey(r)),
{
    let x = regs[i];
}

/// The course of a reflector's deadline.
pub open spec fn reflector_deadline_course<C, R, P, H: PacketHandler<C, R, P>>(
    before: World<C, H, R, P>,
    key: Key,
    now: u64,
    after: World<C, H, R, P>,
    steps: CallSteps<C, H, R, P>,
) -> bool {
    let called = steps.world.dispatcher;
    &&& reflector_replaced(before.dispatcher, steps.out, key, None)
    &&& before.dispatcher.registrations()[key].handler->0.fires(
        now,
        World { dispatcher: steps.out, reactor: before.reactor },
        steps.handler,
        steps.world,
    )
    &&& called.registrations().dom().contains(key) ==> reflector_replaced(
        called,
        after.dispatcher,
        key,
        Some(steps.handler),
    )
    &&& !called.registrations().dom().contains(key) ==> after.dispatcher.registrations()
        == called.registrations()
    &&& after.reactor == steps.world.reactor
}

/// A reflector's deadline goes to it, out of its slot meanwhile; one that is gone or out changes
/// nothing.
pub proof fn law_deadlines_go_to_their_reflector<C, R, P, H: PacketHandler<C, R, P>>(
    before: World<C, H, R, P>,
    key: Key,
    now: u64,
    after: World<C, H, R, P>,
)
    requires
        dispatch::handled(before, key, now, after),
    ensures
        ({
            let list = before.dispatcher.registrations();
            if list.dom().contains(key) && list[key].handler is Some {
                exists|steps: CallSteps<C, H, R, P>| #[trigger]
                    reflector_deadline_course(before, key, now, after, steps)
            } else {
                &&& after.dispatcher.registrations() == list
                &&& after.dispatcher.spec_table() == before.dispatcher.spec_table()
                &&& after.dispatcher.spec_dial() == before.dispatcher.spec_dial()
                &&& after.reactor == before.reactor
            }
        }),
{
    let list = before.dispatcher.registrations();
    if list.dom().contains(key) && list[key].handler is Some {
        let steps = choose|steps: CallSteps<C, H, R, P>| #[trigger]
            dispatch::fire_goes(before, key, now, after, steps);
        let called = steps.world.dispatcher;
        lemma_reflector_replaced(before.dispatcher, steps.out, key, None);
        if called.registrations().dom().contains(key) {
            lemma_reflector_replaced(called, after.dispatcher, key, Some(steps.handler));
        }
        assert(reflector_deadline_course(before, key, now, after, steps));
    }
}

/// An arena gives out the slot that was emptied last, with the generation it now has; where none is
/// empty, a new one behind the others, with generation zero. It has room while a slot is empty or
/// fewer than 2^32 are there.
pub proof fn law_slots_are_given_out<T>(arena: crate::reactor::arena::Arena<T>)
    ensures
        arena.free_slots().len() == 0 && arena.generations().len() <= u32::MAX
            ==> arena.next_key().index == arena.generations().len() && arena.next_key().generation
            == 0,
        arena.free_slots().len() > 0 ==> arena.next_key().index == arena.free_slots().last()
            && arena.next_key().generation
            == arena.generations()[arena.free_slots().last() as int],
        arena.spec_has_room() <==> arena.free_slots().len() > 0 || arena.generations().len()
            < 0x1_0000_0000,
{
}

/// A handler that is taken out for its call and put back after it leaves the loop as it was: each
/// handler, each registration, the shutdown and the poll.
pub proof fn law_calls_put_their_handler_back<H, P>(
    before: Reactor<H, P>,
    key: Key,
    handler: H,
    out: Reactor<H, P>,
    after: Reactor<H, P>,
)
    requires
        crate::reactor::taken_out(before, key, out),
        crate::reactor::returned(out, key, handler, after),
        before.handlers()[key].handler == Some(handler),
    ensures
        out.handlers()[key].handler is None,
        out.handlers()[key].regs == before.handlers()[key].regs,
        forall|k: Key| k != key ==> #[trigger] out.handlers()[k] == before.handlers()[k],
        forall|k: Key| #[trigger] after.handlers()[k] == before.handlers()[k],
        after.handlers().dom() == before.handlers().dom(),
        after.registrations() == before.registrations(),
        after.spec_shutdown() == before.spec_shutdown(),
        after.spec_poll() == before.spec_poll(),
{
    assert forall|k: Key| #[trigger] after.handlers()[k] == before.handlers()[k] by {
        assert(out.handlers()[k] == out.handlers()[k]);
    }
}

/// A reflector that is taken out for its call and put back after it leaves the dispatcher as it was.
pub proof fn law_calls_put_their_reflector_back<C, H>(
    before: dispatch::PacketDispatcher<C, H>,
    key: Key,
    handler: H,
    out: dispatch::PacketDispatcher<C, H>,
    after: dispatch::PacketDispatcher<C, H>,
)
    requires
        dispatch::taken_out(before, key, out),
        dispatch::returned(out, key, handler, after),
        before.registrations()[key].handler == Some(handler),
    ensures
        out.registrations().dom() == before.registrations().dom(),
        out.registrations()[key].handler is None,
        out.registrations()[key].filter == before.registrations()[key].filter,
        out.registrations()[key].ingress == before.registrations()[key].ingress,
        after.registrations() == before.registrations(),
        after.spec_table() == before.spec_table(),
        after.spec_dial() == before.spec_dial(),
        after.spec_host() == before.spec_host(),
        after.spec_monitor() == before.spec_monitor(),
{
    assert(after.registrations() =~= before.registrations());
}

/// Where the handler of a call is gone when the call is over, it is not put back, and nothing else
/// changes either.
pub proof fn law_dropped_handlers_stay_out<H, P>(
    before: Reactor<H, P>,
    key: Key,
    handler: H,
    after: Reactor<H, P>,
)
    requires
        crate::reactor::returned(before, key, handler, after),
        !before.handlers().dom().contains(key),
    ensures
        after.handlers() == before.handlers(),
        after.registrations() == before.registrations(),
{
}

/// The reflectors that are due are exactly those that are there and whose deadline has come, in slot
/// order.
pub proof fn law_due_reflectors<C, R, P, H: PacketHandler<C, R, P>>(
    registrations: Map<Key, dispatch::Registration<H>>,
    now: u64,
    due: Seq<dispatch::RegistrationKey>,
)
    requires
        dispatch::is_due_list::<C, R, P, H>(registrations, now, due),
    ensures
        forall|k: Key| #[trigger]
            due.contains(dispatch::RegistrationKey(k)) <==> registrations.dom().contains(k)
                && registrations[k].handler is Some && registrations[k].handler->0.deadline() is Some
                && registrations[k].handler->0.deadline()->0 <= now,
        forall|i: int, j: int|
            0 <= i < j < due.len() ==> (#[trigger] due[i]).0.index < (#[trigger] due[j]).0.index,
{
}

} // verus!
