//! The reactor: registration, dispatch and deadlines.

use reflector::reactor::{
    Handler, HandlerKey, Reactor, ReadyEvent, Readiness, RegKey, Unregistered, Wait,
};
use std::cell::{Cell, RefCell};
use std::rc::Rc;

const READABLE: Readiness = Readiness {
    readable: true,
    writable: false,
};
const WRITABLE: Readiness = Readiness {
    readable: false,
    writable: true,
};
const BOTH: Readiness = Readiness {
    readable: true,
    writable: true,
};

/// A span of time on the reactor's clock.
const SHORT: u64 = 50;

/// Each test supplies behavior as a closure over the event that fired plus the reactor.
type Action = Box<dyn FnMut(ReadyEvent, &mut TestReactor)>;

/// What a test timer does when it fires.
type TimerAction = Box<dyn FnMut(u64, &mut TestReactor)>;

/// The kernel's part is not there: the tests hand readiness in themselves.
type TestReactor = Reactor<TestHandler, ()>;

struct TestHandler {
    on_read: Option<Action>,
    on_write: Option<Action>,
    deadline: Option<u64>,
    on_fire: Option<TimerAction>,
    key_seen: Option<Rc<Cell<Option<HandlerKey>>>>,
}

impl TestHandler {
    fn idle() -> Self {
        TestHandler {
            on_read: None,
            on_write: None,
            deadline: None,
            on_fire: None,
            key_seen: None,
        }
    }

    fn read(action: impl FnMut(ReadyEvent, &mut TestReactor) + 'static) -> Self {
        TestHandler {
            on_read: Some(Box::new(action)),
            ..TestHandler::idle()
        }
    }

    fn read_write(
        read: impl FnMut(ReadyEvent, &mut TestReactor) + 'static,
        write: impl FnMut(ReadyEvent, &mut TestReactor) + 'static,
    ) -> Self {
        TestHandler {
            on_read: Some(Box::new(read)),
            on_write: Some(Box::new(write)),
            ..TestHandler::idle()
        }
    }
}

impl Handler<()> for TestHandler {
    fn on_readable(&mut self, event: ReadyEvent, reactor: &mut TestReactor) {
        if let Some(read) = &mut self.on_read {
            read(event, reactor);
        }
    }

    fn on_writable(&mut self, event: ReadyEvent, reactor: &mut TestReactor) {
        if let Some(write) = &mut self.on_write {
            write(event, reactor);
        }
    }

    fn next_deadline(&self) -> Option<u64> {
        self.deadline
    }

    fn on_deadline(&mut self, now: u64, reactor: &mut TestReactor) {
        if let Some(fire) = &mut self.on_fire {
            fire(now, reactor);
        }
    }

    fn adopt_key(&mut self, key: HandlerKey) {
        if let Some(seen) = &self.key_seen {
            seen.set(Some(key));
        }
    }
}

/// Register a handler of one descriptor and watch it; the handler's key (for
/// `is_registered`/`unregister`) and the registration's (for `dispatch`/write interest).
fn watch1(reactor: &mut TestReactor, handler: TestHandler, fd: i32) -> (HandlerKey, RegKey) {
    let hk = reactor.register(handler);
    let rk = reactor.watch(hk, fd, 0).unwrap();
    (hk, rk)
}

fn timer(
    deadline: Option<u64>,
    on_fire: impl FnMut(u64, &mut TestReactor) + 'static,
) -> TestHandler {
    TestHandler {
        deadline,
        on_fire: Some(Box::new(on_fire)),
        ..TestHandler::idle()
    }
}

#[test]
fn dispatch_calls_on_readable() {
    let mut reactor = Reactor::new(());
    let seen = Rc::new(Cell::new(false));
    let handler = {
        let seen = seen.clone();
        TestHandler::read(move |_event, _reactor| seen.set(true))
    };
    let (_hk, rk) = watch1(&mut reactor, handler, 3);
    reactor.dispatch(rk, READABLE);
    assert!(seen.get());
}

#[test]
fn dispatch_calls_on_readable_with_the_fd() {
    let mut reactor = Reactor::new(());
    let seen = Rc::new(Cell::new(0));
    let handler = {
        let seen = seen.clone();
        TestHandler::read(move |event, _reactor| seen.set(event.fd))
    };
    let (_hk, rk) = watch1(&mut reactor, handler, 3);
    reactor.dispatch(rk, READABLE);
    assert_eq!(seen.get(), 3);
}

/// A handler that unregisters itself on its first event.
fn unregisters_itself(fd: i32) {
    let mut reactor = Reactor::new(());
    let hits = Rc::new(Cell::new(0u32));
    let self_key: Rc<Cell<Option<HandlerKey>>> = Rc::new(Cell::new(None));
    let handler = {
        let hits = hits.clone();
        let self_key = self_key.clone();
        TestHandler::read(move |_event, reactor| {
            hits.set(hits.get() + 1);
            if let Some(k) = self_key.get() {
                assert!(reactor.unregister(k).is_some());
            }
        })
    };
    let (hk, rk) = watch1(&mut reactor, handler, fd);
    self_key.set(Some(hk));

    reactor.dispatch(rk, READABLE);
    assert_eq!(hits.get(), 1);
    assert!(!reactor.is_registered(hk));

    // The now-stale registration dispatches to nothing.
    reactor.dispatch(rk, READABLE);
    assert_eq!(hits.get(), 1);
}

#[test]
fn reactor_handler_can_unregister_itself() {
    unregisters_itself(7);
}

#[test]
fn mod_handler_can_unregister_itself() {
    unregisters_itself(3);
}

#[test]
fn reactor_handler_can_register_during_dispatch() {
    // Registering a new handler while dispatching: nothing borrows the slots during the call, so
    // it is simply allowed.
    let mut reactor = Reactor::new(());
    let added: Rc<Cell<Option<HandlerKey>>> = Rc::new(Cell::new(None));
    // The handler takes the new one out of this slot when it fires.
    let to_add = Rc::new(RefCell::new(Some(TestHandler::read(|_, _| {}))));
    let handler = {
        let added = added.clone();
        let to_add = to_add.clone();
        TestHandler::read(move |_event, reactor| {
            let handler = to_add.borrow_mut().take().unwrap();
            let (new_key, _regs) = reactor.register_with_fds(handler, &[(9, 0)]).unwrap();
            added.set(Some(new_key));
        })
    };
    let (hk, rk) = watch1(&mut reactor, handler, 8);
    reactor.dispatch(rk, READABLE);
    assert!(reactor.is_registered(added.get().unwrap()));
    assert!(reactor.is_registered(hk));
}

#[test]
fn mod_handler_can_register_during_dispatch() {
    let mut reactor = Reactor::new(());
    let added: Rc<Cell<Option<HandlerKey>>> = Rc::new(Cell::new(None));
    let handler = {
        let added = added.clone();
        TestHandler::read(move |_event, reactor| {
            let (new_key, _) = watch1(reactor, TestHandler::read(|_, _| {}), 4);
            added.set(Some(new_key));
        })
    };
    let (key, rk) = watch1(&mut reactor, handler, 3);
    reactor.dispatch(rk, READABLE);
    assert!(reactor.is_registered(added.get().unwrap()));
    assert!(reactor.is_registered(key));
}

/// A handler that unregisters another one.
fn unregisters_another(victim_fd: i32, actor_fd: i32) {
    let mut reactor = Reactor::new(());
    let victim_hits = Rc::new(Cell::new(0u32));
    let victim_handler = {
        let victim_hits = victim_hits.clone();
        TestHandler::read(move |_event, _reactor| {
            victim_hits.set(victim_hits.get() + 1);
        })
    };
    let (victim, victim_rk) = watch1(&mut reactor, victim_handler, victim_fd);
    let victim_cell = Rc::new(Cell::new(Some(victim)));
    let actor_handler = {
        let victim_cell = victim_cell.clone();
        TestHandler::read(move |_event, reactor| {
            if let Some(v) = victim_cell.get() {
                assert!(reactor.unregister(v).is_some());
            }
        })
    };
    let (_actor, actor_rk) = watch1(&mut reactor, actor_handler, actor_fd);

    reactor.dispatch(actor_rk, READABLE);
    assert!(!reactor.is_registered(victim));

    // Dispatching the stale victim's registration is a safe no-op.
    reactor.dispatch(victim_rk, READABLE);
    assert_eq!(victim_hits.get(), 0);
}

#[test]
fn reactor_handler_can_unregister_another() {
    unregisters_another(8, 9);
}

#[test]
fn mod_handler_can_unregister_another() {
    unregisters_another(4, 3);
}

/// Write readiness reaches a handler only while its write interest is armed.
fn write_interest_gates(fd: i32) {
    let mut reactor = Reactor::new(());
    let writes = Rc::new(Cell::new(0u32));
    let handler = TestHandler::read_write(|_, _| {}, {
        let writes = writes.clone();
        move |_event, _reactor| writes.set(writes.get() + 1)
    });
    let (_hk, rk) = watch1(&mut reactor, handler, fd);

    // Disarmed: writable readiness does nothing.
    reactor.dispatch(rk, WRITABLE);
    assert_eq!(writes.get(), 0);

    assert!(reactor.set_write_interest(rk, true));
    reactor.dispatch(rk, WRITABLE);
    assert_eq!(writes.get(), 1);
}

#[test]
fn reactor_write_interest_gates_on_writable() {
    write_interest_gates(8);
}

#[test]
fn mod_write_interest_gates_on_writable() {
    write_interest_gates(3);
}

/// The read phase disarms write interest on its own registration before the write phase.
fn disarming_skips_the_write(fd: i32) {
    let mut reactor = Reactor::new(());
    let writes = Rc::new(Cell::new(0u32));
    let reg: Rc<Cell<Option<RegKey>>> = Rc::new(Cell::new(None));
    let handler = TestHandler::read_write(
        {
            let reg = reg.clone();
            move |_event, reactor| {
                assert!(reactor.set_write_interest(reg.get().unwrap(), false));
            }
        },
        {
            let writes = writes.clone();
            move |_event, _reactor| writes.set(writes.get() + 1)
        },
    );
    let (_hk, rk) = watch1(&mut reactor, handler, fd);
    reg.set(Some(rk));
    assert!(reactor.set_write_interest(rk, true));

    // Both ready, but the read handler disarms write before the write phase.
    reactor.dispatch(rk, BOTH);
    assert_eq!(writes.get(), 0);
}

#[test]
fn reactor_read_handler_disarming_write_skips_the_write_phase() {
    disarming_skips_the_write(8);
}

#[test]
fn mod_read_handler_disarming_write_skips_the_write_phase() {
    disarming_skips_the_write(3);
}

/// The read phase removes the handler, so that the write phase finds nobody.
fn unregistering_skips_the_write(fd: i32) {
    let mut reactor = Reactor::new(());
    let writes = Rc::new(Cell::new(0u32));
    let self_key: Rc<Cell<Option<HandlerKey>>> = Rc::new(Cell::new(None));
    let handler = TestHandler::read_write(
        {
            let self_key = self_key.clone();
            move |_event, reactor| {
                if let Some(k) = self_key.get() {
                    assert!(reactor.unregister(k).is_some());
                }
            }
        },
        {
            let writes = writes.clone();
            move |_event, _reactor| writes.set(writes.get() + 1)
        },
    );
    let (hk, rk) = watch1(&mut reactor, handler, fd);
    self_key.set(Some(hk));
    assert!(reactor.set_write_interest(rk, true));

    reactor.dispatch(rk, BOTH);
    assert_eq!(writes.get(), 0); // handler gone after read, write skipped
    assert!(!reactor.is_registered(hk));
}

#[test]
fn reactor_read_handler_unregistering_itself_skips_the_write_phase() {
    unregistering_skips_the_write(8);
}

#[test]
fn mod_read_handler_unregistering_itself_skips_the_write_phase() {
    unregistering_skips_the_write(3);
}

#[test]
fn dispatching_a_stale_reg_is_a_noop() {
    let mut reactor = Reactor::new(());
    let handler = TestHandler::read(|_, _| panic!("must not fire"));
    let (hk, rk) = watch1(&mut reactor, handler, 8);
    assert!(reactor.unregister(hk).is_some());
    reactor.dispatch(rk, READABLE); // no panic, no effect
}

#[test]
fn dispatching_a_stale_key_is_a_noop() {
    let mut reactor = Reactor::new(());
    let (hk, rk) = watch1(
        &mut reactor,
        TestHandler::read(|_, _| panic!("must not fire")),
        3,
    );
    assert!(reactor.unregister(hk).is_some());
    reactor.dispatch(rk, READABLE); // no panic, no effect
    assert!(reactor.unregister(hk).is_none());
}

#[test]
fn unwatch_removes_one_fd_and_leaves_the_handler() {
    let mut reactor = Reactor::new(());
    let hits = Rc::new(Cell::new(0u32));
    // One handler watching two descriptors.
    let handler = {
        let hits = hits.clone();
        TestHandler::read(move |_event, _reactor| hits.set(hits.get() + 1))
    };
    let hk = reactor.register(handler);
    let reg_a = reactor.watch(hk, 8, 0).unwrap();
    let reg_b = reactor.watch(hk, 9, 0).unwrap();

    reactor.dispatch(reg_a, READABLE);
    reactor.dispatch(reg_b, READABLE);
    assert_eq!(hits.get(), 2);

    // Unwatch one: it goes stale, but the handler and its other descriptor stay live.
    assert_eq!(reactor.unwatch(reg_a), Some(8));
    reactor.dispatch(reg_a, READABLE); // stale, no-op
    reactor.dispatch(reg_b, READABLE);
    assert_eq!(hits.get(), 3);
    assert!(reactor.is_registered(hk));

    // Unwatching an already-gone registration is a benign nothing.
    assert_eq!(reactor.unwatch(reg_a), None);
}

#[test]
fn watch_hands_back_the_ready_event() {
    let mut reactor = Reactor::new(());
    let seen: Rc<Cell<Option<ReadyEvent>>> = Rc::new(Cell::new(None));
    let handler = {
        let seen = seen.clone();
        TestHandler::read(move |event, _reactor| seen.set(Some(event)))
    };
    let hk = reactor.register(handler);
    let rk = reactor.watch(hk, 8, 0xdead_beef).unwrap();

    reactor.dispatch(rk, READABLE);
    let event = seen.get().expect("handler fired");
    assert_eq!(event.user_data, 0xdead_beef); // the token round-trips
    assert_eq!(event.fd, 8);
}

#[test]
fn register_hands_the_handler_its_own_key() {
    let mut reactor: TestReactor = Reactor::new(());
    let seen = Rc::new(Cell::new(None));
    let key = reactor.register(TestHandler {
        key_seen: Some(seen.clone()),
        ..TestHandler::idle()
    });
    assert_eq!(
        seen.get(),
        Some(key),
        "adopt_key received the handler's own key"
    );
}

#[test]
fn next_deadline_reports_the_soonest_across_handlers() {
    let mut reactor = Reactor::new(());
    let base = 1_000;
    reactor.register(timer(Some(base + SHORT * 2), |_, _| {}));
    reactor.register(timer(Some(base + SHORT), |_, _| {}));
    reactor.register(timer(None, |_, _| {})); // no timer: ignored by the minimum
    assert_eq!(reactor.next_deadline(), Some(base + SHORT));
}

#[test]
fn dispatch_deadlines_fires_only_the_handlers_that_are_due() {
    let mut reactor = Reactor::new(());
    let base = 1_000;
    let due = Rc::new(Cell::new(false));
    let early = Rc::new(Cell::new(false));
    reactor.register(timer(Some(base), {
        let due = due.clone();
        move |_, _| due.set(true)
    }));
    reactor.register(timer(Some(base + SHORT * 10), {
        let early = early.clone();
        move |_, _| early.set(true)
    }));
    reactor.dispatch_deadlines(base + SHORT);
    assert!(due.get(), "a deadline at or before now fires");
    assert!(!early.get(), "a deadline in the future does not");
}

#[test]
fn poll_once_dispatches_a_ready_fd() {
    let mut reactor = Reactor::new(());
    let fired = Rc::new(Cell::new(false));
    let handler = {
        let fired = fired.clone();
        TestHandler::read(move |_event, _reactor| fired.set(true))
    };
    let (_hk, rk) = watch1(&mut reactor, handler, 8);
    let wait = reactor.next_wait().unwrap();

    // Nothing ready yet: the turn dispatches nothing.
    reactor.after_wait(wait, &[], SHORT);
    assert!(!fired.get());

    // The descriptor readable: the handler fires.
    reactor.after_wait(wait, &[(rk, READABLE)], SHORT);
    assert!(fired.get());
}

#[test]
fn run_loop_stops_when_a_handler_requests_shutdown() {
    let mut reactor = Reactor::new(());
    let handler =
        TestHandler::read(|_event, reactor: &mut TestReactor| reactor.request_shutdown());
    let (_hk, rk) = watch1(&mut reactor, handler, 8);
    let mut turns = 0;
    while let Some(wait) = reactor.next_wait() {
        reactor.after_wait(wait, &[(rk, READABLE)], turns);
        turns += 1;
    }
    assert_eq!(turns, 1);
    assert!(reactor.is_shutting_down());
}

#[test]
fn run_loop_wakes_at_a_deadline_and_runs_the_timer() {
    let mut reactor = Reactor::new(());
    let fired = Rc::new(Cell::new(false));
    reactor.register(timer(Some(SHORT), {
        let fired = fired.clone();
        move |_now, reactor: &mut TestReactor| {
            fired.set(true);
            reactor.request_shutdown();
        }
    }));
    // No descriptor is watched, so nothing but the timer elapsing can end a wait.
    let mut now = 0;
    while let Some(wait) = reactor.next_wait() {
        now += wait.timeout(now).expect("a timer is pending");
        reactor.after_wait(wait, &[], now);
    }
    assert!(fired.get());
    assert_eq!(now, SHORT);
}

#[test]
fn a_wait_lasts_until_its_deadline() {
    let wait = Wait { deadline: Some(70) };
    assert_eq!(wait.timeout(20), Some(50));
    assert_eq!(wait.timeout(70), Some(0));
    assert_eq!(wait.timeout(90), Some(0));
    assert!(!wait.is_over(69));
    assert!(wait.is_over(70));
    let endless = Wait { deadline: None };
    assert_eq!(endless.timeout(20), None);
    assert!(!endless.is_over(u64::MAX));
}

#[test]
fn unregister_hands_back_the_handler_and_its_descriptors() {
    let mut reactor: TestReactor = Reactor::new(());
    let (hk, regs) = reactor
        .register_with_fds(TestHandler::idle(), &[(8, 1), (9, 2)])
        .unwrap();
    assert_eq!(regs.len(), 2);
    let Unregistered { handler, fds } = reactor.unregister(hk).unwrap();
    assert!(handler.is_some());
    assert_eq!(fds, [8, 9]);
    assert!(reactor.interests(regs[0]).is_none());
    assert!(reactor.interests(regs[1]).is_none());
}

#[test]
fn interests_follow_what_was_armed() {
    let mut reactor: TestReactor = Reactor::new(());
    let (_hk, rk) = watch1(&mut reactor, TestHandler::idle(), 8);
    let armed = reactor.interests(rk).unwrap();
    assert!(armed.read_interest && !armed.write_interest);
    assert!(reactor.set_read_interest(rk, false));
    assert!(reactor.set_write_interest(rk, true));
    let armed = reactor.interests(rk).unwrap();
    assert!(!armed.read_interest && armed.write_interest);
    assert_eq!(armed.fd, 8);
    assert_eq!(reactor.unwatch(rk), Some(8));
    assert!(!reactor.set_read_interest(rk, true));
    assert!(!reactor.set_write_interest(rk, true));
}

#[test]
fn a_handler_out_for_its_call_is_not_called_again() {
    let mut reactor = Reactor::new(());
    let hits = Rc::new(Cell::new(0u32));
    let reg: Rc<Cell<Option<RegKey>>> = Rc::new(Cell::new(None));
    let handler = {
        let hits = hits.clone();
        let reg = reg.clone();
        TestHandler::read(move |_event, reactor| {
            hits.set(hits.get() + 1);
            reactor.dispatch(reg.get().unwrap(), READABLE);
        })
    };
    let (_hk, rk) = watch1(&mut reactor, handler, 8);
    reg.set(Some(rk));
    reactor.dispatch(rk, READABLE);
    assert_eq!(hits.get(), 1);
    reactor.dispatch(rk, READABLE);
    assert_eq!(hits.get(), 2);
}
