//! The registry of minted DIAL proxies: one proxy per device, shared by the SSDP advertisement and
//! search-response paths.

use crate::dispatch::CaptureKey;
use crate::net::addr::SocketAddrV4;
use crate::reactor::arena::Key;
use crate::reactor::{HandlerKey, Reactor, Unregistered};
use vstd::prelude::*;

verus! {

/// The most proxies at once, so that a burst of advertised devices cannot exhaust listeners or
/// reactor slots. At the cap a new device's location is reflected unchanged.
pub const MAX_DIAL_PROXIES: usize = 32;

/// One minted proxy, found by its source capture and its device's endpoint: the capture its device
/// connections leave by, its reactor key (stale once the proxy is gone), the address of its
/// description listener, and the instant after which it is evicted.
#[derive(Debug, Clone, Copy)]
pub struct DialEntry {
    pub source: CaptureKey,
    pub target: CaptureKey,
    pub endpoint: SocketAddrV4,
    pub handler: HandlerKey,
    pub desc_addr: SocketAddrV4,
    pub desc_grace: u64,
}

/// The registry of minted DIAL proxies.
pub struct DialContext {
    proxies: Vec<DialEntry>,
}

/// Whether `entry` is the proxy for this device on this source.
pub open spec fn is_for(entry: DialEntry, source: CaptureKey, endpoint: SocketAddrV4) -> bool {
    entry.source == source && entry.endpoint == endpoint
}

/// The position of the first proxy for a device on a source.
pub open spec fn position(
    proxies: Seq<DialEntry>,
    source: CaptureKey,
    endpoint: SocketAddrV4,
) -> Option<int>
    decreases proxies.len(),
{
    if proxies.len() == 0 {
        None
    } else {
        match position(proxies.drop_last(), source, endpoint) {
            Some(i) => Some(i),
            None => if is_for(proxies.last(), source, endpoint) {
                Some(proxies.len() - 1)
            } else {
                None
            },
        }
    }
}

/// The proxies with `entry` recorded: in place of the one for the same device and source, else at
/// the end.
pub open spec fn recorded(proxies: Seq<DialEntry>, entry: DialEntry) -> Seq<DialEntry> {
    match position(proxies, entry.source, entry.endpoint) {
        Some(i) => proxies.update(i, entry),
        None => proxies.push(entry),
    }
}

/// Whether no two proxies are for the same device on the same source.
pub open spec fn one_per_device(proxies: Seq<DialEntry>) -> bool {
    forall|i: int, j: int|
        0 <= i < j < proxies.len() ==> !is_for(
            #[trigger] proxies[i],
            (#[trigger] proxies[j]).source,
            proxies[j].endpoint,
        )
}

/// The proxies whose handler is live, in order.
pub open spec fn live_proxies(proxies: Seq<DialEntry>, live: Set<Key>) -> Seq<DialEntry>
    decreases proxies.len(),
{
    if proxies.len() == 0 {
        Seq::empty()
    } else {
        let before = live_proxies(proxies.drop_last(), live);
        if live.contains(proxies.last().handler.0) {
            before.push(proxies.last())
        } else {
            before
        }
    }
}

/// The handlers of the first `n` proxies that are marked for eviction.
pub open spec fn evicted(proxies: Seq<DialEntry>, marked: Seq<bool>, n: nat) -> Set<Key>
    decreases n,
{
    if n == 0 {
        Set::empty()
    } else {
        let before = evicted(proxies, marked, (n - 1) as nat);
        if marked[n - 1] {
            before.insert(proxies[n - 1].handler.0)
        } else {
            before
        }
    }
}

/// What is kept of the first `n` proxies: those not marked whose handler is still live, also after
/// the evictions before them.
pub open spec fn kept(
    proxies: Seq<DialEntry>,
    marked: Seq<bool>,
    live: Set<Key>,
    n: nat,
) -> Seq<DialEntry>
    decreases n,
{
    if n == 0 {
        Seq::empty()
    } else {
        let before = kept(proxies, marked, live, (n - 1) as nat);
        let entry = proxies[n - 1];
        if !marked[n - 1] && live.contains(entry.handler.0) && !evicted(
            proxies,
            marked,
            (n - 1) as nat,
        ).contains(entry.handler.0) {
            before.push(entry)
        } else {
            before
        }
    }
}

/// The handlers that leave the reactor with the first `n` proxies, in order.
pub open spec fn leaving(
    proxies: Seq<DialEntry>,
    marked: Seq<bool>,
    live: Set<Key>,
    n: nat,
) -> Seq<Key>
    decreases n,
{
    if n == 0 {
        Seq::empty()
    } else {
        let before = leaving(proxies, marked, live, (n - 1) as nat);
        let key = proxies[n - 1].handler.0;
        if marked[n - 1] && live.contains(key) && !evicted(
            proxies,
            marked,
            (n - 1) as nat,
        ).contains(key) {
            before.push(key)
        } else {
            before
        }
    }
}

/// What an eviction does to the reactor: the evicted handlers are gone, with their registrations,
/// and nothing else changes.
pub open spec fn reactor_without<H, P>(
    before: Reactor<H, P>,
    after: Reactor<H, P>,
    gone: Set<Key>,
) -> bool {
    &&& forall|k: Key| #[trigger]
        after.handlers().dom().contains(k) <==> before.handlers().dom().contains(k)
            && !gone.contains(k)
    &&& forall|k: Key| #[trigger]
        after.handlers().dom().contains(k) ==> after.handlers()[k] == before.handlers()[k]
    &&& forall|r: Key| #[trigger]
        after.registrations().dom().contains(r) <==> before.registrations().dom().contains(r)
            && !gone.contains(before.registrations()[r].handler_key.0)
    &&& forall|r: Key| #[trigger]
        after.registrations().dom().contains(r) ==> after.registrations()[r]
            == before.registrations()[r]
    &&& after.spec_shutdown() == before.spec_shutdown()
    &&& after.spec_poll() == before.spec_poll()
}

/// Whether the handed-back handlers are those of `keys`, each with the descriptors it watched.
pub open spec fn handed_back<H, P>(
    reactor: Reactor<H, P>,
    keys: Seq<Key>,
    gone: Seq<Unregistered<H>>,
) -> bool {
    &&& gone.len() == keys.len()
    &&& forall|i: int|
        0 <= i < gone.len() ==> {
            &&& (#[trigger] gone[i]).handler == reactor.handlers()[keys[i]].handler
            &&& gone[i].fds@ == crate::reactor::watched_fds(
                reactor.handlers()[keys[i]].regs@,
                reactor.registrations(),
            )
        }
}

impl View for DialContext {
    type V = Seq<DialEntry>;

    closed spec fn view(&self) -> Seq<DialEntry> {
        self.proxies@
    }
}

impl DialContext {
    /// No two proxies are for the same device on the same source.
    pub open spec fn wf(&self) -> bool {
        one_per_device(self@)
    }

    /// An empty registry.
    pub fn new() -> (context: Self)
        ensures
            context.wf(),
            context@ == Seq::<DialEntry>::empty(),
    {
        DialContext { proxies: Vec::new() }
    }

    /// How many proxies are recorded.
    pub fn proxy_count(&self) -> (n: usize)
        ensures
            n == self@.len(),
    {
        self.proxies.len()
    }

    fn find(&self, source: CaptureKey, endpoint: SocketAddrV4) -> (at: Option<usize>)
        ensures
            match at {
                Some(i) => {
                    &&& position(self@, source, endpoint) == Some(i as int)
                    &&& i < self@.len()
                    &&& is_for(self@[i as int], source, endpoint)
                    &&& forall|j: int|
                        0 <= j < i ==> !is_for(#[trigger] self@[j], source, endpoint)
                },
                None => {
                    &&& position(self@, source, endpoint) is None
                    &&& forall|j: int|
                        0 <= j < self@.len() ==> !is_for(#[trigger] self@[j], source, endpoint)
                },
            },
    {
        let n: usize = self.proxies.len();
        let mut i: usize = 0;
        assert(self@.take(0) =~= Seq::<DialEntry>::empty());
        while i < n
            invariant
                n == self@.len(),
                n == self.proxies@.len(),
                self@ == self.proxies@,
                i <= n,
                position(self@.take(i as int), source, endpoint) is None,
                forall|j: int| 0 <= j < i ==> !is_for(#[trigger] self@[j], source, endpoint),
            decreases n - i,
        {
            assert(self@.take(i + 1).drop_last() =~= self@.take(i as int));
            let entry = self.proxies[i];
            if entry.source == source && entry.endpoint == endpoint {
                proof {
                    lemma_position_prefix(self@, source, endpoint, i + 1);
                }
                return Some(i);
            }
            i += 1;
        }
        assert(self@.take(n as int) =~= self@);
        None
    }

    /// The grace recorded for a device on a source.
    pub fn grace_of(&self, source: CaptureKey, endpoint: SocketAddrV4) -> (grace: Option<u64>)
        ensures
            grace == match position(self@, source, endpoint) {
                Some(i) => Some(self@[i].desc_grace),
                None => None,
            },
    {
        match self.find(source, endpoint) {
            Some(i) => Some(self.proxies[i].desc_grace),
            None => None,
        }
    }

    /// The live proxy's description-listener address for a device on a source, its grace extended
    /// to `desc_grace`. An entry whose proxy is gone is dropped and counts as absent.
    pub fn lookup<H, P>(
        &mut self,
        source: CaptureKey,
        endpoint: SocketAddrV4,
        reactor: &Reactor<H, P>,
        desc_grace: u64,
    ) -> (addr: Option<SocketAddrV4>)
        requires
            old(self).wf(),
        ensures
            final(self).wf(),
            match position(old(self)@, source, endpoint) {
                None => addr is None && final(self)@ == old(self)@,
                Some(i) => {
                    let entry = old(self)@[i];
                    if reactor.handlers().dom().contains(entry.handler.0) {
                        &&& addr == Some(entry.desc_addr)
                        &&& final(self)@ == old(self)@.update(i, DialEntry { desc_grace, ..entry })
                    } else {
                        &&& addr is None
                        &&& final(self)@ == old(self)@.update(i, old(self)@.last()).drop_last()
                    }
                },
            },
    {
        match self.find(source, endpoint) {
            None => None,
            Some(i) => {
                let entry = self.proxies[i];
                if reactor.is_registered(entry.handler) {
                    let mut refreshed = entry;
                    refreshed.desc_grace = desc_grace;
                    self.proxies.set(i, refreshed);
                    proof {
                        lemma_same_devices(old(self)@, self@);
                    }
                    Some(entry.desc_addr)
                } else {
                    self.proxies.swap_remove(i);
                    proof {
                        lemma_swap_removed(old(self)@, i as int);
                    }
                    None
                }
            },
        }
    }

    /// Whether another proxy may be minted: drops every entry whose proxy is gone, then asks for
    /// room under the cap.
    pub fn has_capacity<H, P>(&mut self, reactor: &Reactor<H, P>) -> (room: bool)
        requires
            old(self).wf(),
        ensures
            final(self).wf(),
            final(self)@ == live_proxies(old(self)@, reactor.handlers().dom()),
            room == (final(self)@.len() < MAX_DIAL_PROXIES),
    {
        let n: usize = self.proxies.len();
        let mut alive: Vec<DialEntry> = Vec::new();
        let mut i: usize = 0;
        let ghost all = self@;
        assert(all.take(0) =~= Seq::<DialEntry>::empty());
        while i < n
            invariant
                n == all.len(),
                all == self.proxies@,
                i <= n,
                alive@ == live_proxies(all.take(i as int), reactor.handlers().dom()),
            decreases n - i,
        {
            assert(all.take(i + 1).drop_last() =~= all.take(i as int));
            let entry = self.proxies[i];
            if reactor.is_registered(entry.handler) {
                alive.push(entry);
            }
            i += 1;
        }
        assert(all.take(n as int) =~= all);
        proof {
            lemma_live_one_per_device(all, reactor.handlers().dom());
        }
        self.proxies = alive;
        self.proxies.len() < MAX_DIAL_PROXIES
    }

    /// Records a freshly minted proxy, replacing the entry for the same device and source if there
    /// is one.
    pub fn insert(
        &mut self,
        source: CaptureKey,
        target: CaptureKey,
        endpoint: SocketAddrV4,
        handler: HandlerKey,
        desc_addr: SocketAddrV4,
        desc_grace: u64,
    )
        requires
            old(self).wf(),
        ensures
            final(self).wf(),
            final(self)@ == recorded(
                old(self)@,
                (DialEntry { source, target, endpoint, handler, desc_addr, desc_grace }),
            ),
    {
        let entry = DialEntry { source, target, endpoint, handler, desc_addr, desc_grace };
        match self.find(source, endpoint) {
            Some(i) => {
                self.proxies.set(i, entry);
                proof {
                    lemma_same_devices(old(self)@, self@);
                }
            },
            None => {
                self.proxies.push(entry);
            },
        }
    }

    /// The soonest grace across the recorded proxies, or `None` where there are none.
    pub fn next_grace(&self) -> (grace: Option<u64>)
        ensures
            grace is None <==> self@.len() == 0,
            grace matches Some(at) ==> {
                &&& exists|i: int| 0 <= i < self@.len() && (#[trigger] self@[i]).desc_grace == at
                &&& forall|i: int| 0 <= i < self@.len() ==> at <= (#[trigger] self@[i]).desc_grace
            },
    {
        let n: usize = self.proxies.len();
        if n == 0 {
            return None;
        }
        let mut soonest: u64 = self.proxies[0].desc_grace;
        let mut i: usize = 1;
        assert(self@[0].desc_grace == soonest);
        while i < n
            invariant
                n == self@.len(),
                self@ == self.proxies@,
                1 <= i <= n,
                exists|j: int| 0 <= j < self@.len() && (#[trigger] self@[j]).desc_grace == soonest,
                forall|j: int| 0 <= j < i ==> soonest <= (#[trigger] self@[j]).desc_grace,
            decreases n - i,
        {
            let grace: u64 = self.proxies[i].desc_grace;
            if grace < soonest {
                soonest = grace;
                assert(self@[i as int].desc_grace == soonest);
            }
            i += 1;
        }
        Some(soonest)
    }

    /// Evicts every marked proxy: its handler leaves the reactor, handed back with the descriptors
    /// whose kernel interest is to be removed, and its entry is dropped. An entry whose proxy is
    /// already gone is dropped too.
    fn evict_where<H, P>(&mut self, reactor: &mut Reactor<H, P>, marked: Vec<bool>) -> (gone: Vec<
        Unregistered<H>,
    >)
        requires
            old(self).wf(),
            old(reactor).wf(),
            marked@.len() == old(self)@.len(),
        ensures
            final(self).wf(),
            final(reactor).wf(),
            final(self)@ == kept(
                old(self)@,
                marked@,
                old(reactor).handlers().dom(),
                old(self)@.len(),
            ),
            reactor_without(
                *old(reactor),
                *final(reactor),
                evicted(old(self)@, marked@, old(self)@.len()),
            ),
            handed_back(
                *old(reactor),
                leaving(old(self)@, marked@, old(reactor).handlers().dom(), old(self)@.len()),
                gone@,
            ),
    {
        let ghost all = self@;
        let ghost live = reactor.handlers().dom();
        let n: usize = self.proxies.len();
        let mut left: Vec<DialEntry> = Vec::new();
        let mut gone: Vec<Unregistered<H>> = Vec::new();
        let mut i: usize = 0;
        while i < n
            invariant
                n == all.len(),
                all == self.proxies@,
                marked@.len() == n,
                i <= n,
                live == old(reactor).handlers().dom(),
                old(reactor).wf(),
                reactor.wf(),
                left@ == kept(all, marked@, live, i as nat),
                reactor_without(*old(reactor), *reactor, evicted(all, marked@, i as nat)),
                handed_back(*old(reactor), leaving(all, marked@, live, i as nat), gone@),
            decreases n - i,
        {
            let entry = self.proxies[i];
            let key = entry.handler;
            if marked[i] {
                let ghost before = *reactor;
                let ghost handed = gone@;
                match reactor.unregister(key) {
                    Some(removed) => {
                        proof {
                            lemma_same_fds(*old(reactor), before, key.0, evicted(all, marked@, i as nat));
                        }
                        gone.push(removed);
                        assert(gone@.drop_last() =~= handed);
                    },
                    None => {},
                }
                assert(reactor_without(
                    *old(reactor),
                    *reactor,
                    evicted(all, marked@, (i + 1) as nat),
                )) by {
                    lemma_without_one_more(
                        *old(reactor),
                        before,
                        *reactor,
                        evicted(all, marked@, i as nat),
                        key,
                    );
                }
            } else if reactor.is_registered(key) {
                left.push(entry);
            }
            i += 1;
        }
        proof {
            lemma_kept_one_per_device(all, marked@, live, n as nat);
        }
        self.proxies = left;
        gone
    }

    /// Evicts every proxy whose grace has lapsed at `now`.
    pub fn sweep<H, P>(&mut self, now: u64, reactor: &mut Reactor<H, P>) -> (gone: Vec<
        Unregistered<H>,
    >)
        requires
            old(self).wf(),
            old(reactor).wf(),
        ensures
            final(self).wf(),
            final(reactor).wf(),
            ({
                let marked = past_grace(old(self)@, now);
                let live = old(reactor).handlers().dom();
                let n = old(self)@.len();
                &&& final(self)@ == kept(old(self)@, marked, live, n)
                &&& reactor_without(*old(reactor), *final(reactor), evicted(old(self)@, marked, n))
                &&& handed_back(*old(reactor), leaving(old(self)@, marked, live, n), gone@)
            }),
    {
        let mut marked: Vec<bool> = Vec::new();
        let n: usize = self.proxies.len();
        let mut i: usize = 0;
        while i < n
            invariant
                n == self.proxies@.len(),
                self@ == self.proxies@,
                i <= n,
                marked@.len() == i,
                forall|j: int| 0 <= j < i ==> marked@[j] == (now >= self@[j].desc_grace),
                *self == *old(self),
                *reactor == *old(reactor),
            decreases n - i,
        {
            marked.push(now >= self.proxies[i].desc_grace);
            i += 1;
        }
        assert(marked@ =~= past_grace(self@, now));
        self.evict_where(reactor, marked)
    }

    /// Evicts every proxy whose source or target capture is among `changed`: an address move there
    /// stranded its listeners or its device connections.
    pub fn evict_on_interface_change<H, P>(
        &mut self,
        reactor: &mut Reactor<H, P>,
        changed: &[CaptureKey],
    ) -> (gone: Vec<Unregistered<H>>)
        requires
            old(self).wf(),
            old(reactor).wf(),
        ensures
            final(self).wf(),
            final(reactor).wf(),
            ({
                let marked = on_changed(old(self)@, changed@);
                let live = old(reactor).handlers().dom();
                let n = old(self)@.len();
                &&& final(self)@ == kept(old(self)@, marked, live, n)
                &&& reactor_without(*old(reactor), *final(reactor), evicted(old(self)@, marked, n))
                &&& handed_back(*old(reactor), leaving(old(self)@, marked, live, n), gone@)
            }),
    {
        let mut marked: Vec<bool> = Vec::new();
        let n: usize = self.proxies.len();
        let mut i: usize = 0;
        while i < n
            invariant
                n == self.proxies@.len(),
                self@ == self.proxies@,
                i <= n,
                marked@.len() == i,
                forall|j: int|
                    0 <= j < i ==> marked@[j] == (changed@.contains(self@[j].source)
                        || changed@.contains(self@[j].target)),
                *self == *old(self),
                *reactor == *old(reactor),
            decreases n - i,
        {
            let entry = self.proxies[i];
            marked.push(has_key(changed, entry.source) || has_key(changed, entry.target));
            i += 1;
        }
        assert(marked@ =~= on_changed(self@, changed@));
        self.evict_where(reactor, marked)
    }
}

/// The proxies marked because their grace has lapsed.
pub open spec fn past_grace(proxies: Seq<DialEntry>, now: u64) -> Seq<bool> {
    proxies.map_values(|p: DialEntry| now >= p.desc_grace)
}

/// The proxies marked because a capture of theirs changed.
pub open spec fn on_changed(proxies: Seq<DialEntry>, changed: Seq<CaptureKey>) -> Seq<bool> {
    proxies.map_values(|p: DialEntry| changed.contains(p.source) || changed.contains(p.target))
}

fn has_key(keys: &[CaptureKey], key: CaptureKey) -> (has: bool)
    ensures
        has == keys@.contains(key),
{
    let n: usize = keys.len();
    let mut i: usize = 0;
    while i < n
        invariant
            n == keys@.len(),
            i <= n,
            forall|j: int| 0 <= j < i ==> keys@[j] != key,
        decreases n - i,
    {
        if keys[i] == key {
            assert(keys@[i as int] == key);
            return true;
        }
        i += 1;
    }
    false
}

proof fn lemma_position_prefix(
    proxies: Seq<DialEntry>,
    source: CaptureKey,
    endpoint: SocketAddrV4,
    n: int,
)
    requires
        0 <= n <= proxies.len(),
        position(proxies.take(n), source, endpoint) is Some,
    ensures
        position(proxies, source, endpoint) == position(proxies.take(n), source, endpoint),
    decreases proxies.len() - n,
{
    if n < proxies.len() {
        assert(proxies.take(n + 1).drop_last() =~= proxies.take(n));
        lemma_position_prefix(proxies, source, endpoint, n + 1);
    } else {
        assert(proxies.take(n) =~= proxies);
    }
}

proof fn lemma_same_devices(before: Seq<DialEntry>, after: Seq<DialEntry>)
    requires
        one_per_device(before),
        before.len() == after.len(),
        forall|i: int|
            0 <= i < before.len() ==> (#[trigger] after[i]).source == before[i].source
                && after[i].endpoint == before[i].endpoint,
    ensures
        one_per_device(after),
{
    assert forall|i: int, j: int| 0 <= i < j < after.len() implies !is_for(
        #[trigger] after[i],
        (#[trigger] after[j]).source,
        after[j].endpoint,
    ) by {
        assert(!is_for(before[i], before[j].source, before[j].endpoint));
    }
}

proof fn lemma_swap_removed(before: Seq<DialEntry>, at: int)
    requires
        one_per_device(before),
        0 <= at < before.len(),
    ensures
        one_per_device(before.update(at, before.last()).drop_last()),
{
    let after = before.update(at, before.last()).drop_last();
    let last = before.len() - 1;
    assert forall|i: int, j: int| 0 <= i < j < after.len() implies !is_for(
        #[trigger] after[i],
        (#[trigger] after[j]).source,
        after[j].endpoint,
    ) by {
        let a = if i == at {
            last
        } else {
            i
        };
        let b = if j == at {
            last
        } else {
            j
        };
        assert(after[i] == before[a] && after[j] == before[b]);
        if a < b {
            assert(!is_for(before[a], before[b].source, before[b].endpoint));
        } else {
            assert(!is_for(before[b], before[a].source, before[a].endpoint));
        }
    }
}

proof fn lemma_live_one_per_device(proxies: Seq<DialEntry>, live: Set<Key>)
    requires
        one_per_device(proxies),
    ensures
        one_per_device(live_proxies(proxies, live)),
        forall|i: int|
            0 <= i < live_proxies(proxies, live).len() ==> proxies.contains(
                #[trigger] live_proxies(proxies, live)[i],
            ),
    decreases proxies.len(),
{
    if proxies.len() > 0 {
        let front = proxies.drop_last();
        assert forall|i: int, j: int| 0 <= i < j < front.len() implies !is_for(
            #[trigger] front[i],
            (#[trigger] front[j]).source,
            front[j].endpoint,
        ) by {
            assert(!is_for(proxies[i], proxies[j].source, proxies[j].endpoint));
        }
        lemma_live_one_per_device(front, live);
        let before = live_proxies(front, live);
        let after = live_proxies(proxies, live);
        lemma_extends(proxies, before, after);
    }
}

proof fn lemma_kept_one_per_device(
    proxies: Seq<DialEntry>,
    marked: Seq<bool>,
    live: Set<Key>,
    n: nat,
)
    requires
        one_per_device(proxies),
        n <= proxies.len(),
    ensures
        one_per_device(kept(proxies, marked, live, n)),
        forall|i: int|
            0 <= i < kept(proxies, marked, live, n).len() ==> proxies.take(n as int).contains(
                #[trigger] kept(proxies, marked, live, n)[i],
            ),
    decreases n,
{
    if n > 0 {
        lemma_kept_one_per_device(proxies, marked, live, (n - 1) as nat);
        let prefix = proxies.take(n as int);
        assert(prefix.drop_last() =~= proxies.take(n - 1));
        assert forall|i: int, j: int| 0 <= i < j < prefix.len() implies !is_for(
            #[trigger] prefix[i],
            (#[trigger] prefix[j]).source,
            prefix[j].endpoint,
        ) by {
            assert(!is_for(proxies[i], proxies[j].source, proxies[j].endpoint));
        }
        lemma_extends(
            prefix,
            kept(proxies, marked, live, (n - 1) as nat),
            kept(proxies, marked, live, n),
        );
    }
}

/// What is kept was not marked.
pub proof fn lemma_kept_unmarked(
    proxies: Seq<DialEntry>,
    marked: Seq<bool>,
    live: Set<Key>,
    n: nat,
)
    requires
        n <= proxies.len(),
        marked.len() == proxies.len(),
    ensures
        forall|i: int|
            0 <= i < kept(proxies, marked, live, n).len() ==> exists|k: int|
                0 <= k < proxies.len() && proxies[k] == #[trigger] kept(
                    proxies,
                    marked,
                    live,
                    n,
                )[i] && !#[trigger] marked[k],
    decreases n,
{
    if n > 0 {
        lemma_kept_unmarked(proxies, marked, live, (n - 1) as nat);
        let before = kept(proxies, marked, live, (n - 1) as nat);
        let after = kept(proxies, marked, live, n);
        assert forall|i: int| 0 <= i < after.len() implies exists|k: int|
            0 <= k < proxies.len() && proxies[k] == #[trigger] after[i] && !#[trigger] marked[k] by {
            if i < before.len() {
                assert(after[i] == before[i]);
            } else {
                assert(proxies[n - 1] == after[i] && !marked[n - 1]);
            }
        }
    }
}

/// With no proxy marked, none is evicted.
pub proof fn lemma_none_evicted(proxies: Seq<DialEntry>, marked: Seq<bool>, n: nat)
    requires
        forall|i: int| 0 <= i < n ==> !#[trigger] marked[i],
    ensures
        evicted(proxies, marked, n) == Set::<Key>::empty(),
    decreases n,
{
    if n > 0 {
        lemma_none_evicted(proxies, marked, (n - 1) as nat);
    }
}

proof fn lemma_extends(proxies: Seq<DialEntry>, before: Seq<DialEntry>, after: Seq<DialEntry>)
    requires
        proxies.len() > 0,
        one_per_device(proxies),
        one_per_device(before),
        forall|i: int|
            0 <= i < before.len() ==> proxies.drop_last().contains(#[trigger] before[i]),
        after == before || after == before.push(proxies.last()),
    ensures
        one_per_device(after),
        forall|i: int| 0 <= i < after.len() ==> proxies.contains(#[trigger] after[i]),
{
    let last = proxies.len() - 1;
    assert forall|i: int| 0 <= i < after.len() implies proxies.contains(#[trigger] after[i]) by {
        if i < before.len() {
            assert(proxies.drop_last().contains(before[i]));
            let k = choose|k: int|
                0 <= k < proxies.drop_last().len() && proxies.drop_last()[k] == before[i];
            assert(proxies[k] == after[i]);
        } else {
            assert(proxies[last] == after[i]);
        }
    }
    assert forall|i: int, j: int| 0 <= i < j < after.len() implies !is_for(
        #[trigger] after[i],
        (#[trigger] after[j]).source,
        after[j].endpoint,
    ) by {
        if j < before.len() {
            assert(!is_for(before[i], before[j].source, before[j].endpoint));
        } else {
            assert(proxies.drop_last().contains(before[i]));
            let k = choose|k: int|
                0 <= k < proxies.drop_last().len() && proxies.drop_last()[k] == before[i];
            assert(!is_for(proxies[k], proxies[last].source, proxies[last].endpoint));
        }
    }
}

proof fn lemma_same_fds<H, P>(first: Reactor<H, P>, now: Reactor<H, P>, key: Key, gone: Set<Key>)
    requires
        first.wf(),
        now.wf(),
        reactor_without(first, now, gone),
        now.handlers().dom().contains(key),
    ensures
        now.handlers()[key] == first.handlers()[key],
        crate::reactor::watched_fds(now.handlers()[key].regs@, now.registrations())
            =~= crate::reactor::watched_fds(first.handlers()[key].regs@, first.registrations()),
{
    let regs = now.handlers()[key].regs@;
    assert forall|i: int| 0 <= i < regs.len() implies now.registrations()[(#[trigger] regs[i]).0]
        == first.registrations()[regs[i].0] by {
        crate::reactor::lemma_regs_are_live(now, key, i);
    }
}

proof fn lemma_without_one_more<H, P>(
    first: Reactor<H, P>,
    before: Reactor<H, P>,
    after: Reactor<H, P>,
    gone: Set<Key>,
    key: HandlerKey,
)
    requires
        first.wf(),
        before.wf(),
        reactor_without(first, before, gone),
        !before.handlers().dom().contains(key.0) ==> after == before,
        before.handlers().dom().contains(key.0) ==> {
            &&& after.handlers() == before.handlers().remove(key.0)
            &&& after.registrations() == crate::reactor::of_others(before.registrations(), key)
            &&& after.spec_shutdown() == before.spec_shutdown()
            &&& after.spec_poll() == before.spec_poll()
        },
    ensures
        reactor_without(first, after, gone.insert(key.0)),
{
    assert forall|r: Key| #[trigger]
        after.registrations().dom().contains(r) <==> first.registrations().dom().contains(r)
            && !gone.insert(key.0).contains(first.registrations()[r].handler_key.0) by {
        if before.registrations().dom().contains(r) {
            crate::reactor::law_registrations_have_live_handlers(before, crate::reactor::RegKey(r));
        }
    }
}

/// A registry that had room before a proxy was recorded stays within the cap.
pub proof fn law_within_the_cap(proxies: Seq<DialEntry>, entry: DialEntry)
    requires
        proxies.len() < MAX_DIAL_PROXIES,
    ensures
        recorded(proxies, entry).len() <= MAX_DIAL_PROXIES,
{
    lemma_position_is_for(proxies, entry.source, entry.endpoint);
}

/// A recorded proxy is the one found for its device and source, and what is found for every other
/// device or source stays the same.
pub proof fn law_a_recorded_proxy_is_found(
    proxies: Seq<DialEntry>,
    entry: DialEntry,
    source: CaptureKey,
    endpoint: SocketAddrV4,
)
    ensures
        is_for(entry, source, endpoint) ==> match position(
            recorded(proxies, entry),
            source,
            endpoint,
        ) {
            Some(i) => recorded(proxies, entry)[i] == entry,
            None => false,
        },
        !is_for(entry, source, endpoint) ==> {
            &&& position(recorded(proxies, entry), source, endpoint) == position(
                proxies,
                source,
                endpoint,
            )
            &&& position(proxies, source, endpoint) matches Some(i) ==> recorded(proxies, entry)[i]
                == proxies[i]
        },
{
    lemma_position_is_for(proxies, entry.source, entry.endpoint);
    lemma_position_is_for(proxies, source, endpoint);
    match position(proxies, entry.source, entry.endpoint) {
        Some(i) => {
            lemma_position_after_update(proxies, i, entry, source, endpoint);
        },
        None => {
            assert(proxies.push(entry).drop_last() =~= proxies);
        },
    }
}

proof fn lemma_position_is_for(
    proxies: Seq<DialEntry>,
    source: CaptureKey,
    endpoint: SocketAddrV4,
)
    ensures
        position(proxies, source, endpoint) matches Some(i) ==> 0 <= i < proxies.len() && is_for(
            proxies[i],
            source,
            endpoint,
        ),
    decreases proxies.len(),
{
    if proxies.len() > 0 {
        lemma_position_is_for(proxies.drop_last(), source, endpoint);
    }
}

/// Replacing a proxy by one for the same device moves nothing.
proof fn lemma_position_after_update(
    proxies: Seq<DialEntry>,
    at: int,
    entry: DialEntry,
    source: CaptureKey,
    endpoint: SocketAddrV4,
)
    requires
        0 <= at < proxies.len(),
        is_for(proxies[at], entry.source, entry.endpoint),
    ensures
        position(proxies.update(at, entry), source, endpoint) == position(
            proxies,
            source,
            endpoint,
        ),
    decreases proxies.len(),
{
    let front = proxies.drop_last();
    let after = proxies.update(at, entry);
    if at < front.len() {
        assert(after.drop_last() =~= front.update(at, entry));
        lemma_position_after_update(front, at, entry, source, endpoint);
    } else {
        assert(after.drop_last() =~= front);
    }
}

} // verus!
