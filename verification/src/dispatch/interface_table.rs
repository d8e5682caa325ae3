//! The dispatcher's interface table: every interface with its multicast groups, and every capture
//! with the interface it runs on, addressed by `Copy` index keys. Both are insert-only, so an index
//! is a stable identity.

use crate::dispatch::multicast::MulticastJoiner;
use crate::dispatch::CaptureKey;
use crate::interface::{AddressChange, Interface, InterfaceAddresses};
use crate::net::addr::IpAddr;
use crate::net::LinkType;
use crate::text::str_eq;
use vstd::prelude::*;

verus! {

/// A handle to an interface of the table.
#[derive(Clone, Copy, PartialEq, Eq, Hash, Debug, Structural)]
pub struct InterfaceKey(pub u32);

/// An open capture: its descriptor, its link-layer framing, and what the program reads and writes
/// frames through.
pub struct Capture<C> {
    pub fd: i32,
    pub link: LinkType,
    pub io: C,
}

/// One capture and the interface it runs on. The capture is absent while it is drained; the link to
/// its interface stays.
pub struct CaptureEntry<C> {
    pub capture: Option<Capture<C>>,
    pub interface: InterfaceKey,
}

/// One interface and its multicast groups.
pub struct InterfaceEntry {
    pub interface: Interface,
    pub joiner: MulticastJoiner,
}

/// Every interface and every capture.
pub struct InterfaceTable<C> {
    entries: Vec<InterfaceEntry>,
    captures: Vec<CaptureEntry<C>>,
}

/// An interface as the table knows it.
#[verifier::ext_equal]
pub struct InterfaceView {
    pub name: Seq<char>,
    pub ifindex: u32,
    pub addrs: InterfaceAddresses,
    pub groups: Seq<IpAddr>,
}

impl View for InterfaceEntry {
    type V = InterfaceView;

    open spec fn view(&self) -> InterfaceView {
        InterfaceView {
            name: self.interface.name@,
            ifindex: self.interface.ifindex,
            addrs: self.interface.addrs,
            groups: self.joiner@,
        }
    }
}

/// The position of the first interface with the kernel index.
pub open spec fn with_ifindex(list: Seq<InterfaceView>, ifindex: u32) -> Option<int>
    decreases list.len(),
{
    if list.len() == 0 {
        None
    } else {
        match with_ifindex(list.drop_last(), ifindex) {
            Some(i) => Some(i),
            None => if list.last().ifindex == ifindex {
                Some(list.len() - 1)
            } else {
                None
            },
        }
    }
}

/// The position of the first interface of that name.
pub open spec fn named(list: Seq<InterfaceView>, name: Seq<char>) -> Option<int>
    decreases list.len(),
{
    if list.len() == 0 {
        None
    } else {
        match named(list.drop_last(), name) {
            Some(i) => Some(i),
            None => if list.last().name == name {
                Some(list.len() - 1)
            } else {
                None
            },
        }
    }
}

/// Whether no two interfaces share a name.
pub open spec fn distinct_names(list: Seq<InterfaceView>) -> bool {
    forall|i: int, j: int|
        0 <= i < j < list.len() ==> (#[trigger] list[i]).name != (#[trigger] list[j]).name
}

/// What `named` finds is an interface of the list with that name.
pub proof fn lemma_named(list: Seq<InterfaceView>, name: Seq<char>)
    ensures
        match named(list, name) {
            Some(i) => 0 <= i < list.len() && list[i].name == name,
            None => forall|i: int| 0 <= i < list.len() ==> (#[trigger] list[i]).name != name,
        },
    decreases list.len(),
{
    if list.len() > 0 {
        let front = list.drop_last();
        lemma_named(front, name);
        assert forall|i: int|
            0 <= i < list.len() && named(list, name) is None implies (#[trigger] list[i]).name
            != name by {
            if i < front.len() {
                assert(front[i].name != name);
            }
        }
    }
}

proof fn lemma_named_prefix(list: Seq<InterfaceView>, name: Seq<char>, n: int)
    requires
        0 <= n <= list.len(),
        named(list.take(n), name) is Some,
    ensures
        named(list, name) == named(list.take(n), name),
    decreases list.len() - n,
{
    if n < list.len() {
        assert(list.take(n + 1).drop_last() =~= list.take(n));
        lemma_named_prefix(list, name, n + 1);
    } else {
        assert(list.take(n) =~= list);
    }
}

/// What `with_ifindex` finds is an interface of the list with that index.
pub proof fn lemma_with_ifindex(list: Seq<InterfaceView>, ifindex: u32)
    ensures
        with_ifindex(list, ifindex) matches Some(i) ==> 0 <= i < list.len() && list[i].ifindex
            == ifindex,
    decreases list.len(),
{
    if list.len() > 0 {
        lemma_with_ifindex(list.drop_last(), ifindex);
    }
}

proof fn lemma_with_ifindex_prefix(list: Seq<InterfaceView>, ifindex: u32, n: int)
    requires
        0 <= n <= list.len(),
        with_ifindex(list.take(n), ifindex) is Some,
    ensures
        with_ifindex(list, ifindex) == with_ifindex(list.take(n), ifindex),
    decreases list.len() - n,
{
    if n < list.len() {
        assert(list.take(n + 1).drop_last() =~= list.take(n));
        lemma_with_ifindex_prefix(list, ifindex, n + 1);
    } else {
        assert(list.take(n) =~= list);
    }
}

impl<C> InterfaceTable<C> {
    /// The interfaces, by key.
    pub closed spec fn interfaces(&self) -> Seq<InterfaceView> {
        self.entries@.map_values(|e: InterfaceEntry| e@)
    }

    /// The captures, by key; one is absent while it is drained.
    pub closed spec fn captures(&self) -> Seq<Option<Capture<C>>> {
        self.captures@.map_values(|e: CaptureEntry<C>| e.capture)
    }

    /// The interface of each capture.
    pub closed spec fn links(&self) -> Seq<InterfaceKey> {
        self.captures@.map_values(|e: CaptureEntry<C>| e.interface)
    }

    /// Each interface's memberships belong to its own kernel index.
    pub closed spec fn joins_on_own_index(&self) -> bool {
        forall|i: int|
            0 <= i < self.entries@.len() ==> (#[trigger] self.entries@[i]).joiner.spec_ifindex()
                == self.entries@[i].interface.ifindex
    }

    /// Names are distinct, each interface joins groups on its own index, every capture runs on an interface of the table, and every key fits its
    /// number.
    pub open spec fn wf(&self) -> bool {
        &&& distinct_names(self.interfaces())
        &&& self.joins_on_own_index()
        &&& self.captures().len() == self.links().len()
        &&& self.interfaces().len() <= 0x1_0000_0000
        &&& self.captures().len() <= 0x1_0000_0000
        &&& forall|i: int|
            0 <= i < self.links().len() ==> (#[trigger] self.links()[i]).0 < self.interfaces().len()
    }

    /// The interface behind a capture.
    pub open spec fn interface_behind(&self, capture: CaptureKey) -> Option<InterfaceView> {
        if capture.0 < self.links().len() {
            Some(self.interfaces()[self.links()[capture.0 as int].0 as int])
        } else {
            None
        }
    }

    /// An empty table.
    pub fn new() -> (table: Self)
        ensures
            table.wf(),
            table.interfaces() == Seq::<InterfaceView>::empty(),
            table.captures() == Seq::<Option<Capture<C>>>::empty(),
            table.links() == Seq::<InterfaceKey>::empty(),
    {
        let table = InterfaceTable { entries: Vec::new(), captures: Vec::new() };
        assert(table.interfaces() =~= Seq::<InterfaceView>::empty());
        assert(table.captures() =~= Seq::<Option<Capture<C>>>::empty());
        assert(table.links() =~= Seq::<InterfaceKey>::empty());
        table
    }

    /// The key of the interface named `name`, if the table has it.
    pub fn find_interface(&self, name: &str) -> (key: Option<InterfaceKey>)
        requires
            self.wf(),
        ensures
            match key {
                Some(key) => named(self.interfaces(), name@) == Some(key.0 as int),
                None => named(self.interfaces(), name@) is None,
            },
    {
        let ghost list = self.interfaces();
        let n: usize = self.entries.len();
        let mut i: usize = 0;
        assert(list.take(0) =~= Seq::<InterfaceView>::empty());
        while i < n
            invariant
                self.wf(),
                list == self.interfaces(),
                n == self.entries@.len(),
                n == list.len(),
                i <= n,
                named(list.take(i as int), name@) is None,
            decreases n - i,
        {
            assert(list.take(i + 1).drop_last() =~= list.take(i as int));
            assert(list[i as int] == self.entries@[i as int]@);
            if str_eq(self.entries[i].interface.name.as_str(), name) {
                proof {
                    lemma_named_prefix(list, name@, i + 1);
                }
                return Some(InterfaceKey(i as u32));
            }
            i += 1;
        }
        assert(list.take(n as int) =~= list);
        None
    }

    /// The key of the interface with `interface`'s name, adding `interface` if the table has none:
    /// captures on one interface share one record.
    pub fn find_or_add_interface(&mut self, interface: Interface) -> (key: InterfaceKey)
        requires
            old(self).wf(),
            old(self).interfaces().len() <= u32::MAX,
        ensures
            final(self).wf(),
            final(self).captures() == old(self).captures(),
            final(self).links() == old(self).links(),
            match named(old(self).interfaces(), interface.name@) {
                Some(i) => key.0 == i && final(self).interfaces() == old(self).interfaces(),
                None => {
                    &&& key.0 == old(self).interfaces().len()
                    &&& final(self).interfaces() == old(self).interfaces().push(
                        InterfaceView {
                            name: interface.name@,
                            ifindex: interface.ifindex,
                            addrs: interface.addrs,
                            groups: Seq::empty(),
                        },
                    )
                },
            },
    {
        match self.find_interface(interface.name.as_str()) {
            Some(key) => key,
            None => {
                proof {
                    lemma_named(self.interfaces(), interface.name@);
                }
                let key = InterfaceKey(self.entries.len() as u32);
                let joiner = MulticastJoiner::new(interface.ifindex);
                let entry = InterfaceEntry { interface, joiner };
                let ghost added = entry@;
                self.entries.push(entry);
                assert(self.interfaces() =~= old(self).interfaces().push(added));
                assert(self.captures() =~= old(self).captures());
                assert(self.links() =~= old(self).links());
                key
            },
        }
    }

    /// Adds a capture that runs on `interface`.
    pub fn add_capture(&mut self, capture: Capture<C>, interface: InterfaceKey) -> (key: CaptureKey)
        requires
            old(self).wf(),
            interface.0 < old(self).interfaces().len(),
            old(self).captures().len() <= u32::MAX,
        ensures
            final(self).wf(),
            key.0 == old(self).captures().len(),
            final(self).interfaces() == old(self).interfaces(),
            final(self).captures() == old(self).captures().push(Some(capture)),
            final(self).links() == old(self).links().push(interface),
    {
        let key = CaptureKey(self.captures.len() as u32);
        self.captures.push(CaptureEntry { capture: Some(capture), interface });
        assert(self.interfaces() =~= old(self).interfaces());
        assert(self.captures() =~= old(self).captures().push(Some(capture)));
        assert(self.links() =~= old(self).links().push(interface));
        key
    }

    /// How many interfaces the table has.
    pub fn interface_count(&self) -> (n: usize)
        ensures
            n == self.interfaces().len(),
    {
        self.entries.len()
    }

    /// How many captures the table has.
    pub fn capture_count(&self) -> (n: usize)
        ensures
            n == self.captures().len(),
    {
        self.captures.len()
    }

    /// The interface a capture runs on, also while the capture is drained.
    pub fn interface_of(&self, capture: CaptureKey) -> (key: Option<InterfaceKey>)
        requires
            self.wf(),
        ensures
            key == if capture.0 < self.links().len() {
                Some(self.links()[capture.0 as int])
            } else {
                None
            },
    {
        let i: usize = capture.0 as usize;
        if i < self.captures.len() {
            Some(self.captures[i].interface)
        } else {
            None
        }
    }

    /// An interface's current source addresses.
    pub fn addrs(&self, interface: InterfaceKey) -> (addrs: Option<InterfaceAddresses>)
        ensures
            addrs == if interface.0 < self.interfaces().len() {
                Some(self.interfaces()[interface.0 as int].addrs)
            } else {
                None
            },
    {
        let i: usize = interface.0 as usize;
        if i < self.entries.len() {
            assert(self.interfaces()[i as int] == self.entries@[i as int]@);
            Some(self.entries[i].interface.addrs)
        } else {
            None
        }
    }

    /// The kernel index of the interface a capture runs on.
    pub fn ifindex_of(&self, capture: CaptureKey) -> (ifindex: Option<u32>)
        requires
            self.wf(),
        ensures
            ifindex == match self.interface_behind(capture) {
                Some(iface) => Some(iface.ifindex),
                None => None,
            },
    {
        match self.interface_of(capture) {
            Some(key) => {
                assert(self.interfaces()[key.0 as int] == self.entries@[key.0 as int]@);
                Some(self.entries[key.0 as usize].interface.ifindex)
            },
            None => None,
        }
    }

    /// The current source addresses behind a capture.
    pub fn egress_addrs(&self, capture: CaptureKey) -> (addrs: Option<InterfaceAddresses>)
        requires
            self.wf(),
        ensures
            addrs == match self.interface_behind(capture) {
                Some(iface) => Some(iface.addrs),
                None => None,
            },
    {
        match self.interface_of(capture) {
            Some(key) => self.addrs(key),
            None => None,
        }
    }

    /// The name of an interface.
    pub fn interface_name(&self, interface: InterfaceKey) -> (name: Option<&str>)
        ensures
            match name {
                Some(name) => interface.0 < self.interfaces().len() && name@
                    == self.interfaces()[interface.0 as int].name,
                None => interface.0 >= self.interfaces().len(),
            },
    {
        let i: usize = interface.0 as usize;
        if i < self.entries.len() {
            Some(self.entries[i].interface.name.as_str())
        } else {
            None
        }
    }

    /// A present capture.
    pub fn capture(&self, capture: CaptureKey) -> (found: Option<&Capture<C>>)
        ensures
            match found {
                Some(found) => capture.0 < self.captures().len() && self.captures()[capture.0 as int]
                    == Some(*found),
                None => capture.0 >= self.captures().len() || self.captures()[capture.0 as int]
                    is None,
            },
    {
        let i: usize = capture.0 as usize;
        if i < self.captures.len() {
            match &self.captures[i].capture {
                Some(found) => Some(found),
                None => None,
            }
        } else {
            None
        }
    }

    /// Whether `capture` names a capture of the table, present or drained.
    pub fn contains(&self, capture: CaptureKey) -> (known: bool)
        ensures
            known == (capture.0 < self.captures().len()),
    {
        (capture.0 as usize) < self.captures.len()
    }

    /// Takes a capture out for its drain. `None`, with nothing changed, where the key is unknown or
    /// the capture is out already.
    pub fn take(&mut self, capture: CaptureKey) -> (taken: Option<Capture<C>>)
        requires
            old(self).wf(),
        ensures
            final(self).wf(),
            final(self).interfaces() == old(self).interfaces(),
            final(self).links() == old(self).links(),
            capture.0 >= old(self).captures().len() ==> taken is None && final(self).captures()
                == old(self).captures(),
            capture.0 < old(self).captures().len() ==> {
                &&& taken == old(self).captures()[capture.0 as int]
                &&& final(self).captures() == old(self).captures().update(capture.0 as int, None)
            },
    {
        let i: usize = capture.0 as usize;
        if i >= self.captures.len() {
            return None;
        }
        let interface = self.captures[i].interface;
        let mut emptied = CaptureEntry { capture: None, interface };
        std::mem::swap(&mut emptied, &mut self.captures[i]);
        assert(self.interfaces() =~= old(self).interfaces());
        assert(self.links() =~= old(self).links());
        assert(self.captures() =~= old(self).captures().update(i as int, None));
        emptied.capture
    }

    /// Puts a drained capture back, and says whether its slot was there; else it is dropped.
    pub fn restore(&mut self, capture: CaptureKey, value: Capture<C>) -> (restored: bool)
        requires
            old(self).wf(),
        ensures
            final(self).wf(),
            restored == (capture.0 < old(self).captures().len()),
            final(self).interfaces() == old(self).interfaces(),
            final(self).links() == old(self).links(),
            restored ==> final(self).captures() == old(self).captures().update(
                capture.0 as int,
                Some(value),
            ),
            !restored ==> final(self).captures() == old(self).captures(),
    {
        let i: usize = capture.0 as usize;
        if i >= self.captures.len() {
            return false;
        }
        let interface = self.captures[i].interface;
        self.captures[i] = CaptureEntry { capture: Some(value), interface };
        assert(self.interfaces() =~= old(self).interfaces());
        assert(self.links() =~= old(self).links());
        assert(self.captures() =~= old(self).captures().update(i as int, Some(value)));
        true
    }

    /// Remembers a multicast group for an interface.
    pub fn join_on(&mut self, interface: InterfaceKey, group: IpAddr)
        requires
            old(self).wf(),
            interface.0 < old(self).interfaces().len(),
        ensures
            final(self).wf(),
            final(self).captures() == old(self).captures(),
            final(self).links() == old(self).links(),
            final(self).interfaces() == old(self).interfaces().update(
                interface.0 as int,
                (InterfaceView {
                    groups: crate::dispatch::multicast::joined(
                        old(self).interfaces()[interface.0 as int].groups,
                        group,
                    ),
                    ..old(self).interfaces()[interface.0 as int]
                }),
            ),
    {
        let i: usize = interface.0 as usize;
        let ghost before = self.interfaces();
        assert(before[i as int] == self.entries@[i as int]@);
        self.entries[i].joiner.join(group);
        let ghost now = InterfaceView {
            groups: crate::dispatch::multicast::joined(before[i as int].groups, group),
            ..before[i as int]
        };
        assert(self.entries@[i as int]@ =~= now);
        assert(self.interfaces() =~= before.update(i as int, now));
        assert(self.captures() =~= old(self).captures());
        assert(self.links() =~= old(self).links());
        assert(distinct_names(self.interfaces())) by {
            lemma_same_names(before, i as int, now);
        }
    }

    /// The multicast groups an interface asks for.
    pub fn groups_of(&self, interface: InterfaceKey) -> (groups: Option<&[IpAddr]>)
        ensures
            match groups {
                Some(groups) => interface.0 < self.interfaces().len() && groups@
                    == self.interfaces()[interface.0 as int].groups,
                None => interface.0 >= self.interfaces().len(),
            },
    {
        let i: usize = interface.0 as usize;
        if i < self.entries.len() {
            Some(self.entries[i].joiner.groups())
        } else {
            None
        }
    }

    /// The interface with the kernel index, if the table watches one.
    pub fn find_ifindex(&self, ifindex: u32) -> (key: Option<InterfaceKey>)
        requires
            self.wf(),
        ensures
            match key {
                Some(key) => with_ifindex(self.interfaces(), ifindex) == Some(key.0 as int),
                None => with_ifindex(self.interfaces(), ifindex) is None,
            },
    {
        let ghost list = self.interfaces();
        let n: usize = self.entries.len();
        let mut i: usize = 0;
        assert(list.take(0) =~= Seq::<InterfaceView>::empty());
        while i < n
            invariant
                self.wf(),
                list == self.interfaces(),
                n == self.entries@.len(),
                n == list.len(),
                i <= n,
                with_ifindex(list.take(i as int), ifindex) is None,
            decreases n - i,
        {
            assert(list.take(i + 1).drop_last() =~= list.take(i as int));
            assert(list[i as int] == self.entries@[i as int]@);
            if self.entries[i].interface.ifindex == ifindex {
                proof {
                    lemma_with_ifindex_prefix(list, ifindex, i + 1);
                }
                return Some(InterfaceKey(i as u32));
            }
            i += 1;
        }
        assert(list.take(n as int) =~= list);
        None
    }

    /// Takes over a fresh resolution of an interface, and reports its kernel index and which fields
    /// moved.
    pub fn refresh(&mut self, interface: InterfaceKey, addrs: InterfaceAddresses) -> (r: (
        u32,
        AddressChange,
    ))
        requires
            old(self).wf(),
            interface.0 < old(self).interfaces().len(),
        ensures
            final(self).wf(),
            final(self).captures() == old(self).captures(),
            final(self).links() == old(self).links(),
            r.0 == old(self).interfaces()[interface.0 as int].ifindex,
            r.1 == crate::interface::change_between(
                old(self).interfaces()[interface.0 as int].addrs,
                addrs,
            ),
            final(self).interfaces() == old(self).interfaces().update(
                interface.0 as int,
                (InterfaceView { addrs, ..old(self).interfaces()[interface.0 as int] }),
            ),
    {
        let i: usize = interface.0 as usize;
        let ghost before = self.interfaces();
        assert(before[i as int] == self.entries@[i as int]@);
        let ifindex: u32 = self.entries[i].interface.ifindex;
        let change = self.entries[i].interface.refresh(addrs);
        let ghost now = InterfaceView { addrs, ..before[i as int] };
        assert(self.entries@[i as int]@ =~= now);
        assert(self.interfaces() =~= before.update(i as int, now));
        assert(self.captures() =~= old(self).captures());
        assert(self.links() =~= old(self).links());
        assert(distinct_names(self.interfaces())) by {
            lemma_same_names(before, i as int, now);
        }
        (ifindex, change)
    }

    /// The kernel index of an interface.
    pub fn ifindex(&self, interface: InterfaceKey) -> (ifindex: u32)
        requires
            interface.0 < self.interfaces().len(),
        ensures
            ifindex == self.interfaces()[interface.0 as int].ifindex,
    {
        assert(self.interfaces()[interface.0 as int] == self.entries@[interface.0 as int]@);
        self.entries[interface.0 as usize].interface.ifindex
    }

    /// Each present capture's descriptor, with its key as the value to tag the watch with.
    pub fn capture_watches(&self) -> (watches: Vec<(i32, u64)>)
        requires
            self.wf(),
        ensures
            watches@ == watches_of(self.captures(), self.captures().len()),
    {
        let ghost all = self.captures();
        let n: usize = self.captures.len();
        let mut watches: Vec<(i32, u64)> = Vec::new();
        let mut i: usize = 0;
        while i < n
            invariant
                self.wf(),
                all == self.captures(),
                n == self.captures@.len(),
                n == all.len(),
                i <= n,
                watches@ == watches_of(all, i as nat),
            decreases n - i,
        {
            assert(all[i as int] == self.captures@[i as int].capture);
            match &self.captures[i].capture {
                Some(capture) => {
                    watches.push((capture.fd, i as u64));
                },
                None => {},
            }
            i += 1;
        }
        watches
    }
}

proof fn lemma_same_names(list: Seq<InterfaceView>, at: int, now: InterfaceView)
    requires
        distinct_names(list),
        0 <= at < list.len(),
        now.name == list[at].name,
    ensures
        distinct_names(list.update(at, now)),
{
    let after = list.update(at, now);
    assert forall|i: int, j: int| 0 <= i < j < after.len() implies (#[trigger] after[i]).name != (
    #[trigger] after[j]).name by {
        assert(list[i].name != list[j].name);
    }
}

/// The descriptor and tag of each present capture among the first `n`.
pub open spec fn watches_of<C>(captures: Seq<Option<Capture<C>>>, n: nat) -> Seq<(i32, u64)>
    decreases n,
{
    if n == 0 {
        Seq::empty()
    } else {
        let before = watches_of(captures, (n - 1) as nat);
        match captures[n - 1] {
            Some(capture) => before.push((capture.fd, (n - 1) as u64)),
            None => before,
        }
    }
}

/// Putting back the capture that was taken out leaves the captures as they were.
pub proof fn law_restore_undoes_take<C>(captures: Seq<Option<Capture<C>>>, at: int)
    requires
        0 <= at < captures.len(),
    ensures
        captures.update(at, None).update(at, captures[at]) == captures,
{
    assert(captures.update(at, None).update(at, captures[at]) =~= captures);
}

} // verus!
