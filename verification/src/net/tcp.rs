//! The decisions around a non-blocking TCP socket of the DIAL proxy: how its egress is pinned to an
//! interface, and what the outcome of each system call means.

use crate::net::addr::{Ipv4Addr, SocketAddrV4};
use vstd::prelude::*;

verus! {

/// What a host offers to pin a socket's egress to an interface.
#[derive(Clone, Copy, Debug, PartialEq, Eq, Structural)]
pub enum PinPrimitive {
    /// A socket option that takes the interface's name (Linux).
    DeviceName,
    /// A socket option that takes the interface's index (macOS).
    InterfaceIndex,
    /// None: binding the source address has to steer egress (FreeBSD).
    Unavailable,
}

/// How to pin a socket's egress.
#[allow(inconsistent_fields)]
#[derive(Clone, Copy, Debug, PartialEq, Eq, Structural)]
pub enum EgressPin {
    /// Leave the socket unpinned.
    Skip,
    /// Set the name of the interface with the index.
    ByName { ifindex: u32 },
    /// Set the index.
    ByIndex { ifindex: i32 },
    /// The index is more than the option can take.
    TooLarge,
}

/// How to pin egress to the interface with index `ifindex`; index 0 stands for no interface.
pub fn pin_egress(primitive: PinPrimitive, ifindex: u32) -> (pin: EgressPin)
    ensures
        pin == (if ifindex == 0 || primitive is Unavailable {
            EgressPin::Skip
        } else if primitive is DeviceName {
            EgressPin::ByName { ifindex }
        } else if ifindex <= i32::MAX {
            EgressPin::ByIndex { ifindex: ifindex as i32 }
        } else {
            EgressPin::TooLarge
        }),
{
    if ifindex == 0 {
        return EgressPin::Skip;
    }
    match primitive {
        PinPrimitive::Unavailable => EgressPin::Skip,
        PinPrimitive::DeviceName => EgressPin::ByName { ifindex },
        PinPrimitive::InterfaceIndex => if ifindex <= 0x7fff_ffff {
            EgressPin::ByIndex { ifindex: ifindex as i32 }
        } else {
            EgressPin::TooLarge
        },
    }
}

/// The length of the name in a buffer that a NUL byte ends, or that the name fills.
pub fn device_name_len(buf: &[u8]) -> (len: usize)
    ensures
        len <= buf@.len(),
        forall|i: int| 0 <= i < len ==> buf@[i] != 0,
        len < buf@.len() ==> buf@[len as int] == 0,
{
    let n: usize = buf.len();
    let mut i: usize = 0;
    while i < n
        invariant
            n == buf@.len(),
            i <= n,
            forall|j: int| 0 <= j < i ==> buf@[j] != 0,
        decreases n - i,
    {
        if buf[i] == 0 {
            return i;
        }
        i += 1;
    }
    n
}

/// How a read or a write on a non-blocking socket went.
#[derive(Clone, Copy, Debug, PartialEq, Eq, Structural)]
pub enum IoStatus {
    /// So many bytes were moved.
    Ready(usize),
    /// The call would have blocked.
    WouldBlock,
}

/// The error numbers that a host gives for what is no failure of a non-blocking call.
#[derive(Clone, Copy, Debug, PartialEq, Eq, Structural)]
pub struct PendingErrnos {
    /// Nothing to read, or no room to write.
    pub again: i32,
    /// The other name of `again`, the same number on most hosts.
    pub would_block: i32,
    /// A connection attempt goes on.
    pub in_progress: i32,
}

impl PendingErrnos {
    /// Whether `errno` says that the call would have blocked.
    pub open spec fn blocks(self, errno: i32) -> bool {
        errno == self.again || errno == self.would_block
    }

    /// Whether `errno` says that the call would have blocked.
    pub fn is_would_block(self, errno: i32) -> (r: bool)
        ensures
            r == self.blocks(errno),
    {
        errno == self.again || errno == self.would_block
    }
}

impl IoStatus {
    /// What a call that returned `n`, with `errno` where that is negative, did; or the error number
    /// of a failure.
    pub fn from_syscall(n: isize, errno: i32, pending: PendingErrnos) -> (r: Result<IoStatus, i32>)
        ensures
            r == (if n >= 0 {
                Ok::<IoStatus, i32>(IoStatus::Ready(n as usize))
            } else if pending.blocks(errno) {
                Ok(IoStatus::WouldBlock)
            } else {
                Err(errno)
            }),
    {
        if n >= 0 {
            Ok(IoStatus::Ready(n as usize))
        } else if pending.is_would_block(errno) {
            Ok(IoStatus::WouldBlock)
        } else {
            Err(errno)
        }
    }
}

/// The descriptor that an accepting call gave, none where no connection was pending, or the error
/// number of a failure.
pub fn accepted(raw: i32, errno: i32, pending: PendingErrnos) -> (r: Result<Option<i32>, i32>)
    ensures
        r == (if raw >= 0 {
            Ok::<Option<i32>, i32>(Some(raw))
        } else if pending.blocks(errno) {
            Ok(None)
        } else {
            Err(errno)
        }),
{
    if raw >= 0 {
        Ok(Some(raw))
    } else if pending.is_would_block(errno) {
        Ok(None)
    } else {
        Err(errno)
    }
}

/// An outbound connection: whether its non-blocking attempt still goes on.
#[derive(Clone, Copy, Debug, PartialEq, Eq, Structural)]
pub struct Connection {
    pub connecting: bool,
}

impl Connection {
    /// The connection after the connecting call returned `rc`, with `errno` where that is not 0;
    /// or the error number of a failure.
    pub fn started(rc: i32, errno: i32, pending: PendingErrnos) -> (r: Result<Self, i32>)
        ensures
            r == (if rc == 0 {
                Ok::<Self, i32>(Connection { connecting: false })
            } else if errno == pending.in_progress {
                Ok(Connection { connecting: true })
            } else {
                Err(errno)
            }),
    {
        if rc == 0 {
            Ok(Connection { connecting: false })
        } else if errno == pending.in_progress {
            Ok(Connection { connecting: true })
        } else {
            Err(errno)
        }
    }

    /// Completes the attempt after its writable edge, given the socket's pending error.
    pub fn finish_connect(&mut self, so_error: i32) -> (r: Result<(), i32>)
        ensures
            so_error != 0 ==> r == Err::<(), i32>(so_error) && *final(self) == *old(self),
            so_error == 0 ==> r is Ok && !final(self).connecting,
    {
        if so_error != 0 {
            return Err(so_error);
        }
        self.connecting = false;
        Ok(())
    }

    /// Whether the attempt still goes on.
    pub fn is_connecting(&self) -> (r: bool)
        ensures
            r == self.connecting,
    {
        self.connecting
    }
}

/// The address in an IPv4 socket address as the kernel fills it: the port behind the two bytes of
/// the family, then the address, both in network byte order.
pub fn sockaddr_v4(storage: &[u8]) -> (addr: Option<SocketAddrV4>)
    ensures
        storage@.len() < 8 ==> addr is None,
        storage@.len() >= 8 ==> {
            &&& addr matches Some(a)
            &&& a.port == crate::net::be16_at(storage@, 2)
            &&& a.ip.octets@ == storage@.subrange(4, 8)
        },
{
    if storage.len() < 8 {
        return None;
    }
    let port: u16 = crate::net::read_be16(storage, 2);
    let ip = Ipv4Addr::new(storage[4], storage[5], storage[6], storage[7]);
    let addr = SocketAddrV4::new(ip, port);
    assert(addr.ip.octets@ =~= storage@.subrange(4, 8));
    Some(addr)
}

/// The port in a socket address of either family as the kernel fills it: both have it behind the
/// two bytes of the family, in network byte order.
pub fn bound_port(storage: &[u8]) -> (port: Option<u16>)
    ensures
        port == (if storage@.len() >= 4 {
            Some(crate::net::be16_at(storage@, 2) as u16)
        } else {
            None
        }),
{
    if storage.len() < 4 {
        return None;
    }
    Some(crate::net::read_be16(storage, 2))
}

} // verus!
