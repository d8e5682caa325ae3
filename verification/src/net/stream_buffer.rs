//! A fixed-capacity byte buffer for one direction of a proxied TCP stream: bytes are appended at
//! the back and consumed from the front as a send drains them. The backing store is allocated on
//! first use and never grows: an append past the capacity is refused, so that a stuck peer cannot
//! pin unbounded memory.

use vstd::prelude::*;

verus! {

/// An append did not fit, even with the consumed prefix reclaimed.
#[derive(Debug, Clone, Copy, PartialEq, Eq, Structural)]
pub struct Overflow;

/// A bounded FIFO byte buffer: append at `filled`, consume from `consumed`, unsent bytes between.
pub struct StreamBuffer {
    /// The backing store: empty until first use, `capacity` bytes from then on.
    storage: Vec<u8>,
    capacity: usize,
    filled: usize,
    consumed: usize,
}

impl View for StreamBuffer {
    type V = Seq<u8>;

    /// The unsent bytes, in order.
    closed spec fn view(&self) -> Seq<u8> {
        self.storage@.subrange(self.consumed as int, self.filled as int)
    }
}

impl StreamBuffer {
    /// The cursors are in order and inside the backing store, which is allocated if they are
    /// in use; a drained buffer has both at the front.
    pub closed spec fn wf(&self) -> bool {
        &&& self.consumed <= self.filled <= self.capacity
        &&& self.filled > 0 ==> self.consumed < self.filled
        &&& self.storage@.len() == self.capacity || (self.storage@.len() == 0 && self.filled == 0)
    }

    /// The most unsent bytes the buffer holds.
    pub closed spec fn spec_capacity(&self) -> nat {
        self.capacity as nat
    }

    /// How many bytes of the store, counted from its front, have been written: the consumed prefix
    /// and the unsent bytes behind it.
    pub closed spec fn written(&self) -> nat {
        self.filled as nat
    }

    /// The part of an allocated store behind the written bytes.
    pub closed spec fn spare(&self) -> Seq<u8> {
        if self.storage@.len() == 0 {
            Seq::empty()
        } else {
            self.storage@.skip(self.filled as int)
        }
    }

    /// A buffer that holds at most `cap` unsent bytes. Nothing is allocated yet.
    pub fn with_capacity(cap: usize) -> (buffer: Self)
        ensures
            buffer.wf(),
            buffer@ == Seq::<u8>::empty(),
            buffer.spec_capacity() == cap,
            buffer.written() == 0,
    {
        let buffer = StreamBuffer { storage: Vec::new(), capacity: cap, filled: 0, consumed: 0 };
        assert(buffer@ =~= Seq::<u8>::empty());
        buffer
    }

    /// The unsent bytes, for one send.
    pub fn pending(&self) -> (bytes: &[u8])
        requires
            self.wf(),
        ensures
            bytes@ == self@,
    {
        vstd::slice::slice_subrange(self.storage.as_slice(), self.consumed, self.filled)
    }

    /// How many bytes are unsent.
    pub fn len(&self) -> (n: usize)
        requires
            self.wf(),
        ensures
            n == self@.len(),
            n <= self.spec_capacity(),
    {
        self.filled - self.consumed
    }

    /// Whether nothing waits to be sent: the cue to disarm write interest.
    pub fn is_empty(&self) -> (empty: bool)
        requires
            self.wf(),
        ensures
            empty == (self@.len() == 0),
    {
        self.filled == self.consumed
    }

    fn ensure_alloc(&mut self)
        requires
            old(self).wf(),
        ensures
            final(self).wf(),
            final(self)@ == old(self)@,
            final(self).capacity == old(self).capacity,
            final(self).filled == old(self).filled,
            final(self).consumed == old(self).consumed,
            final(self).storage@.len() == old(self).capacity,
    {
        if self.storage.len() == 0 {
            self.storage = vec![0u8; self.capacity];
            assert(self@ =~= old(self)@);
        }
    }

    /// Slides the unsent bytes to the front, dropping the consumed prefix.
    fn compact(&mut self)
        requires
            old(self).wf(),
        ensures
            final(self).wf(),
            final(self)@ == old(self)@,
            final(self).capacity == old(self).capacity,
            final(self).filled == old(self)@.len(),
            final(self).consumed == 0,
            final(self).storage@.len() == old(self).storage@.len(),
    {
        let start: usize = self.consumed;
        let n: usize = self.filled - self.consumed;
        let mut i: usize = 0;
        while i < n
            invariant
                i <= n,
                n == old(self).filled - old(self).consumed,
                start == old(self).consumed,
                old(self).wf(),
                self.capacity == old(self).capacity,
                self.filled == old(self).filled,
                self.consumed == old(self).consumed,
                self.storage@.len() == old(self).storage@.len(),
                forall|j: int| 0 <= j < i ==> self.storage@[j] == old(self).storage@[start + j],
                forall|j: int|
                    start + i <= j < self.storage@.len() ==> self.storage@[j] == old(
                        self,
                    ).storage@[j],
            decreases n - i,
        {
            let b: u8 = self.storage[start + i];
            self.storage.set(i, b);
            i += 1;
        }
        self.filled = n;
        self.consumed = 0;
        assert(self@ =~= old(self)@);
    }

    /// Appends `data` behind the unsent bytes, reclaiming the consumed prefix if the tail is too
    /// short. Refused, with the buffer unchanged, where the unsent bytes and `data` together
    /// exceed the capacity.
    pub fn append(&mut self, data: &[u8]) -> (r: Result<(), Overflow>)
        requires
            old(self).wf(),
        ensures
            final(self).wf(),
            final(self).spec_capacity() == old(self).spec_capacity(),
            old(self)@.len() + data@.len() <= old(self).spec_capacity() ==> r is Ok && final(self)@
                == old(self)@ + data@,
            old(self)@.len() + data@.len() > old(self).spec_capacity() ==> r == Err::<(), Overflow>(
                Overflow,
            ) && *final(self) == *old(self),
            final(self).written() == if r is Err {
                old(self).written()
            } else if old(self).written() + data@.len() > old(self).spec_capacity() {
                old(self)@.len() + data@.len()
            } else {
                old(self).written() + data@.len()
            },
    {
        let m: usize = data.len();
        if m > self.capacity - (self.filled - self.consumed) {
            return Err(Overflow);
        }
        if m == 0 {
            assert(self@ =~= old(self)@ + data@);
            return Ok(());
        }
        if m > self.capacity - self.filled {
            self.compact();
        }
        self.ensure_alloc();
        let at: usize = self.filled;
        let ghost before = *self;
        let mut i: usize = 0;
        while i < m
            invariant
                i <= m,
                m == data@.len(),
                at + m <= self.capacity,
                self.storage@.len() == self.capacity,
                self.capacity == before.capacity,
                self.filled == before.filled,
                self.consumed == before.consumed,
                self.filled == at,
                self.consumed <= at,
                before.storage@.len() == self.storage@.len(),
                forall|j: int| 0 <= j < at ==> self.storage@[j] == before.storage@[j],
                forall|j: int| 0 <= j < i ==> self.storage@[at + j] == data@[j],
            decreases m - i,
        {
            self.storage.set(at + i, data[i]);
            i += 1;
        }
        self.filled = at + m;
        assert(self@ =~= before@ + data@) by {
            assert forall|j: int| 0 <= j < self@.len() implies self@[j] == (before@ + data@)[j] by {
                if j >= before@.len() {
                    let k = j - before@.len();
                    assert(self.storage@[at + k] == data@[k]);
                }
            }
        }
        Ok(())
    }

    /// The free space at the back, to receive into in place; [`StreamBuffer::commit`] then marks
    /// how many bytes landed. Reclaims the consumed prefix first where the tail is exhausted, so
    /// that it is empty only where the buffer is full of unsent bytes. What is written into the
    /// slice, which keeps its length, is what the spare part of the store then holds.
    pub fn free_tail_mut(&mut self) -> (tail: &mut [u8])
        requires
            old(self).wf(),
        ensures
            tail@.len() == old(self).spec_capacity() - reclaimed(*old(self)),
            final(tail)@.len() == tail@.len() ==> {
                &&& final(self).wf()
                &&& final(self)@ == old(self)@
                &&& final(self).spec_capacity() == old(self).spec_capacity()
                &&& final(self).written() == reclaimed(*old(self))
                &&& final(self).spare() == final(tail)@
            },
    {
        if self.filled == self.capacity && self.consumed > 0 {
            self.compact();
        }
        self.ensure_alloc();
        let filled: usize = self.filled;
        let ghost before = *self;
        let (head, tail) = self.storage.as_mut_slice().split_at_mut(filled);
        assert((final(head)@ + final(tail)@).skip(head@.len() as int) =~= final(tail)@);
        assert((final(head)@ + final(tail)@).subrange(before.consumed as int, filled as int)
            =~= before@);
        tail
    }

    /// Marks the first `n` bytes received into [`StreamBuffer::free_tail_mut`] as unsent bytes.
    pub fn commit(&mut self, n: usize)
        requires
            old(self).wf(),
            n <= old(self).spare().len(),
        ensures
            final(self).wf(),
            final(self)@ == old(self)@ + old(self).spare().take(n as int),
            final(self).spec_capacity() == old(self).spec_capacity(),
            final(self).written() == old(self).written() + n,
            final(self).spare() == old(self).spare().skip(n as int),
    {
        self.filled = self.filled + n;
        assert(self@ =~= old(self)@ + old(self).spare().take(n as int));
        assert(self.spare() =~= old(self).spare().skip(n as int));
    }

    /// Drops the first `n` unsent bytes after a send wrote them. A drained buffer offers its whole
    /// capacity again.
    pub fn consume(&mut self, n: usize)
        requires
            old(self).wf(),
            n <= old(self)@.len(),
        ensures
            final(self).wf(),
            final(self)@ == old(self)@.skip(n as int),
            final(self).spec_capacity() == old(self).spec_capacity(),
            final(self).written() == if n == old(self)@.len() {
                0
            } else {
                old(self).written()
            },
    {
        self.consumed = self.consumed + n;
        if self.consumed >= self.filled {
            self.consumed = 0;
            self.filled = 0;
        }
        assert(self@ =~= old(self)@.skip(n as int));
    }
}

/// Where the free space of a buffer begins once an exhausted tail has been reclaimed.
pub open spec fn reclaimed(buffer: StreamBuffer) -> nat {
    if buffer.written() == buffer.spec_capacity() {
        buffer@.len()
    } else {
        buffer.written()
    }
}

/// Bytes come out in the order they went in: what is appended behind unsent bytes is what remains
/// once those are consumed.
pub proof fn law_first_in_first_out(unsent: Seq<u8>, data: Seq<u8>)
    ensures
        (unsent + data).skip(unsent.len() as int) == data,
        (unsent + data).take(unsent.len() as int) == unsent,
{
    assert((unsent + data).skip(unsent.len() as int) =~= data);
    assert((unsent + data).take(unsent.len() as int) =~= unsent);
}

/// A buffer never holds more than its capacity.
pub proof fn law_within_capacity(buffer: StreamBuffer)
    requires
        buffer.wf(),
    ensures
        buffer@.len() <= buffer.spec_capacity(),
        buffer@.len() <= buffer.written() <= buffer.spec_capacity(),
{
}

} // verus!
