//! BPF packet capture (macOS and FreeBSD): one read returns a batch of frames, each behind a header
//! of variable length and padded so that the next record starts on an alignment boundary.

use crate::net::{read_host16, read_host32, ByteOrder, LinkType};
use vstd::prelude::*;

verus! {

/// The BPF link type of Ethernet.
pub const DLT_EN10MB: u32 = 1;

/// The BPF link type whose header is a host-order address family.
pub const DLT_NULL: u32 = 0;

/// How many BPF devices are tried.
pub const BPF_DEVICES: u32 = 256;

/// macOS aligns records to four bytes.
pub const BPF_ALIGN: usize = 4;

/// The framing of a BPF link type; no other is supported.
pub fn link_type_of(dlt: u32) -> (link: Option<LinkType>)
    ensures
        link == if dlt == DLT_EN10MB {
            Some(LinkType::Ethernet)
        } else if dlt == DLT_NULL {
            Some(LinkType::DltNull)
        } else {
            None
        },
{
    if dlt == DLT_EN10MB {
        Some(LinkType::Ethernet)
    } else if dlt == DLT_NULL {
        Some(LinkType::DltNull)
    } else {
        None
    }
}

/// Whether the device is told not to show frames this host sent. On `DLT_NULL` links it is not: the
/// loopback driver shows each frame once, as an outgoing one.
pub fn hides_sent_frames(link: LinkType) -> (hides: bool)
    ensures
        hides == link is Ethernet,
{
    match link {
        LinkType::Ethernet => true,
        LinkType::DltNull => false,
    }
}

/// What to do after a BPF device could not be opened.
#[derive(Debug, Clone, Copy, PartialEq, Eq, Structural)]
pub enum DeviceStep {
    /// The device is taken; try this one.
    Try(u32),
    /// Every device is taken.
    AllBusy,
    /// The failure is a real one.
    Failed,
}

/// What to do after opening device `n` failed, `busy` if because it is taken.
pub fn after_open_failure(n: u32, busy: bool) -> (step: DeviceStep)
    ensures
        step == if !busy {
            DeviceStep::Failed
        } else if n + 1 < BPF_DEVICES {
            DeviceStep::Try((n + 1) as u32)
        } else {
            DeviceStep::AllBusy
        },
{
    if !busy {
        DeviceStep::Failed
    } else if n < BPF_DEVICES - 1 {
        DeviceStep::Try(n + 1)
    } else {
        DeviceStep::AllBusy
    }
}

/// Where a system's record header has its fields, how long it is, and the alignment of records.
#[derive(Debug, Clone, Copy, PartialEq, Eq, Structural)]
pub struct BpfLayout {
    pub order: ByteOrder,
    pub header_size: usize,
    pub caplen_at: usize,
    pub datalen_at: usize,
    pub hdrlen_at: usize,
    pub align: usize,
}

impl BpfLayout {
    /// The fields lie inside the header, and the alignment is a power of two in use.
    pub open spec fn wf(self) -> bool {
        &&& self.caplen_at + 4 <= self.header_size
        &&& self.datalen_at + 4 <= self.header_size
        &&& self.hdrlen_at + 2 <= self.header_size
        &&& self.align == 4 || self.align == 8
    }

    /// macOS: a 32-bit timestamp pair, records aligned to four bytes.
    pub fn darwin(order: ByteOrder) -> (layout: Self)
        ensures
            layout.wf(),
            layout == (BpfLayout {
                order,
                header_size: 20,
                caplen_at: 8,
                datalen_at: 12,
                hdrlen_at: 16,
                align: 4,
            }),
    {
        BpfLayout {
            order,
            header_size: 20,
            caplen_at: 8,
            datalen_at: 12,
            hdrlen_at: 16,
            align: BPF_ALIGN,
        }
    }

    /// FreeBSD on 64 bits: a 64-bit timestamp pair, records aligned to eight bytes.
    pub fn freebsd(order: ByteOrder) -> (layout: Self)
        ensures
            layout.wf(),
            layout == (BpfLayout {
                order,
                header_size: 32,
                caplen_at: 16,
                datalen_at: 20,
                hdrlen_at: 24,
                align: 8,
            }),
    {
        BpfLayout {
            order,
            header_size: 32,
            caplen_at: 16,
            datalen_at: 20,
            hdrlen_at: 24,
            align: 8,
        }
    }
}

/// `x` rounded up to a multiple of `align`.
pub open spec fn aligned(x: int, align: int) -> int {
    (x + align - 1) / align * align
}

/// `x` rounded up to the alignment of records on macOS.
pub fn bpf_wordalign(x: usize) -> (r: usize)
    requires
        x <= usize::MAX - 3,
    ensures
        r == aligned(x as int, 4),
{
    (x + (BPF_ALIGN - 1)) / BPF_ALIGN * BPF_ALIGN
}

/// One record of a batch: a frame's byte range, relative to the record, or a frame of which only a
/// part was captured, with its real length.
#[derive(Debug, Clone, Copy, PartialEq, Eq, Structural)]
pub enum Record {
    Frame { start: usize, end: usize },
    Oversized { datalen: u32 },
}

/// Why a batch is malformed.
#[derive(Debug, Clone, Copy, PartialEq, Eq, Structural)]
pub enum BatchError {
    /// The batch ends inside a record header.
    MidHeader,
    /// A frame runs past the end of the batch.
    PastEnd,
    /// A record takes no room, so that the walk would not advance.
    NoAdvance,
}

impl BatchError {
    /// The error in words.
    pub fn message(&self) -> (text: &'static str)
        ensures
            text@ == match *self {
                BatchError::MidHeader => "BPF batch ended mid-header"@,
                BatchError::PastEnd => "BPF frame extends past batch end"@,
                BatchError::NoAdvance => "BPF record did not advance"@,
            },
    {
        match self {
            BatchError::MidHeader => "BPF batch ended mid-header",
            BatchError::PastEnd => "BPF frame extends past batch end",
            BatchError::NoAdvance => "BPF record did not advance",
        }
    }
}

/// The record at the front of `record`, and how far the next one is.
pub open spec fn record_of(layout: BpfLayout, record: Seq<u8>) -> Result<(Record, int), BatchError> {
    if record.len() < layout.header_size {
        Err(BatchError::MidHeader)
    } else {
        let start = crate::net::host16_at(layout.order, record, layout.hdrlen_at as int);
        let caplen = crate::net::host32_at(layout.order, record, layout.caplen_at as int);
        let datalen = crate::net::host32_at(layout.order, record, layout.datalen_at as int);
        let end = start + caplen;
        let advance = aligned(end, layout.align as int);
        if end > record.len() {
            Err(BatchError::PastEnd)
        } else if end == 0 {
            Err(BatchError::NoAdvance)
        } else if datalen > caplen {
            Ok((Record::Oversized { datalen: datalen as u32 }, advance))
        } else {
            Ok((Record::Frame { start: start as usize, end: end as usize }, advance))
        }
    }
}

/// Parses the record at the front of `record`, the unread part of the current batch: the frame's
/// range, and how many bytes to advance past it.
pub fn parse_record(layout: BpfLayout, record: &[u8]) -> (r: Result<(Record, usize), BatchError>)
    requires
        layout.wf(),
        record@.len() <= usize::MAX - 8,
    ensures
        match r {
            Ok((rec, advance)) => {
                &&& record_of(layout, record@) == Ok::<(Record, int), BatchError>(
                    (rec, advance as int),
                )
                &&& advance > 0
                &&& advance < record@.len() + 8
            },
            Err(e) => record_of(layout, record@) == Err::<(Record, int), BatchError>(e),
        },
{
    let n: usize = record.len();
    if n < layout.header_size {
        return Err(BatchError::MidHeader);
    }
    let start: u64 = read_host16(layout.order, record, layout.hdrlen_at) as u64;
    let caplen: u32 = read_host32(layout.order, record, layout.caplen_at);
    let datalen: u32 = read_host32(layout.order, record, layout.datalen_at);
    let frame_end: u64 = start + caplen as u64;
    if frame_end > n as u64 {
        return Err(BatchError::PastEnd);
    }
    if frame_end == 0 {
        return Err(BatchError::NoAdvance);
    }
    let end: usize = frame_end as usize;
    let advance: usize = if layout.align == 8 {
        (end + 7) / 8 * 8
    } else {
        (end + 3) / 4 * 4
    };
    if datalen > caplen {
        return Ok((Record::Oversized { datalen }, advance));
    }
    Ok((Record::Frame { start: start as usize, end }, advance))
}

/// What the batch yields next.
#[derive(Debug, Clone, Copy, PartialEq, Eq, Structural)]
pub enum Next {
    /// The bytes of a frame, as a range of the batch.
    Frame { start: usize, end: usize },
    /// The batch is used up.
    Drained,
    /// The batch is malformed, and the rest of it is abandoned.
    Malformed(BatchError),
}

/// What a batch yields from `offset` on, and where the walk then stands. Frames of which only a
/// part was captured are skipped.
pub open spec fn next_of(layout: BpfLayout, batch: Seq<u8>, offset: int) -> (Next, int)
    decreases batch.len() - offset,
{
    if offset < 0 || offset >= batch.len() {
        (Next::Drained, offset)
    } else {
        match record_of(layout, batch.skip(offset)) {
            Err(e) => (Next::Malformed(e), batch.len() as int),
            Ok((Record::Frame { start, end }, advance)) => (
                Next::Frame { start: (offset + start) as usize, end: (offset + end) as usize },
                offset + advance,
            ),
            Ok((Record::Oversized { .. }, advance)) => if advance > 0 && offset + advance
                < batch.len() {
                next_of(layout, batch, offset + advance)
            } else {
                (Next::Drained, offset + advance)
            },
        }
    }
}

/// A read batch and the walk over it.
#[derive(Debug)]
pub struct Batch {
    pub layout: BpfLayout,
    pub buf: Vec<u8>,
    pub filled: usize,
    pub offset: usize,
}

impl Batch {
    /// The batch lies inside the buffer, and the layout is sound.
    pub open spec fn wf(&self) -> bool {
        &&& self.layout.wf()
        &&& self.filled <= self.buf@.len()
        &&& self.buf@.len() <= usize::MAX - 8
    }

    /// An empty batch with a read buffer of `size` bytes.
    pub fn new(layout: BpfLayout, size: u32) -> (batch: Self)
        requires
            layout.wf(),
            size <= usize::MAX - 8,
        ensures
            batch.wf(),
            batch.layout == layout,
            batch.buf@.len() == size,
            batch.filled == 0,
            batch.offset == 0,
    {
        Batch { layout, buf: vec![0u8; size as usize], filled: 0, offset: 0 }
    }

    /// Takes note that a read filled the first `n` bytes of the buffer.
    pub fn refilled(&mut self, n: usize)
        requires
            old(self).wf(),
            n <= old(self).buf@.len(),
        ensures
            final(self).wf(),
            final(self).layout == old(self).layout,
            final(self).buf@ == old(self).buf@,
            final(self).filled == n,
            final(self).offset == 0,
    {
        self.filled = n;
        self.offset = 0;
    }

    /// Whether unread records are left: the cue to keep draining, since no event comes for them.
    pub fn has_buffered(&self) -> (has: bool)
        ensures
            has == (self.offset < self.filled),
    {
        self.offset < self.filled
    }

    /// The next frame of the batch, or that it is used up or malformed.
    pub fn next_frame(&mut self) -> (next: Next)
        requires
            old(self).wf(),
        ensures
            final(self).wf(),
            final(self).layout == old(self).layout,
            final(self).buf@ == old(self).buf@,
            final(self).filled == old(self).filled,
            (next, final(self).offset as int) == next_of(
                old(self).layout,
                old(self).buf@.take(old(self).filled as int),
                old(self).offset as int,
            ),
            next matches Next::Frame { start, end } ==> start <= end <= final(self).filled,
    {
        let ghost batch = self.buf@.take(self.filled as int);
        while self.offset < self.filled
            invariant
                self.wf(),
                self.layout == old(self).layout,
                self.buf@ == old(self).buf@,
                self.filled == old(self).filled,
                batch == self.buf@.take(self.filled as int),
                next_of(self.layout, batch, self.offset as int) == next_of(
                    old(self).layout,
                    batch,
                    old(self).offset as int,
                ),
            decreases usize::MAX - self.offset,
        {
            let start: usize = self.offset;
            let record = vstd::slice::slice_subrange(self.buf.as_slice(), start, self.filled);
            assert(record@ =~= batch.skip(start as int));
            match parse_record(self.layout, record) {
                Err(e) => {
                    self.offset = self.filled;
                    return Next::Malformed(e);
                },
                Ok((rec, advance)) => {
                    self.offset = start + advance;
                    match rec {
                        Record::Frame { start: from, end: to } => {
                            return Next::Frame { start: start + from, end: start + to };
                        },
                        Record::Oversized { .. } => {},
                    }
                },
            }
        }
        Next::Drained
    }
}

/// A batch whose walk has not reached its end always makes progress: it cannot stall a drain.
pub proof fn law_the_walk_advances(layout: BpfLayout, batch: Seq<u8>, offset: int)
    requires
        layout.wf(),
        0 <= offset < batch.len(),
    ensures
        next_of(layout, batch, offset).1 > offset,
    decreases batch.len() - offset,
{
    match record_of(layout, batch.skip(offset)) {
        Ok((Record::Oversized { .. }, advance)) => {
            if advance > 0 && offset + advance < batch.len() {
                law_the_walk_advances(layout, batch, offset + advance);
            }
        },
        _ => {},
    }
}

} // verus!
