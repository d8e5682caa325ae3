//! Capture filters, BPF batches and packet-socket reads.

use reflector::capture::af_packet::{after_recv, FrameStep, RecvError};
use reflector::capture::bpf::{
    after_open_failure, bpf_wordalign, hides_sent_frames, link_type_of, parse_record, Batch,
    BatchError, BpfLayout, DeviceStep, Next, Record,
};
use reflector::capture::filter::{
    bpf_device_filter, dlt_null_udp_filter, drop_all_filter, drop_outgoing_filter,
    drop_outgoing_prologue, ethernet_udp_filter, host_af_to_bpf_be, packet_socket_filter, BpfInsn,
    JEQ_K, LD_B_ABS, LD_H_ABS, RET_K,
};
use reflector::net::addr::{Ipv4Addr, Ipv6Addr, SocketAddrV4, SocketAddrV6};
use reflector::net::frame;
use reflector::net::mac::MacAddr;
use reflector::net::{ByteOrder, HostFamilies, LinkType};

const LAYOUTS: [ByteOrder; 2] = [ByteOrder::Little, ByteOrder::Big];

const MACOS: HostFamilies = HostFamilies {
    order: ByteOrder::Little,
    inet: 2,
    inet6: 30,
};

fn put16(order: ByteOrder, n: u16) -> [u8; 2] {
    match order {
        ByteOrder::Little => n.to_le_bytes(),
        ByteOrder::Big => n.to_be_bytes(),
    }
}

fn put32(order: ByteOrder, n: u32) -> [u8; 4] {
    match order {
        ByteOrder::Little => n.to_le_bytes(),
        ByteOrder::Big => n.to_be_bytes(),
    }
}

/// Append one synthetic record (header, frame, padding to the word) to `batch`.
fn push_record(layout: BpfLayout, batch: &mut Vec<u8>, caplen: u32, datalen: u32, fill: u8) {
    let mut header = vec![0u8; layout.header_size];
    header[layout.caplen_at..layout.caplen_at + 4].copy_from_slice(&put32(layout.order, caplen));
    header[layout.datalen_at..layout.datalen_at + 4].copy_from_slice(&put32(layout.order, datalen));
    header[layout.hdrlen_at..layout.hdrlen_at + 2]
        .copy_from_slice(&put16(layout.order, layout.header_size as u16));
    batch.extend_from_slice(&header);
    batch.extend(vec![fill; caplen as usize]);
    while batch.len() % layout.align != 0 {
        batch.push(0);
    }
}

#[test]
fn drop_outgoing_filter_prepends_the_prologue() {
    let filter = drop_outgoing_filter();
    let prologue = drop_outgoing_prologue();
    assert_eq!(&filter[..prologue.len()], &prologue[..]);
    assert_eq!(&filter[prologue.len()..], &ethernet_udp_filter()[..]);
}

#[test]
fn dlt_null_family_constants_match_a_bpf_word_load() {
    // The frame stores the family in host byte order; the BPF machine loads that word
    // big-endian. The filter's constant must equal that view, or it matches no frame at all.
    for af in [libc::AF_INET, libc::AF_INET6] {
        let as_the_vm_loads_it = u32::from_be_bytes((af as u32).to_le_bytes());
        assert_eq!(
            host_af_to_bpf_be(ByteOrder::Little, af as u32),
            as_the_vm_loads_it
        );
        assert_eq!(host_af_to_bpf_be(ByteOrder::Big, af as u32), af as u32);
    }
}

#[test]
fn wordalign_rounds_up_to_alignment() {
    assert_eq!(bpf_wordalign(0), 0);
    assert_eq!(bpf_wordalign(1), 4);
    assert_eq!(bpf_wordalign(4), 4);
    assert_eq!(bpf_wordalign(5), 8);
}

#[test]
fn walks_a_multi_frame_batch() {
    for order in LAYOUTS {
        let layout = BpfLayout::darwin(order);
        let mut batch = Vec::new();
        push_record(layout, &mut batch, 3, 3, 0xaa); // frame 1: 3 bytes of 0xaa
        push_record(layout, &mut batch, 5, 5, 0xbb); // frame 2: 5 bytes of 0xbb (after padding)
        push_record(layout, &mut batch, 1, 1, 0xcc); // frame 3: 1 byte of 0xcc

        let mut offset = 0;
        let mut frames: Vec<Vec<u8>> = Vec::new();
        while offset < batch.len() {
            let (record, advance) = parse_record(layout, &batch[offset..]).unwrap();
            if let Record::Frame { start, end } = record {
                frames.push(batch[offset + start..offset + end].to_vec());
            }
            offset += advance;
        }
        assert_eq!(frames, vec![vec![0xaa; 3], vec![0xbb; 5], vec![0xcc; 1]]);
    }
}

#[test]
fn skips_a_truncated_record() {
    let layout = BpfLayout::darwin(ByteOrder::Little);
    let mut batch = Vec::new();
    push_record(layout, &mut batch, 4, 9, 0xaa); // captured 4 of a 9-byte frame -> skip
    push_record(layout, &mut batch, 2, 2, 0xbb); // good frame after it

    let (first, advance) = parse_record(layout, &batch).unwrap();
    assert!(matches!(first, Record::Oversized { .. }));
    let (second, _) = parse_record(layout, &batch[advance..]).unwrap();
    match second {
        Record::Frame { start, end } => {
            assert_eq!(&batch[advance + start..advance + end], &[0xbb, 0xbb]);
        }
        Record::Oversized { .. } => panic!("second record should be a frame"),
    }
}

#[test]
fn rejects_a_header_past_the_batch_end() {
    let layout = BpfLayout::darwin(ByteOrder::Little);
    let batch = vec![0u8; layout.header_size - 1];
    assert_eq!(parse_record(layout, &batch), Err(BatchError::MidHeader));
}

#[test]
fn rejects_a_non_advancing_record() {
    // A header and a capture length of 0 would leave the cursor in place and spin the drain loop.
    let layout = BpfLayout::darwin(ByteOrder::Little);
    let mut batch = vec![0u8; layout.header_size];
    batch[layout.datalen_at..layout.datalen_at + 4].copy_from_slice(&1u32.to_le_bytes());
    assert_eq!(parse_record(layout, &batch), Err(BatchError::NoAdvance));
}

#[test]
fn rejects_a_record_past_the_batch_end() {
    let layout = BpfLayout::freebsd(ByteOrder::Little);
    let mut batch = Vec::new();
    push_record(layout, &mut batch, 8, 8, 0xaa);
    let short = batch.len() - 1;
    assert_eq!(
        parse_record(layout, &batch[..short]),
        Err(BatchError::PastEnd)
    );
    for e in [
        BatchError::MidHeader,
        BatchError::PastEnd,
        BatchError::NoAdvance,
    ] {
        assert!(!e.message().is_empty());
    }
}

#[test]
fn a_batch_hands_out_its_frames_and_then_is_drained() {
    for layout in [
        BpfLayout::darwin(ByteOrder::Little),
        BpfLayout::freebsd(ByteOrder::Little),
    ] {
        let mut records = Vec::new();
        push_record(layout, &mut records, 3, 3, 0xaa);
        push_record(layout, &mut records, 4, 9, 0xbb); // truncated: skipped
        push_record(layout, &mut records, 2, 2, 0xcc);
        let mut batch = Batch::new(layout, 256);
        assert!(!batch.has_buffered());
        batch.buf[..records.len()].copy_from_slice(&records);
        batch.refilled(records.len());
        assert!(batch.has_buffered());
        let mut frames = Vec::new();
        while let Next::Frame { start, end } = batch.next_frame() {
            frames.push(batch.buf[start..end].to_vec());
        }
        assert_eq!(frames, vec![vec![0xaa; 3], vec![0xcc; 2]]);
        assert_eq!(batch.next_frame(), Next::Drained);
        assert!(!batch.has_buffered());
    }
}

#[test]
fn a_malformed_batch_is_dropped_whole() {
    let layout = BpfLayout::darwin(ByteOrder::Little);
    let mut batch = Batch::new(layout, 64);
    batch.refilled(layout.header_size - 1);
    assert_eq!(batch.next_frame(), Next::Malformed(BatchError::MidHeader));
    assert!(!batch.has_buffered());
    assert_eq!(batch.next_frame(), Next::Drained);
}

#[test]
fn links_are_told_by_their_type_number() {
    assert_eq!(link_type_of(0), Some(LinkType::DltNull));
    assert_eq!(link_type_of(1), Some(LinkType::Ethernet));
    assert_eq!(link_type_of(12), None);
    assert!(hides_sent_frames(LinkType::Ethernet));
    assert!(!hides_sent_frames(LinkType::DltNull));
}

#[test]
fn busy_devices_are_passed_over() {
    assert_eq!(after_open_failure(0, true), DeviceStep::Try(1));
    assert_eq!(after_open_failure(0, false), DeviceStep::Failed);
    assert_eq!(after_open_failure(255, true), DeviceStep::AllBusy);
}

#[test]
fn packet_socket_reads_are_sorted() {
    assert_eq!(after_recv(Ok(60), 2048), FrameStep::Frame(60));
    assert_eq!(after_recv(Ok(2048), 2048), FrameStep::Frame(2048));
    assert_eq!(after_recv(Ok(2049), 2048), FrameStep::Oversized(2049));
    assert_eq!(
        after_recv(Err(RecvError::Interrupted), 2048),
        FrameStep::Retry
    );
    assert_eq!(
        after_recv(Err(RecvError::WouldBlock), 2048),
        FrameStep::Empty
    );
    assert_eq!(
        after_recv(Err(RecvError::Other(5)), 2048),
        FrameStep::Failed(5)
    );
}

/// What a classic BPF machine returns for a packet, run on plain values.
fn run(program: &[BpfInsn], packet: &[u8], pkt_type: u32) -> u32 {
    let mut acc = 0u32;
    let mut pc = 0;
    while pc < program.len() {
        let i = program[pc];
        let k = i.k as usize;
        pc += 1;
        if i.code == RET_K {
            return i.k;
        } else if i.code == JEQ_K {
            pc += if acc == i.k { i.jt } else { i.jf } as usize;
        } else if i.code == LD_B_ABS && i.k == 0xffff_f004 {
            acc = pkt_type;
        } else if i.code == LD_B_ABS && k < packet.len() {
            acc = packet[k] as u32;
        } else if i.code == LD_H_ABS && k + 2 <= packet.len() {
            acc = u16::from_be_bytes([packet[k], packet[k + 1]]) as u32;
        } else if k + 4 <= packet.len() {
            acc = u32::from_be_bytes([packet[k], packet[k + 1], packet[k + 2], packet[k + 3]]);
        } else {
            return 0;
        }
    }
    0
}

#[test]
fn filters_accept_what_the_frame_builders_write() {
    let src = SocketAddrV4::new(Ipv4Addr::new(10, 0, 0, 1), 1);
    let dst = SocketAddrV4::new(Ipv4Addr::new(10, 0, 0, 2), 2);
    let mac = MacAddr::broadcast();
    let mut buf = [0u8; 64];
    let n = frame::ethernet_ipv4_udp(mac, mac, src, dst, 1, b"x", &mut buf).unwrap();
    assert_ne!(run(&ethernet_udp_filter(), &buf[..n], 0), 0);
    assert_ne!(run(&packet_socket_filter(false), &buf[..n], 0), 0);
    // The kernel marks a frame that the host sent itself with type 4.
    assert_eq!(run(&packet_socket_filter(false), &buf[..n], 4), 0);
    assert_ne!(run(&packet_socket_filter(true), &buf[..n], 4), 0);
    assert_eq!(run(&drop_all_filter(), &buf[..n], 0), 0);
    buf[23] = 6; // TCP
    assert_eq!(run(&ethernet_udp_filter(), &buf[..n], 0), 0);

    let n = frame::dlt_null_ipv4_udp(MACOS, src, dst, 1, b"x", &mut buf).unwrap();
    assert_ne!(run(&dlt_null_udp_filter(MACOS), &buf[..n], 0), 0);
    assert_eq!(
        bpf_device_filter(LinkType::DltNull, MACOS),
        dlt_null_udp_filter(MACOS)
    );
    assert_eq!(
        bpf_device_filter(LinkType::Ethernet, MACOS),
        ethernet_udp_filter()
    );
    buf[0] = 3;
    assert_eq!(run(&dlt_null_udp_filter(MACOS), &buf[..n], 0), 0);

    let src6 = SocketAddrV6::new(Ipv6Addr::new(0xfe80, 0, 0, 0, 0, 0, 0, 1), 1, 0, 0);
    let dst6 = SocketAddrV6::new(Ipv6Addr::new(0xff02, 0, 0, 0, 0, 0, 0, 0xfb), 2, 0, 0);
    let n = frame::dlt_null_ipv6_udp(MACOS, src6, dst6, 1, b"x", &mut buf).unwrap();
    assert_ne!(run(&dlt_null_udp_filter(MACOS), &buf[..n], 0), 0);
    buf[10] = 6; // TCP
    assert_eq!(run(&dlt_null_udp_filter(MACOS), &buf[..n], 0), 0);
}
