//! A bounded byte queue.

use reflector::net::stream_buffer::StreamBuffer;

/// Write `data` into the front of a tail slice.
fn fill(tail: &mut [u8], data: &[u8]) {
    for (slot, &byte) in tail.iter_mut().zip(data) {
        *slot = byte;
    }
}

#[test]
fn new_buffer_is_empty() {
    let b = StreamBuffer::with_capacity(8);
    assert!(b.is_empty());
    assert_eq!(b.len(), 0);
    assert_eq!(b.pending(), b"");
}

#[test]
fn append_then_pending_returns_the_bytes() {
    let mut b = StreamBuffer::with_capacity(8);
    b.append(b"abc").unwrap();
    assert_eq!(b.pending(), b"abc");
    assert_eq!(b.len(), 3);
    assert!(!b.is_empty());
}

#[test]
fn consume_advances_the_front() {
    let mut b = StreamBuffer::with_capacity(8);
    b.append(b"abcd").unwrap();
    b.consume(2);
    assert_eq!(b.pending(), b"cd");
    assert_eq!(b.len(), 2);
}

#[test]
fn consuming_everything_empties_and_offers_full_capacity_again() {
    let mut b = StreamBuffer::with_capacity(4);
    b.append(b"abcd").unwrap();
    b.consume(4);
    assert!(b.is_empty());
    // The cursors reset, so the whole capacity is available: not just the tail.
    b.append(b"wxyz").unwrap();
    assert_eq!(b.pending(), b"wxyz");
}

#[test]
fn append_compacts_to_reclaim_consumed_space() {
    let mut b = StreamBuffer::with_capacity(4);
    b.append(b"ab").unwrap();
    b.consume(2); // consumed=2, filled=2: the tail has only 2 free bytes
    // 3 bytes don't fit the tail but do fit after reclaiming the consumed prefix.
    b.append(b"xyz").unwrap();
    assert_eq!(b.pending(), b"xyz");
    assert_eq!(b.len(), 3);
}

#[test]
fn fills_to_exactly_capacity() {
    let mut b = StreamBuffer::with_capacity(4);
    b.append(b"abcd").unwrap();
    assert_eq!(b.len(), 4);
    assert!(b.append(b"e").is_err()); // one more overflows
}

#[test]
fn append_past_capacity_overflows_and_leaves_the_buffer_intact() {
    let mut b = StreamBuffer::with_capacity(4);
    b.append(b"abc").unwrap();
    assert!(b.append(b"de").is_err()); // 3 + 2 > 4
    // The failed append didn't disturb the live bytes.
    assert_eq!(b.pending(), b"abc");
    assert_eq!(b.len(), 3);
}

#[test]
fn free_tail_mut_offers_the_spare_capacity_and_commit_fills_it() {
    let mut b = StreamBuffer::with_capacity(8);
    b.append(b"ab").unwrap();
    let tail = b.free_tail_mut();
    assert_eq!(tail.len(), 6);
    fill(tail, b"xyz");
    b.commit(3);
    assert_eq!(b.pending(), b"abxyz");
}

#[test]
fn free_tail_mut_compacts_when_the_tail_is_exhausted() {
    let mut b = StreamBuffer::with_capacity(4);
    b.append(b"abcd").unwrap(); // tail full
    b.consume(2); // live "cd"; tail exhausted but 2 bytes reclaimable
    let tail = b.free_tail_mut(); // compacts: "cd" slides to the front
    assert_eq!(tail.len(), 2);
    fill(tail, b"ef");
    b.commit(2);
    assert_eq!(b.pending(), b"cdef");
}

#[test]
fn free_tail_mut_is_empty_when_full_of_live_bytes() {
    let mut b = StreamBuffer::with_capacity(4);
    b.append(b"abcd").unwrap();
    assert!(b.free_tail_mut().is_empty()); // no consumed prefix to reclaim
}
