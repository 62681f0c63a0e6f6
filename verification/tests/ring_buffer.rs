use ring_storage::storage::{RingBuffer, STORAGE_SIZE};

#[test]
fn capacity_boundary_small() {
    // 8 slots, 7 usable: exactly 7 single enqueues succeed from empty
    let mut rb: RingBuffer<u8> = RingBuffer::with_capacity(8);
    for i in 0..7u8 {
        assert!(rb.enqueue(i).is_ok());
    }
    assert!(rb.enqueue(7).is_err());
    // the failed enqueue mutated nothing: the 7 stored values drain intact
    let mut out = [0u8; 8];
    assert_eq!(rb.dequeue_into(&mut out[..]), 7);
    assert_eq!(&out[..7], &[0, 1, 2, 3, 4, 5, 6]);
}

#[test]
fn capacity_boundary_default() {
    let mut rb: RingBuffer<u8> = RingBuffer::new();
    for _ in 0..(STORAGE_SIZE - 1) {
        assert!(rb.enqueue(0xab).is_ok());
    }
    assert!(rb.enqueue(0xab).is_err());
}

#[test]
fn single_slot_buffer_is_always_full() {
    // one slot stays free, so a capacity-1 buffer can hold nothing
    let mut rb: RingBuffer<u8> = RingBuffer::with_capacity(1);
    assert!(rb.enqueue(1).is_err());
    let mut out = [0u8; 4];
    assert_eq!(rb.dequeue_into(&mut out[..]), 0);
}

#[test]
fn round_trip_simple() {
    let mut rb: RingBuffer<u32> = RingBuffer::with_capacity(16);
    let data: Vec<u32> = (100..110).collect();
    assert!(rb.enqueue_slice(&data[..]).is_ok());
    let mut out = vec![0u32; 10];
    assert_eq!(rb.dequeue_into(&mut out[..]), 10);
    assert_eq!(out, data);
}

#[test]
fn round_trip_wraparound() {
    // fill near-full, drain partway, then write a run that wraps past the
    // physical end of storage back to slot zero
    let mut rb: RingBuffer<u8> = RingBuffer::with_capacity(8);
    let first = [1u8, 2, 3, 4, 5, 6];
    assert!(rb.enqueue_slice(&first[..]).is_ok());
    let mut drained = [0u8; 4];
    assert_eq!(rb.dequeue_into(&mut drained[..]), 4);
    assert_eq!(drained, [1, 2, 3, 4]);
    // two unread elements remain; this run of five wraps around
    let second = [7u8, 8, 9, 10, 11];
    assert!(rb.enqueue_slice(&second[..]).is_ok());
    let mut out = [0u8; 7];
    assert_eq!(rb.dequeue_into(&mut out[..]), 7);
    assert_eq!(out, [5, 6, 7, 8, 9, 10, 11]);
}

#[test]
fn bulk_enqueue_is_all_or_nothing() {
    let mut rb: RingBuffer<u8> = RingBuffer::with_capacity(8);
    let first = [1u8, 2, 3, 4, 5];
    assert!(rb.enqueue_slice(&first[..]).is_ok());
    // only two slots are free: a run of three is refused outright
    let too_long = [6u8, 7, 8];
    assert!(rb.enqueue_slice(&too_long[..]).is_err());
    // a run that fits still succeeds, and nothing of the refused run shows
    let fits = [6u8, 7];
    assert!(rb.enqueue_slice(&fits[..]).is_ok());
    let mut out = [0u8; 8];
    assert_eq!(rb.dequeue_into(&mut out[..]), 7);
    assert_eq!(&out[..7], &[1, 2, 3, 4, 5, 6, 7]);
}

#[test]
fn dequeue_saturation() {
    let mut rb: RingBuffer<u8> = RingBuffer::with_capacity(8);
    let data = [10u8, 20, 30];
    assert!(rb.enqueue_slice(&data[..]).is_ok());
    // the destination is larger than the available data: the unused tail
    // keeps its sentinel values
    let mut out = [0xee_u8; 6];
    assert_eq!(rb.dequeue_into(&mut out[..]), 3);
    assert_eq!(out, [10, 20, 30, 0xee, 0xee, 0xee]);
    // drained: further dequeues report no data until something is enqueued
    assert_eq!(rb.dequeue_into(&mut out[..]), 0);
    assert_eq!(rb.dequeue_into(&mut out[..]), 0);
    assert!(rb.enqueue(42).is_ok());
    assert_eq!(rb.dequeue_into(&mut out[..]), 1);
    assert_eq!(out[0], 42);
}

#[test]
fn dequeue_into_empty_destination() {
    let mut rb: RingBuffer<u8> = RingBuffer::with_capacity(8);
    assert!(rb.enqueue(5).is_ok());
    let mut out: [u8; 0] = [];
    assert_eq!(rb.dequeue_into(&mut out[..]), 0);
}

#[test]
fn enqueue_empty_slice_succeeds() {
    let mut rb: RingBuffer<u8> = RingBuffer::with_capacity(2);
    assert!(rb.enqueue(9).is_ok());
    // the buffer is full, yet an empty run always fits
    let nothing: [u8; 0] = [];
    assert!(rb.enqueue_slice(&nothing[..]).is_ok());
    let mut out = [0u8; 2];
    assert_eq!(rb.dequeue_into(&mut out[..]), 1);
    assert_eq!(out[0], 9);
}

#[test]
fn clear_discards_content() {
    let mut rb: RingBuffer<u8> = RingBuffer::with_capacity(8);
    let data = [1u8, 2, 3, 4, 5];
    assert!(rb.enqueue_slice(&data[..]).is_ok());
    rb.clear();
    let mut out = [0x77_u8; 8];
    assert_eq!(rb.dequeue_into(&mut out[..]), 0);
    assert_eq!(out, [0x77; 8]);
    // the buffer keeps working after a clear
    assert!(rb.enqueue(6).is_ok());
    assert_eq!(rb.dequeue_into(&mut out[..]), 1);
    assert_eq!(out[0], 6);
}

#[test]
fn clear_empty_buffer() {
    let mut rb: RingBuffer<u8> = RingBuffer::with_capacity(8);
    rb.clear();
    let mut out = [0u8; 2];
    assert_eq!(rb.dequeue_into(&mut out[..]), 0);
}

#[test]
fn example_scenario() {
    // 8 slots, 7 usable
    let mut rb: RingBuffer<u8> = RingBuffer::with_capacity(8);
    let first = [1u8, 2, 3, 4, 5, 6];
    assert!(rb.enqueue_slice(&first[..]).is_ok());
    let seven = [7u8];
    assert!(rb.enqueue_slice(&seven[..]).is_ok());
    let eight = [8u8];
    assert!(rb.enqueue_slice(&eight[..]).is_err());
    let mut small = [0u8; 3];
    assert_eq!(rb.dequeue_into(&mut small[..]), 3);
    assert_eq!(small, [1, 2, 3]);
    let more = [8u8, 9];
    assert!(rb.enqueue_slice(&more[..]).is_ok());
    let mut rest = [0u8; 10];
    assert_eq!(rb.dequeue_into(&mut rest[..]), 6);
    assert_eq!(&rest[..6], &[4, 5, 6, 7, 8, 9]);
}

#[test]
fn interleaved_writer_reader_loses_nothing() {
    // one writer role and one reader role taking turns: every value comes
    // out exactly once, in order
    let mut rb: RingBuffer<u16> = RingBuffer::with_capacity(8);
    let mut produced: u16 = 0;
    let mut consumed: Vec<u16> = Vec::new();
    while consumed.len() < 100 {
        while produced < 100 && rb.enqueue(produced).is_ok() {
            produced += 1;
        }
        let mut out = [0u16; 3];
        let got = rb.dequeue_into(&mut out[..]);
        consumed.extend_from_slice(&out[..got]);
    }
    let expected: Vec<u16> = (0..100).collect();
    assert_eq!(consumed, expected);
}
