use rcore_os::laws::law_ring_write_then_read;
use rcore_os::pipe::{make_pipe, PipeProgress, PipeRingBuffer, RING_BUFFER_SIZE};

#[test]
fn pipe_write_then_read_returns_bytes_in_order() {
    let (read_end, write_end, mut ring) = make_pipe();
    assert!(read_end.readable() && !read_end.writable());
    assert!(write_end.writable() && !write_end.readable());
    let data = b"hello".to_vec();
    assert!(write_end.write(&mut ring, &data, 0) == PipeProgress::Done(5));
    assert_eq!(ring.available_read(), 5);
    assert_eq!(ring.available_write(), RING_BUFFER_SIZE - 5);
    let mut out = vec![0u8; 5];
    assert!(read_end.read(&mut ring, &mut out, 0, false) == PipeProgress::Done(5));
    assert_eq!(out, data);
    assert_eq!(ring.available_read(), 0);
    assert_eq!(ring.available_write(), RING_BUFFER_SIZE);
}

#[test]
fn pipe_write_waits_when_buffer_full() {
    let (read_end, write_end, mut ring) = make_pipe();
    let data: Vec<u8> = (0..40u8).collect();
    assert!(write_end.write(&mut ring, &data, 0) == PipeProgress::Wait(32));
    assert_eq!(ring.available_write(), 0);
    let mut out = vec![0u8; 40];
    assert!(read_end.read(&mut ring, &mut out, 0, false) == PipeProgress::Wait(32));
    assert_eq!(&out[..32], &data[..32]);
    assert!(write_end.write(&mut ring, &data, 32) == PipeProgress::Done(40));
    assert!(read_end.read(&mut ring, &mut out, 32, false) == PipeProgress::Done(40));
    assert_eq!(out, data);
}

#[test]
fn pipe_read_ends_at_eof_when_writers_closed() {
    let (read_end, _write_end, mut ring) = make_pipe();
    let mut out = vec![7u8; 4];
    assert!(read_end.read(&mut ring, &mut out, 0, true) == PipeProgress::Done(0));
    assert_eq!(out, vec![7u8; 4]);
    assert!(!ring.all_write_ends_closed());
    ring.share_write_end();
    ring.drop_write_end();
    assert!(!ring.all_write_ends_closed());
    ring.drop_write_end();
    assert!(ring.all_write_ends_closed());
}

#[test]
fn ring_buffer_wraps_around_in_fifo_order() {
    let mut ring = PipeRingBuffer::new();
    for round in 0..5u8 {
        for k in 0..30u8 {
            ring.write_byte(round.wrapping_mul(31).wrapping_add(k));
        }
        assert_eq!(ring.available_read() + ring.available_write(), RING_BUFFER_SIZE);
        for k in 0..30u8 {
            assert_eq!(ring.read_byte(), round.wrapping_mul(31).wrapping_add(k));
        }
    }
    assert_eq!(ring.available_read(), 0);
}

#[test]
fn ring_buffer_full_reports_no_room() {
    let mut ring = PipeRingBuffer::new();
    for k in 0..32u8 {
        ring.write_byte(k);
    }
    assert_eq!(ring.available_read(), 32);
    assert_eq!(ring.available_write(), 0);
    assert_eq!(ring.read_byte(), 0);
    assert_eq!(ring.available_write(), 1);
}

#[test]
fn ring_buffer_law_returns_unread_then_written_bytes() {
    let mut ring = PipeRingBuffer::new();
    for k in 0..20u8 {
        ring.write_byte(k);
    }
    for _ in 0..15 {
        ring.read_byte();
    }
    let xs: Vec<u8> = (100..125u8).collect();
    let out = law_ring_write_then_read(&mut ring, &xs);
    let mut expected: Vec<u8> = (15..20u8).collect();
    expected.extend_from_slice(&xs);
    assert_eq!(out, expected);
    assert_eq!(ring.available_read(), 0);
    assert_eq!(ring.available_write(), RING_BUFFER_SIZE);
}
