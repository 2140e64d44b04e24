//! Tests of the frame-assembly pipeline: end-to-end decoding across
//! arbitrary chunk splits, FCS error counting, overflow recovery, and the
//! bounded queues' drop policy.

use hdlc_link::assembler::Assembler;
use hdlc_link::assembler::MSG_QUEUE_DEPTH;
use hdlc_link::assembler::RAW_BUFFER_CAPACITY;
use hdlc_link::assembler::enqueue_chunk;
use hdlc_link::comm::Message;
use hdlc_link::comm::frame_message;
use hdlc_link::hdlc::hdlc_frame;
use hdlc_link::queue::BoundedQueue;

fn ping_message() -> Message {
    Message {
        command: 0x03,
        id: 1,
        fragments: 1,
        fragment: 0,
        length: 4,
        payload: b"ping".to_vec(),
    }
}

/// A frame whose FCS is wrong: one payload bit flipped after framing.
fn corrupted_frame() -> Vec<u8> {
    let mut fr = Vec::new();
    hdlc_frame(&[0x10, 0x20, 0x30], &mut fr);
    fr[1] ^= 0x01;
    fr
}

/// A valid frame whose payload is not a message (shorter than a header);
/// deframing succeeds, decoding does not.
fn valid_non_message_frame() -> Vec<u8> {
    let mut fr = Vec::new();
    hdlc_frame(&[0x01, 0x02, 0x03], &mut fr);
    fr
}

#[test]
fn end_to_end_ping_in_three_chunks() {
    let msg = ping_message();
    let wire = frame_message(&msg);
    assert!(wire.len() > 6);
    let mut a = Assembler::new();
    a.feed_chunk(&wire[..5]);
    assert_eq!(a.read(), None);
    a.feed_chunk(&wire[5..9]);
    assert_eq!(a.read(), None);
    a.feed_chunk(&wire[9..]);
    assert_eq!(a.read(), Some(msg));
    assert_eq!(a.read(), None);
}

#[test]
fn end_to_end_every_split_point() {
    let msg = ping_message();
    let wire = frame_message(&msg);
    for k in 0..wire.len() {
        let mut a = Assembler::new();
        a.feed_chunk(&wire[..k]);
        a.feed_chunk(&wire[k..]);
        assert_eq!(a.read(), Some(msg.clone()));
        assert_eq!(a.read(), None);
    }
}

#[test]
fn fcs_counter_increments_once_per_failure_and_resets() {
    let mut a = Assembler::new();
    assert_eq!(a.fcs_error_count(), 0);
    a.feed_chunk(&corrupted_frame());
    assert_eq!(a.fcs_error_count(), 1);
    a.feed_chunk(&corrupted_frame());
    assert_eq!(a.fcs_error_count(), 2);
    // A successful deframe resets the counter, message or not.
    a.feed_chunk(&valid_non_message_frame());
    assert_eq!(a.fcs_error_count(), 0);
    assert_eq!(a.read(), None);
}

#[test]
fn corrupt_then_good_frame_in_one_chunk() {
    // The counter increments on the bad frame, then the good frame right
    // behind it in the same chunk resets it and is still delivered.
    let msg = ping_message();
    let mut wire = corrupted_frame();
    wire.extend_from_slice(&frame_message(&msg));
    let mut a = Assembler::new();
    a.feed_chunk(&wire);
    assert_eq!(a.fcs_error_count(), 0);
    assert_eq!(a.read(), Some(msg));
    assert_eq!(a.read(), None);
}

#[test]
fn overflow_clears_buffer_and_recovers() {
    let mut a = Assembler::new();
    // More bytes than the buffer holds, with no flag byte anywhere: the
    // buffer is discarded and nothing is ever delivered.
    let noise = vec![0x00u8; RAW_BUFFER_CAPACITY + 88];
    a.feed_chunk(&noise);
    assert_eq!(a.read(), None);
    assert_eq!(a.fcs_error_count(), 0);
    // A valid frame afterwards is processed normally.
    let msg = ping_message();
    a.feed_chunk(&frame_message(&msg));
    assert_eq!(a.read(), Some(msg));
}

#[test]
fn overflow_across_chunks_clears_accumulated_bytes() {
    let mut a = Assembler::new();
    a.feed_chunk(&vec![0x11u8; 300]);
    a.feed_chunk(&vec![0x11u8; 300]);
    assert_eq!(a.read(), None);
    let msg = ping_message();
    a.feed_chunk(&frame_message(&msg));
    assert_eq!(a.read(), Some(msg));
}

#[test]
fn message_queue_drops_newest_when_full() {
    let mut a = Assembler::new();
    let mut wire = Vec::new();
    for id in 0..(MSG_QUEUE_DEPTH as u8 + 2) {
        let m = Message {
            command: 0x04,
            id,
            fragments: 1,
            fragment: 0,
            length: 1,
            payload: vec![id],
        };
        wire.extend_from_slice(&frame_message(&m));
    }
    a.feed_chunk(&wire);
    // Exactly the oldest MSG_QUEUE_DEPTH messages survive, in order.
    for id in 0..MSG_QUEUE_DEPTH as u8 {
        let got = a.read().expect("a queued message");
        assert_eq!(got.id, id);
    }
    assert_eq!(a.read(), None);
}

#[test]
fn messages_arrive_in_wire_order() {
    let first = Message::new(0x01, b"a");
    let second = Message::new(0x02, b"bb");
    let mut wire = frame_message(&first);
    wire.extend_from_slice(&frame_message(&second));
    let mut a = Assembler::new();
    a.feed_chunk(&wire);
    assert_eq!(a.read(), Some(first));
    assert_eq!(a.read(), Some(second));
    assert_eq!(a.read(), None);
}

#[test]
fn garbage_between_frames_is_skipped() {
    let msg = ping_message();
    let mut wire = vec![0x55u8, 0x66, 0x77];
    wire.extend_from_slice(&frame_message(&msg));
    let mut a = Assembler::new();
    a.feed_chunk(&wire);
    assert_eq!(a.read(), Some(msg));
}

#[test]
fn ingress_queue_refuses_empty_chunks() {
    let mut q: BoundedQueue<Vec<u8>> = BoundedQueue::new(2);
    assert!(!enqueue_chunk(&mut q, Vec::new()));
    assert_eq!(q.len(), 0);
}

#[test]
fn ingress_queue_drops_newest_on_full() {
    let mut q: BoundedQueue<Vec<u8>> = BoundedQueue::new(2);
    assert!(enqueue_chunk(&mut q, vec![1]));
    assert!(enqueue_chunk(&mut q, vec![2]));
    assert!(!enqueue_chunk(&mut q, vec![3]));
    assert_eq!(q.len(), 2);
    assert_eq!(q.try_receive(), Some(vec![1]));
    assert_eq!(q.try_receive(), Some(vec![2]));
    assert_eq!(q.try_receive(), None);
}

#[test]
fn bounded_queue_is_fifo() {
    let mut q: BoundedQueue<u32> = BoundedQueue::new(3);
    assert!(q.is_empty());
    assert!(q.try_send(10));
    assert!(q.try_send(20));
    assert!(q.try_send(30));
    assert!(!q.try_send(40));
    assert_eq!(q.try_receive(), Some(10));
    assert!(q.try_send(40));
    assert_eq!(q.try_receive(), Some(20));
    assert_eq!(q.try_receive(), Some(30));
    assert_eq!(q.try_receive(), Some(40));
    assert_eq!(q.try_receive(), None);
}
