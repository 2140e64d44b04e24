//! Tests of the framer and deframer: FCS reference vectors, round trips,
//! escaping, checksum sensitivity, resynchronization and partial delivery.

use hdlc_link::hdlc::DeframeResult;
use hdlc_link::hdlc::HDLC_ESCAPE;
use hdlc_link::hdlc::HDLC_FLAG;
use hdlc_link::hdlc::fcs16_ppp;
use hdlc_link::hdlc::hdlc_deframe;
use hdlc_link::hdlc::hdlc_frame;

fn framed(payload: &[u8]) -> Vec<u8> {
    let mut out = Vec::new();
    hdlc_frame(payload, &mut out);
    out
}

#[test]
fn fcs_of_empty_input() {
    assert_eq!(fcs16_ppp(&[]), 0x0000);
}

#[test]
fn fcs_standard_check_value() {
    // The X.25 FCS of "123456789", the standard check string.
    assert_eq!(fcs16_ppp(b"123456789"), 0x906E);
}

#[test]
fn fcs_differs_on_different_input() {
    assert_ne!(fcs16_ppp(b"hello"), fcs16_ppp(b"hellp"));
}

#[test]
fn frame_of_empty_payload_exact_bytes() {
    // FCS of the empty payload is !0xFFFF == 0x0000; neither byte needs
    // an escape.
    assert_eq!(framed(&[]), vec![0x7E, 0x00, 0x00, 0x7E]);
}

#[test]
fn frame_escapes_reserved_bytes() {
    let fr = framed(&[HDLC_FLAG]);
    assert_eq!(fr[0], 0x7E);
    assert_eq!(fr[1], 0x7D);
    assert_eq!(fr[2], 0x5E);
    let fr = framed(&[HDLC_ESCAPE]);
    assert_eq!(fr[1], 0x7D);
    assert_eq!(fr[2], 0x5D);
}

#[test]
fn round_trip_simple_payload() {
    let payload = b"hello".to_vec();
    let mut buf = framed(&payload);
    assert_eq!(hdlc_deframe(&mut buf), DeframeResult::Frame(payload));
    assert!(buf.is_empty());
}

#[test]
fn round_trip_empty_payload() {
    let mut buf = framed(&[]);
    assert_eq!(hdlc_deframe(&mut buf), DeframeResult::Frame(Vec::new()));
    assert!(buf.is_empty());
}

#[test]
fn round_trip_reserved_bytes_everywhere() {
    // Flag and escape bytes at every position still round-trip, and the
    // encoded frame contains no unescaped flag except the two delimiters.
    let payload = vec![0x7E, 0x7D, 0x7E, 0x7D, 0x7E, 0x7D, 0x7E, 0x7D];
    let fr = framed(&payload);
    for i in 1..fr.len() - 1 {
        assert_ne!(fr[i], HDLC_FLAG, "unescaped flag inside the frame at {}", i);
    }
    assert_eq!(fr[0], HDLC_FLAG);
    assert_eq!(fr[fr.len() - 1], HDLC_FLAG);
    let mut buf = fr;
    assert_eq!(hdlc_deframe(&mut buf), DeframeResult::Frame(payload));
}

#[test]
fn round_trip_all_byte_values() {
    let payload: Vec<u8> = (0..=255u8).collect();
    let mut buf = framed(&payload);
    assert_eq!(hdlc_deframe(&mut buf), DeframeResult::Frame(payload));
    assert!(buf.is_empty());
}

#[test]
fn single_bit_flips_never_deliver_a_payload() {
    // Flipping any single bit of a framed byte sequence yields a checksum
    // failure or an incomplete frame, never a silently delivered payload.
    let fr = framed(b"hello");
    for i in 0..fr.len() {
        for bit in 0..8 {
            let mut corrupted = fr.clone();
            corrupted[i] ^= 1u8 << bit;
            let mut buf = corrupted;
            match hdlc_deframe(&mut buf) {
                DeframeResult::Frame(p) => {
                    panic!("bit {} of byte {} flipped, yet payload {:?} came out", bit, i, p)
                }
                DeframeResult::Incomplete | DeframeResult::FcsMismatch => {}
            }
        }
    }
}

#[test]
fn corrupted_payload_reports_fcs_mismatch_and_consumes_frame() {
    let mut buf = framed(&[0x10, 0x20, 0x30]);
    buf[1] ^= 0x01; // payload byte, stays unreserved
    let tail = vec![0xAAu8, 0xBB];
    buf.extend_from_slice(&tail);
    assert_eq!(hdlc_deframe(&mut buf), DeframeResult::FcsMismatch);
    // The corrupt frame is consumed; what followed it stays.
    assert_eq!(buf, tail);
}

#[test]
fn resynchronization_skips_garbage() {
    let payload = b"payload".to_vec();
    let mut buf = vec![0x01, 0x02, 0x03, 0x55];
    buf.extend_from_slice(&framed(&payload));
    assert_eq!(hdlc_deframe(&mut buf), DeframeResult::Frame(payload));
    assert!(buf.is_empty());
}

#[test]
fn incomplete_frame_leaves_buffer_untouched() {
    let mut buf = vec![0x7E, 0x01, 0x02];
    assert_eq!(hdlc_deframe(&mut buf), DeframeResult::Incomplete);
    assert_eq!(buf, vec![0x7E, 0x01, 0x02]);
}

#[test]
fn empty_frames_are_ignored() {
    let mut buf = vec![0x7E, 0x7E, 0x7E, 0x01, 0x7E];
    assert_eq!(hdlc_deframe(&mut buf), DeframeResult::Incomplete);
    assert_eq!(buf, vec![0x7E, 0x7E, 0x7E, 0x01, 0x7E]);
}

#[test]
fn frame_after_empty_frames_is_found() {
    let payload = vec![0x42, 0x43];
    let mut buf = vec![0x7E, 0x7E];
    buf.extend_from_slice(&framed(&payload));
    assert_eq!(hdlc_deframe(&mut buf), DeframeResult::Frame(payload));
}

#[test]
fn partial_delivery_matches_single_chunk() {
    let payload = b"split me anywhere".to_vec();
    let fr = framed(&payload);
    for k in 0..fr.len() {
        // First chunk alone: incomplete, buffer untouched.
        let mut buf: Vec<u8> = fr[..k].to_vec();
        assert_eq!(hdlc_deframe(&mut buf), DeframeResult::Incomplete);
        assert_eq!(buf, &fr[..k]);
        // Second chunk appended: the same payload as in one piece.
        buf.extend_from_slice(&fr[k..]);
        assert_eq!(hdlc_deframe(&mut buf), DeframeResult::Frame(payload.clone()));
        assert!(buf.is_empty());
    }
}

#[test]
fn two_frames_in_one_buffer_come_out_in_order() {
    let first = vec![0x01, 0x02, 0x03];
    let second = vec![0x04, 0x05];
    let mut buf = framed(&first);
    buf.extend_from_slice(&framed(&second));
    assert_eq!(hdlc_deframe(&mut buf), DeframeResult::Frame(first));
    assert_eq!(hdlc_deframe(&mut buf), DeframeResult::Frame(second));
    assert_eq!(hdlc_deframe(&mut buf), DeframeResult::Incomplete);
}
