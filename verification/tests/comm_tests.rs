//! Tests of the message codec: exact wire bytes, round trips, the message
//! bounds checks, command classification, and constructor defaults.

use hdlc_link::comm::COMMS_HEADER_LEN;
use hdlc_link::comm::COMMS_MAX_PAYLOAD;
use hdlc_link::comm::Command;
use hdlc_link::comm::Message;
use hdlc_link::comm::decode;
use hdlc_link::comm::encode;
use hdlc_link::comm::frame_message;
use hdlc_link::hdlc::DeframeResult;
use hdlc_link::hdlc::hdlc_deframe;

fn sample_message() -> Message {
    Message {
        command: 0x0403,
        id: 7,
        fragments: 0x0201,
        fragment: 0x0100,
        length: 2,
        payload: vec![0xAA, 0xBB],
    }
}

#[test]
fn encode_exact_bytes() {
    let bytes = encode(&sample_message());
    assert_eq!(
        bytes,
        vec![0x03, 0x04, 0x07, 0x01, 0x02, 0x00, 0x01, 0x02, 0x00, 0xAA, 0xBB]
    );
}

#[test]
fn decode_exact_fields() {
    let bytes = vec![0x03, 0x04, 0x07, 0x01, 0x02, 0x00, 0x01, 0x02, 0x00, 0xAA, 0xBB];
    let m = decode(&bytes).expect("a complete message");
    assert_eq!(m, sample_message());
}

#[test]
fn codec_round_trip() {
    let m = sample_message();
    assert_eq!(decode(&encode(&m)), Some(m));
}

#[test]
fn decode_tolerates_trailing_bytes() {
    let mut bytes = encode(&sample_message());
    bytes.push(0xFF);
    assert_eq!(decode(&bytes), Some(sample_message()));
}

#[test]
fn decode_short_header_fails() {
    assert_eq!(decode(&[]), None);
    assert_eq!(decode(&[0x01; 8]), None);
}

#[test]
fn decode_overlong_length_fails() {
    // Header declares 257 payload bytes, one over the maximum.
    let mut bytes = vec![0u8; COMMS_HEADER_LEN + 257];
    bytes[7] = 0x01;
    bytes[8] = 0x01;
    assert_eq!(decode(&bytes), None);
}

#[test]
fn decode_maximum_length_succeeds() {
    let mut bytes = vec![0u8; COMMS_HEADER_LEN + COMMS_MAX_PAYLOAD];
    bytes[7] = 0x00;
    bytes[8] = 0x01; // length 256, little-endian
    let m = decode(&bytes).expect("a complete maximum-size message");
    assert_eq!(m.length, 256);
    assert_eq!(m.payload.len(), 256);
}

#[test]
fn decode_truncated_payload_fails() {
    // Header declares 2 payload bytes but only 1 is present: no partial
    // message comes out.
    let bytes = vec![0x03, 0x04, 0x07, 0x01, 0x02, 0x00, 0x01, 0x02, 0x00, 0xAA];
    assert_eq!(decode(&bytes), None);
}

#[test]
fn message_new_defaults() {
    let m = Message::new(0x0003, b"ping");
    assert_eq!(m.command, 3);
    assert_eq!(m.id, 0);
    assert_eq!(m.fragments, 1);
    assert_eq!(m.fragment, 0);
    assert_eq!(m.length, 4);
    assert_eq!(m.payload, b"ping".to_vec());
}

#[test]
fn message_new_truncates_overlong_payload() {
    let long = vec![0x55u8; 300];
    let m = Message::new(1, &long);
    assert_eq!(m.length as usize, COMMS_MAX_PAYLOAD);
    assert_eq!(m.payload, vec![0x55u8; COMMS_MAX_PAYLOAD]);
}

#[test]
fn message_default_is_empty_single_fragment() {
    let m = Message::default();
    assert_eq!(m.command, 0);
    assert_eq!(m.id, 0);
    assert_eq!(m.fragments, 1);
    assert_eq!(m.fragment, 0);
    assert_eq!(m.length, 0);
    assert!(m.payload.is_empty());
}

#[test]
fn command_codes_round_trip() {
    assert_eq!(Command::from_code(0x01), Command::Ack);
    assert_eq!(Command::from_code(0x02), Command::Nak);
    assert_eq!(Command::from_code(0x03), Command::Ping);
    assert_eq!(Command::from_code(0x04), Command::Raw);
    assert_eq!(Command::Ack.code(), 0x01);
    assert_eq!(Command::Nak.code(), 0x02);
    assert_eq!(Command::Ping.code(), 0x03);
    assert_eq!(Command::Raw.code(), 0x04);
}

#[test]
fn unrecognized_command_keeps_its_value() {
    let c = Command::from_code(0x99);
    assert_eq!(c, Command::Unrecognized(0x99));
    assert_eq!(c.code(), 0x99);
}

#[test]
fn framed_message_round_trips_through_deframe() {
    let m = sample_message();
    let mut wire = frame_message(&m);
    match hdlc_deframe(&mut wire) {
        DeframeResult::Frame(payload) => {
            assert_eq!(decode(&payload), Some(m));
        }
        other => panic!("expected a frame, got {:?}", other),
    }
}
