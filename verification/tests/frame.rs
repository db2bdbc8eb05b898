//! Frames and their wire form.

use bytes::Bytes;

use netrunner_engine::nrxp::frame::{Frame, FrameType, MAX_FRAME_PAYLOAD, MAX_RECORD_PLAINTEXT};
use netrunner_engine::parser::Parser;

const AUTH_KEY: [u8; 16] = [0x42; 16];

fn round_trip(frame_type: FrameType, payload: &[u8], pad: u16) -> Frame {
    let frame = Frame::new(7, frame_type, Bytes::copy_from_slice(payload));
    let mut wire = frame.into_bytes(&AUTH_KEY, pad);
    Frame::parse(&mut wire).unwrap().unwrap()
}

#[test]
fn round_trip_preserves_payload_and_metadata() {
    let parsed = round_trip(FrameType::Data, b"some tunnel payload", 0);
    assert_eq!(parsed.header.stream_id, 7);
    assert_eq!(parsed.header.frame_type, FrameType::Data);
    assert_eq!(&parsed.payload[..], b"some tunnel payload");
    assert_eq!(parsed.header.auth_tag, AUTH_KEY);
}

#[test]
fn the_wire_form_is_tag_stream_type_lengths_payload_and_padding() {
    let frame = Frame::new(0x01020304, FrameType::Data, Bytes::from_static(b"ab"));
    let wire = frame.into_bytes(&AUTH_KEY, 3);
    assert_eq!(&wire[..16], &AUTH_KEY);
    assert_eq!(&wire[16..20], &[1, 2, 3, 4]);
    assert_eq!(wire[20], FrameType::Data.code());
    assert_eq!(&wire[21..25], &[0, 2, 0, 3]);
    assert_eq!(&wire[25..27], b"ab");
    assert_eq!(wire.len(), 30);
}

#[test]
fn padding_is_whatever_the_caller_asked_for() {
    for (frame_type, pad) in [
        (FrameType::Data, 0u16),
        (FrameType::Data, 137),
        (FrameType::UdpData, 4096),
        (FrameType::Heartbeat, 255),
        (FrameType::Connect, 1),
        (FrameType::Credit, 0),
    ] {
        let frame = Frame::new(1, frame_type, Bytes::from_static(b"x"));
        let wire = frame.into_bytes(&AUTH_KEY, pad);
        assert_eq!(u16::from_be_bytes([wire[23], wire[24]]), pad);
        assert_eq!(wire.len(), Frame::wire_len(1, pad));
    }
}

#[test]
fn max_frame_payload_fills_exactly_one_tls_record() {
    assert_eq!(Frame::wire_len(MAX_FRAME_PAYLOAD, 0), MAX_RECORD_PLAINTEXT);
    assert_eq!(MAX_RECORD_PLAINTEXT + 16, 16401);

    let frame = Frame::new(
        1,
        FrameType::Data,
        Bytes::from(vec![0u8; MAX_FRAME_PAYLOAD]),
    );
    let wire = frame.into_bytes(&AUTH_KEY, 0);
    assert_eq!(wire.len(), MAX_RECORD_PLAINTEXT);
}

#[test]
fn payload_len_field_still_fits_u16() {
    assert!(MAX_FRAME_PAYLOAD <= u16::MAX as usize);
}

#[test]
fn parse_skips_padding_without_exposing_it() {
    let frame = Frame::new(3, FrameType::Heartbeat, Bytes::from_static(b"auth-payload"));
    let mut wire = frame.into_bytes(&AUTH_KEY, 200);

    let parsed = Frame::parse(&mut wire).unwrap().unwrap();
    assert_eq!(&parsed.payload[..], b"auth-payload");
    assert!(
        wire.is_empty(),
        "parse must advance past payload AND padding, leaving nothing behind"
    );
}

#[test]
fn incomplete_frame_is_none() {
    let frame = Frame::new(1, FrameType::Data, Bytes::copy_from_slice(&[0u8; 50]));
    let mut wire = frame.into_bytes(&AUTH_KEY, 16);
    wire.truncate(wire.len() - 1);
    assert!(Frame::parse(&mut wire).unwrap().is_none());
}

#[test]
fn unknown_frame_type_byte_is_an_error() {
    let frame = Frame::new(1, FrameType::Data, Bytes::copy_from_slice(&[0u8; 10]));
    let mut wire = frame.into_bytes(&AUTH_KEY, 0);
    wire[20] = 0xEE;
    assert!(Frame::parse(&mut wire).is_err());
}

#[test]
fn an_unknown_frame_type_is_named_and_left_in_place() {
    let frame = Frame::new(1, FrameType::Data, Bytes::from_static(b"abc"));
    let mut wire = frame.into_bytes(&AUTH_KEY, 0);
    wire[20] = 0xEE;
    let before = wire.clone();
    let complaint = Frame::parse(&mut wire).err().unwrap();
    assert_eq!(complaint, "Unknown FrameType byte: 0xee");
    assert_eq!(wire, before);
}
