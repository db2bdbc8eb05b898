//! The stream codec: frames to records and back.

use bytes::{Bytes, BytesMut};

use netrunner_engine::crypto::chacha::ChaChaCipher;
use netrunner_engine::crypto::primitives::TAG_LEN;
use netrunner_engine::errors::{ErrorAction, ErrorStage};
use netrunner_engine::nrxp::batch::Outgoing;
use netrunner_engine::nrxp::codec::{Codec, RxCodec, TxCodec};
use netrunner_engine::nrxp::frame::{FrameType, MAX_FRAME_PAYLOAD, MAX_RECORD_PLAINTEXT};
use netrunner_engine::nrxp::shaper::{PadShaper, FLOOR_HIGH, GAP_CAP_HIGH, MAX_RECORD_LEN};

const AUTH_KEY: [u8; 32] = [0x11; 32];
const KEY_A: [u8; 32] = [0xAA; 32];
const IV_A: [u8; 12] = [0x01; 12];
const KEY_B: [u8; 32] = [0xBB; 32];
const IV_B: [u8; 12] = [0x02; 12];

/// Both codecs of a session: what one side sends with, the other receives with.
fn client_server_pair() -> ((RxCodec, TxCodec), (RxCodec, TxCodec)) {
    let mut client_cipher = ChaChaCipher::new();
    client_cipher.set_keys(KEY_A, IV_A, KEY_B, IV_B);
    let mut server_cipher = ChaChaCipher::new();
    server_cipher.set_keys(KEY_B, IV_B, KEY_A, IV_A);
    (
        Codec::new(client_cipher, AUTH_KEY).split(),
        Codec::new(server_cipher, AUTH_KEY).split(),
    )
}

/// The lengths of the records in a buffer, as anyone on the way can read them.
fn record_lengths(wire: &[u8]) -> Vec<usize> {
    let mut out = Vec::new();
    let mut i = 0;
    while i + 5 <= wire.len() {
        let len = u16::from_be_bytes([wire[i + 3], wire[i + 4]]) as usize;
        out.push(len);
        i += 5 + len;
    }
    assert_eq!(i, wire.len(), "the buffer holds whole records");
    out
}

#[test]
fn cover_record_hits_the_requested_length_exactly() {
    let ((_c, mut tx), (_s, _t)) = client_server_pair();
    for target in [41usize, 60, 130, 1500, 4200, 16401] {
        let wire = tx.encode_cover(target).unwrap();
        let lens = record_lengths(&wire);
        assert_eq!(lens.len(), 1, "a cover is exactly one record");
        assert_eq!(lens[0], target, "the length is the one asked for");
    }
}

#[test]
fn cover_record_is_clamped_to_the_real_tls_maximum() {
    let ((_c, mut tx), (_s, _t)) = client_server_pair();
    for target in [0usize, 1, 40, 100_000] {
        let wire = tx.encode_cover(target).unwrap();
        let len = record_lengths(&wire)[0];
        assert!((41..=16401).contains(&len), "cover record of length {len}");
    }
}

#[test]
fn cover_below_and_above_the_range_takes_the_nearest_length() {
    let ((_c, mut tx), (_s, _t)) = client_server_pair();
    assert_eq!(record_lengths(&tx.encode_cover(0).unwrap()), vec![41]);
    assert_eq!(record_lengths(&tx.encode_cover(100_000).unwrap()), vec![16401]);
}

#[test]
fn cover_frames_decode_as_cover_and_carry_no_payload() {
    let ((_c, mut c_tx), (mut s_rx, _s_tx)) = client_server_pair();
    let wire = c_tx.encode_cover(2000).unwrap();

    let mut buf = BytesMut::from(&wire[..]);
    let frame = s_rx.decode_inbound(&mut buf).unwrap().unwrap();
    assert_eq!(frame.header.frame_type, FrameType::Cover);
    assert!(frame.payload.is_empty(), "a cover carries nothing");
    assert!(
        s_rx.decode_inbound(&mut buf).unwrap().is_none(),
        "there was exactly one frame in the record"
    );
}

#[test]
fn client_to_server_round_trip() {
    let ((_client_rx, mut client_tx), (mut server_rx, _server_tx)) = client_server_pair();

    let wire = client_tx
        .encode_frame(
            5,
            FrameType::Data,
            Bytes::from_static(b"payload from client"),
        )
        .unwrap();

    let mut buf = BytesMut::from(&wire[..]);
    let frame = server_rx.decode_inbound(&mut buf).unwrap().unwrap();

    assert_eq!(frame.header.stream_id, 5);
    assert_eq!(frame.header.frame_type, FrameType::Data);
    assert_eq!(&frame.payload[..], b"payload from client");
}

#[test]
fn server_to_client_round_trip() {
    let ((mut client_rx, _client_tx), (_server_rx, mut server_tx)) = client_server_pair();

    let wire = server_tx
        .encode_frame(6, FrameType::Heartbeat, Bytes::from_static(b"pong"))
        .unwrap();

    let mut buf = BytesMut::from(&wire[..]);
    let frame = client_rx.decode_inbound(&mut buf).unwrap().unwrap();
    assert_eq!(&frame.payload[..], b"pong");
}

#[test]
fn sequential_frames_keep_nonce_counters_in_sync() {
    let ((_client_rx, mut client_tx), (mut server_rx, _server_tx)) = client_server_pair();

    for i in 0..20u32 {
        let payload = format!("frame-{i}");
        let wire = client_tx
            .encode_frame(1, FrameType::Data, Bytes::from(payload.clone()))
            .unwrap();
        let mut buf = BytesMut::from(&wire[..]);
        let frame = server_rx.decode_inbound(&mut buf).unwrap().unwrap();
        assert_eq!(&frame.payload[..], payload.as_bytes());
    }
}

#[test]
fn tampered_ciphertext_fails_aead_and_drops() {
    let ((_client_rx, mut client_tx), (mut server_rx, _server_tx)) = client_server_pair();

    let wire = client_tx
        .encode_frame(1, FrameType::Data, Bytes::from_static(b"secret"))
        .unwrap();

    let mut tampered = BytesMut::from(&wire[..]);
    let last = tampered.len() - 1;
    tampered[last] ^= 0xFF;

    let result = server_rx.decode_inbound(&mut tampered);
    assert!(result.is_err(), "tampered ciphertext must not decrypt");
}

#[test]
fn a_record_that_does_not_open_leaves_the_counter_where_it_was() {
    let ((_client_rx, mut client_tx), (mut server_rx, _server_tx)) = client_server_pair();
    let wire = client_tx
        .encode_frame(1, FrameType::Data, Bytes::from_static(b"secret"))
        .unwrap();

    let mut tampered = BytesMut::from(&wire[..]);
    tampered[7] ^= 0x01;
    let error = server_rx.decode_inbound(&mut tampered).err().unwrap();
    assert!(matches!(error.stage, ErrorStage::Tls("AEAD Decrypt Failed")));
    assert_eq!(error.action, ErrorAction::Drop);

    let mut whole = BytesMut::from(&wire[..]);
    let frame = server_rx.decode_inbound(&mut whole).unwrap().unwrap();
    assert_eq!(&frame.payload[..], b"secret");
}

#[test]
fn batch_of_frames_round_trips_through_an_unchanged_receiver() {
    let ((_c_rx, mut c_tx), (mut s_rx, _s_tx)) = client_server_pair();

    let sent: Vec<Outgoing> = vec![
        (1, FrameType::Connect, Bytes::from_static(b"1.2.3.4:443")),
        (1, FrameType::Data, Bytes::from_static(b"GET / HTTP/1.1")),
        (3, FrameType::Data, Bytes::from_static(b"second stream")),
        (0, FrameType::Heartbeat, Bytes::new()),
    ];
    let wire = c_tx.encode_batch(sent.clone()).unwrap();

    let mut buf = BytesMut::from(&wire[..]);
    let mut got = Vec::new();
    while let Some(frame) = s_rx.decode_inbound(&mut buf).unwrap() {
        got.push((
            frame.header.stream_id,
            frame.header.frame_type,
            frame.payload,
        ));
    }

    assert_eq!(got, sent, "all frames arrive, in order");
}

#[test]
fn a_batch_over_several_records_arrives_in_order_and_leaves_the_rest() {
    let ((_c_rx, mut c_tx), (mut s_rx, _s_tx)) = client_server_pair();
    let sent: Vec<Outgoing> = vec![
        (1, FrameType::Data, Bytes::from(vec![1u8; 9000])),
        (2, FrameType::Data, Bytes::from(vec![2u8; 9000])),
        (3, FrameType::Data, Bytes::from(vec![3u8; 20_000])),
        (4, FrameType::Data, Bytes::from_static(b"last")),
    ];
    let wire = c_tx.encode_batch(sent.clone()).unwrap();
    let lens = record_lengths(&wire);
    assert_eq!(lens.len(), 4);
    assert_eq!(lens[2], 20_000 + 25 + 16, "an overfull record is not padded");

    let mut buf = BytesMut::from(&wire[..]);
    buf.extend_from_slice(&[0x17, 0x03, 0x03, 0x40]);
    let mut got = Vec::new();
    while let Some(frame) = s_rx.decode_inbound(&mut buf).unwrap() {
        got.push((
            frame.header.stream_id,
            frame.header.frame_type,
            frame.payload,
        ));
    }
    assert_eq!(got, sent);
    assert_eq!(&buf[..], &[0x17, 0x03, 0x03, 0x40]);
}

#[test]
fn an_empty_batch_sends_nothing() {
    let ((_c_rx, mut c_tx), (mut s_rx, _s_tx)) = client_server_pair();
    assert!(c_tx.encode_batch(Vec::new()).unwrap().is_empty());
    let wire = c_tx
        .encode_frame(1, FrameType::Data, Bytes::from_static(b"first"))
        .unwrap();
    let mut buf = BytesMut::from(&wire[..]);
    assert!(s_rx.decode_inbound(&mut buf).unwrap().is_some());
}

#[test]
fn small_frames_share_a_single_tls_record() {
    let ((_c_rx, mut c_tx), (_s_rx, _s_tx)) = client_server_pair();
    let items = (0..8)
        .map(|i| (i, FrameType::Data, Bytes::from_static(b"tiny")))
        .collect();
    let wire = c_tx.encode_batch(items).unwrap();
    assert_eq!(
        record_lengths(&wire).len(),
        1,
        "eight small frames go as one record"
    );
}

#[test]
fn record_length_never_exceeds_real_tls13_maximum() {
    let ((_c_rx, mut c_tx), (_s_rx, _s_tx)) = client_server_pair();

    for total in [1usize, 8192, 16360, 16361, 40000, 100_000] {
        let items = vec![(1, FrameType::Data, Bytes::from(vec![0u8; total]))]
            .into_iter()
            .flat_map(|(sid, ty, data)| {
                data.chunks(MAX_FRAME_PAYLOAD)
                    .map(|c| (sid, ty, Bytes::copy_from_slice(c)))
                    .collect::<Vec<_>>()
            })
            .collect();
        let wire = c_tx.encode_batch(items).unwrap();
        for len in record_lengths(&wire) {
            assert!(len <= 16401, "record of length {len}");
        }
    }
}

#[test]
fn max_payload_frame_produces_exactly_the_real_tls_maximum() {
    let ((_c_rx, mut c_tx), (_s_rx, _s_tx)) = client_server_pair();
    let wire = c_tx
        .encode_frame(
            1,
            FrameType::Data,
            Bytes::from(vec![0u8; MAX_FRAME_PAYLOAD]),
        )
        .unwrap();
    assert_eq!(record_lengths(&wire), vec![16401]);
}

#[test]
fn shaper_never_exceeds_the_real_tls_maximum_and_bounds_the_padding() {
    for _ in 0..2000 {
        let shaper = PadShaper::new();
        for plain in [
            1usize,
            42,
            300,
            1441,
            8233,
            MAX_RECORD_PLAINTEXT - 1,
            MAX_RECORD_PLAINTEXT,
        ] {
            let target = shaper.target_record_len(plain);
            let record_len = plain + TAG_LEN;
            assert!(target >= record_len, "never shorter than the record itself");
            assert!(
                target <= MAX_RECORD_LEN.max(record_len),
                "{target} is above the maximum"
            );
            let max_padding = FLOOR_HIGH.max(GAP_CAP_HIGH);
            assert!(
                target - record_len <= max_padding,
                "{} bytes of padding",
                target - record_len
            );
        }
    }
}

#[test]
fn record_lengths_share_no_recoverable_step_within_a_connection() {
    for _ in 0..64 {
        let shaper = PadShaper::new();

        let targets: Vec<usize> = (1..4000usize)
            .step_by(7)
            .map(|plain| shaper.target_record_len(plain))
            .collect();
        let distinct: std::collections::BTreeSet<usize> = targets.iter().copied().collect();
        assert!(distinct.len() > 8, "almost one length only: {distinct:?}");

        for step in 2..=1024usize {
            let first = targets[0] % step;
            let all_congruent = targets.iter().all(|t| t % step == first);
            assert!(!all_congruent, "all lengths are congruent modulo {step}");
        }
    }
}

#[test]
fn quantisation_still_collapses_distinct_sizes_into_one_target() {
    for _ in 0..64 {
        let shaper = PadShaper::new();
        let mut by_target: std::collections::HashMap<usize, usize> =
            std::collections::HashMap::new();
        for plain in 1..2000usize {
            *by_target
                .entry(shaper.target_record_len(plain))
                .or_default() += 1;
        }
        let max_collapsed = by_target.values().copied().max().unwrap_or(0);
        assert!(
            max_collapsed >= 16,
            "at most {max_collapsed} sizes share a length"
        );
    }
}

#[test]
fn boundaries_differ_between_connections() {
    let mut seen = std::collections::HashSet::new();
    for _ in 0..32 {
        let shaper = PadShaper::new();
        seen.insert(shaper.target_record_len(1000));
    }
    assert!(seen.len() > 4, "almost the same everywhere: {seen:?}");
}

#[test]
fn boundaries_follow_from_what_is_drawn() {
    assert_eq!(PadShaper::next_boundary(1000, 100_000, 200), 1100);
    assert_eq!(PadShaper::next_boundary(4000, 250_000, 200), 4200);
    assert_eq!(PadShaper::next_boundary(64, 50_000, 200), 80);
}

#[test]
fn record_lengths_carry_no_global_power_of_two_invariant() {
    let is_pow2 = |n: usize| n.is_power_of_two();

    let mut seen = std::collections::HashSet::new();
    let mut invariant_holds_everywhere = true;

    for _ in 0..64 {
        let ((_c_rx, mut c_tx), (_s_rx, _s_tx)) = client_server_pair();
        let wire = c_tx
            .encode_frame(1, FrameType::Data, Bytes::from_static(b"x"))
            .unwrap();
        let len = record_lengths(&wire)[0];
        seen.insert(len);
        if !is_pow2(len.saturating_sub(41)) {
            invariant_holds_everywhere = false;
        }
    }

    assert!(seen.len() > 1, "one length for all connections: {seen:?}");
    assert!(!invariant_holds_everywhere);
}

#[test]
fn replayed_frame_desyncs_nonce_and_fails() {
    let ((_client_rx, mut client_tx), (mut server_rx, _server_tx)) = client_server_pair();

    let wire = client_tx
        .encode_frame(1, FrameType::Data, Bytes::from_static(b"once"))
        .unwrap();

    let mut first = BytesMut::from(&wire[..]);
    assert!(server_rx.decode_inbound(&mut first).unwrap().is_some());

    let mut replay = BytesMut::from(&wire[..]);
    assert!(server_rx.decode_inbound(&mut replay).is_err());
}

#[test]
fn records_of_other_kinds_are_refused() {
    let ((_c_rx, _c_tx), (mut s_rx, _s_tx)) = client_server_pair();

    let mut handshake = BytesMut::from(&[0x16u8, 0x03, 0x03, 0x00, 0x01, 0x05][..]);
    let error = s_rx.decode_inbound(&mut handshake).err().unwrap();
    assert!(matches!(
        error.stage,
        ErrorStage::ApplicationData("Expected AppData record")
    ));
    assert_eq!(error.action, ErrorAction::Drop);
    assert_eq!(&error.data[..], &[0x16, 0x03, 0x03, 0x00, 0x01, 0x05]);

    let mut foreign = BytesMut::from(&[0x16u8, 0x02, 0x00, 0x00, 0x00][..]);
    let error = s_rx.decode_inbound(&mut foreign).err().unwrap();
    assert!(matches!(
        error.stage,
        ErrorStage::Tls("This is not Protocol Version")
    ));
    assert_eq!(error.action, ErrorAction::Redirect);

    let mut unknown = BytesMut::from(&[0x99u8, 0x03, 0x03, 0x00, 0x01, 0x00][..]);
    let error = s_rx.decode_inbound(&mut unknown).err().unwrap();
    assert!(matches!(
        error.stage,
        ErrorStage::Tls("This is not ContentType")
    ));
    assert_eq!(error.action, ErrorAction::Redirect);
}

#[test]
fn plaintext_that_is_no_frame_is_refused() {
    let ((_c_rx, mut c_tx), (_s_rx, _s_tx)) = client_server_pair();
    let wire = c_tx
        .encode_frame(1, FrameType::Data, Bytes::from_static(b"x"))
        .unwrap();

    let mut cipher = ChaChaCipher::new();
    cipher.set_keys(KEY_B, IV_B, KEY_A, IV_A);
    let (rx_stream, _tx_stream) = cipher.split();
    let mut junk = vec![0u8; 25];
    junk[20] = 0xEE;
    let mut rx = RxCodec::new(
        rx_stream,
        netrunner_engine::crypto::auth::SessionAuth::new(AUTH_KEY),
        BytesMut::from(&junk[..]),
    );
    let mut buf = BytesMut::from(&wire[..]);
    let error = rx.decode_inbound(&mut buf).err().unwrap();
    assert!(matches!(error.stage, ErrorStage::Tls("Frame parse error")));
    assert_eq!(buf.len(), wire.len(), "the records are still there");
    assert!(rx.decode_inbound(&mut buf).unwrap().is_some());
}
