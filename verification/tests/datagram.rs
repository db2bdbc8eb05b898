//! The datagram codec, its counters and its keys.

use bytes::{Bytes, BytesMut};

use netrunner_engine::bridge::TlsBridge;
use netrunner_engine::crypto::datagram_keys::DatagramKeyMaterial;
use netrunner_engine::crypto::session::SessionKeys;
use netrunner_engine::errors::{ErrorAction, ErrorStage, TlsError};
use netrunner_engine::nrxp::datagram::{DatagramRx, DatagramTx, REKEY_AFTER_DATAGRAMS};
use netrunner_engine::nrxp::frame::{Frame, FrameType};
use netrunner_engine::nrxp::replay::{
    expand_counter, truncate_counter, ReplayWindow, REPLAY_WINDOW_SIZE,
};
use netrunner_engine::tlseng::profile::{BrowserProfile, ServerProfile};

#[test]
fn expand_counter_reconstructs_the_next_small_value() {
    assert_eq!(expand_counter(0, 1, 16), 1);
    assert_eq!(expand_counter(41, 42, 16), 42);
}

#[test]
fn expand_counter_handles_reordering_without_wraparound() {
    assert_eq!(expand_counter(100, 97, 16), 97);
}

#[test]
fn expand_counter_reconstructs_forward_wraparound() {
    let bits = 8u32;
    let highest = 250u64;
    let wire = 4u64;
    assert_eq!(expand_counter(highest, wire, bits), 260);
}

#[test]
fn expand_counter_reconstructs_backward_wraparound() {
    let bits = 8u32;
    let highest = 260u64;
    let wire = 250u64;
    assert_eq!(expand_counter(highest, wire, bits), 250);
}

#[test]
fn truncate_then_expand_round_trips_for_nearby_values() {
    for bits in [16u32, 32] {
        let highest = 1_000_000u64;
        for delta in [0i64, 1, -1, 5, -5] {
            let full = (highest as i64 + delta) as u64;
            let wire = truncate_counter(full, bits);
            assert_eq!(
                expand_counter(highest, wire, bits),
                full,
                "bits={bits} delta={delta}"
            );
        }
    }
}

#[test]
fn the_nearest_counter_is_half_a_window_away_at_most() {
    // The window is 256: from 1000, counters from 873 to 1128 can be told.
    for full in 873u64..=1128 {
        assert_eq!(expand_counter(1000, truncate_counter(full, 8), 8), full);
    }
    assert_eq!(expand_counter(1000, truncate_counter(872, 8), 8), 1128);
    assert_eq!(expand_counter(0, 255, 8), 255, "nothing is below zero");
    assert_eq!(expand_counter(u64::MAX, u64::MAX, 63), u64::MAX, "nor above 64 bits");
    assert_eq!(expand_counter(u64::MAX, 0xfffe, 16), u64::MAX - 1);
}

#[test]
fn replay_window_accepts_strictly_increasing_counters() {
    let mut w = ReplayWindow::new();
    for i in 0..10u64 {
        assert!(w.accept(i), "counter {i} should be accepted the first time");
    }
}

#[test]
fn replay_window_rejects_exact_replay() {
    let mut w = ReplayWindow::new();
    assert!(w.accept(5));
    assert!(
        !w.accept(5),
        "replaying the exact same counter must be rejected"
    );
}

#[test]
fn replay_window_accepts_reordered_within_window() {
    let mut w = ReplayWindow::new();
    assert!(w.accept(10));
    assert!(w.accept(8), "8 arrived late but is still within the window");
    assert!(!w.accept(8), "but only once");
    assert!(w.accept(9));
}

#[test]
fn replay_window_rejects_counters_too_far_behind() {
    let mut w = ReplayWindow::new();
    assert!(w.accept(REPLAY_WINDOW_SIZE + 100));
    assert!(
        !w.accept(50),
        "far enough behind highest to be outside the window"
    );
}

#[test]
fn replay_window_survives_a_huge_forward_jump_without_false_accepts() {
    let mut w = ReplayWindow::new();
    assert!(w.accept(5));
    assert!(w.accept(5 + REPLAY_WINDOW_SIZE * 10));
    assert!(!w.accept(5));
}

#[test]
fn the_window_ends_exactly_at_its_size() {
    let mut w = ReplayWindow::new();
    assert!(w.accept(2000));
    assert!(w.accept(2000 - REPLAY_WINDOW_SIZE + 1));
    assert!(!w.accept(2000 - REPLAY_WINDOW_SIZE));
    assert!(w.accept(u64::MAX));
    assert!(!w.accept(u64::MAX));
}

#[test]
fn every_counter_comes_through_at_most_once_in_any_order() {
    let mut w = ReplayWindow::new();
    let mut seen = std::collections::HashSet::new();
    let mut x = 12345u64;
    for _ in 0..20_000 {
        x = x.wrapping_mul(6364136223846793005).wrapping_add(1442695040888963407);
        let counter = (x >> 40) % 5000;
        if w.accept(counter) {
            assert!(seen.insert(counter), "{counter} came through twice");
        }
    }
}

fn handshaken_pair() -> (SessionKeys, SessionKeys) {
    let mut client = SessionKeys::new(true);
    let mut server = SessionKeys::new(false);

    let ch = TlsBridge::wrap_client_hello(&BrowserProfile::chrome_140(), "example.com", &client);
    let mut ch_buf = BytesMut::from(&ch[..]);
    let client_msg = TlsBridge::unpack_handshake(&mut ch_buf).unwrap().unwrap();

    let (sh, _peer_version) =
        TlsBridge::wrap_server_hello(&client_msg, &mut server, &ServerProfile::modern()).unwrap();
    let mut sh_buf = BytesMut::from(&sh[..]);
    let server_msg = TlsBridge::unpack_handshake(&mut sh_buf).unwrap().unwrap();

    client
        .update_keys(server_msg.random(), server_msg.extensions(), false)
        .unwrap();

    (client, server)
}

fn tx_rx_pair() -> (DatagramTx, DatagramRx) {
    let (client, server) = handshaken_pair();
    let tx = DatagramTx::new(DatagramKeyMaterial::derive(&client));
    let rx = DatagramRx::new(DatagramKeyMaterial::derive(&server));
    (tx, rx)
}

#[test]
fn client_and_server_derive_matching_leg_tokens_and_chains() {
    let (client, server) = handshaken_pair();
    let client_mat = DatagramKeyMaterial::derive(&client);
    let server_mat = DatagramKeyMaterial::derive(&server);

    assert_eq!(client_mat.leg_token(), server_mat.leg_token());

    let c_tx = client_mat.tx_current();
    let s_rx = server_mat.rx_current();
    assert_eq!(c_tx.key, s_rx.key);
    assert_eq!(c_tx.salt, s_rx.salt);
    assert_eq!(c_tx.epoch_id, s_rx.epoch_id);

    let s_tx = server_mat.tx_current();
    let c_rx = client_mat.rx_current();
    assert_eq!(s_tx.key, c_rx.key);
    assert_eq!(s_tx.salt, c_rx.salt);
}

#[test]
fn hp_keys_match_across_client_and_server_and_never_change() {
    let (client, server) = handshaken_pair();
    let mut client_mat = DatagramKeyMaterial::derive(&client);
    let server_mat = DatagramKeyMaterial::derive(&server);

    assert_eq!(client_mat.hp_key_tx(), server_mat.hp_key_rx());
    assert_eq!(client_mat.hp_key_rx(), server_mat.hp_key_tx());

    let before = client_mat.hp_key_tx();
    client_mat.tx_advance();
    assert_eq!(client_mat.hp_key_tx(), before);
}

#[test]
fn advance_matches_the_others_peek_next_before_it_commits() {
    let (client, server) = handshaken_pair();
    let mut client_mat = DatagramKeyMaterial::derive(&client);
    let server_mat = DatagramKeyMaterial::derive(&server);

    let peeked = server_mat.rx_peek_next();
    let advanced = client_mat.tx_advance();
    assert_eq!(peeked.epoch_id, advanced.epoch_id);
    assert_eq!(peeked.key, advanced.key);
    assert_eq!(peeked.salt, advanced.salt);
}

#[test]
fn ratchet_is_one_way() {
    let (client, _server) = handshaken_pair();
    let mut mat = DatagramKeyMaterial::derive(&client);
    let epoch0 = mat.tx_current();
    let epoch1 = mat.tx_advance();

    assert_ne!(epoch0.key, epoch1.key, "every epoch has a key of its own");
    assert_ne!(epoch0.epoch_id, epoch1.epoch_id);
}

#[test]
fn different_sessions_never_share_a_leg_token() {
    let (client_a, _) = handshaken_pair();
    let (client_b, _) = handshaken_pair();
    assert_ne!(
        DatagramKeyMaterial::derive(&client_a).leg_token(),
        DatagramKeyMaterial::derive(&client_b).leg_token(),
    );
}

#[test]
fn epochs_are_counted_modulo_256() {
    let mut mat = DatagramKeyMaterial::derive_from_root([7u8; 32], true);
    for i in 1..=256u32 {
        assert_eq!(mat.rx_peek_next().epoch_id, (i % 256) as u8);
        mat.rx_advance();
    }
    assert_eq!(mat.rx_epoch_id(), 0);
    assert_eq!(mat.tx_epoch_id(), 0);
}

#[test]
fn peek_next_epoch_and_counter_matches_what_seal_actually_uses() {
    let (mut tx, _rx) = tx_rx_pair();
    for _ in 0..3 {
        let (peeked_epoch, peeked_counter) = tx.peek_next_epoch_and_counter();
        let sealed = tx
            .seal(1, FrameType::UdpData, Bytes::from_static(b"x"), b"aad")
            .unwrap();
        assert_eq!(peeked_epoch, sealed.epoch_id);
        assert_eq!(peeked_counter, sealed.counter);
    }

    tx.force_rekey_for_test();
    let (peeked_epoch, peeked_counter) = tx.peek_next_epoch_and_counter();
    let sealed = tx
        .seal(1, FrameType::UdpData, Bytes::from_static(b"y"), b"aad")
        .unwrap();
    assert_eq!(peeked_epoch, sealed.epoch_id);
    assert_eq!(peeked_counter, sealed.counter);
}

#[test]
fn the_epoch_changes_by_itself_after_its_length() {
    let mut tx = DatagramTx::new(DatagramKeyMaterial::derive_from_root([9u8; 32], true));
    let mut rx = DatagramRx::new(DatagramKeyMaterial::derive_from_root([9u8; 32], false));
    for n in 0..REKEY_AFTER_DATAGRAMS + 2 {
        let peeked = tx.peek_next_epoch_and_counter();
        let sealed = tx.seal(1, FrameType::UdpData, Bytes::new(), b"").unwrap();
        assert_eq!(peeked, (sealed.epoch_id, sealed.counter));
        assert_eq!(sealed.epoch_id as u64, n / REKEY_AFTER_DATAGRAMS);
        assert_eq!(sealed.counter, n % REKEY_AFTER_DATAGRAMS);
        let wire = truncate_counter(sealed.counter, 16);
        assert!(rx.open(sealed.epoch_id, wire, 16, &sealed.ciphertext, b"").is_ok());
    }
    assert_eq!(rx.current_epoch_id(), 1);
}

#[test]
fn seal_open_round_trip_preserves_frame_contents() {
    let (mut tx, mut rx) = tx_rx_pair();
    let sealed = tx
        .seal(3, FrameType::UdpData, Bytes::from_static(b"hello"), b"aad")
        .unwrap();

    let frame = rx
        .open(
            sealed.epoch_id,
            sealed.counter,
            32,
            &sealed.ciphertext,
            b"aad",
        )
        .unwrap();
    assert_eq!(frame.header.stream_id, 3);
    assert_eq!(frame.header.frame_type, FrameType::UdpData);
    assert_eq!(&frame.payload[..], b"hello");
}

#[test]
fn mismatched_aad_is_rejected() {
    let (mut tx, mut rx) = tx_rx_pair();
    let sealed = tx
        .seal(
            1,
            FrameType::UdpData,
            Bytes::from_static(b"x"),
            b"real-header",
        )
        .unwrap();
    assert!(rx
        .open(
            sealed.epoch_id,
            sealed.counter,
            32,
            &sealed.ciphertext,
            b"forged-header"
        )
        .is_err());
}

#[test]
fn replaying_the_exact_wire_datagram_is_rejected() {
    let (mut tx, mut rx) = tx_rx_pair();
    let sealed = tx
        .seal(1, FrameType::UdpData, Bytes::from_static(b"x"), b"aad")
        .unwrap();
    assert!(rx
        .open(
            sealed.epoch_id,
            sealed.counter,
            32,
            &sealed.ciphertext,
            b"aad"
        )
        .is_ok());
    assert!(
        rx.open(
            sealed.epoch_id,
            sealed.counter,
            32,
            &sealed.ciphertext,
            b"aad"
        )
        .is_err(),
        "replay of the exact same datagram must be rejected"
    );
}

#[test]
fn reordered_datagrams_within_window_all_open() {
    let (mut tx, mut rx) = tx_rx_pair();
    let sealed: Vec<_> = (0..5)
        .map(|i| {
            tx.seal(1, FrameType::UdpData, Bytes::from(vec![i]), b"aad")
                .unwrap()
        })
        .collect();

    for i in [2, 0, 1, 4, 3] {
        let s = &sealed[i];
        let frame = rx
            .open(s.epoch_id, s.counter, 32, &s.ciphertext, b"aad")
            .unwrap();
        assert_eq!(&frame.payload[..], &[i as u8]);
    }
}

#[test]
fn no_datagram_opens_twice_whatever_comes_in_between() {
    let (mut tx, mut rx) = tx_rx_pair();
    let sealed: Vec<_> = (0..4)
        .map(|i| {
            tx.seal(1, FrameType::UdpData, Bytes::from(vec![i]), b"aad")
                .unwrap()
        })
        .collect();
    for i in [3, 0, 2, 1] {
        let s = &sealed[i];
        assert!(rx.open(s.epoch_id, s.counter, 16, &s.ciphertext, b"aad").is_ok());
        for seen in [3, 0, 2, 1].iter().take_while(|&&k| k != i) {
            let s = &sealed[*seen];
            assert!(rx.open(s.epoch_id, s.counter, 16, &s.ciphertext, b"aad").is_err());
        }
    }
    // The epoch is kept for late datagrams, and remembers which have come.
    tx.force_rekey_for_test();
    let next = tx.seal(2, FrameType::UdpData, Bytes::new(), b"aad").unwrap();
    rx.open(next.epoch_id, next.counter, 16, &next.ciphertext, b"aad").unwrap();
    for s in &sealed {
        assert!(rx.open(s.epoch_id, s.counter, 16, &s.ciphertext, b"aad").is_err());
    }
    assert_eq!(rx.current_epoch_id(), next.epoch_id);
}

#[test]
fn rekey_is_transparent_across_the_boundary() {
    let (mut tx, mut rx) = tx_rx_pair();

    let before = tx
        .seal(1, FrameType::UdpData, Bytes::from_static(b"before"), b"aad")
        .unwrap();
    assert!(rx
        .open(
            before.epoch_id,
            before.counter,
            32,
            &before.ciphertext,
            b"aad"
        )
        .is_ok());

    tx.force_rekey_for_test();

    let after = tx
        .seal(2, FrameType::UdpData, Bytes::from_static(b"after"), b"aad")
        .unwrap();
    assert_ne!(after.epoch_id, before.epoch_id);

    let frame = rx
        .open(after.epoch_id, after.counter, 32, &after.ciphertext, b"aad")
        .unwrap();
    assert_eq!(&frame.payload[..], b"after");
}

#[test]
fn a_datagram_delayed_across_exactly_one_rekey_still_opens() {
    let (mut tx, mut rx) = tx_rx_pair();

    let before = tx
        .seal(1, FrameType::UdpData, Bytes::from_static(b"before"), b"aad")
        .unwrap();

    tx.force_rekey_for_test();
    let after = tx
        .seal(2, FrameType::UdpData, Bytes::from_static(b"after"), b"aad")
        .unwrap();

    assert!(rx
        .open(after.epoch_id, after.counter, 32, &after.ciphertext, b"aad")
        .is_ok());
    let frame = rx
        .open(
            before.epoch_id,
            before.counter,
            32,
            &before.ciphertext,
            b"aad",
        )
        .unwrap();
    assert_eq!(&frame.payload[..], b"before");
}

#[test]
fn forged_next_epoch_claim_does_not_desync_state() {
    let (mut tx, mut rx) = tx_rx_pair();

    let garbage = vec![0u8; 64];
    assert!(rx
        .open(rx.current_epoch_id().wrapping_add(1), 0, 32, &garbage, b"aad")
        .is_err());

    let real = tx
        .seal(1, FrameType::UdpData, Bytes::from_static(b"real"), b"aad")
        .unwrap();
    assert_eq!(real.epoch_id, rx.current_epoch_id());
    let frame = rx
        .open(real.epoch_id, real.counter, 32, &real.ciphertext, b"aad")
        .unwrap();
    assert_eq!(&frame.payload[..], b"real");
}

#[test]
fn a_datagram_delayed_across_two_rekeys_is_dropped() {
    let (mut tx, mut rx) = tx_rx_pair();
    let before = tx
        .seal(1, FrameType::UdpData, Bytes::from_static(b"before"), b"aad")
        .unwrap();

    tx.force_rekey_for_test();
    let _mid = tx
        .seal(2, FrameType::UdpData, Bytes::from_static(b"mid"), b"aad")
        .unwrap();
    rx.open(_mid.epoch_id, _mid.counter, 32, &_mid.ciphertext, b"aad")
        .unwrap();

    tx.force_rekey_for_test();
    let after = tx
        .seal(3, FrameType::UdpData, Bytes::from_static(b"after"), b"aad")
        .unwrap();
    rx.open(after.epoch_id, after.counter, 32, &after.ciphertext, b"aad")
        .unwrap();

    assert!(
        rx.open(
            before.epoch_id,
            before.counter,
            32,
            &before.ciphertext,
            b"aad"
        )
        .is_err(),
        "datagram delayed across two rekeys is expected to be dropped, not silently accepted"
    );
}

#[test]
fn every_reason_to_drop_has_its_words() {
    let (mut tx, mut rx) = tx_rx_pair();
    let reason = |r: Result<Frame, TlsError>| {
        let e = r.err().unwrap();
        assert_eq!(e.action, ErrorAction::Drop);
        match e.stage {
            ErrorStage::Tls(what) => what,
            _ => panic!("another layer"),
        }
    };
    let garbage = [0u8; 64];
    assert_eq!(
        reason(rx.open(0, 0, 32, &garbage, b"")),
        "Datagram AEAD open failed (current epoch)"
    );
    assert_eq!(
        reason(rx.open(1, 0, 32, &garbage, b"")),
        "Datagram AEAD open failed (candidate next epoch)"
    );
    assert_eq!(
        reason(rx.open(2, 0, 32, &garbage, b"")),
        "Datagram epoch_id out of acceptable range"
    );
    tx.force_rekey_for_test();
    let sealed = tx.seal(1, FrameType::Data, Bytes::new(), b"").unwrap();
    rx.open(1, sealed.counter, 32, &sealed.ciphertext, b"").unwrap();
    assert_eq!(
        reason(rx.open(0, 0, 32, &garbage, b"")),
        "Datagram AEAD open failed (previous epoch)"
    );
}
