//! Hello messages and the handshake as a whole.

use bytes::{Bytes, BytesMut};

use netrunner_engine::bridge::{HandshakeMessage, TlsBridge};
use netrunner_engine::crypto::auth::SessionAuth;
use netrunner_engine::crypto::chacha::ChaChaCipher;
use netrunner_engine::crypto::identity::{Identity, LocalIdentity, PeerIdentity};
use netrunner_engine::crypto::session::SessionKeys;
use netrunner_engine::errors::{ErrorAction, ErrorStage};
use netrunner_engine::net_consts::{PROTOCOL_VERSION, PROTOCOL_VERSION_ANONYMOUS};
use netrunner_engine::nrxp::codec::Codec;
use netrunner_engine::nrxp::frame::FrameType;
use netrunner_engine::parser::Parser;
use netrunner_engine::tlseng::extension::ExtensionStack;
use netrunner_engine::tlseng::handshake::{ClientHello, HelloHeader, ServerHello};
use netrunner_engine::tlseng::profile::{BrowserProfile, ServerProfile};
use netrunner_engine::tlseng::tls_record::TlsRecord;
use netrunner_engine::tlseng::types::TlsExtensions;

fn parse_client_hello_record(wire: &Bytes) -> (ClientHello, ExtensionStack) {
    let mut record_buf = BytesMut::from(&wire[..]);
    let record = TlsRecord::parse(&mut record_buf).unwrap().unwrap();
    let mut body = BytesMut::from(record.payload.as_ref());
    HelloHeader::parse(&mut body).unwrap().unwrap();
    let hello = ClientHello::parse(&mut body).unwrap().unwrap();
    let ext = ExtensionStack::parse(&mut BytesMut::from(hello.extensions.as_ref()))
        .unwrap()
        .unwrap();
    (hello, ext)
}

fn parse_server_hello_record(wire: &Bytes) -> (ServerHello, ExtensionStack) {
    let mut record_buf = BytesMut::from(&wire[..]);
    let record = TlsRecord::parse(&mut record_buf).unwrap().unwrap();
    let mut body = BytesMut::from(record.payload.as_ref());
    HelloHeader::parse(&mut body).unwrap().unwrap();
    let hello = ServerHello::parse(&mut body).unwrap().unwrap();
    let ext = ExtensionStack::parse(&mut BytesMut::from(hello.extensions.as_ref()))
        .unwrap()
        .unwrap();
    (hello, ext)
}

#[test]
fn chromium_client_hello_escapes_the_rfc7685_forbidden_range() {
    for (name, profile) in [
        ("Chrome 131", &BrowserProfile::chrome_131()),
        ("Edge 130", &BrowserProfile::edge_130()),
    ] {
        for host in [
            "a.co",
            "example.com",
            "www.debian.org",
            "very-long-subdomain.example.organization.test",
        ] {
            let keys = SessionKeys::new(true);
            let wire = ClientHello::make_client_hello(profile, host, &keys);
            let record_payload = u16::from_be_bytes([wire[3], wire[4]]) as usize;

            assert_eq!(record_payload, 512, "{name} / SNI {host}");
            assert_eq!(wire.len(), 517, "{name} / SNI {host}");
        }
    }
}

#[test]
fn padding_is_the_last_extension_in_every_profile_that_uses_it() {
    for profile in &BrowserProfile::all() {
        let order = profile.extension_order.0;
        if let Some(pos) = order.iter().position(|&e| e == TlsExtensions::PADDING) {
            assert_eq!(pos, order.len() - 1);
        }
    }
}

#[test]
fn full_handshake_round_trip_derives_matching_keys() {
    for profile in &BrowserProfile::all() {
        let client_keys = SessionKeys::new(true);
        let ch_wire = ClientHello::make_client_hello(profile, "example.com", &client_keys);
        let (client_hello, client_ext) = parse_client_hello_record(&ch_wire);

        assert_eq!(client_hello.session_id.len(), 32);
        assert_eq!(client_hello.session_id[0], PROTOCOL_VERSION_ANONYMOUS);
        if profile.has_grease {
            assert!(
                TlsExtensions::is_grease(client_hello.cipher_suites[0]),
                "0x{:04x}",
                client_hello.cipher_suites[0]
            );
            assert_eq!(&client_hello.cipher_suites[1..], profile.cipher_suites);
        } else {
            assert_eq!(client_hello.cipher_suites, profile.cipher_suites);
        }

        let mut server_keys = SessionKeys::new(false);
        server_keys
            .update_keys(client_hello.random, &client_ext, true)
            .expect("server key derivation must succeed from a real ClientHello");
        let server_pub = server_keys.public_key_bytes();
        let sh_wire = ServerHello::make_server_hello(
            &client_hello,
            &server_pub,
            server_keys.local_salt(),
            &ServerProfile::modern(),
        );

        let (server_hello, server_ext) = parse_server_hello_record(&sh_wire);
        assert_eq!(&server_hello.session_id[..], &client_hello.session_id[..]);

        let mut client_keys = client_keys;
        client_keys
            .update_keys(server_hello.random, &server_ext, false)
            .expect("client key derivation must succeed from a real ServerHello");

        let (c_tx_k, c_tx_iv, c_rx_k, c_rx_iv) = client_keys.get_aead_parameters();
        let (s_tx_k, s_tx_iv, s_rx_k, s_rx_iv) = server_keys.get_aead_parameters();

        assert_eq!(c_tx_k, s_rx_k, "client tx key must equal server rx key");
        assert_eq!(c_tx_iv, s_rx_iv, "client tx iv must equal server rx iv");
        assert_eq!(c_rx_k, s_tx_k, "client rx key must equal server tx key");
        assert_eq!(c_rx_iv, s_tx_iv, "client rx iv must equal server tx iv");
        assert_eq!(
            client_keys.get_auth_key(),
            server_keys.get_auth_key(),
            "both sides must derive the same auth_key"
        );
    }
}

#[test]
fn tampered_auth_tag_in_session_id_is_rejected_by_server() {
    let client_keys = SessionKeys::new(true);
    let ch_wire = ClientHello::make_client_hello(
        &BrowserProfile::chrome_131(),
        "example.com",
        &client_keys,
    );
    let (client_hello, _ext) = parse_client_hello_record(&ch_wire);

    let mut tampered = client_hello.session_id.to_vec();
    tampered[20] ^= 0xFF;

    let auth = SessionAuth::new(client_keys.get_auth_key());
    let mut received_tag = [0u8; 16];
    received_tag.copy_from_slice(&tampered[16..32]);
    assert!(
        !auth.verify_tag(&received_tag),
        "a tampered auth tag must not verify"
    );
}

/// What lies on a node, and what its clients are given.
fn identity_pair(
    node_secret: [u8; 32],
    node_private: [u8; 32],
    strict: bool,
) -> (Identity, Identity) {
    let local = LocalIdentity::from_hex(
        &hex::encode(node_secret),
        &hex::encode(node_private),
        strict,
    )
    .expect("valid hex credentials");
    let peer = PeerIdentity::from_hex(&hex::encode(node_secret), &local.public_key_hex())
        .expect("valid hex credentials");
    (Identity::Peer(peer), Identity::Local(local))
}

/// Runs the exchange of hello messages with the given credentials.
fn run_handshake(
    client_identity: Option<Identity>,
    server_identity: Option<Identity>,
) -> (SessionKeys, SessionKeys) {
    let client_keys = match client_identity {
        Some(id) => SessionKeys::with_identity(true, id),
        None => SessionKeys::new(true),
    };
    let ch_wire = ClientHello::make_client_hello(
        &BrowserProfile::chrome_131(),
        "example.com",
        &client_keys,
    );
    let (client_hello, client_ext) = parse_client_hello_record(&ch_wire);

    let mut server_keys = match server_identity {
        Some(id) => SessionKeys::with_identity(false, id),
        None => SessionKeys::new(false),
    };
    server_keys.set_peer_version(client_hello.session_id[0]);
    server_keys
        .update_keys(client_hello.random, &client_ext, true)
        .expect("server key derivation must succeed");

    let server_pub = server_keys.public_key_bytes();
    let sh_wire = ServerHello::make_server_hello(
        &client_hello,
        &server_pub,
        server_keys.local_salt(),
        &ServerProfile::modern(),
    );
    let (server_hello, server_ext) = parse_server_hello_record(&sh_wire);

    let mut client_keys = client_keys;
    client_keys
        .update_keys(server_hello.random, &server_ext, false)
        .expect("client key derivation must succeed");

    (client_keys, server_keys)
}

#[test]
fn v3_handshake_derives_matching_keys_and_claims_version_3() {
    let (peer, local) = identity_pair([7u8; 32], [9u8; 32], true);

    let client_keys = SessionKeys::with_identity(true, peer.clone());
    let ch_wire = ClientHello::make_client_hello(
        &BrowserProfile::chrome_131(),
        "example.com",
        &client_keys,
    );
    let (client_hello, _) = parse_client_hello_record(&ch_wire);
    assert_eq!(client_hello.session_id[0], PROTOCOL_VERSION);
    assert_eq!(client_hello.session_id.len(), 32);

    let (client_keys, server_keys) = run_handshake(Some(peer), Some(local));
    let (c_tx_k, _, c_rx_k, _) = client_keys.get_aead_parameters();
    let (s_tx_k, _, s_rx_k, _) = server_keys.get_aead_parameters();

    assert_eq!(c_tx_k, s_rx_k);
    assert_eq!(c_rx_k, s_tx_k);
    assert_eq!(client_keys.get_auth_key(), server_keys.get_auth_key());
}

#[test]
fn mitm_without_the_node_private_key_derives_different_keys() {
    let node_secret = [7u8; 32];
    let (peer_of_real_node, _real_node) = identity_pair(node_secret, [9u8; 32], true);
    let (_, impostor) = identity_pair(node_secret, [42u8; 32], true);

    let (client_keys, impostor_keys) = run_handshake(Some(peer_of_real_node), Some(impostor));

    let (c_tx_k, _, c_rx_k, _) = client_keys.get_aead_parameters();
    let (i_tx_k, _, i_rx_k, _) = impostor_keys.get_aead_parameters();

    assert_ne!(c_tx_k, i_rx_k);
    assert_ne!(c_rx_k, i_tx_k);
    assert_ne!(client_keys.get_auth_key(), impostor_keys.get_auth_key());
}

#[test]
fn v3_client_does_not_match_an_anonymous_node() {
    let (peer, _) = identity_pair([7u8; 32], [9u8; 32], true);
    let (client_keys, server_keys) = run_handshake(Some(peer), None);

    let (c_tx_k, _, _, _) = client_keys.get_aead_parameters();
    let (_, _, s_rx_k, _) = server_keys.get_aead_parameters();
    assert_ne!(c_tx_k, s_rx_k);
}

#[test]
fn handshake_tag_requires_the_node_secret() {
    let (peer, local) = identity_pair([7u8; 32], [9u8; 32], true);
    let (_, other_node) = identity_pair([8u8; 32], [9u8; 32], true);

    let client_keys = SessionKeys::with_identity(true, peer);
    let ch_wire = ClientHello::make_client_hello(
        &BrowserProfile::chrome_131(),
        "example.com",
        &client_keys,
    );
    let (client_hello, client_ext) = parse_client_hello_record(&ch_wire);

    let mut tag = [0u8; 16];
    tag.copy_from_slice(&client_hello.session_id[16..32]);
    let peer_public = SessionKeys::extract_peer_public(&client_ext, true).unwrap();

    let mut right = SessionKeys::with_identity(false, local);
    right.set_peer_version(client_hello.session_id[0]);
    assert!(right.verify_handshake_tag(&tag, &client_hello.random, &peer_public));

    let mut wrong = SessionKeys::with_identity(false, other_node);
    wrong.set_peer_version(client_hello.session_id[0]);
    assert!(!wrong.verify_handshake_tag(&tag, &client_hello.random, &peer_public));
}

#[test]
fn handshake_tag_is_bound_to_the_client_keyshare() {
    let (peer, local) = identity_pair([7u8; 32], [9u8; 32], true);

    let client_keys = SessionKeys::with_identity(true, peer);
    let ch_wire = ClientHello::make_client_hello(
        &BrowserProfile::chrome_131(),
        "example.com",
        &client_keys,
    );
    let (client_hello, client_ext) = parse_client_hello_record(&ch_wire);

    let mut tag = [0u8; 16];
    tag.copy_from_slice(&client_hello.session_id[16..32]);
    let mut replayed_public = SessionKeys::extract_peer_public(&client_ext, true).unwrap();
    replayed_public[0] ^= 0xFF;

    let mut node = SessionKeys::with_identity(false, local);
    node.set_peer_version(client_hello.session_id[0]);
    assert!(!node.verify_handshake_tag(&tag, &client_hello.random, &replayed_public));
}

#[test]
fn strict_mode_decides_the_fate_of_anonymous_clients() {
    let anonymous_client = SessionKeys::new(true);
    let ch_wire = ClientHello::make_client_hello(
        &BrowserProfile::chrome_131(),
        "example.com",
        &anonymous_client,
    );
    let (client_hello, client_ext) = parse_client_hello_record(&ch_wire);
    let mut tag = [0u8; 16];
    tag.copy_from_slice(&client_hello.session_id[16..32]);
    let peer_public = SessionKeys::extract_peer_public(&client_ext, true).unwrap();

    for (strict, expected) in [(false, true), (true, false)] {
        let (_, local) = identity_pair([7u8; 32], [9u8; 32], strict);
        let mut node = SessionKeys::with_identity(false, local);
        node.set_peer_version(client_hello.session_id[0]);
        assert_eq!(
            node.verify_handshake_tag(&tag, &client_hello.random, &peer_public),
            expected,
            "strict={strict}"
        );
    }
}

#[test]
fn the_whole_exchange_agrees_through_the_bridge() {
    let (peer, local) = identity_pair([7u8; 32], [9u8; 32], true);
    for (client_id, server_id, version) in [
        (Some(peer), Some(local), PROTOCOL_VERSION),
        (None, None, PROTOCOL_VERSION_ANONYMOUS),
    ] {
        let mut client = match client_id {
            Some(id) => SessionKeys::with_identity(true, id),
            None => SessionKeys::new(true),
        };
        let mut server = match server_id {
            Some(id) => SessionKeys::with_identity(false, id),
            None => SessionKeys::new(false),
        };
        let hello =
            TlsBridge::wrap_client_hello(&BrowserProfile::chrome_140(), "node.example", &client);
        let mut buf = BytesMut::from(&hello[..]);
        buf.extend_from_slice(b"tail");
        let msg = TlsBridge::unpack_handshake(&mut buf).unwrap().unwrap();
        assert_eq!(&buf[..], b"tail");
        assert_eq!(
            msg.extensions().server_name().as_deref(),
            Some("node.example")
        );

        let (answer, claimed) =
            TlsBridge::wrap_server_hello(&msg, &mut server, &ServerProfile::modern()).unwrap();
        assert_eq!(claimed, version);
        let mut buf = BytesMut::from(&answer[..]);
        let said = TlsBridge::unpack_handshake(&mut buf).unwrap().unwrap();
        assert!(matches!(said, HandshakeMessage::Server { .. }));
        client
            .update_keys(said.random(), said.extensions(), false)
            .unwrap();

        let (c_tx, c_tx_iv, c_rx, c_rx_iv) = client.get_aead_parameters();
        let (s_tx, s_tx_iv, s_rx, s_rx_iv) = server.get_aead_parameters();
        assert_eq!((c_tx, c_tx_iv), (s_rx, s_rx_iv));
        assert_eq!((c_rx, c_rx_iv), (s_tx, s_tx_iv));
        assert_eq!(client.datagram_root(), server.datagram_root());
    }
}

#[test]
fn refused_hellos_have_their_reasons() {
    let client = SessionKeys::new(true);
    let hello =
        TlsBridge::wrap_client_hello(&BrowserProfile::chrome_140(), "node.example", &client);

    let answer = |wire: &[u8], server: &mut SessionKeys| {
        let mut buf = BytesMut::from(wire);
        let msg = TlsBridge::unpack_handshake(&mut buf).unwrap().unwrap();
        let e = TlsBridge::wrap_server_hello(&msg, server, &ServerProfile::modern())
            .err()
            .unwrap();
        assert_eq!(e.action, ErrorAction::Drop);
        match e.stage {
            ErrorStage::Handshake(what) => what,
            _ => panic!("another layer"),
        }
    };

    let mut bad_tag = hello.to_vec();
    bad_tag[5 + 4 + 35 + 20] ^= 0xff;
    assert_eq!(answer(&bad_tag, &mut SessionKeys::new(false)), "Auth Failed");

    let (_, strict) = identity_pair([7u8; 32], [9u8; 32], true);
    assert_eq!(
        answer(&hello, &mut SessionKeys::with_identity(false, strict)),
        "Auth Failed"
    );

    let mut server = SessionKeys::new(false);
    let mut buf = BytesMut::from(&hello[..]);
    let msg = TlsBridge::unpack_handshake(&mut buf).unwrap().unwrap();
    let (sh, _) = TlsBridge::wrap_server_hello(&msg, &mut server, &ServerProfile::modern()).unwrap();
    assert_eq!(answer(&sh, &mut SessionKeys::new(false)), "Expected ClientHello");
}

#[test]
fn a_hello_is_answered_once() {
    let (peer, local) = identity_pair([7u8; 32], [9u8; 32], true);
    let client = SessionKeys::with_identity(true, peer);
    let hello = TlsBridge::wrap_client_hello(&BrowserProfile::chrome_140(), "a.example", &client);
    let mut buf = BytesMut::from(&hello[..]);
    let msg = TlsBridge::unpack_handshake(&mut buf).unwrap().unwrap();
    let mut server = SessionKeys::with_identity(false, local);
    assert!(TlsBridge::wrap_server_hello(&msg, &mut server, &ServerProfile::modern()).is_ok());
    let e = TlsBridge::wrap_server_hello(&msg, &mut server, &ServerProfile::compat())
        .err()
        .unwrap();
    assert!(matches!(
        e.stage,
        ErrorStage::Handshake("Key Exchange Failed")
    ));
}

#[test]
fn a_session_carries_frames_both_ways() {
    let (peer, local) = identity_pair([7u8; 32], [9u8; 32], true);
    let (client, server) = run_handshake(Some(peer), Some(local));
    let codec = |keys: &SessionKeys| {
        let (tx_key, tx_iv, rx_key, rx_iv) = keys.get_aead_parameters();
        let mut cipher = ChaChaCipher::new();
        cipher.set_keys(tx_key, tx_iv, rx_key, rx_iv);
        Codec::new(cipher, keys.get_auth_key()).split()
    };
    let (mut c_rx, mut c_tx) = codec(&client);
    let (mut s_rx, mut s_tx) = codec(&server);
    let up = c_tx
        .encode_frame(1, FrameType::Data, Bytes::from_static(b"up"))
        .unwrap();
    let down = s_tx
        .encode_frame(2, FrameType::Data, Bytes::from_static(b"down"))
        .unwrap();
    let got = s_rx
        .decode_inbound(&mut BytesMut::from(&up[..]))
        .unwrap()
        .unwrap();
    assert_eq!(&got.payload[..], b"up");
    let got = c_rx
        .decode_inbound(&mut BytesMut::from(&down[..]))
        .unwrap()
        .unwrap();
    assert_eq!(&got.payload[..], b"down");
}

#[test]
fn the_suite_is_one_that_both_sides_know() {
    let offer = |suites: Vec<u16>| ClientHello {
        _version: netrunner_engine::tlseng::types::ProtocolVersion::Tls12,
        random: [0; 32],
        session_id: Bytes::new(),
        cipher_suites: suites,
        extensions: Bytes::new(),
    };
    let pick = |suites: Vec<u16>, profile: &ServerProfile| {
        ServerHello::from_client_hello(&offer(suites), &[7; 32], [1; 32], profile).cipher_suite
    };
    let mut profile = ServerProfile::modern();
    assert_eq!(pick(vec![0x1303, 0x1302], &profile), 0x1302);
    profile.honor_cipher_order = false;
    assert_eq!(pick(vec![0x1303, 0x1302], &profile), 0x1303);
    assert_eq!(pick(vec![0xc02b], &profile), 0x1301);
    assert_eq!(pick(vec![0xc02b], &ServerProfile::compat()), 0xc02b);
}

#[test]
fn a_tag_from_another_time_is_refused() {
    let client = SessionKeys::new(true);
    let hello = TlsBridge::wrap_client_hello(&BrowserProfile::chrome_140(), "a.example", &client);
    let mut buf = BytesMut::from(&hello[..]);
    let msg = TlsBridge::unpack_handshake(&mut buf).unwrap().unwrap();
    let mut server = SessionKeys::new(false);
    let e = TlsBridge::wrap_server_hello_at(&msg, &mut server, &ServerProfile::modern(), 0)
        .err()
        .unwrap();
    assert!(matches!(e.stage, ErrorStage::Handshake("Auth Failed")));
}

#[test]
fn a_message_that_cannot_be_taken_apart_is_an_error() {
    let mut record = BytesMut::from(&[0x16u8, 0x03, 0x01, 0x00, 0x04, 0x01, 0x00, 0x00, 0x00][..]);
    let e = TlsBridge::unpack_handshake(&mut record).err().unwrap();
    assert!(matches!(
        e.stage,
        ErrorStage::Handshake("Malformed handshake message")
    ));

    let mut other = BytesMut::from(&[0x14u8, 0x03, 0x03, 0x00, 0x01, 0x01][..]);
    let e = TlsBridge::unpack_handshake(&mut other).err().unwrap();
    assert!(matches!(
        e.stage,
        ErrorStage::Handshake("Expected Handshake record")
    ));
}

#[test]
fn half_a_cipher_suite_makes_a_hello_malformed() {
    let client = SessionKeys::new(true);
    let hello = TlsBridge::wrap_client_hello(&BrowserProfile::safari_17(), "a.example", &client);
    let mut wire = hello.to_vec();
    // The length of the cipher suites stands behind the session id.
    let at = 5 + 4 + 35 + 32;
    assert_eq!(&wire[at..at + 2], &[0x00, 0x06]);
    wire[at + 1] = 0x05;
    let mut buf = BytesMut::from(&wire[..]);
    let e = TlsBridge::unpack_handshake(&mut buf).err().unwrap();
    assert!(matches!(
        e.stage,
        ErrorStage::Handshake("Malformed handshake message")
    ));
}

#[test]
fn the_middlebox_record_is_taken_off() {
    let ccs = TlsBridge::build_middlebox_ccs();
    let mut buf = BytesMut::from(&ccs[..]);
    buf.extend_from_slice(&[1, 2]);
    assert!(TlsBridge::unpack_middlebox_ccs(&mut buf).unwrap().is_some());
    assert_eq!(&buf[..], &[1, 2]);
}
