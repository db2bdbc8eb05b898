//! Each reason to refuse something has an input that brings it about.

use bytes::{Bytes, BytesMut};

use netrunner_engine::app_error::ERR_NET_TLS_TAMPER;
use netrunner_engine::bridge::{HandshakeMessage, TlsBridge};
use netrunner_engine::crypto::session::SessionKeys;
use netrunner_engine::errors::{ErrorAction, ErrorStage, TlsError};
use netrunner_engine::parser::Parser;
use netrunner_engine::tlseng::extension::{Extension, ExtensionStack};
use netrunner_engine::tlseng::handshake::ClientHello;
use netrunner_engine::tlseng::profile::{BrowserProfile, ServerProfile};
use netrunner_engine::tlseng::tls_record::TlsRecord;
use netrunner_engine::tlseng::types::{ContentType, ProtocolVersion, TlsExtensions};

fn stack(data: Vec<u8>) -> ExtensionStack {
    ExtensionStack {
        extensions: vec![Extension::new(TlsExtensions::KEY_SHARE, Bytes::from(data))],
    }
}

fn share_complaint(data: Vec<u8>, from_client: bool) -> (String, String) {
    let e = SessionKeys::extract_peer_public(&stack(data), from_client)
        .err()
        .unwrap();
    assert_eq!(e.code, ERR_NET_TLS_TAMPER);
    (e.user_msg, e.internal_msg)
}

#[test]
fn unusable_key_shares_are_told_apart() {
    let disguise = "Ошибка маскировки".to_string();
    assert_eq!(
        share_complaint(vec![0], true),
        (disguise.clone(), "Client KeyShare too short: 1".to_string())
    );
    assert_eq!(
        share_complaint(vec![0, 5, 1], true),
        (
            disguise.clone(),
            "KeyShare list_len exceeds extension body".to_string()
        )
    );
    assert_eq!(
        share_complaint(vec![0, 5, 0x11, 0xec, 0, 1, 7], true),
        (
            disguise.clone(),
            "Could not find x25519 key in ClientHello".to_string()
        )
    );
    assert_eq!(
        share_complaint(vec![0; 35], false),
        (disguise.clone(), "Server KeyShare too short".to_string())
    );
    let mut long = vec![0x00, 0x1d, 0x00, 0x21];
    long.extend_from_slice(&[1; 33]);
    assert_eq!(
        share_complaint(long, false),
        (
            disguise,
            "Server KeyShare has unexpected key length 33".to_string()
        )
    );
    let mut zeros = vec![0x00, 0x1d, 0x00, 0x20];
    zeros.extend_from_slice(&[0; 32]);
    assert_eq!(
        share_complaint(zeros, false),
        (
            "Ошибка шифрования".to_string(),
            "Extracted remote public key is all ZEROS!".to_string()
        )
    );
}

#[test]
fn the_key_is_found_behind_other_shares() {
    let mut list = vec![0x1a, 0x1a, 0x00, 0x01, 0x00];
    // An entry of another group whose bytes look like the start of an X25519 one.
    list.extend_from_slice(&[0x11, 0xec, 0x00, 0x04, 0x00, 0x1d, 0x00, 0x20]);
    list.extend_from_slice(&[0x00, 0x1d, 0x00, 0x20]);
    list.extend_from_slice(&[7; 32]);
    let mut data = (list.len() as u16).to_be_bytes().to_vec();
    data.extend_from_slice(&list);
    assert_eq!(
        SessionKeys::extract_peer_public(&stack(data), true).unwrap(),
        [7; 32]
    );
}

fn hello(session_id: &[u8], extensions: ExtensionStack) -> HandshakeMessage {
    HandshakeMessage::Client {
        base: ClientHello {
            _version: ProtocolVersion::Tls12,
            random: [1; 32],
            session_id: Bytes::copy_from_slice(session_id),
            cipher_suites: vec![0x1301],
            extensions: Bytes::new(),
        },
        extensions,
    }
}

fn refusal(r: Result<(Bytes, u8), TlsError>) -> &'static str {
    let e = r.err().unwrap();
    assert_eq!(e.action, ErrorAction::Drop);
    match e.stage {
        ErrorStage::Handshake(what) => what,
        _ => panic!("another layer"),
    }
}

#[test]
fn a_hello_is_refused_step_by_step() {
    let profile = ServerProfile::modern();
    let none = || ExtensionStack { extensions: vec![] };
    let mut server = SessionKeys::new(false);
    assert_eq!(
        refusal(TlsBridge::wrap_server_hello(
            &hello(&[2; 31], none()),
            &mut server,
            &profile
        )),
        "Invalid SessionID len"
    );
    assert_eq!(
        refusal(TlsBridge::wrap_server_hello(
            &hello(&[2; 32], none()),
            &mut server,
            &profile
        )),
        "Bad KeyShare"
    );
    let mut data = vec![0x00, 0x24, 0x00, 0x1d, 0x00, 0x20];
    data.extend_from_slice(&[7; 32]);
    assert_eq!(
        refusal(TlsBridge::wrap_server_hello(
            &hello(&[2; 32], stack(data)),
            &mut server,
            &profile
        )),
        "Auth Failed"
    );
}

#[test]
fn a_side_whose_secret_is_gone_derives_no_second_keys() {
    let client = SessionKeys::new(true);
    let wire = TlsBridge::wrap_client_hello(&BrowserProfile::chrome_140(), "a.example", &client);
    let mut buf = BytesMut::from(&wire[..]);
    let msg = TlsBridge::unpack_handshake(&mut buf).unwrap().unwrap();
    let mut used = SessionKeys::new(true);
    used.update_keys(msg.random(), msg.extensions(), true).unwrap();
    let e = used
        .update_keys(msg.random(), msg.extensions(), true)
        .err()
        .unwrap();
    assert_eq!(e.user_msg, "Сбой");
    assert_eq!(e.internal_msg, "No shared secret");
}

fn hello_with_block(block: &[u8]) -> BytesMut {
    let message = ClientHello {
        _version: ProtocolVersion::Tls12,
        random: [1; 32],
        session_id: Bytes::from(vec![2; 32]),
        cipher_suites: vec![0x1301, 0x1302],
        extensions: Bytes::copy_from_slice(block),
    }
    .serialize();
    let record = TlsRecord::new(ContentType::Handshake, ProtocolVersion::Tls10, message);
    BytesMut::from(&record.serialize()[..])
}

#[test]
fn blocks_of_extensions_that_are_none_are_errors() {
    let e = TlsBridge::unpack_handshake(&mut hello_with_block(&[0, 23, 0, 9]))
        .err()
        .unwrap();
    assert!(matches!(e.stage, ErrorStage::Handshake("Ext Err")));
    let e = TlsBridge::unpack_handshake(&mut hello_with_block(&[0, 23, 0, 0, 1]))
        .err()
        .unwrap();
    assert!(matches!(
        e.stage,
        ErrorStage::Tls("Malformed extension stack: trailing data")
    ));
    let msg = TlsBridge::unpack_handshake(&mut hello_with_block(&[0, 23, 0, 0]))
        .unwrap()
        .unwrap();
    assert_eq!(msg.random(), [1; 32]);
    assert!(msg.extensions().find_by_type(23).unwrap().is_empty());
    match msg {
        HandshakeMessage::Client { base, .. } => {
            assert_eq!(base.cipher_suites, vec![0x1301, 0x1302]);
            assert_eq!(&base.session_id[..], &[2; 32]);
        }
        HandshakeMessage::Server { .. } => panic!("another message"),
    }
}

#[test]
fn an_unknown_version_in_a_hello_is_an_error() {
    let mut wire = hello_with_block(&[]);
    wire[9] = 0x09;
    let e = TlsBridge::unpack_handshake(&mut wire).err().unwrap();
    assert!(matches!(
        e.stage,
        ErrorStage::Tls("This is not Protocol Version")
    ));
    assert_eq!(e.action, ErrorAction::Drop);
}

#[test]
fn an_unfinished_hello_waits() {
    let wire = hello_with_block(&[0, 23, 0, 0]);
    let mut part = BytesMut::from(&wire[..wire.len() - 1]);
    assert!(TlsBridge::unpack_handshake(&mut part).unwrap().is_none());
    assert_eq!(part.len(), wire.len() - 1);
    assert!(!ClientHello::can_parse(&BytesMut::from(&wire[9..40])));
}
