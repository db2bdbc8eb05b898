//! Errors, credentials, ciphers, numbers and the log.

use bytes::{Bytes, BytesMut};

use netrunner_engine::app_error::{AppError, ERR_AUTH_FAILED, ERR_NET_TLS_TAMPER};
use netrunner_engine::crypto::aead_packer::AeadPacker;
use netrunner_engine::crypto::chacha::{build_nonce, ChaChaStream};
use netrunner_engine::crypto::ecdh::ECDH;
use netrunner_engine::crypto::hkdf::HKDF;
use netrunner_engine::crypto::identity::{LocalIdentity, PeerIdentity};
use netrunner_engine::crypto::session::SessionKeys;
use netrunner_engine::errors::{ErrorAction, ErrorStage, Severity, TlsError};
use netrunner_engine::logging::{
    banner, init_step, log_bytes, logs_panics, redact, sink_for, InitCall, LogSetup, LogSink,
};
use netrunner_engine::utils::u24::{BufExt, U24};

#[test]
fn an_error_carries_its_code_and_its_context() {
    let e = AppError::new(ERR_AUTH_FAILED, "for people", "for logs")
        .with_context("peer", "a")
        .with_context("step", "1")
        .with_context("peer", "b")
        .with_cause("the clock".to_string());
    assert_eq!(e.code, "AUTH_FAILED");
    assert_eq!(e.user_msg, "for people");
    assert_eq!(e.message(), "[AUTH_FAILED] for logs");
    assert_eq!(e.metadata.len(), 2);
    assert!(e.metadata.contains(&("peer".to_string(), "b".to_string())));
    assert_eq!(e.cause.as_deref(), Some("the clock"));
}

#[test]
fn a_logged_error_names_layer_reason_and_data() {
    let e = TlsError::new(
        ErrorStage::Tls("no good"),
        ErrorAction::Drop,
        Bytes::from_static(&[0xab, 0x01]),
    );
    let report = e.log_error();
    assert_eq!(report.severity, Severity::Error);
    assert_eq!(report.stage, "TLS");
    assert_eq!(report.preview, "Hex: [ab, 01]");
    assert_eq!(report.message, "🚨 no good");
    assert_eq!(e.execute_strategy(), ErrorAction::Drop);

    let wait = TlsError::new(ErrorStage::Handshake("more"), ErrorAction::Wait, Bytes::new());
    let report = wait.log_error();
    assert_eq!(report.severity, Severity::Trace);
    assert_eq!(report.stage, "Handshake");
    assert_eq!(report.preview, "No data");
    assert_eq!(report.message, "more");

    let long = TlsError::new(
        ErrorStage::ApplicationData("relay"),
        ErrorAction::Redirect,
        Bytes::from_static(&[0, 1, 2, 3, 4, 5, 6, 7, 8]),
    );
    let report = long.log_error();
    assert_eq!(report.stage, "AppData");
    assert_eq!(report.preview, format!("Hex: {:02x?}...", &[0u8, 1, 2, 3, 4, 5, 6, 7]));
    assert_eq!(report.message, "⚠️ relay");
}

#[test]
fn credentials_are_read_from_hex() {
    let ok = "11".repeat(32);
    let local = LocalIdentity::from_hex(&format!("  {ok}\n"), &"09".repeat(32), true).unwrap();
    assert_eq!(
        local.public_key_hex(),
        hex::encode(ECDH::from_secret([9u8; 32]).public_bytes())
    );
    assert!(PeerIdentity::from_hex(&ok, &local.public_key_hex()).is_ok());

    let e = PeerIdentity::from_hex("11", &ok).err().unwrap();
    assert_eq!(e.code, ERR_AUTH_FAILED);
    assert_eq!(e.user_msg, "Ошибка конфигурации");
    assert_eq!(
        e.internal_msg,
        "nrxp_secret: ожидалось 32 байта (64 hex-символа), получено 1"
    );
    let e = PeerIdentity::from_hex(&ok, &"zz".repeat(32)).err().unwrap();
    assert_eq!(e.code, ERR_AUTH_FAILED);
    assert!(e.internal_msg.starts_with("nrxp_static_public"));
    assert!(e.internal_msg.contains("Invalid character 'z' at position 0"));
    let e = LocalIdentity::from_hex(&ok, "1", false).err().unwrap();
    assert_eq!(e.code, ERR_AUTH_FAILED);
}

fn bytes32(text: &str) -> [u8; 32] {
    let mut out = [0u8; 32];
    out.copy_from_slice(&hex::decode(text).unwrap());
    out
}

#[test]
fn x25519_gives_the_shared_secret_of_the_standard() {
    // The first test vector of RFC 7748, section 5.2.
    let ecdh = ECDH::from_secret(bytes32(
        "a546e36bf0527c9d3b16154b82465edd62144c0ac1fc5a18506a2244ba449ac4",
    ));
    let point = bytes32("e6db6867583030db3594c1a424b15f7c726624ec26b3353b10a903a6d0ab1c4c");
    assert_eq!(
        ecdh.dh(&point).unwrap(),
        bytes32("c3da55379de9c6908e94ea4df28d084f32eccf03491c71f754b4075577a28552")
    );
}

#[test]
fn a_public_key_is_the_exchange_with_the_base_point() {
    let mut base = [0u8; 32];
    base[0] = 9;
    let ecdh = ECDH::from_secret([0x42; 32]);
    assert_eq!(ecdh.public_bytes(), ecdh.dh(&base).unwrap());
    assert_ne!(ecdh.public_bytes(), [0x42; 32]);
}

#[test]
fn both_sides_of_an_exchange_agree_until_the_secret_is_gone() {
    let mut a = ECDH::from_secret([0x55; 32]);
    let b = ECDH::new();
    let shared = a.dh(&b.public_bytes()).unwrap();
    assert_eq!(shared, b.dh(&a.public_bytes()).unwrap());
    assert_ne!(shared, b.public_bytes());
    a.burn();
    assert!(a.dh(&b.public_bytes()).is_none());
}

#[test]
fn keys_of_too_many_blocks_are_refused() {
    let (prk, extracted) = HKDF::extract_key(b"salt", b"input");
    let again = HKDF::from_prk(&prk);
    assert_eq!(
        HKDF::expand_key::<32>(&extracted, b"label").unwrap(),
        HKDF::expand_key::<32>(&again, b"label").unwrap()
    );
    assert!(HKDF::expand_key::<8160>(&again, b"label").is_ok());
    assert_eq!(
        HKDF::expand_key::<8161>(&again, b"label").unwrap_err(),
        "invalid number of blocks, too large output"
    );
}

#[test]
fn hkdf_gives_the_bytes_of_the_standard() {
    // The first test case of RFC 5869.
    let ikm = [0x0bu8; 22];
    let salt: Vec<u8> = (0x00u8..=0x0c).collect();
    let info: Vec<u8> = (0xf0u8..=0xf9).collect();
    let (prk, extracted) = HKDF::extract_key(&salt, &ikm);
    assert_eq!(
        hex::encode(prk),
        "077709362c2e32df0ddc3f0dc47bba6390b6c73bb50f9c3122ec844ad7c2b3e5"
    );
    let okm = HKDF::expand_key::<42>(&extracted, &info).unwrap();
    assert_eq!(
        hex::encode(okm),
        "3cb25f25faacd57a90434f64d0362f2a2d2d0a90cf1a5a4c5db02d56ecc4c5bf34007208d5b887185865"
    );
}

#[test]
fn nonces_are_the_iv_xored_with_the_counter() {
    let iv = [0xffu8; 12];
    assert_eq!(build_nonce(&iv, 0), iv);
    assert_eq!(
        build_nonce(&iv, 0x0102_0304_0506_0708),
        [0xff, 0xff, 0xff, 0xff, 0xfe, 0xfd, 0xfc, 0xfb, 0xfa, 0xf9, 0xf8, 0xf7]
    );
}

#[test]
fn packets_open_in_order_only() {
    let mut tx = ChaChaStream::new(&[1u8; 32], [2u8; 12]);
    let mut rx = ChaChaStream::new(&[1u8; 32], [2u8; 12]);
    let mut first = BytesMut::from(&b"first"[..]);
    let mut second = BytesMut::from(&b"second"[..]);
    tx.encrypt(&mut first).unwrap();
    tx.encrypt(&mut second).unwrap();
    assert_eq!(first.len(), 5 + 16);
    assert_ne!(&first[..5], b"first");

    let mut early = second.clone();
    assert!(rx.decrypt(&mut early).is_err());
    assert_eq!(early, second, "what does not open stays as it is");
    rx.decrypt(&mut first).unwrap();
    assert_eq!(&first[..], b"first");
    rx.decrypt(&mut second).unwrap();
    assert_eq!(&second[..], b"second");
}

#[test]
fn a_missing_key_share_is_reported() {
    let mut keys = SessionKeys::new(true);
    let none = netrunner_engine::tlseng::extension::ExtensionStack { extensions: vec![] };
    let e = keys.update_keys([0u8; 32], &none, false).err().unwrap();
    assert_eq!(e.code, ERR_NET_TLS_TAMPER);
    assert_eq!(e.internal_msg, "No KeyShare extension found in handshake");
    assert_eq!(keys.auth_key_fingerprint(), "00000000");
}

#[test]
fn three_bytes_are_one_number() {
    assert_eq!(U24::from_u32(0x0102_0304).0, [2, 3, 4]);
    let mut buf = BytesMut::from(&[1u8, 2, 3, 4][..]);
    assert_eq!(buf.get_u24(), 0x0001_0203);
    assert_eq!(&buf[..], &[4]);
}

#[test]
fn addresses_do_not_reach_the_log() {
    assert_eq!(
        redact(b"peer 10.0.0.1:443 and 192.168.1.254 left"),
        b"peer [redacted]:443 and [redacted] left".to_vec()
    );
    assert_eq!(redact(b"version 1.2.3"), b"version 1.2.3".to_vec());
    assert_eq!(redact(b"1.2.3.4"), b"[redacted]".to_vec());
    assert_eq!(redact(&[0xff, 0xfe]), vec![0xff, 0xfe]);
    assert_eq!(redact(b""), Vec::<u8>::new());
}

#[test]
fn a_log_line_is_the_redacted_text_or_the_raw_bytes() {
    assert_eq!(log_bytes(b"raw", Some("text".to_string())), b"text".to_vec());
    assert_eq!(log_bytes(b"raw", None), b"raw".to_vec());
}

#[test]
fn only_the_first_request_sets_the_logger_up() {
    for has_dir in [false, true] {
        for is_production in [false, true] {
            let first = InitCall { has_dir, is_production };
            let (setup, is_due) = init_step(None, first);
            assert!(is_due);
            assert_eq!(
                setup,
                LogSetup { sink: sink_for(has_dir, is_production), panics: is_production }
            );
            let other = InitCall { has_dir: !has_dir, is_production: !is_production };
            assert_eq!(init_step(Some(setup), other), (setup, false));
            assert_eq!(init_step(Some(setup), first), (setup, false));
        }
    }
    let call = InitCall { has_dir: false, is_production: true };
    assert_eq!(
        init_step(None, call).0,
        LogSetup { sink: LogSink::JsonStdout, panics: true }
    );
}

#[test]
fn the_log_goes_where_the_mode_says() {
    assert_eq!(sink_for(true, true), LogSink::JsonFile);
    assert_eq!(sink_for(false, true), LogSink::JsonStdout);
    assert_eq!(sink_for(true, false), LogSink::Console);
    assert_eq!(sink_for(false, false), LogSink::Console);
    assert!(logs_panics(true));
    assert!(!logs_panics(false));
    assert_eq!(
        banner(true, true),
        "--- [DEBUG] Netrunner Logger initialized (Mode: PROD, File: true) ---"
    );
    assert_eq!(
        banner(false, false),
        "--- [DEBUG] Netrunner Logger initialized (Mode: DEBUG, File: false) ---"
    );
}
