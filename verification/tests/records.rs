//! Records and profiles.

use bytes::{Bytes, BytesMut};

use netrunner_engine::bridge::TlsBridge;
use netrunner_engine::errors::{ErrorAction, ErrorStage};
use netrunner_engine::parser::Parser;
use netrunner_engine::tlseng::profile::{BrowserProfile, ServerProfile};
use netrunner_engine::tlseng::tls_record::{ApplicationData, TlsRecord};
use netrunner_engine::tlseng::types::{ContentType, HelloType, ProtocolVersion};

#[test]
fn application_data_round_trip() {
    let payload = Bytes::from_static(b"hello ciphertext + 16-byte tag!!");
    let wire = TlsRecord::build_application_data(payload.clone());

    let mut buf = BytesMut::from(&wire[..]);
    let record = TlsRecord::parse(&mut buf).unwrap().unwrap();

    assert_eq!(record.content_type, ContentType::ApplicationData);
    assert_eq!(record.payload, payload);
    assert!(buf.is_empty(), "parse must consume exactly one record");
}

#[test]
fn change_cipher_spec_exact_bytes() {
    let wire = TlsRecord::build_change_cipher_spec();
    assert_eq!(&wire[..], &[0x14, 0x03, 0x03, 0x00, 0x01, 0x01]);
}

#[test]
fn change_cipher_spec_round_trip() {
    let wire = TlsRecord::build_change_cipher_spec();
    let mut buf = BytesMut::from(&wire[..]);
    let record = TlsRecord::parse(&mut buf).unwrap().unwrap();

    assert_eq!(record.content_type, ContentType::ChangeCipherSpec);
    assert_eq!(&record.payload[..], &[0x01]);
}

#[test]
fn incomplete_record_is_none_not_error() {
    let wire = TlsRecord::build_application_data(Bytes::from_static(b"0123456789abcdef+"));
    let mut buf = BytesMut::from(&wire[..wire.len() - 1]);
    assert!(TlsRecord::parse(&mut buf).unwrap().is_none());
    assert_eq!(buf.len(), wire.len() - 1);
}

#[test]
fn application_data_below_min_len_is_none() {
    let mut buf = BytesMut::new();
    buf.extend_from_slice(&[ContentType::ApplicationData.code(), 0x03, 0x03, 0x00, 0x05]);
    buf.extend_from_slice(&[0u8; 5]);
    assert!(!TlsRecord::can_parse(&buf));
}

#[test]
fn unknown_content_type_is_rejected() {
    let mut buf = BytesMut::new();
    buf.extend_from_slice(&[0x99, 0x03, 0x03, 0x00, 0x01, 0x00]);
    assert!(!TlsRecord::can_parse(&buf));
}

#[test]
fn a_record_of_an_unknown_type_is_to_be_relayed() {
    let mut buf = BytesMut::from(&[0x99, 0x03, 0x03, 0x00, 0x01, 0x00][..]);
    let e = TlsRecord::parse(&mut buf).unwrap_err();
    assert!(matches!(e.stage, ErrorStage::Tls("This is not ContentType")));
    assert_eq!(e.action, ErrorAction::Redirect);
    assert!(e.data.is_empty());
    assert_eq!(&buf[..], &[0x00]);

    let mut buf = BytesMut::from(&[0x99, 0x03, 0x03, 0x00, 0x01, 0x00][..]);
    assert_eq!(TlsBridge::unpack_handshake(&mut buf).err().unwrap().action, ErrorAction::Redirect);
    let mut buf = BytesMut::from(&[0x99, 0x03, 0x03, 0x00, 0x01, 0x00][..]);
    assert_eq!(TlsBridge::unpack_app_data(&mut buf).err().unwrap().action, ErrorAction::Redirect);

    // As long as it is not whole, it may still become anything.
    let mut part = BytesMut::from(&[0x99, 0x03, 0x03, 0x00, 0x01][..]);
    assert!(TlsRecord::parse(&mut part).unwrap().is_none());
    assert_eq!(part.len(), 5);
}

#[test]
fn a_record_of_an_unknown_version_is_to_be_relayed() {
    let mut buf = BytesMut::from(&[0x16, 0x02, 0x00, 0x00, 0x01, 0x00][..]);
    let e = TlsRecord::parse(&mut buf).unwrap_err();
    assert!(matches!(e.stage, ErrorStage::Tls("This is not Protocol Version")));
    assert_eq!(e.action, ErrorAction::Redirect);
}

#[test]
fn server_profiles_have_known_values() {
    for profile in [ServerProfile::modern(), ServerProfile::compat()] {
        assert_eq!(profile._groups.0, &[0x001d, 0x0017]);
        assert_eq!(
            profile._signatures.0,
            &[0x0403, 0x0804, 0x0401, 0x0503, 0x0805, 0x0501, 0x0806]
        );
        assert_eq!(profile._alpn, &["h2", "http/1.1"]);
        assert!(profile._session_tickets);
    }
}

#[test]
fn raw_application_data_parser_takes_whole_buffer() {
    let mut buf = BytesMut::from(&b"anything at all"[..]);
    let parsed = ApplicationData::parse(&mut buf).unwrap().unwrap();
    assert_eq!(&parsed.payload[..], &b"anything at all"[..]);
    assert!(buf.is_empty());
}

#[test]
fn raw_application_data_parser_empty_is_none() {
    let mut buf = BytesMut::new();
    assert!(ApplicationData::parse(&mut buf).unwrap().is_none());
}

#[test]
fn numbers_on_the_wire_are_read_back() {
    for t in [
        ContentType::ChangeCipherSpec,
        ContentType::Alert,
        ContentType::Handshake,
        ContentType::ApplicationData,
    ] {
        assert_eq!(ContentType::try_from(t.code()), Ok(t));
    }
    for v in [
        ProtocolVersion::Tls10,
        ProtocolVersion::Tls12,
        ProtocolVersion::Tls13,
    ] {
        assert_eq!(ProtocolVersion::try_from(v.code()), Ok(v));
    }
    for h in [HelloType::Client, HelloType::Server] {
        assert_eq!(HelloType::try_from(h.code()), Ok(h));
    }
    assert_eq!(ContentType::try_from(0), Err("This is not ContentType"));
    assert_eq!(
        ProtocolVersion::try_from(0),
        Err("This is not Protocol Version")
    );
    assert_eq!(HelloType::try_from(0), Err("This is not Hello header"));
}

#[test]
fn for_session_is_deterministic_for_the_same_session_id() {
    let sid = "abc123deadbeef";
    let p1 = BrowserProfile::for_session(sid);
    let p2 = BrowserProfile::for_session(sid);
    assert_eq!(p1, p2, "same session_id must always pick the same profile");
}

#[test]
fn for_session_spreads_across_many_distinct_session_ids() {
    let mut seen = std::collections::HashSet::new();
    for i in 0..200u32 {
        let sid = format!("session-{i}");
        let chosen = BrowserProfile::for_session(&sid);
        seen.insert(chosen);
    }
    assert_eq!(
        seen.len(),
        BrowserProfile::all().len(),
        "expected all {} profiles to appear across 200 distinct sessions",
        BrowserProfile::all().len()
    );
}
