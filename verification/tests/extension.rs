//! Extensions: written in the order of a profile, and read back.

use bytes::{BufMut, BytesMut};

use netrunner_engine::parser::Parser;
use netrunner_engine::tlseng::consts::TYPE_HOST_NAME;
use netrunner_engine::tlseng::extension::{Extension, ExtensionStack};
use netrunner_engine::tlseng::extension_builder::ExtensionBuilder;
use netrunner_engine::tlseng::grease::GreaseSet;
use netrunner_engine::tlseng::mlkem::{
    byte_encode_12, sample_coefficient, sample_x25519_mlkem768_share, K, N, Q, T_HAT_LEN,
    X25519_MLKEM768_SHARE_LEN,
};
use netrunner_engine::tlseng::profile::BrowserProfile;
use netrunner_engine::tlseng::types::{TlsExtensions, TlsGroups};

const FAKE_PUB_KEY: [u8; 32] = [0x7A; 32];

fn build_for(profile: &BrowserProfile, host: &str) -> ExtensionStack {
    let mut builder = ExtensionBuilder::new();
    builder.apply_profile(profile, host, &FAKE_PUB_KEY, 0);
    let bytes = builder.build();
    ExtensionStack::parse(&mut BytesMut::from(bytes.as_ref()))
        .unwrap()
        .unwrap()
}

#[test]
fn every_browser_profile_round_trips_and_exposes_server_name() {
    for profile in &BrowserProfile::all() {
        let stack = build_for(profile, "example.com");
        assert_eq!(
            stack.server_name().as_deref(),
            Some("example.com"),
            "SNI must round-trip for every profile"
        );

        let key_share = stack
            .find_by_type(TlsExtensions::KEY_SHARE)
            .expect("every profile writes a KeyShare extension");
        assert!(key_share.len() >= 36);
        assert_eq!(&key_share[key_share.len() - 32..], &FAKE_PUB_KEY[..]);
    }
}

#[test]
fn profiles_outside_the_pool_round_trip_too() {
    for profile in [
        BrowserProfile::chrome_131(),
        BrowserProfile::edge_130(),
        BrowserProfile::firefox_130(),
        BrowserProfile::safari_17(),
    ] {
        let stack = build_for(&profile, "example.com");
        assert_eq!(stack.server_name().as_deref(), Some("example.com"));
        let mut types: Vec<u16> = stack
            .extensions
            .iter()
            .map(|e| e.etype)
            .filter(|t| !TlsExtensions::is_grease(*t))
            .collect();
        let mut wanted: Vec<u16> = profile
            .extension_order
            .0
            .iter()
            .copied()
            .filter(|t| !TlsExtensions::is_grease(*t))
            .collect();
        types.sort();
        wanted.sort();
        assert_eq!(types, wanted);
    }
}

#[test]
fn the_grease_group_is_the_same_in_groups_and_key_share() {
    let stack = build_for(&BrowserProfile::chrome_140(), "example.com");
    let groups = stack.find_by_type(TlsExtensions::SUPPORTED_GROUPS).unwrap();
    let shares = stack.find_by_type(TlsExtensions::KEY_SHARE).unwrap();
    let g = u16::from_be_bytes([groups[2], groups[3]]);
    let s = u16::from_be_bytes([shares[2], shares[3]]);
    assert!(TlsExtensions::is_grease(g));
    assert_eq!(g, s);
}

#[test]
fn server_name_handles_longer_hostnames() {
    let stack = build_for(&BrowserProfile::chrome_131(), "dev.example.com");
    assert_eq!(stack.server_name().as_deref(), Some("dev.example.com"));
}

#[test]
fn server_name_is_none_when_extension_absent() {
    let stack = ExtensionStack { extensions: vec![] };
    assert_eq!(stack.server_name(), None);
}

#[test]
fn server_name_is_none_when_extension_malformed() {
    let mut data = BytesMut::new();
    data.put_u16(100);
    let stack = ExtensionStack {
        extensions: vec![Extension::new(TlsExtensions::SNI, data.freeze())],
    };
    assert_eq!(stack.server_name(), None);
}

#[test]
fn server_name_is_none_for_non_utf8_hostname() {
    let mut data = BytesMut::new();
    let name = [0xFFu8, 0xFE, 0xFD];
    data.put_u16((1 + 2 + name.len()) as u16);
    data.put_u8(TYPE_HOST_NAME);
    data.put_u16(name.len() as u16);
    data.put_slice(&name);
    let stack = ExtensionStack {
        extensions: vec![Extension::new(TlsExtensions::SNI, data.freeze())],
    };
    assert_eq!(stack.server_name(), None);
}

#[test]
fn padding_extension_hits_target_size() {
    let mut builder = ExtensionBuilder::new();
    builder.server_name("example.com");
    let before = builder.payload.len();
    builder.padding(512, 0);
    let after = builder.payload.len();
    assert_eq!(
        after, 512,
        "total size (incl. padding's own 4-byte header) must hit target exactly"
    );
    assert!(after > before);
}

#[test]
fn padding_extension_skipped_when_already_over_target() {
    let mut builder = ExtensionBuilder::new();
    builder.server_name("a-very-long-hostname-that-eats-the-budget.example.com");
    let before = builder.payload.len();
    builder.padding(10, 0);
    assert_eq!(
        builder.payload.len(),
        before,
        "must not add negative padding"
    );
}

#[test]
fn single_extensions_have_their_wire_form() {
    let mut builder = ExtensionBuilder::with_grease(GreaseSet::fixed());
    builder.server_name("ab");
    assert_eq!(
        &builder.build()[..],
        &[0x00, 0x00, 0x00, 0x07, 0x00, 0x05, 0x00, 0x00, 0x02, b'a', b'b']
    );

    let mut builder = ExtensionBuilder::with_grease(GreaseSet::fixed());
    builder.supported_groups(TlsGroups::chromium(), true);
    assert_eq!(
        &builder.build()[..],
        &[0x00, 0x0a, 0x00, 0x08, 0x00, 0x06, 0x8a, 0x8a, 0x00, 0x1d, 0x00, 0x17]
    );

    let mut builder = ExtensionBuilder::with_grease(GreaseSet::fixed());
    builder.alpn(&["h2", "http/1.1"]);
    assert_eq!(
        &builder.build()[..],
        b"\x00\x10\x00\x0e\x00\x0c\x02h2\x08http/1.1"
    );
}

#[test]
fn a_block_with_bytes_left_over_is_an_error() {
    let mut block = BytesMut::from(&[0x00u8, 0x17, 0x00, 0x00, 0x01][..]);
    assert!(ExtensionStack::parse(&mut block).is_err());
    let mut short = BytesMut::from(&[0x00u8, 0x17, 0x00, 0x05, 0x01][..]);
    assert!(ExtensionStack::parse(&mut short).unwrap().is_none());
}

#[test]
fn every_drawn_value_is_a_valid_grease_value() {
    for _ in 0..256 {
        let g = GreaseSet::random();
        for v in [g.cipher, g.group, g.ext_first, g.ext_last, g.version] {
            assert!(TlsExtensions::is_grease(v), "0x{v:04x}");
        }
    }
}

#[test]
fn the_draw_actually_varies_between_connections() {
    let seen: std::collections::HashSet<u16> =
        (0..256).map(|_| GreaseSet::random().cipher).collect();
    assert!(seen.len() > 8, "{seen:?}");
}

#[test]
fn a_draw_picks_known_values() {
    let g = GreaseSet::from_draw(&[0, 1, 2, 15, 16]);
    assert_eq!(g.cipher, 0x0a0a);
    assert_eq!(g.group, 0x1a1a);
    assert_eq!(g.ext_first, 0x2a2a);
    assert_eq!(g.ext_last, 0xfafa);
    assert_eq!(g.version, 0x0a0a);
}

/// Takes packed coefficients apart again.
fn byte_decode_12(bytes: &[u8]) -> Vec<u16> {
    let mut out = Vec::with_capacity(bytes.len() * 8 / 12);
    for chunk in bytes.chunks_exact(3) {
        let (b0, b1, b2) = (chunk[0] as u16, chunk[1] as u16, chunk[2] as u16);
        out.push(b0 | ((b1 & 0x0f) << 8));
        out.push((b1 >> 4) | (b2 << 4));
    }
    out
}

#[test]
fn share_has_exactly_the_wire_length_chrome_sends() {
    assert_eq!(sample_x25519_mlkem768_share().len(), 1216);
    assert_eq!(X25519_MLKEM768_SHARE_LEN, 1216);
}

#[test]
fn every_coefficient_passes_the_fips203_modulus_check() {
    for _ in 0..64 {
        let share = sample_x25519_mlkem768_share();
        let coeffs = byte_decode_12(&share[..T_HAT_LEN]);
        assert_eq!(coeffs.len(), K * N);
        assert!(coeffs.iter().all(|&c| c < Q));
    }
}

#[test]
fn encoding_round_trips_bit_for_bit() {
    let coeffs: Vec<u16> = (0..K * N).map(|i| (i as u16 * 13) % Q).collect();
    let mut buf = vec![0u8; T_HAT_LEN];
    byte_encode_12(&coeffs, &mut buf);
    assert_eq!(byte_decode_12(&buf), coeffs);
}

#[test]
fn ballast_differs_between_handshakes() {
    let a = sample_x25519_mlkem768_share();
    let b = sample_x25519_mlkem768_share();
    assert_ne!(a, b, "a constant ballast would be a mark of its own");
}

#[test]
fn coefficients_are_rejected_not_reduced() {
    assert_eq!(sample_coefficient(3328), Some(3328));
    assert_eq!(sample_coefficient(3329), None);
    assert_eq!(sample_coefficient(4096 + 5), Some(5));
}
