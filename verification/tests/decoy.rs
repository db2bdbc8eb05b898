//! Names, modes and flights.

use netrunner_engine::tlseng::decoy::{CoverFlight, Decoy, DecoyCatalog, DecoyError, DecoyMode};
use netrunner_engine::utils::address::ip_literal;

fn catalog() -> DecoyCatalog {
    DecoyCatalog::from_list("clipforge.app, hauler.tools ,, LOGDRAIN.io ,")
}

#[test]
fn catalog_normalises_case_whitespace_and_duplicates() {
    let c = DecoyCatalog::from_list(" a.com , A.com,, b.net. ");
    assert_eq!(c.domains(), &["a.com".to_string(), "b.net".to_string()]);
}

#[test]
fn catalog_is_in_order() {
    let c = DecoyCatalog::from_list("b.net,a.net,ab.net,a.com,b.net,B.NET..");
    assert_eq!(
        c.domains(),
        &[
            "a.com".to_string(),
            "a.net".to_string(),
            "ab.net".to_string(),
            "b.net".to_string()
        ]
    );
    let mut sorted = c.domains().to_vec();
    sorted.sort();
    sorted.dedup();
    assert_eq!(c.domains(), &sorted[..]);
}

#[test]
fn owned_domain_validates_case_insensitively() {
    let c = catalog();
    assert_eq!(
        c.validate("ClipForge.app").unwrap().as_str(),
        "clipforge.app"
    );
    assert_eq!(c.validate("logdrain.io").unwrap().as_str(), "logdrain.io");
}

#[test]
fn foreign_domain_is_rejected_however_famous() {
    let c = catalog();
    for foreign in ["www.debian.org", "www.microsoft.com", "github.com"] {
        assert!(
            matches!(c.validate(foreign), Err(DecoyError::NotOwned { .. })),
            "{foreign} is not the node's"
        );
    }
}

#[test]
fn malformed_sni_is_rejected_before_ownership_is_considered() {
    let c = catalog();
    assert_eq!(c.validate("").unwrap_err(), DecoyError::Empty);
    assert_eq!(c.validate("10.0.0.1").unwrap_err(), DecoyError::IpLiteral);
    assert_eq!(c.validate("a_b.com").unwrap_err(), DecoyError::BadSyntax);
    assert_eq!(
        c.validate(&"a".repeat(254)).unwrap_err(),
        DecoyError::TooLong
    );
}

#[test]
fn the_length_limit_counts_bytes() {
    let c = catalog();
    assert_eq!(
        c.validate(&"a".repeat(253)).unwrap_err(),
        DecoyError::NotOwned { available: 3 }
    );
    assert_eq!(c.validate(&"ж".repeat(127)).unwrap_err(), DecoyError::TooLong);
    assert_eq!(c.validate(&"ж".repeat(126)).unwrap_err(), DecoyError::BadSyntax);
}

#[test]
fn empty_catalog_rejects_everything_without_panicking() {
    let c = DecoyCatalog::from_list("");
    assert!(c.is_empty());
    assert!(matches!(
        c.validate("anything.com"),
        Err(DecoyError::NotOwned { available: 0 })
    ));
    assert!(DecoyCatalog::default().is_empty());
}

#[test]
fn offered_names_are_those_that_pass() {
    let long = "a".repeat(254);
    let longest = "a".repeat(253);
    let list = format!(
        "One.example, 10.0.0.1, two-2.example., a_b.com, ::1, {long}, {longest}, 3.example, жук"
    );
    let c = DecoyCatalog::from_list(&list);
    assert_eq!(
        c.domains(),
        &[
            "3.example".to_string(),
            longest.clone(),
            "one.example".to_string(),
            "two-2.example".to_string()
        ]
    );
    for name in c.domains() {
        assert_eq!(c.validate(name).unwrap().as_str(), name);
    }
    for piece in list.split(',') {
        if let Ok(name) = c.validate(piece) {
            assert!(c.domains().contains(&name.as_str().to_string()));
        }
    }
    assert_eq!(c.validate("10.0.0.1").unwrap_err(), DecoyError::IpLiteral);
    assert_eq!(c.validate("a_b.com").unwrap_err(), DecoyError::BadSyntax);
    assert_eq!(c.validate(&long).unwrap_err(), DecoyError::TooLong);
    assert!(DecoyCatalog::from_list("10.0.0.1, a_b.com").is_empty());
}

#[test]
fn a_copied_catalog_offers_the_same() {
    let c = catalog();
    assert_eq!(c.clone().domains(), c.domains());
}

#[test]
fn relay_mode_is_the_backward_compatible_default() {
    assert_eq!(DecoyMode::default(), DecoyMode::Relay);
    assert!(DecoyMode::Relay.honor_requested_sni());
}

#[test]
fn self_hosted_never_honours_the_requested_sni() {
    assert!(!DecoyMode::SelfHosted.honor_requested_sni());
}

#[test]
fn mode_parses_its_aliases_and_rejects_typos() {
    for s in ["relay", "REALITY", "borrowed"] {
        assert_eq!(DecoyMode::parse(s).unwrap(), DecoyMode::Relay);
    }
    for s in ["self-hosted", "owned", "utp", "SelfHosted"] {
        assert_eq!(DecoyMode::parse(s).unwrap(), DecoyMode::SelfHosted);
    }
    assert_eq!(
        DecoyMode::parse("realyy").unwrap_err(),
        DecoyError::UnknownMode
    );
}

#[test]
fn modes_are_read_back_from_their_names() {
    for mode in [DecoyMode::Relay, DecoyMode::SelfHosted] {
        assert_eq!(DecoyMode::parse(mode.as_str()).unwrap(), mode);
    }
    assert_eq!(DecoyMode::parse("  self_hosted\n").unwrap(), DecoyMode::SelfHosted);
}

#[test]
fn errors_have_words() {
    assert_eq!(DecoyError::Empty.message(), "SNI не задан");
    assert_eq!(DecoyError::TooLong.message(), "SNI длиннее 253 байт");
    assert_eq!(
        DecoyError::IpLiteral.message(),
        "SNI обязан быть именем хоста, а не IP-адресом"
    );
    assert_eq!(
        DecoyError::BadSyntax.message(),
        "SNI содержит недопустимые для hostname символы"
    );
    assert_eq!(
        DecoyError::UnknownMode.message(),
        "неизвестный режим маскировки (ожидалось relay | self-hosted)"
    );
    assert_eq!(
        DecoyError::NotOwned { available: 12 }.message(),
        "домен не принадлежит узлу; доступно доменов: 12. Мимикрия валидна только под \
         собственный домен с собственным сертификатом — иначе активный зонд получит чужой \
         сертификат с нашего адреса"
    );
}

#[test]
fn ip_literals_are_told_from_names() {
    for text in [
        "1.2.3.4",
        "255.255.255.255",
        "0.0.0.0",
        "::",
        "::1",
        "1::",
        "fe80::1",
        "abcd:ef01::ffff",
        "1:2:3:4:5:6:7:8",
        "1:2:3:4:5:6:7::",
        "::2:3:4:5:6:7:8",
        "1::1:2:3:4:5:6",
        "::1.2.3.4",
        "::ffff:10.0.0.1",
        "1:2:3:4:5:6:1.2.3.4",
        "1:2:3:4:5::1.2.3.4",
    ] {
        let chars: Vec<char> = text.chars().collect();
        assert!(ip_literal(&chars), "{text}");
    }
    for text in [
        "",
        "1",
        "example.com",
        "1.2.3",
        "1.2.3.",
        "1.2.3.4.",
        "1.2.3.4.5",
        "256.1.1.1",
        "01.2.3.4",
        "1.2.3.4::",
        ":1",
        "1:",
        ":::",
        "g::",
        "12345::",
        "1::2::3",
        "1:2:3:4:5:6:7",
        "1:2:3:4:5:6:7:8::",
        "1::1:2:3:4:5:6:7",
        "::1.2.3.4:1",
        "1:2:3:4:5:6:7:1.2.3.4",
        "1:2:3:4:5:6::1.2.3.4",
    ] {
        let chars: Vec<char> = text.chars().collect();
        assert!(!ip_literal(&chars), "{text}");
    }
}

#[test]
fn cover_flight_reproduces_the_shape_of_a_real_server() {
    let f = CoverFlight::from_chain(&[1200, 1100], 72, 32);
    assert_eq!(f.records.len(), 4, "a real flight has four records");

    let [ee, cert, cv, fin] = f.records[..] else {
        panic!("exactly four records");
    };
    assert!(ee < 64, "EncryptedExtensions: {ee}");
    assert!(cert > 2000, "Certificate: {cert}");
    assert!(cv < cert && cv > fin, "CertificateVerify: {cv}");
    assert!(fin < 64, "Finished: {fin}");
}

#[test]
fn cover_flight_is_deterministic_for_a_given_chain() {
    let a = CoverFlight::from_chain(&[1200, 1100], 72, 32);
    let b = CoverFlight::from_chain(&[1200, 1100], 72, 32);
    assert_eq!(a, b);
}

#[test]
fn bigger_chain_yields_proportionally_bigger_certificate_record() {
    let small = CoverFlight::from_chain(&[1200, 1100], 72, 32);
    let rsa = CoverFlight::from_chain(&[1600, 1500, 1400], 256, 48);
    assert!(rsa.records[1] > small.records[1] + 1500);
}

#[test]
fn the_default_flight_has_known_lengths() {
    assert_eq!(CoverFlight::node_default().as_records(), &[30, 2385, 97, 53]);
    assert_eq!(CoverFlight::from_chain(&[], 0, 0).records, vec![30, 25, 25, 21]);
    let one = CoverFlight::from_chain(&[1250], 72, 32);
    let two = CoverFlight::from_chain(&[1250, 1100], 72, 32);
    assert_eq!(two.records[1], one.records[1] + 1100 + 5);
}

#[test]
fn a_decoy_keeps_its_blocks_in_order() {
    let decoy = Decoy {
        sni: catalog().validate("hauler.tools").unwrap(),
        elements: vec!["header".to_string(), "footer".to_string()],
    };
    assert_eq!(decoy.sni.as_str(), "hauler.tools");
    assert_eq!(decoy.elements, vec!["header", "footer"]);
}
