//! Time-based tags.

use hmac::{Hmac, Mac};
use sha2::Sha256;

use netrunner_engine::crypto::auth::SessionAuth;
use netrunner_engine::crypto::clock::{now_unix_secs, unix_secs};
use netrunner_engine::net_consts::{AUTH_TIME_STEP, AUTH_WINDOW_SIZE};

/// Repeats a probe when the time step changed in the middle of it.
fn stable<T>(probe: impl Fn(u64) -> T) -> T {
    for _ in 0..8 {
        let before = now_unix_secs() / AUTH_TIME_STEP;
        let out = probe(before);
        if now_unix_secs() / AUTH_TIME_STEP == before {
            return out;
        }
    }
    panic!("the time step changed at every attempt");
}

#[test]
fn tag_is_accepted_across_the_whole_window() {
    let key = [7u8; 32];
    let auth = SessionAuth::new(key);

    let verdicts = stable(|step| {
        (0..=(2 * AUTH_WINDOW_SIZE))
            .map(|i| {
                let candidate = step.saturating_sub(AUTH_WINDOW_SIZE) + i;
                auth.verify_tag(&SessionAuth::compute_tag(&key, candidate))
            })
            .collect::<Vec<_>>()
    });

    assert!(verdicts.iter().all(|&ok| ok), "{verdicts:?}");
}

#[test]
fn tag_is_rejected_just_outside_the_window() {
    let key = [9u8; 32];
    let auth = SessionAuth::new(key);

    let (too_old, too_new) = stable(|step| {
        (
            auth.verify_tag(&SessionAuth::compute_tag(
                &key,
                step.saturating_sub(AUTH_WINDOW_SIZE + 1),
            )),
            auth.verify_tag(&SessionAuth::compute_tag(&key, step + AUTH_WINDOW_SIZE + 1)),
        )
    });

    assert!(!too_old, "step -(W+1) must be refused");
    assert!(!too_new, "step +(W+1) must be refused");
}

#[test]
fn tag_computed_with_another_key_is_rejected() {
    let auth = SessionAuth::new([1u8; 32]);
    let accepted = stable(|step| auth.verify_tag(&SessionAuth::compute_tag(&[2u8; 32], step)));
    assert!(!accepted, "another key must be refused");
}

#[test]
fn handshake_tag_is_accepted_across_the_whole_window() {
    let secret = [3u8; 32];
    let auth = SessionAuth::new(secret);
    let random = [4u8; 32];
    let peer_public = [5u8; 32];

    let verdicts = stable(|step| {
        (0..=(2 * AUTH_WINDOW_SIZE))
            .map(|i| {
                let candidate = step.saturating_sub(AUTH_WINDOW_SIZE) + i;
                auth.verify_handshake_tag(
                    &SessionAuth::compute_handshake_tag(&secret, candidate, &random, &peer_public),
                    &random,
                    &peer_public,
                )
            })
            .collect::<Vec<_>>()
    });

    assert!(verdicts.iter().all(|&ok| ok), "{verdicts:?}");
}

#[test]
fn frame_and_handshake_tags_do_not_collide_on_the_same_key_and_step() {
    let secret = [6u8; 32];
    let step = 30_000_000u64;

    assert_ne!(
        SessionAuth::compute_tag(&secret, step),
        SessionAuth::compute_handshake_tag(&secret, step, &[0u8; 32], &[0u8; 32]),
    );
}

#[test]
fn a_frame_tag_is_the_front_of_an_hmac() {
    let key = b"some key of any length at all";
    let mut mac = <Hmac<Sha256> as Mac>::new_from_slice(key).unwrap();
    mac.update(&7u64.to_be_bytes());
    let whole = mac.finalize().into_bytes();
    assert_eq!(SessionAuth::compute_tag(key, 7), whole[..16]);
    assert_ne!(SessionAuth::compute_tag(key, 8), whole[..16]);
}

#[test]
fn a_hello_tag_binds_domain_step_random_and_key() {
    let mut mac = <Hmac<Sha256> as Mac>::new_from_slice(&[3u8; 32]).unwrap();
    mac.update(b"nrxp-handshake-v3");
    mac.update(&7u64.to_be_bytes());
    mac.update(&[4u8; 32]);
    mac.update(&[5u8; 32]);
    let whole = mac.finalize().into_bytes();
    assert_eq!(
        SessionAuth::compute_handshake_tag(&[3u8; 32], 7, &[4u8; 32], &[5u8; 32]),
        whole[..16]
    );
}

#[test]
fn the_window_at_a_given_step_is_two_steps_to_either_side() {
    let key = [8u8; 32];
    let auth = SessionAuth::new(key);
    for made in 95u64..=105 {
        let tag = SessionAuth::compute_tag(&key, made);
        assert_eq!(auth.verify_tag_at(&tag, 100), (98..=102).contains(&made));
    }
}

#[test]
fn a_clock_set_before_1970_reads_zero() {
    assert_eq!(unix_secs(Some(1_700_000_000)), 1_700_000_000);
    assert_eq!(unix_secs(Some(u64::MAX)), u64::MAX);
    assert_eq!(unix_secs(None), 0);
}

#[test]
fn the_clock_is_that_of_the_system() {
    let system = || {
        std::time::SystemTime::now()
            .duration_since(std::time::UNIX_EPOCH)
            .unwrap_or_default()
            .as_secs()
    };
    let before = system();
    let now = now_unix_secs();
    assert!((before..=system()).contains(&now));
}
