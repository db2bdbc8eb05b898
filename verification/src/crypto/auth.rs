//! Time-based tags: who does not know the key cannot make one, and a recorded one soon
//! expires.
//!
//! A tag is the front of an HMAC over the current time step. The tag of a hello covers the
//! hello's random bytes and the client's ephemeral key as well, so it fits no other
//! connection. A tag is accepted for a few steps around the current one, as clocks differ.

use vstd::prelude::*;

use crate::crypto::clock::now_unix_secs;
use crate::crypto::primitives::{ct_eq, ct_or, hmac, hmac_sha256};
use crate::net_consts::{AUTH_TIME_STEP, AUTH_WINDOW_SIZE};
use crate::utils::byte_order::{be64, take_array, u64_bytes};
use vstd::utf8::encode_utf8;

verus! {

/// The words that keep the tag of a hello apart from the tag of a frame.
pub const HANDSHAKE_DOMAIN: &'static str = "nrxp-handshake-v3";

/// The tag of a frame at a time step.
pub open spec fn frame_tag(key: Seq<u8>, step: u64) -> Seq<u8> {
    hmac_sha256(key, be64(step)).subrange(0, 16)
}

/// The tag of a hello at a time step.
pub open spec fn hello_tag(
    key: Seq<u8>,
    step: u64,
    random: Seq<u8>,
    peer_public: Seq<u8>,
) -> Seq<u8> {
    hmac_sha256(
        key,
        encode_utf8(HANDSHAKE_DOMAIN@) + be64(step) + random + peer_public,
    ).subrange(0, 16)
}

/// The time step of a moment.
pub open spec fn step_of(now: u64) -> u64 {
    now / AUTH_TIME_STEP
}

/// Whether a tag made at `step` is accepted at `current`.
pub open spec fn in_window(step: u64, current: u64) -> bool {
    current - AUTH_WINDOW_SIZE <= step <= current + AUTH_WINDOW_SIZE
}

/// Whether a frame's tag is accepted at a time step.
pub open spec fn frame_tag_accepted(key: Seq<u8>, tag: Seq<u8>, current: u64) -> bool {
    exists|step: u64| in_window(step, current) && tag == #[trigger] frame_tag(key, step)
}

/// Whether a hello's tag is accepted at a time step.
pub open spec fn hello_tag_accepted(
    key: Seq<u8>,
    tag: Seq<u8>,
    random: Seq<u8>,
    peer_public: Seq<u8>,
    current: u64,
) -> bool {
    exists|step: u64|
        in_window(step, current) && tag == #[trigger] hello_tag(key, step, random, peer_public)
}

/// The first and the last step that are accepted at `current`.
fn window(current: u64) -> (r: (u64, u64))
    ensures
        r.0 <= r.1,
        r.1 - r.0 <= 2 * AUTH_WINDOW_SIZE,
        forall|step: u64| r.0 <= step <= r.1 <==> #[trigger] in_window(step, current),
{
    (current.saturating_sub(AUTH_WINDOW_SIZE), current.saturating_add(AUTH_WINDOW_SIZE))
}

/// Makes and checks tags under one key.
#[derive(Clone, Copy)]
pub struct SessionAuth {
    auth_key: [u8; 32],
}

impl SessionAuth {
    /// The key.
    pub closed spec fn key(self) -> Seq<u8> {
        self.auth_key@
    }

    /// Tags under the given key.
    pub fn new(auth_key: [u8; 32]) -> (r: Self)
        ensures
            r.key() == auth_key@,
    {
        Self { auth_key }
    }

    /// The tag of a frame at a time step.
    pub fn compute_tag(secret: &[u8], step: u64) -> (r: [u8; 16])
        ensures
            r@ == frame_tag(secret@, step),
    {
        let message: [u8; 8] = u64_bytes(step);
        let code: [u8; 32] = hmac(secret, message.as_slice());
        take_array::<16>(code.as_slice(), 0)
    }

    /// The tag of a frame, now.
    pub fn generate_current_tag(&self) -> (r: [u8; 16])
        ensures
            exists|now: u64|
                call_ensures(now_unix_secs, (), now) && r@ == #[trigger] frame_tag(
                    self.key(),
                    step_of(now),
                ),
    {
        let now: u64 = now_unix_secs();
        let tag: [u8; 16] = Self::compute_tag(self.auth_key.as_slice(), now / AUTH_TIME_STEP);
        assert(tag@ == frame_tag(self.key(), step_of(now)));
        tag
    }

    /// The tag of a hello at a time step.
    pub fn compute_handshake_tag(
        secret: &[u8],
        step: u64,
        random: &[u8; 32],
        peer_public: &[u8; 32],
    ) -> (r: [u8; 16])
        ensures
            r@ == hello_tag(secret@, step, random@, peer_public@),
    {
        let mut message: Vec<u8> = Vec::new();
        message.extend_from_slice(HANDSHAKE_DOMAIN.as_bytes());
        let step_bytes: [u8; 8] = u64_bytes(step);
        message.extend_from_slice(step_bytes.as_slice());
        message.extend_from_slice(random.as_slice());
        message.extend_from_slice(peer_public.as_slice());
        assert(message@ =~= encode_utf8(HANDSHAKE_DOMAIN@) + be64(step) + random@ + peer_public@);
        let code: [u8; 32] = hmac(secret, message.as_slice());
        take_array::<16>(code.as_slice(), 0)
    }

    /// The tag of a hello, now.
    pub fn generate_handshake_tag(&self, random: &[u8; 32], peer_public: &[u8; 32]) -> (r: [u8; 16])
        ensures
            exists|now: u64|
                call_ensures(now_unix_secs, (), now) && r@ == #[trigger] hello_tag(
                    self.key(),
                    step_of(now),
                    random@,
                    peer_public@,
                ),
    {
        let now: u64 = now_unix_secs();
        let tag: [u8; 16] = Self::compute_handshake_tag(
            self.auth_key.as_slice(),
            now / AUTH_TIME_STEP,
            random,
            peer_public,
        );
        assert(tag@ == hello_tag(self.key(), step_of(now), random@, peer_public@));
        tag
    }

    /// Whether a hello's tag is accepted now.
    pub fn verify_handshake_tag(
        &self,
        received_tag: &[u8; 16],
        random: &[u8; 32],
        peer_public: &[u8; 32],
    ) -> (r: bool)
        ensures
            exists|now: u64|
                call_ensures(now_unix_secs, (), now) && r == #[trigger] hello_tag_accepted(
                    self.key(),
                    received_tag@,
                    random@,
                    peer_public@,
                    step_of(now),
                ),
    {
        let now: u64 = now_unix_secs();
        let ok: bool = self.verify_handshake_tag_at(
            received_tag,
            random,
            peer_public,
            now / AUTH_TIME_STEP,
        );
        assert(ok == hello_tag_accepted(
            self.key(),
            received_tag@,
            random@,
            peer_public@,
            step_of(now),
        ));
        ok
    }

    /// Whether a hello's tag is accepted at a time step. Every step of the window is tried,
    /// and nothing branches on whether one matched.
    pub fn verify_handshake_tag_at(
        &self,
        received_tag: &[u8; 16],
        random: &[u8; 32],
        peer_public: &[u8; 32],
        current_step: u64,
    ) -> (r: bool)
        ensures
            r == hello_tag_accepted(
                self.key(),
                received_tag@,
                random@,
                peer_public@,
                current_step,
            ),
    {
        let (first, last): (u64, u64) = window(current_step);
        let mut matched: u8 = 0;
        let mut tried: u64 = 0;
        while tried <= last - first
            invariant
                first <= last,
                last - first <= 2 * AUTH_WINDOW_SIZE,
                tried <= last - first + 1,
                matched <= 1,
                matched == 1 <==> exists|step: u64|
                    first <= step < first + tried && received_tag@ == #[trigger] hello_tag(
                        self.key(),
                        step,
                        random@,
                        peer_public@,
                    ),
            decreases last - first + 1 - tried,
        {
            let step: u64 = first + tried;
            let candidate: [u8; 16] = Self::compute_handshake_tag(
                self.auth_key.as_slice(),
                step,
                random,
                peer_public,
            );
            let equal: u8 = ct_eq(candidate.as_slice(), received_tag.as_slice());
            matched = ct_or(matched, equal);
            proof {
                if candidate@ == received_tag@ {
                    assert(received_tag@ == hello_tag(self.key(), step, random@, peer_public@));
                }
            }
            tried = tried + 1;
        }
        proof {
            if matched == 1 {
                let step = choose|step: u64|
                    first <= step < first + tried && received_tag@ == #[trigger] hello_tag(
                        self.key(),
                        step,
                        random@,
                        peer_public@,
                    );
                assert(in_window(step, current_step));
            }
        }
        matched == 1
    }

    /// Whether a frame's tag is accepted now.
    pub fn verify_tag(&self, received_tag: &[u8; 16]) -> (r: bool)
        ensures
            exists|now: u64|
                call_ensures(now_unix_secs, (), now) && r == #[trigger] frame_tag_accepted(
                    self.key(),
                    received_tag@,
                    step_of(now),
                ),
    {
        let now: u64 = now_unix_secs();
        let ok: bool = self.verify_tag_at(received_tag, now / AUTH_TIME_STEP);
        assert(ok == frame_tag_accepted(self.key(), received_tag@, step_of(now)));
        ok
    }

    /// Whether a frame's tag is accepted at a time step. Every step of the window is tried,
    /// and nothing branches on whether one matched.
    pub fn verify_tag_at(&self, received_tag: &[u8; 16], current_step: u64) -> (r: bool)
        ensures
            r == frame_tag_accepted(self.key(), received_tag@, current_step),
    {
        let (first, last): (u64, u64) = window(current_step);
        let mut matched: u8 = 0;
        let mut tried: u64 = 0;
        while tried <= last - first
            invariant
                first <= last,
                last - first <= 2 * AUTH_WINDOW_SIZE,
                tried <= last - first + 1,
                matched <= 1,
                matched == 1 <==> exists|step: u64|
                    first <= step < first + tried && received_tag@ == #[trigger] frame_tag(
                        self.key(),
                        step,
                    ),
            decreases last - first + 1 - tried,
        {
            let step: u64 = first + tried;
            let candidate: [u8; 16] = Self::compute_tag(self.auth_key.as_slice(), step);
            let equal: u8 = ct_eq(candidate.as_slice(), received_tag.as_slice());
            matched = ct_or(matched, equal);
            proof {
                if candidate@ == received_tag@ {
                    assert(received_tag@ == frame_tag(self.key(), step));
                }
            }
            tried = tried + 1;
        }
        proof {
            if matched == 1 {
                let step = choose|step: u64|
                    first <= step < first + tried && received_tag@ == #[trigger] frame_tag(
                        self.key(),
                        step,
                    );
                assert(in_window(step, current_step));
            }
        }
        matched == 1
    }
}

/// A tag is accepted at every step that is at most the window away from the one it was
/// made at.
pub proof fn lemma_tag_window(
    key: Seq<u8>,
    made: u64,
    current: u64,
    random: Seq<u8>,
    peer_public: Seq<u8>,
)
    requires
        current - AUTH_WINDOW_SIZE <= made <= current + AUTH_WINDOW_SIZE,
    ensures
        frame_tag_accepted(key, frame_tag(key, made), current),
        hello_tag_accepted(
            key,
            hello_tag(key, made, random, peer_public),
            random,
            peer_public,
            current,
        ),
{
    assert(in_window(made, current));
}

} // verus!
