//! The long-term credentials of a node: what makes the handshake authenticated.
//!
//! The secret is shared with every client and only keeps strangers out. The static key pair
//! is what authenticates: its private half never leaves the node, so nobody else can compute
//! the second exchange of the handshake.

use vstd::prelude::*;
use vstd::utf8::encode_utf8;

use crate::app_error::{AppError, ERR_AUTH_FAILED};
use crate::crypto::ecdh::ECDH;
use crate::crypto::hex::{
    decode, encode, hex_complaint, hex_decoded, lemma_hex_round_trip, lemma_hex_text_at,
};
use crate::crypto::primitives::{
    diffie_hellman, exchange_agrees, public_key_of, wipe, wipe_vec, x25519_public, x25519_shared,
};
use crate::utils::byte_order::take_array;
use crate::utils::text::{
    chars_of, decimal, hex_text, is_white_space, push_decimal, push_text, string_of, trim, trimmed,
};
use crate::utils::text_laws::lemma_trim_undoes_spaces;

verus! {

/// The key that a configuration text stands for: 64 hexadecimal digits, white space around
/// them aside.
pub open spec fn key_of_text(value: Seq<char>) -> Option<Seq<u8>> {
    match hex_decoded(encode_utf8(trimmed(value))) {
        Some(bytes) if bytes.len() == 32 => Some(bytes),
        _ => None,
    }
}

/// What is logged of a configuration text that is no key.
pub open spec fn key_complaint(what: Seq<char>, value: Seq<char>) -> Seq<char> {
    let text = encode_utf8(trimmed(value));
    match hex_decoded(text) {
        Some(bytes) => what + ": ожидалось 32 байта (64 hex-символа), получено "@ + decimal(
            bytes.len(),
        ),
        None => what + ": ожидался hex, "@ + hex_complaint(text),
    }
}

/// Reads a key of 32 bytes from a configuration text.
pub fn parse_key_hex(what: &str, value: &str) -> (r: Result<[u8; 32], AppError>)
    ensures
        match key_of_text(value@) {
            Some(key) => r matches Ok(k) && k@ == key,
            None => r matches Err(e) && e.is_plain(
                ERR_AUTH_FAILED@,
                "Ошибка конфигурации"@,
                key_complaint(what@, value@),
            ),
        },
{
    let text: String = string_of(&trim(&chars_of(value)));
    match decode(text.as_str()) {
        Err(e) => {
            let mut msg: Vec<char> = chars_of(what);
            push_text(&mut msg, ": ожидался hex, ");
            push_text(&mut msg, e.as_str());
            assert(msg@ =~= key_complaint(what@, value@));
            let msg: String = string_of(&msg);
            Err(AppError::new(ERR_AUTH_FAILED, "Ошибка конфигурации", msg.as_str()))
        },
        Ok(raw) => {
            let mut raw: Vec<u8> = raw;
            if raw.len() != 32 {
                let mut msg: Vec<char> = chars_of(what);
                push_text(&mut msg, ": ожидалось 32 байта (64 hex-символа), получено ");
                push_decimal(&mut msg, raw.len());
                assert(msg@ =~= key_complaint(what@, value@));
                let msg: String = string_of(&msg);
                wipe_vec(&mut raw);
                return Err(AppError::new(ERR_AUTH_FAILED, "Ошибка конфигурации", msg.as_str()));
            }
            let key: [u8; 32] = take_array::<32>(raw.as_slice(), 0);
            assert(key@ =~= raw@);
            wipe_vec(&mut raw);
            Ok(key)
        },
    }
}

/// What a client knows of its node.
#[derive(Clone)]
pub struct PeerIdentity {
    secret: [u8; 32],
    static_public: [u8; 32],
}

impl PeerIdentity {
    /// The secret of the node.
    pub closed spec fn secret(self) -> Seq<u8> {
        self.secret@
    }

    /// The public half of the node's static pair.
    pub closed spec fn static_public(self) -> Seq<u8> {
        self.static_public@
    }

    /// Reads the secret and the public key of a node.
    pub fn from_hex(secret_hex: &str, public_hex: &str) -> (r: Result<Self, AppError>)
        ensures
            match (key_of_text(secret_hex@), key_of_text(public_hex@)) {
                (Some(secret), Some(public)) => r matches Ok(id) && id.secret() == secret
                    && id.static_public() == public,
                (None, _) => r matches Err(e) && e.is_plain(
                    ERR_AUTH_FAILED@,
                    "Ошибка конфигурации"@,
                    key_complaint("nrxp_secret"@, secret_hex@),
                ),
                (Some(_), None) => r matches Err(e) && e.is_plain(
                    ERR_AUTH_FAILED@,
                    "Ошибка конфигурации"@,
                    key_complaint("nrxp_static_public"@, public_hex@),
                ),
            },
    {
        let secret: [u8; 32] = match parse_key_hex("nrxp_secret", secret_hex) {
            Ok(key) => key,
            Err(e) => {
                return Err(e);
            },
        };
        let static_public: [u8; 32] = match parse_key_hex("nrxp_static_public", public_hex) {
            Ok(key) => key,
            Err(e) => {
                return Err(e);
            },
        };
        Ok(Self { secret, static_public })
    }
}

/// What a node knows of itself.
#[derive(Clone)]
pub struct LocalIdentity {
    secret: [u8; 32],
    static_private: [u8; 32],
    strict: bool,
}

impl LocalIdentity {
    /// The secret of the node.
    pub closed spec fn secret(self) -> Seq<u8> {
        self.secret@
    }

    /// The private half of the node's static pair.
    pub closed spec fn static_private(self) -> Seq<u8> {
        self.static_private@
    }

    /// Whether clients without credentials are turned away.
    pub closed spec fn is_strict(self) -> bool {
        self.strict
    }

    /// Reads the secret and the private key of a node. `strict` turns away clients that
    /// have no credentials yet.
    pub fn from_hex(secret_hex: &str, private_hex: &str, strict: bool) -> (r: Result<
        Self,
        AppError,
    >)
        ensures
            match (key_of_text(secret_hex@), key_of_text(private_hex@)) {
                (Some(secret), Some(private)) => r matches Ok(id) && id.secret() == secret
                    && id.static_private() == private && id.is_strict() == strict,
                (None, _) => r matches Err(e) && e.is_plain(
                    ERR_AUTH_FAILED@,
                    "Ошибка конфигурации"@,
                    key_complaint("nrxp_secret"@, secret_hex@),
                ),
                (Some(_), None) => r matches Err(e) && e.is_plain(
                    ERR_AUTH_FAILED@,
                    "Ошибка конфигурации"@,
                    key_complaint("nrxp_static_private"@, private_hex@),
                ),
            },
    {
        let secret: [u8; 32] = match parse_key_hex("nrxp_secret", secret_hex) {
            Ok(key) => key,
            Err(e) => {
                return Err(e);
            },
        };
        let static_private: [u8; 32] = match parse_key_hex("nrxp_static_private", private_hex) {
            Ok(key) => key,
            Err(e) => {
                return Err(e);
            },
        };
        Ok(Self { secret, static_private, strict })
    }

    /// The public half of the static pair in hexadecimal, to be compared with what the
    /// clients are given.
    pub fn public_key_hex(&self) -> (r: String)
        ensures
            r@ == hex_text(x25519_public(self.static_private())),
    {
        let public: [u8; 32] = public_key_of(&self.static_private);
        encode(public.as_slice())
    }
}

/// The credentials of one side of a handshake.
#[derive(Clone)]
pub enum Identity {
    /// The client's side.
    Peer(PeerIdentity),
    /// The node's side.
    Local(LocalIdentity),
}

impl Drop for PeerIdentity {
    fn drop(&mut self)
        opens_invariants none
        no_unwind
    {
        wipe(&mut self.secret);
    }
}

impl Drop for LocalIdentity {
    fn drop(&mut self)
        opens_invariants none
        no_unwind
    {
        wipe(&mut self.secret);
        wipe(&mut self.static_private);
    }
}

impl Identity {
    /// The secret of the node.
    pub open spec fn node_secret(self) -> Seq<u8> {
        match self {
            Identity::Peer(p) => p.secret(),
            Identity::Local(l) => l.secret(),
        }
    }

    /// The second exchange of the handshake: the client's ephemeral secret with the node's
    /// static key, from whichever side.
    pub open spec fn second_exchange(self, ephemeral: Option<Seq<u8>>, peer: Seq<u8>) -> Option<
        Seq<u8>,
    > {
        match self {
            Identity::Peer(p) => match ephemeral {
                Some(secret) => Some(x25519_shared(secret, p.static_public())),
                None => None,
            },
            Identity::Local(l) => Some(x25519_shared(l.static_private(), peer)),
        }
    }

    /// Whether the second exchange gives what the other side computes.
    pub open spec fn second_agrees(self, ephemeral: Option<Seq<u8>>, peer: Seq<u8>) -> bool {
        match self {
            Identity::Peer(p) => ephemeral matches Some(secret) ==> exchange_agrees(
                secret,
                p.static_public(),
            ),
            Identity::Local(l) => exchange_agrees(l.static_private(), peer),
        }
    }

    /// Whether peers without credentials are turned away: a client always does so.
    pub open spec fn turns_away(self) -> bool {
        match self {
            Identity::Peer(_) => true,
            Identity::Local(l) => l.is_strict(),
        }
    }

    /// The secret of the node.
    pub fn secret(&self) -> (r: &[u8; 32])
        ensures
            r@ == self.node_secret(),
    {
        match self {
            Identity::Peer(p) => &p.secret,
            Identity::Local(l) => &l.secret,
        }
    }

    /// The second exchange of the handshake; `None` once the ephemeral secret is burnt, and
    /// then only for the client.
    pub fn static_dh(&self, ecdh: &ECDH, peer_ephemeral: &[u8; 32]) -> (r: Option<[u8; 32]>)
        ensures
            match self.second_exchange(ecdh.secret(), peer_ephemeral@) {
                Some(shared) => r matches Some(s) && s@ == shared,
                None => r is None,
            },
            self.second_agrees(ecdh.secret(), peer_ephemeral@),
    {
        match self {
            Identity::Peer(p) => ecdh.dh(&p.static_public),
            Identity::Local(l) => Some(diffie_hellman(&l.static_private, peer_ephemeral)),
        }
    }

    /// Whether peers without credentials are turned away.
    pub fn strict(&self) -> (r: bool)
        ensures
            r == self.turns_away(),
    {
        match self {
            Identity::Peer(_) => true,
            Identity::Local(l) => l.strict,
        }
    }
}

/// A key is read back from the text that it is written as, with whatever white space around
/// it.
pub proof fn lemma_key_read_back(front: Seq<char>, key: Seq<u8>, behind: Seq<char>)
    requires
        key.len() == 32,
        forall|i: int| 0 <= i < front.len() ==> is_white_space(#[trigger] front[i]),
        forall|i: int| 0 <= i < behind.len() ==> is_white_space(#[trigger] behind[i]),
    ensures
        key_of_text(front + hex_text(key) + behind) == Some(key),
{
    lemma_hex_text_at(key, 0);
    lemma_hex_text_at(key, 31);
    lemma_trim_undoes_spaces(front, hex_text(key), behind);
    lemma_hex_round_trip(key);
}

/// Every key has 32 bytes, and its text 64 digits, white space around them aside. A text of
/// another length, or with anything else in it, is no key.
pub proof fn lemma_key_texts(value: Seq<char>)
    ensures
        key_of_text(value) matches Some(key) ==> key.len() == 32 && encode_utf8(
            trimmed(value),
        ).len() == 64 && hex_decoded(encode_utf8(trimmed(value))) == Some(key),
        encode_utf8(trimmed(value)).len() != 64 ==> key_of_text(value) is None,
        hex_decoded(encode_utf8(trimmed(value))) is None ==> key_of_text(value) is None,
{
}

/// A client accepts no peer without credentials, and a node only when it is not strict.
pub proof fn lemma_who_is_turned_away(id: Identity)
    ensures
        id is Peer ==> id.turns_away(),
        id matches Identity::Local(l) ==> id.turns_away() == l.is_strict(),
        id matches Identity::Peer(p) ==> id.node_secret() == p.secret(),
        id matches Identity::Local(l) ==> id.node_secret() == l.secret(),
{
}

/// What is logged of a text that is no key: how many bytes it has, or why it is no hexadecimal.
pub proof fn lemma_key_complaints(what: Seq<char>, value: Seq<char>)
    ensures
        match hex_decoded(encode_utf8(trimmed(value))) {
            Some(bytes) => key_complaint(what, value) == what
                + ": ожидалось 32 байта (64 hex-символа), получено "@ + decimal(bytes.len()),
            None => key_complaint(what, value) == what + ": ожидался hex, "@ + hex_complaint(
                encode_utf8(trimmed(value)),
            ),
        },
{
}

} // verus!
