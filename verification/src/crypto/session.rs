//! The handshake of one side: from the salts and the key exchange to the session keys.
//!
//! Both sides concatenate the salts in the same order and run the same exchange, so they
//! derive the same five keys; the role says which pair is for sending and which for
//! receiving.

use bytes::Bytes;
use vstd::prelude::*;
use vstd::utf8::encode_utf8;

use crate::app_error::{AppError, ERR_NET_TLS_TAMPER};
use crate::buffers::bytes_slice;
use crate::crypto::auth::{
    frame_tag, frame_tag_accepted, hello_tag, hello_tag_accepted, step_of, SessionAuth,
};
use crate::crypto::clock::now_unix_secs;
use crate::crypto::ecdh::ECDH;
use crate::crypto::hex::encode;
use crate::crypto::hkdf::{Extracted, HKDF};
use crate::crypto::identity::Identity;
use crate::crypto::primitives::{
    exchange_agrees, hkdf_expand, hkdf_extract, wipe, wipe_vec, x25519_public, x25519_shared,
};
use crate::entropy::system_bytes;
use crate::net_consts::{
    AUTH_TIME_STEP, MIN_VERSION_FOR_STATIC_DH, PROTOCOL_VERSION, PROTOCOL_VERSION_ANONYMOUS,
};
use crate::tlseng::extension::{first_of, ExtensionStack};
use crate::tlseng::types::{TlsExtensions, TlsGroups};
use crate::utils::byte_order::{read_u16, slice_range, take_array, u16_at, zeros};
use crate::utils::text::{chars_of, decimal, hex_text, push_decimal, string_of};

verus! {

/// The words that go into the key material together with the two exchanges.
pub const IKM_DOMAIN_V3: &'static str = "nrxp-v3-static-dh";

/// The length of an X25519 key.
pub const X25519_LEN: usize = 32;

/// Both salts in the order that either side arrives at: the initiator's first.
pub open spec fn total_salt(local: Seq<u8>, remote: Seq<u8>, is_initiator: bool) -> Seq<u8> {
    if is_initiator {
        local + remote
    } else {
        remote + local
    }
}

/// The salts of both sides.
pub struct SaltPair {
    local_salt: [u8; 32],
    remote_salt: [u8; 32],
    is_initiator: bool,
}

impl SaltPair {
    /// One's own salt.
    pub closed spec fn local(self) -> Seq<u8> {
        self.local_salt@
    }

    /// The salt of the other side; zeros until it is known.
    pub closed spec fn remote(self) -> Seq<u8> {
        self.remote_salt@
    }

    /// Whether this side started the handshake.
    pub closed spec fn initiator(self) -> bool {
        self.is_initiator
    }

    /// A fresh salt, for one of the roles.
    pub fn new(is_initiator: bool) -> (r: Self)
        ensures
            r.local().len() == 32,
            r.remote() == zeros(32),
            r.initiator() == is_initiator,
            exists|drawn: Vec<u8>| #[trigger]
                call_ensures(system_bytes, (32usize,), drawn) && r.local() == drawn@,
    {
        let random: Vec<u8> = system_bytes(32);
        let local_salt: [u8; 32] = take_array::<32>(random.as_slice(), 0);
        assert(local_salt@ =~= random@);
        let remote_salt: [u8; 32] = [0u8; 32];
        assert(remote_salt@ =~= zeros(32));
        Self { local_salt, remote_salt, is_initiator }
    }

    /// One's own salt.
    pub fn get_local(&self) -> (r: [u8; 32])
        ensures
            r@ == self.local(),
    {
        self.local_salt
    }

    /// Notes the salt of the other side.
    pub fn set_remote_salt(&mut self, salt: [u8; 32])
        ensures
            final(self).remote() == salt@,
            final(self).local() == old(self).local(),
            final(self).initiator() == old(self).initiator(),
    {
        self.remote_salt = salt;
    }

    /// Both salts, the initiator's first.
    pub fn get_total(&self) -> (r: [u8; 64])
        ensures
            r@ == total_salt(self.local(), self.remote(), self.initiator()),
    {
        let mut salt: Vec<u8> = Vec::new();
        if self.is_initiator {
            salt.extend_from_slice(self.local_salt.as_slice());
            salt.extend_from_slice(self.remote_salt.as_slice());
        } else {
            salt.extend_from_slice(self.remote_salt.as_slice());
            salt.extend_from_slice(self.local_salt.as_slice());
        }
        assert(salt@ =~= total_salt(self.local(), self.remote(), self.initiator()));
        let total: [u8; 64] = take_array::<64>(salt.as_slice(), 0);
        assert(total@ =~= salt@);
        total
    }
}

/// Two sides that know each other's salt arrive at the same total.
pub proof fn lemma_total_salt_symmetric(ours: Seq<u8>, theirs: Seq<u8>)
    ensures
        total_salt(ours, theirs, true) == total_salt(theirs, ours, false),
{
}

/// The keys and base IVs of both directions: `(tx_key, tx_iv, rx_key, rx_iv)`.
pub type DirectionalAeadKeys = ([u8; 32], [u8; 12], [u8; 32], [u8; 12]);

/// The keys and base IVs of both directions, as bytes.
pub struct DirectionalView {
    /// The key for sending.
    pub tx_key: Seq<u8>,
    /// The base IV for sending.
    pub tx_iv: Seq<u8>,
    /// The key for receiving.
    pub rx_key: Seq<u8>,
    /// The base IV for receiving.
    pub rx_iv: Seq<u8>,
}

/// The bytes of keys and base IVs.
pub open spec fn directional_view(keys: DirectionalAeadKeys) -> DirectionalView {
    DirectionalView { tx_key: keys.0@, tx_iv: keys.1@, rx_key: keys.2@, rx_iv: keys.3@ }
}

/// The keys that a pseudorandom key gives in a role.
pub open spec fn directional_keys(prk: Seq<u8>, is_server: bool) -> DirectionalView {
    let c_key = hkdf_expand(prk, encode_utf8("client_aead"@), 32);
    let c_iv = hkdf_expand(prk, encode_utf8("client_iv"@), 12);
    let s_key = hkdf_expand(prk, encode_utf8("server_aead"@), 32);
    let s_iv = hkdf_expand(prk, encode_utf8("server_iv"@), 12);
    if is_server {
        DirectionalView { tx_key: s_key, tx_iv: s_iv, rx_key: c_key, rx_iv: c_iv }
    } else {
        DirectionalView { tx_key: c_key, tx_iv: c_iv, rx_key: s_key, rx_iv: s_iv }
    }
}

/// The key of the tags that a pseudorandom key gives.
pub open spec fn auth_key_of(prk: Seq<u8>) -> Seq<u8> {
    hkdf_expand(prk, encode_utf8("auth_key"@), 32)
}

/// Everything that one side of a handshake knows.
pub struct SessionView {
    /// One's own salt.
    pub local_salt: Seq<u8>,
    /// The salt of the other side.
    pub remote_salt: Seq<u8>,
    /// Whether this side started the handshake.
    pub is_initiator: bool,
    /// The ephemeral secret, as long as it lives.
    pub secret: Option<Seq<u8>>,
    /// The ephemeral public key.
    pub public: Seq<u8>,
    /// The key of the tags; zeros before the handshake.
    pub auth_key: Seq<u8>,
    /// The keys of both directions, after the handshake.
    pub aead: Option<DirectionalView>,
    /// The credentials, if there are any.
    pub identity: Option<Identity>,
    /// The protocol version of the other side.
    pub peer_version: u8,
    /// The pseudorandom key, after the handshake.
    pub root: Option<Seq<u8>>,
}

impl SessionView {
    /// Whether the static key takes part: there are credentials, and the other side is new
    /// enough.
    pub open spec fn static_exchange(self) -> bool {
        self.identity is Some && self.peer_version >= MIN_VERSION_FOR_STATIC_DH
    }

    /// Whether a peer without credentials is turned away.
    pub open spec fn turns_away(self) -> bool {
        self.identity matches Some(id) && id.turns_away()
    }

    /// The input key material with the peer whose public key is `peer`: the ephemeral
    /// exchange, and with it the static one and the domain where the static key takes part.
    pub open spec fn key_material(self, peer: Seq<u8>) -> Seq<u8> {
        let ephemeral = x25519_shared(self.secret->Some_0, peer);
        if self.static_exchange() {
            ephemeral + self.identity->Some_0.second_exchange(self.secret, peer)->Some_0
                + encode_utf8(IKM_DOMAIN_V3@)
        } else {
            ephemeral
        }
    }

    /// The pseudorandom key with the peer whose public key is `peer`.
    pub open spec fn pseudorandom_key(self, peer: Seq<u8>) -> Seq<u8> {
        hkdf_extract(
            total_salt(self.local_salt, self.remote_salt, self.is_initiator),
            self.key_material(peer),
        )
    }

    /// The same side, once the keys are derived with the peer whose public key is `peer`.
    pub open spec fn established(self, peer: Seq<u8>, is_server: bool) -> Self {
        let prk = self.pseudorandom_key(peer);
        SessionView {
            secret: None,
            auth_key: auth_key_of(prk),
            aead: Some(directional_keys(prk, is_server)),
            root: Some(prk),
            ..self
        }
    }

    /// Whether the exchanges with `peer` give what the other side computes.
    pub open spec fn agrees(self, peer: Seq<u8>) -> bool {
        &&& self.secret matches Some(s) ==> exchange_agrees(s, peer)
        &&& self.static_exchange() ==> self.identity->Some_0.second_agrees(self.secret, peer)
    }

    /// Whether the two halves of the ephemeral pair belong together, and everything has its
    /// length.
    pub open spec fn wf(self) -> bool {
        &&& self.local_salt.len() == 32
        &&& self.remote_salt.len() == 32
        &&& self.public.len() == 32
        &&& self.auth_key.len() == 32
        &&& self.secret matches Some(s) ==> s.len() == 32 && self.public == x25519_public(s)
        &&& self.aead is Some <==> self.root is Some
    }
}

/// Whether a client and a server hold the same keys: what one sends with is what the other
/// receives with.
pub open spec fn keys_match(client: SessionView, server: SessionView) -> bool {
    &&& client.root is Some
    &&& client.root == server.root
    &&& client.auth_key == server.auth_key
    &&& client.aead matches Some(c) && server.aead matches Some(s) && {
        &&& c.tx_key == s.rx_key
        &&& c.tx_iv == s.rx_iv
        &&& c.rx_key == s.tx_key
        &&& c.rx_iv == s.tx_iv
    }
}

/// Two sides that know each other's salt and ephemeral key derive the same keys, what one
/// sends with being what the other receives with. With the static key it takes the client's
/// public half and the node's private half of one pair.
pub proof fn lemma_both_sides_agree(client: SessionView, server: SessionView)
    requires
        client.wf(),
        server.wf(),
        client.is_initiator,
        !server.is_initiator,
        client.secret is Some,
        server.secret is Some,
        client.remote_salt == server.local_salt,
        server.remote_salt == client.local_salt,
        client.agrees(server.public) || server.agrees(client.public),
        client.static_exchange() == server.static_exchange(),
        client.static_exchange() ==> {
            &&& client.identity matches Some(Identity::Peer(p))
            &&& server.identity matches Some(Identity::Local(l))
            &&& l.static_private().len() == 32
            &&& p.static_public() == x25519_public(l.static_private())
        },
    ensures
        keys_match(
            client.established(server.public, false),
            server.established(client.public, true),
        ),
{
    let a = client.secret->Some_0;
    let b = server.secret->Some_0;
    lemma_total_salt_symmetric(client.local_salt, server.local_salt);
    assert(server.public == x25519_public(b));
    assert(client.public == x25519_public(a));
    assert(x25519_shared(a, server.public) == x25519_shared(b, client.public));
    if client.static_exchange() {
        let l = server.identity->Some_0->Local_0;
        if client.agrees(server.public) {
            assert(client.identity->Some_0.second_agrees(client.secret, server.public));
            assert(exchange_agrees(a, x25519_public(l.static_private())));
        } else {
            assert(server.identity->Some_0.second_agrees(server.secret, client.public));
            assert(exchange_agrees(l.static_private(), x25519_public(a)));
        }
        assert(client.identity->Some_0.second_exchange(client.secret, server.public)
            == server.identity->Some_0.second_exchange(server.secret, client.public));
    }
    assert(client.key_material(server.public) == server.key_material(client.public));
    assert(client.pseudorandom_key(server.public) == server.pseudorandom_key(client.public));
}

/// What deriving the keys with the peer whose public key is `peer` does. It works once: the
/// ephemeral secret is destroyed with it.
pub open spec fn keys_generated(
    before: SessionView,
    peer: Seq<u8>,
    is_server: bool,
    r: Result<DirectionalAeadKeys, AppError>,
    after: SessionView,
) -> bool {
    if before.secret is None {
        &&& r matches Err(e) && e.is_plain(ERR_NET_TLS_TAMPER@, "Сбой"@, "No shared secret"@)
        &&& after == before
    } else {
        &&& r matches Ok(keys) && Some(directional_view(keys)) == after.aead
        &&& after == before.established(peer, is_server)
        &&& before.agrees(peer)
    }
}

/// Two sides that know each other's salt and derive the keys with each other's public key both
/// succeed: what the client sends with is what the server receives with and the other way
/// round, the tags have the same key, and the keys are those that each side then holds. With
/// the static key it takes the client's public half and the node's private half of one pair.
pub proof fn lemma_generated_keys_agree(
    client: SessionView,
    client_keys: Result<DirectionalAeadKeys, AppError>,
    client_after: SessionView,
    server: SessionView,
    server_keys: Result<DirectionalAeadKeys, AppError>,
    server_after: SessionView,
)
    requires
        client.wf(),
        server.wf(),
        client.is_initiator,
        !server.is_initiator,
        client.secret is Some,
        server.secret is Some,
        client.remote_salt == server.local_salt,
        server.remote_salt == client.local_salt,
        client.static_exchange() == server.static_exchange(),
        client.static_exchange() ==> {
            &&& client.identity matches Some(Identity::Peer(p))
            &&& server.identity matches Some(Identity::Local(l))
            &&& l.static_private().len() == 32
            &&& p.static_public() == x25519_public(l.static_private())
        },
        keys_generated(client, server.public, false, client_keys, client_after),
        keys_generated(server, client.public, true, server_keys, server_after),
    ensures
        client_keys matches Ok(c) && server_keys matches Ok(s) && {
            &&& c.0@ == s.2@
            &&& c.1@ == s.3@
            &&& c.2@ == s.0@
            &&& c.3@ == s.1@
            &&& client_after.aead == Some(directional_view(c))
            &&& server_after.aead == Some(directional_view(s))
        },
        client_after.auth_key == server_after.auth_key,
        keys_match(client_after, server_after),
{
    lemma_both_sides_agree(client, server);
}

/// Keys are derived once: a second attempt fails, whoever the peer is, and changes nothing.
pub proof fn lemma_keys_are_generated_once(
    before: SessionView,
    peer: Seq<u8>,
    is_server: bool,
    keys: Result<DirectionalAeadKeys, AppError>,
    after: SessionView,
    other: Seq<u8>,
    again_server: bool,
    again: Result<DirectionalAeadKeys, AppError>,
    last: SessionView,
)
    requires
        keys_generated(before, peer, is_server, keys, after),
        keys_generated(after, other, again_server, again, last),
    ensures
        again matches Err(e) && e.is_plain(ERR_NET_TLS_TAMPER@, "Сбой"@, "No shared secret"@),
        last == after,
{
}

/// Why a hello holds no usable public key.
pub enum ShareFault {
    /// No `key_share` at all.
    Missing,
    /// The client's list has no length.
    ClientShort(nat),
    /// The client's list reaches beyond the extension.
    ListTooLong,
    /// The client's list has no X25519 entry.
    NoX25519,
    /// The server's entry is too short.
    ServerShort,
    /// The server's key has another length.
    ServerLength(nat),
    /// The key is all zeros.
    AllZeros,
}

impl ShareFault {
    /// The text for people.
    pub open spec fn user_text(self) -> Seq<char> {
        match self {
            ShareFault::AllZeros => "Ошибка шифрования"@,
            _ => "Ошибка маскировки"@,
        }
    }

    /// The text for logs.
    pub open spec fn log_text(self) -> Seq<char> {
        match self {
            ShareFault::Missing => "No KeyShare extension found in handshake"@,
            ShareFault::ClientShort(n) => "Client KeyShare too short: "@ + decimal(n),
            ShareFault::ListTooLong => "KeyShare list_len exceeds extension body"@,
            ShareFault::NoX25519 => "Could not find x25519 key in ClientHello"@,
            ShareFault::ServerShort => "Server KeyShare too short"@,
            ShareFault::ServerLength(n) => "Server KeyShare has unexpected key length "@ + decimal(
                n,
            ),
            ShareFault::AllZeros => "Extracted remote public key is all ZEROS!"@,
        }
    }
}

/// The first X25519 key of the right length in a list of `group | length | key` entries.
/// An entry that reaches beyond the list ends the search.
pub open spec fn x25519_in(list: Seq<u8>) -> Option<Seq<u8>>
    decreases list.len(),
{
    if list.len() < 4 || 4 + u16_at(list, 2) > list.len() {
        None
    } else if u16_at(list, 0) == TlsGroups::X25519 && u16_at(list, 2) == X25519_LEN {
        Some(list.subrange(4, 36))
    } else {
        x25519_in(list.subrange(4 + u16_at(list, 2), list.len() as int))
    }
}

/// The public key in the data of a `key_share`. A client sends a list behind its length, a
/// server a single entry.
pub open spec fn share_key(data: Seq<u8>, from_client: bool) -> Result<Seq<u8>, ShareFault> {
    if from_client {
        if data.len() < 2 {
            Err(ShareFault::ClientShort(data.len()))
        } else if 2 + u16_at(data, 0) > data.len() {
            Err(ShareFault::ListTooLong)
        } else {
            match x25519_in(data.subrange(2, 2 + u16_at(data, 0))) {
                Some(key) => Ok(key),
                None => Err(ShareFault::NoX25519),
            }
        }
    } else if data.len() < 36 {
        Err(ShareFault::ServerShort)
    } else if u16_at(data, 2) != X25519_LEN {
        Err(ShareFault::ServerLength(u16_at(data, 2) as nat))
    } else {
        Ok(data.subrange(4, 36))
    }
}

/// The public key that a hello's extensions carry, if there is one that is not all zeros.
pub open spec fn peer_share(entries: Seq<(u16, Seq<u8>)>, from_client: bool) -> Result<
    Seq<u8>,
    ShareFault,
> {
    match first_of(entries, TlsExtensions::KEY_SHARE) {
        None => Err(ShareFault::Missing),
        Some(data) => match share_key(data, from_client) {
            Ok(key) => if key == zeros(32) {
                Err(ShareFault::AllZeros)
            } else {
                Ok(key)
            },
            Err(fault) => Err(fault),
        },
    }
}

/// Whether `e` is the error that a fault is reported as.
pub open spec fn fault_error(fault: ShareFault, e: AppError) -> bool {
    e.is_plain(ERR_NET_TLS_TAMPER@, fault.user_text(), fault.log_text())
}

/// One side of a handshake.
pub struct SessionKeys {
    salt: SaltPair,
    ecdh: ECDH,
    auth_key: [u8; 32],
    current_aead: Option<DirectionalAeadKeys>,
    identity: Option<Identity>,
    peer_version: u8,
    datagram_root: Option<[u8; 32]>,
}

impl View for SessionKeys {
    type V = SessionView;

    closed spec fn view(&self) -> SessionView {
        SessionView {
            local_salt: self.salt.local(),
            remote_salt: self.salt.remote(),
            is_initiator: self.salt.initiator(),
            secret: self.ecdh.secret(),
            public: self.ecdh.public(),
            auth_key: self.auth_key@,
            aead: match self.current_aead {
                Some(keys) => Some(directional_view(keys)),
                None => None,
            },
            identity: self.identity,
            peer_version: self.peer_version,
            root: match self.datagram_root {
                Some(root) => Some(root@),
                None => None,
            },
        }
    }
}

/// Whether `view` is that of a side before the handshake.
pub open spec fn fresh(
    view: SessionView,
    is_initiator: bool,
    identity: Option<Identity>,
    peer_version: u8,
) -> bool {
    &&& view.wf()
    &&& view.remote_salt == zeros(32)
    &&& view.is_initiator == is_initiator
    &&& view.secret is Some
    &&& view.auth_key == zeros(32)
    &&& view.aead is None
    &&& view.identity == identity
    &&& view.peer_version == peer_version
}

impl SessionKeys {
    /// A side without credentials.
    pub fn new(is_initiator: bool) -> (r: Self)
        ensures
            fresh(r@, is_initiator, None, PROTOCOL_VERSION_ANONYMOUS),
            exists|salt: Vec<u8>, seed: Vec<u8>| #[trigger]
                call_ensures(system_bytes, (32usize,), salt) && #[trigger] call_ensures(
                    system_bytes,
                    (32usize,),
                    seed,
                ) && r@.local_salt == salt@ && r@.secret == Some(seed@),
            exists|pair: SaltPair, ecdh: ECDH| #[trigger]
                call_ensures(SaltPair::new, (is_initiator,), pair) && #[trigger] call_ensures(
                    ECDH::new,
                    (),
                    ecdh,
                ) && r@.local_salt == pair.local() && r@.secret == ecdh.secret() && r@.public
                    == ecdh.public(),
    {
        let auth_key: [u8; 32] = [0u8; 32];
        assert(auth_key@ =~= zeros(32));
        let salt: SaltPair = SaltPair::new(is_initiator);
        let ecdh: ECDH = ECDH::new();
        assert(call_ensures(SaltPair::new, (is_initiator,), salt));
        assert(call_ensures(ECDH::new, (), ecdh));
        Self {
            salt,
            ecdh,
            auth_key,
            current_aead: None,
            identity: None,
            peer_version: PROTOCOL_VERSION_ANONYMOUS,
            datagram_root: None,
        }
    }

    /// A side with credentials.
    pub fn with_identity(is_initiator: bool, identity: Identity) -> (r: Self)
        ensures
            fresh(r@, is_initiator, Some(identity), PROTOCOL_VERSION),
            exists|salt: Vec<u8>, seed: Vec<u8>| #[trigger]
                call_ensures(system_bytes, (32usize,), salt) && #[trigger] call_ensures(
                    system_bytes,
                    (32usize,),
                    seed,
                ) && r@.local_salt == salt@ && r@.secret == Some(seed@),
            exists|pair: SaltPair, ecdh: ECDH| #[trigger]
                call_ensures(SaltPair::new, (is_initiator,), pair) && #[trigger] call_ensures(
                    ECDH::new,
                    (),
                    ecdh,
                ) && r@.local_salt == pair.local() && r@.secret == ecdh.secret() && r@.public
                    == ecdh.public(),
    {
        let mut keys: Self = Self::new(is_initiator);
        keys.identity = Some(identity);
        keys.peer_version = PROTOCOL_VERSION;
        keys
    }

    /// The version that this side claims: the newest with credentials, the anonymous one
    /// without.
    pub fn claimed_version(&self) -> (r: u8)
        ensures
            r == (if self@.identity is Some {
                PROTOCOL_VERSION
            } else {
                PROTOCOL_VERSION_ANONYMOUS
            }),
    {
        match self.identity {
            Some(_) => PROTOCOL_VERSION,
            None => PROTOCOL_VERSION_ANONYMOUS,
        }
    }

    /// Notes the version that the other side claims.
    pub fn set_peer_version(&mut self, version: u8)
        ensures
            final(self)@ == (SessionView { peer_version: version, ..old(self)@ }),
    {
        self.peer_version = version;
    }

    /// Whether the static key takes part.
    pub fn uses_static_dh(&self) -> (r: bool)
        ensures
            r == self@.static_exchange(),
    {
        match self.identity {
            Some(_) => self.peer_version >= MIN_VERSION_FOR_STATIC_DH,
            None => false,
        }
    }

    /// Whether a peer without credentials is turned away.
    pub fn rejects_anonymous(&self) -> (r: bool)
        ensures
            r == self@.turns_away(),
    {
        match &self.identity {
            Some(id) => id.strict(),
            None => false,
        }
    }

    /// The tag for one's own hello, now: with credentials one that is bound to the secret of
    /// the node, the hello and the ephemeral key, without them one that is bound to the time
    /// alone.
    pub fn handshake_tag(&self, random: &[u8; 32]) -> (r: [u8; 16])
        ensures
            exists|now: u64|
                call_ensures(now_unix_secs, (), now) && r@ == #[trigger] own_tag(
                    self@,
                    random@,
                    step_of(now),
                ),
    {
        let now: u64 = now_unix_secs();
        let tag: [u8; 16] = self.handshake_tag_at(random, now / AUTH_TIME_STEP);
        assert(tag@ == own_tag(self@, random@, step_of(now)));
        tag
    }

    /// The tag for one's own hello at a time step.
    pub fn handshake_tag_at(&self, random: &[u8; 32], step: u64) -> (r: [u8; 16])
        ensures
            r@ == own_tag(self@, random@, step),
    {
        match &self.identity {
            Some(id) => {
                let public: [u8; 32] = self.public_key_bytes();
                SessionAuth::compute_handshake_tag(id.secret().as_slice(), step, random, &public)
            },
            None => SessionAuth::compute_tag(self.auth_key.as_slice(), step),
        }
    }

    /// Whether the tag of a client's hello is accepted now.
    pub fn verify_handshake_tag(
        &self,
        received_tag: &[u8; 16],
        random: &[u8; 32],
        peer_public: &[u8; 32],
    ) -> (r: bool)
        ensures
            exists|now: u64|
                call_ensures(now_unix_secs, (), now) && r == #[trigger] peer_tag_accepted(
                    self@,
                    received_tag@,
                    random@,
                    peer_public@,
                    step_of(now),
                ),
    {
        let now: u64 = now_unix_secs();
        let ok: bool = self.verify_handshake_tag_at(
            received_tag,
            random,
            peer_public,
            now / AUTH_TIME_STEP,
        );
        assert(ok == peer_tag_accepted(
            self@,
            received_tag@,
            random@,
            peer_public@,
            step_of(now),
        ));
        ok
    }

    /// Whether the tag of a client's hello is accepted at a time step.
    pub fn verify_handshake_tag_at(
        &self,
        received_tag: &[u8; 16],
        random: &[u8; 32],
        peer_public: &[u8; 32],
        step: u64,
    ) -> (r: bool)
        ensures
            r == peer_tag_accepted(self@, received_tag@, random@, peer_public@, step),
    {
        if self.uses_static_dh() {
            match &self.identity {
                Some(id) => {
                    SessionAuth::new(*id.secret()).verify_handshake_tag_at(
                        received_tag,
                        random,
                        peer_public,
                        step,
                    )
                },
                None => false,
            }
        } else if self.rejects_anonymous() {
            false
        } else {
            SessionAuth::new(self.auth_key).verify_tag_at(received_tag, step)
        }
    }

    /// The keys of both directions; there are none before the handshake.
    pub fn get_aead_parameters(&self) -> (r: DirectionalAeadKeys)
        requires
            self@.aead is Some,
        ensures
            Some(directional_view(r)) == self@.aead,
    {
        match self.current_aead {
            Some(keys) => keys,
            None => ([0u8; 32], [0u8; 12], [0u8; 32], [0u8; 12]),
        }
    }

    /// The key of the tags.
    pub fn get_auth_key(&self) -> (r: [u8; 32])
        ensures
            r@ == self@.auth_key,
    {
        self.auth_key
    }

    /// Whether this side started the handshake.
    pub fn is_initiator(&self) -> (r: bool)
        ensures
            r == self@.is_initiator,
    {
        self.salt.is_initiator
    }

    /// The pseudorandom key of the session; there is none before the handshake.
    pub fn datagram_root(&self) -> (r: [u8; 32])
        requires
            self@.root is Some,
        ensures
            Some(r@) == self@.root,
    {
        match self.datagram_root {
            Some(root) => root,
            None => [0u8; 32],
        }
    }

    /// Completes the handshake with the salt and the extensions of the other side's hello.
    ///
    /// Without a usable public key, or once the ephemeral secret is gone, only the salt is
    /// noted. Otherwise all keys are derived, and the ephemeral secret is destroyed.
    pub fn update_keys(
        &mut self,
        salt: [u8; 32],
        extensions: &ExtensionStack,
        is_server: bool,
    ) -> (r: Result<DirectionalAeadKeys, AppError>)
        requires
            old(self)@.wf(),
        ensures
            final(self)@.wf(),
            ({
                let salted = SessionView { remote_salt: salt@, ..old(self)@ };
                match peer_share(extensions.entries(), is_server) {
                    Err(fault) => {
                        &&& r matches Err(e) && fault_error(fault, e)
                        &&& final(self)@ == salted
                    },
                    Ok(peer) => keys_generated(salted, peer, is_server, r, final(self)@),
                }
            }),
    {
        self.salt.set_remote_salt(salt);
        match Self::extract_peer_public(extensions, is_server) {
            Ok(public_key) => self.generate_keys(&public_key, is_server),
            Err(e) => Err(e),
        }
    }

    /// The public key in the `key_share` of a received hello, taken apart by its structure:
    /// the bytes of another entry can look like anything.
    pub fn extract_peer_public(extensions: &ExtensionStack, is_server: bool) -> (r: Result<
        [u8; 32],
        AppError,
    >)
        ensures
            match peer_share(extensions.entries(), is_server) {
                Ok(key) => r matches Ok(k) && k@ == key,
                Err(fault) => r matches Err(e) && fault_error(fault, e),
            },
    {
        let dh_data: Bytes = match extensions.find_by_type(TlsExtensions::KEY_SHARE) {
            Some(data) => data,
            None => {
                return Err(
                    AppError::new(
                        ERR_NET_TLS_TAMPER,
                        "Ошибка маскировки",
                        "No KeyShare extension found in handshake",
                    ),
                );
            },
        };
        let dh_data: &[u8] = bytes_slice(&dh_data);
        let key_bytes: [u8; 32] = if is_server {
            match Self::client_share(dh_data) {
                Ok(key) => key,
                Err(e) => {
                    return Err(e);
                },
            }
        } else {
            match Self::server_share(dh_data) {
                Ok(key) => key,
                Err(e) => {
                    return Err(e);
                },
            }
        };
        if Self::all_zeros(&key_bytes) {
            return Err(
                AppError::new(
                    ERR_NET_TLS_TAMPER,
                    "Ошибка шифрования",
                    "Extracted remote public key is all ZEROS!",
                ),
            );
        }
        Ok(key_bytes)
    }

    fn all_zeros(key: &[u8; 32]) -> (r: bool)
        ensures
            r == (key@ == zeros(32)),
    {
        let mut i: usize = 0;
        while i < 32
            invariant
                i <= 32,
                forall|k: int| 0 <= k < i ==> key@[k] == 0,
            decreases 32 - i,
        {
            if key[i] != 0 {
                assert(key@[i as int] != zeros(32)[i as int]);
                return false;
            }
            i = i + 1;
        }
        assert(key@ =~= zeros(32));
        true
    }

    fn client_share(data: &[u8]) -> (r: Result<[u8; 32], AppError>)
        ensures
            match share_key(data@, true) {
                Ok(key) => r matches Ok(k) && k@ == key,
                Err(fault) => r matches Err(e) && fault_error(fault, e),
            },
    {
        if data.len() < 2 {
            let mut msg: Vec<char> = chars_of("Client KeyShare too short: ");
            push_decimal(&mut msg, data.len());
            let msg: String = string_of(&msg);
            return Err(AppError::new(ERR_NET_TLS_TAMPER, "Ошибка маскировки", msg.as_str()));
        }
        let list_len: usize = read_u16(data, 0) as usize;
        if list_len > data.len() - 2 {
            return Err(
                AppError::new(
                    ERR_NET_TLS_TAMPER,
                    "Ошибка маскировки",
                    "KeyShare list_len exceeds extension body",
                ),
            );
        }
        let list: &[u8] = slice_range(data, 2, 2 + list_len);
        match Self::find_x25519(list) {
            Some(key) => Ok(key),
            None => Err(
                AppError::new(
                    ERR_NET_TLS_TAMPER,
                    "Ошибка маскировки",
                    "Could not find x25519 key in ClientHello",
                ),
            ),
        }
    }

    fn find_x25519(list: &[u8]) -> (r: Option<[u8; 32]>)
        ensures
            match x25519_in(list@) {
                Some(key) => r matches Some(k) && k@ == key,
                None => r is None,
            },
    {
        let len: usize = list.len();
        let mut off: usize = 0;
        assert(list@.subrange(0, list@.len() as int) =~= list@);
        while len - off >= 4
            invariant
                off <= len,
                len == list@.len(),
                x25519_in(list@) == x25519_in(list@.subrange(off as int, list@.len() as int)),
            decreases len - off,
        {
            let ghost here = list@.subrange(off as int, list@.len() as int);
            let group: u16 = read_u16(list, off);
            let key_len: usize = read_u16(list, off + 2) as usize;
            assert(group == u16_at(here, 0));
            assert(key_len == u16_at(here, 2));
            if key_len > len - off - 4 {
                return None;
            }
            if group == TlsGroups::X25519 && key_len == X25519_LEN {
                let key: [u8; 32] = take_array::<32>(list, off + 4);
                assert(key@ =~= here.subrange(4, 36));
                return Some(key);
            }
            assert(here.subrange(4 + key_len, here.len() as int) =~= list@.subrange(
                off + 4 + key_len,
                list@.len() as int,
            ));
            off = off + 4 + key_len;
        }
        None
    }

    fn server_share(data: &[u8]) -> (r: Result<[u8; 32], AppError>)
        ensures
            match share_key(data@, false) {
                Ok(key) => r matches Ok(k) && k@ == key,
                Err(fault) => r matches Err(e) && fault_error(fault, e),
            },
    {
        if data.len() < 4 + X25519_LEN {
            return Err(
                AppError::new(
                    ERR_NET_TLS_TAMPER,
                    "Ошибка маскировки",
                    "Server KeyShare too short",
                ),
            );
        }
        let key_len: usize = read_u16(data, 2) as usize;
        if key_len != X25519_LEN {
            let mut msg: Vec<char> = chars_of("Server KeyShare has unexpected key length ");
            push_decimal(&mut msg, key_len);
            let msg: String = string_of(&msg);
            return Err(AppError::new(ERR_NET_TLS_TAMPER, "Ошибка маскировки", msg.as_str()));
        }
        Ok(take_array::<32>(data, 4))
    }

    /// Derives all keys with the peer whose public key is given.
    pub(crate) fn generate_keys(&mut self, public_key: &[u8; 32], is_server: bool) -> (r: Result<
        DirectionalAeadKeys,
        AppError,
    >)
        requires
            old(self)@.wf(),
        ensures
            final(self)@.wf(),
            keys_generated(old(self)@, public_key@, is_server, r, final(self)@),
    {
        let mut ephemeral_dh: [u8; 32] = match self.ecdh.dh(public_key) {
            Some(shared) => shared,
            None => {
                return Err(AppError::new(ERR_NET_TLS_TAMPER, "Сбой", "No shared secret"));
            },
        };
        let mut ikm: Vec<u8> = Vec::with_capacity(81);
        ikm.extend_from_slice(ephemeral_dh.as_slice());
        wipe(&mut ephemeral_dh);

        if self.uses_static_dh() {
            let shared: Option<[u8; 32]> = match &self.identity {
                Some(identity) => identity.static_dh(&self.ecdh, public_key),
                None => None,
            };
            let mut static_dh: [u8; 32] = match shared {
                Some(shared) => shared,
                None => {
                    return Err(AppError::new(ERR_NET_TLS_TAMPER, "Сбой", "No static secret"));
                },
            };
            ikm.extend_from_slice(static_dh.as_slice());
            wipe(&mut static_dh);
            ikm.extend_from_slice(IKM_DOMAIN_V3.as_bytes());
        }
        assert(ikm@ =~= self@.key_material(public_key@));

        self.ecdh.burn();

        let salt: [u8; 64] = self.salt.get_total();
        let (prk_bytes, hkdf): ([u8; 32], Extracted) = HKDF::extract_key(
            salt.as_slice(),
            ikm.as_slice(),
        );
        wipe_vec(&mut ikm);
        self.datagram_root = Some(prk_bytes);

        let mut c_key: [u8; 32] = match HKDF::expand_key::<32>(&hkdf, "client_aead".as_bytes()) {
            Ok(key) => key,
            Err(e) => {
                return Err(AppError::new(ERR_NET_TLS_TAMPER, "Ошибка ключей", e.as_str()));
            },
        };
        let mut c_iv: [u8; 12] = match HKDF::expand_key::<12>(&hkdf, "client_iv".as_bytes()) {
            Ok(key) => key,
            Err(e) => {
                return Err(AppError::new(ERR_NET_TLS_TAMPER, "Ошибка ключей", e.as_str()));
            },
        };
        let mut s_key: [u8; 32] = match HKDF::expand_key::<32>(&hkdf, "server_aead".as_bytes()) {
            Ok(key) => key,
            Err(e) => {
                return Err(AppError::new(ERR_NET_TLS_TAMPER, "Ошибка ключей", e.as_str()));
            },
        };
        let mut s_iv: [u8; 12] = match HKDF::expand_key::<12>(&hkdf, "server_iv".as_bytes()) {
            Ok(key) => key,
            Err(e) => {
                return Err(AppError::new(ERR_NET_TLS_TAMPER, "Ошибка ключей", e.as_str()));
            },
        };
        self.auth_key =
        match HKDF::expand_key::<32>(&hkdf, "auth_key".as_bytes()) {
            Ok(key) => key,
            Err(e) => {
                return Err(AppError::new(ERR_NET_TLS_TAMPER, "Ошибка ключей", e.as_str()));
            },
        };

        let keys: DirectionalAeadKeys = if is_server {
            (s_key, s_iv, c_key, c_iv)
        } else {
            (c_key, c_iv, s_key, s_iv)
        };
        wipe(&mut c_key);
        wipe(&mut c_iv);
        wipe(&mut s_key);
        wipe(&mut s_iv);

        self.current_aead = Some(keys);
        Ok(keys)
    }

    /// One's own salt.
    pub fn local_salt(&self) -> (r: [u8; 32])
        ensures
            r@ == self@.local_salt,
    {
        self.salt.get_local()
    }

    /// The ephemeral public key.
    pub fn public_key_bytes(&self) -> (r: [u8; 32])
        ensures
            r@ == self@.public,
    {
        self.ecdh.public_bytes()
    }

    /// The front of the tags' key in hexadecimal, to be recognised in logs.
    pub fn auth_key_fingerprint(&self) -> (r: String)
        ensures
            r@ == hex_text(self@.auth_key.subrange(0, 4)),
    {
        encode(slice_range(self.auth_key.as_slice(), 0, 4))
    }
}

/// The tag that a side puts into its hello at a time step.
pub open spec fn own_tag(view: SessionView, random: Seq<u8>, step: u64) -> Seq<u8> {
    match view.identity {
        Some(id) => hello_tag(id.node_secret(), step, random, view.public),
        None => frame_tag(view.auth_key, step),
    }
}

/// Whether a side accepts the tag of a client's hello at a time step. Where the static key
/// takes part the tag has to be bound to the node's secret, the hello and the key. Otherwise
/// the client is anonymous: a strict node turns it away, others check the tag of the time.
pub open spec fn peer_tag_accepted(
    view: SessionView,
    tag: Seq<u8>,
    random: Seq<u8>,
    peer_public: Seq<u8>,
    step: u64,
) -> bool {
    if view.static_exchange() {
        hello_tag_accepted(view.identity->Some_0.node_secret(), tag, random, peer_public, step)
    } else if view.turns_away() {
        false
    } else {
        frame_tag_accepted(view.auth_key, tag, step)
    }
}

/// A strict node turns every anonymous client away, whatever tag it brings.
pub proof fn lemma_strict_rejects_anonymous(
    node: SessionView,
    tag: Seq<u8>,
    random: Seq<u8>,
    peer_public: Seq<u8>,
    step: u64,
)
    requires
        node.turns_away(),
        node.peer_version < MIN_VERSION_FOR_STATIC_DH,
    ensures
        !peer_tag_accepted(node, tag, random, peer_public, step),
{
}

impl Drop for SessionKeys {
    fn drop(&mut self)
        opens_invariants none
        no_unwind
    {
        wipe(&mut self.auth_key);
        if let Some(keys) = &mut self.current_aead {
            wipe(&mut keys.0);
            wipe(&mut keys.1);
            wipe(&mut keys.2);
            wipe(&mut keys.3);
        }
        if let Some(root) = &mut self.datagram_root {
            wipe(root);
        }
    }
}

} // verus!
