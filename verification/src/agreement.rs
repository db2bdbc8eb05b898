//! What a handshake is for: both sides end up with the same keys.

use bytes::Bytes;
use vstd::prelude::*;
use vstd::utf8::{is_ascii_chars, is_ascii_chars_encode_utf8};

use crate::bridge::{answered, processed, HandshakeMessage};
use crate::buffers::bytes_view;
use crate::crypto::auth::{in_window, lemma_tag_window};
use crate::crypto::datagram_keys::{lemma_sides_match, material_of};
use crate::crypto::identity::Identity;
use crate::crypto::primitives::x25519_public;
use crate::crypto::session::{
    keys_match, lemma_both_sides_agree, own_tag, peer_share, peer_tag_accepted, SessionView,
    ShareFault,
};
use crate::errors::TlsError;
use crate::net_consts::{MIN_VERSION_FOR_STATIC_DH, PROTOCOL_VERSION, PROTOCOL_VERSION_ANONYMOUS};
use crate::nrxp::batch::Item;
use crate::nrxp::codec::{batch_sent, Received, RxCodec, TxCodec};
use crate::nrxp::delivery::{delivers, lemma_stream_round_trip};
use crate::tlseng::extension::{first_of, sni_host};
use crate::tlseng::extension_builder::{
    draws_for, extension_limit, greased, lemma_profile_block_len, ordered_bytes, ordered_entries,
    profile_order, protocol_list, HelloContext,
};
use crate::tlseng::grease::GreaseSet;
use crate::tlseng::handshake::{
    chosen_suite, client_body, client_hello_of, hello_fits, hello_overhead, hello_session_id,
};
use crate::tlseng::hello_laws::{
    lemma_client_hello_round_trip, lemma_profile_entries, lemma_server_extensions,
    lemma_server_hello_round_trip, server_entries,
};
use crate::tlseng::profile::{BrowserProfile, ServerProfile};
use crate::tlseng::types::{ProtocolVersion, TlsExtensions};
use crate::utils::byte_order::{lemma_be16_list_len, zeros};

verus! {

/// The version that a client claims in its hello.
pub open spec fn claimed(view: SessionView) -> u8 {
    if view.identity is Some {
        PROTOCOL_VERSION
    } else {
        PROTOCOL_VERSION_ANONYMOUS
    }
}

/// The longest record: its header, and what its length field can say.
pub open spec fn max_record() -> nat {
    5 + 0xffff
}

/// Whether a message is the hello of a client, as a server has to understand it.
pub open spec fn carries_hello(
    msg: HandshakeMessage,
    profile: BrowserProfile,
    host: Seq<u8>,
    client: SessionView,
    step: u64,
) -> bool {
    &&& msg matches HandshakeMessage::Client { base, extensions } && {
        let sid = bytes_view(base.session_id);
        &&& base.random@ == client.local_salt
        &&& sid.len() == 32
        &&& sid[0] == claimed(client)
        &&& sid.subrange(16, 32) == own_tag(client, client.local_salt, step)
        &&& peer_share(extensions.entries(), true) == Ok::<Seq<u8>, ShareFault>(client.public)
        &&& profile.extension_order.0@.contains(TlsExtensions::SNI) && host.len() <= 65532 ==> (
        first_of(extensions.entries(), TlsExtensions::SNI) matches Some(data) && sni_host(data)
            == Some(host))
    }
}

/// The hello of a client is understood: a server reads the salt, the claimed version, the
/// tag, the public key and the host name out of it that the client put there.
///
/// The profile has to send a public key at all, and the hello has to fit into a record.
pub proof fn lemma_hello_is_understood(
    profile: BrowserProfile,
    host: Seq<u8>,
    client: SessionView,
    filler: Seq<u8>,
    step: u64,
    grease: GreaseSet,
    block: Seq<u8>,
    wire: Seq<u8>,
    tail: Seq<u8>,
    r: Result<Option<HandshakeMessage>, TlsError>,
    rest: Seq<u8>,
)
    requires
        client.wf(),
        client.public != zeros(32),
        profile.extension_order.0@.contains(TlsExtensions::KEY_SHARE),
        client_hello_of(profile, host, client, filler, step, grease, block, wire),
        wire.len() <= max_record(),
        processed::<HandshakeMessage>(wire + tail, r, rest),
    ensures
        r matches Ok(Some(msg)) && carries_hello(msg, profile, host, client, step),
        rest == tail,
{
    let ctx = HelloContext {
        profile,
        host,
        pub_key: client.public,
        grease,
        overhead: hello_overhead(profile),
    };
    let (order, draws) = choose|order: Seq<u16>, draws: Seq<Seq<u8>>|
        profile_order(ctx.profile, order) && draws_for(ctx, order, draws) && block
            == #[trigger] ordered_bytes(ctx, order, 0, draws);
    let entries = ordered_entries(ctx, order, 0, draws);
    let sid = hello_session_id(client, filler, step);
    let suites = greased(profile.cipher_suites@, profile.has_grease, grease.cipher);
    let body = client_body(client.local_salt, sid, suites, block);
    lemma_be16_list_len(suites);
    assert(body.len() == 41 + sid.len() + 2 * suites.len() + block.len());
    assert(wire.len() == 9 + body.len());
    lemma_client_hello_round_trip(
        profile.record_layer_version,
        client.local_salt,
        sid,
        suites,
        entries,
        tail,
        r,
        rest,
    );
    lemma_profile_entries(ctx, order, draws);
    assert(sid.subrange(16, 32) =~= own_tag(client, client.local_salt, step));
}

/// Whether a profile is one of those that come with the library.
pub open spec fn is_builtin(profile: BrowserProfile) -> bool {
    &&& profile.extension_order.0@.len() <= 8
    &&& profile.groups.0@.len() <= 3
    &&& profile.is_chrome_140() || profile.is_padded_chromium() || profile.is_plain()
}

/// The length of the protocol names that the profiles have.
proof fn lemma_protocol_names()
    ensures
        protocol_list(seq!["h2", "http/1.1"]).len() == 12,
        protocol_list(seq!["h2"]).len() == 3,
        protocol_list(Seq::<&str>::empty()).len() == 0,
{
    reveal_strlit("h2");
    reveal_strlit("http/1.1");
    assert(is_ascii_chars("h2"@));
    assert(is_ascii_chars("http/1.1"@));
    is_ascii_chars_encode_utf8("h2"@);
    is_ascii_chars_encode_utf8("http/1.1"@);
    assert(seq!["h2", "http/1.1"].drop_last() =~= seq!["h2"]);
    assert(seq!["h2"].drop_last() =~= Seq::<&str>::empty());
    assert(protocol_list(Seq::<&str>::empty()).len() == 0);
    assert(protocol_list(seq!["h2"]).len() == 3);
}

/// The hello of a profile that comes with the library can be made for every host name, and
/// fits into a record.
pub proof fn lemma_builtin_hello_fits(
    profile: BrowserProfile,
    host: Seq<u8>,
    client: SessionView,
    filler: Seq<u8>,
    step: u64,
    grease: GreaseSet,
    block: Seq<u8>,
    wire: Seq<u8>,
)
    requires
        is_builtin(profile),
        host.len() <= 253,
        client.wf(),
    ensures
        hello_fits(profile, host, client.public),
        client_hello_of(profile, host, client, filler, step, grease, block, wire) ==> wire.len()
            <= max_record(),
{
    lemma_protocol_names();
    let order = profile.extension_order.0@.len() as int;
    let limit = extension_limit(profile, host, client.public) as int;
    if profile.is_plain() {
        assert(profile.alps_protocols@ =~= Seq::<&str>::empty());
    }
    assert(limit <= 2400);
    assert(order * limit <= 8 * 2400) by (nonlinear_arith)
        requires
            0 <= order <= 8,
            0 <= limit <= 2400,
    ;
    if client_hello_of(profile, host, client, filler, step, grease, block, wire) {
        let ctx = HelloContext {
            profile,
            host,
            pub_key: client.public,
            grease,
            overhead: hello_overhead(profile),
        };
        lemma_profile_block_len(ctx, 0, block);
        let suites = greased(profile.cipher_suites@, profile.has_grease, grease.cipher);
        lemma_be16_list_len(suites);
    }
}

/// Whether a client's credentials are those that a server expects: none on either side that
/// count, or the two halves of one pair and the same secret.
pub open spec fn credentials_match(client: SessionView, server: SessionView) -> bool {
    match client.identity {
        None => client.auth_key == server.auth_key && !server.turns_away(),
        Some(Identity::Peer(p)) => {
            &&& client.peer_version >= MIN_VERSION_FOR_STATIC_DH
            &&& server.identity matches Some(Identity::Local(l)) && {
                &&& p.secret() == l.secret()
                &&& l.static_private().len() == 32
                &&& p.static_public() == x25519_public(l.static_private())
            }
        },
        Some(Identity::Local(_)) => false,
    }
}

/// A client whose credentials match is answered, and when it has read the answer both sides
/// hold the same keys.
///
/// The tag must be made at a time step that the server accepts, and no public key may be all
/// zeros.
pub proof fn lemma_handshake_agrees(
    profile: BrowserProfile,
    host: Seq<u8>,
    client: SessionView,
    made: u64,
    msg: HandshakeMessage,
    server: SessionView,
    server_profile: ServerProfile,
    step: u64,
    answer: Result<(Bytes, u8), TlsError>,
    server_after: SessionView,
    tail: Seq<u8>,
    reply: Result<Option<HandshakeMessage>, TlsError>,
    rest: Seq<u8>,
)
    requires
        client.wf(),
        server.wf(),
        client.is_initiator,
        !server.is_initiator,
        client.secret is Some,
        server.secret is Some,
        server.public != zeros(32),
        credentials_match(client, server),
        in_window(made, step),
        carries_hello(msg, profile, host, client, made),
        answered(msg, server, server_profile, step, answer, server_after),
        answer matches Ok((hello, _)) ==> processed::<HandshakeMessage>(
            bytes_view(hello) + tail,
            reply,
            rest,
        ),
    ensures
        answer matches Ok((_, version)) && version == claimed(client),
        reply matches Ok(Some(said)) && {
            &&& said is Server
            &&& said.salt() == server.local_salt
            &&& peer_share(said.stack().entries(), false) == Ok::<Seq<u8>, ShareFault>(
                server.public,
            )
            &&& keys_match(
                (SessionView { remote_salt: said.salt(), ..client }).established(
                    server.public,
                    false,
                ),
                server_after,
            )
        },
        rest == tail,
{
    let base = msg->Client_base;
    let entries = msg->Client_extensions.entries();
    let sid = bytes_view(base.session_id);
    let tag = sid.subrange(16, 32);
    let versioned = SessionView { peer_version: sid[0], ..server };
    let salted = SessionView { remote_salt: base.random@, ..versioned };
    assert(peer_tag_accepted(versioned, tag, base.random@, client.public, step)) by {
        match client.identity {
            None => {
                lemma_tag_window(client.auth_key, made, step, client.local_salt, client.public);
            },
            Some(id) => {
                lemma_tag_window(
                    id.node_secret(),
                    made,
                    step,
                    client.local_salt,
                    client.public,
                );
            },
        }
    }
    assert(server_after == salted.established(client.public, true));
    let version = server_profile.versions.highest();
    let said_entries = server_entries(version, server.public);
    lemma_server_extensions(version, server.public);
    lemma_server_hello_round_trip(
        server_profile.record_layer_version,
        ProtocolVersion::Tls12,
        server.local_salt,
        sid,
        chosen_suite(server_profile, base.cipher_suites@),
        said_entries,
        tail,
        reply,
        rest,
    );
    let known = SessionView { remote_salt: server.local_salt, ..client };
    lemma_both_sides_agree(known, salted);
}

/// After a handshake frames get through: what a codec with the keys of one side sends, a codec
/// with the keys of the other side hands out, in order and none besides.
pub proof fn lemma_session_carries_frames(
    client: SessionView,
    server: SessionView,
    tx: TxCodec,
    rx: RxCodec,
    items: Seq<Item>,
    tag: Seq<u8>,
    wire: Seq<u8>,
    after: TxCodec,
    tail: Seq<u8>,
)
    requires
        keys_match(client, server),
        ({
            ||| {
                &&& tx.stream().key() == client.aead->0.tx_key
                &&& tx.stream().iv() == client.aead->0.tx_iv
                &&& rx.stream().key() == server.aead->0.rx_key
                &&& rx.stream().iv() == server.aead->0.rx_iv
            }
            ||| {
                &&& tx.stream().key() == server.aead->0.tx_key
                &&& tx.stream().iv() == server.aead->0.tx_iv
                &&& rx.stream().key() == client.aead->0.rx_key
                &&& rx.stream().iv() == client.aead->0.rx_iv
            }
        }),
        tx.stream().count() == rx.stream().count(),
        rx.staging() == Seq::<u8>::empty(),
        batch_sent(tx, items, tag, wire, after),
        forall|i: int| 0 <= i < items.len() ==> (#[trigger] items[i]).payload.len() + 41 <= 0xffff,
    ensures
        delivers(
            rx.stream().key(),
            rx.stream().iv(),
            tag,
            rx.received(wire + tail),
            items,
            (Received {
                count: after.stream().count() as int,
                staging: Seq::empty(),
                buffer: tail,
            }),
        ),
{
    lemma_stream_round_trip(tx, items, tag, wire, after, tail);
}

/// After a handshake both sides know the same datagram leg: the same token, and what one
/// sends under, the other receives under.
pub proof fn lemma_session_shares_leg(client: SessionView, server: SessionView)
    requires
        keys_match(client, server),
    ensures
        ({
            let c = material_of(client.root->0, true);
            let s = material_of(server.root->0, false);
            &&& c.leg_token == s.leg_token
            &&& c.tx == s.rx
            &&& c.rx == s.tx
            &&& c.hp_key_tx == s.hp_key_rx
            &&& c.hp_key_rx == s.hp_key_tx
        }),
{
    lemma_sides_match(client.root->0);
}

} // verus!
