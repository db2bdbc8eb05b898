//! What every key and tag is made of.
//!
//! The other side of a connection need not be this library: the keys have to be those of the
//! protocol, and no two of them may be the same by construction. Here every key is written
//! out by its label, and every tag by the message that it covers.

use vstd::prelude::*;
use vstd::utf8::{encode_utf8, encode_utf8_decode_utf8};

use crate::app_error::AppError;
use crate::crypto::auth::{
    frame_tag, frame_tag_accepted, hello_tag, hello_tag_accepted, in_window, step_of,
};
use crate::crypto::datagram_keys::{material_of, RatchetView};
use crate::crypto::identity::Identity;
use crate::crypto::primitives::{
    hkdf_expand, hkdf_extract, hmac_sha256, x25519_public, x25519_shared,
};
use crate::crypto::session::{
    fresh, keys_generated, own_tag, peer_tag_accepted, DirectionalAeadKeys, SessionView,
};
use crate::net_consts::{MIN_VERSION_FOR_STATIC_DH, PROTOCOL_VERSION, PROTOCOL_VERSION_ANONYMOUS};
use crate::utils::byte_order::be64;

verus! {

/// Different texts are different bytes.
pub proof fn lemma_texts_differ(a: Seq<char>, b: Seq<char>)
    requires
        a != b,
    ensures
        encode_utf8(a) != encode_utf8(b),
{
    encode_utf8_decode_utf8(a);
    encode_utf8_decode_utf8(b);
}

/// What the client sends under and what the server sends under are derived from the root of
/// the session, each under a label of its own, and so is the key of the tags. A client sends
/// with the first pair and receives with the second, a server the other way round.
pub proof fn lemma_session_keys(
    before: SessionView,
    peer: Seq<u8>,
    is_server: bool,
    r: Result<DirectionalAeadKeys, AppError>,
    after: SessionView,
)
    requires
        keys_generated(before, peer, is_server, r, after),
        before.secret is Some,
    ensures
        after.root is Some,
        r matches Ok(keys) && {
            let root = after.root->Some_0;
            let client_key = hkdf_expand(root, encode_utf8("client_aead"@), 32);
            let client_iv = hkdf_expand(root, encode_utf8("client_iv"@), 12);
            let server_key = hkdf_expand(root, encode_utf8("server_aead"@), 32);
            let server_iv = hkdf_expand(root, encode_utf8("server_iv"@), 12);
            &&& !is_server ==> keys.0@ == client_key && keys.1@ == client_iv && keys.2@
                == server_key && keys.3@ == server_iv
            &&& is_server ==> keys.0@ == server_key && keys.1@ == server_iv && keys.2@
                == client_key && keys.3@ == client_iv
            &&& after.aead matches Some(held) && held.tx_key == keys.0@ && held.tx_iv == keys.1@
                && held.rx_key == keys.2@ && held.rx_iv == keys.3@
            &&& after.auth_key == hkdf_expand(root, encode_utf8("auth_key"@), 32)
        },
        after.secret is None,
        after.local_salt == before.local_salt,
        after.remote_salt == before.remote_salt,
        after.public == before.public,
        after.identity == before.identity,
        after.peer_version == before.peer_version,
{
}

/// The root of a session is extracted from both salts, the initiator's first, and from the
/// exchange of the ephemeral keys. With credentials, and a peer of version 3 or newer, the
/// exchange with the node's static key and the words of that scheme are added: the client
/// computes it from its ephemeral secret, the node from its static one.
pub proof fn lemma_session_root(
    before: SessionView,
    peer: Seq<u8>,
    is_server: bool,
    r: Result<DirectionalAeadKeys, AppError>,
    after: SessionView,
)
    requires
        keys_generated(before, peer, is_server, r, after),
        before.secret is Some,
    ensures
        ({
            let secret = before.secret->Some_0;
            let salts = if before.is_initiator {
                before.local_salt + before.remote_salt
            } else {
                before.remote_salt + before.local_salt
            };
            let words = encode_utf8("nrxp-v3-static-dh"@);
            let ephemeral = x25519_shared(secret, peer);
            &&& before.identity is None || before.peer_version < 3 ==> after.root == Some(
                hkdf_extract(salts, ephemeral),
            )
            &&& before.peer_version >= 3 ==> match before.identity {
                Some(Identity::Peer(p)) => after.root == Some(
                    hkdf_extract(
                        salts,
                        ephemeral + x25519_shared(secret, p.static_public()) + words,
                    ),
                ),
                Some(Identity::Local(l)) => after.root == Some(
                    hkdf_extract(
                        salts,
                        ephemeral + x25519_shared(l.static_private(), peer) + words,
                    ),
                ),
                None => true,
            }
        }),
{
}

/// What a side holds once its keys are derived: they are those of the root, each under its
/// label, in the order of the role. Nothing else of it changes but the ephemeral secret, which
/// is gone.
pub proof fn lemma_established(view: SessionView, peer: Seq<u8>, is_server: bool)
    ensures
        ({
            let after = view.established(peer, is_server);
            let root = after.root->Some_0;
            let client_key = hkdf_expand(root, encode_utf8("client_aead"@), 32);
            let client_iv = hkdf_expand(root, encode_utf8("client_iv"@), 12);
            let server_key = hkdf_expand(root, encode_utf8("server_aead"@), 32);
            let server_iv = hkdf_expand(root, encode_utf8("server_iv"@), 12);
            let salts = if view.is_initiator {
                view.local_salt + view.remote_salt
            } else {
                view.remote_salt + view.local_salt
            };
            &&& view.identity is None || view.peer_version < 3 ==> after.root == Some(
                hkdf_extract(salts, x25519_shared(view.secret->Some_0, peer)),
            )
            &&& after.auth_key == hkdf_expand(root, encode_utf8("auth_key"@), 32)
            &&& after.aead matches Some(held) && {
                &&& is_server ==> held.tx_key == server_key && held.tx_iv == server_iv
                    && held.rx_key == client_key && held.rx_iv == client_iv
                &&& !is_server ==> held.tx_key == client_key && held.tx_iv == client_iv
                    && held.rx_key == server_key && held.rx_iv == server_iv
            }
            &&& after.secret is None
            &&& after.local_salt == view.local_salt
            &&& after.remote_salt == view.remote_salt
            &&& after.public == view.public
            &&& after.is_initiator == view.is_initiator
            &&& after.identity == view.identity
            &&& after.peer_version == view.peer_version
        }),
{
}

/// No two keys that are derived from the root of a session share a label: neither the two
/// directions of the stream, nor those of the datagram leg, nor a key of the one with a key
/// of the other.
pub proof fn lemma_root_labels_differ()
    ensures
        ({
            let client_aead = encode_utf8("client_aead"@);
            let client_iv = encode_utf8("client_iv"@);
            let server_aead = encode_utf8("server_aead"@);
            let server_iv = encode_utf8("server_iv"@);
            let auth_key = encode_utf8("auth_key"@);
            let leg_token = encode_utf8("dgram-leg-token"@);
            let chain_c2s = encode_utf8("dgram-chain-c2s"@);
            let chain_s2c = encode_utf8("dgram-chain-s2c"@);
            let hp_c2s = encode_utf8("dgram-hp-c2s"@);
            let hp_s2c = encode_utf8("dgram-hp-s2c"@);
            &&& client_aead != client_iv
            &&& client_aead != server_aead
            &&& client_aead != server_iv
            &&& client_aead != auth_key
            &&& client_aead != leg_token
            &&& client_aead != chain_c2s
            &&& client_aead != chain_s2c
            &&& client_aead != hp_c2s
            &&& client_aead != hp_s2c
            &&& client_iv != server_aead
            &&& client_iv != server_iv
            &&& client_iv != auth_key
            &&& client_iv != leg_token
            &&& client_iv != chain_c2s
            &&& client_iv != chain_s2c
            &&& client_iv != hp_c2s
            &&& client_iv != hp_s2c
            &&& server_aead != server_iv
            &&& server_aead != auth_key
            &&& server_aead != leg_token
            &&& server_aead != chain_c2s
            &&& server_aead != chain_s2c
            &&& server_aead != hp_c2s
            &&& server_aead != hp_s2c
            &&& server_iv != auth_key
            &&& server_iv != leg_token
            &&& server_iv != chain_c2s
            &&& server_iv != chain_s2c
            &&& server_iv != hp_c2s
            &&& server_iv != hp_s2c
            &&& auth_key != leg_token
            &&& auth_key != chain_c2s
            &&& auth_key != chain_s2c
            &&& auth_key != hp_c2s
            &&& auth_key != hp_s2c
            &&& leg_token != chain_c2s
            &&& leg_token != chain_s2c
            &&& leg_token != hp_c2s
            &&& leg_token != hp_s2c
            &&& chain_c2s != chain_s2c
            &&& chain_c2s != hp_c2s
            &&& chain_c2s != hp_s2c
            &&& chain_s2c != hp_c2s
            &&& chain_s2c != hp_s2c
            &&& hp_c2s != hp_s2c
        }),
{
    reveal_strlit("client_aead");
    reveal_strlit("client_iv");
    reveal_strlit("server_aead");
    reveal_strlit("server_iv");
    reveal_strlit("auth_key");
    reveal_strlit("dgram-leg-token");
    reveal_strlit("dgram-chain-c2s");
    reveal_strlit("dgram-chain-s2c");
    reveal_strlit("dgram-hp-c2s");
    reveal_strlit("dgram-hp-s2c");
    lemma_texts_differ("client_aead"@, "client_iv"@);
    assert("client_aead"@[0] != "server_aead"@[0]);
    lemma_texts_differ("client_aead"@, "server_aead"@);
    lemma_texts_differ("client_aead"@, "server_iv"@);
    lemma_texts_differ("client_aead"@, "auth_key"@);
    lemma_texts_differ("client_aead"@, "dgram-leg-token"@);
    lemma_texts_differ("client_aead"@, "dgram-chain-c2s"@);
    lemma_texts_differ("client_aead"@, "dgram-chain-s2c"@);
    lemma_texts_differ("client_aead"@, "dgram-hp-c2s"@);
    lemma_texts_differ("client_aead"@, "dgram-hp-s2c"@);
    lemma_texts_differ("client_iv"@, "server_aead"@);
    assert("client_iv"@[0] != "server_iv"@[0]);
    lemma_texts_differ("client_iv"@, "server_iv"@);
    lemma_texts_differ("client_iv"@, "auth_key"@);
    lemma_texts_differ("client_iv"@, "dgram-leg-token"@);
    lemma_texts_differ("client_iv"@, "dgram-chain-c2s"@);
    lemma_texts_differ("client_iv"@, "dgram-chain-s2c"@);
    lemma_texts_differ("client_iv"@, "dgram-hp-c2s"@);
    lemma_texts_differ("client_iv"@, "dgram-hp-s2c"@);
    lemma_texts_differ("server_aead"@, "server_iv"@);
    lemma_texts_differ("server_aead"@, "auth_key"@);
    lemma_texts_differ("server_aead"@, "dgram-leg-token"@);
    lemma_texts_differ("server_aead"@, "dgram-chain-c2s"@);
    lemma_texts_differ("server_aead"@, "dgram-chain-s2c"@);
    lemma_texts_differ("server_aead"@, "dgram-hp-c2s"@);
    lemma_texts_differ("server_aead"@, "dgram-hp-s2c"@);
    lemma_texts_differ("server_iv"@, "auth_key"@);
    lemma_texts_differ("server_iv"@, "dgram-leg-token"@);
    lemma_texts_differ("server_iv"@, "dgram-chain-c2s"@);
    lemma_texts_differ("server_iv"@, "dgram-chain-s2c"@);
    lemma_texts_differ("server_iv"@, "dgram-hp-c2s"@);
    lemma_texts_differ("server_iv"@, "dgram-hp-s2c"@);
    lemma_texts_differ("auth_key"@, "dgram-leg-token"@);
    lemma_texts_differ("auth_key"@, "dgram-chain-c2s"@);
    lemma_texts_differ("auth_key"@, "dgram-chain-s2c"@);
    lemma_texts_differ("auth_key"@, "dgram-hp-c2s"@);
    lemma_texts_differ("auth_key"@, "dgram-hp-s2c"@);
    assert("dgram-leg-token"@[6] != "dgram-chain-c2s"@[6]);
    lemma_texts_differ("dgram-leg-token"@, "dgram-chain-c2s"@);
    assert("dgram-leg-token"@[6] != "dgram-chain-s2c"@[6]);
    lemma_texts_differ("dgram-leg-token"@, "dgram-chain-s2c"@);
    lemma_texts_differ("dgram-leg-token"@, "dgram-hp-c2s"@);
    lemma_texts_differ("dgram-leg-token"@, "dgram-hp-s2c"@);
    assert("dgram-chain-c2s"@[12] != "dgram-chain-s2c"@[12]);
    lemma_texts_differ("dgram-chain-c2s"@, "dgram-chain-s2c"@);
    lemma_texts_differ("dgram-chain-c2s"@, "dgram-hp-c2s"@);
    lemma_texts_differ("dgram-chain-c2s"@, "dgram-hp-s2c"@);
    lemma_texts_differ("dgram-chain-s2c"@, "dgram-hp-c2s"@);
    lemma_texts_differ("dgram-chain-s2c"@, "dgram-hp-s2c"@);
    assert("dgram-hp-c2s"@[9] != "dgram-hp-s2c"@[9]);
    lemma_texts_differ("dgram-hp-c2s"@, "dgram-hp-s2c"@);
}

/// The keys of a datagram leg are derived from the root of the session, each under a label of
/// its own: the token, a chain for what the client sends and one for what the server sends,
/// and a header key for either. The client sends along the first chain and receives along the
/// second, the server the other way round.
pub proof fn lemma_leg_keys(root: Seq<u8>, is_initiator: bool)
    ensures
        ({
            let m = material_of(root, is_initiator);
            let c2s = hkdf_expand(root, encode_utf8("dgram-chain-c2s"@), 32);
            let s2c = hkdf_expand(root, encode_utf8("dgram-chain-s2c"@), 32);
            let hp_c2s = hkdf_expand(root, encode_utf8("dgram-hp-c2s"@), 32);
            let hp_s2c = hkdf_expand(root, encode_utf8("dgram-hp-s2c"@), 32);
            &&& m.leg_token == hkdf_expand(root, encode_utf8("dgram-leg-token"@), 16)
            &&& is_initiator ==> m.tx.chain == c2s && m.rx.chain == s2c && m.hp_key_tx == hp_c2s
                && m.hp_key_rx == hp_s2c
            &&& !is_initiator ==> m.tx.chain == s2c && m.rx.chain == c2s && m.hp_key_tx == hp_s2c
                && m.hp_key_rx == hp_c2s
            &&& m.tx.epoch_id == 0
            &&& m.rx.epoch_id == 0
        }),
{
}

/// The key, the salt and the next chain of an epoch are derived from its chain, each under a
/// label of its own, so that none of them gives another away. Epochs are counted modulo 256.
pub proof fn lemma_epoch_keys(chain: RatchetView)
    ensures
        chain.current().key == hkdf_expand(chain.chain, encode_utf8("dgram-epoch-key"@), 32),
        chain.current().salt == hkdf_expand(chain.chain, encode_utf8("dgram-epoch-salt"@), 12),
        chain.current().epoch_id == chain.epoch_id,
        chain.next().chain == hkdf_expand(chain.chain, encode_utf8("dgram-epoch-next"@), 32),
        chain.next().epoch_id == (chain.epoch_id + 1) % 256,
        encode_utf8("dgram-epoch-key"@) != encode_utf8("dgram-epoch-salt"@),
        encode_utf8("dgram-epoch-key"@) != encode_utf8("dgram-epoch-next"@),
        encode_utf8("dgram-epoch-salt"@) != encode_utf8("dgram-epoch-next"@),
{
    reveal_strlit("dgram-epoch-key");
    reveal_strlit("dgram-epoch-salt");
    reveal_strlit("dgram-epoch-next");
    assert("dgram-epoch-salt"@[12] == 's' && "dgram-epoch-next"@[12] == 'n');
    lemma_texts_differ("dgram-epoch-key"@, "dgram-epoch-salt"@);
    lemma_texts_differ("dgram-epoch-key"@, "dgram-epoch-next"@);
    lemma_texts_differ("dgram-epoch-salt"@, "dgram-epoch-next"@);
}

/// A frame's tag is the front of the code over the time step alone. A hello's tag covers the
/// words of the handshake, the step, the hello's random bytes and the key that it offers.
pub proof fn lemma_tags(key: Seq<u8>, step: u64, random: Seq<u8>, public: Seq<u8>)
    ensures
        frame_tag(key, step) == hmac_sha256(key, be64(step)).subrange(0, 16),
        hello_tag(key, step, random, public) == hmac_sha256(
            key,
            encode_utf8("nrxp-handshake-v3"@) + be64(step) + random + public,
        ).subrange(0, 16),
{
}

/// A time step lasts a minute. At a step the tags of that step are accepted, of the two before
/// it and of the two after it, and no others.
pub proof fn lemma_time_window(now: u64, made: u64)
    ensures
        step_of(now) == now / 60,
        in_window(made, step_of(now)) <==> -2 <= made - now / 60 <= 2,
{
}

/// The tag that a side puts into its hello: with credentials the one that is bound to the
/// node's secret, its salt and its key, without them the one of the time under its key of the
/// tags.
pub proof fn lemma_own_tag(view: SessionView, random: Seq<u8>, step: u64)
    ensures
        match view.identity {
            Some(Identity::Peer(p)) => own_tag(view, random, step) == hmac_sha256(
                p.secret(),
                encode_utf8("nrxp-handshake-v3"@) + be64(step) + random + view.public,
            ).subrange(0, 16),
            Some(Identity::Local(l)) => own_tag(view, random, step) == hmac_sha256(
                l.secret(),
                encode_utf8("nrxp-handshake-v3"@) + be64(step) + random + view.public,
            ).subrange(0, 16),
            None => own_tag(view, random, step) == hmac_sha256(
                view.auth_key,
                be64(step),
            ).subrange(0, 16),
        },
{
    match view.identity {
        Some(id) => lemma_tags(id.node_secret(), step, random, view.public),
        None => lemma_tags(view.auth_key, step, random, view.public),
    }
}

/// Whether a tag is the one of a time step: bound to a secret, random bytes and a key, or to
/// the time alone.
pub open spec fn tag_of_step(
    view: SessionView,
    tag: Seq<u8>,
    random: Seq<u8>,
    public: Seq<u8>,
    made: u64,
) -> bool {
    if view.peer_version >= 3 && view.identity is Some {
        tag == hmac_sha256(
            match view.identity->Some_0 {
                Identity::Peer(p) => p.secret(),
                Identity::Local(l) => l.secret(),
            },
            encode_utf8("nrxp-handshake-v3"@) + be64(made) + random + public,
        ).subrange(0, 16)
    } else {
        tag == hmac_sha256(view.auth_key, be64(made)).subrange(0, 16)
    }
}

/// A tag is accepted exactly when it is the one of a step that is at most two away from the
/// current one. A node with credentials that faces an anonymous peer accepts it only when it
/// is not strict.
pub proof fn lemma_accepted_tags(
    view: SessionView,
    tag: Seq<u8>,
    random: Seq<u8>,
    public: Seq<u8>,
    step: u64,
)
    ensures
        peer_tag_accepted(view, tag, random, public, step) <==> {
            &&& exists|made: u64|
                -2 <= made - step <= 2 && #[trigger] tag_of_step(view, tag, random, public, made)
            &&& view.identity is None || view.peer_version >= 3 || !(match view.identity->Some_0 {
                Identity::Peer(_) => true,
                Identity::Local(l) => l.is_strict(),
            })
        },
{
    let key = if view.static_exchange() {
        view.identity->Some_0.node_secret()
    } else {
        view.auth_key
    };
    assert forall|made: u64| #[trigger] tag_of_step(view, tag, random, public, made) == (
    if view.static_exchange() {
        tag == hello_tag(key, made, random, public)
    } else {
        tag == frame_tag(key, made)
    }) by {
        lemma_tags(key, made, random, public);
    }
    if view.static_exchange() {
        if hello_tag_accepted(key, tag, random, public, step) {
            let made = choose|made: u64|
                in_window(made, step) && tag == #[trigger] hello_tag(key, made, random, public);
            assert(tag_of_step(view, tag, random, public, made));
        }
        if exists|made: u64|
            -2 <= made - step <= 2 && #[trigger] tag_of_step(view, tag, random, public, made) {
            let made = choose|made: u64|
                -2 <= made - step <= 2 && #[trigger] tag_of_step(view, tag, random, public, made);
            assert(in_window(made, step) && tag == hello_tag(key, made, random, public));
        }
    } else {
        if frame_tag_accepted(key, tag, step) {
            let made = choose|made: u64|
                in_window(made, step) && tag == #[trigger] frame_tag(key, made);
            assert(tag_of_step(view, tag, random, public, made));
        }
        if exists|made: u64|
            -2 <= made - step <= 2 && #[trigger] tag_of_step(view, tag, random, public, made) {
            let made = choose|made: u64|
                -2 <= made - step <= 2 && #[trigger] tag_of_step(view, tag, random, public, made);
            assert(in_window(made, step) && tag == frame_tag(key, made));
        }
    }
}

/// With credentials on both sides a tag is accepted exactly when it is the front of the code,
/// under the node's secret, over the words of the handshake, a minute at most two away from
/// the current one, the hello's random bytes and the key that it offers.
pub proof fn lemma_bound_tag(
    view: SessionView,
    tag: Seq<u8>,
    random: Seq<u8>,
    public: Seq<u8>,
    step: u64,
)
    requires
        view.identity is Some,
        view.peer_version >= 3,
    ensures
        ({
            let secret = match view.identity->Some_0 {
                Identity::Peer(p) => p.secret(),
                Identity::Local(l) => l.secret(),
            };
            peer_tag_accepted(view, tag, random, public, step) <==> exists|made: u64|
                -2 <= made - step <= 2 && tag == hmac_sha256(
                    secret,
                    encode_utf8("nrxp-handshake-v3"@) + #[trigger] be64(made) + random + public,
                ).subrange(0, 16)
        }),
{
    let secret = view.identity->Some_0.node_secret();
    let words = encode_utf8("nrxp-handshake-v3"@);
    lemma_accepted_tags(view, tag, random, public, step);
    if exists|made: u64|
        -2 <= made - step <= 2 && tag == hmac_sha256(
            secret,
            words + #[trigger] be64(made) + random + public,
        ).subrange(0, 16) {
        let made = choose|made: u64|
            -2 <= made - step <= 2 && tag == hmac_sha256(
                secret,
                words + #[trigger] be64(made) + random + public,
            ).subrange(0, 16);
        assert(tag_of_step(view, tag, random, public, made));
    }
    if peer_tag_accepted(view, tag, random, public, step) {
        let made = choose|made: u64|
            -2 <= made - step <= 2 && #[trigger] tag_of_step(view, tag, random, public, made);
        assert(tag == hmac_sha256(secret, words + be64(made) + random + public).subrange(0, 16));
    }
}

/// An anonymous peer's tag is accepted by a side that takes such peers exactly when it is the
/// front of the code, under that side's key of the tags, over a minute at most two away from
/// the current one.
pub proof fn lemma_timed_tag(
    view: SessionView,
    tag: Seq<u8>,
    random: Seq<u8>,
    public: Seq<u8>,
    step: u64,
)
    requires
        view.identity is None || (view.peer_version < 3 && view.identity->Some_0 is Local && !(
        view.identity->Some_0->Local_0.is_strict())),
    ensures
        peer_tag_accepted(view, tag, random, public, step) <==> exists|made: u64|
            -2 <= made - step <= 2 && tag == hmac_sha256(
                view.auth_key,
                #[trigger] be64(made),
            ).subrange(0, 16),
{
    lemma_accepted_tags(view, tag, random, public, step);
    if exists|made: u64|
        -2 <= made - step <= 2 && tag == hmac_sha256(
            view.auth_key,
            #[trigger] be64(made),
        ).subrange(0, 16) {
        let made = choose|made: u64|
            -2 <= made - step <= 2 && tag == hmac_sha256(
                view.auth_key,
                #[trigger] be64(made),
            ).subrange(0, 16);
        assert(tag_of_step(view, tag, random, public, made));
    }
    if peer_tag_accepted(view, tag, random, public, step) {
        let made = choose|made: u64|
            -2 <= made - step <= 2 && #[trigger] tag_of_step(view, tag, random, public, made);
        assert(tag == hmac_sha256(view.auth_key, be64(made)).subrange(0, 16));
    }
}

/// The tag of a frame is accepted exactly when it is the front of the code over a minute at
/// most two away from the current one.
pub proof fn lemma_frame_tag_accepted(key: Seq<u8>, tag: Seq<u8>, step: u64)
    ensures
        frame_tag_accepted(key, tag, step) <==> exists|made: u64|
            -2 <= made - step <= 2 && tag == hmac_sha256(key, #[trigger] be64(made)).subrange(
                0,
                16,
            ),
{
    if frame_tag_accepted(key, tag, step) {
        let made = choose|made: u64|
            in_window(made, step) && tag == #[trigger] frame_tag(key, made);
        assert(tag == hmac_sha256(key, be64(made)).subrange(0, 16));
    }
    if exists|made: u64|
        -2 <= made - step <= 2 && tag == hmac_sha256(key, #[trigger] be64(made)).subrange(0, 16) {
        let made = choose|made: u64|
            -2 <= made - step <= 2 && tag == hmac_sha256(key, #[trigger] be64(made)).subrange(
                0,
                16,
            );
        assert(in_window(made, step) && tag == frame_tag(key, made));
    }
}

/// The tag of a hello is accepted exactly when it is the front of the code over the words of
/// the handshake, a minute at most two away from the current one, the random bytes and the
/// key.
pub proof fn lemma_hello_tag_accepted(
    key: Seq<u8>,
    tag: Seq<u8>,
    random: Seq<u8>,
    public: Seq<u8>,
    step: u64,
)
    ensures
        hello_tag_accepted(key, tag, random, public, step) <==> exists|made: u64|
            -2 <= made - step <= 2 && tag == hmac_sha256(
                key,
                encode_utf8("nrxp-handshake-v3"@) + #[trigger] be64(made) + random + public,
            ).subrange(0, 16),
{
    let words = encode_utf8("nrxp-handshake-v3"@);
    if hello_tag_accepted(key, tag, random, public, step) {
        let made = choose|made: u64|
            in_window(made, step) && tag == #[trigger] hello_tag(key, made, random, public);
        assert(tag == hmac_sha256(key, words + be64(made) + random + public).subrange(0, 16));
    }
    if exists|made: u64|
        -2 <= made - step <= 2 && tag == hmac_sha256(
            key,
            words + #[trigger] be64(made) + random + public,
        ).subrange(0, 16) {
        let made = choose|made: u64|
            -2 <= made - step <= 2 && tag == hmac_sha256(
                key,
                words + #[trigger] be64(made) + random + public,
            ).subrange(0, 16);
        assert(in_window(made, step) && tag == hello_tag(key, made, random, public));
    }
}

/// Before the handshake a side has a salt and an ephemeral pair and nothing else: the other
/// salt and the key of the tags are zeros, and there are no keys. Without credentials the other
/// side is taken for one of version 2, with them for one of version 3.
pub proof fn lemma_fresh_side(
    view: SessionView,
    is_initiator: bool,
    identity: Option<Identity>,
    peer_version: u8,
)
    requires
        fresh(view, is_initiator, identity, peer_version),
    ensures
        view.local_salt.len() == 32,
        view.remote_salt.len() == 32,
        forall|i: int| 0 <= i < 32 ==> #[trigger] view.remote_salt[i] == 0,
        view.auth_key.len() == 32,
        forall|i: int| 0 <= i < 32 ==> #[trigger] view.auth_key[i] == 0,
        view.secret matches Some(secret) && secret.len() == 32 && view.public == x25519_public(
            secret,
        ),
        view.public.len() == 32,
        view.aead is None,
        view.root is None,
        view.is_initiator == is_initiator,
        view.identity == identity,
        view.peer_version == peer_version,
        PROTOCOL_VERSION == 3,
        PROTOCOL_VERSION_ANONYMOUS == 2,
        MIN_VERSION_FOR_STATIC_DH == 3,
{
}

} // verus!
