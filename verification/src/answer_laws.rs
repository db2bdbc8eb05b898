//! What a server answers, and to whom.

use bytes::Bytes;
use vstd::prelude::*;
use vstd::utf8::encode_utf8;

use crate::app_error::AppError;
use crate::bridge::{answered, server_hello_record, HandshakeMessage};
use crate::buffers::bytes_view;
use crate::crypto::auth::step_of;
use crate::crypto::identity::Identity;
use crate::crypto::key_laws::{
    lemma_accepted_tags, lemma_established, lemma_time_window, tag_of_step,
};
use crate::crypto::primitives::hkdf_expand;
use crate::crypto::session::{
    fault_error, peer_share, share_key, x25519_in, SessionView, ShareFault,
};
use crate::errors::{ErrorAction, ErrorStage, TlsError};
use crate::tlseng::extension::{block_bytes, ext_bytes, first_of};
use crate::tlseng::layout_laws::{lemma_server_announces_highest, lemma_server_hello_layout};
use crate::tlseng::profile::ServerProfile;
use crate::utils::byte_order::{be16, low16, u16_at, zeros};
use crate::utils::text::decimal;

verus! {

/// Whether an entry of a client's list of keys can be used: an X25519 key of 32 bytes.
pub open spec fn usable(entry: (u16, Seq<u8>)) -> bool {
    entry.0 == 0x001d && entry.1.len() == 32
}

/// Of a client's list of `group | length | key` entries the first usable one counts, whatever
/// comes before or behind it. A list of whole entries with no usable one has no key.
pub proof fn lemma_key_in_list(entries: Seq<(u16, Seq<u8>)>, tail: Seq<u8>)
    requires
        forall|i: int| 0 <= i < entries.len() ==> (#[trigger] entries[i]).1.len() <= 0xffff,
    ensures
        forall|i: int|
            0 <= i < entries.len() && usable(#[trigger] entries[i]) && (forall|j: int|
                0 <= j < i ==> !usable(#[trigger] entries[j])) ==> x25519_in(
                block_bytes(entries) + tail,
            ) == Some(entries[i].1),
        tail.len() < 4 && (forall|i: int| 0 <= i < entries.len() ==> !usable(#[trigger] entries[i]))
            ==> x25519_in(block_bytes(entries) + tail) is None,
    decreases entries.len(),
{
    let list = block_bytes(entries) + tail;
    if entries.len() > 0 {
        let (group, key) = entries[0];
        let rest = entries.drop_first();
        let n = key.len() as int;
        assert forall|i: int| 0 <= i < rest.len() implies (#[trigger] rest[i]).1.len()
            <= 0xffff by {
            assert(rest[i] == entries[i + 1]);
        }
        lemma_key_in_list(rest, tail);
        assert(block_bytes(entries) == ext_bytes(group, key) + block_bytes(rest));
        assert(list[0] == be16(group)[0] && list[1] == be16(group)[1]);
        assert(list[2] == be16(low16(key.len()))[0] && list[3] == be16(low16(key.len()))[1]);
        assert(u16_at(list, 0) == group);
        assert(u16_at(list, 2) == n);
        assert(list.subrange(4, 4 + n) =~= key);
        assert(list.subrange(4 + n, list.len() as int) =~= block_bytes(rest) + tail);
        assert(entries[0] == (group, key));
        if !usable(entries[0]) {
            assert(x25519_in(list) == x25519_in(block_bytes(rest) + tail));
            assert forall|i: int|
                0 <= i < entries.len() && usable(#[trigger] entries[i]) && (forall|j: int|
                    0 <= j < i ==> !usable(#[trigger] entries[j])) implies x25519_in(list) == Some(
                entries[i].1,
            ) by {
                assert(rest[i - 1] == entries[i]);
                assert forall|j: int| 0 <= j < i - 1 implies !usable(#[trigger] rest[j]) by {
                    assert(rest[j] == entries[j + 1]);
                }
            }
            if forall|i: int| 0 <= i < entries.len() ==> !usable(#[trigger] entries[i]) {
                assert forall|i: int| 0 <= i < rest.len() implies !usable(#[trigger] rest[i]) by {
                    assert(rest[i] == entries[i + 1]);
                }
            }
        } else {
            assert(x25519_in(list) == Some(key));
            assert forall|i: int|
                0 <= i < entries.len() && usable(#[trigger] entries[i]) && (forall|j: int|
                    0 <= j < i ==> !usable(#[trigger] entries[j])) implies x25519_in(list) == Some(
                entries[i].1,
            ) by {
                assert(i == 0);
            }
        }
    } else {
        assert(list =~= tail);
    }
}

/// The key of a client stands in a list behind its length, which may not reach beyond the
/// extension. The key of a server stands alone: four bytes in, 32 bytes long.
pub proof fn lemma_share_places(data: Seq<u8>)
    ensures
        data.len() >= 2 ==> {
            let n = data[0] * 256 + data[1];
            &&& 2 + n > data.len() ==> share_key(data, true) is Err
            &&& 2 + n <= data.len() ==> match x25519_in(data.subrange(2, 2 + n)) {
                Some(key) => share_key(data, true) matches Ok(found) && found == key,
                None => share_key(data, true) is Err,
            }
        },
        data.len() < 2 ==> share_key(data, true) is Err,
        data.len() >= 36 && data[2] == 0 && data[3] == 32 ==> (share_key(data, false) matches Ok(
            found,
        ) && found == data.subrange(4, 36)),
        data.len() < 36 || data[2] != 0 || data[3] != 32 ==> share_key(data, false) is Err,
{
}

/// The key of the other side is that of the first `key_share` extension. One of zeros is none.
pub proof fn lemma_peer_share(entries: Seq<(u16, Seq<u8>)>, from_client: bool)
    ensures
        match first_of(entries, 0x0033) {
            None => peer_share(entries, from_client) is Err,
            Some(data) => match share_key(data, from_client) {
                Err(_) => peer_share(entries, from_client) is Err,
                Ok(key) => {
                    &&& (forall|i: int| 0 <= i < 32 ==> key[i] == 0) && key.len() == 32
                        ==> peer_share(entries, from_client) is Err
                    &&& (exists|i: int| 0 <= i < 32 && key[i] != 0) ==> (peer_share(
                        entries,
                        from_client,
                    ) matches Ok(found) && found == key)
                },
            },
        },
{
    if let Some(data) = first_of(entries, 0x0033) {
        if let Ok(key) = share_key(data, from_client) {
            if (forall|i: int| 0 <= i < 32 ==> key[i] == 0) && key.len() == 32 {
                assert(key =~= zeros(32));
            }
            if exists|i: int| 0 <= i < 32 && key[i] != 0 {
                let i = choose|i: int| 0 <= i < 32 && key[i] != 0;
                assert(key[i] != zeros(32)[i]);
            }
        }
    }
}

/// Whether an outcome is an error of the handshake that drops the connection.
pub open spec fn dropped(r: Result<(Bytes, u8), TlsError>, reason: &'static str) -> bool {
    r matches Err(e) && e.stage == ErrorStage::Handshake(reason) && e.action == ErrorAction::Drop
        && bytes_view(e.data).len() == 0
}

/// A hello is answered exactly when it is a client's, has a session id of 32 bytes, a usable
/// key, and in the second half of its id a tag of a minute that is at most two away from the
/// server's clock. A strict node also asks for the credentials, and a node answers with an
/// ephemeral key only once. Everything else is dropped, and derives no keys.
///
/// In particular a tag that was made more than two minutes' steps ago is refused, and so is
/// one that was made for other random bytes or another key.
pub proof fn lemma_who_is_answered(
    msg: HandshakeMessage,
    before: SessionView,
    profile: ServerProfile,
    now: u64,
    r: Result<(Bytes, u8), TlsError>,
    after: SessionView,
)
    requires
        answered(msg, before, profile, step_of(now), r, after),
    ensures
        match msg {
            HandshakeMessage::Server { .. } => dropped(r, "Expected ClientHello") && after
                == before,
            HandshakeMessage::Client { base, extensions } => {
                let sid = bytes_view(base.session_id);
                let tag = sid.subrange(16, 32);
                let versioned = SessionView { peer_version: sid[0], ..before };
                &&& sid.len() != 32 ==> dropped(r, "Invalid SessionID len") && after == before
                &&& sid.len() == 32 && peer_share(extensions.entries(), true) is Err ==> dropped(
                    r,
                    "Bad KeyShare",
                ) && after == versioned
                &&& sid.len() == 32 && peer_share(extensions.entries(), true) is Ok ==> {
                    let peer = peer_share(extensions.entries(), true)->Ok_0;
                    let timely = exists|made: u64|
                        -2 <= made - now / 60 <= 2 && #[trigger] tag_of_step(
                            versioned,
                            tag,
                            base.random@,
                            peer,
                            made,
                        );
                    let welcome = before.identity is None || sid[0] >= 3 || !(
                    match before.identity->Some_0 {
                        Identity::Peer(_) => true,
                        Identity::Local(l) => l.is_strict(),
                    });
                    &&& !timely || !welcome ==> dropped(r, "Auth Failed") && after == versioned
                    &&& timely && welcome && before.secret is None ==> dropped(
                        r,
                        "Key Exchange Failed",
                    ) && after == (SessionView { remote_salt: base.random@, ..versioned })
                    &&& timely && welcome && before.secret is Some ==> {
                        &&& r matches Ok((_, version)) && version == sid[0]
                        &&& after == (SessionView {
                            remote_salt: base.random@,
                            ..versioned
                        }).established(peer, true)
                    }
                }
            },
        },
{
    if let HandshakeMessage::Client { base, extensions } = msg {
        let sid = bytes_view(base.session_id);
        let versioned = SessionView { peer_version: sid[0], ..before };
        lemma_time_window(now, now);
        if let Ok(peer) = peer_share(extensions.entries(), true) {
            lemma_accepted_tags(
                versioned,
                sid.subrange(16, 32),
                base.random@,
                peer,
                step_of(now),
            );
        }
    }
}

/// What an answer says: its random bytes are the server's salt, it echoes the client's session
/// id, its key is the server's, and its version is the highest of the profile. The keys that
/// the server then holds are those of the root, and it sends with the server's pair.
pub proof fn lemma_what_is_answered(
    msg: HandshakeMessage,
    before: SessionView,
    profile: ServerProfile,
    now: u64,
    hello: Bytes,
    version: u8,
    after: SessionView,
)
    requires
        before.wf(),
        answered(msg, before, profile, step_of(now), Ok((hello, version)), after),
    ensures
        msg is Client,
        ({
            let wire = bytes_view(hello);
            let sid = bytes_view(msg->Client_base.session_id);
            let said = wire[85] * 256 + wire[86];
            let list = profile.versions.0@;
            &&& sid.len() == 32
            &&& version == sid[0]
            &&& wire.len() == 127
            &&& wire.subrange(11, 43) == before.local_salt
            &&& wire.subrange(44, 76) == sid
            &&& wire.subrange(95, 127) == before.public
            &&& wire[82] == 0x2b
            &&& said == 0x0301 || said == 0x0303 || said == 0x0304
            &&& forall|v: u16| #[trigger]
                list.contains(v) && (v == 0x0301 || v == 0x0303 || v == 0x0304) ==> v <= said
            &&& list.contains(0x0301) || list.contains(0x0303) || list.contains(0x0304)
                ==> list.contains(said as u16)
        }),
        after.remote_salt == msg->Client_base.random@,
        after.local_salt == before.local_salt,
        after.secret is None,
        after.root matches Some(root) && after.aead matches Some(held) && {
            &&& held.tx_key == hkdf_expand(root, encode_utf8("server_aead"@), 32)
            &&& held.tx_iv == hkdf_expand(root, encode_utf8("server_iv"@), 12)
            &&& held.rx_key == hkdf_expand(root, encode_utf8("client_aead"@), 32)
            &&& held.rx_iv == hkdf_expand(root, encode_utf8("client_iv"@), 12)
            &&& after.auth_key == hkdf_expand(root, encode_utf8("auth_key"@), 32)
        },
{
    lemma_who_is_answered(msg, before, profile, now, Ok((hello, version)), after);
    let base = msg->Client_base;
    let sid = bytes_view(base.session_id);
    let peer = peer_share(msg->Client_extensions.entries(), true)->Ok_0;
    let salted = SessionView { peer_version: sid[0], remote_salt: base.random@, ..before };
    let wire = bytes_view(hello);
    assert(wire == server_hello_record(base, before.public, before.local_salt, profile));
    lemma_server_hello_layout(wire, base, before.public, before.local_salt, profile);
    lemma_server_announces_highest(wire, base, before.public, before.local_salt, profile);
    lemma_established(salted, peer, true);
}

/// What is said of a hello without a usable key, to people and in logs.
pub proof fn lemma_fault_texts(fault: ShareFault, e: AppError)
    requires
        fault_error(fault, e),
    ensures
        e.code@ == "NET_TLS_TAMPER"@,
        fault is AllZeros ==> e.user_msg@ == "Ошибка шифрования"@,
        !(fault is AllZeros) ==> e.user_msg@ == "Ошибка маскировки"@,
        match fault {
            ShareFault::Missing => e.internal_msg@ == "No KeyShare extension found in handshake"@,
            ShareFault::ClientShort(n) => e.internal_msg@ == "Client KeyShare too short: "@
                + decimal(n),
            ShareFault::ListTooLong => e.internal_msg@
                == "KeyShare list_len exceeds extension body"@,
            ShareFault::NoX25519 => e.internal_msg@
                == "Could not find x25519 key in ClientHello"@,
            ShareFault::ServerShort => e.internal_msg@ == "Server KeyShare too short"@,
            ShareFault::ServerLength(n) => e.internal_msg@
                == "Server KeyShare has unexpected key length "@ + decimal(n),
            ShareFault::AllZeros => e.internal_msg@
                == "Extracted remote public key is all ZEROS!"@,
        },
{
}

/// Which fault a `key_share` without a usable key has.
pub proof fn lemma_share_faults(data: Seq<u8>)
    ensures
        data.len() < 2 ==> share_key(data, true) == Err::<Seq<u8>, ShareFault>(
            ShareFault::ClientShort(data.len()),
        ),
        data.len() >= 2 && 2 + data[0] * 256 + data[1] > data.len() ==> share_key(data, true)
            == Err::<Seq<u8>, ShareFault>(ShareFault::ListTooLong),
        data.len() >= 2 && 2 + data[0] * 256 + data[1] <= data.len() && x25519_in(
            data.subrange(2, 2 + data[0] * 256 + data[1]),
        ) is None ==> share_key(data, true) == Err::<Seq<u8>, ShareFault>(ShareFault::NoX25519),
        data.len() < 36 ==> share_key(data, false) == Err::<Seq<u8>, ShareFault>(
            ShareFault::ServerShort,
        ),
        data.len() >= 36 && data[2] * 256 + data[3] != 32 ==> share_key(data, false) == Err::<
            Seq<u8>,
            ShareFault,
        >(ShareFault::ServerLength((data[2] * 256 + data[3]) as nat)),
{
}

} // verus!
