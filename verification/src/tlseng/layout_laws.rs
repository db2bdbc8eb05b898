//! Where everything stands in the hello messages, byte by byte.
//!
//! Both hellos are read by other software, at the least by whoever watches the wire, so their
//! layout is stated here by the places and numbers of their bytes.

use vstd::prelude::*;

use crate::bridge::server_hello_record;
use crate::buffers::bytes_view;
use crate::crypto::session::{own_tag, SessionView};
use crate::tlseng::extension::{
    block_bytes, lemma_block_round_trip, lemma_block_single, scan, BlockScan,
};
use crate::tlseng::extension_builder::{
    draws_for, extension_entry, greased, lemma_ordered_step, ordered_bytes, ordered_entries,
    profile_block, profile_order, HelloContext,
};
use crate::tlseng::extension_laws::{lemma_padding_is_zeros, with_grease};
use crate::tlseng::grease::GreaseSet;
use crate::tlseng::handshake::{
    chosen_suite, client_body, client_hello_of, hello_overhead, hello_session_id, lemma_first_common,
    message_bytes, server_body, server_extensions, ClientHello,
};
use crate::tlseng::hello_laws::lemma_entry_len;
use crate::tlseng::profile::{BrowserProfile, ServerProfile};
use crate::tlseng::tls_record::record_bytes;
use crate::tlseng::types::{lemma_highest_version, ContentType, ProtocolVersion};
use crate::utils::byte_order::{
    be16, be16_list, be24, lemma_be16_list_len, lemma_bytes_by_weight, lemma_list_by_place, low16,
};

verus! {

/// Where the parts of a record with a message stand.
proof fn lemma_framing(t: ContentType, v: ProtocolVersion, kind: u8, body: Seq<u8>)
    requires
        body.len() + 4 <= 0xffff,
    ensures
        ({
            let wire = record_bytes(t, v, message_bytes(kind, body));
            &&& wire.len() == 9 + body.len()
            &&& wire[0] == t.wire()
            &&& wire[1] * 256 + wire[2] == v.wire()
            &&& wire[3] * 256 + wire[4] == body.len() + 4
            &&& wire[5] == kind
            &&& wire[6] * 65536 + wire[7] * 256 + wire[8] == body.len()
            &&& forall|i: int| 0 <= i < body.len() ==> wire[9 + i] == #[trigger] body[i]
        }),
{
    let message = message_bytes(kind, body);
    let wire = record_bytes(t, v, message);
    let n = body.len() as u32;
    lemma_bytes_by_weight(v.wire(), n, 0, 0);
    lemma_bytes_by_weight((n + 4) as u16, n, 0, 0);
    assert(low16(message.len()) == n + 4);
    assert(message[1] == be24(n)[0] && message[2] == be24(n)[1] && message[3] == be24(n)[2]);
    assert(wire[1] == be16(v.wire())[0] && wire[2] == be16(v.wire())[1]);
    assert(wire[3] == be16((n + 4) as u16)[0] && wire[4] == be16((n + 4) as u16)[1]);
    assert forall|i: int| 0 <= i < message.len() implies wire[5 + i] == #[trigger] message[i] by {}
    assert(wire[5] == message[0] && wire[6] == message[1] && wire[7] == message[2] && wire[8]
        == message[3]);
    assert forall|i: int| 0 <= i < body.len() implies wire[9 + i] == #[trigger] body[i] by {
        assert(message[4 + i] == body[i]);
    }
}

/// Where the parts of a client's body stand.
proof fn lemma_client_places(
    random: Seq<u8>,
    sid: Seq<u8>,
    suites: Seq<u16>,
    block: Seq<u8>,
)
    requires
        random.len() == 32,
        sid.len() == 32,
        2 * suites.len() <= 0xffff,
        block.len() <= 0xffff,
    ensures
        ({
            let b = client_body(random, sid, suites, block);
            let m = 2 * suites.len() as int;
            &&& b.len() == 73 + m + block.len()
            &&& b[0] == 3 && b[1] == 3
            &&& forall|i: int| 0 <= i < 32 ==> b[2 + i] == #[trigger] random[i]
            &&& b[34] == 32
            &&& forall|i: int| 0 <= i < 32 ==> b[35 + i] == #[trigger] sid[i]
            &&& b[67] * 256 + b[68] == m
            &&& forall|i: int|
                0 <= i < suites.len() ==> b[69 + 2 * i] * 256 + b[70 + 2 * i]
                    == #[trigger] suites[i]
            &&& b[69 + m] == 1 && b[70 + m] == 0
            &&& b[71 + m] * 256 + b[72 + m] == block.len()
            &&& forall|i: int| 0 <= i < block.len() ==> b[73 + m + i] == #[trigger] block[i]
        }),
{
    let b = client_body(random, sid, suites, block);
    let m = 2 * suites.len() as int;
    let list = be16_list(suites);
    lemma_be16_list_len(suites);
    assert(b[67] == be16(m as u16)[0] && b[68] == be16(m as u16)[1]);
    assert(b[71 + m] == be16(block.len() as u16)[0] && b[72 + m] == be16(block.len() as u16)[1]);
    assert forall|i: int| 0 <= i < suites.len() implies b[69 + 2 * i] * 256 + b[70 + 2 * i]
        == #[trigger] suites[i] by {
        lemma_list_by_place(suites, i);
        assert(b[69 + 2 * i] == list[2 * i]);
        assert(b[70 + 2 * i] == list[2 * i + 1]);
    }
}

/// The hello of a client is a record of a handshake, with a message of the first kind, whose
/// lengths say exactly what follows. It poses as TLS 1.2, its random bytes are the salt, its
/// session id is the claimed version, 15 random bytes and the tag, its suites are those of the
/// profile in order, with a GREASE number in front where the profile has GREASE, and it offers
/// no compression. The rest are the extensions.
pub proof fn lemma_client_hello_layout(
    profile: BrowserProfile,
    host: Seq<u8>,
    view: SessionView,
    filler: Seq<u8>,
    step: u64,
    grease: GreaseSet,
    block: Seq<u8>,
    wire: Seq<u8>,
)
    requires
        view.wf(),
        client_hello_of(profile, host, view, filler, step, grease, block, wire),
        wire.len() <= 5 + 0xffff,
    ensures
        ({
            let suites = with_grease(profile, grease.cipher, profile.cipher_suites@);
            let m = 2 * suites.len() as int;
            &&& wire.len() == 82 + m + block.len()
            &&& wire[0] == 22
            &&& wire[1] * 256 + wire[2] == profile.record_layer_version.wire()
            &&& wire[3] * 256 + wire[4] == wire.len() - 5
            &&& wire[5] == 1
            &&& wire[6] * 65536 + wire[7] * 256 + wire[8] == wire.len() - 9
            &&& wire[9] == 3 && wire[10] == 3
            &&& wire.subrange(11, 43) == view.local_salt
            &&& wire[43] == 32
            &&& wire[44] == (if view.identity is Some {
                3u8
            } else {
                2u8
            })
            &&& wire.subrange(45, 60) == filler
            &&& wire.subrange(60, 76) == own_tag(view, view.local_salt, step)
            &&& wire[76] * 256 + wire[77] == m
            &&& forall|i: int|
                0 <= i < suites.len() ==> wire[78 + 2 * i] * 256 + wire[79 + 2 * i]
                    == #[trigger] suites[i]
            &&& wire[78 + m] == 1 && wire[79 + m] == 0
            &&& wire[80 + m] * 256 + wire[81 + m] == block.len()
            &&& wire.subrange(82 + m, wire.len() as int) == block
        }),
{
    let suites = with_grease(profile, grease.cipher, profile.cipher_suites@);
    assert(suites == greased(profile.cipher_suites@, profile.has_grease, grease.cipher));
    let m = 2 * suites.len() as int;
    let sid = hello_session_id(view, filler, step);
    let tag = own_tag(view, view.local_salt, step);
    let body = client_body(view.local_salt, sid, suites, block);
    lemma_be16_list_len(suites);
    assert(sid.len() == 32);
    assert(body.len() == 73 + m + block.len());
    assert(message_bytes(1, body).len() == 4 + body.len());
    assert(wire.len() == 9 + body.len());
    lemma_client_places(view.local_salt, sid, suites, block);
    lemma_framing(ContentType::Handshake, profile.record_layer_version, 1, body);
    assert(sid.subrange(1, 16) =~= filler);
    assert(sid.subrange(16, 32) =~= tag);
    lemma_client_read(wire, body, view.local_salt, sid, suites, block);
}

/// What stands in a body stands nine bytes further on in its record.
proof fn lemma_shifted(wire: Seq<u8>, body: Seq<u8>, at: int, part: Seq<u8>)
    requires
        wire.len() == 9 + body.len(),
        forall|i: int| 0 <= i < body.len() ==> wire[9 + i] == #[trigger] body[i],
        0 <= at,
        at + part.len() <= body.len(),
        forall|i: int| 0 <= i < part.len() ==> body[at + i] == #[trigger] part[i],
    ensures
        wire.subrange(9 + at, 9 + at + part.len()) == part,
{
    assert forall|i: int| 0 <= i < part.len() implies wire[9 + at + i] == part[i] by {
        assert(body[at + i] == part[i]);
        assert(wire[9 + (at + i)] == body[at + i]);
    }
    assert(wire.subrange(9 + at, 9 + at + part.len()) =~= part);
}

/// What is read in the record of a client's body.
proof fn lemma_client_read(
    wire: Seq<u8>,
    body: Seq<u8>,
    salt: Seq<u8>,
    sid: Seq<u8>,
    suites: Seq<u16>,
    block: Seq<u8>,
)
    requires
        wire.len() == 9 + body.len(),
        forall|i: int| 0 <= i < body.len() ==> wire[9 + i] == #[trigger] body[i],
        salt.len() == 32,
        sid.len() == 32,
        body.len() == 73 + 2 * suites.len() + block.len(),
        forall|i: int| 0 <= i < 32 ==> body[2 + i] == #[trigger] salt[i],
        forall|i: int| 0 <= i < 32 ==> body[35 + i] == #[trigger] sid[i],
        forall|i: int|
            0 <= i < suites.len() ==> body[69 + 2 * i] * 256 + body[70 + 2 * i]
                == #[trigger] suites[i],
        forall|i: int|
            0 <= i < block.len() ==> body[73 + 2 * suites.len() + i] == #[trigger] block[i],
    ensures
        ({
            let m = 2 * suites.len() as int;
            &&& wire[9] == body[0] && wire[10] == body[1]
            &&& wire.subrange(11, 43) == salt
            &&& wire[43] == body[34]
            &&& wire[44] == sid[0]
            &&& wire.subrange(45, 60) == sid.subrange(1, 16)
            &&& wire.subrange(60, 76) == sid.subrange(16, 32)
            &&& wire[76] == body[67] && wire[77] == body[68]
            &&& forall|i: int|
                0 <= i < suites.len() ==> wire[78 + 2 * i] * 256 + wire[79 + 2 * i]
                    == #[trigger] suites[i]
            &&& wire[78 + m] == body[69 + m] && wire[79 + m] == body[70 + m]
            &&& wire[80 + m] == body[71 + m] && wire[81 + m] == body[72 + m]
            &&& wire.subrange(82 + m, wire.len() as int) == block
        }),
{
    let m = 2 * suites.len() as int;
    lemma_shifted(wire, body, 2, salt);
    lemma_shifted(wire, body, 35, sid);
    lemma_shifted(wire, body, 73 + m, block);
    let s = wire.subrange(44, 76);
    assert(s == sid);
    assert(wire[44] == s[0]);
    assert(wire.subrange(45, 60) =~= s.subrange(1, 16));
    assert(wire.subrange(60, 76) =~= s.subrange(16, 32));
    assert forall|i: int| 0 <= i < suites.len() implies wire[78 + 2 * i] * 256 + wire[79 + 2 * i]
        == #[trigger] suites[i] by {
        assert(wire[9 + (69 + 2 * i)] == body[69 + 2 * i]);
        assert(wire[9 + (70 + 2 * i)] == body[70 + 2 * i]);
    }
    assert(wire[9 + (69 + m)] == body[69 + m] && wire[9 + (70 + m)] == body[70 + m]);
    assert(wire[9 + (71 + m)] == body[71 + m] && wire[9 + (72 + m)] == body[72 + m]);
}

/// The extensions of a client's hello are read as those of the profile, for the host and the
/// public key, in an order of the profile.
pub proof fn lemma_hello_extensions(
    profile: BrowserProfile,
    host: Seq<u8>,
    view: SessionView,
    filler: Seq<u8>,
    step: u64,
    grease: GreaseSet,
    block: Seq<u8>,
    wire: Seq<u8>,
) -> (r: (HelloContext, Seq<u16>, Seq<Seq<u8>>))
    requires
        view.wf(),
        client_hello_of(profile, host, view, filler, step, grease, block, wire),
        wire.len() <= 5 + 0xffff,
    ensures
        r.0.profile == profile,
        r.0.host == host,
        r.0.pub_key == view.public,
        r.0.grease == grease,
        grease.wf(),
        r.0.overhead == wire.len() - 5 - block.len(),
        profile_order(profile, r.1),
        draws_for(r.0, r.1, r.2),
        scan(block) == BlockScan::Whole(ordered_entries(r.0, r.1, 0, r.2)),
{
    lemma_client_hello_layout(profile, host, view, filler, step, grease, block, wire);
    let ctx = HelloContext {
        profile,
        host,
        pub_key: view.public,
        grease,
        overhead: hello_overhead(profile),
    };
    assert(profile_block(ctx, 0, block));
    let (order, draws) = choose|order: Seq<u16>, draws: Seq<Seq<u8>>|
        profile_order(ctx.profile, order) && draws_for(ctx, order, draws) && block
            == #[trigger] ordered_bytes(ctx, order, 0, draws);
    let entries = ordered_entries(ctx, order, 0, draws);
    assert(block == block_bytes(entries));
    assert forall|i: int| 0 <= i < entries.len() implies (#[trigger] entries[i]).1.len()
        <= 0xffff by {
        lemma_entry_len(entries, i);
    }
    lemma_block_round_trip(entries);
    (ctx, order, draws)
}

/// Where the parts of a server's body stand.
proof fn lemma_server_places(
    v: ProtocolVersion,
    random: Seq<u8>,
    sid: Seq<u8>,
    suite: u16,
    block: Seq<u8>,
)
    requires
        random.len() == 32,
        sid.len() <= 255,
        block.len() <= 0xffff,
    ensures
        ({
            let b = server_body(v, random, sid, suite, block);
            let n = sid.len() as int;
            &&& b.len() == 40 + n + block.len()
            &&& b[0] * 256 + b[1] == v.wire()
            &&& forall|i: int| 0 <= i < 32 ==> b[2 + i] == #[trigger] random[i]
            &&& b[34] == n
            &&& forall|i: int| 0 <= i < n ==> b[35 + i] == #[trigger] sid[i]
            &&& b[35 + n] * 256 + b[36 + n] == suite
            &&& b[37 + n] == 0
            &&& b[38 + n] * 256 + b[39 + n] == block.len()
            &&& forall|i: int| 0 <= i < block.len() ==> b[40 + n + i] == #[trigger] block[i]
        }),
{
    let b = server_body(v, random, sid, suite, block);
    let n = sid.len() as int;
    assert(b[0] == be16(v.wire())[0] && b[1] == be16(v.wire())[1]);
    assert(b[35 + n] == be16(suite)[0] && b[36 + n] == be16(suite)[1]);
    assert(b[38 + n] == be16(block.len() as u16)[0] && b[39 + n] == be16(block.len() as u16)[1]);
}

/// Where the parts of a server's extensions stand.
proof fn lemma_server_block(v: ProtocolVersion, key: Seq<u8>)
    requires
        key.len() == 32,
    ensures
        ({
            let b = server_extensions(v, key);
            &&& b.len() == 46
            &&& b[0] == 0 && b[1] == 0x2b && b[2] == 0 && b[3] == 2
            &&& b[4] * 256 + b[5] == v.wire()
            &&& b[6] == 0 && b[7] == 0x33 && b[8] == 0 && b[9] == 36
            &&& b[10] == 0 && b[11] == 0x1d && b[12] == 0 && b[13] == 32
            &&& forall|i: int| 0 <= i < 32 ==> b[14 + i] == #[trigger] key[i]
        }),
{
    let b = server_extensions(v, key);
    assert(b[4] == be16(v.wire())[0] && b[5] == be16(v.wire())[1]);
}

/// What a server's record is made of, behind each other.
proof fn lemma_server_parts(
    wire: Seq<u8>,
    client: ClientHello,
    key: Seq<u8>,
    salt: Seq<u8>,
    profile: ServerProfile,
) -> (r: (Seq<u8>, Seq<u8>))
    requires
        key.len() == 32,
        salt.len() == 32,
        bytes_view(client.session_id).len() <= 255,
        wire == server_hello_record(client, key, salt, profile),
    ensures
        ({
            let (body, block) = r;
            let sid = bytes_view(client.session_id);
            let n = sid.len() as int;
            &&& wire.len() == 9 + body.len()
            &&& wire[0] == 22
            &&& wire[1] * 256 + wire[2] == profile.record_layer_version.wire()
            &&& wire[3] * 256 + wire[4] == body.len() + 4
            &&& wire[5] == 2
            &&& wire[6] * 65536 + wire[7] * 256 + wire[8] == body.len()
            &&& forall|i: int| 0 <= i < body.len() ==> wire[9 + i] == #[trigger] body[i]
            &&& body.len() == 86 + n
            &&& body[0] * 256 + body[1] == 0x0303
            &&& forall|i: int| 0 <= i < 32 ==> body[2 + i] == #[trigger] salt[i]
            &&& body[34] == n
            &&& forall|i: int| 0 <= i < n ==> body[35 + i] == #[trigger] sid[i]
            &&& body[35 + n] * 256 + body[36 + n] == chosen_suite(profile, client.cipher_suites@)
            &&& body[37 + n] == 0
            &&& body[38 + n] * 256 + body[39 + n] == 46
            &&& forall|i: int| 0 <= i < 46 ==> body[40 + n + i] == #[trigger] block[i]
            &&& block.len() == 46
            &&& block[0] == 0 && block[1] == 0x2b && block[2] == 0 && block[3] == 2
            &&& block[4] * 256 + block[5] == profile.versions.highest().wire()
            &&& block[6] == 0 && block[7] == 0x33 && block[8] == 0 && block[9] == 36
            &&& block[10] == 0 && block[11] == 0x1d && block[12] == 0 && block[13] == 32
            &&& forall|i: int| 0 <= i < 32 ==> block[14 + i] == #[trigger] key[i]
        }),
{
    let sid = bytes_view(client.session_id);
    let v = profile.versions.highest();
    let chosen = chosen_suite(profile, client.cipher_suites@);
    let block = server_extensions(v, key);
    let body = server_body(ProtocolVersion::Tls12, salt, sid, chosen, block);
    lemma_server_block(v, key);
    lemma_server_places(ProtocolVersion::Tls12, salt, sid, chosen, block);
    lemma_framing(ContentType::Handshake, profile.record_layer_version, 2, body);
    (body, block)
}

/// The answer of a server is a record of a handshake, with a message of the second kind, whose
/// lengths say exactly what follows. It poses as TLS 1.2, its random bytes are the salt, and it
/// echoes the client's session id. It names one suite, no compression, one version and the
/// public key.
pub proof fn lemma_server_hello_layout(
    wire: Seq<u8>,
    client: ClientHello,
    key: Seq<u8>,
    salt: Seq<u8>,
    profile: ServerProfile,
)
    requires
        key.len() == 32,
        salt.len() == 32,
        bytes_view(client.session_id).len() <= 255,
        wire == server_hello_record(client, key, salt, profile),
    ensures
        ({
            let sid = bytes_view(client.session_id);
            let n = sid.len() as int;
            &&& wire.len() == 95 + n
            &&& wire[0] == 22
            &&& wire[1] * 256 + wire[2] == profile.record_layer_version.wire()
            &&& wire[3] * 256 + wire[4] == 90 + n
            &&& wire[5] == 2
            &&& wire[6] * 65536 + wire[7] * 256 + wire[8] == 86 + n
            &&& wire[9] * 256 + wire[10] == 0x0303
            &&& wire.subrange(11, 43) == salt
            &&& wire[43] == n
            &&& wire.subrange(44, 44 + n) == sid
            &&& wire[46 + n] == 0
            &&& wire[47 + n] * 256 + wire[48 + n] == 46
            &&& wire[49 + n] == 0 && wire[50 + n] == 0x2b && wire[51 + n] == 0 && wire[52 + n] == 2
            &&& wire[55 + n] == 0 && wire[56 + n] == 0x33 && wire[57 + n] == 0 && wire[58 + n] == 36
            &&& wire[59 + n] == 0 && wire[60 + n] == 0x1d && wire[61 + n] == 0 && wire[62 + n] == 32
            &&& wire.subrange(63 + n, 95 + n) == key
        }),
{
    let (body, block) = lemma_server_parts(wire, client, key, salt, profile);
    lemma_server_read(wire, body, salt, bytes_view(client.session_id), block, key);
}

/// The version that a server answers with is the highest of its profile: it is one of the
/// profile's, as soon as the profile has a known one, and no version of the profile is above
/// it.
pub proof fn lemma_server_announces_highest(
    wire: Seq<u8>,
    client: ClientHello,
    key: Seq<u8>,
    salt: Seq<u8>,
    profile: ServerProfile,
)
    requires
        key.len() == 32,
        salt.len() == 32,
        bytes_view(client.session_id).len() <= 255,
        wire == server_hello_record(client, key, salt, profile),
    ensures
        ({
            let n = bytes_view(client.session_id).len() as int;
            let version = wire[53 + n] * 256 + wire[54 + n];
            let list = profile.versions.0@;
            &&& version == 0x0301 || version == 0x0303 || version == 0x0304
            &&& forall|v: u16| #[trigger]
                list.contains(v) && (v == 0x0301 || v == 0x0303 || v == 0x0304) ==> v <= version
            &&& list.contains(0x0301) || list.contains(0x0303) || list.contains(0x0304)
                ==> list.contains(version as u16)
        }),
{
    let (body, block) = lemma_server_parts(wire, client, key, salt, profile);
    lemma_server_read(wire, body, salt, bytes_view(client.session_id), block, key);
    lemma_highest_version(profile.versions);
}

/// The suite that a server answers with is the first by preference that both sides have: by
/// the server's preference where the profile says so, otherwise by the client's. Without a
/// common one it is the mandatory one of TLS 1.3.
pub proof fn lemma_server_chooses_suite(
    wire: Seq<u8>,
    client: ClientHello,
    key: Seq<u8>,
    salt: Seq<u8>,
    profile: ServerProfile,
    wanted: Seq<u16>,
    other: Seq<u16>,
)
    requires
        key.len() == 32,
        salt.len() == 32,
        bytes_view(client.session_id).len() <= 255,
        wire == server_hello_record(client, key, salt, profile),
        profile.honor_cipher_order ==> wanted == profile.cipher_suites@ && other
            == client.cipher_suites@,
        !profile.honor_cipher_order ==> wanted == client.cipher_suites@ && other
            == profile.cipher_suites@,
    ensures
        ({
            let n = bytes_view(client.session_id).len() as int;
            let suite = wire[44 + n] * 256 + wire[45 + n];
            ||| suite == 0x1301 && forall|i: int|
                0 <= i < wanted.len() ==> !other.contains(#[trigger] wanted[i])
            ||| exists|i: int|
                0 <= i < wanted.len() && #[trigger] wanted[i] == suite && other.contains(wanted[i])
                    && forall|j: int| 0 <= j < i ==> !other.contains(#[trigger] wanted[j])
        }),
{
    let (body, block) = lemma_server_parts(wire, client, key, salt, profile);
    lemma_server_read(wire, body, salt, bytes_view(client.session_id), block, key);
    lemma_first_common(wanted, other);
}

/// What is read in the record of a server's body.
proof fn lemma_server_read(
    wire: Seq<u8>,
    body: Seq<u8>,
    salt: Seq<u8>,
    sid: Seq<u8>,
    block: Seq<u8>,
    key: Seq<u8>,
)
    requires
        wire.len() == 9 + body.len(),
        forall|i: int| 0 <= i < body.len() ==> wire[9 + i] == #[trigger] body[i],
        salt.len() == 32,
        block.len() == 46,
        key.len() == 32,
        body.len() == 40 + sid.len() + block.len(),
        forall|i: int| 0 <= i < 32 ==> body[2 + i] == #[trigger] salt[i],
        forall|i: int| 0 <= i < sid.len() ==> body[35 + i] == #[trigger] sid[i],
        forall|i: int| 0 <= i < block.len() ==> body[40 + sid.len() + i] == #[trigger] block[i],
        forall|i: int| 0 <= i < 32 ==> block[14 + i] == #[trigger] key[i],
    ensures
        ({
            let n = sid.len() as int;
            &&& wire[9] == body[0] && wire[10] == body[1]
            &&& wire.subrange(11, 43) == salt
            &&& wire[43] == body[34]
            &&& wire.subrange(44, 44 + n) == sid
            &&& wire[44 + n] == body[35 + n] && wire[45 + n] == body[36 + n]
            &&& wire[46 + n] == body[37 + n]
            &&& wire[47 + n] == body[38 + n] && wire[48 + n] == body[39 + n]
            &&& wire[49 + n] == block[0] && wire[50 + n] == block[1] && wire[51 + n] == block[2]
                && wire[52 + n] == block[3] && wire[53 + n] == block[4] && wire[54 + n] == block[5]
            &&& wire[55 + n] == block[6] && wire[56 + n] == block[7] && wire[57 + n] == block[8]
                && wire[58 + n] == block[9] && wire[59 + n] == block[10] && wire[60 + n]
                == block[11] && wire[61 + n] == block[12] && wire[62 + n] == block[13]
            &&& wire.subrange(63 + n, 95 + n) == key
        }),
{
    let n = sid.len() as int;
    lemma_shifted(wire, body, 2, salt);
    lemma_shifted(wire, body, 35, sid);
    lemma_shifted(wire, body, 40 + n, block);
    assert(wire[9 + (35 + n)] == body[35 + n] && wire[9 + (36 + n)] == body[36 + n]);
    assert(wire[9 + (37 + n)] == body[37 + n]);
    assert(wire[9 + (38 + n)] == body[38 + n] && wire[9 + (39 + n)] == body[39 + n]);
    let w = wire.subrange(49 + n, 95 + n);
    assert(w == block);
    assert(w[0] == wire[49 + n] && w[1] == wire[50 + n] && w[2] == wire[51 + n] && w[3] == wire[52
        + n] && w[4] == wire[53 + n] && w[5] == wire[54 + n] && w[6] == wire[55 + n]);
    assert(w[7] == wire[56 + n] && w[8] == wire[57 + n] && w[9] == wire[58 + n] && w[10] == wire[59
        + n] && w[11] == wire[60 + n] && w[12] == wire[61 + n] && w[13] == wire[62 + n]);
    assert(wire.subrange(63 + n, 95 + n) =~= key) by {
        assert forall|i: int| 0 <= i < 32 implies wire[63 + n + i] == key[i] by {
            assert(block[14 + i] == key[i]);
            assert(w[14 + i] == wire[49 + n + (14 + i)]);
        }
    }
}

/// Where a profile pads at the end of its extensions, the message is as long as the profile aims
/// for, the header of the record aside. Only when it is that long already, or so nearly that not
/// even the head of the padding fits, it is not padded.
pub proof fn lemma_padded_length(
    profile: BrowserProfile,
    host: Seq<u8>,
    view: SessionView,
    filler: Seq<u8>,
    step: u64,
    grease: GreaseSet,
    block: Seq<u8>,
    wire: Seq<u8>,
)
    requires
        view.wf(),
        client_hello_of(profile, host, view, filler, step, grease, block, wire),
        wire.len() <= 5 + 0xffff,
        profile.target_padding_len > 0,
        profile.extension_order.0@.len() > 0,
        profile.extension_order.0@.last() == 0x0015,
    ensures
        wire.len() - 5 == profile.target_padding_len || wire.len() - 5
            >= profile.target_padding_len - 4,
{
    let ctx = HelloContext {
        profile,
        host,
        pub_key: view.public,
        grease,
        overhead: hello_overhead(profile),
    };
    let (order, draws) = choose|order: Seq<u16>, draws: Seq<Seq<u8>>|
        profile_order(ctx.profile, order) && draws_for(ctx, order, draws) && block
            == #[trigger] ordered_bytes(ctx, order, 0, draws);
    lemma_client_hello_layout(profile, host, view, filler, step, grease, block, wire);
    assert(order.last() == 0x0015);
    let front = ordered_bytes(ctx, order.drop_last(), 0, draws.drop_last());
    let size = front.len() as int;
    lemma_ordered_step(ctx, order, 0, draws);
    lemma_padding_is_zeros(ctx, size, draws.last());
    let entry = extension_entry(ctx, 0x0015, size, draws.last());
    if entry.len() == 1 {
        assert(entry =~= seq![entry[0]]);
        lemma_block_single(entry[0].0, entry[0].1);
    }
    assert(with_grease(profile, grease.cipher, profile.cipher_suites@).len() == greased(
        profile.cipher_suites@,
        profile.has_grease,
        0,
    ).len());
}

} // verus!
