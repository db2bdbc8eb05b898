//! What is read out of a hello is what was written into it.

use vstd::prelude::*;

use crate::bridge::{processed, HandshakeMessage, TlsInterceptor};
use crate::buffers::bytes_view;
use crate::crypto::session::{share_key, x25519_in, ShareFault};
use crate::errors::TlsError;
use crate::parser::Parser;
use crate::tlseng::consts::{
    HANDSHAKE_TYPE_CLIENT_HELLO, HANDSHAKE_TYPE_SERVER_HELLO, TYPE_HOST_NAME,
};
use crate::tlseng::extension::{
    block_bytes, ext_bytes, first_of, lemma_block_concat, lemma_block_round_trip,
    lemma_block_single, sni_host,
};
use crate::tlseng::extension_builder::{
    draw_for, draws_for, extension_entry, greased, list16_body, ordered_bytes, ordered_entries,
    profile_order, share_body, share_entry, share_list, sni_body, HelloContext,
};
use crate::tlseng::handshake::{
    client_body, client_end, client_extensions, client_extensions_at, client_suites,
    compression_at, message_bytes, server_block, server_body, server_end, server_extensions,
    server_extensions_at, suites_at, ClientHello, ServerHello,
};
use crate::tlseng::profile::BrowserProfile;
use crate::tlseng::tls_record::{lemma_record_round_trip, record_bytes, TlsRecord};
use crate::tlseng::types::{ContentType, HelloType, ProtocolVersion, TlsExtensions, TlsGroups};
use crate::utils::byte_order::{be16, be16_list, lemma_be16_list_len, low16, low8, u16_at};

verus! {

/// Where a number of a list stands.
proof fn lemma_be16_list_at(values: Seq<u16>, i: int)
    requires
        0 <= i < values.len(),
    ensures
        be16_list(values).len() == 2 * values.len(),
        be16_list(values)[2 * i] == be16(values[i])[0],
        be16_list(values)[2 * i + 1] == be16(values[i])[1],
    decreases values.len(),
{
    lemma_be16_list_len(values);
    lemma_be16_list_len(values.drop_last());
    if i < values.len() - 1 {
        lemma_be16_list_at(values.drop_last(), i);
    }
}

/// The parts of a client's body are where they are looked for.
proof fn lemma_client_body(
    random: Seq<u8>,
    session_id: Seq<u8>,
    suites: Seq<u16>,
    block: Seq<u8>,
)
    requires
        random.len() == 32,
        session_id.len() <= 255,
        2 * suites.len() <= 0xffff,
        block.len() <= 0xffff,
    ensures
        ({
            let b = client_body(random, session_id, suites, block);
            &&& b.len() == 41 + session_id.len() + 2 * suites.len() + block.len()
            &&& ClientHello::complete(b)
            &&& u16_at(b, 0) == 0x0303
            &&& u16_at(b, suites_at(b)) % 2 == 0
            &&& b.subrange(2, 34) == random
            &&& b.subrange(35, suites_at(b)) == session_id
            &&& client_suites(b) == suites
            &&& client_extensions(b) == block
        }),
{
    let b = client_body(random, session_id, suites, block);
    lemma_be16_list_len(suites);
    let n = session_id.len() as int;
    let m = 2 * suites.len() as int;
    let list = be16_list(suites);
    assert(b[0] == be16(0x0303)[0] && b[1] == be16(0x0303)[1]);
    assert(b[34] == low8(session_id.len()));
    assert(suites_at(b) == 35 + n);
    assert(b[35 + n] == be16(low16(m as nat))[0]);
    assert(b[36 + n] == be16(low16(m as nat))[1]);
    assert(u16_at(b, suites_at(b)) == m);
    assert(compression_at(b) == 37 + n + m);
    assert(b[37 + n + m] == 1);
    assert(client_extensions_at(b) == 39 + n + m);
    assert(b[39 + n + m] == be16(low16(block.len()))[0]);
    assert(b[40 + n + m] == be16(low16(block.len()))[1]);
    assert(u16_at(b, 39 + n + m) == block.len());
    assert(client_end(b) == b.len());
    assert(b.subrange(2, 34) =~= random);
    assert(b.subrange(35, suites_at(b)) =~= session_id);
    assert(client_extensions(b) =~= block);
    assert(client_suites(b) =~= suites) by {
        assert forall|i: int| 0 <= i < suites.len() implies u16_at(b, 37 + n + 2 * i)
            == suites[i] by {
            lemma_be16_list_at(suites, i);
            assert(b[37 + n + 2 * i] == list[2 * i]);
            assert(b[37 + n + 2 * i + 1] == list[2 * i + 1]);
        }
    }
}

/// The parts of a server's body are where they are looked for.
proof fn lemma_server_body(
    version: ProtocolVersion,
    random: Seq<u8>,
    session_id: Seq<u8>,
    suite: u16,
    block: Seq<u8>,
)
    requires
        random.len() == 32,
        session_id.len() <= 255,
        block.len() <= 0xffff,
    ensures
        ({
            let b = server_body(version, random, session_id, suite, block);
            &&& b.len() == 40 + session_id.len() + block.len()
            &&& ServerHello::complete(b)
            &&& u16_at(b, 0) == version.wire()
            &&& b.subrange(2, 34) == random
            &&& b.subrange(35, server_extensions_at(b) - 3) == session_id
            &&& u16_at(b, server_extensions_at(b) - 3) == suite
            &&& server_block(b) == block
        }),
{
    let b = server_body(version, random, session_id, suite, block);
    let n = session_id.len() as int;
    assert(b[0] == be16(version.wire())[0] && b[1] == be16(version.wire())[1]);
    assert(b[34] == low8(session_id.len()));
    assert(server_extensions_at(b) == 38 + n);
    assert(b[35 + n] == be16(suite)[0] && b[36 + n] == be16(suite)[1]);
    assert(b[38 + n] == be16(low16(block.len()))[0]);
    assert(b[39 + n] == be16(low16(block.len()))[1]);
    assert(u16_at(b, 38 + n) == block.len());
    assert(server_end(b) == b.len());
    assert(b.subrange(2, 34) =~= random);
    assert(b.subrange(35, server_extensions_at(b) - 3) =~= session_id);
    assert(server_block(b) =~= block);
}

/// The body of a message is where it is looked for.
proof fn lemma_message(kind: u8, body: Seq<u8>)
    ensures
        message_bytes(kind, body).len() == 4 + body.len(),
        message_bytes(kind, body)[0] == kind,
        message_bytes(kind, body).subrange(4, 4 + body.len() as int) == body,
{
    assert(message_bytes(kind, body).subrange(4, 4 + body.len() as int) =~= body);
}

/// No extension is longer than the block it is in.
pub proof fn lemma_entry_len(entries: Seq<(u16, Seq<u8>)>, i: int)
    requires
        0 <= i < entries.len(),
    ensures
        entries[i].1.len() + 4 <= block_bytes(entries).len(),
    decreases entries.len(),
{
    if i > 0 {
        lemma_entry_len(entries.drop_first(), i - 1);
        assert(entries.drop_first()[i - 1] == entries[i]);
    }
}

/// A `ClientHello` that fits into a record is read back as it was written, whatever follows
/// it on the wire.
pub proof fn lemma_client_hello_round_trip(
    record_version: ProtocolVersion,
    random: Seq<u8>,
    session_id: Seq<u8>,
    suites: Seq<u16>,
    entries: Seq<(u16, Seq<u8>)>,
    tail: Seq<u8>,
    r: Result<Option<HandshakeMessage>, TlsError>,
    rest: Seq<u8>,
)
    requires
        random.len() == 32,
        session_id.len() <= 255,
        45 + session_id.len() + 2 * suites.len() + block_bytes(entries).len() <= 0xffff,
        processed::<HandshakeMessage>(
            record_bytes(
                ContentType::Handshake,
                record_version,
                message_bytes(
                    HANDSHAKE_TYPE_CLIENT_HELLO,
                    client_body(random, session_id, suites, block_bytes(entries)),
                ),
            ) + tail,
            r,
            rest,
        ),
    ensures
        r matches Ok(Some(HandshakeMessage::Client { base, extensions })) && {
            &&& base._version == ProtocolVersion::Tls12
            &&& base.random@ == random
            &&& bytes_view(base.session_id) == session_id
            &&& base.cipher_suites@ == suites
            &&& extensions.entries() == entries
        },
        rest == tail,
{
    let block = block_bytes(entries);
    let body = client_body(random, session_id, suites, block);
    let message = message_bytes(HANDSHAKE_TYPE_CLIENT_HELLO, body);
    let b = record_bytes(ContentType::Handshake, record_version, message) + tail;
    lemma_client_body(random, session_id, suites, block);
    lemma_message(HANDSHAKE_TYPE_CLIENT_HELLO, body);
    assert forall|i: int| 0 <= i < entries.len() implies (#[trigger] entries[i]).1.len()
        <= 0xffff by {
        lemma_entry_len(entries, i);
    }
    lemma_block_round_trip(entries);
    let p = choose|p: Result<Option<TlsRecord>, TlsError>| #[trigger]
        TlsRecord::outcome(b, p, rest) && match p {
            Ok(Some(record)) => HandshakeMessage::handled(record, r),
            Ok(None) => r matches Ok(None),
            Err(e) => r == Err::<Option<HandshakeMessage>, TlsError>(e),
        };
    assert(TlsRecord::outcome(b, p, rest));
    lemma_record_round_trip(
        ContentType::Handshake,
        record_version,
        message,
        tail,
        p,
        rest,
    );
    assert(HandshakeMessage::handled(p->Ok_0->Some_0, r));
    assert(HelloType::of_wire(message[0]) == Some(HelloType::Client));
}

/// A `ServerHello` is read back as it was written, whatever follows it on the wire.
pub proof fn lemma_server_hello_round_trip(
    record_version: ProtocolVersion,
    version: ProtocolVersion,
    random: Seq<u8>,
    session_id: Seq<u8>,
    suite: u16,
    entries: Seq<(u16, Seq<u8>)>,
    tail: Seq<u8>,
    r: Result<Option<HandshakeMessage>, TlsError>,
    rest: Seq<u8>,
)
    requires
        random.len() == 32,
        session_id.len() <= 255,
        44 + session_id.len() + block_bytes(entries).len() <= 0xffff,
        processed::<HandshakeMessage>(
            record_bytes(
                ContentType::Handshake,
                record_version,
                message_bytes(
                    HANDSHAKE_TYPE_SERVER_HELLO,
                    server_body(version, random, session_id, suite, block_bytes(entries)),
                ),
            ) + tail,
            r,
            rest,
        ),
    ensures
        r matches Ok(Some(HandshakeMessage::Server { base, extensions })) && {
            &&& base.version == version
            &&& base.random@ == random
            &&& bytes_view(base.session_id) == session_id
            &&& base.cipher_suite == suite
            &&& extensions.entries() == entries
        },
        rest == tail,
{
    let block = block_bytes(entries);
    let body = server_body(version, random, session_id, suite, block);
    let message = message_bytes(HANDSHAKE_TYPE_SERVER_HELLO, body);
    let b = record_bytes(ContentType::Handshake, record_version, message) + tail;
    lemma_server_body(version, random, session_id, suite, block);
    lemma_message(HANDSHAKE_TYPE_SERVER_HELLO, body);
    assert forall|i: int| 0 <= i < entries.len() implies (#[trigger] entries[i]).1.len()
        <= 0xffff by {
        lemma_entry_len(entries, i);
    }
    lemma_block_round_trip(entries);
    let p = choose|p: Result<Option<TlsRecord>, TlsError>| #[trigger]
        TlsRecord::outcome(b, p, rest) && match p {
            Ok(Some(record)) => HandshakeMessage::handled(record, r),
            Ok(None) => r matches Ok(None),
            Err(e) => r == Err::<Option<HandshakeMessage>, TlsError>(e),
        };
    assert(TlsRecord::outcome(b, p, rest));
    lemma_record_round_trip(
        ContentType::Handshake,
        record_version,
        message,
        tail,
        p,
        rest,
    );
    assert(HandshakeMessage::handled(p->Ok_0->Some_0, r));
    assert(HelloType::of_wire(message[0]) == Some(HelloType::Server));
}

/// The extensions of a server as a list.
pub open spec fn server_entries(version: ProtocolVersion, key: Seq<u8>) -> Seq<(u16, Seq<u8>)> {
    seq![
        (TlsExtensions::SUPPORTED_VERSIONS, be16(version.wire())),
        (TlsExtensions::KEY_SHARE, share_entry(TlsGroups::X25519, key)),
    ]
}

/// The extensions of a server carry its public key.
pub proof fn lemma_server_extensions(version: ProtocolVersion, key: Seq<u8>)
    requires
        key.len() == 32,
    ensures
        server_extensions(version, key) == block_bytes(server_entries(version, key)),
        server_extensions(version, key).len() == 46,
        first_of(server_entries(version, key), TlsExtensions::KEY_SHARE) == Some(
            share_entry(TlsGroups::X25519, key),
        ),
        share_key(share_entry(TlsGroups::X25519, key), false) == Ok::<Seq<u8>, ShareFault>(key),
{
    let entries = server_entries(version, key);
    let one = (TlsExtensions::SUPPORTED_VERSIONS, be16(version.wire()));
    let two = (TlsExtensions::KEY_SHARE, share_entry(TlsGroups::X25519, key));
    lemma_block_concat(seq![one], seq![two]);
    lemma_block_single(one.0, one.1);
    lemma_block_single(two.0, two.1);
    assert(entries =~= seq![one] + seq![two]);
    assert(server_extensions(version, key) =~= ext_bytes(one.0, one.1) + ext_bytes(two.0, two.1));
    assert(entries.drop_first() =~= seq![two]);
    reveal_with_fuel(first_of, 3);
    let share = share_entry(TlsGroups::X25519, key);
    assert(share[2] == be16(32)[0] && share[3] == be16(32)[1]);
    assert(share.subrange(4, 36) =~= key);
}

/// The first of a type in two lists behind each other.
pub proof fn lemma_first_of_concat(
    a: Seq<(u16, Seq<u8>)>,
    b: Seq<(u16, Seq<u8>)>,
    etype: u16,
)
    ensures
        first_of(a + b, etype) == (if first_of(a, etype) is Some {
            first_of(a, etype)
        } else {
            first_of(b, etype)
        }),
    decreases a.len(),
{
    if a.len() == 0 {
        assert(a + b =~= b);
    } else {
        lemma_first_of_concat(a.drop_first(), b, etype);
        assert((a + b).drop_first() =~= a.drop_first() + b);
        assert((a + b)[0] == a[0]);
    }
}

/// What is written for one place of the order has the type of that place, or a GREASE number.
pub proof fn lemma_entry_type(ctx: HelloContext, id: u16, size: int, draw: Seq<u8>, etype: u16)
    requires
        ctx.grease.wf(),
        !TlsExtensions::grease_number(etype),
        id != etype,
    ensures
        first_of(extension_entry(ctx, id, size, draw), etype) is None,
{
    reveal_with_fuel(first_of, 2);
    let entry = extension_entry(ctx, id, size, draw);
    if entry.len() > 0 {
        assert(entry.len() == 1);
        assert(entry[0].0 != etype);
        assert(entry.drop_first() =~= Seq::empty());
    }
}

/// The data of the extensions that are looked for.
pub open spec fn known_body(ctx: HelloContext, etype: u16, draw: Seq<u8>) -> Seq<u8> {
    if etype == TlsExtensions::SNI {
        sni_body(ctx.host)
    } else if etype == TlsExtensions::SUPPORTED_GROUPS {
        list16_body(greased(ctx.profile.groups.0@, ctx.profile.has_grease, ctx.grease.group))
    } else {
        share_body(ctx.profile, ctx.grease.group, draw, ctx.pub_key)
    }
}

/// The types of the extensions that are looked for.
pub open spec fn is_known(etype: u16) -> bool {
    ||| etype == TlsExtensions::SNI
    ||| etype == TlsExtensions::SUPPORTED_GROUPS
    ||| etype == TlsExtensions::KEY_SHARE
}

/// What is written for one of them.
proof fn lemma_entry_of_place(ctx: HelloContext, id: u16, size: int, draw: Seq<u8>)
    requires
        is_known(id),
    ensures
        first_of(extension_entry(ctx, id, size, draw), id) == Some(known_body(ctx, id, draw)),
{
}

/// What is not in the order is not written.
pub proof fn lemma_absent_in_order(
    ctx: HelloContext,
    order: Seq<u16>,
    size: int,
    draws: Seq<Seq<u8>>,
    etype: u16,
)
    requires
        ctx.grease.wf(),
        !TlsExtensions::grease_number(etype),
        !order.contains(etype),
    ensures
        first_of(ordered_entries(ctx, order, size, draws), etype) is None,
    decreases order.len(),
{
    if order.len() > 0 {
        let front = ordered_entries(ctx, order.drop_last(), size, draws.drop_last());
        assert(order[order.len() - 1] == order.last());
        assert forall|x: u16| order.drop_last().contains(x) implies order.contains(x) by {
            let i = choose|i: int| 0 <= i < order.len() - 1 && order.drop_last()[i] == x;
            assert(order[i] == x);
        }
        let at = size + block_bytes(front).len();
        lemma_absent_in_order(ctx, order.drop_last(), size, draws.drop_last(), etype);
        lemma_entry_type(ctx, order.last(), at, draws.last(), etype);
        lemma_first_of_concat(
            front,
            extension_entry(ctx, order.last(), at, draws.last()),
            etype,
        );
    }
}

/// What is found is what was written for its place in the order.
proof fn lemma_found_in_order(
    ctx: HelloContext,
    order: Seq<u16>,
    size: int,
    draws: Seq<Seq<u8>>,
    etype: u16,
) -> (place: int)
    requires
        ctx.grease.wf(),
        is_known(etype),
        order.contains(etype),
        draws.len() == order.len(),
    ensures
        0 <= place < order.len(),
        order[place] == etype,
        first_of(ordered_entries(ctx, order, size, draws), etype) == Some(
            known_body(ctx, etype, draws[place]),
        ),
    decreases order.len(),
{
    let front_order = order.drop_last();
    let front = ordered_entries(ctx, front_order, size, draws.drop_last());
    let at = size + block_bytes(front).len();
    let last = extension_entry(ctx, order.last(), at, draws.last());
    lemma_first_of_concat(front, last, etype);
    if front_order.contains(etype) {
        let place = lemma_found_in_order(ctx, front_order, size, draws.drop_last(), etype);
        place
    } else {
        let i = choose|i: int| 0 <= i < order.len() && order[i] == etype;
        if i < order.len() - 1 {
            assert(front_order[i] == etype);
        }
        lemma_absent_in_order(ctx, front_order, size, draws.drop_last(), etype);
        lemma_entry_of_place(ctx, order.last(), at, draws.last());
        order.len() - 1
    }
}

/// An order of a profile has what the profile has.
pub proof fn lemma_order_contains(profile: BrowserProfile, order: Seq<u16>, id: u16)
    requires
        profile_order(profile, order),
        profile.extension_order.0@.contains(id),
    ensures
        order.contains(id),
{
    broadcast use vstd::seq_lib::group_to_multiset_ensures;

    let all = profile.extension_order.0@;
    if order != all {
        assert(order.to_multiset() == all.to_multiset());
        assert(all.to_multiset().count(id) > 0);
        assert(order.to_multiset().count(id) > 0);
    }
}

/// The host name that is read out of a `server_name` extension is the one that was written.
pub proof fn lemma_sni_round_trip(host: Seq<u8>)
    requires
        host.len() <= 65532,
    ensures
        sni_host(sni_body(host)) == Some(host),
{
    let data = sni_body(host);
    let n = host.len() as int;
    assert(data[0] == be16((3 + n) as u16)[0] && data[1] == be16((3 + n) as u16)[1]);
    assert(u16_at(data, 0) == 3 + n);
    let list = data.subrange(2, 5 + n);
    assert(list[0] == TYPE_HOST_NAME);
    assert(list[1] == be16(n as u16)[0] && list[2] == be16(n as u16)[1]);
    assert(u16_at(list, 1) == n);
    assert(list.subrange(3, 3 + n) =~= host);
}

/// An entry of another group is passed over.
proof fn lemma_share_skipped(group: u16, key: Seq<u8>, more: Seq<u8>)
    requires
        group != TlsGroups::X25519,
        key.len() <= 0xffff,
    ensures
        x25519_in(share_entry(group, key) + more) == x25519_in(more),
{
    let list = share_entry(group, key) + more;
    let n = key.len() as int;
    assert(list[0] == be16(group)[0] && list[1] == be16(group)[1]);
    assert(list[2] == be16(low16(key.len()))[0] && list[3] == be16(low16(key.len()))[1]);
    assert(u16_at(list, 0) == group);
    assert(u16_at(list, 2) == n);
    assert(list.subrange(4 + n, list.len() as int) =~= more);
}

/// The X25519 key that is read out of a client's `key_share` is the one that was written,
/// whatever stands in front of it there.
pub proof fn lemma_share_round_trip(
    profile: BrowserProfile,
    grease: u16,
    ballast: Seq<u8>,
    key: Seq<u8>,
)
    requires
        TlsExtensions::grease_number(grease),
        ballast.len() <= 60000,
        key.len() == 32,
    ensures
        share_key(share_body(profile, grease, ballast, key), true) == Ok::<Seq<u8>, ShareFault>(
            key,
        ),
{
    let own = share_entry(TlsGroups::X25519, key);
    let pq = if profile.groups.0@.contains(TlsGroups::X25519_MLKEM768) {
        share_entry(TlsGroups::X25519_MLKEM768, ballast)
    } else {
        Seq::empty()
    };
    let first = if profile.has_grease {
        share_entry(grease, seq![0u8])
    } else {
        Seq::empty()
    };
    let list = share_list(profile, grease, ballast, key);
    let data = share_body(profile, grease, ballast, key);
    assert(list =~= first + (pq + own));
    assert(list.len() <= 0xffff);
    assert(own[0] == be16(TlsGroups::X25519)[0] && own[1] == be16(TlsGroups::X25519)[1]);
    assert(own[2] == be16(32)[0] && own[3] == be16(32)[1]);
    assert(own.subrange(4, 36) =~= key);
    assert(x25519_in(own) == Some(key));
    if profile.groups.0@.contains(TlsGroups::X25519_MLKEM768) {
        lemma_share_skipped(TlsGroups::X25519_MLKEM768, ballast, own);
    } else {
        assert(pq + own =~= own);
    }
    if profile.has_grease {
        lemma_share_skipped(grease, seq![0u8], pq + own);
    } else {
        assert(first + (pq + own) =~= pq + own);
    }
    assert(data[0] == be16(low16(list.len()))[0] && data[1] == be16(low16(list.len()))[1]);
    assert(u16_at(data, 0) == list.len());
    assert(data.subrange(2, 2 + list.len() as int) =~= list);
}

/// The extensions of a profile's hello carry the public key, and the host name if the
/// profile sends one.
pub proof fn lemma_profile_entries(ctx: HelloContext, order: Seq<u16>, draws: Seq<Seq<u8>>)
    requires
        ctx.grease.wf(),
        ctx.pub_key.len() == 32,
        profile_order(ctx.profile, order),
        draws_for(ctx, order, draws),
    ensures
        ({
            let entries = ordered_entries(ctx, order, 0, draws);
            &&& ctx.profile.extension_order.0@.contains(TlsExtensions::KEY_SHARE) ==> (first_of(
                entries,
                TlsExtensions::KEY_SHARE,
            ) matches Some(data) && share_key(data, true) == Ok::<Seq<u8>, ShareFault>(
                ctx.pub_key,
            ))
            &&& ctx.profile.extension_order.0@.contains(TlsExtensions::SNI) && ctx.host.len()
                <= 65532 ==> (first_of(entries, TlsExtensions::SNI) matches Some(data) && sni_host(
                data,
            ) == Some(ctx.host))
        }),
{
    let entries = ordered_entries(ctx, order, 0, draws);
    if ctx.profile.extension_order.0@.contains(TlsExtensions::KEY_SHARE) {
        lemma_order_contains(ctx.profile, order, TlsExtensions::KEY_SHARE);
        let place = lemma_found_in_order(ctx, order, 0, draws, TlsExtensions::KEY_SHARE);
        assert(draw_for(ctx, order[place], draws[place]));
        lemma_share_round_trip(ctx.profile, ctx.grease.group, draws[place], ctx.pub_key);
    }
    if ctx.profile.extension_order.0@.contains(TlsExtensions::SNI) {
        lemma_order_contains(ctx.profile, order, TlsExtensions::SNI);
        let place = lemma_found_in_order(ctx, order, 0, draws, TlsExtensions::SNI);
        if ctx.host.len() <= 65532 {
            lemma_sni_round_trip(ctx.host);
        }
    }
}

/// A profile with GREASE shows the same number as the first of its groups and as the first
/// of its key shares, as browsers do.
pub proof fn lemma_grease_group_is_shared(
    ctx: HelloContext,
    order: Seq<u16>,
    draws: Seq<Seq<u8>>,
)
    requires
        ctx.grease.wf(),
        ctx.profile.has_grease,
        profile_order(ctx.profile, order),
        draws_for(ctx, order, draws),
        ctx.profile.extension_order.0@.contains(TlsExtensions::SUPPORTED_GROUPS),
        ctx.profile.extension_order.0@.contains(TlsExtensions::KEY_SHARE),
    ensures
        ({
            let entries = ordered_entries(ctx, order, 0, draws);
            &&& first_of(entries, TlsExtensions::SUPPORTED_GROUPS) matches Some(groups)
                && first_of(entries, TlsExtensions::KEY_SHARE) matches Some(shares) && {
                &&& u16_at(groups, 2) == ctx.grease.group
                &&& u16_at(shares, 2) == ctx.grease.group
                &&& TlsExtensions::grease_number(ctx.grease.group)
            }
        }),
{
    lemma_order_contains(ctx.profile, order, TlsExtensions::SUPPORTED_GROUPS);
    lemma_order_contains(ctx.profile, order, TlsExtensions::KEY_SHARE);
    let _ = lemma_found_in_order(ctx, order, 0, draws, TlsExtensions::SUPPORTED_GROUPS);
    let place = lemma_found_in_order(ctx, order, 0, draws, TlsExtensions::KEY_SHARE);
    let number = ctx.grease.group;
    let values = greased(ctx.profile.groups.0@, true, number);
    let groups = list16_body(values);
    let shares = share_body(ctx.profile, number, draws[place], ctx.pub_key);
    lemma_be16_list_at(values, 0);
    assert(groups[2] == be16_list(values)[0] && groups[3] == be16_list(values)[1]);
    assert(shares[2] == be16(number)[0] && shares[3] == be16(number)[1]);
}

/// A profile that ends in padding gives a hello of exactly the length it aims for, as long
/// as there is room for the padding extension; otherwise nothing is added.
///
/// The length is that of the message, without the record header.
pub proof fn lemma_padding_reaches_target(
    ctx: HelloContext,
    order: Seq<u16>,
    draws: Seq<Seq<u8>>,
)
    requires
        ctx.profile.extension_order.0@.len() > 0,
        ctx.profile.extension_order.0@.last() == TlsExtensions::PADDING,
        ctx.profile.target_padding_len > 0,
        profile_order(ctx.profile, order),
        draws.len() == order.len(),
    ensures
        ({
            let front = ordered_bytes(ctx, order.drop_last(), 0, draws.drop_last());
            let bare = ctx.overhead + front.len();
            let target = ctx.profile.target_padding_len;
            ctx.overhead + ordered_bytes(ctx, order, 0, draws).len() == (if target > bare + 4 {
                target as int
            } else {
                bare as int
            })
        }),
{
    let entries = ordered_entries(ctx, order.drop_last(), 0, draws.drop_last());
    let front = block_bytes(entries);
    let entry = extension_entry(ctx, order.last(), front.len() as int, draws.last());
    lemma_block_concat(entries, entry);
    if entry.len() > 0 {
        lemma_block_single(entry[0].0, entry[0].1);
        assert(entry =~= seq![entry[0]]);
    } else {
        assert(block_bytes(entry).len() == 0);
    }
}

} // verus!
