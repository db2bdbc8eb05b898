//! What every extension of a hello says, byte by byte.
//!
//! A hello has to look like a browser's to those who read it with other software, so what an
//! extension says is stated here by the places and numbers of its bytes.

use vstd::prelude::*;
use vstd::utf8::encode_utf8;

use crate::tlseng::extension::{block_bytes, ext_bytes, first_of, scan, BlockScan};
use crate::tlseng::extension_builder::{
    draw_for, draws_for, ech_body, extension_entry, list16_body, list8_body, ordered_entries,
    profile_order, protocol_list, protocols_body, share_body, share_entry, share_list, sni_body,
    HelloContext,
};
use crate::tlseng::hello_laws::{
    lemma_absent_in_order, lemma_first_of_concat, lemma_order_contains,
};
use crate::tlseng::mlkem::valid_share;
use crate::tlseng::profile::BrowserProfile;
use crate::tlseng::types::TlsExtensions;
use crate::utils::byte_order::{
    be16, be16_list, lemma_be16_list_len, lemma_list_by_place, low16, low8, u16_at,
};

verus! {

/// Whether data is a list of numbers, in order, behind a length of `width` bytes.
pub open spec fn reads_list(data: Seq<u8>, width: int, values: Seq<u16>) -> bool {
    &&& data.len() == width + 2 * values.len()
    &&& width == 1 ==> data[0] == 2 * values.len()
    &&& width == 2 ==> data[0] * 256 + data[1] == 2 * values.len()
    &&& forall|i: int|
        0 <= i < values.len() ==> data[width + 2 * i] * 256 + data[width + 2 * i + 1]
            == #[trigger] values[i]
}

/// A list of numbers is read back from behind its length of two bytes.
proof fn lemma_list16(values: Seq<u16>)
    requires
        2 * values.len() <= 0xffff,
    ensures
        reads_list(list16_body(values), 2, values),
{
    let data = list16_body(values);
    lemma_be16_list_len(values);
    assert forall|i: int| 0 <= i < values.len() implies data[2 + 2 * i] * 256 + data[2 + 2 * i + 1]
        == #[trigger] values[i] by {
        lemma_list_by_place(values, i);
        assert(data[2 + 2 * i] == be16_list(values)[2 * i]);
        assert(data[2 + 2 * i + 1] == be16_list(values)[2 * i + 1]);
    }
}

/// A list of numbers is read back from behind its length of one byte.
proof fn lemma_list8(values: Seq<u16>)
    requires
        2 * values.len() <= 255,
    ensures
        reads_list(list8_body(values), 1, values),
{
    let data = list8_body(values);
    lemma_be16_list_len(values);
    assert forall|i: int| 0 <= i < values.len() implies data[1 + 2 * i] * 256 + data[1 + 2 * i + 1]
        == #[trigger] values[i] by {
        lemma_list_by_place(values, i);
        assert(data[1 + 2 * i] == be16_list(values)[2 * i]);
        assert(data[1 + 2 * i + 1] == be16_list(values)[2 * i + 1]);
    }
}

/// The bytes of names.
pub open spec fn names_of(protocols: Seq<&str>) -> Seq<Seq<u8>> {
    Seq::new(protocols.len(), |i: int| encode_utf8(protocols[i]@))
}

/// A name behind others is read behind them.
proof fn lemma_names_push(list: Seq<u8>, name: Seq<u8>, names: Seq<Seq<u8>>)
    requires
        name.len() <= 255,
        is_names(list, names),
    ensures
        is_names(list + seq![name.len() as u8] + name, names.push(name)),
    decreases list.len(),
{
    let more = list + seq![name.len() as u8] + name;
    if list.len() == 0 {
        assert(names =~= Seq::empty());
        assert(more.subrange(1, 1 + name.len() as int) =~= name);
        assert(more.subrange(1 + name.len() as int, more.len() as int) =~= Seq::empty());
        assert(is_names(Seq::empty(), Seq::empty()));
        assert(names.push(name).drop_first() =~= Seq::empty());
        assert(names.push(name)[0] == name);
    } else {
        let n = list[0] as int;
        let rest = list.subrange(1 + n, list.len() as int);
        lemma_names_push(rest, name, names.drop_first());
        assert(more[0] == list[0]);
        assert(more.subrange(1, 1 + n) =~= list.subrange(1, 1 + n));
        assert(more.subrange(1 + n, more.len() as int) =~= rest + seq![name.len() as u8] + name);
        assert(names.push(name).drop_first() =~= names.drop_first().push(name));
    }
}

/// Whether a list is exactly the given names, each behind its length.
pub open spec fn is_names(list: Seq<u8>, names: Seq<Seq<u8>>) -> bool
    decreases list.len(),
{
    if list.len() == 0 {
        names.len() == 0
    } else {
        &&& names.len() > 0
        &&& 1 + list[0] <= list.len()
        &&& list.subrange(1, 1 + list[0]) == names[0]
        &&& is_names(list.subrange(1 + list[0], list.len() as int), names.drop_first())
    }
}

/// Protocol names are read back.
proof fn lemma_protocols(protocols: Seq<&str>)
    requires
        forall|i: int| 0 <= i < protocols.len() ==> encode_utf8((#[trigger] protocols[i])@).len()
            <= 255,
    ensures
        is_names(protocol_list(protocols), names_of(protocols)),
    decreases protocols.len(),
{
    if protocols.len() == 0 {
        assert(names_of(protocols) =~= Seq::empty());
    } else {
        let front = protocols.drop_last();
        assert forall|i: int| 0 <= i < front.len() implies encode_utf8(
            (#[trigger] front[i])@,
        ).len() <= 255 by {
            assert(front[i] == protocols[i]);
        }
        lemma_protocols(front);
        let name = encode_utf8(protocols.last()@);
        assert(protocols[protocols.len() - 1] == protocols.last());
        lemma_names_push(protocol_list(front), name, names_of(front));
        assert(names_of(protocols) =~= names_of(front).push(name));
        assert(low8(name.len()) == name.len() as u8);
    }
}

/// What is found of a type that is always written when its turn comes is what was written for
/// a place of it in the order.
proof fn lemma_found(
    ctx: HelloContext,
    order: Seq<u16>,
    draws: Seq<Seq<u8>>,
    etype: u16,
) -> (r: (int, int))
    requires
        ctx.grease.wf(),
        !TlsExtensions::grease_number(etype),
        order.contains(etype),
        draws.len() == order.len(),
        forall|size: int, draw: Seq<u8>|
            first_of(#[trigger] extension_entry(ctx, etype, size, draw), etype) is Some,
    ensures
        0 <= r.0 < order.len(),
        order[r.0] == etype,
        first_of(ordered_entries(ctx, order, 0, draws), etype) == first_of(
            extension_entry(ctx, etype, r.1, draws[r.0]),
            etype,
        ),
    decreases order.len(),
{
    let front_order = order.drop_last();
    let front = ordered_entries(ctx, front_order, 0, draws.drop_last());
    let at = 0 + block_bytes(front).len();
    let last = extension_entry(ctx, order.last(), at as int, draws.last());
    lemma_first_of_concat(front, last, etype);
    if front_order.contains(etype) {
        let (place, size) = lemma_found(ctx, front_order, draws.drop_last(), etype);
        assert(draws.drop_last()[place] == draws[place]);
        (place, size)
    } else {
        let i = choose|i: int| 0 <= i < order.len() && order[i] == etype;
        if i < order.len() - 1 {
            assert(front_order[i] == etype);
        }
        lemma_absent_in_order(ctx, front_order, 0, draws.drop_last(), etype);
        (order.len() - 1, at as int)
    }
}

/// The numbers of a list with the connection's GREASE number in front, where the profile has
/// GREASE.
pub open spec fn with_grease(profile: BrowserProfile, number: u16, values: Seq<u16>) -> Seq<u16> {
    if profile.has_grease {
        seq![number] + values
    } else {
        values
    }
}

/// In the hello of a profile the lists are those of the profile, in order: its groups, its
/// signature algorithms, the ones for delegated credentials and its versions, with the
/// connection's GREASE number in front of the groups and of the versions where the profile has
/// GREASE.
pub proof fn lemma_lists_of_profile(ctx: HelloContext, order: Seq<u16>, draws: Seq<Seq<u8>>)
    requires
        ctx.grease.wf(),
        profile_order(ctx.profile, order),
        draws_for(ctx, order, draws),
        ctx.profile.groups.0@.len() <= 32000,
        ctx.profile.signatures.0@.len() <= 32000,
        ctx.profile.delegated_signatures.0@.len() <= 32000,
        ctx.profile.versions.0@.len() <= 126,
    ensures
        ({
            let p = ctx.profile;
            let entries = ordered_entries(ctx, order, 0, draws);
            &&& p.extension_order.0@.contains(0x000a) ==> (first_of(entries, 0x000a) matches Some(
                data,
            ) && reads_list(data, 2, with_grease(p, ctx.grease.group, p.groups.0@)))
            &&& p.extension_order.0@.contains(0x000d) ==> (first_of(entries, 0x000d) matches Some(
                data,
            ) && reads_list(data, 2, p.signatures.0@))
            &&& p.extension_order.0@.contains(0x0022) ==> (first_of(entries, 0x0022) matches Some(
                data,
            ) && reads_list(data, 2, p.delegated_signatures.0@))
            &&& p.extension_order.0@.contains(0x002b) ==> (first_of(entries, 0x002b) matches Some(
                data,
            ) && reads_list(data, 1, with_grease(p, ctx.grease.version, p.versions.0@)))
        }),
{
    let p = ctx.profile;
    let all = p.extension_order.0@;
    lemma_list16(with_grease(p, ctx.grease.group, p.groups.0@));
    lemma_list16(p.signatures.0@);
    lemma_list16(p.delegated_signatures.0@);
    lemma_list8(with_grease(p, ctx.grease.version, p.versions.0@));
    if all.contains(0x000a) {
        lemma_order_contains(p, order, 0x000a);
        let _ = lemma_found(ctx, order, draws, 0x000a);
    }
    if all.contains(0x000d) {
        lemma_order_contains(p, order, 0x000d);
        let _ = lemma_found(ctx, order, draws, 0x000d);
    }
    if all.contains(0x0022) {
        lemma_order_contains(p, order, 0x0022);
        let _ = lemma_found(ctx, order, draws, 0x0022);
    }
    if all.contains(0x002b) {
        lemma_order_contains(p, order, 0x002b);
        let _ = lemma_found(ctx, order, draws, 0x002b);
    }
}

/// In the hello of a profile the protocol names of ALPN and of ALPS are those of the profile,
/// in order, each behind its length and all behind theirs. ALPS is left out where the profile
/// has no names for it.
pub proof fn lemma_protocols_of_profile(ctx: HelloContext, order: Seq<u16>, draws: Seq<Seq<u8>>)
    requires
        ctx.grease.wf(),
        profile_order(ctx.profile, order),
        draws_for(ctx, order, draws),
        forall|i: int|
            0 <= i < ctx.profile.alpn@.len() ==> encode_utf8(
                (#[trigger] ctx.profile.alpn@[i])@,
            ).len() <= 255,
        forall|i: int|
            0 <= i < ctx.profile.alps_protocols@.len() ==> encode_utf8(
                (#[trigger] ctx.profile.alps_protocols@[i])@,
            ).len() <= 255,
    ensures
        ({
            let p = ctx.profile;
            let entries = ordered_entries(ctx, order, 0, draws);
            &&& p.extension_order.0@.contains(0x0010) ==> (first_of(entries, 0x0010) matches Some(
                data,
            ) && data.len() >= 2 && data[0] * 256 + data[1] == (data.len() - 2) % 65536 && is_names(
                data.subrange(2, data.len() as int),
                names_of(p.alpn@),
            ))
            &&& p.extension_order.0@.contains(0x44cd) && p.alps_protocols@.len() > 0 ==> (first_of(
                entries,
                0x44cd,
            ) matches Some(data) && data.len() >= 2 && data[0] * 256 + data[1] == (data.len() - 2)
                % 65536 && is_names(
                data.subrange(2, data.len() as int),
                names_of(p.alps_protocols@),
            ))
        }),
{
    let p = ctx.profile;
    let all = p.extension_order.0@;
    lemma_protocols(p.alpn@);
    lemma_protocols(p.alps_protocols@);
    let one = protocols_body(p.alpn@);
    let two = protocols_body(p.alps_protocols@);
    assert(one.subrange(2, one.len() as int) =~= protocol_list(p.alpn@));
    assert(two.subrange(2, two.len() as int) =~= protocol_list(p.alps_protocols@));
    if all.contains(0x0010) {
        lemma_order_contains(p, order, 0x0010);
        let _ = lemma_found(ctx, order, draws, 0x0010);
    }
    if all.contains(0x44cd) && p.alps_protocols@.len() > 0 {
        lemma_order_contains(p, order, 0x44cd);
        let _ = lemma_found(ctx, order, draws, 0x44cd);
    }
}

/// In the hello of a profile the extensions that say the same in every hello say what browsers
/// say: certificates may come compressed by Brotli, session tickets, certificate timestamps and
/// the extended master secret are empty, keys of resumed sessions come with an exchange, the
/// status is asked for by OCSP, points are not compressed, and nothing was negotiated before.
pub proof fn lemma_fixed_extensions(ctx: HelloContext, order: Seq<u16>, draws: Seq<Seq<u8>>)
    requires
        ctx.grease.wf(),
        profile_order(ctx.profile, order),
        draws_for(ctx, order, draws),
    ensures
        ({
            let all = ctx.profile.extension_order.0@;
            let entries = ordered_entries(ctx, order, 0, draws);
            &&& all.contains(0x001b) ==> first_of(entries, 0x001b) == Some(seq![2u8, 0, 2])
            &&& all.contains(0x0012) ==> first_of(entries, 0x0012) == Some(Seq::<u8>::empty())
            &&& all.contains(0x0017) ==> first_of(entries, 0x0017) == Some(Seq::<u8>::empty())
            &&& all.contains(0x0023) ==> first_of(entries, 0x0023) == Some(Seq::<u8>::empty())
            &&& all.contains(0x002d) ==> first_of(entries, 0x002d) == Some(seq![1u8, 1])
            &&& all.contains(0x0005) ==> first_of(entries, 0x0005) == Some(seq![1u8, 0, 0, 0, 0])
            &&& all.contains(0x000b) ==> first_of(entries, 0x000b) == Some(seq![1u8, 0])
            &&& all.contains(0xff01) ==> first_of(entries, 0xff01) == Some(seq![0u8])
        }),
{
    let p = ctx.profile;
    let all = p.extension_order.0@;
    if all.contains(0x001b) {
        lemma_order_contains(p, order, 0x001b);
        let _ = lemma_found(ctx, order, draws, 0x001b);
        assert(seq![0x0002u16].drop_last() =~= Seq::empty());
        assert(be16_list(Seq::<u16>::empty()) =~= Seq::<u8>::empty());
        assert(list8_body(seq![0x0002u16]) =~= seq![2u8, 0, 2]);
    }
    if all.contains(0x0012) {
        lemma_order_contains(p, order, 0x0012);
        let _ = lemma_found(ctx, order, draws, 0x0012);
    }
    if all.contains(0x0017) {
        lemma_order_contains(p, order, 0x0017);
        let _ = lemma_found(ctx, order, draws, 0x0017);
    }
    if all.contains(0x0023) {
        lemma_order_contains(p, order, 0x0023);
        let _ = lemma_found(ctx, order, draws, 0x0023);
    }
    if all.contains(0x002d) {
        lemma_order_contains(p, order, 0x002d);
        let _ = lemma_found(ctx, order, draws, 0x002d);
    }
    if all.contains(0x0005) {
        lemma_order_contains(p, order, 0x0005);
        let _ = lemma_found(ctx, order, draws, 0x0005);
    }
    if all.contains(0x000b) {
        lemma_order_contains(p, order, 0x000b);
        let _ = lemma_found(ctx, order, draws, 0x000b);
    }
    if all.contains(0xff01) {
        lemma_order_contains(p, order, 0xff01);
        let _ = lemma_found(ctx, order, draws, 0xff01);
    }
}

/// In the hello of a profile the host name stands behind its length and its kind.
pub proof fn lemma_host_of_hello(ctx: HelloContext, order: Seq<u16>, draws: Seq<Seq<u8>>)
    requires
        ctx.grease.wf(),
        profile_order(ctx.profile, order),
        draws_for(ctx, order, draws),
        ctx.profile.extension_order.0@.contains(0x0000),
        ctx.host.len() <= 65532,
    ensures
        first_of(ordered_entries(ctx, order, 0, draws), 0x0000) matches Some(data) && {
            let n = ctx.host.len() as int;
            &&& data.len() == 5 + n
            &&& data[0] * 256 + data[1] == n + 3
            &&& data[2] == 0
            &&& data[3] * 256 + data[4] == n
            &&& data.subrange(5, 5 + n) == ctx.host
        },
{
    lemma_order_contains(ctx.profile, order, 0x0000);
    let _ = lemma_found(ctx, order, draws, 0x0000);
    let data = sni_body(ctx.host);
    assert(data.subrange(5, 5 + ctx.host.len() as int) =~= ctx.host);
}

/// In the hello of a profile the key shares are, behind their length: GREASE with a single zero
/// byte where the profile has GREASE, a post-quantum share of 1216 bytes where its groups have
/// that group, and the public key itself, each behind its group and its length.
pub proof fn lemma_shares_of_hello(ctx: HelloContext, order: Seq<u16>, draws: Seq<Seq<u8>>)
    requires
        ctx.grease.wf(),
        profile_order(ctx.profile, order),
        draws_for(ctx, order, draws),
        ctx.profile.extension_order.0@.contains(0x0033),
        ctx.pub_key.len() == 32,
    ensures
        first_of(ordered_entries(ctx, order, 0, draws), 0x0033) matches Some(data) && {
            let a: int = if ctx.profile.has_grease {
                7
            } else {
                2
            };
            let pq = ctx.profile.groups.0@.contains(0x11ec);
            let b: int = if pq {
                a + 1220
            } else {
                a
            };
            &&& data.len() == b + 36
            &&& data[0] * 256 + data[1] == data.len() - 2
            &&& ctx.profile.has_grease ==> data[2] * 256 + data[3] == ctx.grease.group && data[4]
                == 0 && data[5] == 1 && data[6] == 0
            &&& pq ==> data[a] == 0x11 && data[a + 1] == 0xec && data[a + 2] * 256 + data[a + 3]
                == 1216 && valid_share(data.subrange(a + 4, a + 1220))
            &&& data[b] == 0 && data[b + 1] == 0x1d && data[b + 2] == 0 && data[b + 3] == 32
            &&& data.subrange(b + 4, b + 36) == ctx.pub_key
        },
{
    lemma_order_contains(ctx.profile, order, 0x0033);
    let (place, _) = lemma_found(ctx, order, draws, 0x0033);
    let draw = draws[place];
    assert(draw_for(ctx, order[place], draw));
    lemma_share_places(ctx.profile, ctx.grease.group, draw, ctx.pub_key);
}

/// An entry of `key_share` is its group, the length of its key and the key.
proof fn lemma_share_entry(group: u16, key: Seq<u8>)
    requires
        key.len() <= 0xffff,
    ensures
        ({
            let e = share_entry(group, key);
            &&& e.len() == 4 + key.len()
            &&& e[0] * 256 + e[1] == group
            &&& e[2] * 256 + e[3] == key.len()
            &&& forall|i: int| 0 <= i < key.len() ==> #[trigger] e[4 + i] == key[i]
        }),
{
}

/// Where the parts of three sequences behind each other, behind two bytes, stand.
proof fn lemma_parts(head: Seq<u8>, x: Seq<u8>, y: Seq<u8>, z: Seq<u8>)
    requires
        head.len() == 2,
    ensures
        ({
            let all = head + (x + y + z);
            &&& all.len() == 2 + x.len() + y.len() + z.len()
            &&& all[0] == head[0] && all[1] == head[1]
            &&& forall|i: int| 0 <= i < x.len() ==> all[2 + i] == #[trigger] x[i]
            &&& forall|i: int| 0 <= i < y.len() ==> all[2 + x.len() + i] == #[trigger] y[i]
            &&& forall|i: int|
                0 <= i < z.len() ==> all[2 + x.len() + y.len() + i] == #[trigger] z[i]
        }),
{
}

/// Where the entries of `key_share` stand.
proof fn lemma_share_places(profile: BrowserProfile, grease: u16, draw: Seq<u8>, key: Seq<u8>)
    requires
        key.len() == 32,
        profile.groups.0@.contains(0x11ec) ==> valid_share(draw),
    ensures
        ({
            let data = share_body(profile, grease, draw, key);
            let a: int = if profile.has_grease {
                7
            } else {
                2
            };
            let pq = profile.groups.0@.contains(0x11ec);
            let b: int = if pq {
                a + 1220
            } else {
                a
            };
            &&& data.len() == b + 36
            &&& data[0] * 256 + data[1] == data.len() - 2
            &&& profile.has_grease ==> data[2] * 256 + data[3] == grease && data[4] == 0 && data[5]
                == 1 && data[6] == 0
            &&& pq ==> data[a] == 0x11 && data[a + 1] == 0xec && data[a + 2] * 256 + data[a + 3]
                == 1216 && valid_share(data.subrange(a + 4, a + 1220))
            &&& data[b] == 0 && data[b + 1] == 0x1d && data[b + 2] == 0 && data[b + 3] == 32
            &&& data.subrange(b + 4, b + 36) == key
        }),
{
    let first = if profile.has_grease {
        share_entry(grease, seq![0u8])
    } else {
        Seq::empty()
    };
    let pq = profile.groups.0@.contains(0x11ec);
    let second = if pq {
        share_entry(0x11ec, draw)
    } else {
        Seq::empty()
    };
    let own = share_entry(0x001d, key);
    let list = share_list(profile, grease, draw, key);
    assert(list == first + second + own);
    let data = share_body(profile, grease, draw, key);
    let head = be16(low16(list.len()));
    lemma_share_entry(grease, seq![0u8]);
    if pq {
        lemma_share_entry(0x11ec, draw);
    }
    lemma_share_entry(0x001d, key);
    lemma_parts(head, first, second, own);
    assert(data == head + (first + second + own));
    let a = 2 + first.len() as int;
    let b = a + second.len() as int;
    if profile.has_grease {
        assert(data[2] == first[0] && data[3] == first[1] && data[4] == first[2] && data[5]
            == first[3] && data[6] == first[4]);
        assert(first[4] == seq![0u8][0]);
    }
    if pq {
        assert(data[a + 0] == second[0] && data[a + 1] == second[1] && data[a + 2] == second[2]
            && data[a + 3] == second[3]);
        assert(data.subrange(a + 4, a + 1220) =~= draw) by {
            assert forall|i: int| 0 <= i < 1216 implies data[a + 4 + i] == draw[i] by {
                assert(second[4 + i] == draw[i]);
                assert(data[a + (4 + i)] == second[4 + i]);
            }
        }
    }
    assert(data[b + 0] == own[0] && data[b + 1] == own[1] && data[b + 2] == own[2] && data[b + 3]
        == own[3]);
    assert(data.subrange(b + 4, b + 36) =~= key) by {
        assert forall|i: int| 0 <= i < 32 implies data[b + 4 + i] == key[i] by {
            assert(own[4 + i] == key[i]);
            assert(data[b + (4 + i)] == own[4 + i]);
        }
    }
}

/// In the hello of a profile the encrypted hello is what a browser sends that has none: the
/// outer kind, HKDF-SHA256 and AES-128-GCM, a random number, a random key of 32 bytes and 144
/// random bytes.
pub proof fn lemma_ech_of_hello(ctx: HelloContext, order: Seq<u16>, draws: Seq<Seq<u8>>) -> (
    draw: Seq<u8>)
    requires
        ctx.grease.wf(),
        profile_order(ctx.profile, order),
        draws_for(ctx, order, draws),
        ctx.profile.extension_order.0@.contains(0xfe0d),
    ensures
        draws.contains(draw),
        draw.len() == 177,
        first_of(ordered_entries(ctx, order, 0, draws), 0xfe0d) matches Some(data) && {
            &&& data.len() == 186
            &&& data.subrange(0, 5) == seq![0u8, 0, 1, 0, 1]
            &&& data[5] == draw[0]
            &&& data[6] == 0 && data[7] == 32
            &&& data.subrange(8, 40) == draw.subrange(1, 33)
            &&& data[40] == 0 && data[41] == 144
            &&& data.subrange(42, 186) == draw.subrange(33, 177)
        },
{
    lemma_order_contains(ctx.profile, order, 0xfe0d);
    let (place, _) = lemma_found(ctx, order, draws, 0xfe0d);
    let draw = draws[place];
    assert(draw_for(ctx, order[place], draw));
    let data = ech_body(draw);
    assert(data.subrange(0, 5) =~= seq![0u8, 0, 1, 0, 1]);
    assert(data.subrange(8, 40) =~= draw.subrange(1, 33));
    assert(data.subrange(42, 186) =~= draw.subrange(33, 177));
    draw
}

/// The number under which a place of the order appears, if it does: the places of GREASE under
/// the connection's numbers, or not at all, and everything else under its own.
pub open spec fn sent_type(ctx: HelloContext, id: u16) -> Option<u16> {
    if id == 0x0a0a {
        if ctx.profile.has_grease {
            Some(ctx.grease.ext_first)
        } else {
            None
        }
    } else if id == 0x2a2a {
        if ctx.profile.has_grease {
            Some(ctx.grease.ext_last)
        } else {
            None
        }
    } else if id == 0x44cd {
        if ctx.profile.alps_protocols@.len() > 0 {
            Some(id)
        } else {
            None
        }
    } else if id == 0x0000 || id == 0x0005 || id == 0x000a || id == 0x000b || id == 0x000d || id
        == 0x0010 || id == 0x0012 || id == 0x0017 || id == 0x001b || id == 0x0022 || id == 0x0023
        || id == 0x002b || id == 0x002d || id == 0x0033 || id == 0xfe0d || id == 0xff01 {
        Some(id)
    } else if id / 256 == id % 256 && id % 16 == 10 && ctx.profile.has_grease {
        Some(id)
    } else {
        None
    }
}

/// The numbers under which the places of an order appear.
pub open spec fn sent_types(ctx: HelloContext, order: Seq<u16>) -> Seq<u16>
    decreases order.len(),
{
    if order.len() == 0 {
        Seq::empty()
    } else {
        match sent_type(ctx, order.last()) {
            Some(id) => sent_types(ctx, order.drop_last()).push(id),
            None => sent_types(ctx, order.drop_last()),
        }
    }
}

/// The extensions of a hello stand in the order of the profile, none is left out that the
/// profile has, and none is added. (Padding, which only stands there when there is room for it,
/// is a matter of its own.)
pub proof fn lemma_extensions_in_order(ctx: HelloContext, order: Seq<u16>, draws: Seq<Seq<u8>>)
    requires
        !order.contains(0x0015),
        draws.len() == order.len(),
    ensures
        ({
            let entries = ordered_entries(ctx, order, 0, draws);
            &&& entries.len() == sent_types(ctx, order).len()
            &&& forall|i: int|
                0 <= i < entries.len() ==> (#[trigger] entries[i]).0 == sent_types(ctx, order)[i]
        }),
    decreases order.len(),
{
    if order.len() > 0 {
        let front_order = order.drop_last();
        assert forall|x: u16| front_order.contains(x) implies order.contains(x) by {
            let i = choose|i: int| 0 <= i < front_order.len() && front_order[i] == x;
            assert(order[i] == x);
        }
        assert(order[order.len() - 1] == order.last());
        lemma_extensions_in_order(ctx, front_order, draws.drop_last());
        let front = ordered_entries(ctx, front_order, 0, draws.drop_last());
        let size = 0 + block_bytes(front).len();
        let entry = extension_entry(ctx, order.last(), size as int, draws.last());
        lemma_entry_shape(ctx, order.last(), size as int, draws.last());
        let entries = ordered_entries(ctx, order, 0, draws);
        assert(entries == front + entry);
        assert forall|i: int| 0 <= i < entries.len() implies (#[trigger] entries[i]).0
            == sent_types(ctx, order)[i] by {
            if i < front.len() {
                assert(entries[i] == front[i]);
            } else {
                assert(entries[i] == entry[0]);
            }
        }
    }
}

/// What is written for a place of the order is one extension of the number under which the
/// place appears, or none.
proof fn lemma_entry_shape(ctx: HelloContext, id: u16, size: int, draw: Seq<u8>)
    requires
        id != 0x0015,
    ensures
        match sent_type(ctx, id) {
            Some(etype) => extension_entry(ctx, id, size, draw).len() == 1 && extension_entry(
                ctx,
                id,
                size,
                draw,
            )[0].0 == etype,
            None => extension_entry(ctx, id, size, draw).len() == 0,
        },
{
    assert((id % 256) % 16 == id % 16);
}

/// The place of the opening GREASE holds the connection's number without data, the place of the
/// closing one its number with a single zero byte, and both hold nothing in a profile without
/// GREASE.
pub proof fn lemma_grease_places(ctx: HelloContext, size: int, draw: Seq<u8>)
    ensures
        extension_entry(ctx, 0x0a0a, size, draw) == (if ctx.profile.has_grease {
            seq![(ctx.grease.ext_first, Seq::<u8>::empty())]
        } else {
            Seq::empty()
        }),
        extension_entry(ctx, 0x2a2a, size, draw) == (if ctx.profile.has_grease {
            seq![(ctx.grease.ext_last, seq![0u8])]
        } else {
            Seq::empty()
        }),
{
}

/// A hello has all extensions of its profile, each as often as the profile: the first and the
/// last in their places, and those between in any order where the profile shuffles, and in the
/// order of the profile where it does not.
pub proof fn lemma_order_of_profile(profile: BrowserProfile, order: Seq<u16>)
    requires
        profile_order(profile, order),
    ensures
        order.len() == profile.extension_order.0@.len(),
        order.to_multiset() == profile.extension_order.0@.to_multiset(),
        order.len() > 0 ==> order[0] == profile.extension_order.0@[0],
        order.len() > 0 ==> order.last() == profile.extension_order.0@.last(),
        !profile.shuffle_extensions ==> order == profile.extension_order.0@,
{
}

/// Padding is zeros, and exactly as many as bring the hello to the length that it aims for,
/// the four bytes of its own head included. Without room for those there is none.
pub proof fn lemma_padding_is_zeros(ctx: HelloContext, size: int, draw: Seq<u8>)
    requires
        ctx.profile.target_padding_len > 0,
    ensures
        ({
            let target = ctx.profile.target_padding_len as int;
            let entry = extension_entry(ctx, 0x0015, size, draw);
            if size + ctx.overhead + 4 < target {
                &&& entry.len() == 1
                &&& entry[0].0 == 0x0015
                &&& size + ctx.overhead + 4 + entry[0].1.len() == target
                &&& forall|i: int| 0 <= i < entry[0].1.len() ==> (#[trigger] entry[0].1[i]) == 0
            } else {
                entry.len() == 0
            }
        }),
{
}

/// One extension is its number, the length of its data and the data.
pub proof fn lemma_extension_bytes(etype: u16, data: Seq<u8>)
    requires
        data.len() <= 0xffff,
    ensures
        ({
            let b = ext_bytes(etype, data);
            &&& b.len() == 4 + data.len()
            &&& b[0] * 256 + b[1] == etype
            &&& b[2] * 256 + b[3] == data.len()
            &&& b.subrange(4, b.len() as int) == data
        }),
{
    let b = ext_bytes(etype, data);
    assert(b.subrange(4, b.len() as int) =~= data);
}

/// A block is read as the extensions that make it up, byte for byte: whatever is read, writing
/// it gives the block again.
pub proof fn lemma_scan_is_exact(b: Seq<u8>, entries: Seq<(u16, Seq<u8>)>)
    requires
        scan(b) == BlockScan::Whole(entries),
    ensures
        block_bytes(entries) == b,
        forall|i: int| 0 <= i < entries.len() ==> (#[trigger] entries[i]).1.len() <= 0xffff,
    decreases b.len(),
{
    if b.len() == 0 {
        assert(entries =~= Seq::empty());
        assert(block_bytes(entries) =~= b);
    } else {
        let n = u16_at(b, 2) as int;
        let rest = b.subrange(4 + n, b.len() as int);
        let tail = scan(rest)->Whole_0;
        let one = (u16_at(b, 0), b.subrange(4, 4 + n));
        assert(entries == seq![one] + tail);
        lemma_scan_is_exact(rest, tail);
        lemma_one_more(one, tail);
        lemma_front_bytes(b, n);
        assert(b.subrange(0, 4 + n) + rest =~= b);
    }
}

/// One extension in front of others.
proof fn lemma_one_more(one: (u16, Seq<u8>), tail: Seq<(u16, Seq<u8>)>)
    requires
        one.1.len() <= 0xffff,
        forall|i: int| 0 <= i < tail.len() ==> (#[trigger] tail[i]).1.len() <= 0xffff,
    ensures
        block_bytes(seq![one] + tail) == ext_bytes(one.0, one.1) + block_bytes(tail),
        forall|i: int|
            0 <= i < (seq![one] + tail).len() ==> (#[trigger] (seq![one] + tail)[i]).1.len()
                <= 0xffff,
{
    let all = seq![one] + tail;
    assert(all.drop_first() =~= tail);
    assert(all[0] == one);
    assert forall|i: int| 0 <= i < all.len() implies (#[trigger] all[i]).1.len() <= 0xffff by {
        if i > 0 {
            assert(all[i] == tail[i - 1]);
        }
    }
}

/// The front of a block is the extension that is read there.
proof fn lemma_front_bytes(b: Seq<u8>, n: int)
    requires
        b.len() >= 4 + n,
        n == u16_at(b, 2),
    ensures
        ext_bytes(u16_at(b, 0), b.subrange(4, 4 + n)) == b.subrange(0, 4 + n),
{
    let data = b.subrange(4, 4 + n);
    let e = ext_bytes(u16_at(b, 0), data);
    assert(be16(u16_at(b, 0)) =~= seq![b[0], b[1]]);
    assert(be16(low16(data.len())) =~= seq![b[2], b[3]]);
    assert(e =~= b.subrange(0, 4 + n));
}

/// What is found of a type is the data of the first extension of that type, and nothing is
/// found only where there is none.
pub proof fn lemma_first_of(entries: Seq<(u16, Seq<u8>)>, etype: u16)
    ensures
        match first_of(entries, etype) {
            Some(data) => exists|i: int|
                0 <= i < entries.len() && (#[trigger] entries[i]).0 == etype && entries[i].1 == data
                    && forall|j: int| 0 <= j < i ==> (#[trigger] entries[j]).0 != etype,
            None => forall|i: int| 0 <= i < entries.len() ==> (#[trigger] entries[i]).0 != etype,
        },
    decreases entries.len(),
{
    if entries.len() > 0 && entries[0].0 != etype {
        let rest = entries.drop_first();
        lemma_first_of(rest, etype);
        match first_of(rest, etype) {
            Some(data) => {
                let i = choose|i: int|
                    0 <= i < rest.len() && (#[trigger] rest[i]).0 == etype && rest[i].1 == data
                        && forall|j: int| 0 <= j < i ==> (#[trigger] rest[j]).0 != etype;
                assert(entries[i + 1] == rest[i]);
                assert forall|j: int| 0 <= j < i + 1 implies (#[trigger] entries[j]).0 != etype by {
                    if j > 0 {
                        assert(entries[j] == rest[j - 1]);
                    }
                }
            },
            None => {
                assert forall|i: int| 0 <= i < entries.len() implies (#[trigger] entries[i]).0
                    != etype by {
                    if i > 0 {
                        assert(entries[i] == rest[i - 1]);
                    }
                }
            },
        }
    } else if entries.len() > 0 {
        assert(entries[0].0 == etype);
    }
}

} // verus!
