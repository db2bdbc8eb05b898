//! Writing the extensions of a hello, in the order of a profile.

use bytes::{BufMut, Bytes, BytesMut};
use vstd::prelude::*;
use vstd::utf8::encode_utf8;

use crate::buffers::{buf_slice, buf_view, bytes_view, put_u16, put_u8};
use crate::entropy::{from_system, system_bytes};
use crate::tlseng::consts::{
    CERT_COMPRESSION_BROTLI, OCSP_STATUS_TYPE, PSK_DHE_KE_MODE, TYPE_HOST_NAME,
};
use crate::tlseng::extension::{block_bytes, ext_bytes, lemma_block_concat, lemma_block_single};
use crate::tlseng::grease::GreaseSet;
use crate::tlseng::mlkem::{sample_x25519_mlkem768_share, sampled_share, valid_share};
use crate::tlseng::profile::BrowserProfile;
use crate::tlseng::types::{holds, TlsExtensions, TlsGroups, TlsSignatures, TlsVersions};
use crate::utils::byte_order::{
    be16, be16_list, lemma_be16_list_len, low16, low8, low_u16, low_u8, slice_range, zeros,
};

verus! {

/// The random bytes of a GREASE `encrypted_client_hello`: configuration, key and payload.
pub const ECH_RANDOM_LEN: usize = 177;

/// The data of `server_name`.
pub open spec fn sni_body(host: Seq<u8>) -> Seq<u8> {
    let n = low16(host.len());
    be16((3 + n) as u16) + seq![TYPE_HOST_NAME] + be16(n) + host
}

/// A list of numbers behind its 16-bit length.
pub open spec fn list16_body(values: Seq<u16>) -> Seq<u8> {
    be16(low16(2 * values.len())) + be16_list(values)
}

/// A list of numbers behind its 8-bit length.
pub open spec fn list8_body(values: Seq<u16>) -> Seq<u8> {
    seq![low8(2 * values.len())] + be16_list(values)
}

/// A list with the connection's GREASE number in front, if the profile has one.
pub open spec fn greased(values: Seq<u16>, has_grease: bool, grease: u16) -> Seq<u16> {
    if has_grease {
        seq![grease] + values
    } else {
        values
    }
}

/// One entry of `key_share`.
pub open spec fn share_entry(group: u16, key: Seq<u8>) -> Seq<u8> {
    be16(group) + be16(low16(key.len())) + key
}

/// The entries of `key_share`: GREASE, the post-quantum ballast, the key itself; the first
/// two only where the profile has them.
pub open spec fn share_list(
    profile: BrowserProfile,
    grease: u16,
    ballast: Seq<u8>,
    pub_key: Seq<u8>,
) -> Seq<u8> {
    (if profile.has_grease {
        share_entry(grease, seq![0u8])
    } else {
        Seq::empty()
    }) + (if profile.groups.0@.contains(TlsGroups::X25519_MLKEM768) {
        share_entry(TlsGroups::X25519_MLKEM768, ballast)
    } else {
        Seq::empty()
    }) + share_entry(TlsGroups::X25519, pub_key)
}

/// The data of `key_share`: the entries behind their length.
pub open spec fn share_body(
    profile: BrowserProfile,
    grease: u16,
    ballast: Seq<u8>,
    pub_key: Seq<u8>,
) -> Seq<u8> {
    let list = share_list(profile, grease, ballast, pub_key);
    be16(low16(list.len())) + list
}

/// The data of a GREASE `encrypted_client_hello`: the outer type, HKDF-SHA256, AES-128-GCM,
/// a configuration number, a key of 32 bytes and a payload of 144.
pub open spec fn ech_body(random: Seq<u8>) -> Seq<u8> {
    seq![0u8] + be16(1) + be16(1) + seq![random[0]] + be16(32) + random.subrange(1, 33) + be16(144)
        + random.subrange(33, 177)
}

/// Protocol names, each behind its 8-bit length.
pub open spec fn protocol_list(protocols: Seq<&str>) -> Seq<u8>
    decreases protocols.len(),
{
    if protocols.len() == 0 {
        Seq::empty()
    } else {
        let name = encode_utf8(protocols.last()@);
        protocol_list(protocols.drop_last()) + seq![low8(name.len())] + name
    }
}

/// The data of ALPN and of ALPS: protocol names behind their length.
pub open spec fn protocols_body(protocols: Seq<&str>) -> Seq<u8> {
    be16(low16(protocol_list(protocols).len())) + protocol_list(protocols)
}

/// What padding adds: zeros up to the target size, its own four bytes of header included,
/// unless there is no room for those.
pub open spec fn padding_entry(target: int, size: int) -> Seq<(u16, Seq<u8>)> {
    if target > size + 4 {
        seq![(TlsExtensions::PADDING, zeros((target - size - 4) as nat))]
    } else {
        Seq::empty()
    }
}

/// What the extensions of one hello are written from.
pub struct HelloContext {
    /// The profile.
    pub profile: BrowserProfile,
    /// The host name, as bytes.
    pub host: Seq<u8>,
    /// The public key.
    pub pub_key: Seq<u8>,
    /// The connection's GREASE numbers.
    pub grease: GreaseSet,
    /// The bytes of the hello around the extensions.
    pub overhead: nat,
}

/// Whether `draw` can be the random part of the extension `id`: ballast of the right form
/// for `key_share`, enough bytes for `encrypted_client_hello`, nothing otherwise.
pub open spec fn draw_for(ctx: HelloContext, id: u16, draw: Seq<u8>) -> bool {
    if id == TlsExtensions::KEY_SHARE && ctx.profile.groups.0@.contains(
        TlsGroups::X25519_MLKEM768,
    ) {
        valid_share(draw)
    } else if id == TlsExtensions::ECH {
        draw.len() == ECH_RANDOM_LEN
    } else {
        draw.len() == 0
    }
}

/// The extension `id` of a hello behind `size` bytes of extensions, as type and data: none
/// where the profile does not have it, nor of an unknown number.
pub open spec fn extension_entry(ctx: HelloContext, id: u16, size: int, draw: Seq<u8>) -> Seq<
    (u16, Seq<u8>),
> {
    let p = ctx.profile;
    if id == TlsExtensions::GREASE_SLOT_FIRST {
        if p.has_grease {
            seq![(ctx.grease.ext_first, Seq::empty())]
        } else {
            Seq::empty()
        }
    } else if id == TlsExtensions::GREASE_SLOT_LAST {
        if p.has_grease {
            seq![(ctx.grease.ext_last, seq![0u8])]
        } else {
            Seq::empty()
        }
    } else if id == TlsExtensions::SNI {
        seq![(id, sni_body(ctx.host))]
    } else if id == TlsExtensions::SUPPORTED_GROUPS {
        seq![(id, list16_body(greased(p.groups.0@, p.has_grease, ctx.grease.group)))]
    } else if id == TlsExtensions::SIGNATURE_ALGORITHMS {
        seq![(id, list16_body(p.signatures.0@))]
    } else if id == TlsExtensions::ALPN {
        seq![(id, protocols_body(p.alpn@))]
    } else if id == TlsExtensions::SCT || id == TlsExtensions::EMS || id
        == TlsExtensions::SESSION_TICKET {
        seq![(id, Seq::empty())]
    } else if id == TlsExtensions::ECH {
        seq![(id, ech_body(draw))]
    } else if id == TlsExtensions::COMPRESS_CERT {
        seq![(id, list8_body(seq![CERT_COMPRESSION_BROTLI]))]
    } else if id == TlsExtensions::DELEGATED_CREDENTIAL {
        seq![(id, list16_body(p.delegated_signatures.0@))]
    } else if id == TlsExtensions::SUPPORTED_VERSIONS {
        seq![(id, list8_body(greased(p.versions.0@, p.has_grease, ctx.grease.version)))]
    } else if id == TlsExtensions::PSK_MODES {
        seq![(id, seq![1u8, PSK_DHE_KE_MODE])]
    } else if id == TlsExtensions::KEY_SHARE {
        seq![(id, share_body(p, ctx.grease.group, draw, ctx.pub_key))]
    } else if id == TlsExtensions::ALPS {
        if p.alps_protocols@.len() > 0 {
            seq![(id, protocols_body(p.alps_protocols@))]
        } else {
            Seq::empty()
        }
    } else if id == TlsExtensions::STATUS_REQUEST {
        seq![(id, seq![OCSP_STATUS_TYPE, 0u8, 0u8, 0u8, 0u8])]
    } else if id == TlsExtensions::EC_POINT_FORMATS {
        seq![(id, seq![1u8, 0u8])]
    } else if id == TlsExtensions::RENEGOTIATION_INFO {
        seq![(id, seq![0u8])]
    } else if id == TlsExtensions::PADDING {
        if p.target_padding_len > 0 {
            padding_entry(p.target_padding_len as int, size + ctx.overhead)
        } else {
            Seq::empty()
        }
    } else if TlsExtensions::grease_number(id) && p.has_grease {
        seq![(id, Seq::empty())]
    } else {
        Seq::empty()
    }
}

/// The bytes of the extension `id` behind `size` bytes of extensions.
pub open spec fn extension_bytes(ctx: HelloContext, id: u16, size: int, draw: Seq<u8>) -> Seq<u8> {
    block_bytes(extension_entry(ctx, id, size, draw))
}

/// The extensions of an order behind `size` bytes, each with its draw.
pub open spec fn ordered_entries(
    ctx: HelloContext,
    order: Seq<u16>,
    size: int,
    draws: Seq<Seq<u8>>,
) -> Seq<(u16, Seq<u8>)>
    decreases order.len(),
{
    if order.len() == 0 {
        Seq::empty()
    } else {
        let front = ordered_entries(ctx, order.drop_last(), size, draws.drop_last());
        front + extension_entry(
            ctx,
            order.last(),
            size + block_bytes(front).len(),
            draws.last(),
        )
    }
}

/// The bytes of the extensions of an order behind `size` bytes, each with its draw.
pub open spec fn ordered_bytes(
    ctx: HelloContext,
    order: Seq<u16>,
    size: int,
    draws: Seq<Seq<u8>>,
) -> Seq<u8> {
    block_bytes(ordered_entries(ctx, order, size, draws))
}

/// One more extension of an order adds its bytes.
pub proof fn lemma_ordered_step(ctx: HelloContext, order: Seq<u16>, size: int, draws: Seq<Seq<u8>>)
    requires
        order.len() > 0,
    ensures
        ({
            let front = ordered_bytes(ctx, order.drop_last(), size, draws.drop_last());
            ordered_bytes(ctx, order, size, draws) == front + extension_bytes(
                ctx,
                order.last(),
                size + front.len(),
                draws.last(),
            )
        }),
{
    let front = ordered_entries(ctx, order.drop_last(), size, draws.drop_last());
    lemma_block_concat(
        front,
        extension_entry(ctx, order.last(), size + block_bytes(front).len(), draws.last()),
    );
}

/// Whether every extension of an order has a draw that fits it.
pub open spec fn draws_for(ctx: HelloContext, order: Seq<u16>, draws: Seq<Seq<u8>>) -> bool {
    &&& draws.len() == order.len()
    &&& forall|i: int| 0 <= i < order.len() ==> draw_for(ctx, order[i], #[trigger] draws[i])
}

/// Whether `to` is `from` with nothing moved but what stands between the first and the last.
pub open spec fn middle_shuffled(from: Seq<u16>, to: Seq<u16>) -> bool {
    &&& to.len() == from.len()
    &&& to.to_multiset() == from.to_multiset()
    &&& from.len() > 0 ==> to[0] == from[0] && to.last() == from.last()
}

/// Whether `to` is an order in which a profile's extensions can be written.
pub open spec fn profile_order(profile: BrowserProfile, to: Seq<u16>) -> bool {
    if profile.shuffle_extensions && profile.extension_order.0@.len() >= 4 {
        middle_shuffled(profile.extension_order.0@, to)
    } else {
        to == profile.extension_order.0@
    }
}

/// Whether `out` are the extensions of a profile behind `size` bytes, in some order of the
/// profile and with some draws.
pub open spec fn profile_block(ctx: HelloContext, size: int, out: Seq<u8>) -> bool {
    exists|order: Seq<u16>, draws: Seq<Seq<u8>>|
        profile_order(ctx.profile, order) && draws_for(ctx, order, draws) && out
            == #[trigger] ordered_bytes(ctx, order, size, draws)
}

/// Whether the random part of the extension `id` was drawn, and is no fixed one.
pub open spec fn draw_made(ctx: HelloContext, id: u16, draw: Seq<u8>) -> bool {
    if id == TlsExtensions::KEY_SHARE && ctx.profile.groups.0@.contains(
        TlsGroups::X25519_MLKEM768,
    ) {
        sampled_share(draw)
    } else if id == TlsExtensions::ECH {
        from_system(draw)
    } else {
        true
    }
}

/// Whether `to` is the order that a draw gave: where the profile shuffles, the middle is
/// shuffled by random bytes.
pub open spec fn order_made(profile: BrowserProfile, to: Seq<u16>) -> bool {
    let from = profile.extension_order.0@;
    if profile.shuffle_extensions && from.len() >= 4 {
        exists|random: Seq<u8>|
            random.len() == 2 * (from.len() - 2) && from_system(random) && to
                == #[trigger] fisher_yates(from, random, from.len() - 3)
    } else {
        to == from
    }
}

/// Whether `out` are the extensions of a profile behind `size` bytes in an order and with
/// random parts that were drawn.
pub open spec fn drawn_block(ctx: HelloContext, size: int, out: Seq<u8>) -> bool {
    exists|order: Seq<u16>, draws: Seq<Seq<u8>>|
        profile_order(ctx.profile, order) && draws_for(ctx, order, draws) && order_made(
            ctx.profile,
            order,
        ) && (forall|i: int|
            0 <= i < order.len() ==> draw_made(ctx, order[i], #[trigger] draws[i])) && out
            == #[trigger] ordered_bytes(ctx, order, size, draws)
}

/// No extension of the profile is longer than this.
pub open spec fn extension_limit(profile: BrowserProfile, host: Seq<u8>, pub_key: Seq<u8>) -> nat {
    1500 + host.len() + pub_key.len() + 2 * profile.groups.0@.len() + 2
        * profile.signatures.0@.len() + 2 * profile.delegated_signatures.0@.len() + 2
        * profile.versions.0@.len() + protocol_list(profile.alpn@).len() + protocol_list(
        profile.alps_protocols@,
    ).len() + profile.target_padding_len as nat
}

/// Two elements exchanged.
pub open spec fn swapped(s: Seq<u16>, i: int, j: int) -> Seq<u16> {
    s.update(i, s[j]).update(j, s[i])
}

/// Fisher-Yates from place `i` of the middle downwards: each place is exchanged with the one
/// that its two random bytes, low byte first, pick among those up to it.
pub open spec fn fisher_yates(order: Seq<u16>, random: Seq<u8>, i: int) -> Seq<u16>
    decreases i,
{
    if i <= 0 {
        order
    } else {
        let word = random[2 * i] + 256 * random[2 * i + 1];
        fisher_yates(swapped(order, 1 + i, 1 + word % (i + 1)), random, i - 1)
    }
}

/// Exchanging two elements keeps what there is.
proof fn lemma_swap_multiset(s: Seq<u16>, i: int, j: int)
    requires
        0 <= i < s.len(),
        0 <= j < s.len(),
    ensures
        swapped(s, i, j).to_multiset() == s.to_multiset(),
{
    broadcast use vstd::seq_lib::group_to_multiset_ensures;
    broadcast use vstd::multiset::group_multiset_axioms;

    if i == j {
        assert(swapped(s, i, j) =~= s);
    } else {
        let t = s.update(i, s[j]);
        let u = swapped(s, i, j);
        assert(s.update(i, s[j]) =~= s.remove(i).insert(i, s[j]));
        assert(u =~= t.remove(j).insert(j, s[i]));
        assert(t.to_multiset() =~= s.to_multiset().remove(s[i]).insert(s[j]));
        assert(u.to_multiset() =~= t.to_multiset().remove(s[j]).insert(s[i]));
        assert(s.contains(s[i]));
        assert(u.to_multiset() =~= s.to_multiset());
    }
}

/// Appends numbers, big-endian.
pub(crate) fn put_u16_list(buf: &mut BytesMut, values: &[u16])
    requires
        buf_view(*old(buf)).len() + 2 * values@.len() <= isize::MAX,
    ensures
        buf_view(*final(buf)) == buf_view(*old(buf)) + be16_list(values@),
{
    let ghost before = buf_view(*buf);
    let mut i: usize = 0;
    assert(before + be16_list(values@.subrange(0, 0)) =~= before);
    while i < values.len()
        invariant
            i <= values@.len(),
            before.len() + 2 * values@.len() <= isize::MAX,
            buf_view(*buf) == before + be16_list(values@.subrange(0, i as int)),
        decreases values@.len() - i,
    {
        proof {
            let now = values@.subrange(0, i + 1);
            lemma_be16_list_len(values@.subrange(0, i as int));
            assert(now.drop_last() =~= values@.subrange(0, i as int));
        }
        put_u16(buf, values[i]);
        i = i + 1;
        assert(buf_view(*buf) =~= before + be16_list(values@.subrange(0, i as int)));
    }
    assert(values@.subrange(0, values@.len() as int) =~= values@);
}

/// A list of front parts is no longer than the list.
proof fn lemma_protocol_list_front(protocols: Seq<&str>, i: int)
    requires
        0 <= i <= protocols.len(),
    ensures
        protocol_list(protocols.subrange(0, i)).len() <= protocol_list(protocols).len(),
    decreases protocols.len(),
{
    if i == protocols.len() {
        assert(protocols.subrange(0, i) =~= protocols);
    } else {
        lemma_protocol_list_front(protocols.drop_last(), i);
        assert(protocols.drop_last().subrange(0, i) =~= protocols.subrange(0, i));
    }
}

/// The names of protocols, each behind its length.
fn encode_protocols(protocols: &[&str]) -> (r: BytesMut)
    requires
        protocol_list(protocols@).len() <= isize::MAX,
    ensures
        buf_view(r) == protocol_list(protocols@),
{
    let mut list: BytesMut = BytesMut::new();
    let mut i: usize = 0;
    assert(protocols@.subrange(0, 0) =~= Seq::empty());
    while i < protocols.len()
        invariant
            i <= protocols@.len(),
            protocol_list(protocols@).len() <= isize::MAX,
            buf_view(list) == protocol_list(protocols@.subrange(0, i as int)),
        decreases protocols@.len() - i,
    {
        let name: &[u8] = protocols[i].as_bytes();
        proof {
            let now = protocols@.subrange(0, i + 1);
            assert(now.drop_last() =~= protocols@.subrange(0, i as int));
            lemma_protocol_list_front(protocols@, i + 1);
            assert(protocol_list(now).len() == buf_view(list).len() + 1 + name@.len());
        }
        put_u8(&mut list, low_u8(name.len()));
        list.put_slice(name);
        i = i + 1;
        assert(buf_view(list) =~= protocol_list(protocols@.subrange(0, i as int)));
    }
    assert(protocols@.subrange(0, protocols@.len() as int) =~= protocols@);
    list
}

/// The extensions written so far, and the connection's GREASE numbers.
pub struct ExtensionBuilder {
    /// The bytes of the extensions.
    pub payload: BytesMut,
    /// The numbers drawn for this connection.
    pub grease: GreaseSet,
}

impl ExtensionBuilder {
    /// The bytes written so far.
    pub open spec fn written(self) -> Seq<u8> {
        buf_view(self.payload)
    }

    /// Whether `n` more bytes have room.
    pub open spec fn room(self, n: nat) -> bool {
        self.written().len() + n <= isize::MAX
    }

    /// Whether `after` is this builder with `more` written behind.
    pub open spec fn extended_by(self, more: Seq<u8>, after: Self) -> bool {
        after.written() == self.written() + more && after.grease == self.grease
    }

    /// An empty builder with fresh GREASE numbers.
    pub fn new() -> (r: Self)
        ensures
            r.written().len() == 0,
            r.grease.wf(),
            call_ensures(GreaseSet::random, (), r.grease),
    {
        Self::with_grease(GreaseSet::random())
    }

    /// An empty builder with the given GREASE numbers.
    pub fn with_grease(grease: GreaseSet) -> (r: Self)
        ensures
            r.written() == Seq::<u8>::empty(),
            r.grease == grease,
    {
        Self { payload: BytesMut::with_capacity(2048), grease }
    }

    /// Writes one extension.
    fn add_extension(&mut self, etype: u16, data: &[u8])
        requires
            old(self).room(4 + data@.len()),
        ensures
            old(self).extended_by(ext_bytes(etype, data@), *final(self)),
    {
        let ghost before = self.written();
        put_u16(&mut self.payload, etype);
        put_u16(&mut self.payload, low_u16(data.len()));
        self.payload.put_slice(data);
        assert(self.written() =~= before + ext_bytes(etype, data@));
    }

    /// Writes a GREASE extension without data.
    pub fn grease_with_id(&mut self, etype: u16)
        requires
            old(self).room(4),
        ensures
            old(self).extended_by(ext_bytes(etype, Seq::empty()), *final(self)),
    {
        let none: [u8; 0] = [];
        assert(none@ =~= Seq::empty());
        self.add_extension(etype, none.as_slice());
    }

    /// An extension that no recipe knows: nothing is written.
    pub fn apply_generic_extension(&mut self, _etype: u16, _profile: &BrowserProfile)
        ensures
            *final(self) == *old(self),
    {
    }

    /// `server_name`: the host name, in the clear.
    pub fn server_name(&mut self, host: &str)
        requires
            low16(encode_utf8(host@).len()) <= 65532,
            old(self).room(9 + encode_utf8(host@).len()),
        ensures
            old(self).extended_by(
                ext_bytes(TlsExtensions::SNI, sni_body(encode_utf8(host@))),
                *final(self),
            ),
    {
        let host_bytes: &[u8] = host.as_bytes();
        let host_len: u16 = low_u16(host_bytes.len());
        let list_inner_len: u16 = 1 + 2 + host_len;
        let mut data: BytesMut = BytesMut::with_capacity(2 + list_inner_len as usize);
        put_u16(&mut data, list_inner_len);
        put_u8(&mut data, TYPE_HOST_NAME);
        put_u16(&mut data, host_len);
        data.put_slice(host_bytes);
        assert(buf_view(data) =~= sni_body(encode_utf8(host@)));
        self.add_extension(TlsExtensions::SNI, buf_slice(&data));
    }

    /// `extended_main_secret`.
    pub fn extended_main_secret(&mut self)
        requires
            old(self).room(4),
        ensures
            old(self).extended_by(ext_bytes(TlsExtensions::EMS, Seq::empty()), *final(self)),
    {
        self.grease_with_id(TlsExtensions::EMS);
    }

    /// `supported_groups`, with the connection's GREASE group in front.
    pub fn supported_groups(&mut self, groups: TlsGroups, has_grease: bool)
        requires
            old(self).room(8 + 2 * groups.0@.len()),
        ensures
            old(self).extended_by(
                ext_bytes(
                    TlsExtensions::SUPPORTED_GROUPS,
                    list16_body(greased(groups.0@, has_grease, old(self).grease.group)),
                ),
                *final(self),
            ),
    {
        let count: usize = groups.0.len() + if has_grease { 1usize } else { 0usize };
        let mut data: BytesMut = BytesMut::with_capacity(2 + count * 2);
        put_u16(&mut data, low_u16(count * 2));
        let ghost all = greased(groups.0@, has_grease, self.grease.group);
        if has_grease {
            put_u16(&mut data, self.grease.group);
            proof {
                lemma_be16_list_front(self.grease.group, groups.0@);
            }
        }
        put_u16_list(&mut data, groups.0);
        proof {
            lemma_be16_list_len(all);
        }
        assert(buf_view(data) =~= list16_body(all));
        self.add_extension(TlsExtensions::SUPPORTED_GROUPS, buf_slice(&data));
    }

    /// An extension that is a list of numbers behind its 16-bit length.
    fn number_list(&mut self, etype: u16, values: &[u16])
        requires
            old(self).room(6 + 2 * values@.len()),
        ensures
            old(self).extended_by(ext_bytes(etype, list16_body(values@)), *final(self)),
    {
        let mut data: BytesMut = BytesMut::with_capacity(2 + values.len() * 2);
        put_u16(&mut data, low_u16(values.len() * 2));
        put_u16_list(&mut data, values);
        proof {
            lemma_be16_list_len(values@);
        }
        assert(buf_view(data) =~= list16_body(values@));
        self.add_extension(etype, buf_slice(&data));
    }

    /// `signature_algorithms`.
    pub fn signature_algorithms(&mut self, algs: TlsSignatures)
        requires
            old(self).room(6 + 2 * algs.0@.len()),
        ensures
            old(self).extended_by(
                ext_bytes(TlsExtensions::SIGNATURE_ALGORITHMS, list16_body(algs.0@)),
                *final(self),
            ),
    {
        self.number_list(TlsExtensions::SIGNATURE_ALGORITHMS, algs.0);
    }

    /// `supported_versions`, with the connection's GREASE version in front.
    pub fn supported_versions(&mut self, versions: TlsVersions, has_grease: bool)
        requires
            old(self).room(7 + 2 * versions.0@.len()),
        ensures
            old(self).extended_by(
                ext_bytes(
                    TlsExtensions::SUPPORTED_VERSIONS,
                    list8_body(greased(versions.0@, has_grease, old(self).grease.version)),
                ),
                *final(self),
            ),
    {
        let count: usize = versions.0.len() + if has_grease { 1usize } else { 0usize };
        let mut data: BytesMut = BytesMut::with_capacity(1 + count * 2);
        put_u8(&mut data, low_u8(count * 2));
        let ghost all = greased(versions.0@, has_grease, self.grease.version);
        if has_grease {
            put_u16(&mut data, self.grease.version);
            proof {
                lemma_be16_list_front(self.grease.version, versions.0@);
            }
        }
        put_u16_list(&mut data, versions.0);
        proof {
            lemma_be16_list_len(all);
        }
        assert(buf_view(data) =~= list8_body(all));
        self.add_extension(TlsExtensions::SUPPORTED_VERSIONS, buf_slice(&data));
    }

    /// `key_share`: the public key that the other side needs, with what the profile puts in
    /// front of it. The entries are in the order of `supported_groups`.
    pub fn key_share(&mut self, profile: &BrowserProfile, pub_key: &[u8])
        requires
            old(self).room(1241 + pub_key@.len()),
        ensures
            exists|ballast: Seq<u8>|
                ({
                    &&& if profile.groups.0@.contains(TlsGroups::X25519_MLKEM768) {
                        valid_share(ballast) && sampled_share(ballast)
                    } else {
                        ballast.len() == 0
                    }
                    &&& old(self).extended_by(
                        ext_bytes(
                            TlsExtensions::KEY_SHARE,
                            #[trigger] share_body(
                                *profile,
                                old(self).grease.group,
                                ballast,
                                pub_key@,
                            ),
                        ),
                        *final(self),
                    )
                }),
    {
        let ballast: Vec<u8> = if holds(profile.groups.0, TlsGroups::X25519_MLKEM768) {
            sample_x25519_mlkem768_share()
        } else {
            Vec::new()
        };
        self.key_share_with(profile, ballast.as_slice(), pub_key);
    }

    /// `key_share` with the given ballast.
    pub fn key_share_with(&mut self, profile: &BrowserProfile, ballast: &[u8], pub_key: &[u8])
        requires
            old(self).room(25 + ballast@.len() + pub_key@.len()),
        ensures
            old(self).extended_by(
                ext_bytes(
                    TlsExtensions::KEY_SHARE,
                    share_body(*profile, old(self).grease.group, ballast@, pub_key@),
                ),
                *final(self),
            ),
    {
        let mut list: BytesMut = BytesMut::with_capacity(1400);
        let ghost mut expected: Seq<u8> = Seq::empty();
        if profile.has_grease {
            put_u16(&mut list, self.grease.group);
            put_u16(&mut list, 1);
            put_u8(&mut list, 0x00);
            proof {
                expected = share_entry(self.grease.group, seq![0u8]);
            }
            assert(buf_view(list) =~= expected);
        }
        if holds(profile.groups.0, TlsGroups::X25519_MLKEM768) {
            put_u16(&mut list, TlsGroups::X25519_MLKEM768);
            put_u16(&mut list, low_u16(ballast.len()));
            list.put_slice(ballast);
            proof {
                expected = expected + share_entry(TlsGroups::X25519_MLKEM768, ballast@);
            }
            assert(buf_view(list) =~= expected);
        }
        put_u16(&mut list, TlsGroups::X25519);
        put_u16(&mut list, low_u16(pub_key.len()));
        list.put_slice(pub_key);
        assert(buf_view(list) =~= share_list(
            *profile,
            self.grease.group,
            ballast@,
            pub_key@,
        ));
        let mut data: BytesMut = BytesMut::with_capacity(list.len() + 2);
        put_u16(&mut data, low_u16(list.len()));
        data.put_slice(buf_slice(&list));
        assert(buf_view(data) =~= share_body(*profile, self.grease.group, ballast@, pub_key@));
        self.add_extension(TlsExtensions::KEY_SHARE, buf_slice(&data));
    }

    /// `encrypted_client_hello` as a browser sends it that knows no real configuration.
    pub fn ech_grease(&mut self)
        requires
            old(self).room(190),
        ensures
            exists|random: Seq<u8>|
                random.len() == ECH_RANDOM_LEN && from_system(random) && old(self).extended_by(
                    ext_bytes(TlsExtensions::ECH, #[trigger] ech_body(random)),
                    *final(self),
                ),
    {
        let random: Vec<u8> = system_bytes(ECH_RANDOM_LEN);
        self.ech_grease_with(random.as_slice());
    }

    /// `encrypted_client_hello` with the given random bytes.
    pub fn ech_grease_with(&mut self, random: &[u8])
        requires
            random@.len() == ECH_RANDOM_LEN,
            old(self).room(190),
        ensures
            old(self).extended_by(ext_bytes(TlsExtensions::ECH, ech_body(random@)), *final(self)),
    {
        let mut data: BytesMut = BytesMut::with_capacity(186);
        put_u8(&mut data, 0x00);
        put_u16(&mut data, 0x0001);
        put_u16(&mut data, 0x0001);
        put_u8(&mut data, random[0]);
        put_u16(&mut data, 32);
        data.put_slice(slice_range(random, 1, 33));
        put_u16(&mut data, 144);
        data.put_slice(slice_range(random, 33, 177));
        assert(buf_view(data) =~= ech_body(random@));
        self.add_extension(TlsExtensions::ECH, buf_slice(&data));
    }

    /// An extension that is a list of protocol names.
    fn protocols(&mut self, etype: u16, protocols: &[&str])
        requires
            old(self).room(6 + protocol_list(protocols@).len()),
        ensures
            old(self).extended_by(ext_bytes(etype, protocols_body(protocols@)), *final(self)),
    {
        let list: BytesMut = encode_protocols(protocols);
        let mut data: BytesMut = BytesMut::with_capacity(2 + list.len());
        put_u16(&mut data, low_u16(list.len()));
        data.put_slice(buf_slice(&list));
        assert(buf_view(data) =~= protocols_body(protocols@));
        self.add_extension(etype, buf_slice(&data));
    }

    /// `application_settings`: the same form as ALPN.
    pub fn application_settings(&mut self, protocols: &[&str])
        requires
            old(self).room(6 + protocol_list(protocols@).len()),
        ensures
            old(self).extended_by(
                ext_bytes(TlsExtensions::ALPS, protocols_body(protocols@)),
                *final(self),
            ),
    {
        self.protocols(TlsExtensions::ALPS, protocols);
    }

    /// ALPN.
    pub fn alpn(&mut self, protocols: &[&str])
        requires
            old(self).room(6 + protocol_list(protocols@).len()),
        ensures
            old(self).extended_by(
                ext_bytes(TlsExtensions::ALPN, protocols_body(protocols@)),
                *final(self),
            ),
    {
        self.protocols(TlsExtensions::ALPN, protocols);
    }

    /// `psk_key_exchange_modes`.
    pub fn psk_key_exchange_modes(&mut self)
        requires
            old(self).room(6),
        ensures
            old(self).extended_by(
                ext_bytes(TlsExtensions::PSK_MODES, seq![1u8, PSK_DHE_KE_MODE]),
                *final(self),
            ),
    {
        let data: [u8; 2] = [1, PSK_DHE_KE_MODE];
        assert(data@ =~= seq![1u8, PSK_DHE_KE_MODE]);
        self.add_extension(TlsExtensions::PSK_MODES, data.as_slice());
    }

    /// `compress_certificate`.
    pub fn compress_certificate(&mut self, algorithms: &[u16])
        requires
            old(self).room(5 + 2 * algorithms@.len()),
        ensures
            old(self).extended_by(
                ext_bytes(TlsExtensions::COMPRESS_CERT, list8_body(algorithms@)),
                *final(self),
            ),
    {
        let mut data: BytesMut = BytesMut::with_capacity(1 + algorithms.len() * 2);
        put_u8(&mut data, low_u8(algorithms.len() * 2));
        put_u16_list(&mut data, algorithms);
        proof {
            lemma_be16_list_len(algorithms@);
        }
        assert(buf_view(data) =~= list8_body(algorithms@));
        self.add_extension(TlsExtensions::COMPRESS_CERT, buf_slice(&data));
    }

    /// `status_request`.
    pub fn status_request(&mut self)
        requires
            old(self).room(9),
        ensures
            old(self).extended_by(
                ext_bytes(
                    TlsExtensions::STATUS_REQUEST,
                    seq![OCSP_STATUS_TYPE, 0u8, 0u8, 0u8, 0u8],
                ),
                *final(self),
            ),
    {
        let data: [u8; 5] = [OCSP_STATUS_TYPE, 0, 0, 0, 0];
        assert(data@ =~= seq![OCSP_STATUS_TYPE, 0u8, 0u8, 0u8, 0u8]);
        self.add_extension(TlsExtensions::STATUS_REQUEST, data.as_slice());
    }

    /// `ec_point_formats`.
    pub fn ec_point_formats(&mut self)
        requires
            old(self).room(6),
        ensures
            old(self).extended_by(
                ext_bytes(TlsExtensions::EC_POINT_FORMATS, seq![1u8, 0u8]),
                *final(self),
            ),
    {
        let data: [u8; 2] = [1, 0x00];
        assert(data@ =~= seq![1u8, 0u8]);
        self.add_extension(TlsExtensions::EC_POINT_FORMATS, data.as_slice());
    }

    /// `signed_certificate_timestamp`.
    pub fn signed_certificate_timestamp(&mut self)
        requires
            old(self).room(4),
        ensures
            old(self).extended_by(ext_bytes(TlsExtensions::SCT, Seq::empty()), *final(self)),
    {
        self.grease_with_id(TlsExtensions::SCT);
    }

    /// `delegated_credentials`.
    pub fn delegated_credential(&mut self, algs: TlsSignatures)
        requires
            old(self).room(6 + 2 * algs.0@.len()),
        ensures
            old(self).extended_by(
                ext_bytes(TlsExtensions::DELEGATED_CREDENTIAL, list16_body(algs.0@)),
                *final(self),
            ),
    {
        self.number_list(TlsExtensions::DELEGATED_CREDENTIAL, algs.0);
    }

    /// `session_ticket`.
    pub fn session_ticket(&mut self)
        requires
            old(self).room(4),
        ensures
            old(self).extended_by(
                ext_bytes(TlsExtensions::SESSION_TICKET, Seq::empty()),
                *final(self),
            ),
    {
        self.grease_with_id(TlsExtensions::SESSION_TICKET);
    }

    /// `renegotiation_info`.
    pub fn renegotiation_info(&mut self)
        requires
            old(self).room(5),
        ensures
            old(self).extended_by(
                ext_bytes(TlsExtensions::RENEGOTIATION_INFO, seq![0u8]),
                *final(self),
            ),
    {
        let data: [u8; 1] = [0x00];
        assert(data@ =~= seq![0u8]);
        self.add_extension(TlsExtensions::RENEGOTIATION_INFO, data.as_slice());
    }

    /// Padding: zeros until the extensions and the `overhead` around them reach the target
    /// size. When they are that long already, nothing is added.
    pub fn padding(&mut self, target_size: usize, overhead: usize)
        requires
            old(self).written().len() + overhead + 4 <= usize::MAX,
            old(self).room(target_size as nat),
        ensures
            old(self).extended_by(
                block_bytes(
                    padding_entry(target_size as int, old(self).written().len() + overhead),
                ),
                *final(self),
            ),
            target_size > old(self).written().len() + overhead + 4 ==> final(self).written().len()
                + overhead == target_size,
    {
        let ghost before = self.written();
        let current_total_size: usize = self.payload.len() + overhead;
        if target_size > current_total_size + 4 {
            let pad_len: usize = target_size - current_total_size - 4;
            let data: Vec<u8> = vec![0u8; pad_len];
            assert(data@ =~= zeros(pad_len as nat));
            self.add_extension(TlsExtensions::PADDING, data.as_slice());
            proof {
                lemma_block_single(TlsExtensions::PADDING, zeros(pad_len as nat));
            }
        } else {
            assert(self.written() =~= before + Seq::empty());
        }
    }

    /// Shuffles what stands between the first and the last.
    fn shuffle_middle(order: &mut Vec<u16>)
        requires
            old(order)@.len() <= isize::MAX / 2,
        ensures
            old(order)@.len() < 4 ==> final(order)@ == old(order)@,
            old(order)@.len() >= 4 ==> exists|random: Seq<u8>|
                random.len() == 2 * (old(order)@.len() - 2) && from_system(random)
                    && final(order)@ == #[trigger] fisher_yates(
                    old(order)@,
                    random,
                    old(order)@.len() - 3,
                ),
            middle_shuffled(old(order)@, final(order)@),
    {
        let len: usize = order.len();
        if len < 4 {
            return;
        }
        let random: Vec<u8> = system_bytes((len - 2) * 2);
        Self::shuffle_middle_with(order, random.as_slice());
    }

    /// Shuffles what stands between the first and the last, as the random bytes say.
    pub fn shuffle_middle_with(order: &mut Vec<u16>, random: &[u8])
        requires
            old(order)@.len() >= 4,
            random@.len() == 2 * (old(order)@.len() - 2),
        ensures
            final(order)@ == fisher_yates(old(order)@, random@, old(order)@.len() - 3),
            middle_shuffled(old(order)@, final(order)@),
    {
        let ghost before = order@;
        let len: usize = order.len();
        let bytes: usize = random.len();
        let mut i: usize = len - 3;
        while i > 0
            invariant
                before.len() == len,
                4 <= len,
                0 <= i <= len - 3,
                order@.len() == len,
                random@.len() == 2 * (len - 2),
                random@.len() == bytes,
                fisher_yates(before, random@, len - 3) == fisher_yates(order@, random@, i as int),
                middle_shuffled(before, order@),
            decreases i,
        {
            let r: usize = random[i * 2] as usize + 256 * random[i * 2 + 1] as usize;
            let j: usize = r % (i + 1);
            let ghost now = order@;
            let a: u16 = order[1 + i];
            let b: u16 = order[1 + j];
            order.set(1 + i, b);
            order.set(1 + j, a);
            proof {
                assert(order@ == swapped(now, 1 + i, 1 + j));
                lemma_swap_multiset(now, 1 + i, 1 + j);
            }
            i = i - 1;
        }
    }

    /// Writes the extension `id` of a profile.
    fn apply_extension(
        &mut self,
        id: u16,
        profile: &BrowserProfile,
        host: &str,
        pub_key: &[u8],
        overhead: usize,
    )
        requires
            id == TlsExtensions::SNI ==> low16(encode_utf8(host@).len()) <= 65532,
            old(self).room(extension_limit(*profile, encode_utf8(host@), pub_key@)),
            old(self).written().len() + overhead + 4 <= usize::MAX,
        ensures
            ({
                let ctx = HelloContext {
                    profile: *profile,
                    host: encode_utf8(host@),
                    pub_key: pub_key@,
                    grease: old(self).grease,
                    overhead: overhead as nat,
                };
                exists|draw: Seq<u8>|
                    draw_for(ctx, id, draw) && draw_made(ctx, id, draw) && old(self).extended_by(
                        #[trigger] extension_bytes(
                            ctx,
                            id,
                            old(self).written().len() as int,
                            draw,
                        ),
                        *final(self),
                    )
            }),
    {
        let ghost ctx = HelloContext {
            profile: *profile,
            host: encode_utf8(host@),
            pub_key: pub_key@,
            grease: self.grease,
            overhead: overhead as nat,
        };
        let ghost size = self.written().len() as int;
        let ghost none: Seq<u8> = Seq::empty();
        let ghost before = *self;
        if id == TlsExtensions::KEY_SHARE {
            self.key_share(profile, pub_key);
            proof {
                let ballast = choose|ballast: Seq<u8>|
                    ({
                        &&& if profile.groups.0@.contains(TlsGroups::X25519_MLKEM768) {
                            valid_share(ballast) && sampled_share(ballast)
                        } else {
                            ballast.len() == 0
                        }
                        &&& before.extended_by(
                            ext_bytes(
                                TlsExtensions::KEY_SHARE,
                                #[trigger] share_body(
                                    *profile,
                                    before.grease.group,
                                    ballast,
                                    pub_key@,
                                ),
                            ),
                            *self,
                        )
                    });
                assert(draw_for(ctx, id, ballast) && draw_made(ctx, id, ballast));
                lemma_block_single(id, share_body(*profile, before.grease.group, ballast, pub_key@));
                assert(before.extended_by(extension_bytes(ctx, id, size, ballast), *self));
            }
            return;
        }
        if id == TlsExtensions::ECH {
            self.ech_grease();
            proof {
                let random = choose|random: Seq<u8>|
                    random.len() == ECH_RANDOM_LEN && from_system(random) && before.extended_by(
                        ext_bytes(TlsExtensions::ECH, #[trigger] ech_body(random)),
                        *self,
                    );
                assert(draw_for(ctx, id, random) && draw_made(ctx, id, random));
                lemma_block_single(id, ech_body(random));
                assert(before.extended_by(extension_bytes(ctx, id, size, random), *self));
            }
            return;
        }
        assert(draw_for(ctx, id, none) && draw_made(ctx, id, none));
        if id == TlsExtensions::GREASE_SLOT_FIRST {
            if profile.has_grease {
                let first: u16 = self.grease.ext_first;
                self.grease_with_id(first);
            }
        } else if id == TlsExtensions::GREASE_SLOT_LAST {
            if profile.has_grease {
                let last: u16 = self.grease.ext_last;
                let data: [u8; 1] = [0x00];
                assert(data@ =~= seq![0u8]);
                self.add_extension(last, data.as_slice());
            }
        } else if id == TlsExtensions::SNI {
            self.server_name(host);
        } else if id == TlsExtensions::SUPPORTED_GROUPS {
            self.supported_groups(profile.groups, profile.has_grease);
        } else if id == TlsExtensions::SIGNATURE_ALGORITHMS {
            self.signature_algorithms(profile.signatures);
        } else if id == TlsExtensions::ALPN {
            self.alpn(profile.alpn);
        } else if id == TlsExtensions::SCT {
            self.signed_certificate_timestamp();
        } else if id == TlsExtensions::EMS {
            self.extended_main_secret();
        } else if id == TlsExtensions::COMPRESS_CERT {
            let algorithms: [u16; 1] = [CERT_COMPRESSION_BROTLI];
            assert(algorithms@ =~= seq![CERT_COMPRESSION_BROTLI]);
            self.compress_certificate(algorithms.as_slice());
        } else if id == TlsExtensions::DELEGATED_CREDENTIAL {
            self.delegated_credential(profile.delegated_signatures);
        } else if id == TlsExtensions::SESSION_TICKET {
            self.session_ticket();
        } else if id == TlsExtensions::SUPPORTED_VERSIONS {
            self.supported_versions(profile.versions, profile.has_grease);
        } else if id == TlsExtensions::PSK_MODES {
            self.psk_key_exchange_modes();
        } else if id == TlsExtensions::ALPS {
            if profile.alps_protocols.len() > 0 {
                self.application_settings(profile.alps_protocols);
            }
        } else if id == TlsExtensions::STATUS_REQUEST {
            self.status_request();
        } else if id == TlsExtensions::EC_POINT_FORMATS {
            self.ec_point_formats();
        } else if id == TlsExtensions::RENEGOTIATION_INFO {
            self.renegotiation_info();
        } else if id == TlsExtensions::PADDING {
            if profile.target_padding_len > 0 {
                self.padding(profile.target_padding_len as usize, overhead);
            }
        } else if TlsExtensions::is_grease(id) {
            if profile.has_grease {
                self.grease_with_id(id);
            }
        } else {
            self.apply_generic_extension(id, profile);
        }
        proof {
            assert(before.written() + none =~= before.written());
            let entry = extension_entry(ctx, id, size, none);
            if entry.len() == 1 {
                assert(entry =~= seq![entry[0]]);
                lemma_block_single(entry[0].0, entry[0].1);
            }
            assert(before.extended_by(extension_bytes(ctx, id, size, none), *self));
        }
    }

    /// Writes all extensions of a profile: in its order, the middle shuffled where the
    /// profile says so, with the connection's GREASE numbers in the places kept for them.
    pub fn apply_profile(
        &mut self,
        profile: &BrowserProfile,
        host: &str,
        pub_key: &[u8],
        overhead: usize,
    )
        requires
            profile.extension_order.0@.contains(TlsExtensions::SNI) ==> low16(
                encode_utf8(host@).len(),
            ) <= 65532,
            old(self).written().len() + overhead + profile.extension_order.0@.len()
                * extension_limit(*profile, encode_utf8(host@), pub_key@) <= isize::MAX,
        ensures
            final(self).grease == old(self).grease,
            exists|block: Seq<u8>|
                old(self).extended_by(block, *final(self)) && #[trigger] profile_block(
                    HelloContext {
                        profile: *profile,
                        host: encode_utf8(host@),
                        pub_key: pub_key@,
                        grease: old(self).grease,
                        overhead: overhead as nat,
                    },
                    old(self).written().len() as int,
                    block,
                ),
            exists|block: Seq<u8>|
                old(self).extended_by(block, *final(self)) && #[trigger] drawn_block(
                    HelloContext {
                        profile: *profile,
                        host: encode_utf8(host@),
                        pub_key: pub_key@,
                        grease: old(self).grease,
                        overhead: overhead as nat,
                    },
                    old(self).written().len() as int,
                    block,
                ),
    {
        let ghost ctx = HelloContext {
            profile: *profile,
            host: encode_utf8(host@),
            pub_key: pub_key@,
            grease: self.grease,
            overhead: overhead as nat,
        };
        let ghost start = *self;
        let ghost limit = extension_limit(*profile, encode_utf8(host@), pub_key@) as int;
        let source: &[u16] = profile.extension_order.0;
        let ghost listed = source@;
        let mut order: Vec<u16> = Vec::new();
        order.extend_from_slice(source);
        assert(order@ =~= listed);
        proof {
            assert(listed.len() * limit >= listed.len() * 2) by (nonlinear_arith)
                requires
                    limit >= 2,
                    listed.len() >= 0,
            ;
        }
        if profile.shuffle_extensions {
            Self::shuffle_middle(&mut order);
        }
        proof {
            lemma_same_elements(listed, order@);
        }
        let ghost mut draws: Seq<Seq<u8>> = Seq::empty();
        let mut i: usize = 0;
        assert(ordered_bytes(ctx, order@.subrange(0, 0), start.written().len() as int, draws)
            =~= Seq::empty());
        assert(start.written() + Seq::empty() =~= start.written());
        while i < order.len()
            invariant
                i <= order@.len(),
                order@.len() == listed.len(),
                profile_order(*profile, order@),
                order_made(*profile, order@),
                forall|k: int| 0 <= k < order@.len() ==> listed.contains(#[trigger] order@[k]),
                listed == profile.extension_order.0@,
                listed.contains(TlsExtensions::SNI) ==> low16(encode_utf8(host@).len()) <= 65532,
                limit == extension_limit(*profile, encode_utf8(host@), pub_key@),
                start.written().len() + overhead + listed.len() * limit <= isize::MAX,
                ctx == (HelloContext {
                    profile: *profile,
                    host: encode_utf8(host@),
                    pub_key: pub_key@,
                    grease: start.grease,
                    overhead: overhead as nat,
                }),
                self.grease == start.grease,
                draws.len() == i,
                forall|k: int| 0 <= k < i ==> draw_for(ctx, order@[k], #[trigger] draws[k]),
                forall|k: int| 0 <= k < i ==> draw_made(ctx, order@[k], #[trigger] draws[k]),
                self.written() == start.written() + ordered_bytes(
                    ctx,
                    order@.subrange(0, i as int),
                    start.written().len() as int,
                    draws,
                ),
                self.written().len() <= start.written().len() + i * limit,
            decreases order@.len() - i,
        {
            let ghost before = *self;
            proof {
                assert(i * limit + limit <= listed.len() * limit) by (nonlinear_arith)
                    requires
                        i + 1 <= listed.len(),
                        limit >= 0,
                ;
                assert(listed.contains(order@[i as int]));
            }
            self.apply_extension(order[i], profile, host, pub_key, overhead);
            proof {
                let id = order@[i as int];
                let size = before.written().len() as int;
                let draw = choose|draw: Seq<u8>|
                    draw_for(ctx, id, draw) && draw_made(ctx, id, draw) && before.extended_by(
                        #[trigger] extension_bytes(ctx, id, size, draw),
                        *self,
                    );
                let now = order@.subrange(0, i + 1);
                let more = draws.push(draw);
                assert(now.drop_last() =~= order@.subrange(0, i as int));
                assert(more.drop_last() =~= draws);
                lemma_ordered_step(ctx, now, start.written().len() as int, more);
                assert(self.written() =~= start.written() + ordered_bytes(
                    ctx,
                    now,
                    start.written().len() as int,
                    more,
                ));
                lemma_extension_limit(ctx, id, size, draw);
                assert((i + 1) * limit == i * limit + limit) by (nonlinear_arith);
                draws = more;
            }
            i = i + 1;
        }
        proof {
            assert(order@.subrange(0, order@.len() as int) =~= order@);
            let block = ordered_bytes(ctx, order@, start.written().len() as int, draws);
            assert(draws_for(ctx, order@, draws));
            assert(profile_block(ctx, start.written().len() as int, block));
            assert(drawn_block(ctx, start.written().len() as int, block));
            assert(start.extended_by(block, *self));
        }
    }

    /// Hands out what was written; the builder is empty again.
    pub fn build(&mut self) -> (r: Bytes)
        ensures
            bytes_view(r) == old(self).written(),
            final(self).written().len() == 0,
            final(self).grease == old(self).grease,
    {
        self.payload.split().freeze()
    }
}

/// A number in front of a list is written in front of it.
proof fn lemma_be16_list_front(x: u16, values: Seq<u16>)
    ensures
        be16_list(seq![x] + values) == be16(x) + be16_list(values),
    decreases values.len(),
{
    if values.len() == 0 {
        assert(seq![x] + values =~= seq![x]);
        assert(seq![x].drop_last() =~= Seq::empty());
        assert(be16_list(Seq::<u16>::empty()) =~= Seq::<u8>::empty());
        assert(be16_list(seq![x]) =~= be16(x));
        assert(be16(x) + be16_list(values) =~= be16(x));
    } else {
        lemma_be16_list_front(x, values.drop_last());
        assert((seq![x] + values).drop_last() =~= seq![x] + values.drop_last());
        assert(be16_list(seq![x] + values) =~= be16(x) + be16_list(values));
    }
}

/// What is the same but for the order holds the same numbers.
proof fn lemma_same_elements(from: Seq<u16>, to: Seq<u16>)
    requires
        to == from || to.to_multiset() == from.to_multiset(),
    ensures
        forall|k: int| 0 <= k < to.len() ==> from.contains(#[trigger] to[k]),
{
    broadcast use vstd::seq_lib::group_to_multiset_ensures;

    assert forall|k: int| 0 <= k < to.len() implies from.contains(#[trigger] to[k]) by {
        assert(to.contains(to[k]));
        assert(to.to_multiset().count(to[k]) > 0);
        assert(from.to_multiset().count(to[k]) > 0);
    }
}

/// No block of a profile is longer than its extensions at their limit.
pub proof fn lemma_profile_block_len(ctx: HelloContext, size: int, block: Seq<u8>)
    requires
        profile_block(ctx, size, block),
        size >= 0,
    ensures
        block.len() <= ctx.profile.extension_order.0@.len() * extension_limit(
            ctx.profile,
            ctx.host,
            ctx.pub_key,
        ),
{
    let (order, draws) = choose|order: Seq<u16>, draws: Seq<Seq<u8>>|
        profile_order(ctx.profile, order) && draws_for(ctx, order, draws) && block
            == #[trigger] ordered_bytes(ctx, order, size, draws);
    lemma_ordered_len(ctx, order, size, draws);
}

proof fn lemma_ordered_len(ctx: HelloContext, order: Seq<u16>, size: int, draws: Seq<Seq<u8>>)
    requires
        draws_for(ctx, order, draws),
        size >= 0,
    ensures
        ordered_bytes(ctx, order, size, draws).len() <= order.len() * extension_limit(
            ctx.profile,
            ctx.host,
            ctx.pub_key,
        ),
    decreases order.len(),
{
    let limit = extension_limit(ctx.profile, ctx.host, ctx.pub_key);
    if order.len() > 0 {
        let front = ordered_bytes(ctx, order.drop_last(), size, draws.drop_last());
        assert forall|i: int| 0 <= i < order.drop_last().len() implies draw_for(
            ctx,
            order.drop_last()[i],
            #[trigger] draws.drop_last()[i],
        ) by {
            assert(draw_for(ctx, order[i], draws[i]));
        }
        lemma_ordered_len(ctx, order.drop_last(), size, draws.drop_last());
        lemma_ordered_step(ctx, order, size, draws);
        assert(draw_for(ctx, order[order.len() - 1], draws[order.len() - 1]));
        lemma_extension_limit(ctx, order.last(), size + front.len(), draws.last());
        assert(order.drop_last().len() * limit + limit == order.len() * limit) by (nonlinear_arith)
            requires
                order.drop_last().len() == order.len() - 1,
        ;
    } else {
        assert(0 * limit == 0) by (nonlinear_arith);
    }
}

/// No extension is longer than the limit.
proof fn lemma_extension_limit(ctx: HelloContext, id: u16, size: int, draw: Seq<u8>)
    requires
        draw_for(ctx, id, draw),
        size >= 0,
    ensures
        extension_bytes(ctx, id, size, draw).len() <= extension_limit(
            ctx.profile,
            ctx.host,
            ctx.pub_key,
        ),
{
    let p = ctx.profile;
    let entry = extension_entry(ctx, id, size, draw);
    if entry.len() == 1 {
        assert(entry =~= seq![entry[0]]);
        lemma_block_single(entry[0].0, entry[0].1);
        assert(block_bytes(entry).len() == 4 + entry[0].1.len());
    }
    if id == TlsExtensions::SNI {
        assert(sni_body(ctx.host).len() == 5 + ctx.host.len());
    } else if id == TlsExtensions::SUPPORTED_GROUPS {
        let all = greased(p.groups.0@, p.has_grease, ctx.grease.group);
        lemma_be16_list_len(all);
        assert(list16_body(all).len() == 2 + 2 * all.len());
    } else if id == TlsExtensions::SIGNATURE_ALGORITHMS {
        lemma_be16_list_len(p.signatures.0@);
        assert(list16_body(p.signatures.0@).len() == 2 + 2 * p.signatures.0@.len());
    } else if id == TlsExtensions::ALPN {
        assert(protocols_body(p.alpn@).len() == 2 + protocol_list(p.alpn@).len());
    } else if id == TlsExtensions::ECH {
        assert(ech_body(draw).len() == 186);
    } else if id == TlsExtensions::COMPRESS_CERT {
        let all = seq![CERT_COMPRESSION_BROTLI];
        lemma_be16_list_len(all);
        assert(list8_body(all).len() == 3);
    } else if id == TlsExtensions::DELEGATED_CREDENTIAL {
        lemma_be16_list_len(p.delegated_signatures.0@);
        assert(list16_body(p.delegated_signatures.0@).len() == 2 + 2
            * p.delegated_signatures.0@.len());
    } else if id == TlsExtensions::SUPPORTED_VERSIONS {
        let all = greased(p.versions.0@, p.has_grease, ctx.grease.version);
        lemma_be16_list_len(all);
        assert(list8_body(all).len() == 1 + 2 * all.len());
    } else if id == TlsExtensions::KEY_SHARE {
        let list = share_list(p, ctx.grease.group, draw, ctx.pub_key);
        assert(list.len() <= 5 + 4 + 1216 + 4 + ctx.pub_key.len());
        assert(share_body(p, ctx.grease.group, draw, ctx.pub_key).len() == 2 + list.len());
    } else if id == TlsExtensions::ALPS {
        assert(protocols_body(p.alps_protocols@).len() == 2 + protocol_list(
            p.alps_protocols@,
        ).len());
    }
}

/// Shuffling fills the places of the middle from the last down: place `1 + i` gets what the
/// number of its two random bytes, low byte first, picks among what is left, each equally, and
/// what stands outside the middle up to there stays. Then the places below are filled from what
/// is left.
pub proof fn lemma_shuffle_picks(order: Seq<u16>, random: Seq<u8>, i: int)
    requires
        1 <= i,
        i + 1 < order.len(),
    ensures
        ({
            let pick = 1 + (random[2 * i] + 256 * random[2 * i + 1]) % (i + 1);
            let left = order.update(1 + i, order[pick]).update(pick, order[1 + i]);
            let out = fisher_yates(order, random, i);
            &&& 1 <= pick <= 1 + i
            &&& out[1 + i] == order[pick]
            &&& out == fisher_yates(left, random, i - 1)
        }),
        fisher_yates(order, random, i).len() == order.len(),
        forall|k: int|
            0 <= k < order.len() && (k < 1 || k > 1 + i) ==> #[trigger] fisher_yates(
                order,
                random,
                i,
            )[k] == order[k],
        fisher_yates(order, random, 0) == order,
    decreases i,
{
    let word = random[2 * i] + 256 * random[2 * i + 1];
    let pick = 1 + word % (i + 1);
    assert(0 <= word % (i + 1) < i + 1) by (nonlinear_arith)
        requires
            i >= 1,
            word >= 0,
    ;
    let left = swapped(order, 1 + i, pick);
    reveal_with_fuel(fisher_yates, 2);
    if i > 1 {
        lemma_shuffle_picks(left, random, i - 1);
        assert(fisher_yates(left, random, i - 1)[1 + i] == left[1 + i]);
    }
    assert forall|k: int| 0 <= k < order.len() && (k < 1 || k > 1 + i) implies
        #[trigger] fisher_yates(order, random, i)[k] == order[k] by {
        assert(left[k] == order[k]);
        if i > 1 {
            assert(fisher_yates(left, random, i - 1)[k] == left[k]);
        }
    }
}

/// The extensions of a hello were written in an order that random bytes gave, where the profile
/// shuffles, and with random parts that were drawn: the post-quantum share and the encrypted
/// hello.
pub proof fn lemma_drawn_block(ctx: HelloContext, size: int, out: Seq<u8>)
    requires
        drawn_block(ctx, size, out),
    ensures
        exists|order: Seq<u16>, draws: Seq<Seq<u8>>|
            {
                let from = ctx.profile.extension_order.0@;
                &&& out == #[trigger] ordered_bytes(ctx, order, size, draws)
                &&& draws.len() == order.len()
                &&& ctx.profile.shuffle_extensions && from.len() >= 4 ==> exists|random: Seq<u8>|
                    random.len() == 2 * (from.len() - 2) && from_system(random) && order
                        == #[trigger] fisher_yates(from, random, from.len() - 3)
                &&& !(ctx.profile.shuffle_extensions && from.len() >= 4) ==> order == from
                &&& forall|i: int|
                    0 <= i < order.len() && order[i] == 0xfe0d ==> from_system(#[trigger] draws[i])
                        && draws[i].len() == 177
                &&& ctx.profile.groups.0@.contains(0x11ec) ==> forall|i: int|
                    0 <= i < order.len() && order[i] == 0x0033 ==> sampled_share(
                        #[trigger] draws[i],
                    )
            },
{
    let (order, draws) = choose|order: Seq<u16>, draws: Seq<Seq<u8>>|
        profile_order(ctx.profile, order) && draws_for(ctx, order, draws) && order_made(
            ctx.profile,
            order,
        ) && (forall|i: int|
            0 <= i < order.len() ==> draw_made(ctx, order[i], #[trigger] draws[i])) && out
            == #[trigger] ordered_bytes(ctx, order, size, draws);
    assert(out == ordered_bytes(ctx, order, size, draws));
}

/// Writing an extension puts its bytes behind what was written, and changes nothing else.
pub proof fn lemma_extended(before: ExtensionBuilder, more: Seq<u8>, after: ExtensionBuilder)
    requires
        before.extended_by(more, after),
    ensures
        after.written() == before.written() + more,
        after.grease == before.grease,
{
}

} // verus!
