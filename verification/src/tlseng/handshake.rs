//! The hello messages, which carry more than they seem to.
//!
//! The `random` of a hello is the sender's salt, its `session_id` holds the claimed version
//! and the authentication tag, and `key_share` the public key. Everything else is there to
//! look like a browser's.

use bytes::{Buf, BufMut, Bytes, BytesMut};
use vstd::prelude::*;
use vstd::utf8::encode_utf8;

use crate::buffers::{
    buf_slice, buf_view, bytes_slice, bytes_view, get_u16, get_u8, put_u16, put_u8,
};
use crate::crypto::auth::step_of;
use crate::crypto::session::{own_tag, SessionKeys, SessionView};
use crate::crypto::clock::now_unix_secs;
use crate::entropy::system_bytes;
use crate::errors::{ErrorAction, ErrorStage, TlsError};
use crate::net_consts::{PROTOCOL_VERSION, PROTOCOL_VERSION_ANONYMOUS};
use crate::parser::Parser;
use crate::tlseng::consts::{HANDSHAKE_TYPE_CLIENT_HELLO, HANDSHAKE_TYPE_SERVER_HELLO};
use crate::tlseng::extension_builder::{
    drawn_block, extension_limit, greased, profile_block, put_u16_list, ExtensionBuilder, HelloContext,
};
use crate::tlseng::grease::GreaseSet;
use crate::tlseng::profile::{BrowserProfile, ServerProfile};
use crate::tlseng::tls_record::{record_bytes, TlsRecord};
use crate::tlseng::types::{
    holds, ContentType, HelloType, ProtocolVersion, TlsExtensions, TlsGroups,
};
use crate::utils::byte_order::{
    be16, be16_list, be24, lemma_be16_list_len, low16, low8, low_u16, low_u8, read_u16, take_array,
    u16_at, u24_at,
};
use crate::utils::u24::{BufExt, U24};

verus! {

/// The head of a handshake message: its type and the length of its body.
pub struct HelloHeader {
    /// The type.
    pub header_type: HelloType,
    /// The length of the body.
    pub _len: U24,
}

impl Parser for HelloHeader {
    type Error = TlsError;

    open spec fn complete(b: Seq<u8>) -> bool {
        b.len() >= 4 && HelloType::of_wire(b[0]) is Some
    }

    open spec fn outcome(b: Seq<u8>, r: Result<Option<Self>, TlsError>, rest: Seq<u8>) -> bool {
        match HelloType::of_wire(b[0]) {
            Some(t) if b.len() >= 4 => {
                &&& r matches Ok(Some(header)) && header.header_type == t && header._len.value()
                    == u24_at(b, 1)
                &&& rest == b.subrange(4, b.len() as int)
            },
            _ => r matches Ok(None) && rest == b,
        }
    }

    fn can_parse(bytes: &BytesMut) -> (r: bool) {
        let ghost enough = HelloHeader::complete(buf_view(*bytes));
        let b: &[u8] = buf_slice(bytes);
        if b.len() < 4 {
            return false;
        }
        b[0] == HelloType::Client.code() || b[0] == HelloType::Server.code()
    }

    fn parse(bytes: &mut BytesMut) -> (r: Result<Option<Self>, TlsError>) {
        let ghost waits = HelloHeader::outcome(buf_view(*bytes), Ok(None), buf_view(*bytes));
        if !Self::can_parse(bytes) {
            return Ok(None);
        }
        let ghost b = buf_view(*bytes);
        let raw_type: u8 = get_u8(bytes);
        let header_type: HelloType = match HelloType::try_from(raw_type) {
            Ok(t) => t,
            Err(e) => {
                return Err(TlsError::new(ErrorStage::Handshake(e), ErrorAction::Drop, Bytes::new()));
            },
        };
        let len: u32 = bytes.get_u24();
        assert(buf_view(*bytes) =~= b.subrange(4, b.len() as int));
        Ok(Some(Self { header_type, _len: U24::from_u32(len) }))
    }
}

/// The first message of the client.
pub struct ClientHello {
    /// The version, always that of TLS 1.2.
    pub _version: ProtocolVersion,
    /// The client's salt.
    pub random: [u8; 32],
    /// The claimed version, 15 random bytes and the tag.
    pub session_id: Bytes,
    /// The cipher suites, in order.
    pub cipher_suites: Vec<u16>,
    /// The block of extensions.
    pub extensions: Bytes,
}

/// The body of a `ClientHello`.
pub open spec fn client_body(
    random: Seq<u8>,
    session_id: Seq<u8>,
    suites: Seq<u16>,
    extensions: Seq<u8>,
) -> Seq<u8> {
    be16(0x0303) + random + seq![low8(session_id.len())] + session_id + be16(
        low16(2 * suites.len()),
    ) + be16_list(suites) + seq![1u8, 0u8] + be16(low16(extensions.len())) + extensions
}

/// A handshake message: type, length and body.
pub open spec fn message_bytes(kind: u8, body: Seq<u8>) -> Seq<u8> {
    seq![kind] + be24((body.len() % 0x100_0000) as u32) + body
}

/// Where the length of the cipher suites stands in a client's body.
pub open spec fn suites_at(b: Seq<u8>) -> int {
    35 + b[34]
}

/// Where the length of the compression methods stands.
pub open spec fn compression_at(b: Seq<u8>) -> int {
    suites_at(b) + 2 + u16_at(b, suites_at(b))
}

/// Where the length of the extensions stands.
pub open spec fn client_extensions_at(b: Seq<u8>) -> int {
    compression_at(b) + 1 + b[compression_at(b)]
}

/// Where a client's body ends: behind the extensions, which may be missing.
pub open spec fn client_end(b: Seq<u8>) -> int {
    let at = client_extensions_at(b);
    if b.len() - at >= 2 {
        at + 2 + u16_at(b, at)
    } else {
        at
    }
}

/// The extensions of a client's body.
pub open spec fn client_extensions(b: Seq<u8>) -> Seq<u8> {
    let at = client_extensions_at(b);
    if b.len() - at >= 2 {
        b.subrange(at + 2, client_end(b))
    } else {
        Seq::empty()
    }
}

/// The cipher suites of a client's body.
pub open spec fn client_suites(b: Seq<u8>) -> Seq<u16> {
    Seq::new(
        (u16_at(b, suites_at(b)) / 2) as nat,
        |i: int| u16_at(b, suites_at(b) + 2 + 2 * i),
    )
}

impl ClientHello {
    /// Whether this is the body `b`, taken apart.
    pub open spec fn is_body(self, version: ProtocolVersion, b: Seq<u8>) -> bool {
        &&& self._version == version
        &&& self.random@ == b.subrange(2, 34)
        &&& bytes_view(self.session_id) == b.subrange(35, suites_at(b))
        &&& self.cipher_suites@ == client_suites(b)
        &&& bytes_view(self.extensions) == client_extensions(b)
    }

    /// The message.
    pub open spec fn wire(self) -> Seq<u8> {
        message_bytes(
            HANDSHAKE_TYPE_CLIENT_HELLO,
            client_body(
                self.random@,
                bytes_view(self.session_id),
                self.cipher_suites@,
                bytes_view(self.extensions),
            ),
        )
    }

    /// The message, with its length.
    pub fn serialize(&self) -> (r: Bytes)
        requires
            50 + bytes_view(self.session_id).len() + 2 * self.cipher_suites@.len() + bytes_view(
                self.extensions,
            ).len() <= isize::MAX,
        ensures
            bytes_view(r) == self.wire(),
    {
        let mut body: BytesMut = BytesMut::new();
        put_u16(&mut body, 0x0303);
        body.put_slice(self.random.as_slice());
        put_u8(&mut body, low_u8(self.session_id.len()));
        body.put_slice(bytes_slice(&self.session_id));
        put_u16(&mut body, low_u16(self.cipher_suites.len() * 2));
        proof {
            lemma_be16_list_len(self.cipher_suites@);
        }
        put_u16_list(&mut body, self.cipher_suites.as_slice());
        put_u8(&mut body, 1);
        put_u8(&mut body, 0x00);
        put_u16(&mut body, low_u16(self.extensions.len()));
        body.put_slice(bytes_slice(&self.extensions));
        assert(buf_view(body) =~= client_body(
            self.random@,
            bytes_view(self.session_id),
            self.cipher_suites@,
            bytes_view(self.extensions),
        ));
        write_message(HANDSHAKE_TYPE_CLIENT_HELLO, &body)
    }

    /// The record of a `ClientHello` of the given parts.
    pub fn assemble(
        profile: &BrowserProfile,
        random: [u8; 32],
        session_id: &[u8],
        grease: &GreaseSet,
        extensions: Bytes,
    ) -> (r: Bytes)
        requires
            60 + session_id@.len() + 2 * profile.cipher_suites@.len() + bytes_view(extensions).len()
                <= isize::MAX,
        ensures
            bytes_view(r) == record_bytes(
                ContentType::Handshake,
                profile.record_layer_version,
                message_bytes(
                    HANDSHAKE_TYPE_CLIENT_HELLO,
                    client_body(
                        random@,
                        session_id@,
                        greased(profile.cipher_suites@, profile.has_grease, grease.cipher),
                        bytes_view(extensions),
                    ),
                ),
            ),
    {
        let mut cipher_suites: Vec<u16> = Vec::new();
        if profile.has_grease {
            cipher_suites.push(grease.cipher);
        }
        cipher_suites.extend_from_slice(profile.cipher_suites);
        assert(cipher_suites@ =~= greased(
            profile.cipher_suites@,
            profile.has_grease,
            grease.cipher,
        ));
        let client_hello: ClientHello = ClientHello {
            _version: ProtocolVersion::Tls12,
            random,
            session_id: Bytes::copy_from_slice(session_id),
            cipher_suites,
            extensions,
        };
        proof {
            lemma_be16_list_len(client_hello.cipher_suites@);
        }
        let record: TlsRecord = TlsRecord::new(
            ContentType::Handshake,
            profile.record_layer_version,
            client_hello.serialize(),
        );
        record.serialize()
    }

    /// The record of a fresh `ClientHello`: the salt as its random bytes, the claimed version
    /// and the tag in its session id, and the extensions of the profile, padded as if the
    /// hello around them were there already.
    pub fn make_client_hello(profile: &BrowserProfile, host: &str, keys: &SessionKeys) -> (r: Bytes)
        requires
            keys@.wf(),
            profile.extension_order.0@.contains(TlsExtensions::SNI) ==> low16(
                encode_utf8(host@).len(),
            ) <= 65532,
            hello_fits(*profile, encode_utf8(host@), keys@.public),
        ensures
            is_client_hello(*profile, encode_utf8(host@), keys@, bytes_view(r)),
            exists|filler: Vec<u8>, now: u64, grease: GreaseSet, block: Seq<u8>|
                call_ensures(system_bytes, (15usize,), filler) && call_ensures(
                    now_unix_secs,
                    (),
                    now,
                ) && call_ensures(GreaseSet::random, (), grease) && drawn_block(
                    HelloContext {
                        profile: *profile,
                        host: encode_utf8(host@),
                        pub_key: keys@.public,
                        grease,
                        overhead: hello_overhead(*profile),
                    },
                    0,
                    block,
                ) && #[trigger] client_hello_of(
                    *profile,
                    encode_utf8(host@),
                    keys@,
                    filler@,
                    step_of(now),
                    grease,
                    block,
                    bytes_view(r),
                ),
    {
        let tls_random: [u8; 32] = keys.local_salt();
        let mut session_id: Vec<u8> = Vec::new();
        session_id.push(keys.claimed_version());
        let filler: Vec<u8> = system_bytes(15);
        session_id.extend_from_slice(filler.as_slice());
        let tag: [u8; 16] = keys.handshake_tag(&tls_random);
        session_id.extend_from_slice(tag.as_slice());
        let ghost now: u64 = choose|now: u64|
            call_ensures(now_unix_secs, (), now) && tag@ == #[trigger] own_tag(
                keys@,
                tls_random@,
                step_of(now),
            );
        assert(session_id@ =~= hello_session_id(keys@, filler@, step_of(now)));

        let grease: GreaseSet = GreaseSet::random();
        let suites: usize = profile.cipher_suites.len() + if profile.has_grease {
            1usize
        } else {
            0usize
        };
        let handshake_header: usize = 4;
        let client_hello_fixed: usize = 2 + 32 + 1 + 32 + 2 + suites * 2 + 2 + 2;
        let total_overhead: usize = handshake_header + client_hello_fixed;

        let mut ext_builder: ExtensionBuilder = ExtensionBuilder::with_grease(grease);
        let public_key: [u8; 32] = keys.public_key_bytes();
        let ghost start = ext_builder;
        ext_builder.apply_profile(profile, host, public_key.as_slice(), total_overhead);
        let ghost ctx = HelloContext {
            profile: *profile,
            host: encode_utf8(host@),
            pub_key: keys@.public,
            grease,
            overhead: total_overhead as nat,
        };
        let ghost block = choose|block: Seq<u8>|
            start.extended_by(block, ext_builder) && #[trigger] drawn_block(ctx, 0, block);
        assert(ext_builder.written() =~= block);
        assert(profile_block(ctx, 0, block));
        proof {
            crate::tlseng::extension_builder::lemma_profile_block_len(ctx, 0, block);
        }
        let extensions: Bytes = ext_builder.build();
        let wire: Bytes = Self::assemble(
            profile,
            tls_random,
            session_id.as_slice(),
            &grease,
            extensions,
        );
        assert(client_hello_of(
            *profile,
            encode_utf8(host@),
            keys@,
            filler@,
            step_of(now),
            grease,
            block,
            bytes_view(wire),
        ));
        wire
    }
}

/// The bytes of a `ClientHello` around its extensions, the record header aside.
pub open spec fn hello_overhead(profile: BrowserProfile) -> nat {
    77 + 2 * greased(profile.cipher_suites@, profile.has_grease, 0).len()
}

/// Whether the hello of a profile fits into a buffer.
pub open spec fn hello_fits(profile: BrowserProfile, host: Seq<u8>, pub_key: Seq<u8>) -> bool {
    200 + 2 * profile.cipher_suites@.len() + profile.extension_order.0@.len() * extension_limit(
        profile,
        host,
        pub_key,
    ) <= isize::MAX
}

/// The session id of a hello: the claimed version, 15 random bytes, the tag.
pub open spec fn hello_session_id(view: SessionView, filler: Seq<u8>, step: u64) -> Seq<u8> {
    seq![
        if view.identity is Some {
            PROTOCOL_VERSION
        } else {
            PROTOCOL_VERSION_ANONYMOUS
        },
    ] + filler + own_tag(view, view.local_salt, step)
}

/// Whether `wire` is the record of a `ClientHello` with the given random parts.
pub open spec fn client_hello_of(
    profile: BrowserProfile,
    host: Seq<u8>,
    view: SessionView,
    filler: Seq<u8>,
    step: u64,
    grease: GreaseSet,
    block: Seq<u8>,
    wire: Seq<u8>,
) -> bool {
    &&& filler.len() == 15
    &&& own_tag(view, view.local_salt, step).len() == 16
    &&& grease.wf()
    &&& profile_block(
        HelloContext {
            profile,
            host,
            pub_key: view.public,
            grease,
            overhead: hello_overhead(profile),
        },
        0,
        block,
    )
    &&& wire == record_bytes(
        ContentType::Handshake,
        profile.record_layer_version,
        message_bytes(
            HANDSHAKE_TYPE_CLIENT_HELLO,
            client_body(
                view.local_salt,
                hello_session_id(view, filler, step),
                greased(profile.cipher_suites@, profile.has_grease, grease.cipher),
                block,
            ),
        ),
    )
}

/// Whether `wire` is the record of a `ClientHello` of a side, for a host and in the manner of
/// a profile, with some random parts.
pub open spec fn is_client_hello(
    profile: BrowserProfile,
    host: Seq<u8>,
    view: SessionView,
    wire: Seq<u8>,
) -> bool {
    exists|filler: Seq<u8>, now: u64, grease: GreaseSet, block: Seq<u8>|
        call_ensures(now_unix_secs, (), now) && #[trigger] client_hello_of(
            profile,
            host,
            view,
            filler,
            step_of(now),
            grease,
            block,
            wire,
        )
}

/// Type, length and body of a message.
fn write_message(kind: u8, body: &BytesMut) -> (r: Bytes)
    requires
        buf_view(*body).len() + 4 <= isize::MAX,
    ensures
        bytes_view(r) == message_bytes(kind, buf_view(*body)),
{
    let mut buf: BytesMut = BytesMut::with_capacity(body.len() + 4);
    put_u8(&mut buf, kind);
    let len: U24 = U24::from_u32((body.len() % 0x100_0000) as u32);
    buf.put_slice(len.0.as_slice());
    buf.put_slice(buf_slice(body));
    assert(buf_view(buf) =~= message_bytes(kind, buf_view(*body)));
    buf.freeze()
}

impl Parser for ClientHello {
    type Error = TlsError;

    /// Every length lies within the bytes that there are. The extensions may be missing.
    open spec fn complete(b: Seq<u8>) -> bool {
        &&& b.len() >= 35
        &&& b.len() >= suites_at(b) + 2
        &&& b.len() >= compression_at(b) + 1
        &&& b.len() >= client_extensions_at(b)
        &&& b.len() >= client_end(b)
    }

    /// An incomplete body is left alone, and so is one whose list of cipher suites has half
    /// a suite at its end: neither can be taken apart as a whole. Of one with an unknown
    /// version only that is taken.
    open spec fn outcome(b: Seq<u8>, r: Result<Option<Self>, TlsError>, rest: Seq<u8>) -> bool {
        if !Self::complete(b) {
            r matches Ok(None) && rest == b
        } else {
            match ProtocolVersion::of_wire(u16_at(b, 0)) {
                None => {
                    &&& r matches Err(e) && e.is_error(
                        ErrorStage::Tls("This is not Protocol Version"),
                        ErrorAction::Drop,
                        Seq::empty(),
                    )
                    &&& rest == b.subrange(2, b.len() as int)
                },
                Some(v) => if u16_at(b, suites_at(b)) % 2 != 0 {
                    r matches Ok(None) && rest == b
                } else {
                    &&& r matches Ok(Some(hello)) && hello.is_body(v, b)
                    &&& rest == b.subrange(client_end(b), b.len() as int)
                },
            }
        }
    }

    fn can_parse(bytes: &BytesMut) -> (r: bool) {
        let ghost enough = ClientHello::complete(buf_view(*bytes));
        let b: &[u8] = buf_slice(bytes);
        let len: usize = b.len();
        if len < 35 {
            return false;
        }
        let sid_len: usize = b[34] as usize;
        if len - 35 < sid_len + 2 {
            return false;
        }
        let ciphers_at: usize = 35 + sid_len;
        let ciphers_len: usize = read_u16(b, ciphers_at) as usize;
        if len - ciphers_at - 2 < ciphers_len + 1 {
            return false;
        }
        let comp_at: usize = ciphers_at + 2 + ciphers_len;
        let comp_len: usize = b[comp_at] as usize;
        if len - comp_at - 1 < comp_len {
            return false;
        }
        let ext_at: usize = comp_at + 1 + comp_len;
        if len - ext_at >= 2 {
            let ext_len: usize = read_u16(b, ext_at) as usize;
            if len - ext_at - 2 < ext_len {
                return false;
            }
        }
        true
    }

    fn parse(bytes: &mut BytesMut) -> (r: Result<Option<Self>, TlsError>) {
        let ghost waits = ClientHello::outcome(buf_view(*bytes), Ok(None), buf_view(*bytes));
        if !Self::can_parse(bytes) {
            return Ok(None);
        }
        let ghost b = buf_view(*bytes);
        let _len: usize = bytes.len();
        let version: u16 = read_u16(buf_slice(bytes), 0);
        let _version: ProtocolVersion = match ProtocolVersion::try_from(version) {
            Ok(v) => v,
            Err(e) => {
                bytes.advance(2);
                return Err(TlsError::new(ErrorStage::Tls(e), ErrorAction::Drop, Bytes::new()));
            },
        };
        let sid_len: usize = buf_slice(bytes)[34] as usize;
        if read_u16(buf_slice(bytes), 35 + sid_len) % 2 != 0 {
            return Ok(None);
        }
        let random: [u8; 32] = take_array::<32>(buf_slice(bytes), 2);
        bytes.advance(35);
        let session_id: Bytes = bytes.split_to(sid_len).freeze();
        assert(bytes_view(session_id) =~= b.subrange(35, suites_at(b)));
        assert(buf_view(*bytes) =~= b.subrange(suites_at(b), b.len() as int));

        let c_len: usize = get_u16(bytes) as usize;
        let ciphers_data: BytesMut = bytes.split_to(c_len);
        assert(buf_view(ciphers_data) =~= b.subrange(suites_at(b) + 2, compression_at(b)));
        assert(buf_view(*bytes) =~= b.subrange(compression_at(b), b.len() as int));
        let mut cipher_suites: Vec<u16> = Vec::new();
        let data: &[u8] = buf_slice(&ciphers_data);
        let count: usize = c_len / 2;
        let mut i: usize = 0;
        while i < count
            invariant
                i <= count,
                c_len == 2 * count,
                data@.len() == c_len,
                35 <= suites_at(b),
                compression_at(b) <= b.len(),
                data@ == b.subrange(suites_at(b) + 2, compression_at(b)),
                c_len == u16_at(b, suites_at(b)),
                cipher_suites@.len() == i,
                forall|k: int|
                    0 <= k < i ==> #[trigger] cipher_suites@[k] == u16_at(
                        b,
                        suites_at(b) + 2 + 2 * k,
                    ),
            decreases count - i,
        {
            assert(data@[2 * i] == b[suites_at(b) + 2 + 2 * i]);
            assert(data@[2 * i + 1] == b[suites_at(b) + 2 + 2 * i + 1]);
            cipher_suites.push(read_u16(data, 2 * i));
            i = i + 1;
        }
        assert(cipher_suites@ =~= client_suites(b));

        let methods_len: usize = get_u8(bytes) as usize;
        bytes.advance(methods_len);
        assert(buf_view(*bytes) =~= b.subrange(client_extensions_at(b), b.len() as int));

        let extensions: Bytes = if bytes.len() >= 2 {
            let ext_len: usize = get_u16(bytes) as usize;
            bytes.split_to(ext_len).freeze()
        } else {
            Bytes::new()
        };
        assert(bytes_view(extensions) =~= client_extensions(b));
        assert(buf_view(*bytes) =~= b.subrange(client_end(b), b.len() as int));
        Ok(Some(Self { _version, random, session_id, cipher_suites, extensions }))
    }
}

/// The answer of the server.
pub struct ServerHello {
    /// The version.
    pub version: ProtocolVersion,
    /// The server's salt.
    pub random: [u8; 32],
    /// The client's session id again.
    pub session_id: Bytes,
    /// The chosen cipher suite.
    pub cipher_suite: u16,
    /// The block of extensions.
    pub extensions: BytesMut,
}

/// The first suite of `wanted` that is also in `offered`; the mandatory one of TLS 1.3 when
/// there is none.
pub open spec fn first_common(wanted: Seq<u16>, offered: Seq<u16>) -> u16
    decreases wanted.len(),
{
    if wanted.len() == 0 {
        0x1301
    } else if offered.contains(wanted[0]) {
        wanted[0]
    } else {
        first_common(wanted.drop_first(), offered)
    }
}

/// The suite that a server chooses.
pub open spec fn chosen_suite(profile: ServerProfile, offered: Seq<u16>) -> u16 {
    if profile.honor_cipher_order {
        first_common(profile.cipher_suites@, offered)
    } else {
        first_common(offered, profile.cipher_suites@)
    }
}

/// The suite that is chosen is the first of the preferred list that the other list has too.
/// Only when the two have none in common, it is the mandatory one of TLS 1.3.
pub proof fn lemma_first_common(wanted: Seq<u16>, offered: Seq<u16>)
    ensures
        ({
            let r = first_common(wanted, offered);
            ||| r == 0x1301 && forall|i: int|
                0 <= i < wanted.len() ==> !offered.contains(#[trigger] wanted[i])
            ||| exists|i: int|
                0 <= i < wanted.len() && #[trigger] wanted[i] == r && offered.contains(r)
                    && forall|j: int| 0 <= j < i ==> !offered.contains(#[trigger] wanted[j])
        }),
    decreases wanted.len(),
{
    if wanted.len() > 0 && !offered.contains(wanted[0]) {
        let rest = wanted.drop_first();
        let r = first_common(wanted, offered);
        lemma_first_common(rest, offered);
        if forall|i: int| 0 <= i < rest.len() ==> !offered.contains(#[trigger] rest[i]) {
            assert forall|i: int| 0 <= i < wanted.len() implies !offered.contains(
                #[trigger] wanted[i],
            ) by {
                if i > 0 {
                    assert(wanted[i] == rest[i - 1]);
                }
            }
        } else {
            let i = choose|i: int|
                0 <= i < rest.len() && #[trigger] rest[i] == r && offered.contains(r)
                    && forall|j: int| 0 <= j < i ==> !offered.contains(#[trigger] rest[j]);
            assert(wanted[i + 1] == r);
            assert forall|j: int| 0 <= j < i + 1 implies !offered.contains(
                #[trigger] wanted[j],
            ) by {
                if j > 0 {
                    assert(wanted[j] == rest[j - 1]);
                }
            }
        }
    } else if wanted.len() > 0 {
        assert(wanted[0] == first_common(wanted, offered));
    }
}

/// The extensions of a server: the chosen version and the public key.
pub open spec fn server_extensions(version: ProtocolVersion, key: Seq<u8>) -> Seq<u8> {
    be16(TlsExtensions::SUPPORTED_VERSIONS) + be16(2) + be16(version.wire()) + be16(
        TlsExtensions::KEY_SHARE,
    ) + be16((low16(key.len()) + 4) as u16) + be16(TlsGroups::X25519) + be16(low16(key.len()))
        + key
}

/// The body of a `ServerHello`.
pub open spec fn server_body(
    version: ProtocolVersion,
    random: Seq<u8>,
    session_id: Seq<u8>,
    suite: u16,
    extensions: Seq<u8>,
) -> Seq<u8> {
    be16(version.wire()) + random + seq![low8(session_id.len())] + session_id + be16(suite) + seq![
        0u8,
    ] + be16(low16(extensions.len())) + extensions
}

/// Where the extensions of a server's body start.
pub open spec fn server_extensions_at(b: Seq<u8>) -> int {
    38 + b[34]
}

/// Where a server's body ends: behind the extensions, which may be missing.
pub open spec fn server_end(b: Seq<u8>) -> int {
    let at = server_extensions_at(b);
    if b.len() >= at + 2 {
        at + 2 + u16_at(b, at)
    } else {
        at
    }
}

/// The extensions of a server's body.
pub open spec fn server_block(b: Seq<u8>) -> Seq<u8> {
    let at = server_extensions_at(b);
    if b.len() >= at + 2 {
        b.subrange(at + 2, server_end(b))
    } else {
        Seq::empty()
    }
}

/// The first suite of `wanted` that is also in `offered`.
fn pick_suite(wanted: &[u16], offered: &[u16]) -> (r: u16)
    ensures
        r == first_common(wanted@, offered@),
{
    let mut i: usize = 0;
    assert(wanted@.subrange(0, wanted@.len() as int) =~= wanted@);
    while i < wanted.len()
        invariant
            i <= wanted@.len(),
            first_common(wanted@, offered@) == first_common(
                wanted@.subrange(i as int, wanted@.len() as int),
                offered@,
            ),
        decreases wanted@.len() - i,
    {
        if holds(offered, wanted[i]) {
            return wanted[i];
        }
        assert(wanted@.subrange(i as int, wanted@.len() as int).drop_first() =~= wanted@.subrange(
            i + 1,
            wanted@.len() as int,
        ));
        i = i + 1;
    }
    0x1301
}

impl ServerHello {
    /// Whether this is the body `b`, taken apart.
    pub open spec fn is_body(self, version: ProtocolVersion, b: Seq<u8>) -> bool {
        let at = server_extensions_at(b);
        &&& self.version == version
        &&& self.random@ == b.subrange(2, 34)
        &&& bytes_view(self.session_id) == b.subrange(35, at - 3)
        &&& self.cipher_suite == u16_at(b, at - 3)
        &&& buf_view(self.extensions) == server_block(b)
    }

    /// Whether this is the answer to a client's hello.
    pub open spec fn answers(
        self,
        client: ClientHello,
        key: Seq<u8>,
        salt: Seq<u8>,
        profile: ServerProfile,
    ) -> bool {
        &&& self.version == ProtocolVersion::Tls12
        &&& self.random@ == salt
        &&& bytes_view(self.session_id) == bytes_view(client.session_id)
        &&& self.cipher_suite == chosen_suite(profile, client.cipher_suites@)
        &&& buf_view(self.extensions) == server_extensions(profile.versions.highest(), key)
    }

    /// The message.
    pub open spec fn wire(self) -> Seq<u8> {
        message_bytes(
            HANDSHAKE_TYPE_SERVER_HELLO,
            server_body(
                self.version,
                self.random@,
                bytes_view(self.session_id),
                self.cipher_suite,
                buf_view(self.extensions),
            ),
        )
    }

    /// The record of the answer to a client's hello.
    pub fn make_server_hello(
        client_hello: &ClientHello,
        server_public_key: &[u8],
        salt: [u8; 32],
        profile: &ServerProfile,
    ) -> (r: Bytes)
        requires
            low16(server_public_key@.len()) <= 65531,
            100 + bytes_view(client_hello.session_id).len() + server_public_key@.len()
                <= isize::MAX,
        ensures
            bytes_view(r) == record_bytes(
                ContentType::Handshake,
                profile.record_layer_version,
                message_bytes(
                    HANDSHAKE_TYPE_SERVER_HELLO,
                    server_body(
                        ProtocolVersion::Tls12,
                        salt@,
                        bytes_view(client_hello.session_id),
                        chosen_suite(*profile, client_hello.cipher_suites@),
                        server_extensions(profile.versions.highest(), server_public_key@),
                    ),
                ),
            ),
    {
        let server_hello: ServerHello = Self::from_client_hello(
            client_hello,
            server_public_key,
            salt,
            profile,
        );
        let record: TlsRecord = TlsRecord::new(
            ContentType::Handshake,
            profile.record_layer_version,
            server_hello.serialize(),
        );
        record.serialize()
    }

    /// The answer to a client's hello: its session id again, one of the suites that both
    /// sides know, and the server's version and public key as extensions.
    pub fn from_client_hello(
        client_hello: &ClientHello,
        server_public_key: &[u8],
        salt: [u8; 32],
        profile: &ServerProfile,
    ) -> (r: Self)
        requires
            low16(server_public_key@.len()) <= 65531,
            14 + server_public_key@.len() <= isize::MAX,
        ensures
            r.answers(*client_hello, server_public_key@, salt@, *profile),
    {
        let selected_suite: u16 = if profile.honor_cipher_order {
            pick_suite(profile.cipher_suites, client_hello.cipher_suites.as_slice())
        } else {
            pick_suite(client_hello.cipher_suites.as_slice(), profile.cipher_suites)
        };
        let mut extensions: BytesMut = BytesMut::new();
        let selected_version: ProtocolVersion = profile.versions.max();
        put_u16(&mut extensions, TlsExtensions::SUPPORTED_VERSIONS);
        put_u16(&mut extensions, 2);
        put_u16(&mut extensions, selected_version.code());
        let key_len: u16 = low_u16(server_public_key.len());
        put_u16(&mut extensions, TlsExtensions::KEY_SHARE);
        put_u16(&mut extensions, key_len + 4);
        put_u16(&mut extensions, TlsGroups::X25519);
        put_u16(&mut extensions, key_len);
        extensions.put_slice(server_public_key);
        assert(buf_view(extensions) =~= server_extensions(
            profile.versions.highest(),
            server_public_key@,
        ));
        Self {
            version: ProtocolVersion::Tls12,
            random: salt,
            session_id: client_hello.session_id.clone(),
            cipher_suite: selected_suite,
            extensions,
        }
    }

    /// The message, with its length.
    pub fn serialize(&self) -> (r: Bytes)
        requires
            50 + bytes_view(self.session_id).len() + buf_view(self.extensions).len() <= isize::MAX,
        ensures
            bytes_view(r) == self.wire(),
    {
        let mut body: BytesMut = BytesMut::new();
        put_u16(&mut body, self.version.code());
        body.put_slice(self.random.as_slice());
        put_u8(&mut body, low_u8(self.session_id.len()));
        body.put_slice(bytes_slice(&self.session_id));
        put_u16(&mut body, self.cipher_suite);
        put_u8(&mut body, 0x00);
        put_u16(&mut body, low_u16(self.extensions.len()));
        body.put_slice(buf_slice(&self.extensions));
        assert(buf_view(body) =~= server_body(
            self.version,
            self.random@,
            bytes_view(self.session_id),
            self.cipher_suite,
            buf_view(self.extensions),
        ));
        write_message(HANDSHAKE_TYPE_SERVER_HELLO, &body)
    }
}

impl Parser for ServerHello {
    type Error = TlsError;

    /// Every length lies within the bytes that there are. The extensions may be missing.
    open spec fn complete(b: Seq<u8>) -> bool {
        b.len() >= 35 && b.len() >= server_end(b)
    }

    /// An incomplete body is left alone. A complete one is taken, with an unknown version
    /// as well.
    open spec fn outcome(b: Seq<u8>, r: Result<Option<Self>, TlsError>, rest: Seq<u8>) -> bool {
        if !Self::complete(b) {
            r matches Ok(None) && rest == b
        } else {
            &&& rest == b.subrange(server_end(b), b.len() as int)
            &&& match ProtocolVersion::of_wire(u16_at(b, 0)) {
                None => r matches Err(e) && e.is_error(
                    ErrorStage::Tls("This is not Protocol Version"),
                    ErrorAction::Drop,
                    Seq::empty(),
                ),
                Some(v) => r matches Ok(Some(hello)) && hello.is_body(v, b),
            }
        }
    }

    fn can_parse(bytes: &BytesMut) -> (r: bool) {
        let ghost enough = ServerHello::complete(buf_view(*bytes));
        match server_hello_len(buf_slice(bytes)) {
            Some(_) => true,
            None => false,
        }
    }

    fn parse(bytes: &mut BytesMut) -> (r: Result<Option<Self>, TlsError>) {
        let ghost waits = ServerHello::outcome(buf_view(*bytes), Ok(None), buf_view(*bytes));
        let ghost b = buf_view(*bytes);
        let offset: usize = match server_hello_len(buf_slice(bytes)) {
            Some(offset) => offset,
            None => {
                return Ok(None);
            },
        };
        let mut msg: BytesMut = bytes.split_to(offset);
        let ghost m = b.subrange(0, offset as int);
        let raw_version: u16 = get_u16(&mut msg);
        let version: ProtocolVersion = match ProtocolVersion::try_from(raw_version) {
            Ok(v) => v,
            Err(e) => {
                return Err(TlsError::new(ErrorStage::Tls(e), ErrorAction::Drop, Bytes::new()));
            },
        };
        let random: [u8; 32] = take_array::<32>(buf_slice(&msg), 0);
        assert(random@ =~= b.subrange(2, 34));
        msg.advance(32);
        let sid_len: usize = get_u8(&mut msg) as usize;
        assert(buf_view(msg) =~= m.subrange(35, offset as int));
        let session_id: Bytes = msg.split_to(sid_len).freeze();
        assert(bytes_view(session_id) =~= b.subrange(35, server_extensions_at(b) - 3));
        assert(buf_view(msg) =~= m.subrange(35 + sid_len, offset as int));
        let cipher_suite: u16 = get_u16(&mut msg);
        msg.advance(1);
        assert(buf_view(msg) =~= m.subrange(server_extensions_at(b), offset as int));
        let extensions: BytesMut = if msg.len() >= 2 {
            let ext_len: usize = get_u16(&mut msg) as usize;
            msg.split_to(ext_len)
        } else {
            BytesMut::new()
        };
        assert(buf_view(extensions) =~= server_block(b));
        Ok(Some(Self { version, random, session_id, cipher_suite, extensions }))
    }
}

/// The length of a server's body, if all of it is there.
fn server_hello_len(b: &[u8]) -> (r: Option<usize>)
    ensures
        match r {
            Some(n) => ServerHello::complete(b@) && n == server_end(b@),
            None => !ServerHello::complete(b@),
        },
{
    let len: usize = b.len();
    if len < 35 {
        return None;
    }
    let session_id_len: usize = b[34] as usize;
    let mut offset: usize = 38 + session_id_len;
    if len >= offset && len - offset >= 2 {
        let ext_len: usize = read_u16(b, offset) as usize;
        offset = offset + 2 + ext_len;
    }
    if len < offset {
        return None;
    }
    Some(offset)
}

} // verus!
