//! Where the protocol meets its disguise.
//!
//! [`TlsBridge`] takes hello messages and ciphertext out of records and puts them into
//! records. On the server's side it also decides whether a hello comes from a client of this
//! node, before anything more costly than a hash is computed.

use bytes::{Bytes, BytesMut};
use vstd::prelude::*;
use vstd::utf8::encode_utf8;

use crate::buffers::{buf_from, buf_slice, buf_view, bytes_slice, bytes_view};
use crate::crypto::auth::step_of;
use crate::crypto::clock::now_unix_secs;
use crate::crypto::session::{peer_share, peer_tag_accepted, SessionKeys, SessionView};
use crate::entropy::system_bytes;
use crate::errors::{ErrorAction, ErrorStage, TlsError};
use crate::net_consts::AUTH_TIME_STEP;
use crate::parser::Parser;
use crate::tlseng::consts::HANDSHAKE_TYPE_SERVER_HELLO;
use crate::tlseng::extension::{scan, BlockScan, ExtensionStack};
use crate::tlseng::extension_builder::{drawn_block, HelloContext};
use crate::tlseng::handshake::{
    chosen_suite, client_extensions, client_hello_of, hello_fits, hello_overhead, is_client_hello,
    message_bytes, server_block, server_body, server_extensions, suites_at, ClientHello,
    HelloHeader, ServerHello,
};
use crate::tlseng::grease::GreaseSet;
use crate::tlseng::profile::{BrowserProfile, ServerProfile};
use crate::tlseng::tls_record::{has_unknown_type, record_bytes, ApplicationData, TlsRecord};
use crate::tlseng::types::{ContentType, HelloType, ProtocolVersion, TlsExtensions};
use crate::utils::byte_order::{low16, take_array, u16_at};

verus! {

/// What is taken out of records of one type.
pub trait TlsInterceptor: Sized {
    /// What is taken out.
    type Output;

    /// What becomes of a record.
    spec fn handled(record: TlsRecord, r: Result<Option<Self::Output>, TlsError>) -> bool;

    /// Checks the type of a record and takes out what it carries.
    fn handle_record(record: TlsRecord) -> (r: Result<Option<Self::Output>, TlsError>)
        requires
            bytes_view(record.payload).len() <= 0xffff,
        ensures
            Self::handled(record, r),
    ;
}

/// What comes of the bytes `b`: a record is handled, the lack of one and its errors are
/// passed on.
pub open spec fn processed<T: TlsInterceptor>(
    b: Seq<u8>,
    r: Result<Option<T::Output>, TlsError>,
    rest: Seq<u8>,
) -> bool {
    exists|p: Result<Option<TlsRecord>, TlsError>| #[trigger]
        TlsRecord::outcome(b, p, rest) && match p {
            Ok(Some(record)) => T::handled(record, r),
            Ok(None) => r matches Ok(None),
            Err(e) => r == Err::<Option<T::Output>, TlsError>(e),
        }
}

/// Takes one record off the front of a buffer and hands it on.
pub fn start_process<T: TlsInterceptor>(buffer: &mut BytesMut) -> (r: Result<
    Option<T::Output>,
    TlsError,
>)
    ensures
        processed::<T>(buf_view(*old(buffer)), r, buf_view(*final(buffer))),
{
    let ghost b = buf_view(*buffer);
    let parsed: Result<Option<TlsRecord>, TlsError> = TlsRecord::parse(buffer);
    let ghost p = parsed;
    assert(TlsRecord::outcome(b, p, buf_view(*buffer)));
    match parsed {
        Ok(Some(record)) => T::handle_record(record),
        Ok(None) => Ok(None),
        Err(e) => Err(e),
    }
}

/// A hello message of either side, with its extensions.
#[allow(inconsistent_fields)]
pub enum HandshakeMessage {
    /// The client's.
    Client {
        /// The hello.
        base: ClientHello,
        /// Its extensions.
        extensions: ExtensionStack,
    },
    /// The server's.
    Server {
        /// The hello.
        base: ServerHello,
        /// Its extensions.
        extensions: ExtensionStack,
    },
}

impl HandshakeMessage {
    /// The salt of the sender.
    pub open spec fn salt(self) -> Seq<u8> {
        match self {
            HandshakeMessage::Client { base, .. } => base.random@,
            HandshakeMessage::Server { base, .. } => base.random@,
        }
    }

    /// The extensions.
    pub open spec fn stack(self) -> ExtensionStack {
        match self {
            HandshakeMessage::Client { extensions, .. } => extensions,
            HandshakeMessage::Server { extensions, .. } => extensions,
        }
    }

    /// The salt of the sender.
    pub fn random(&self) -> (r: [u8; 32])
        ensures
            r@ == self.salt(),
    {
        match self {
            HandshakeMessage::Client { base, .. } => base.random,
            HandshakeMessage::Server { base, .. } => base.random,
        }
    }

    /// The extensions.
    pub fn extensions(&self) -> (r: &ExtensionStack)
        ensures
            *r == self.stack(),
    {
        match self {
            HandshakeMessage::Client { extensions, .. } => extensions,
            HandshakeMessage::Server { extensions, .. } => extensions,
        }
    }
}

/// Whether the outcome is the error for a message that cannot be taken apart.
pub open spec fn malformed(r: Result<Option<HandshakeMessage>, TlsError>) -> bool {
    r matches Err(e) && e.is_error(
        ErrorStage::Handshake("Malformed handshake message"),
        ErrorAction::Drop,
        Seq::empty(),
    )
}

/// Whether the outcome is the error for an unknown version.
pub open spec fn bad_version(r: Result<Option<HandshakeMessage>, TlsError>) -> bool {
    r matches Err(e) && e.is_error(
        ErrorStage::Tls("This is not Protocol Version"),
        ErrorAction::Drop,
        Seq::empty(),
    )
}

/// Whether the outcome is the error for a block of extensions that is none.
pub open spec fn bad_block(scan: BlockScan, r: Result<Option<HandshakeMessage>, TlsError>) -> bool {
    r matches Err(e) && e.is_error(
        if scan is Short {
            ErrorStage::Handshake("Ext Err")
        } else {
            ErrorStage::Tls("Malformed extension stack: trailing data")
        },
        ErrorAction::Drop,
        Seq::empty(),
    )
}

/// What becomes of the body of a `ClientHello`.
pub open spec fn client_handled(b: Seq<u8>, r: Result<Option<HandshakeMessage>, TlsError>) -> bool {
    if !ClientHello::complete(b) {
        malformed(r)
    } else {
        match ProtocolVersion::of_wire(u16_at(b, 0)) {
            None => bad_version(r),
            Some(v) => if u16_at(b, suites_at(b)) % 2 != 0 {
                malformed(r)
            } else {
                match scan(client_extensions(b)) {
                    BlockScan::Whole(entries) => r matches Ok(
                        Some(HandshakeMessage::Client { base, extensions }),
                    ) && base.is_body(v, b) && extensions.wf() && extensions.entries() == entries,
                    other => bad_block(other, r),
                }
            },
        }
    }
}

/// What becomes of the body of a `ServerHello`.
pub open spec fn server_handled(b: Seq<u8>, r: Result<Option<HandshakeMessage>, TlsError>) -> bool {
    if !ServerHello::complete(b) {
        malformed(r)
    } else {
        match ProtocolVersion::of_wire(u16_at(b, 0)) {
            None => bad_version(r),
            Some(v) => match scan(server_block(b)) {
                BlockScan::Whole(entries) => r matches Ok(
                    Some(HandshakeMessage::Server { base, extensions }),
                ) && base.is_body(v, b) && extensions.wf() && extensions.entries() == entries,
                other => bad_block(other, r),
            },
        }
    }
}

impl TlsInterceptor for HandshakeMessage {
    type Output = HandshakeMessage;

    /// The record is there as a whole, so a message that cannot be taken apart will not get
    /// better with more bytes: it is an error right away.
    open spec fn handled(
        record: TlsRecord,
        r: Result<Option<HandshakeMessage>, TlsError>,
    ) -> bool {
        let p = bytes_view(record.payload);
        if record.content_type != ContentType::Handshake {
            r matches Err(e) && e.is_error(
                ErrorStage::Handshake("Expected Handshake record"),
                ErrorAction::Drop,
                record.wire(),
            )
        } else {
            match HelloType::of_wire(p[0]) {
                Some(HelloType::Client) if p.len() >= 4 => client_handled(
                    p.subrange(4, p.len() as int),
                    r,
                ),
                Some(HelloType::Server) if p.len() >= 4 => server_handled(
                    p.subrange(4, p.len() as int),
                    r,
                ),
                _ => malformed(r),
            }
        }
    }

    fn handle_record(record: TlsRecord) -> (r: Result<Option<HandshakeMessage>, TlsError>) {
        let ghost nothing = HandshakeMessage::handled(record, Ok(None));
        if record.content_type != ContentType::Handshake {
            return Err(
                TlsError::new(
                    ErrorStage::Handshake("Expected Handshake record"),
                    ErrorAction::Drop,
                    record.serialize(),
                ),
            );
        }
        let mut payload: BytesMut = buf_from(bytes_slice(&record.payload));
        let header: HelloHeader = match HelloHeader::parse(&mut payload) {
            Ok(Some(header)) => header,
            Ok(None) => {
                return Err(Self::malformed_error());
            },
            Err(e) => {
                return Err(e);
            },
        };
        match header.header_type {
            HelloType::Client => {
                let hello: ClientHello = match ClientHello::parse(&mut payload) {
                    Ok(Some(hello)) => hello,
                    Ok(None) => {
                        return Err(Self::malformed_error());
                    },
                    Err(e) => {
                        return Err(e);
                    },
                };
                let mut block: BytesMut = buf_from(bytes_slice(&hello.extensions));
                match ExtensionStack::parse(&mut block) {
                    Ok(Some(extensions)) => Ok(
                        Some(HandshakeMessage::Client { base: hello, extensions }),
                    ),
                    Ok(None) => Err(Self::extension_error()),
                    Err(e) => Err(e),
                }
            },
            HelloType::Server => {
                let hello: ServerHello = match ServerHello::parse(&mut payload) {
                    Ok(Some(hello)) => hello,
                    Ok(None) => {
                        return Err(Self::malformed_error());
                    },
                    Err(e) => {
                        return Err(e);
                    },
                };
                let mut block: BytesMut = buf_from(buf_slice(&hello.extensions));
                match ExtensionStack::parse(&mut block) {
                    Ok(Some(extensions)) => Ok(
                        Some(HandshakeMessage::Server { base: hello, extensions }),
                    ),
                    Ok(None) => Err(Self::extension_error()),
                    Err(e) => Err(e),
                }
            },
        }
    }
}

impl HandshakeMessage {
    fn malformed_error() -> (r: TlsError)
        ensures
            r.is_error(
                ErrorStage::Handshake("Malformed handshake message"),
                ErrorAction::Drop,
                Seq::empty(),
            ),
    {
        TlsError::new(
            ErrorStage::Handshake("Malformed handshake message"),
            ErrorAction::Drop,
            Bytes::new(),
        )
    }

    fn extension_error() -> (r: TlsError)
        ensures
            r.is_error(ErrorStage::Handshake("Ext Err"), ErrorAction::Drop, Seq::empty()),
    {
        TlsError::new(ErrorStage::Handshake("Ext Err"), ErrorAction::Drop, Bytes::new())
    }
}

impl TlsInterceptor for ApplicationData {
    type Output = ApplicationData;

    open spec fn handled(record: TlsRecord, r: Result<Option<ApplicationData>, TlsError>) -> bool {
        if record.content_type != ContentType::ApplicationData {
            r matches Err(e) && e.is_error(
                ErrorStage::ApplicationData("Expected AppData record"),
                ErrorAction::Drop,
                record.wire(),
            )
        } else {
            r matches Ok(Some(data)) && bytes_view(data.payload) == bytes_view(record.payload)
                && data._len == bytes_view(record.payload).len()
        }
    }

    fn handle_record(record: TlsRecord) -> (r: Result<Option<ApplicationData>, TlsError>) {
        let ghost nothing = ApplicationData::handled(record, Ok(None));
        if record.content_type != ContentType::ApplicationData {
            return Err(
                TlsError::new(
                    ErrorStage::ApplicationData("Expected AppData record"),
                    ErrorAction::Drop,
                    record.serialize(),
                ),
            );
        }
        Ok(Some(ApplicationData { _len: record.payload.len(), payload: record.payload }))
    }
}

/// Says that a `ChangeCipherSpec` record was there; it carries nothing.
pub struct ChangeCipherSpecMarker;

impl TlsInterceptor for ChangeCipherSpecMarker {
    type Output = ChangeCipherSpecMarker;

    open spec fn handled(
        record: TlsRecord,
        r: Result<Option<ChangeCipherSpecMarker>, TlsError>,
    ) -> bool {
        if record.content_type != ContentType::ChangeCipherSpec {
            r matches Err(e) && e.is_error(
                ErrorStage::Tls("Expected ChangeCipherSpec record"),
                ErrorAction::Drop,
                record.wire(),
            )
        } else {
            r matches Ok(Some(_))
        }
    }

    fn handle_record(record: TlsRecord) -> (r: Result<Option<ChangeCipherSpecMarker>, TlsError>) {
        let ghost nothing = ChangeCipherSpecMarker::handled(record, Ok(None));
        if record.content_type != ContentType::ChangeCipherSpec {
            return Err(
                TlsError::new(
                    ErrorStage::Tls("Expected ChangeCipherSpec record"),
                    ErrorAction::Drop,
                    record.serialize(),
                ),
            );
        }
        Ok(Some(ChangeCipherSpecMarker))
    }
}

/// What the front of a buffer is, when ciphertext is expected.
pub enum DataStep {
    /// Not a complete record yet.
    Wait,
    /// A record of an unknown type or version; `rest` is what follows its header.
    Foreign {
        /// What is unknown of it.
        reason: &'static str,
        /// What is left.
        rest: Seq<u8>,
    },
    /// A record of another type.
    Unexpected {
        /// The record again.
        record: Seq<u8>,
        /// What is left.
        rest: Seq<u8>,
    },
    /// Ciphertext.
    Data {
        /// The ciphertext.
        payload: Seq<u8>,
        /// What is left.
        rest: Seq<u8>,
    },
}

/// Reads the front of a buffer when ciphertext is expected.
pub open spec fn data_step(b: Seq<u8>) -> DataStep {
    if has_unknown_type(b) {
        DataStep::Foreign {
            reason: "This is not ContentType",
            rest: b.subrange(5, b.len() as int),
        }
    } else if !TlsRecord::complete(b) {
        DataStep::Wait
    } else {
        let n = u16_at(b, 3) as int;
        let payload = b.subrange(5, 5 + n);
        let rest = b.subrange(5 + n, b.len() as int);
        match (ContentType::of_wire(b[0]), ProtocolVersion::of_wire(u16_at(b, 1))) {
            (Some(t), Some(v)) => if t == ContentType::ApplicationData {
                DataStep::Data { payload, rest }
            } else {
                DataStep::Unexpected { record: record_bytes(t, v, payload), rest }
            },
            _ => DataStep::Foreign {
                reason: "This is not Protocol Version",
                rest: b.subrange(5, b.len() as int),
            },
        }
    }
}

/// Whether an outcome is that of reading the front of a buffer when ciphertext is expected.
pub open spec fn data_outcome(
    b: Seq<u8>,
    r: Result<Option<ApplicationData>, TlsError>,
    rest: Seq<u8>,
) -> bool {
    match data_step(b) {
        DataStep::Wait => r matches Ok(None) && rest == b,
        DataStep::Foreign { reason, rest: left } => {
            &&& r matches Err(e) && e.is_error(
                ErrorStage::Tls(reason),
                ErrorAction::Redirect,
                Seq::empty(),
            )
            &&& rest == left
        },
        DataStep::Unexpected { record, rest: left } => {
            &&& r matches Err(e) && e.is_error(
                ErrorStage::ApplicationData("Expected AppData record"),
                ErrorAction::Drop,
                record,
            )
            &&& rest == left
        },
        DataStep::Data { payload, rest: left } => {
            &&& r matches Ok(Some(data)) && bytes_view(data.payload) == payload
            &&& rest == left
        },
    }
}

/// Whether an outcome is the given error of the handshake, with nothing attached.
pub open spec fn refused(reason: &'static str, r: Result<(Bytes, u8), TlsError>) -> bool {
    r matches Err(e) && e.is_error(ErrorStage::Handshake(reason), ErrorAction::Drop, Seq::empty())
}

/// What the server makes of a hello at a time step, and what it then knows.
///
/// The tag comes before any key exchange, and everything that does not fit is an error of
/// its own.
pub open spec fn answered(
    msg: HandshakeMessage,
    before: SessionView,
    profile: ServerProfile,
    step: u64,
    r: Result<(Bytes, u8), TlsError>,
    after: SessionView,
) -> bool {
    match msg {
        HandshakeMessage::Server { .. } => refused("Expected ClientHello", r) && after == before,
        HandshakeMessage::Client { base, extensions } => {
            let sid = bytes_view(base.session_id);
            if sid.len() != 32 {
                refused("Invalid SessionID len", r) && after == before
            } else {
                let versioned = SessionView { peer_version: sid[0], ..before };
                match peer_share(extensions.entries(), true) {
                    Err(_) => refused("Bad KeyShare", r) && after == versioned,
                    Ok(peer) => if !peer_tag_accepted(
                        versioned,
                        sid.subrange(16, 32),
                        base.random@,
                        peer,
                        step,
                    ) {
                        refused("Auth Failed", r) && after == versioned
                    } else {
                        let salted = SessionView { remote_salt: base.random@, ..versioned };
                        if before.secret is None {
                            refused("Key Exchange Failed", r) && after == salted
                        } else {
                            &&& r matches Ok((hello, version)) && version == sid[0] && bytes_view(
                                hello,
                            ) == server_hello_record(base, before.public, before.local_salt, profile)
                            &&& after == salted.established(peer, true)
                            &&& salted.agrees(peer)
                        }
                    },
                }
            }
        },
    }
}

/// The record of the answer to a client's hello.
pub open spec fn server_hello_record(
    client: ClientHello,
    key: Seq<u8>,
    salt: Seq<u8>,
    profile: ServerProfile,
) -> Seq<u8> {
    record_bytes(
        ContentType::Handshake,
        profile.record_layer_version,
        message_bytes(
            HANDSHAKE_TYPE_SERVER_HELLO,
            server_body(
                ProtocolVersion::Tls12,
                salt,
                bytes_view(client.session_id),
                chosen_suite(profile, client.cipher_suites@),
                server_extensions(profile.versions.highest(), key),
            ),
        ),
    )
}

/// The operations at the border. All state of a session is in [`SessionKeys`].
pub struct TlsBridge;

impl TlsBridge {
    /// Takes a hello message off the front of a buffer.
    pub fn unpack_handshake(buffer: &mut BytesMut) -> (r: Result<
        Option<HandshakeMessage>,
        TlsError,
    >)
        ensures
            processed::<HandshakeMessage>(buf_view(*old(buffer)), r, buf_view(*final(buffer))),
    {
        start_process::<HandshakeMessage>(buffer)
    }

    /// Takes ciphertext off the front of a buffer.
    pub fn unpack_app_data(buffer: &mut BytesMut) -> (r: Result<Option<ApplicationData>, TlsError>)
        ensures
            data_outcome(buf_view(*old(buffer)), r, buf_view(*final(buffer))),
    {
        let ghost b = buf_view(*buffer);
        let r: Result<Option<ApplicationData>, TlsError> = start_process::<ApplicationData>(buffer);
        proof {
            let p = choose|p: Result<Option<TlsRecord>, TlsError>| #[trigger]
                TlsRecord::outcome(b, p, buf_view(*buffer)) && match p {
                    Ok(Some(record)) => ApplicationData::handled(record, r),
                    Ok(None) => r matches Ok(None),
                    Err(e) => r == Err::<Option<ApplicationData>, TlsError>(e),
                };
            assert(TlsRecord::outcome(b, p, buf_view(*buffer)));
        }
        r
    }

    /// The record of a `ClientHello` in the manner of a profile.
    pub fn wrap_client_hello(profile: &BrowserProfile, host: &str, keys: &SessionKeys) -> (r: Bytes)
        requires
            keys@.wf(),
            profile.extension_order.0@.contains(TlsExtensions::SNI) ==> low16(
                encode_utf8(host@).len(),
            ) <= 65532,
            hello_fits(*profile, encode_utf8(host@), keys@.public),
        ensures
            is_client_hello(*profile, encode_utf8(host@), keys@, bytes_view(r)),
            exists|filler: Vec<u8>, now: u64, grease: GreaseSet, block: Seq<u8>|
                call_ensures(system_bytes, (15usize,), filler) && call_ensures(
                    now_unix_secs,
                    (),
                    now,
                ) && call_ensures(GreaseSet::random, (), grease) && drawn_block(
                    HelloContext {
                        profile: *profile,
                        host: encode_utf8(host@),
                        pub_key: keys@.public,
                        grease,
                        overhead: hello_overhead(*profile),
                    },
                    0,
                    block,
                ) && #[trigger] client_hello_of(
                    *profile,
                    encode_utf8(host@),
                    keys@,
                    filler@,
                    step_of(now),
                    grease,
                    block,
                    bytes_view(r),
                ),
    {
        ClientHello::make_client_hello(profile, host, keys)
    }

    /// Checks a `ClientHello`, derives the session keys and answers. Returns the answer and
    /// the version that the client claims.
    pub fn wrap_server_hello(
        client_msg: &HandshakeMessage,
        keys: &mut SessionKeys,
        profile: &ServerProfile,
    ) -> (r: Result<(Bytes, u8), TlsError>)
        requires
            old(keys)@.wf(),
        ensures
            final(keys)@.wf(),
            exists|now: u64|
                call_ensures(now_unix_secs, (), now) && #[trigger] answered(
                    *client_msg,
                    old(keys)@,
                    *profile,
                    step_of(now),
                    r,
                    final(keys)@,
                ),
    {
        let now: u64 = now_unix_secs();
        let ghost before = keys@;
        let r: Result<(Bytes, u8), TlsError> = Self::wrap_server_hello_at(
            client_msg,
            keys,
            profile,
            now / AUTH_TIME_STEP,
        );
        assert(answered(*client_msg, before, *profile, step_of(now), r, keys@));
        r
    }

    /// Checks a `ClientHello` at a time step, derives the session keys and answers.
    pub fn wrap_server_hello_at(
        client_msg: &HandshakeMessage,
        keys: &mut SessionKeys,
        profile: &ServerProfile,
        step: u64,
    ) -> (r: Result<(Bytes, u8), TlsError>)
        requires
            old(keys)@.wf(),
        ensures
            final(keys)@.wf(),
            answered(*client_msg, old(keys)@, *profile, step, r, final(keys)@),
    {
        match client_msg {
            HandshakeMessage::Client { base, extensions } => {
                let session_id: &[u8] = bytes_slice(&base.session_id);
                if session_id.len() != 32 {
                    return Err(Self::handshake_error("Invalid SessionID len"));
                }
                let peer_version: u8 = session_id[0];
                keys.set_peer_version(peer_version);
                let received_tag: [u8; 16] = take_array::<16>(session_id, 16);

                let peer_public: [u8; 32] = match SessionKeys::extract_peer_public(
                    extensions,
                    true,
                ) {
                    Ok(key) => key,
                    Err(_) => {
                        return Err(Self::handshake_error("Bad KeyShare"));
                    },
                };
                if !keys.verify_handshake_tag_at(&received_tag, &base.random, &peer_public, step) {
                    return Err(Self::handshake_error("Auth Failed"));
                }
                match keys.update_keys(base.random, extensions, true) {
                    Ok(_) => {},
                    Err(_) => {
                        return Err(Self::handshake_error("Key Exchange Failed"));
                    },
                }
                let server_pub_key: [u8; 32] = keys.public_key_bytes();
                let hello: Bytes = ServerHello::make_server_hello(
                    base,
                    server_pub_key.as_slice(),
                    keys.local_salt(),
                    profile,
                );
                Ok((hello, peer_version))
            },
            HandshakeMessage::Server { .. } => Err(Self::handshake_error("Expected ClientHello")),
        }
    }

    fn handshake_error(reason: &'static str) -> (r: TlsError)
        ensures
            r.is_error(ErrorStage::Handshake(reason), ErrorAction::Drop, Seq::empty()),
    {
        TlsError::new(ErrorStage::Handshake(reason), ErrorAction::Drop, Bytes::new())
    }

    /// The record of ciphertext.
    pub fn pack_app_data(buffer: Bytes) -> (r: Bytes)
        requires
            bytes_view(buffer).len() + 5 <= isize::MAX,
        ensures
            bytes_view(r) == record_bytes(
                ContentType::ApplicationData,
                ProtocolVersion::Tls12,
                bytes_view(buffer),
            ),
    {
        TlsRecord::build_application_data(buffer)
    }

    /// The `ChangeCipherSpec` record that either side sends after its hello.
    pub fn build_middlebox_ccs() -> (r: Bytes)
        ensures
            bytes_view(r) == seq![0x14u8, 0x03u8, 0x03u8, 0x00u8, 0x01u8, 0x01u8],
    {
        TlsRecord::build_change_cipher_spec()
    }

    /// Takes the other side's `ChangeCipherSpec` record off the front of a buffer.
    pub fn unpack_middlebox_ccs(buffer: &mut BytesMut) -> (r: Result<Option<()>, TlsError>)
        ensures
            ({
                let b = buf_view(*old(buffer));
                let rest = buf_view(*final(buffer));
                exists|m: Result<Option<ChangeCipherSpecMarker>, TlsError>| #[trigger]
                    processed::<ChangeCipherSpecMarker>(b, m, rest) && match m {
                        Ok(Some(_)) => r matches Ok(Some(_)),
                        Ok(None) => r matches Ok(None),
                        Err(e) => r == Err::<Option<()>, TlsError>(e),
                    }
            }),
    {
        let ghost b = buf_view(*buffer);
        let m: Result<Option<ChangeCipherSpecMarker>, TlsError> =
            start_process::<ChangeCipherSpecMarker>(buffer);
        assert(processed::<ChangeCipherSpecMarker>(b, m, buf_view(*buffer)));
        match m {
            Ok(Some(_)) => Ok(Some(())),
            Ok(None) => Ok(None),
            Err(e) => Err(e),
        }
    }
}

} // verus!
