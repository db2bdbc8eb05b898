//! What is read off the wire, byte by byte.

use vstd::prelude::*;

use crate::bridge::{
    client_handled, data_outcome, data_step, processed, server_handled, ChangeCipherSpecMarker,
    DataStep, HandshakeMessage, TlsInterceptor,
};
use crate::buffers::{buf_view, bytes_view};
use crate::errors::{ErrorAction, ErrorStage, TlsError};
use crate::parser::Parser;
use crate::tlseng::extension::{scan, sni_host, BlockScan, ExtensionStack};
use crate::tlseng::handshake::{ClientHello, HelloHeader, ServerHello};
use crate::tlseng::tls_record::{ApplicationData, TlsRecord};
use crate::tlseng::types::{lemma_wire_numbers, ContentType, HelloType, ProtocolVersion};

verus! {

/// Whether an outcome is an error of the given kind that carries no bytes.
pub open spec fn fails<T>(
    r: Result<Option<T>, TlsError>,
    stage: ErrorStage,
    action: ErrorAction,
) -> bool {
    r matches Err(e) && e.stage == stage && e.action == action && bytes_view(e.data).len() == 0
}

/// A record is waited for until its header is there and as many bytes as the header says. A
/// header of an unknown type is not waited for once the bytes are there, and neither is one of
/// an unknown version: both are foreign, and lose their header. Ciphertext of fewer than 17
/// bytes is waited for without end.
pub proof fn lemma_record_read(
    b: Seq<u8>,
    r: Result<Option<TlsRecord>, TlsError>,
    rest: Seq<u8>,
)
    requires
        TlsRecord::outcome(b, r, rest),
    ensures
        b.len() < 5 ==> r == Ok::<Option<TlsRecord>, TlsError>(None) && rest == b,
        b.len() >= 5 ==> {
            let n = b[3] * 256 + b[4];
            let v = b[1] * 256 + b[2];
            let known_type = 20 <= b[0] <= 23;
            let known_version = v == 0x0301 || v == 0x0303 || v == 0x0304;
            &&& b.len() < 5 + n ==> r == Ok::<Option<TlsRecord>, TlsError>(None) && rest == b
            &&& b[0] == 23 && n < 17 ==> r == Ok::<Option<TlsRecord>, TlsError>(None) && rest == b
            &&& b.len() >= 5 + n && !known_type ==> fails(
                r,
                ErrorStage::Tls("This is not ContentType"),
                ErrorAction::Redirect,
            ) && rest == b.subrange(5, b.len() as int)
            &&& b.len() >= 5 + n && known_type && !(b[0] == 23 && n < 17) && !known_version
                ==> fails(
                r,
                ErrorStage::Tls("This is not Protocol Version"),
                ErrorAction::Redirect,
            ) && rest == b.subrange(5, b.len() as int)
            &&& b.len() >= 5 + n && known_type && !(b[0] == 23 && n < 17) && known_version ==> {
                &&& r matches Ok(Some(record)) && {
                    &&& record.content_type.wire() == b[0]
                    &&& record.version.wire() == v
                    &&& record._len == n
                    &&& bytes_view(record.payload) == b.subrange(5, 5 + n)
                }
                &&& rest == b.subrange(5 + n, b.len() as int)
            }
        },
{
    if b.len() >= 5 {
        lemma_wire_numbers(
            ContentType::ApplicationData,
            ProtocolVersion::Tls12,
            HelloType::Client,
            b[0],
            (b[1] * 256 + b[2]) as u16,
        );
    }
}

/// Where ciphertext is expected the same bytes are waited for, and the same are foreign. A
/// whole record of another known type is handed back with the error, and ciphertext is handed
/// out.
pub proof fn lemma_data_read(b: Seq<u8>)
    ensures
        b.len() < 5 ==> data_step(b) is Wait,
        b.len() >= 5 ==> {
            let n = b[3] * 256 + b[4];
            let v = b[1] * 256 + b[2];
            let known_type = 20 <= b[0] <= 23;
            let known_version = v == 0x0301 || v == 0x0303 || v == 0x0304;
            &&& b.len() < 5 + n || (b[0] == 23 && n < 17) ==> data_step(b) is Wait
            &&& b.len() >= 5 + n && !(b[0] == 23 && n < 17) && !(known_type && known_version) ==> {
                &&& data_step(b) is Foreign
                &&& data_step(b)->Foreign_rest == b.subrange(5, b.len() as int)
            }
            &&& b.len() >= 5 + n && 20 <= b[0] <= 22 && known_version ==> {
                &&& data_step(b) is Unexpected
                &&& data_step(b)->record == b.subrange(0, 5 + n)
                &&& data_step(b)->Unexpected_rest == b.subrange(5 + n, b.len() as int)
            }
            &&& b.len() >= 5 + n && b[0] == 23 && n >= 17 && known_version ==> {
                &&& data_step(b) is Data
                &&& data_step(b)->payload == b.subrange(5, 5 + n)
                &&& data_step(b)->Data_rest == b.subrange(5 + n, b.len() as int)
            }
        },
{
    if b.len() >= 5 {
        let n = b[3] * 256 + b[4];
        let v = b[1] * 256 + b[2];
        lemma_wire_numbers(
            ContentType::ApplicationData,
            ProtocolVersion::Tls12,
            HelloType::Client,
            b[0],
            v as u16,
        );
        if data_step(b) is Unexpected {
            assert(data_step(b)->record =~= b.subrange(0, 5 + n));
        }
    }
}

/// A client's body: version, 32 random bytes, session id, suites, compression methods and
/// extensions, each list behind its length. It is waited for until every length is covered;
/// the extensions may be missing. Half a suite is never read.
///
/// `s`, `c` and `m` are the lengths of session id, suites and compression methods.
pub proof fn lemma_client_hello_read(
    b: Seq<u8>,
    s: int,
    c: int,
    m: int,
    r: Result<Option<ClientHello>, TlsError>,
    rest: Seq<u8>,
)
    requires
        b.len() >= 35,
        s == b[34],
        b.len() >= 37 + s,
        c == b[35 + s] * 256 + b[36 + s],
        b.len() >= 38 + s + c,
        m == b[37 + s + c],
        b.len() >= 38 + s + c + m,
        ClientHello::outcome(b, r, rest),
    ensures
        ({
            let at = 38 + s + c + m;
            let v = b[0] * 256 + b[1];
            let known = v == 0x0301 || v == 0x0303 || v == 0x0304;
            let listed = b.len() >= at + 2;
            let e = b[at] * 256 + b[at + 1];
            let whole = !listed || b.len() >= at + 2 + e;
            &&& !whole ==> r == Ok::<Option<ClientHello>, TlsError>(None) && rest == b
            &&& whole && !known ==> fails(
                r,
                ErrorStage::Tls("This is not Protocol Version"),
                ErrorAction::Drop,
            ) && rest == b.subrange(2, b.len() as int)
            &&& whole && known && c % 2 != 0 ==> r == Ok::<Option<ClientHello>, TlsError>(None)
                && rest == b
            &&& whole && known && c % 2 == 0 ==> {
                &&& r matches Ok(Some(hello)) && {
                    &&& hello._version.wire() == v
                    &&& hello.random@ == b.subrange(2, 34)
                    &&& bytes_view(hello.session_id) == b.subrange(35, 35 + s)
                    &&& hello.cipher_suites@.len() == c / 2
                    &&& forall|i: int|
                        0 <= i < c / 2 ==> #[trigger] hello.cipher_suites@[i] == b[37 + s + 2 * i]
                            * 256 + b[38 + s + 2 * i]
                    &&& listed ==> bytes_view(hello.extensions) == b.subrange(at + 2, at + 2 + e)
                    &&& !listed ==> bytes_view(hello.extensions).len() == 0
                }
                &&& listed ==> rest == b.subrange(at + 2 + e, b.len() as int)
                &&& !listed ==> rest == b.subrange(at, b.len() as int)
            }
        }),
{
    lemma_wire_numbers(
        ContentType::Handshake,
        ProtocolVersion::Tls12,
        HelloType::Client,
        0,
        (b[0] * 256 + b[1]) as u16,
    );
}

/// A client's body is waited for as long as one of its lengths is not covered.
pub proof fn lemma_client_hello_waits(
    b: Seq<u8>,
    r: Result<Option<ClientHello>, TlsError>,
    rest: Seq<u8>,
)
    requires
        ClientHello::outcome(b, r, rest),
        ({
            let s = b[34] as int;
            let c = b[35 + s] * 256 + b[36 + s];
            let m = b[37 + s + c] as int;
            b.len() < 35 || b.len() < 37 + s || b.len() < 38 + s + c || b.len() < 38 + s + c + m
        }),
    ensures
        r == Ok::<Option<ClientHello>, TlsError>(None),
        rest == b,
{
}

/// A server's body: version, 32 random bytes, session id, suite, compression method and
/// extensions. It is waited for until every length is covered; the extensions may be missing.
pub proof fn lemma_server_hello_read(
    b: Seq<u8>,
    r: Result<Option<ServerHello>, TlsError>,
    rest: Seq<u8>,
)
    requires
        ServerHello::outcome(b, r, rest),
    ensures
        ({
            let s = b[34] as int;
            let at = 38 + s;
            let v = b[0] * 256 + b[1];
            let known = v == 0x0301 || v == 0x0303 || v == 0x0304;
            let listed = b.len() >= at + 2;
            let e = b[at] * 256 + b[at + 1];
            let whole = b.len() >= 35 && b.len() >= at && (!listed || b.len() >= at + 2 + e);
            let end = if listed {
                at + 2 + e
            } else {
                at
            };
            &&& !whole ==> r == Ok::<Option<ServerHello>, TlsError>(None) && rest == b
            &&& whole ==> rest == b.subrange(end, b.len() as int)
            &&& whole && !known ==> fails(
                r,
                ErrorStage::Tls("This is not Protocol Version"),
                ErrorAction::Drop,
            )
            &&& whole && known ==> (r matches Ok(Some(hello)) && {
                &&& hello.version.wire() == v
                &&& hello.random@ == b.subrange(2, 34)
                &&& bytes_view(hello.session_id) == b.subrange(35, 35 + s)
                &&& hello.cipher_suite == b[35 + s] * 256 + b[36 + s]
                &&& listed ==> buf_view(hello.extensions) == b.subrange(at + 2, end)
                &&& !listed ==> buf_view(hello.extensions).len() == 0
            })
        }),
{
    lemma_wire_numbers(
        ContentType::Handshake,
        ProtocolVersion::Tls12,
        HelloType::Client,
        0,
        (b[0] * 256 + b[1]) as u16,
    );
}

/// A record that is no handshake is handed back with the error. In one that is, a message of
/// the first kind is a client's and one of the second a server's; its body starts four bytes
/// in, whatever its length field says. Nothing else is a message.
pub proof fn lemma_message_read(
    record: TlsRecord,
    r: Result<Option<HandshakeMessage>, TlsError>,
)
    requires
        HandshakeMessage::handled(record, r),
    ensures
        ({
            let p = bytes_view(record.payload);
            let body = p.subrange(4, p.len() as int);
            &&& record.content_type != ContentType::Handshake ==> (r matches Err(e) && {
                &&& e.stage == ErrorStage::Handshake("Expected Handshake record")
                &&& e.action == ErrorAction::Drop
                &&& bytes_view(e.data) == record.wire()
            })
            &&& record.content_type == ContentType::Handshake ==> {
                &&& p.len() >= 4 && p[0] == 1 ==> client_handled(body, r)
                &&& p.len() >= 4 && p[0] == 2 ==> server_handled(body, r)
                &&& p.len() < 4 || (p[0] != 1 && p[0] != 2) ==> fails(
                    r,
                    ErrorStage::Handshake("Malformed handshake message"),
                    ErrorAction::Drop,
                )
            }
        }),
{
    let p = bytes_view(record.payload);
    lemma_wire_numbers(
        ContentType::Handshake,
        ProtocolVersion::Tls12,
        HelloType::Client,
        p[0],
        0,
    );
    lemma_wire_numbers(
        ContentType::Handshake,
        ProtocolVersion::Tls12,
        HelloType::Server,
        p[0],
        0,
    );
}

/// A client's message is read exactly when its body is, and when its extensions are
/// extensions and nothing else. What is missing of a body will not come any more: that is an
/// error.
pub proof fn lemma_client_message_read(b: Seq<u8>, r: Result<Option<HandshakeMessage>, TlsError>)
    requires
        client_handled(b, r),
    ensures
        ({
            let s = b[34] as int;
            let c = b[35 + s] * 256 + b[36 + s];
            let m = b[37 + s + c] as int;
            let at = 38 + s + c + m;
            let v = b[0] * 256 + b[1];
            let known = v == 0x0301 || v == 0x0303 || v == 0x0304;
            let listed = b.len() >= at + 2;
            let e = b[at] * 256 + b[at + 1];
            let block = if listed {
                b.subrange(at + 2, at + 2 + e)
            } else {
                Seq::empty()
            };
            let whole = b.len() >= 35 && b.len() >= 37 + s && b.len() >= 38 + s + c && b.len() >= at
                && (!listed || b.len() >= at + 2 + e);
            &&& !whole || (known && c % 2 != 0) ==> fails(
                r,
                ErrorStage::Handshake("Malformed handshake message"),
                ErrorAction::Drop,
            )
            &&& whole && !known ==> fails(
                r,
                ErrorStage::Tls("This is not Protocol Version"),
                ErrorAction::Drop,
            )
            &&& whole && known && c % 2 == 0 ==> match scan(block) {
                BlockScan::Whole(entries) => r matches Ok(
                    Some(HandshakeMessage::Client { base, extensions }),
                ) && {
                    &&& base.random@ == b.subrange(2, 34)
                    &&& bytes_view(base.session_id) == b.subrange(35, 35 + s)
                    &&& base.cipher_suites@.len() == c / 2
                    &&& forall|i: int|
                        0 <= i < c / 2 ==> #[trigger] base.cipher_suites@[i] == b[37 + s + 2 * i]
                            * 256 + b[38 + s + 2 * i]
                    &&& extensions.entries() == entries
                },
                BlockScan::Short => fails(r, ErrorStage::Handshake("Ext Err"), ErrorAction::Drop),
                BlockScan::Trailing => fails(
                    r,
                    ErrorStage::Tls("Malformed extension stack: trailing data"),
                    ErrorAction::Drop,
                ),
            }
        }),
{
    lemma_wire_numbers(
        ContentType::Handshake,
        ProtocolVersion::Tls12,
        HelloType::Client,
        0,
        (b[0] * 256 + b[1]) as u16,
    );
}

/// A server's message is read exactly when its body is, and when its extensions are
/// extensions and nothing else.
pub proof fn lemma_server_message_read(b: Seq<u8>, r: Result<Option<HandshakeMessage>, TlsError>)
    requires
        server_handled(b, r),
    ensures
        ({
            let s = b[34] as int;
            let at = 38 + s;
            let v = b[0] * 256 + b[1];
            let known = v == 0x0301 || v == 0x0303 || v == 0x0304;
            let listed = b.len() >= at + 2;
            let e = b[at] * 256 + b[at + 1];
            let block = if listed {
                b.subrange(at + 2, at + 2 + e)
            } else {
                Seq::empty()
            };
            let whole = b.len() >= 35 && b.len() >= at && (!listed || b.len() >= at + 2 + e);
            &&& !whole ==> fails(
                r,
                ErrorStage::Handshake("Malformed handshake message"),
                ErrorAction::Drop,
            )
            &&& whole && !known ==> fails(
                r,
                ErrorStage::Tls("This is not Protocol Version"),
                ErrorAction::Drop,
            )
            &&& whole && known ==> match scan(block) {
                BlockScan::Whole(entries) => r matches Ok(
                    Some(HandshakeMessage::Server { base, extensions }),
                ) && {
                    &&& base.random@ == b.subrange(2, 34)
                    &&& bytes_view(base.session_id) == b.subrange(35, 35 + s)
                    &&& base.cipher_suite == b[35 + s] * 256 + b[36 + s]
                    &&& extensions.entries() == entries
                },
                BlockScan::Short => fails(r, ErrorStage::Handshake("Ext Err"), ErrorAction::Drop),
                BlockScan::Trailing => fails(
                    r,
                    ErrorStage::Tls("Malformed extension stack: trailing data"),
                    ErrorAction::Drop,
                ),
            }
        }),
{
    lemma_wire_numbers(
        ContentType::Handshake,
        ProtocolVersion::Tls12,
        HelloType::Client,
        0,
        (b[0] * 256 + b[1]) as u16,
    );
}

/// A block of extensions is taken apart from the front: bytes too few for a head are left
/// over, a length that is not covered ends too early, and what comes behind an extension is
/// taken apart in the same way.
pub proof fn lemma_scan_steps(b: Seq<u8>)
    ensures
        b.len() == 0 ==> scan(b) == BlockScan::Whole(Seq::empty()),
        1 <= b.len() < 4 ==> scan(b) is Trailing,
        b.len() >= 4 ==> {
            let n = b[2] * 256 + b[3];
            let behind = scan(b.subrange(4 + n, b.len() as int));
            &&& b.len() < 4 + n ==> scan(b) is Short
            &&& b.len() >= 4 + n ==> match behind {
                BlockScan::Short => scan(b) is Short,
                BlockScan::Trailing => scan(b) is Trailing,
                BlockScan::Whole(more) => scan(b) matches BlockScan::Whole(entries) && {
                    &&& entries.len() == more.len() + 1
                    &&& entries[0].0 == b[0] * 256 + b[1]
                    &&& entries[0].1 == b.subrange(4, 4 + n)
                    &&& forall|i: int| 0 <= i < more.len() ==> entries[i + 1] == #[trigger] more[i]
                },
            }
        },
{
}

/// The host name that a client asks for stands behind the length of the list, a zero and its
/// own length. It is only taken when every length lies within what holds it.
pub proof fn lemma_host_read(data: Seq<u8>)
    ensures
        data.len() < 5 ==> sni_host(data) is None,
        data.len() >= 5 ==> {
            let list = data[0] * 256 + data[1];
            let name = data[3] * 256 + data[4];
            let good = 2 + list <= data.len() && list >= 3 && data[2] == 0 && 3 + name <= list;
            &&& good ==> sni_host(data) == Some(data.subrange(5, 5 + name))
            &&& !good ==> sni_host(data) is None
        },
{
    if data.len() >= 5 {
        let list = data[0] * 256 + data[1];
        let name = data[3] * 256 + data[4];
        if 2 + list <= data.len() && list >= 3 && data[2] == 0 && 3 + name <= list {
            assert(data.subrange(2, 2 + list).subrange(3, 3 + name) =~= data.subrange(5, 5 + name));
        }
    }
}

/// What comes of the bytes of a buffer where a hello is expected: nothing as long as no whole
/// record is there, an error that asks to relay when it is foreign, and otherwise what its
/// message comes to.
pub proof fn lemma_hello_processed(
    b: Seq<u8>,
    r: Result<Option<HandshakeMessage>, TlsError>,
    rest: Seq<u8>,
)
    requires
        processed::<HandshakeMessage>(b, r, rest),
    ensures
        ({
            let n = b[3] * 256 + b[4];
            let v = b[1] * 256 + b[2];
            let known_type = 20 <= b[0] <= 23;
            let known_version = v == 0x0301 || v == 0x0303 || v == 0x0304;
            let waits = b.len() < 5 || b.len() < 5 + n || (b[0] == 23 && n < 17);
            &&& waits ==> r == Ok::<Option<HandshakeMessage>, TlsError>(None) && rest == b
            &&& !waits && !(known_type && known_version) ==> (r matches Err(e) && e.action
                == ErrorAction::Redirect) && rest == b.subrange(5, b.len() as int)
            &&& !waits && known_type && known_version ==> {
                &&& rest == b.subrange(5 + n, b.len() as int)
                &&& exists|record: TlsRecord| #[trigger]
                    HandshakeMessage::handled(record, r) && record.content_type.wire() == b[0]
                        && bytes_view(record.payload) == b.subrange(5, 5 + n)
            }
        }),
{
    let p = choose|p: Result<Option<TlsRecord>, TlsError>| #[trigger]
        TlsRecord::outcome(b, p, rest) && match p {
            Ok(Some(record)) => HandshakeMessage::handled(record, r),
            Ok(None) => r matches Ok(None),
            Err(e) => r == Err::<Option<HandshakeMessage>, TlsError>(e),
        };
    lemma_record_read(b, p, rest);
}

/// What comes of a record where a `ChangeCipherSpec` record is expected: it is one by its type
/// alone, and any other is handed back with the error.
pub proof fn lemma_marker_read(
    record: TlsRecord,
    r: Result<Option<ChangeCipherSpecMarker>, TlsError>,
)
    requires
        ChangeCipherSpecMarker::handled(record, r),
    ensures
        record.content_type.wire() == 20 ==> (r matches Ok(Some(_))),
        record.content_type.wire() != 20 ==> (r matches Err(e) && {
            &&& e.stage == ErrorStage::Tls("Expected ChangeCipherSpec record")
            &&& e.action == ErrorAction::Drop
            &&& bytes_view(e.data) == record.wire()
        }),
{
}

/// What comes of a record where ciphertext is expected: all of its payload, or the error that
/// hands it back.
pub proof fn lemma_ciphertext_read(record: TlsRecord, r: Result<Option<ApplicationData>, TlsError>)
    requires
        ApplicationData::handled(record, r),
    ensures
        record.content_type.wire() == 23 ==> (r matches Ok(Some(data)) && bytes_view(data.payload)
            == bytes_view(record.payload) && data._len == bytes_view(record.payload).len()),
        record.content_type.wire() != 23 ==> (r matches Err(e) && {
            &&& e.stage == ErrorStage::ApplicationData("Expected AppData record")
            &&& e.action == ErrorAction::Drop
            &&& bytes_view(e.data) == record.wire()
        }),
{
}

/// What is reported of the front of a buffer where ciphertext is expected.
pub proof fn lemma_data_reported(
    b: Seq<u8>,
    r: Result<Option<ApplicationData>, TlsError>,
    rest: Seq<u8>,
)
    requires
        data_outcome(b, r, rest),
    ensures
        match data_step(b) {
            DataStep::Wait => r == Ok::<Option<ApplicationData>, TlsError>(None) && rest == b,
            DataStep::Foreign { rest: left, .. } => (r matches Err(e) && e.action
                == ErrorAction::Redirect) && rest == left,
            DataStep::Unexpected { record, rest: left } => (r matches Err(e) && e.action
                == ErrorAction::Drop && bytes_view(e.data) == record) && rest == left,
            DataStep::Data { payload, rest: left } => (r matches Ok(Some(data)) && bytes_view(
                data.payload,
            ) == payload) && rest == left,
        },
{
}

/// All bytes that there are become a payload, unless there are none.
pub proof fn lemma_payload_read(
    b: Seq<u8>,
    r: Result<Option<ApplicationData>, TlsError>,
    rest: Seq<u8>,
)
    requires
        ApplicationData::outcome(b, r, rest),
    ensures
        b.len() == 0 ==> r == Ok::<Option<ApplicationData>, TlsError>(None),
        b.len() > 0 ==> (r matches Ok(Some(data)) && bytes_view(data.payload) == b && data._len
            == b.len()),
        rest.len() == 0,
{
}

/// The head of a message is its kind and a length of three bytes. It is taken as soon as four
/// bytes of a known kind are there, and nothing is taken otherwise.
pub proof fn lemma_message_head_read(
    b: Seq<u8>,
    r: Result<Option<HelloHeader>, TlsError>,
    rest: Seq<u8>,
)
    requires
        HelloHeader::outcome(b, r, rest),
    ensures
        b.len() >= 4 && (b[0] == 1 || b[0] == 2) ==> {
            &&& r matches Ok(Some(head)) && head.header_type.wire() == b[0] && head._len.value()
                == b[1] * 65536 + b[2] * 256 + b[3]
            &&& rest == b.subrange(4, b.len() as int)
        },
        b.len() < 4 || (b[0] != 1 && b[0] != 2) ==> r == Ok::<Option<HelloHeader>, TlsError>(None)
            && rest == b,
{
    lemma_wire_numbers(
        ContentType::Handshake,
        ProtocolVersion::Tls12,
        HelloType::Client,
        b[0],
        0,
    );
}

/// A block of extensions is taken as a whole or not at all: one that ends too early is waited
/// for, and one with bytes left over is an error.
pub proof fn lemma_block_read(
    b: Seq<u8>,
    r: Result<Option<ExtensionStack>, TlsError>,
    rest: Seq<u8>,
)
    requires
        ExtensionStack::outcome(b, r, rest),
    ensures
        match scan(b) {
            BlockScan::Short => r == Ok::<Option<ExtensionStack>, TlsError>(None) && rest == b,
            BlockScan::Trailing => fails(
                r,
                ErrorStage::Tls("Malformed extension stack: trailing data"),
                ErrorAction::Drop,
            ) && rest == b,
            BlockScan::Whole(entries) => (r matches Ok(Some(stack)) && {
                &&& stack.extensions@.len() == entries.len()
                &&& forall|i: int|
                    0 <= i < entries.len() ==> (#[trigger] stack.extensions@[i]).etype
                        == entries[i].0 && bytes_view(stack.extensions@[i].data) == entries[i].1
            }) && rest.len() == 0,
        },
{
    if let BlockScan::Whole(entries) = scan(b) {
        let stack = r->Ok_0->Some_0;
        assert(stack.entries() == entries);
        assert(stack.entries().len() == stack.extensions@.len());
        assert forall|i: int| 0 <= i < entries.len() implies (
        #[trigger] stack.extensions@[i]).etype == entries[i].0 && bytes_view(
            stack.extensions@[i].data,
        ) == entries[i].1 by {
            assert(stack.entries()[i] == entries[i]);
        }
    }
}

} // verus!
