//! Records: the outermost envelope on the wire, `type | version | length | payload`.

use bytes::{Buf, BufMut, Bytes, BytesMut};
use vstd::prelude::*;

use crate::buffers::{
    buf_slice, buf_view, bytes_slice, bytes_view, get_u16, get_u8, put_u16, put_u8,
};
use crate::errors::{ErrorAction, ErrorStage, TlsError};
use crate::parser::Parser;
use crate::tlseng::types::{ContentType, ProtocolVersion};
use crate::utils::byte_order::{be16, low16, low_u16, read_u16, u16_at};

verus! {

/// The bytes of a record. A payload that does not fit the length field keeps only the low
/// 16 bits of its length there.
pub open spec fn record_bytes(t: ContentType, v: ProtocolVersion, payload: Seq<u8>) -> Seq<u8> {
    seq![t.wire()] + be16(v.wire()) + be16(low16(payload.len())) + payload
}

/// A record, taken apart.
#[derive(Debug)]
pub struct TlsRecord {
    /// The type.
    pub content_type: ContentType,
    /// The version in the header.
    pub version: ProtocolVersion,
    /// The length in the header.
    pub _len: u16,
    /// The payload.
    pub payload: Bytes,
}

impl TlsRecord {
    /// Whether this is the record of the given parts.
    pub open spec fn is_record(self, t: ContentType, v: ProtocolVersion, payload: Seq<u8>) -> bool {
        &&& self.content_type == t
        &&& self.version == v
        &&& self._len == low16(payload.len())
        &&& bytes_view(self.payload) == payload
    }

    /// The bytes of the record.
    pub open spec fn wire(self) -> Seq<u8> {
        record_bytes(self.content_type, self.version, bytes_view(self.payload))
    }

    /// A record of the given parts.
    pub fn new(content_type: ContentType, version: ProtocolVersion, payload: Bytes) -> (r: Self)
        ensures
            r.is_record(content_type, version, bytes_view(payload)),
            r.payload == payload,
    {
        Self { content_type, version, _len: low_u16(payload.len()), payload }
    }

    /// The bytes of the record.
    pub fn serialize(&self) -> (r: Bytes)
        requires
            bytes_view(self.payload).len() + 5 <= isize::MAX,
        ensures
            bytes_view(r) == self.wire(),
    {
        let mut buf: BytesMut = BytesMut::with_capacity(5 + self.payload.len());
        put_u8(&mut buf, self.content_type.code());
        put_u16(&mut buf, self.version.code());
        put_u16(&mut buf, low_u16(self.payload.len()));
        buf.put_slice(bytes_slice(&self.payload));
        assert(buf_view(buf) =~= self.wire());
        buf.freeze()
    }

    /// The bytes of a record that carries ciphertext; it poses as TLS 1.2.
    pub fn build_application_data(payload: Bytes) -> (r: Bytes)
        requires
            bytes_view(payload).len() + 5 <= isize::MAX,
        ensures
            bytes_view(r) == record_bytes(
                ContentType::ApplicationData,
                ProtocolVersion::Tls12,
                bytes_view(payload),
            ),
    {
        let record: Self = Self::new(ContentType::ApplicationData, ProtocolVersion::Tls12, payload);
        record.serialize()
    }

    /// The bytes of the `ChangeCipherSpec` record that browsers send after their hello.
    pub fn build_change_cipher_spec() -> (r: Bytes)
        ensures
            bytes_view(r) == seq![0x14u8, 0x03u8, 0x03u8, 0x00u8, 0x01u8, 0x01u8],
    {
        let body: [u8; 1] = [0x01];
        let record: Self = Self::new(
            ContentType::ChangeCipherSpec,
            ProtocolVersion::Tls12,
            Bytes::copy_from_slice(body.as_slice()),
        );
        let r: Bytes = record.serialize();
        assert(bytes_view(r) =~= seq![0x14u8, 0x03u8, 0x03u8, 0x00u8, 0x01u8, 0x01u8]);
        r
    }
}

/// Whether `b` starts with a record that is there as a whole, and is of no known type.
pub open spec fn has_unknown_type(b: Seq<u8>) -> bool {
    &&& b.len() >= 5
    &&& b.len() >= 5 + u16_at(b, 3)
    &&& ContentType::of_wire(b[0]) is None
}

/// Whether a buffer starts with a whole record of no known type.
fn unknown_type(bytes: &BytesMut) -> (r: bool)
    ensures
        r == has_unknown_type(buf_view(*bytes)),
{
    let b: &[u8] = buf_slice(bytes);
    b.len() >= 5 && b.len() >= 5 + read_u16(b, 3) as usize && ContentType::try_from(b[0]).is_err()
}

impl Parser for TlsRecord {
    type Error = TlsError;

    /// A known type, a length that makes sense, and all the bytes: an `ApplicationData`
    /// record has room for a tag and at least one byte.
    open spec fn complete(b: Seq<u8>) -> bool {
        &&& b.len() >= 5
        &&& ContentType::of_wire(b[0]) is Some
        &&& b[0] == ContentType::ApplicationData.wire() ==> u16_at(b, 3) >= 17
        &&& b.len() >= 5 + u16_at(b, 3)
    }

    /// An incomplete record is left alone. Of a whole one with an unknown type or version the
    /// header is taken, and the error asks to relay: this does not look like a peer.
    open spec fn outcome(b: Seq<u8>, r: Result<Option<Self>, TlsError>, rest: Seq<u8>) -> bool {
        if has_unknown_type(b) {
            &&& r matches Err(e) && e.is_error(
                ErrorStage::Tls("This is not ContentType"),
                ErrorAction::Redirect,
                Seq::empty(),
            )
            &&& rest == b.subrange(5, b.len() as int)
        } else if !Self::complete(b) {
            r matches Ok(None) && rest == b
        } else {
            let n = u16_at(b, 3) as int;
            match (ContentType::of_wire(b[0]), ProtocolVersion::of_wire(u16_at(b, 1))) {
                (Some(t), Some(v)) => {
                    &&& r matches Ok(Some(record)) && record.is_record(t, v, b.subrange(5, 5 + n))
                    &&& rest == b.subrange(5 + n, b.len() as int)
                },
                _ => {
                    &&& r matches Err(e) && e.is_error(
                        ErrorStage::Tls("This is not Protocol Version"),
                        ErrorAction::Redirect,
                        Seq::empty(),
                    )
                    &&& rest == b.subrange(5, b.len() as int)
                },
            }
        }
    }

    fn can_parse(bytes: &BytesMut) -> (r: bool) {
        let ghost enough = TlsRecord::complete(buf_view(*bytes));
        let b: &[u8] = buf_slice(bytes);
        if b.len() < 5 {
            return false;
        }
        let content_type: u8 = b[0];
        let is_valid_type: bool = content_type == ContentType::Handshake.code() || content_type
            == ContentType::ApplicationData.code() || content_type == ContentType::Alert.code()
            || content_type == ContentType::ChangeCipherSpec.code();
        if !is_valid_type {
            return false;
        }
        let record_len: usize = read_u16(b, 3) as usize;
        if content_type == ContentType::ApplicationData.code() && record_len < 17 {
            return false;
        }
        b.len() >= 5 + record_len
    }

    fn parse(bytes: &mut BytesMut) -> (r: Result<Option<TlsRecord>, TlsError>) {
        let ghost waits = TlsRecord::outcome(buf_view(*bytes), Ok(None), buf_view(*bytes));
        if !Self::can_parse(bytes) && !unknown_type(bytes) {
            return Ok(None);
        }
        let ghost b = buf_view(*bytes);
        let raw_content_type: u8 = get_u8(bytes);
        let raw_version: u16 = get_u16(bytes);
        let record_len: usize = get_u16(bytes) as usize;
        assert(buf_view(*bytes) =~= b.subrange(5, b.len() as int));

        let content_type: ContentType = match ContentType::try_from(raw_content_type) {
            Ok(t) => t,
            Err(e) => {
                return Err(TlsError::new(ErrorStage::Tls(e), ErrorAction::Redirect, Bytes::new()));
            },
        };
        let version: ProtocolVersion = match ProtocolVersion::try_from(raw_version) {
            Ok(v) => v,
            Err(e) => {
                return Err(TlsError::new(ErrorStage::Tls(e), ErrorAction::Redirect, Bytes::new()));
            },
        };
        let payload: Bytes = bytes.split_to(record_len).freeze();
        assert(bytes_view(payload) =~= b.subrange(5, 5 + record_len));
        assert(buf_view(*bytes) =~= b.subrange(5 + record_len, b.len() as int));
        Ok(Some(TlsRecord::new(content_type, version, payload)))
    }
}

/// A record whose payload fits the length field is read back as it was, whatever follows
/// it on the wire. An `ApplicationData` record of fewer than 17 bytes is never complete.
pub proof fn lemma_record_round_trip(
    t: ContentType,
    v: ProtocolVersion,
    payload: Seq<u8>,
    tail: Seq<u8>,
    r: Result<Option<TlsRecord>, TlsError>,
    rest: Seq<u8>,
)
    requires
        payload.len() <= 0xffff,
        t == ContentType::ApplicationData ==> payload.len() >= 17,
        TlsRecord::outcome(record_bytes(t, v, payload) + tail, r, rest),
    ensures
        TlsRecord::complete(record_bytes(t, v, payload) + tail),
        r matches Ok(Some(record)) && record.is_record(t, v, payload),
        rest == tail,
{
    let b = record_bytes(t, v, payload) + tail;
    let n = payload.len() as int;
    assert(b[0] == t.wire());
    assert(b[1] == be16(v.wire())[0] && b[2] == be16(v.wire())[1]);
    assert(b[3] == be16(low16(payload.len()))[0] && b[4] == be16(low16(payload.len()))[1]);
    assert(u16_at(b, 1) == v.wire());
    assert(u16_at(b, 3) == n);
    assert(b.subrange(5, 5 + n) =~= payload);
    assert(b.subrange(5 + n, b.len() as int) =~= tail);
}

/// Whole records are never waited for: one of an unknown type is to be relayed, and so is one
/// of an unknown version, and every other one is read. Only an `ApplicationData` record too
/// short for a tag and a byte is left alone.
pub proof fn lemma_whole_record_is_settled(
    b: Seq<u8>,
    r: Result<Option<TlsRecord>, TlsError>,
    rest: Seq<u8>,
)
    requires
        b.len() >= 5,
        b.len() >= 5 + u16_at(b, 3),
        b[0] == ContentType::ApplicationData.wire() ==> u16_at(b, 3) >= 17,
        TlsRecord::outcome(b, r, rest),
    ensures
        ContentType::of_wire(b[0]) is Some && ProtocolVersion::of_wire(u16_at(b, 1)) is Some ==> (
        r matches Ok(Some(_))),
        ContentType::of_wire(b[0]) is None || ProtocolVersion::of_wire(u16_at(b, 1)) is None ==> (
        r matches Err(e) && e.action == ErrorAction::Redirect),
        rest.len() < b.len(),
{
}

/// The payload of an `ApplicationData` record, without a second look at it.
pub struct ApplicationData {
    /// Its length.
    pub _len: usize,
    /// The payload.
    pub payload: Bytes,
}

impl Parser for ApplicationData {
    type Error = TlsError;

    open spec fn complete(b: Seq<u8>) -> bool {
        b.len() > 0
    }

    /// Everything there is becomes the payload.
    open spec fn outcome(b: Seq<u8>, r: Result<Option<Self>, TlsError>, rest: Seq<u8>) -> bool {
        &&& rest.len() == 0
        &&& if b.len() == 0 {
            r matches Ok(None)
        } else {
            r matches Ok(Some(data)) && data._len == b.len() && bytes_view(data.payload) == b
        }
    }

    fn can_parse(bytes: &BytesMut) -> (r: bool) {
        let ghost enough = ApplicationData::complete(buf_view(*bytes));
        !bytes.is_empty()
    }

    fn parse(bytes: &mut BytesMut) -> (r: Result<Option<Self>, TlsError>) {
        let ghost waits = ApplicationData::outcome(buf_view(*bytes), Ok(None), buf_view(*bytes));
        let _len: usize = bytes.len();
        if _len == 0 {
            return Ok(None);
        }
        let ghost b = buf_view(*bytes);
        let payload: Bytes = bytes.split_to(_len).freeze();
        assert(bytes_view(payload) =~= b);
        Ok(Some(Self { _len, payload }))
    }
}

} // verus!
