//! Frames: `tag | stream | type | payload length | padding length | payload | padding`.

use bytes::{Buf, BufMut, Bytes, BytesMut};
use vstd::prelude::*;

use crate::buffers::{buf_slice, buf_view, bytes_slice, bytes_view, put_u16, put_u8};
use crate::entropy::{from_thread, thread_bytes};
use crate::parser::Parser;
use crate::utils::byte_order::{
    be16, be32, lemma_be32_read, low16, low_u16, read_u16, read_u32, take_array, u16_at, u32_at,
    u32_bytes,
};
use crate::utils::text::{chars_of, hex_byte, push_hex, string_of};

verus! {

/// The type of a frame. The bytes on the wire are fixed.
#[derive(Debug, Clone, Copy, PartialEq, Eq, Hash, Structural)]
pub enum FrameType {
    /// Open a TCP stream; the payload is the destination.
    Connect,
    /// Data of a TCP stream.
    Data,
    /// Close a stream.
    Close,
    /// Keeps the tunnel alive.
    Heartbeat,
    /// Open a UDP session.
    UdpConnect,
    /// A datagram of a UDP session.
    UdpData,
    /// A diagnostic report of the client.
    Diag,
    /// How many more bytes the other side may send on a stream.
    Credit,
    /// Nothing but padding, there for the shape of the traffic.
    Cover,
}

impl FrameType {
    /// The byte on the wire.
    pub open spec fn wire(self) -> u8 {
        match self {
            FrameType::Connect => 0x00,
            FrameType::Data => 0x01,
            FrameType::Close => 0x02,
            FrameType::Heartbeat => 0x03,
            FrameType::UdpConnect => 0x04,
            FrameType::UdpData => 0x05,
            FrameType::Diag => 0x06,
            FrameType::Credit => 0x07,
            FrameType::Cover => 0x08,
        }
    }

    /// What a byte on the wire stands for.
    pub open spec fn of_wire(b: u8) -> Option<Self> {
        if b == 0x00 {
            Some(FrameType::Connect)
        } else if b == 0x01 {
            Some(FrameType::Data)
        } else if b == 0x02 {
            Some(FrameType::Close)
        } else if b == 0x03 {
            Some(FrameType::Heartbeat)
        } else if b == 0x04 {
            Some(FrameType::UdpConnect)
        } else if b == 0x05 {
            Some(FrameType::UdpData)
        } else if b == 0x06 {
            Some(FrameType::Diag)
        } else if b == 0x07 {
            Some(FrameType::Credit)
        } else if b == 0x08 {
            Some(FrameType::Cover)
        } else {
            None
        }
    }

    /// The byte on the wire.
    pub fn code(self) -> (r: u8)
        ensures
            r == self.wire(),
    {
        match self {
            FrameType::Connect => 0x00,
            FrameType::Data => 0x01,
            FrameType::Close => 0x02,
            FrameType::Heartbeat => 0x03,
            FrameType::UdpConnect => 0x04,
            FrameType::UdpData => 0x05,
            FrameType::Diag => 0x06,
            FrameType::Credit => 0x07,
            FrameType::Cover => 0x08,
        }
    }

    /// What a byte on the wire stands for.
    pub fn from_code(b: u8) -> (r: Option<Self>)
        ensures
            r == Self::of_wire(b),
    {
        match b {
            0x00 => Some(FrameType::Connect),
            0x01 => Some(FrameType::Data),
            0x02 => Some(FrameType::Close),
            0x03 => Some(FrameType::Heartbeat),
            0x04 => Some(FrameType::UdpConnect),
            0x05 => Some(FrameType::UdpData),
            0x06 => Some(FrameType::Diag),
            0x07 => Some(FrameType::Credit),
            0x08 => Some(FrameType::Cover),
            _ => None,
        }
    }
}

/// The head of a frame.
#[derive(Debug, Clone, Copy)]
pub struct FrameHeader {
    /// The tag of the time.
    pub auth_tag: [u8; 16],
    /// The stream inside the tunnel.
    pub stream_id: u32,
    /// The length of the payload.
    pub payload_len: u16,
    /// The length of the padding behind the payload.
    pub padding_len: u16,
    /// The type.
    pub frame_type: FrameType,
}

/// A frame; its padding is not kept.
pub struct Frame {
    /// The payload.
    pub payload: Bytes,
    /// The head.
    pub header: FrameHeader,
}

/// The length of a frame's head.
pub const FRAME_HEADER_SIZE: u16 = 25;

/// The longest plaintext of one record: what TLS 1.3 allows, with the byte of the inner
/// content type.
pub const MAX_RECORD_PLAINTEXT: usize = 16385;

/// The longest payload of a frame that fits into one record.
pub const MAX_FRAME_PAYLOAD: usize = 16360;

/// The head of a frame, as bytes.
pub open spec fn header_bytes(
    tag: Seq<u8>,
    stream_id: u32,
    kind: FrameType,
    payload_len: u16,
    padding_len: u16,
) -> Seq<u8> {
    tag + be32(stream_id) + seq![kind.wire()] + be16(payload_len) + be16(padding_len)
}

/// A frame as bytes. A payload or padding that does not fit its length field keeps only the
/// low 16 bits of its length there.
pub open spec fn frame_bytes(
    tag: Seq<u8>,
    stream_id: u32,
    kind: FrameType,
    payload: Seq<u8>,
    padding: Seq<u8>,
) -> Seq<u8> {
    header_bytes(tag, stream_id, kind, low16(payload.len()), low16(padding.len())) + payload
        + padding
}

/// The length of the payload that the head of a frame gives.
pub open spec fn payload_len_of(b: Seq<u8>) -> int {
    u16_at(b, 21) as int
}

/// The length of the padding that the head of a frame gives.
pub open spec fn padding_len_of(b: Seq<u8>) -> int {
    u16_at(b, 23) as int
}

/// Where the frame in front of `b` ends.
pub open spec fn frame_end(b: Seq<u8>) -> int {
    25 + payload_len_of(b) + padding_len_of(b)
}

/// What is reported of an unknown type.
pub open spec fn unknown_type(b: u8) -> Seq<char> {
    "Unknown FrameType byte: 0x"@ + hex_byte(b)
}

impl FrameHeader {
    /// Whether this is the head in front of `b`.
    pub open spec fn is_head_of(self, b: Seq<u8>) -> bool {
        &&& self.auth_tag@ == b.subrange(0, 16)
        &&& self.stream_id == u32_at(b, 16)
        &&& FrameType::of_wire(b[20]) == Some(self.frame_type)
        &&& self.payload_len == u16_at(b, 21)
        &&& self.padding_len == u16_at(b, 23)
    }
}

impl Frame {
    /// Whether this is the frame in front of `b`.
    pub open spec fn is_front_of(self, b: Seq<u8>) -> bool {
        &&& self.header.is_head_of(b)
        &&& bytes_view(self.payload) == b.subrange(25, 25 + payload_len_of(b))
    }

    /// A frame whose tag and padding come later, when it is written.
    pub fn new(stream_id: u32, frame_type: FrameType, payload: Bytes) -> (r: Self)
        ensures
            r.header.auth_tag@ == Seq::new(16, |i: int| 0u8),
            r.header.stream_id == stream_id,
            r.header.payload_len == low16(bytes_view(payload).len()),
            r.header.padding_len == 0,
            r.header.frame_type == frame_type,
            r.payload == payload,
    {
        let auth_tag: [u8; 16] = [0u8; 16];
        assert(auth_tag@ =~= Seq::new(16, |i: int| 0u8));
        Self {
            header: FrameHeader {
                auth_tag,
                stream_id,
                payload_len: low_u16(payload.len()),
                padding_len: 0,
                frame_type,
            },
            payload,
        }
    }

    /// The length of a frame on the wire, before encryption.
    pub fn wire_len(payload_len: usize, padding_len: u16) -> (r: usize)
        requires
            25 + payload_len + padding_len <= usize::MAX,
        ensures
            r == 25 + payload_len + padding_len,
    {
        FRAME_HEADER_SIZE as usize + payload_len + padding_len as usize
    }

    /// Writes the frame: with the given tag, and with random padding of the given length.
    pub fn into_bytes(self, auth_key: &[u8; 16], padding_len: u16) -> (r: BytesMut)
        requires
            25 + bytes_view(self.payload).len() + padding_len <= isize::MAX,
        ensures
            exists|padding: Seq<u8>|
                padding.len() == padding_len && (padding_len > 0 ==> from_thread(padding))
                    && buf_view(r) == #[trigger] written_frame(self, auth_key@, padding),
    {
        let padding: Vec<u8> = if padding_len > 0 {
            thread_bytes(padding_len as usize)
        } else {
            Vec::new()
        };
        self.write_padded(auth_key, padding.as_slice())
    }

    /// Writes the frame with the given tag and padding.
    pub fn write_padded(self, auth_key: &[u8; 16], padding: &[u8]) -> (r: BytesMut)
        requires
            padding@.len() <= 0xffff,
            25 + bytes_view(self.payload).len() + padding@.len() <= isize::MAX,
        ensures
            buf_view(r) == written_frame(self, auth_key@, padding@),
    {
        let padding_len: u16 = padding.len() as u16;
        let total_size: usize = Self::wire_len(self.payload.len(), padding_len);
        let mut buf: BytesMut = BytesMut::with_capacity(total_size);
        buf.put_slice(auth_key.as_slice());
        let stream: [u8; 4] = u32_bytes(self.header.stream_id);
        buf.put_slice(stream.as_slice());
        put_u8(&mut buf, self.header.frame_type.code());
        put_u16(&mut buf, self.header.payload_len);
        put_u16(&mut buf, padding_len);
        buf.put_slice(bytes_slice(&self.payload));
        buf.put_slice(padding);
        assert(buf_view(buf) =~= written_frame(self, auth_key@, padding@));
        buf
    }
}

/// The bytes that a frame is written as.
pub open spec fn written_frame(frame: Frame, tag: Seq<u8>, padding: Seq<u8>) -> Seq<u8> {
    header_bytes(
        tag,
        frame.header.stream_id,
        frame.header.frame_type,
        frame.header.payload_len,
        padding.len() as u16,
    ) + bytes_view(frame.payload) + padding
}

impl Parser for FrameHeader {
    type Error = String;

    open spec fn complete(b: Seq<u8>) -> bool {
        b.len() >= 25
    }

    /// The head is taken, unless the type is unknown: then nothing is.
    open spec fn outcome(b: Seq<u8>, r: Result<Option<Self>, String>, rest: Seq<u8>) -> bool {
        if !Self::complete(b) {
            r matches Ok(None) && rest == b
        } else if FrameType::of_wire(b[20]) is None {
            r matches Err(e) && e@ == unknown_type(b[20]) && rest == b
        } else {
            &&& r matches Ok(Some(header)) && header.is_head_of(b)
            &&& rest == b.subrange(25, b.len() as int)
        }
    }

    fn can_parse(bytes: &BytesMut) -> (r: bool) {
        let ghost enough = FrameHeader::complete(buf_view(*bytes));
        bytes.len() >= FRAME_HEADER_SIZE as usize
    }

    fn parse(bytes: &mut BytesMut) -> (r: Result<Option<Self>, String>) {
        let ghost waits = FrameHeader::outcome(buf_view(*bytes), Ok(None), buf_view(*bytes));
        if !Self::can_parse(bytes) {
            return Ok(None);
        }
        let head: &[u8] = buf_slice(bytes);
        let auth_tag: [u8; 16] = take_array::<16>(head, 0);
        let stream_id: u32 = read_u32(head, 16);
        let frame_type: FrameType = match FrameType::from_code(head[20]) {
            Some(t) => t,
            None => {
                let mut msg: Vec<char> = chars_of("Unknown FrameType byte: 0x");
                push_hex(&mut msg, head[20]);
                return Err(string_of(&msg));
            },
        };
        let payload_len: u16 = read_u16(head, 21);
        let padding_len: u16 = read_u16(head, 23);
        bytes.advance(FRAME_HEADER_SIZE as usize);
        Ok(Some(Self { auth_tag, stream_id, frame_type, payload_len, padding_len }))
    }
}

impl Parser for Frame {
    type Error = String;

    open spec fn complete(b: Seq<u8>) -> bool {
        b.len() >= 25 && b.len() >= frame_end(b)
    }

    /// A frame is taken with its padding once all of it is there. Of an unknown type nothing
    /// is taken.
    open spec fn outcome(b: Seq<u8>, r: Result<Option<Self>, String>, rest: Seq<u8>) -> bool {
        if !Self::complete(b) {
            r matches Ok(None) && rest == b
        } else if FrameType::of_wire(b[20]) is None {
            r matches Err(e) && e@ == unknown_type(b[20]) && rest == b
        } else {
            &&& r matches Ok(Some(frame)) && frame.is_front_of(b)
            &&& rest == b.subrange(frame_end(b), b.len() as int)
        }
    }

    fn can_parse(bytes: &BytesMut) -> (r: bool) {
        let ghost enough = Frame::complete(buf_view(*bytes));
        let b: &[u8] = buf_slice(bytes);
        if b.len() < FRAME_HEADER_SIZE as usize {
            return false;
        }
        let p_len: usize = read_u16(b, 21) as usize;
        let pad_len: usize = read_u16(b, 23) as usize;
        b.len() >= FRAME_HEADER_SIZE as usize + p_len + pad_len
    }

    fn parse(bytes: &mut BytesMut) -> (r: Result<Option<Self>, String>) {
        let ghost waits = Frame::outcome(buf_view(*bytes), Ok(None), buf_view(*bytes));
        if !Self::can_parse(bytes) {
            return Ok(None);
        }
        let ghost b = buf_view(*bytes);
        let header: FrameHeader = match FrameHeader::parse(bytes) {
            Ok(Some(header)) => header,
            Ok(None) => {
                return Ok(None);
            },
            Err(e) => {
                return Err(e);
            },
        };
        let p_len: usize = header.payload_len as usize;
        let pad_len: usize = header.padding_len as usize;
        let payload: Bytes = bytes.split_to(p_len).freeze();
        assert(bytes_view(payload) =~= b.subrange(25, 25 + p_len));
        bytes.advance(pad_len);
        assert(buf_view(*bytes) =~= b.subrange(frame_end(b), b.len() as int));
        Ok(Some(Self { header, payload }))
    }
}

/// A frame whose payload and padding fit their length fields is read back as it was written,
/// and its padding is gone, whatever follows it.
pub proof fn lemma_frame_round_trip(
    tag: Seq<u8>,
    stream_id: u32,
    kind: FrameType,
    payload: Seq<u8>,
    padding: Seq<u8>,
    tail: Seq<u8>,
)
    requires
        tag.len() == 16,
        payload.len() <= 0xffff,
        padding.len() <= 0xffff,
    ensures
        ({
            let b = frame_bytes(tag, stream_id, kind, payload, padding) + tail;
            &&& Frame::complete(b)
            &&& FrameType::of_wire(b[20]) == Some(kind)
            &&& b.subrange(0, 16) == tag
            &&& u32_at(b, 16) == stream_id
            &&& payload_len_of(b) == payload.len()
            &&& padding_len_of(b) == padding.len()
            &&& b.subrange(25, 25 + payload_len_of(b)) == payload
            &&& b.subrange(frame_end(b), b.len() as int) == tail
        }),
{
    let b = frame_bytes(tag, stream_id, kind, payload, padding) + tail;
    lemma_be32_read(stream_id);
    let s = be32(stream_id);
    let p = be16(low16(payload.len()));
    let q = be16(low16(padding.len()));
    assert(b[16] == s[0] && b[17] == s[1] && b[18] == s[2] && b[19] == s[3]);
    assert(b[20] == kind.wire());
    assert(b[21] == p[0] && b[22] == p[1]);
    assert(b[23] == q[0] && b[24] == q[1]);
    assert(b.subrange(0, 16) =~= tag);
    assert(u16_at(b, 21) == payload.len());
    assert(u16_at(b, 23) == padding.len());
    assert(b.subrange(25, 25 + payload_len_of(b)) =~= payload);
    assert(b.subrange(frame_end(b), b.len() as int) =~= tail);
}

} // verus!
