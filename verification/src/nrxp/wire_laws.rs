//! What travels: every byte of a frame, of a record and of a datagram, and their lengths.
//!
//! The other side need not be this library, so that both directions undo each other is not
//! enough: what is written has to stand where the protocol says.

use bytes::Bytes;
use vstd::prelude::*;

use crate::bridge::{data_step, DataStep};
use crate::buffers::bytes_view;
use crate::crypto::aead_packer::AeadPacker;
use crate::crypto::auth::frame_tag;
use crate::crypto::chacha::{nonce_of, ChaChaStream};
use crate::crypto::datagram_keys::EpochView;
use crate::crypto::primitives::{aead_open, aead_seal, answerable, sealable};
use crate::entropy::from_thread;
use crate::errors::{ErrorAction, ErrorStage, TlsError};
use crate::nrxp::batch::{
    fits, group_bytes, group_len, group_padding, pack, plain_frames, Item,
};
use crate::nrxp::codec::{
    batch_drawn, batch_outcome, batch_sent, cover_record, data_record, decoded, encoded, opened,
    random_paddings, records_wire, refused_at, reports, sealed_groups, sealed_packet, staged,
    Decoded, Received, TxCodec,
};
use crate::nrxp::datagram::{
    datagram_frame, sealed_under, Datagram, Opened, ReceiverView, SenderView, SlotView,
};
use crate::nrxp::frame::{
    frame_bytes, unknown_type, written_frame, Frame, FrameHeader, FrameType,
};
use crate::nrxp::replay::WindowView;
use crate::nrxp::shaper::{
    boundary_after, drawn, lemma_ceiling_place, shaped_padding, target_len,
};
use crate::parser::Parser;
use crate::utils::byte_order::{be32, be64, lemma_bytes_by_weight, zeros};
use crate::utils::text::hex_byte;

verus! {

/// The types of frames have the numbers of the protocol, and no other number is a type.
pub proof fn lemma_frame_numbers(kind: FrameType, b: u8)
    ensures
        kind.wire() == match kind {
            FrameType::Connect => 0u8,
            FrameType::Data => 1,
            FrameType::Close => 2,
            FrameType::Heartbeat => 3,
            FrameType::UdpConnect => 4,
            FrameType::UdpData => 5,
            FrameType::Diag => 6,
            FrameType::Credit => 7,
            FrameType::Cover => 8,
        },
        FrameType::of_wire(b) is Some <==> b <= 8,
        FrameType::of_wire(b) matches Some(known) ==> known.wire() == b,
{
}

/// A frame is its tag, its stream, its type, both lengths, its payload and its padding.
/// Numbers stand most significant byte first; of a length that does not fit, the low 16 bits
/// are written.
pub proof fn lemma_frame_layout(
    tag: Seq<u8>,
    stream_id: u32,
    kind: FrameType,
    payload: Seq<u8>,
    padding: Seq<u8>,
)
    requires
        tag.len() == 16,
    ensures
        ({
            let b = frame_bytes(tag, stream_id, kind, payload, padding);
            let n = payload.len() as int;
            &&& b.len() == 25 + n + padding.len()
            &&& b.subrange(0, 16) == tag
            &&& b[16] * 0x100_0000 + b[17] * 0x1_0000 + b[18] * 0x100 + b[19] == stream_id
            &&& b[20] == kind.wire()
            &&& b[21] * 256 + b[22] == n % 65536
            &&& b[23] * 256 + b[24] == padding.len() % 65536
            &&& b.subrange(25, 25 + n) == payload
            &&& b.subrange(25 + n, b.len() as int) == padding
        }),
{
    let b = frame_bytes(tag, stream_id, kind, payload, padding);
    let n = payload.len() as int;
    lemma_bytes_by_weight(0, 0, stream_id, 0);
    let s = be32(stream_id);
    assert(b[16] == s[0] && b[17] == s[1] && b[18] == s[2] && b[19] == s[3]);
    assert(b.subrange(0, 16) =~= tag);
    assert(b.subrange(25, 25 + n) =~= payload);
    assert(b.subrange(25 + n, b.len() as int) =~= padding);
}

/// A frame is written from its head: with the tag and the padding that are given, and with the
/// stream, the type and the length that the head has.
pub proof fn lemma_frame_written(frame: Frame, tag: Seq<u8>, padding: Seq<u8>)
    requires
        tag.len() == 16,
        padding.len() <= 0xffff,
    ensures
        ({
            let b = written_frame(frame, tag, padding);
            let payload = bytes_view(frame.payload);
            let n = payload.len() as int;
            &&& b.len() == 25 + n + padding.len()
            &&& b.subrange(0, 16) == tag
            &&& b[16] * 0x100_0000 + b[17] * 0x1_0000 + b[18] * 0x100 + b[19]
                == frame.header.stream_id
            &&& b[20] == frame.header.frame_type.wire()
            &&& b[21] * 256 + b[22] == frame.header.payload_len
            &&& b[23] * 256 + b[24] == padding.len()
            &&& b.subrange(25, 25 + n) == payload
            &&& b.subrange(25 + n, b.len() as int) == padding
        }),
{
    let b = written_frame(frame, tag, padding);
    let payload = bytes_view(frame.payload);
    let n = payload.len() as int;
    lemma_bytes_by_weight(0, 0, frame.header.stream_id, 0);
    let s = be32(frame.header.stream_id);
    assert(b[16] == s[0] && b[17] == s[1] && b[18] == s[2] && b[19] == s[3]);
    assert(b.subrange(0, 16) =~= tag);
    assert(b.subrange(25, 25 + n) =~= payload);
    assert(b.subrange(25 + n, b.len() as int) =~= padding);
}

/// A frame is waited for until its head is there and as many bytes as both lengths say. It is
/// then taken with its padding, which is not kept; of an unknown type nothing is taken.
pub proof fn lemma_frame_read(b: Seq<u8>, r: Result<Option<Frame>, String>, rest: Seq<u8>)
    requires
        Frame::outcome(b, r, rest),
    ensures
        ({
            let n = b[21] * 256 + b[22];
            let end = 25 + n + b[23] * 256 + b[24];
            let whole = b.len() >= 25 && b.len() >= end;
            &&& !whole ==> r == Ok::<Option<Frame>, String>(None) && rest == b
            &&& whole && b[20] > 8 ==> (r matches Err(e) && e@ == unknown_type(b[20])) && rest == b
            &&& whole && b[20] <= 8 ==> {
                &&& r matches Ok(Some(frame)) && {
                    &&& frame.header.auth_tag@ == b.subrange(0, 16)
                    &&& frame.header.stream_id == b[16] * 0x100_0000 + b[17] * 0x1_0000 + b[18]
                        * 0x100 + b[19]
                    &&& frame.header.frame_type.wire() == b[20]
                    &&& frame.header.payload_len == n
                    &&& frame.header.padding_len == b[23] * 256 + b[24]
                    &&& bytes_view(frame.payload) == b.subrange(25, 25 + n)
                }
                &&& rest == b.subrange(end, b.len() as int)
            }
        }),
{
    lemma_frame_numbers(FrameType::Data, b[20]);
}

/// The head of a frame alone is taken as soon as its 25 bytes are there.
pub proof fn lemma_head_read(b: Seq<u8>, r: Result<Option<FrameHeader>, String>, rest: Seq<u8>)
    requires
        FrameHeader::outcome(b, r, rest),
    ensures
        b.len() < 25 ==> r == Ok::<Option<FrameHeader>, String>(None) && rest == b,
        b.len() >= 25 && b[20] > 8 ==> (r matches Err(e) && e@ == unknown_type(b[20])) && rest == b,
        b.len() >= 25 && b[20] <= 8 ==> {
            &&& r matches Ok(Some(header)) && {
                &&& header.auth_tag@ == b.subrange(0, 16)
                &&& header.stream_id == b[16] * 0x100_0000 + b[17] * 0x1_0000 + b[18] * 0x100
                    + b[19]
                &&& header.frame_type.wire() == b[20]
                &&& header.payload_len == b[21] * 256 + b[22]
                &&& header.padding_len == b[23] * 256 + b[24]
            }
            &&& rest == b.subrange(25, b.len() as int)
        },
{
    lemma_frame_numbers(FrameType::Data, b[20]);
}

/// The nonce of packet `counter`: the first four bytes of the base IV as they are, the other
/// eight with the counter folded in, most significant byte first.
pub proof fn lemma_nonce_bytes(iv: Seq<u8>, counter: u64)
    ensures
        ({
            let nonce = nonce_of(iv, counter);
            let c = be64(counter);
            &&& nonce.len() == 12
            &&& nonce[0] == iv[0] && nonce[1] == iv[1] && nonce[2] == iv[2] && nonce[3] == iv[3]
            &&& nonce[4] == iv[4] ^ c[0] && nonce[5] == iv[5] ^ c[1]
            &&& nonce[6] == iv[6] ^ c[2] && nonce[7] == iv[7] ^ c[3]
            &&& nonce[8] == iv[8] ^ c[4] && nonce[9] == iv[9] ^ c[5]
            &&& nonce[10] == iv[10] ^ c[6] && nonce[11] == iv[11] ^ c[7]
            &&& counter == c[0] * 0x100_0000_0000_0000 + c[1] * 0x1_0000_0000_0000 + c[2]
                * 0x100_0000_0000 + c[3] * 0x1_0000_0000 + c[4] * 0x100_0000 + c[5] * 0x1_0000
                + c[6] * 0x100 + c[7]
        }),
{
    lemma_bytes_by_weight(0, 0, 0, counter);
}

/// A direction encrypts each packet under the nonce of its counter, which is also what is
/// authenticated with it. The counter moves on by one, even when the packet is too long; a
/// packet that is too long stays as it was.
pub proof fn lemma_stream_seals(
    before: ChaChaStream,
    plain: Seq<u8>,
    r: Result<(), aead::Error>,
    after: ChaChaStream,
    out: Seq<u8>,
)
    requires
        ChaChaStream::encrypted(before, plain, r, after, out),
    ensures
        ({
            let nonce = nonce_of(before.iv(), before.count());
            &&& plain.len() <= 64 * 0xffff_fffe ==> r is Ok && out == aead_seal(
                before.key(),
                nonce,
                nonce,
                plain,
            ) && out.len() == plain.len() + 16
            &&& plain.len() > 64 * 0xffff_fffe ==> r is Err && out == plain
        }),
        after.key() == before.key(),
        after.iv() == before.iv(),
        after.count() == before.count() + 1,
{
}

/// A direction decrypts each packet under the nonce of its counter. Only a packet that is
/// genuine moves the counter on; one that is not stays as it was.
pub proof fn lemma_stream_opens(
    before: ChaChaStream,
    sealed: Seq<u8>,
    r: Result<(), aead::Error>,
    after: ChaChaStream,
    out: Seq<u8>,
)
    requires
        ChaChaStream::decrypted(before, sealed, r, after, out),
    ensures
        ({
            let nonce = nonce_of(before.iv(), before.count());
            match aead_open(before.key(), nonce, nonce, sealed) {
                Some(plain) => r is Ok && out == plain && after.count() == before.count() + 1,
                None => r is Err && out == sealed && after.count() == before.count(),
            }
        }),
        after.key() == before.key(),
        after.iv() == before.iv(),
{
}

/// The cipher takes what its keystream can cover, and has an answer for everything but a
/// narrow gap above.
pub proof fn lemma_cipher_limits(n: nat)
    ensures
        sealable(n) <==> n <= 64 * 0xffff_fffe,
        answerable(n) <==> n <= 64 * 0xffff_fffe || n >= 64 * 0xffff_ffff,
{
}

/// A packet of the stream travels in a record of ciphertext that poses as TLS 1.2: `17 03 03`,
/// the length, and the plaintext under the nonce of the packet.
pub proof fn lemma_packet_layout(key: Seq<u8>, iv: Seq<u8>, count: u64, plain: Seq<u8>)
    requires
        aead_seal(key, nonce_of(iv, count), nonce_of(iv, count), plain).len() <= 0xffff,
    ensures
        ({
            let nonce = nonce_of(iv, count);
            let sealed = aead_seal(key, nonce, nonce, plain);
            let wire = data_record(sealed_packet(key, iv, count as int, plain));
            &&& wire.len() == 5 + sealed.len()
            &&& wire[0] == 0x17 && wire[1] == 0x03 && wire[2] == 0x03
            &&& wire[3] * 256 + wire[4] == sealed.len()
            &&& wire.subrange(5, wire.len() as int) == sealed
        }),
{
    let nonce = nonce_of(iv, count);
    let sealed = aead_seal(key, nonce, nonce, plain);
    let wire = data_record(sealed_packet(key, iv, count as int, plain));
    assert(wire.subrange(5, wire.len() as int) =~= sealed);
}

/// Packets travel one record after the other, in order.
pub proof fn lemma_packets_in_order(sealed: Seq<Seq<u8>>)
    ensures
        sealed.len() == 0 ==> records_wire(sealed).len() == 0,
        sealed.len() > 0 ==> records_wire(sealed) == records_wire(sealed.drop_last())
            + data_record(sealed.last()),
{
}

/// The plaintext of a record are its frames one after the other, each under the same tag. Only
/// the last one is padded.
pub proof fn lemma_group_layout(tag: Seq<u8>, group: Seq<Item>, padding: Seq<u8>)
    requires
        group.len() > 0,
    ensures
        ({
            let it = group.last();
            let b = group_bytes(tag, group, padding);
            let front = plain_frames(tag, group.drop_last());
            &&& b == front + frame_bytes(tag, it.stream, it.kind, it.payload, padding)
            &&& group.len() == 1 ==> front.len() == 0
            &&& group.len() > 1 ==> {
                let other = group[group.len() - 2];
                front == plain_frames(tag, group.drop_last().drop_last()) + frame_bytes(
                    tag,
                    other.stream,
                    other.kind,
                    other.payload,
                    Seq::empty(),
                )
            }
        }),
{
    if group.len() > 1 {
        assert(group.drop_last().last() == group[group.len() - 2]);
    }
}

/// The frames of a record fit into it when they are at most 16385 bytes, 25 for each head.
pub proof fn lemma_fits(group: Seq<Item>)
    ensures
        group.len() == 0 ==> group_len(group) == 0,
        group.len() > 0 ==> group_len(group) == group_len(group.drop_last()) + 25
            + group.last().payload.len(),
        fits(group) <==> group_len(group) <= 16385,
{
}

/// The boundary behind another is 16 to 320 bytes further, or the longest record.
pub proof fn lemma_boundary_step(current: int, ratio: int, cap: int)
    requires
        0 <= current < 16401,
        50_000 <= ratio <= 250_000,
        128 <= cap <= 320,
    ensures
        ({
            let part = current * ratio / 1_000_000;
            let next = boundary_after(current, ratio, cap);
            &&& current < next <= 16401
            &&& next == 16401 || current + 16 <= next <= current + 320
            &&& part < 16 && current + 16 < 16401 ==> next == current + 16
            &&& 16 <= part <= cap && current + part < 16401 ==> next == current + part
            &&& part > cap && current + cap < 16401 ==> next == current + cap
        }),
{
}

/// The boundaries of a connection start between 64 and 256, go up in steps of 16 to 320 bytes
/// and end at the longest record. Only the last step may be shorter.
pub proof fn lemma_boundaries(boundaries: Seq<usize>, i: int)
    requires
        drawn(boundaries),
        0 <= i < boundaries.len() - 1,
    ensures
        64 <= boundaries[0] <= 256,
        boundaries.last() == 16401,
        boundaries[i] < boundaries[i + 1],
        boundaries[i + 1] - boundaries[i] <= 320,
        i + 2 < boundaries.len() ==> boundaries[i + 1] - boundaries[i] >= 16,
{
    let current = boundaries[i];
    let next = boundaries[i + 1];
    assert(current < boundaries[boundaries.len() - 1]);
    let (ratio, cap) = choose|ratio: usize, cap: usize|
        50_000 <= ratio <= 250_000 && 128 <= cap <= 320 && next == #[trigger] boundary_after(
            current as int,
            ratio as int,
            cap as int,
        );
    lemma_boundary_step(current as int, ratio as int, cap as int);
    if i + 2 < boundaries.len() {
        assert(next < boundaries[boundaries.len() - 1]);
    }
}

/// A record is as long as the first boundary that it does not exceed, tag included. Its
/// padding makes up for the difference, as far as a plaintext can be that long.
pub proof fn lemma_record_length(boundaries: Seq<usize>, plain: int) -> (i: int)
    requires
        drawn(boundaries),
        plain >= 0,
    ensures
        plain + 16 >= 16401 ==> target_len(boundaries, plain) == plain + 16,
        plain + 16 < 16401 ==> {
            &&& 0 <= i < boundaries.len()
            &&& target_len(boundaries, plain) == boundaries[i]
            &&& boundaries[i] >= plain + 16
            &&& forall|k: int| 0 <= k < i ==> boundaries[k] < plain + 16
        },
        plain <= 16385 ==> shaped_padding(boundaries, plain) == target_len(boundaries, plain)
            - plain - 16,
{
    let place = if plain + 16 < 16401 {
        lemma_ceiling_place(boundaries, plain + 16)
    } else {
        0
    };
    if plain + 16 < 16401 {
        if place < boundaries.len() - 1 {
            assert(boundaries[place] < boundaries[boundaries.len() - 1]);
        }
    }
    place
}

/// A record that fits is padded to its length; one that a single frame overfills is not padded
/// at all.
pub proof fn lemma_group_padding(boundaries: Seq<usize>, group: Seq<Item>)
    ensures
        group_len(group) <= 16385 ==> group_padding(boundaries, group) == shaped_padding(
            boundaries,
            group_len(group) as int,
        ),
        group_len(group) > 16385 ==> group_padding(boundaries, group) == 0,
{
}

/// A cover frame has stream zero, no payload and the given padding. Its record is as long as was
/// asked for, but at least 41 and at most 16401 bytes without the header.
pub proof fn lemma_cover_layout(
    before: TxCodec,
    target: usize,
    step: u64,
    padding: Seq<u8>,
    r: Result<Bytes, TlsError>,
)
    requires
        cover_record(before, target, step, padding, r),
    ensures
        r matches Ok(wire) && {
            let sealed = bytes_view(wire).subrange(5, bytes_view(wire).len() as int);
            let nonce = nonce_of(before.stream().iv(), before.stream().count());
            &&& 41 <= target <= 16401 ==> sealed.len() == target
            &&& target < 41 ==> sealed.len() == 41
            &&& target > 16401 ==> sealed.len() == 16401
            &&& bytes_view(wire)[0] == 0x17
            &&& bytes_view(wire)[1] == 0x03
            &&& bytes_view(wire)[2] == 0x03
            &&& bytes_view(wire)[3] * 256 + bytes_view(wire)[4] == sealed.len()
            &&& aead_open(before.stream().key(), nonce, nonce, sealed) matches Some(plain) && {
                &&& plain.len() == 25 + padding.len()
                &&& plain[16] == 0 && plain[17] == 0 && plain[18] == 0 && plain[19] == 0
                &&& plain[20] == 8
                &&& plain[21] == 0 && plain[22] == 0
                &&& plain.subrange(25, plain.len() as int) == padding
            }
        },
{
    let tag = frame_tag(before.auth_key(), step);
    let plain = frame_bytes(tag, 0, FrameType::Cover, Seq::empty(), padding);
    let key = before.stream().key();
    let iv = before.stream().iv();
    let count = before.stream().count();
    lemma_packet_layout(key, iv, count, plain);
    lemma_frame_layout(tag, 0, FrameType::Cover, Seq::empty(), padding);
}

/// Plaintext that waits is handed out frame by frame. As long as the first frame is not whole
/// it goes on waiting; when its type is unknown everything that waits is dropped.
pub proof fn lemma_staged_frames(staging: Seq<u8>)
    ensures
        ({
            let end = 25 + staging[21] * 256 + staging[22] + staging[23] * 256 + staging[24];
            let whole = staging.len() >= 25 && staging.len() >= end;
            &&& !whole ==> staged(staging) is None
            &&& whole && staging[20] > 8 ==> (staged(staging) matches Some((event, left)) && event
                is BadFrame && left.len() == 0)
            &&& whole && staging[20] <= 8 ==> (staged(staging) matches Some((event, left)) && event
                == Decoded::Front(staging) && left == staging.subrange(end, staging.len() as int))
        }),
{
    lemma_frame_numbers(FrameType::Data, staging[20]);
}

/// A record is opened under the nonce of its counter. A genuine one moves the counter on, and
/// its plaintext goes behind what waits; then the first frame that is whole is handed out, or
/// the next record is opened. One that is not genuine drops what waits, and the counter stays.
pub proof fn lemma_record_opened(key: Seq<u8>, iv: Seq<u8>, s: Received)
    requires
        data_step(s.buffer) is Data,
    ensures
        ({
            let payload = data_step(s.buffer)->payload;
            let rest = data_step(s.buffer)->Data_rest;
            let nonce = nonce_of(iv, s.count as u64);
            let (event, left) = opened(key, iv, s);
            match aead_open(key, nonce, nonce, payload) {
                None => {
                    &&& event is BadCipher
                    &&& left.count == s.count
                    &&& left.staging.len() == 0
                    &&& left.buffer == rest
                },
                Some(plain) => {
                    let next = Received {
                        count: s.count + 1,
                        staging: s.staging + plain,
                        buffer: rest,
                    };
                    match staged(s.staging + plain) {
                        Some((found, behind)) => event == found && left == (Received {
                            staging: behind,
                            ..next
                        }),
                        None => (event, left) == opened(key, iv, next),
                    }
                },
            }
        }),
{
    let b = s.buffer;
    assert(data_step(b)->Data_rest.len() < b.len());
}

/// Without a whole record nothing is opened. A record that is not ciphertext is taken off the
/// buffer and reported, and leaves the counter and what waits alone.
pub proof fn lemma_record_not_opened(key: Seq<u8>, iv: Seq<u8>, s: Received)
    ensures
        ({
            let (event, left) = opened(key, iv, s);
            match data_step(s.buffer) {
                DataStep::Wait => event is Idle && left == s,
                DataStep::Foreign { rest, .. } => event == Decoded::BadRecord(s.buffer)
                    && left.count == s.count && left.staging == s.staging && left.buffer == rest,
                DataStep::Unexpected { rest, .. } => event == Decoded::BadRecord(s.buffer)
                    && left.count == s.count && left.staging == s.staging && left.buffer == rest,
                DataStep::Data { .. } => true,
            }
        }),
        staged(s.staging) is None ==> decoded(key, iv, s) == opened(key, iv, s),
        staged(s.staging) matches Some((found, behind)) ==> decoded(key, iv, s) == (
            found,
            Received { staging: behind, ..s },
        ),
{
}

/// How decoding is reported: a foreign record asks to be relayed, everything else that does
/// not fit drops the connection.
pub proof fn lemma_decoding_reported(event: Decoded, r: Result<Option<Frame>, TlsError>)
    requires
        reports(event, r),
    ensures
        event is Idle ==> r == Ok::<Option<Frame>, TlsError>(None),
        event matches Decoded::Front(b) ==> (r matches Ok(Some(frame)) && {
            &&& frame.header.auth_tag@ == b.subrange(0, 16)
            &&& frame.header.stream_id == b[16] * 0x100_0000 + b[17] * 0x1_0000 + b[18] * 0x100
                + b[19]
            &&& frame.header.frame_type.wire() == b[20]
            &&& bytes_view(frame.payload) == b.subrange(25, 25 + b[21] * 256 + b[22])
        }),
        event is BadCipher ==> (r matches Err(e) && e.stage == ErrorStage::Tls(
            "AEAD Decrypt Failed",
        ) && e.action == ErrorAction::Drop),
        event is BadFrame ==> (r matches Err(e) && e.stage == ErrorStage::Tls("Frame parse error")
            && e.action == ErrorAction::Drop),
        event matches Decoded::BadRecord(b) ==> match data_step(b) {
            DataStep::Foreign { .. } => r matches Err(e) && e.action == ErrorAction::Redirect,
            DataStep::Unexpected { record, .. } => r matches Err(e) && e.action
                == ErrorAction::Drop && bytes_view(e.data) == record,
            _ => true,
        },
{
    if let Decoded::Front(b) = event {
        lemma_frame_numbers(FrameType::Data, b[20]);
    }
}

/// A datagram holds one frame, with a tag of zeros and no padding, under the keys of the epoch
/// and the nonce of its counter, and binds what is authenticated with it.
pub proof fn lemma_datagram_layout(
    epoch: EpochView,
    counter: u64,
    aad: Seq<u8>,
    stream_id: u32,
    kind: FrameType,
    payload: Seq<u8>,
    ciphertext: Seq<u8>,
)
    requires
        sealed_under(epoch, counter, aad, datagram_frame(stream_id, kind, payload), ciphertext),
    ensures
        ({
            let plain = datagram_frame(stream_id, kind, payload);
            let nonce = nonce_of(epoch.salt, counter);
            &&& ciphertext == aead_seal(epoch.key, nonce, aad, plain)
            &&& aead_open(epoch.key, nonce, aad, ciphertext) == Some(plain)
            &&& ciphertext.len() == 41 + payload.len()
            &&& plain.len() == 25 + payload.len()
            &&& forall|i: int| 0 <= i < 16 ==> #[trigger] plain[i] == 0
            &&& plain[16] * 0x100_0000 + plain[17] * 0x1_0000 + plain[18] * 0x100 + plain[19]
                == stream_id
            &&& plain[20] == kind.wire()
            &&& plain[21] * 256 + plain[22] == payload.len() % 65536
            &&& plain[23] == 0 && plain[24] == 0
            &&& plain.subrange(25, plain.len() as int) == payload
        }),
{
    let none = zeros(16);
    let plain = datagram_frame(stream_id, kind, payload);
    lemma_frame_layout(none, stream_id, kind, payload, Seq::empty());
    assert forall|i: int| 0 <= i < 16 implies #[trigger] plain[i] == 0 by {
        assert(plain[i] == plain.subrange(0, 16)[i]);
    }
    assert(plain.subrange(25, plain.len() as int) =~= payload);
}

/// A sender counts its datagrams from zero. After 16384 of them it goes on to the next epoch,
/// where it starts at zero again.
pub proof fn lemma_sender_steps(tx: SenderView)
    ensures
        tx.counter < 16384 ==> {
            &&& tx.ready() == tx
            &&& tx.sealed().counter == tx.counter + 1
            &&& tx.sealed().keys == tx.keys
        },
        tx.counter >= 16384 ==> {
            &&& tx.ready().counter == 0
            &&& tx.ready().keys.tx == tx.keys.tx.next()
            &&& tx.sealed().counter == 1
            &&& tx.sealed().keys.tx == tx.keys.tx.next()
        },
        tx.sealed().keys.rx == tx.keys.rx,
        tx.sealed().keys.leg_token == tx.keys.leg_token,
        tx.rekeyed().counter == 0,
        tx.rekeyed().keys.tx == tx.keys.tx.next(),
{
}

/// What a datagram comes to in an epoch: it is decrypted under the keys of the epoch, the
/// nonce of its full counter and what is authenticated with it, and only let through when its
/// counter is new.
pub proof fn lemma_slot_opens(slot: SlotView, d: Datagram)
    ensures
        ({
            let full = slot.counter_of(d);
            let nonce = nonce_of(slot.epoch.salt, full as u64);
            &&& full > u64::MAX ==> slot.decrypted(d) is None
            &&& full <= u64::MAX ==> slot.decrypted(d) == aead_open(
                slot.epoch.key,
                nonce,
                d.aad,
                d.ciphertext,
            )
            &&& slot.window.accepts(full as u64) ==> slot.plaintext(d) == slot.decrypted(d)
            &&& !slot.window.accepts(full as u64) ==> slot.plaintext(d) is None
            &&& slot.passed(d).epoch == slot.epoch
            &&& slot.passed(d).window == slot.window.tried(full as u64)
        }),
{
}

/// Which counters come through: every one above the highest, and every one at most 1023 below
/// it that has not come through yet. The window then remembers the counter, forgets what is
/// 1024 or more below the highest, and forgets nothing else.
pub proof fn lemma_window_steps(w: WindowView, counter: u64, other: int)
    requires
        w.wf(),
    ensures
        !w.started ==> w.accepts(counter),
        w.started && counter > w.highest ==> w.accepts(counter),
        w.started && counter <= w.highest && w.highest - counter >= 1024 ==> !w.accepts(counter),
        w.started && counter <= w.highest && w.highest - counter < 1024 ==> (w.accepts(counter)
            <==> !w.seen.contains(counter as int)),
        !w.accepts(counter) ==> w.tried(counter) == w,
        w.accepts(counter) ==> {
            let after = w.tried(counter);
            &&& after.started
            &&& after.highest == (if w.started && w.highest > counter {
                w.highest
            } else {
                counter
            })
            &&& after.seen.contains(counter as int)
            &&& other != counter ==> (after.seen.contains(other) <==> w.seen.contains(other)
                && after.highest - other < 1024)
        },
{
}

/// A datagram of the current epoch is tried by its keys, and remembered there when it comes
/// through. What is dropped changes nothing.
pub proof fn lemma_current_epoch(rx: ReceiverView, d: Datagram)
    requires
        d.epoch_id == rx.current.epoch.epoch_id,
    ensures
        match rx.current.plaintext(d) {
            Some(plain) => {
                &&& rx.opened(d).0 == Opened::Plain(plain)
                &&& rx.opened(d).1.current == rx.current.passed(d)
                &&& rx.opened(d).1.previous == rx.previous
                &&& rx.opened(d).1.keys == rx.keys
            },
            None => rx.opened(d).0 is Drop && rx.opened(d).1 == rx,
        },
{
}

/// A datagram of the epoch before the current one is tried by its keys as long as those are
/// kept, and remembered there.
pub proof fn lemma_previous_epoch(rx: ReceiverView, d: Datagram)
    requires
        d.epoch_id != rx.current.epoch.epoch_id,
        rx.previous matches Some(slot) && d.epoch_id == slot.epoch.epoch_id,
    ensures
        match rx.previous->0.plaintext(d) {
            Some(plain) => {
                &&& rx.opened(d).0 == Opened::Plain(plain)
                &&& rx.opened(d).1.previous == Some(rx.previous->0.passed(d))
                &&& rx.opened(d).1.current == rx.current
                &&& rx.opened(d).1.keys == rx.keys
            },
            None => rx.opened(d).0 is Drop && rx.opened(d).1 == rx,
        },
{
}

/// A datagram of the epoch after the current one is tried by the keys one step along the chain,
/// with a window that has seen nothing. Only when it comes through is that epoch the current
/// one, and the current one the one before it.
pub proof fn lemma_next_epoch(rx: ReceiverView, d: Datagram, ahead: SlotView)
    requires
        d.epoch_id == (rx.current.epoch.epoch_id + 1) % 256,
        !(rx.previous matches Some(slot) && d.epoch_id == slot.epoch.epoch_id),
        ahead.epoch == rx.keys.rx.next().current(),
        !ahead.window.started,
        ahead.window.highest == 0,
        ahead.window.seen == Set::<int>::empty(),
    ensures
        match ahead.plaintext(d) {
            Some(plain) => {
                &&& rx.opened(d).0 == Opened::Plain(plain)
                &&& rx.opened(d).1.current == ahead.passed(d)
                &&& rx.opened(d).1.previous == Some(rx.current)
                &&& rx.opened(d).1.keys.rx == rx.keys.rx.next()
                &&& rx.opened(d).1.keys.tx == rx.keys.tx
            },
            None => rx.opened(d).0 is Drop && rx.opened(d).1 == rx,
        },
{
    assert(ahead == rx.candidate());
    assert(d.epoch_id != rx.current.epoch.epoch_id);
}

/// A datagram of any other epoch is dropped without a try.
pub proof fn lemma_other_epoch(rx: ReceiverView, d: Datagram)
    requires
        d.epoch_id != rx.current.epoch.epoch_id,
        d.epoch_id != (rx.current.epoch.epoch_id + 1) % 256,
        !(rx.previous matches Some(slot) && d.epoch_id == slot.epoch.epoch_id),
    ensures
        rx.opened(d).0 is Drop,
        rx.opened(d).1 == rx,
{
}

/// What sending frames puts on the wire: a record for each group of the packing, in order, each
/// the group's plaintext under the nonce of its count, padded with random bytes. Then as many
/// packets more are counted, and nothing else changed.
pub proof fn lemma_batch_records(
    before: TxCodec,
    items: Seq<Item>,
    tag: Seq<u8>,
    wire: Seq<u8>,
    after: TxCodec,
)
    requires
        batch_sent(before, items, tag, wire, after),
        batch_drawn(before, items, tag, wire),
    ensures
        exists|paddings: Seq<Seq<u8>>, sealed: Seq<Seq<u8>>|
            {
                let groups = pack(items);
                let key = before.stream().key();
                let iv = before.stream().iv();
                &&& wire == #[trigger] records_wire(sealed)
                &&& sealed.len() == groups.len()
                &&& #[trigger] paddings.len() == groups.len()
                &&& forall|i: int|
                    0 <= i < groups.len() ==> #[trigger] sealed[i] == aead_seal(
                        key,
                        nonce_of(iv, (before.stream().count() + i) as u64),
                        nonce_of(iv, (before.stream().count() + i) as u64),
                        group_bytes(tag, groups[i], paddings[i]),
                    )
                &&& forall|i: int|
                    0 <= i < groups.len() ==> (#[trigger] paddings[i]).len() == group_padding(
                        before.limits(),
                        groups[i],
                    ) && (paddings[i].len() > 0 ==> from_thread(paddings[i]))
            },
        after.stream().count() == before.stream().count() + pack(items).len(),
        after.stream().key() == before.stream().key(),
        after.stream().iv() == before.stream().iv(),
        after.auth_key() == before.auth_key(),
        after.limits() == before.limits(),
        items.len() > 0 ==> tag.len() == 16,
{
    let groups = pack(items);
    let key = before.stream().key();
    let iv = before.stream().iv();
    let count = before.stream().count() as int;
    let paddings = choose|paddings: Seq<Seq<u8>>| #[trigger]
        encoded(key, iv, count, tag, before.limits(), groups, paddings, wire) && random_paddings(
            paddings,
        );
    let sealed = sealed_groups(key, iv, count, tag, groups, paddings);
    assert(wire == records_wire(sealed));
    assert(paddings.len() == groups.len());
    assert forall|i: int| 0 <= i < groups.len() implies #[trigger] sealed[i] == aead_seal(
        key,
        nonce_of(iv, (before.stream().count() + i) as u64),
        nonce_of(iv, (before.stream().count() + i) as u64),
        group_bytes(tag, groups[i], paddings[i]),
    ) by {}
}

/// When frames cannot be sent, nothing is, and the connection is dropped. The counter is behind
/// the first record that the cipher refuses.
pub proof fn lemma_batch_refused(
    before: TxCodec,
    items: Seq<Item>,
    tag: Seq<u8>,
    e: TlsError,
    after: TxCodec,
)
    requires
        batch_outcome(before, items, tag, Err(e), after),
    ensures
        e.stage == ErrorStage::Tls("Encryption failed"),
        e.action == ErrorAction::Drop,
        bytes_view(e.data).len() == 0,
        before.stream().count() < after.stream().count() <= before.stream().count()
            + pack(items).len(),
        after.stream().key() == before.stream().key(),
        after.stream().iv() == before.stream().iv(),
{
    let k = choose|k: int| #[trigger] refused_at(before, items, after, k);
    assert(refused_at(before, items, after, k));
}

/// What is reported of a frame of an unknown type: the byte in hexadecimal.
pub proof fn lemma_unknown_type(b: u8)
    ensures
        unknown_type(b) == "Unknown FrameType byte: 0x"@ + hex_byte(b),
{
}

} // verus!
