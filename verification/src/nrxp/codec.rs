//! The stream codec: frames to encrypted records and back.
//!
//! The two directions are independent. [`TxCodec`] packs frames into as few records as hold
//! them and encrypts each record once. [`RxCodec`] decrypts records one by one and hands out
//! the frames in them one by one; what it has not handed out yet waits in a buffer. A frame
//! never lies across two records, but a record can hold many.

use bytes::{BufMut, Bytes, BytesMut};
use vstd::prelude::*;

use crate::bridge::{data_step, DataStep, TlsBridge};
use crate::buffers::{buf_slice, buf_view, bytes_slice, bytes_view};
use crate::crypto::aead_packer::AeadPacker;
use crate::crypto::auth::{frame_tag, step_of, SessionAuth};
use crate::crypto::clock::now_unix_secs;
use crate::crypto::chacha::{nonce_of, ChaChaCipher, ChaChaStream};
use crate::crypto::primitives::{
    aead_open, aead_seal, answerable, sealable, sealed_as, TAG_LEN,
};
use crate::entropy::from_thread;
use crate::errors::{ErrorAction, ErrorStage, TlsError};
use crate::nrxp::batch::{
    fits, group_bytes, group_len, group_padding, item_len, item_of, items_of,
    lemma_flatten_holds, lemma_flatten_place, lemma_group_bytes_len, lemma_group_len_at,
    lemma_group_len_front, lemma_group_len_push, lemma_pack_is_packing, lemma_pack_len,
    lemma_pack_prefix, pack, plain_frames, Item, Outgoing,
};
use crate::nrxp::frame::{
    frame_bytes, frame_end, written_frame, Frame, FrameType, MAX_RECORD_PLAINTEXT,
};
use crate::nrxp::shaper::{drawn, drawn_here, lemma_target_bounds, PadShaper, MAX_RECORD_LEN};
use crate::parser::Parser;
use crate::tlseng::tls_record::{record_bytes, ApplicationData};
use crate::tlseng::types::{ContentType, ProtocolVersion};

verus! {

/// The length of a record that holds one frame with neither payload nor padding.
pub const EMPTY_COVER_RECORD: usize = 41;

/// The record of a ciphertext.
pub open spec fn data_record(sealed: Seq<u8>) -> Seq<u8> {
    record_bytes(ContentType::ApplicationData, ProtocolVersion::Tls12, sealed)
}

/// Records of ciphertexts, one after the other.
pub open spec fn records_wire(sealed: Seq<Seq<u8>>) -> Seq<u8>
    decreases sealed.len(),
{
    if sealed.len() == 0 {
        Seq::empty()
    } else {
        records_wire(sealed.drop_last()) + data_record(sealed.last())
    }
}

/// A plaintext under the nonce of packet `count`.
pub open spec fn sealed_packet(key: Seq<u8>, iv: Seq<u8>, count: int, plain: Seq<u8>) -> Seq<u8> {
    let nonce = nonce_of(iv, count as u64);
    aead_seal(key, nonce, nonce, plain)
}

/// Whether the packet of a plaintext opens to it again.
pub open spec fn packet_opens(key: Seq<u8>, iv: Seq<u8>, count: int, plain: Seq<u8>) -> bool {
    let nonce = nonce_of(iv, count as u64);
    sealed_as(key, nonce, nonce, plain, sealed_packet(key, iv, count, plain))
}

/// The plaintext length of a record.
pub open spec fn plain_len(boundaries: Seq<usize>, group: Seq<Item>) -> nat {
    (group_len(group) + group_padding(boundaries, group)) as nat
}

/// The ciphertexts of records, counted from `count`.
pub open spec fn sealed_groups(
    key: Seq<u8>,
    iv: Seq<u8>,
    count: int,
    tag: Seq<u8>,
    groups: Seq<Seq<Item>>,
    paddings: Seq<Seq<u8>>,
) -> Seq<Seq<u8>> {
    Seq::new(
        groups.len(),
        |i: int| sealed_packet(key, iv, count + i, group_bytes(tag, groups[i], paddings[i])),
    )
}

/// Whether `wire` are the records of groups: each padded to its length with some bytes,
/// sealed under the next nonce, and one that opens to its plaintext again.
pub open spec fn encoded(
    key: Seq<u8>,
    iv: Seq<u8>,
    count: int,
    tag: Seq<u8>,
    boundaries: Seq<usize>,
    groups: Seq<Seq<Item>>,
    paddings: Seq<Seq<u8>>,
    wire: Seq<u8>,
) -> bool {
    &&& paddings.len() == groups.len()
    &&& forall|i: int|
        0 <= i < groups.len() ==> (#[trigger] paddings[i]).len() == group_padding(
            boundaries,
            groups[i],
        ) && packet_opens(key, iv, count + i, group_bytes(tag, groups[i], paddings[i]))
    &&& wire == records_wire(sealed_groups(key, iv, count, tag, groups, paddings))
}

/// Whether every padding was drawn, as far as there is any.
pub open spec fn random_paddings(paddings: Seq<Seq<u8>>) -> bool {
    forall|i: int|
        0 <= i < paddings.len() && (#[trigger] paddings[i]).len() > 0 ==> from_thread(paddings[i])
}

/// Whether the cipher has an answer for each frame on its own.
pub open spec fn all_answerable(items: Seq<Item>) -> bool {
    forall|i: int| 0 <= i < items.len() ==> answerable(item_len(#[trigger] items[i]))
}

/// Whether each frame on its own is short enough for the cipher.
pub open spec fn all_sealable(items: Seq<Item>) -> bool {
    forall|i: int| 0 <= i < items.len() ==> sealable(item_len(#[trigger] items[i]))
}

/// When each frame is short enough for the cipher, so is each record, and the other way
/// round.
pub proof fn lemma_records_sealable(limits: Seq<usize>, items: Seq<Item>)
    requires
        drawn(limits),
    ensures
        all_sealable(items) <==> forall|j: int|
            0 <= j < pack(items).len() ==> sealable(plain_len(limits, #[trigger] pack(items)[j])),
{
    let groups = pack(items);
    lemma_pack_is_packing(items);
    if all_sealable(items) {
        assert forall|j: int| 0 <= j < groups.len() implies sealable(
            plain_len(limits, #[trigger] groups[j]),
        ) by {
            let group = groups[j];
            lemma_target_bounds(limits, group_len(group) as int);
            if !fits(group) {
                let place = lemma_flatten_holds(groups, j, 0);
                assert(sealable(item_len(items[place])));
                lemma_group_len_push(Seq::empty(), group[0]);
                assert(group =~= seq![group[0]]);
            }
        }
    } else {
        let i = choose|i: int| 0 <= i < items.len() && !sealable(item_len(#[trigger] items[i]));
        let (j, k) = lemma_flatten_place(groups, i);
        lemma_group_len_at(groups[j], k);
        lemma_target_bounds(limits, group_len(groups[j]) as int);
        assert(!sealable(plain_len(limits, groups[j])));
    }
}

/// The sending direction.
pub struct TxCodec {
    crypto: ChaChaStream,
    auth: SessionAuth,
    shaper: PadShaper,
}

/// The error for a plaintext that the cipher refuses.
pub open spec fn encryption_failed(e: TlsError) -> bool {
    e.is_error(ErrorStage::Tls("Encryption failed"), ErrorAction::Drop, Seq::empty())
}

impl TxCodec {
    /// The cipher's direction.
    pub closed spec fn stream(self) -> ChaChaStream {
        self.crypto
    }

    /// The key of the tags.
    pub closed spec fn auth_key(self) -> Seq<u8> {
        self.auth.key()
    }

    /// The boundaries of this connection's record lengths.
    pub closed spec fn limits(self) -> Seq<usize> {
        self.shaper.limits()
    }

    /// Whether the boundaries are some that a connection can draw.
    pub open spec fn wf(self) -> bool {
        drawn(self.limits())
    }

    /// Whether this is `before` with `n` more packets sent.
    pub open spec fn advanced(self, before: Self, n: int) -> bool {
        &&& self.stream().same_keys(before.stream())
        &&& self.stream().count() == before.stream().count() + n
        &&& self.auth_key() == before.auth_key()
        &&& self.limits() == before.limits()
    }

    /// A direction with fresh boundaries.
    pub fn new(crypto: ChaChaStream, auth: SessionAuth) -> (r: Self)
        ensures
            r.wf(),
            drawn_here(r.limits()),
            r.stream() == crypto,
            r.auth_key() == auth.key(),
    {
        Self { crypto, auth, shaper: PadShaper::new() }
    }

    /// Encodes one frame.
    pub fn encode_frame(&mut self, stream_id: u32, frame_type: FrameType, payload: Bytes) -> (r:
        Result<Bytes, TlsError>)
        requires
            old(self).wf(),
            old(self).stream().count() < u64::MAX,
            bytes_view(payload).len() + 16431 <= isize::MAX,
            answerable(25 + bytes_view(payload).len()),
        ensures
            final(self).wf(),
            final(self).stream().count() == old(self).stream().count() + 1,
            r is Ok <==> sealable(25 + bytes_view(payload).len()),
            exists|now: u64|
                call_ensures(now_unix_secs, (), now) && #[trigger] batch_outcome(
                    *old(self),
                    seq![
                        Item {
                            stream: stream_id,
                            kind: frame_type,
                            payload: bytes_view(payload),
                        },
                    ],
                    frame_tag(old(self).auth_key(), step_of(now)),
                    r,
                    *final(self),
                ) && (r matches Ok(wire) ==> batch_drawn(
                    *old(self),
                    seq![
                        Item {
                            stream: stream_id,
                            kind: frame_type,
                            payload: bytes_view(payload),
                        },
                    ],
                    frame_tag(old(self).auth_key(), step_of(now)),
                    bytes_view(wire),
                )),
    {
        let mut items: Vec<Outgoing> = Vec::new();
        items.push((stream_id, frame_type, payload));
        proof {
            let it = Item { stream: stream_id, kind: frame_type, payload: bytes_view(payload) };
            assert(items_of(items@) =~= seq![it]);
            lemma_group_len_push(Seq::empty(), it);
            assert(items_of(items@)[0] == it);
            assert(seq![it].drop_last() =~= Seq::empty());
            assert(pack(Seq::<Item>::empty()).len() == 0);
            assert(pack(seq![it]).len() == 1);
        }
        self.encode_batch(items)
    }

    /// Encodes frames into as few records as hold them, in order. Padding, tag and header
    /// of a record take up to 16406 bytes beside its frames.
    pub fn encode_batch(&mut self, items: Vec<Outgoing>) -> (r: Result<Bytes, TlsError>)
        requires
            old(self).wf(),
            old(self).stream().count() + items@.len() <= u64::MAX,
            group_len(items_of(items@)) + items@.len() * 16406 <= isize::MAX,
            all_answerable(items_of(items@)),
        ensures
            final(self).wf(),
            final(self).stream().count() <= old(self).stream().count() + items@.len(),
            r is Ok <==> all_sealable(items_of(items@)),
            exists|now: u64|
                (items@.len() > 0 ==> call_ensures(now_unix_secs, (), now))
                    && #[trigger] batch_outcome(
                    *old(self),
                    items_of(items@),
                    frame_tag(old(self).auth_key(), step_of(now)),
                    r,
                    *final(self),
                ) && (r matches Ok(wire) ==> batch_drawn(
                    *old(self),
                    items_of(items@),
                    frame_tag(old(self).auth_key(), step_of(now)),
                    bytes_view(wire),
                )),
    {
        let ghost start = *self;
        if items.len() == 0 {
            let none: Bytes = Bytes::new();
            proof {
                let tag = frame_tag(start.auth_key(), step_of(0));
                lemma_sent_none(start, tag);
                lemma_outcome(start, *self, tag, items_of(items@), none);
            }
            return Ok(none);
        }
        let tag: [u8; 16] = self.auth.generate_current_tag();
        let ghost now: u64 = choose|now: u64|
            call_ensures(now_unix_secs, (), now) && tag@ == #[trigger] frame_tag(
                self.auth.key(),
                step_of(now),
            );
        let r: Result<Bytes, TlsError> = self.encode_tagged(&items, &tag);
        assert(batch_outcome(
            start,
            items_of(items@),
            frame_tag(start.auth_key(), step_of(now)),
            r,
            *self,
        ));
        r
    }

    /// Encodes frames under a given tag.
    pub fn encode_tagged(&mut self, items: &Vec<Outgoing>, tag: &[u8; 16]) -> (r: Result<
        Bytes,
        TlsError,
    >)
        requires
            old(self).wf(),
            old(self).stream().count() + items@.len() <= u64::MAX,
            group_len(items_of(items@)) + items@.len() * 16406 <= isize::MAX,
            all_answerable(items_of(items@)),
        ensures
            final(self).wf(),
            final(self).stream().count() <= old(self).stream().count() + items@.len(),
            r is Ok <==> all_sealable(items_of(items@)),
            batch_outcome(*old(self), items_of(items@), tag@, r, *final(self)),
            r matches Ok(wire) ==> batch_drawn(
                *old(self),
                items_of(items@),
                tag@,
                bytes_view(wire),
            ),
    {
        let ghost start = *self;
        let ghost all = items_of(items@);
        let ghost mut groups: Seq<Seq<Item>> = Seq::empty();
        let mut out: BytesMut = BytesMut::new();
        let mut batch: Vec<Outgoing> = Vec::new();
        let mut batch_len: usize = 0;
        let mut i: usize = 0;
        proof {
            assert(all.subrange(0, 0) =~= Seq::empty());
            assert(items_of(batch@) =~= Seq::empty());
            lemma_sent_none(start, tag@);
            reveal(packed);
        }
        while i < items.len()
            invariant
                i <= items@.len(),
                all == items_of(items@),
                start == *old(self),
                self.wf(),
                self.limits() == start.limits(),
                self.stream().count() == start.stream().count() + groups.len(),
                start.stream().count() + items@.len() <= u64::MAX,
                group_len(all) + items@.len() * 16406 <= isize::MAX,
                all_answerable(all),
                groups.len() + batch@.len() <= i,
                group_len(items_of(batch@)) == batch_len,
                batch_len <= MAX_RECORD_PLAINTEXT,
                packed(all.subrange(0, i as int), groups, items_of(batch@)),
                sent(start, *self, tag@, groups, buf_view(out)),
                buf_view(out).len() + batch_len <= group_len(all.subrange(0, i as int))
                    + groups.len() * 16406,
            decreases items@.len() - i,
        {
            let ghost seen = all.subrange(0, i as int);
            let ghost it = all[i as int];
            proof {
                assert(all.subrange(0, i + 1) =~= seen.push(it));
                lemma_group_len_push(seen, it);
                lemma_group_len_front(all, i + 1);
                lemma_capacity(group_len(all), items@.len(), groups.len() as int + 1);
                if batch@.len() > 0 {
                    lemma_capacity(group_len(all), items@.len(), groups.len() as int + 2);
                }
            }
            let item: Outgoing = (items[i].0, items[i].1, items[i].2.clone());
            assert(item_of(item) == it);
            match self.encode_item(
                tag,
                item,
                &mut batch,
                &mut batch_len,
                &mut out,
                Ghost(start),
                Ghost(seen),
                Ghost(groups),
            ) {
                Ok(next) => {
                    proof {
                        groups = next@;
                    }
                },
                Err(e) => {
                    proof {
                        let more = choose|more: Seq<Seq<Item>>|
                            packed(seen.push(it), more.push(seq![it]), Seq::empty()) && #[trigger]
                            stopped(start, *self, more, seq![it]);
                        lemma_sent_refused(start, *self, all, i as int, more);
                    }
                    return Err(e);
                },
            }
            i = i + 1;
        }
        assert(all.subrange(0, all.len() as int) =~= all);
        if batch.len() > 0 {
            proof {
                lemma_capacity(group_len(all), items@.len(), groups.len() as int + 1);
            }
            match self.flush_shaped(
                tag,
                &batch,
                batch_len,
                &mut out,
                Ghost(start),
                Ghost(groups),
            ) {
                Ok(()) => {},
                Err(e) => {
                    return Err(e);
                },
            }
            proof {
                groups = groups.push(items_of(batch@));
            }
        }
        let wire: Bytes = out.freeze();
        proof {
            reveal(packed);
            lemma_outcome(start, *self, tag@, all, wire);
        }
        Ok(wire)
    }

    /// Takes one more frame: it joins the frames that wait, or those are sent first. A frame
    /// that overfills a record is sent on its own.
    fn encode_item(
        &mut self,
        tag: &[u8; 16],
        item: Outgoing,
        batch: &mut Vec<Outgoing>,
        batch_len: &mut usize,
        out: &mut BytesMut,
        Ghost(start): Ghost<Self>,
        Ghost(seen): Ghost<Seq<Item>>,
        Ghost(groups): Ghost<Seq<Seq<Item>>>,
    ) -> (r: Result<Ghost<Seq<Seq<Item>>>, TlsError>)
        requires
            old(self).wf(),
            old(self).limits() == start.limits(),
            old(self).stream().count() == start.stream().count() + groups.len(),
            old(self).stream().count() + old(batch)@.len() < u64::MAX,
            group_len(items_of(old(batch)@)) == *old(batch_len),
            *old(batch_len) <= MAX_RECORD_PLAINTEXT,
            packed(seen, groups, items_of(old(batch)@)),
            sent(start, *old(self), tag@, groups, buf_view(*old(out))),
            answerable(item_len(item_of(item))),
            buf_view(*old(out)).len() + *old(batch_len) + item_len(item_of(item)) + 16406
                <= isize::MAX,
            old(batch)@.len() > 0 ==> buf_view(*old(out)).len() + *old(batch_len) + item_len(
                item_of(item),
            ) + 2 * 16406 <= isize::MAX,
        ensures
            final(self).wf(),
            final(self).limits() == start.limits(),
            match r {
                Ok(more) => {
                    &&& final(self).stream().count() == start.stream().count() + more@.len()
                    &&& more@.len() + final(batch)@.len() <= groups.len() + old(batch)@.len() + 1
                    &&& groups.len() <= more@.len()
                    &&& group_len(items_of(final(batch)@)) == *final(batch_len)
                    &&& *final(batch_len) <= MAX_RECORD_PLAINTEXT
                    &&& packed(seen.push(item_of(item)), more@, items_of(final(batch)@))
                    &&& sent(start, *final(self), tag@, more@, buf_view(*final(out)))
                    &&& buf_view(*final(out)).len() + *final(batch_len) <= buf_view(*old(out)).len()
                        + *old(batch_len) + item_len(item_of(item)) + (more@.len() - groups.len())
                        * 16406
                },
                Err(e) => {
                    &&& encryption_failed(e)
                    &&& !fits(seq![item_of(item)])
                    &&& exists|more: Seq<Seq<Item>>|
                        packed(seen.push(item_of(item)), more.push(seq![item_of(item)]), Seq::empty())
                            && #[trigger] stopped(
                            start,
                            *final(self),
                            more,
                            seq![item_of(item)],
                        )
                },
            },
    {
        let ghost it = item_of(item);
        let ghost held = items_of(batch@);
        let ghost mut more: Seq<Seq<Item>> = groups;
        proof {
            lemma_packed_step(seen, groups, held, it);
            lemma_group_len_push(held, it);
        }
        let need: usize = Frame::wire_len(item.2.len(), 0);
        if batch.len() > 0 && (need > MAX_RECORD_PLAINTEXT || *batch_len + need
            > MAX_RECORD_PLAINTEXT) {
            match self.flush_shaped(tag, batch, *batch_len, out, Ghost(start), Ghost(groups)) {
                Ok(()) => {},
                Err(e) => {
                    return Err(e);
                },
            }
            proof {
                more = groups.push(held);
            }
            *batch = Vec::new();
            *batch_len = 0;
            assert(items_of(batch@) =~= Seq::empty());
        }
        if need > MAX_RECORD_PLAINTEXT {
            let mut single: Vec<Outgoing> = Vec::new();
            single.push(item);
            assert(items_of(single@) =~= seq![it]);
            assert(batch@.len() == 0);
            assert(items_of(batch@) =~= Seq::empty());
            match self.flush_single(tag, &single, out, Ghost(start), Ghost(more)) {
                Ok(()) => {},
                Err(e) => {
                    return Err(e);
                },
            }
            proof {
                more = more.push(seq![it]);
            }
        } else {
            let ghost kept = items_of(batch@);
            *batch_len = *batch_len + need;
            batch.push(item);
            proof {
                assert(items_of(batch@) =~= kept.push(it));
                lemma_group_len_push(kept, it);
                if kept.len() == 0 {
                    assert(kept.push(it) =~= seq![it]);
                }
            }
        }
        Ok(Ghost(more))
    }

    /// Encodes one frame of nothing but padding, in a record of exactly the given length, as
    /// far as records of that length exist.
    pub fn encode_cover(&mut self, target_record_len: usize) -> (r: Result<Bytes, TlsError>)
        requires
            old(self).stream().count() < u64::MAX,
        ensures
            final(self).advanced(*old(self), 1),
            exists|now: u64, padding: Seq<u8>|
                call_ensures(now_unix_secs, (), now) && (padding.len() > 0 ==> from_thread(padding))
                    && #[trigger] cover_record(
                    *old(self),
                    target_record_len,
                    step_of(now),
                    padding,
                    r,
                ),
    {
        let target: usize = if target_record_len < EMPTY_COVER_RECORD {
            EMPTY_COVER_RECORD
        } else if target_record_len > MAX_RECORD_LEN {
            MAX_RECORD_LEN
        } else {
            target_record_len
        };
        let pad: usize = target - EMPTY_COVER_RECORD;
        let tag: [u8; 16] = self.auth.generate_current_tag();
        let ghost now: u64 = choose|now: u64|
            call_ensures(now_unix_secs, (), now) && tag@ == #[trigger] frame_tag(
                self.auth.key(),
                step_of(now),
            );
        let ghost before = *self;
        let mut out: BytesMut = BytesMut::new();
        let mut frames: Vec<Outgoing> = Vec::new();
        frames.push((0, FrameType::Cover, Bytes::new()));
        let ghost it = Item { stream: 0, kind: FrameType::Cover, payload: Seq::empty() };
        proof {
            assert(items_of(frames@) =~= seq![it]);
            lemma_group_len_push(Seq::empty(), it);
        }
        let r: Result<(), TlsError> = self.flush_record(&tag, &frames, pad, &mut out);
        let ghost padding = choose|padding: Seq<u8>| #[trigger]
            flushed(
                before,
                tag@,
                seq![it],
                padding,
                pad as int,
                r,
                *self,
                Seq::empty(),
                buf_view(out),
            );
        proof {
            lemma_group_bytes_len(tag@, seq![it], padding);
            assert(seq![it].drop_last() =~= Seq::empty());
            assert(plain_frames(tag@, Seq::<Item>::empty()) =~= Seq::<u8>::empty());
            assert(group_bytes(tag@, seq![it], padding) =~= frame_bytes(
                tag@,
                0,
                FrameType::Cover,
                Seq::empty(),
                padding,
            ));
        }
        match r {
            Ok(()) => {
                let wire: Bytes = out.freeze();
                assert(bytes_view(wire) =~= data_record(
                    sealed_packet(
                        before.stream().key(),
                        before.stream().iv(),
                        before.stream().count() as int,
                        group_bytes(tag@, seq![it], padding),
                    ),
                ));
                assert(cover_record(
                    before,
                    target_record_len,
                    step_of(now),
                    padding,
                    Ok(wire),
                ));
                Ok(wire)
            },
            Err(e) => Err(e),
        }
    }

    /// Encrypts frames as one record, padded to the next boundary.
    fn flush_shaped(
        &mut self,
        tag: &[u8; 16],
        frames: &Vec<Outgoing>,
        plain_len: usize,
        out: &mut BytesMut,
        Ghost(start): Ghost<Self>,
        Ghost(groups): Ghost<Seq<Seq<Item>>>,
    ) -> (r: Result<(), TlsError>)
        requires
            old(self).wf(),
            old(self).stream().count() < u64::MAX,
            old(self).limits() == start.limits(),
            old(self).stream().count() == start.stream().count() + groups.len(),
            frames@.len() > 0,
            plain_len == group_len(items_of(frames@)),
            plain_len <= MAX_RECORD_PLAINTEXT,
            buf_view(*old(out)).len() + plain_len + 16406 <= isize::MAX,
            sent(start, *old(self), tag@, groups, buf_view(*old(out))),
        ensures
            r is Ok,
            final(self).advanced(*old(self), 1),
            sent(
                start,
                *final(self),
                tag@,
                groups.push(items_of(frames@)),
                buf_view(*final(out)),
            ),
            buf_view(*final(out)).len() <= buf_view(*old(out)).len() + plain_len + 16406,
    {
        let target: usize = self.shaper.target_record_len(plain_len);
        let wanted: usize = target.saturating_sub(plain_len + TAG_LEN);
        let spare: usize = MAX_RECORD_PLAINTEXT - plain_len;
        let pad: usize = if wanted < spare {
            wanted
        } else {
            spare
        };
        let ghost group = items_of(frames@);
        let ghost before = *self;
        let ghost old_out = buf_view(*out);
        proof {
            lemma_target_bounds(self.shaper.limits(), plain_len as int);
            assert(pad == group_padding(self.shaper.limits(), group));
        }
        let r: Result<(), TlsError> = self.flush_record(tag, frames, pad, out);
        proof {
            let padding = choose|padding: Seq<u8>| #[trigger]
                flushed(
                    before,
                    tag@,
                    group,
                    padding,
                    pad as int,
                    r,
                    *self,
                    old_out,
                    buf_view(*out),
                );
            lemma_group_bytes_len(tag@, group, padding);
            assert(r is Ok);
            lemma_sent_push(
                start,
                before,
                *self,
                tag@,
                groups,
                group,
                padding,
                old_out,
                buf_view(*out),
            );
        }
        r
    }

    /// Encrypts one frame as one record, as it is.
    fn flush_single(
        &mut self,
        tag: &[u8; 16],
        frames: &Vec<Outgoing>,
        out: &mut BytesMut,
        Ghost(start): Ghost<Self>,
        Ghost(groups): Ghost<Seq<Seq<Item>>>,
    ) -> (r: Result<(), TlsError>)
        requires
            old(self).stream().count() < u64::MAX,
            old(self).limits() == start.limits(),
            old(self).stream().count() == start.stream().count() + groups.len(),
            frames@.len() == 1,
            !fits(items_of(frames@)),
            answerable(group_len(items_of(frames@))),
            buf_view(*old(out)).len() + group_len(items_of(frames@)) + 21 <= isize::MAX,
            sent(start, *old(self), tag@, groups, buf_view(*old(out))),
        ensures
            final(self).advanced(*old(self), 1),
            r is Ok ==> sent(
                start,
                *final(self),
                tag@,
                groups.push(items_of(frames@)),
                buf_view(*final(out)),
            ),
            buf_view(*final(out)).len() <= buf_view(*old(out)).len() + group_len(items_of(frames@))
                + 16406,
            r matches Err(e) ==> encryption_failed(e) && stopped(
                start,
                *final(self),
                groups,
                items_of(frames@),
            ),
    {
        let ghost group = items_of(frames@);
        let ghost before = *self;
        let ghost old_out = buf_view(*out);
        let r: Result<(), TlsError> = self.flush_record(tag, frames, 0, out);
        proof {
            let padding = choose|padding: Seq<u8>| #[trigger]
                flushed(before, tag@, group, padding, 0, r, *self, old_out, buf_view(*out));
            lemma_group_bytes_len(tag@, group, padding);
            if r is Ok {
                lemma_sent_push(
                    start,
                    before,
                    *self,
                    tag@,
                    groups,
                    group,
                    padding,
                    old_out,
                    buf_view(*out),
                );
            } else {
                reveal(sent);
                reveal(stopped);
            }
        }
        r
    }

    /// Encrypts frames as one record, with `pad` bytes of padding behind the last.
    fn flush_record(
        &mut self,
        tag: &[u8; 16],
        frames: &Vec<Outgoing>,
        pad: usize,
        out: &mut BytesMut,
    ) -> (r: Result<(), TlsError>)
        requires
            old(self).stream().count() < u64::MAX,
            frames@.len() > 0,
            pad <= MAX_RECORD_PLAINTEXT,
            answerable((group_len(items_of(frames@)) + pad) as nat),
            buf_view(*old(out)).len() + group_len(items_of(frames@)) + pad + 21 <= isize::MAX,
        ensures
            exists|padding: Seq<u8>| #[trigger]
                flushed(
                    *old(self),
                    tag@,
                    items_of(frames@),
                    padding,
                    pad as int,
                    r,
                    *final(self),
                    buf_view(*old(out)),
                    buf_view(*final(out)),
                ),
    {
        let ghost group = items_of(frames@);
        let ghost before = *self;
        let ghost sent = buf_view(*out);
        let last: usize = frames.len() - 1;
        let mut buf: BytesMut = BytesMut::new();
        let mut idx: usize = 0;
        assert(group.subrange(0, 0) =~= Seq::empty());
        while idx < last
            invariant
                idx <= last,
                last == frames@.len() - 1,
                group == items_of(frames@),
                group_len(group) <= isize::MAX,
                buf_view(buf) == plain_frames(tag@, group.subrange(0, idx as int)),
                buf_view(buf).len() == group_len(group.subrange(0, idx as int)),
            decreases last - idx,
        {
            let ghost now = group.subrange(0, idx + 1);
            proof {
                assert(now.drop_last() =~= group.subrange(0, idx as int));
                lemma_group_len_front(group, idx + 1);
                lemma_group_bytes_len(tag@, now, Seq::empty());
            }
            let frame: Frame = Frame::new(frames[idx].0, frames[idx].1, frames[idx].2.clone());
            let ghost f = frame;
            let bytes: BytesMut = frame.into_bytes(tag, 0);
            proof {
                let padding = choose|padding: Seq<u8>|
                    padding.len() == 0 && buf_view(bytes) == #[trigger] written_frame(
                        f,
                        tag@,
                        padding,
                    );
                assert(padding =~= Seq::empty());
                lemma_written(f, group[idx as int], tag@, padding);
            }
            buf.put_slice(buf_slice(&bytes));
            idx = idx + 1;
            assert(buf_view(buf) =~= plain_frames(tag@, now));
        }
        proof {
            assert(group.drop_last() =~= group.subrange(0, last as int));
        }
        let frame: Frame = Frame::new(frames[last].0, frames[last].1, frames[last].2.clone());
        let ghost f = frame;
        let bytes: BytesMut = frame.into_bytes(tag, pad as u16);
        let ghost padding = choose|padding: Seq<u8>|
            padding.len() == pad as u16 && (pad > 0 ==> from_thread(padding)) && buf_view(bytes)
                == #[trigger] written_frame(
                f,
                tag@,
                padding,
            );
        proof {
            lemma_written(f, group.last(), tag@, padding);
            lemma_group_bytes_len(tag@, group, padding);
        }
        buf.put_slice(buf_slice(&bytes));
        let ghost plain = group_bytes(tag@, group, padding);
        assert(buf_view(buf) =~= plain);

        match self.crypto.encrypt(&mut buf) {
            Ok(()) => {
                let record: Bytes = TlsBridge::pack_app_data(buf.freeze());
                out.put_slice(bytes_slice(&record));
                proof {
                    let r: Result<(), TlsError> = Ok(());
                    assert(flushed(
                        before,
                        tag@,
                        group,
                        padding,
                        pad as int,
                        r,
                        *self,
                        sent,
                        buf_view(*out),
                    ));
                }
                Ok(())
            },
            Err(_) => {
                let e: TlsError = TlsError::new(
                    ErrorStage::Tls("Encryption failed"),
                    ErrorAction::Drop,
                    Bytes::new(),
                );
                proof {
                    let r: Result<(), TlsError> = Err(e);
                    assert(flushed(
                        before,
                        tag@,
                        group,
                        padding,
                        pad as int,
                        r,
                        *self,
                        sent,
                        buf_view(*out),
                    ));
                }
                Err(e)
            },
        }
    }
}

/// What encrypting one record does: the plaintext is sealed under the next nonce, unless it
/// is too long for the cipher.
pub open spec fn flushed(
    before: TxCodec,
    tag: Seq<u8>,
    group: Seq<Item>,
    padding: Seq<u8>,
    pad: int,
    r: Result<(), TlsError>,
    after: TxCodec,
    sent: Seq<u8>,
    out: Seq<u8>,
) -> bool {
    let plain = group_bytes(tag, group, padding);
    let key = before.stream().key();
    let iv = before.stream().iv();
    let count = before.stream().count() as int;
    &&& padding.len() == pad
    &&& pad > 0 ==> from_thread(padding)
    &&& after.advanced(before, 1)
    &&& r is Ok <==> sealable(plain.len())
    &&& r is Ok ==> packet_opens(key, iv, count, plain) && out == sent + data_record(
        sealed_packet(key, iv, count, plain),
    )
    &&& r matches Err(e) ==> encryption_failed(e) && out == sent
}

/// Whether record `k` of the frames is the first that the cipher refuses, and `after` has
/// tried it.
pub open spec fn refused_at(before: TxCodec, items: Seq<Item>, after: TxCodec, k: int) -> bool {
    let groups = pack(items);
    &&& 0 <= k < groups.len()
    &&& !sealable(plain_len(before.limits(), groups[k]))
    &&& forall|j: int| 0 <= j < k ==> sealable(plain_len(before.limits(), #[trigger] groups[j]))
    &&& after.advanced(before, k + 1)
}

/// Whether `wire` are the records of the frames, and `after` has sent them.
pub open spec fn batch_sent(
    before: TxCodec,
    items: Seq<Item>,
    tag: Seq<u8>,
    wire: Seq<u8>,
    after: TxCodec,
) -> bool {
    let groups = pack(items);
    &&& items.len() > 0 ==> tag.len() == 16
    &&& after.advanced(before, groups.len() as int)
    &&& forall|j: int|
        0 <= j < groups.len() ==> sealable(plain_len(before.limits(), #[trigger] groups[j]))
    &&& exists|paddings: Seq<Seq<u8>>| #[trigger]
        encoded(
            before.stream().key(),
            before.stream().iv(),
            before.stream().count() as int,
            tag,
            before.limits(),
            groups,
            paddings,
            wire,
        )
}

/// Whether `wire` are the records of the frames, padded with bytes that were drawn.
pub open spec fn batch_drawn(
    before: TxCodec,
    items: Seq<Item>,
    tag: Seq<u8>,
    wire: Seq<u8>,
) -> bool {
    exists|paddings: Seq<Seq<u8>>| #[trigger]
        encoded(
            before.stream().key(),
            before.stream().iv(),
            before.stream().count() as int,
            tag,
            before.limits(),
            pack(items),
            paddings,
            wire,
        ) && random_paddings(paddings)
}

/// What encoding frames does: each record of the packing is sealed under the next nonce. When
/// one is too long for the cipher, nothing is sent, and the nonces up to it are spent.
pub open spec fn batch_outcome(
    before: TxCodec,
    items: Seq<Item>,
    tag: Seq<u8>,
    r: Result<Bytes, TlsError>,
    after: TxCodec,
) -> bool {
    match r {
        Ok(wire) => batch_sent(before, items, tag, bytes_view(wire), after),
        Err(e) => encryption_failed(e) && exists|k: int| #[trigger]
            refused_at(before, items, after, k),
    }
}

/// Whether `r` is the record of a cover frame: of the length asked for, or the nearest that a
/// record can have.
pub open spec fn cover_record(
    before: TxCodec,
    target: usize,
    step: u64,
    padding: Seq<u8>,
    r: Result<Bytes, TlsError>,
) -> bool {
    let plain = frame_bytes(
        frame_tag(before.auth_key(), step),
        0,
        FrameType::Cover,
        Seq::empty(),
        padding,
    );
    let key = before.stream().key();
    let iv = before.stream().iv();
    let count = before.stream().count() as int;
    let length = if target < EMPTY_COVER_RECORD {
        EMPTY_COVER_RECORD
    } else if target > MAX_RECORD_LEN {
        MAX_RECORD_LEN
    } else {
        target
    };
    &&& frame_tag(before.auth_key(), step).len() == 16
    &&& padding.len() == length - EMPTY_COVER_RECORD
    &&& packet_opens(key, iv, count, plain)
    &&& sealed_packet(key, iv, count, plain).len() == length
    &&& r matches Ok(wire) && bytes_view(wire) == data_record(
        sealed_packet(key, iv, count, plain),
    )
}

/// Whether `groups` are the records sent so far, and `batch` the frames that wait for more:
/// together they are what the frames seen so far are packed into.
#[verifier::opaque]
spec fn packed(seen: Seq<Item>, groups: Seq<Seq<Item>>, batch: Seq<Item>) -> bool {
    if batch.len() > 0 {
        pack(seen) == groups.push(batch)
    } else {
        pack(seen) == groups && (groups.len() > 0 ==> !fits(groups.last()))
    }
}

/// The next frame.
proof fn lemma_packed_step(
    seen: Seq<Item>,
    groups: Seq<Seq<Item>>,
    batch: Seq<Item>,
    it: Item,
)
    requires
        packed(seen, groups, batch),
    ensures
        ({
            let done = if batch.len() > 0 {
                groups.push(batch)
            } else {
                groups
            };
            if !fits(seq![it]) {
                packed(seen.push(it), done.push(seq![it]), Seq::empty())
            } else if fits(batch.push(it)) {
                packed(seen.push(it), groups, batch.push(it))
            } else {
                batch.len() > 0 && packed(seen.push(it), done, seq![it])
            }
        }),
{
    reveal(packed);
    let more = seen.push(it);
    assert(more.drop_last() =~= seen);
    lemma_group_len_push(batch, it);
    if batch.len() > 0 {
        assert(groups.push(batch).drop_last() =~= groups);
    } else {
        assert(batch.push(it) =~= seq![it]);
        if groups.len() > 0 {
            lemma_group_len_push(groups.last(), it);
        }
    }
}

/// Whether `out` are the records of `groups`, and `now` is `start` after sending them.
#[verifier::opaque]
spec fn sent(
    start: TxCodec,
    now: TxCodec,
    tag: Seq<u8>,
    groups: Seq<Seq<Item>>,
    out: Seq<u8>,
) -> bool {
    &&& now.advanced(start, groups.len() as int)
    &&& forall|j: int|
        0 <= j < groups.len() ==> sealable(plain_len(start.limits(), #[trigger] groups[j]))
    &&& exists|paddings: Seq<Seq<u8>>| #[trigger]
        encoded(
            start.stream().key(),
            start.stream().iv(),
            start.stream().count() as int,
            tag,
            start.limits(),
            groups,
            paddings,
            out,
        ) && random_paddings(paddings)
}

/// Nothing is sent yet.
proof fn lemma_sent_none(start: TxCodec, tag: Seq<u8>)
    ensures
        sent(start, start, tag, Seq::empty(), Seq::empty()),
{
    reveal(sent);
    let key = start.stream().key();
    let iv = start.stream().iv();
    let count = start.stream().count() as int;
    let groups = Seq::<Seq<Item>>::empty();
    let paddings = Seq::<Seq<u8>>::empty();
    assert(sealed_groups(key, iv, count, tag, groups, paddings) =~= Seq::empty());
    assert(encoded(key, iv, count, tag, start.limits(), groups, paddings, Seq::empty()));
    assert(random_paddings(paddings));
}

/// Everything is sent.
proof fn lemma_outcome(start: TxCodec, now: TxCodec, tag: Seq<u8>, items: Seq<Item>, wire: Bytes)
    requires
        drawn(start.limits()),
        items.len() > 0 ==> tag.len() == 16,
        sent(start, now, tag, pack(items), bytes_view(wire)),
    ensures
        all_sealable(items),
        now.stream().count() <= start.stream().count() + items.len(),
        batch_outcome(start, items, tag, Ok(wire), now),
        batch_drawn(start, items, tag, bytes_view(wire)),
{
    reveal(sent);
    lemma_pack_len(items);
    lemma_records_sealable(start.limits(), items);
    assert(batch_sent(start, items, tag, bytes_view(wire), now));
}

/// One more record.
proof fn lemma_sent_push(
    start: TxCodec,
    before: TxCodec,
    after: TxCodec,
    tag: Seq<u8>,
    groups: Seq<Seq<Item>>,
    group: Seq<Item>,
    padding: Seq<u8>,
    old_out: Seq<u8>,
    out: Seq<u8>,
)
    requires
        sent(start, before, tag, groups, old_out),
        tag.len() == 16,
        group.len() > 0,
        group_padding(start.limits(), group) <= MAX_RECORD_PLAINTEXT,
        flushed(
            before,
            tag,
            group,
            padding,
            group_padding(start.limits(), group),
            Ok(()),
            after,
            old_out,
            out,
        ),
    ensures
        sent(start, after, tag, groups.push(group), out),
        after.advanced(before, 1),
        out.len() <= old_out.len() + group_len(group) + 16406,
{
    reveal(sent);
    let key = start.stream().key();
    let iv = start.stream().iv();
    let count = start.stream().count() as int;
    let limits = start.limits();
    let paddings = choose|paddings: Seq<Seq<u8>>| #[trigger]
        encoded(key, iv, count, tag, limits, groups, paddings, old_out) && random_paddings(
            paddings,
        );
    lemma_encoded_push(key, iv, count, tag, limits, groups, paddings, old_out, group, padding);
    lemma_group_bytes_len(tag, group, padding);
    assert(encoded(
        key,
        iv,
        count,
        tag,
        limits,
        groups.push(group),
        paddings.push(padding),
        out,
    ));
    assert(random_paddings(paddings.push(padding))) by {
        let all = paddings.push(padding);
        assert forall|i: int| 0 <= i < all.len() && (#[trigger] all[i]).len() > 0 implies
            from_thread(all[i]) by {
            if i < paddings.len() {
                assert(all[i] == paddings[i]);
            }
        }
    }
    assert forall|j: int| 0 <= j < groups.push(group).len() implies sealable(
        plain_len(limits, #[trigger] groups.push(group)[j]),
    ) by {
        if j < groups.len() {
            assert(groups.push(group)[j] == groups[j]);
        }
    }
}

/// Whether the cipher took the records `groups` and refused `group` after them.
#[verifier::opaque]
spec fn stopped(
    start: TxCodec,
    now: TxCodec,
    groups: Seq<Seq<Item>>,
    group: Seq<Item>,
) -> bool {
    &&& now.advanced(start, groups.len() as int + 1)
    &&& forall|j: int|
        0 <= j < groups.len() ==> sealable(plain_len(start.limits(), #[trigger] groups[j]))
    &&& !sealable(plain_len(start.limits(), group))
}

/// A record that the cipher refuses: one that a single frame overfills.
proof fn lemma_sent_refused(
    start: TxCodec,
    after: TxCodec,
    all: Seq<Item>,
    i: int,
    groups: Seq<Seq<Item>>,
)
    requires
        drawn(start.limits()),
        0 <= i < all.len(),
        !fits(seq![all[i]]),
        packed(all.subrange(0, i + 1), groups.push(seq![all[i]]), Seq::empty()),
        stopped(start, after, groups, seq![all[i]]),
    ensures
        !all_sealable(all),
        after.stream().count() <= start.stream().count() + all.len(),
        after.limits() == start.limits(),
        refused_at(start, all, after, groups.len() as int),
{
    reveal(stopped);
    lemma_pack_len(all);
    lemma_records_sealable(start.limits(), all);
    reveal(packed);
    lemma_pack_prefix(all, i + 1);
    let k = groups.len() as int;
    let part = pack(all.subrange(0, i + 1));
    assert(part == groups.push(seq![all[i]]));
    assert forall|j: int| 0 <= j < k implies sealable(
        plain_len(start.limits(), #[trigger] pack(all)[j]),
    ) by {
        assert(pack(all)[j] == part[j]);
        assert(part[j] == groups[j]);
    }
}

proof fn lemma_capacity(total: nat, items: nat, records: int)
    requires
        records <= items,
        total + items * 16406 <= isize::MAX,
    ensures
        total + records * 16406 <= isize::MAX,
{
}

/// A frame made from an item is written as the item's bytes.
proof fn lemma_written(frame: Frame, it: Item, tag: Seq<u8>, padding: Seq<u8>)
    requires
        frame.header.stream_id == it.stream,
        frame.header.frame_type == it.kind,
        frame.header.payload_len == crate::utils::byte_order::low16(it.payload.len()),
        bytes_view(frame.payload) == it.payload,
        padding.len() <= 0xffff,
    ensures
        written_frame(frame, tag, padding) == frame_bytes(
            tag,
            it.stream,
            it.kind,
            it.payload,
            padding,
        ),
{
}

/// One more record.
proof fn lemma_encoded_push(
    key: Seq<u8>,
    iv: Seq<u8>,
    count: int,
    tag: Seq<u8>,
    limits: Seq<usize>,
    groups: Seq<Seq<Item>>,
    paddings: Seq<Seq<u8>>,
    wire: Seq<u8>,
    group: Seq<Item>,
    padding: Seq<u8>,
)
    requires
        encoded(key, iv, count, tag, limits, groups, paddings, wire),
        padding.len() == group_padding(limits, group),
        packet_opens(key, iv, count + groups.len(), group_bytes(tag, group, padding)),
    ensures
        encoded(
            key,
            iv,
            count,
            tag,
            limits,
            groups.push(group),
            paddings.push(padding),
            wire + data_record(
                sealed_packet(key, iv, count + groups.len(), group_bytes(tag, group, padding)),
            ),
        ),
{
    let all = sealed_groups(key, iv, count, tag, groups.push(group), paddings.push(padding));
    assert(all.drop_last() =~= sealed_groups(key, iv, count, tag, groups, paddings));
    assert forall|i: int| 0 <= i < groups.push(group).len() implies (#[trigger] paddings.push(
        padding,
    )[i]).len() == group_padding(limits, groups.push(group)[i]) && packet_opens(
        key,
        iv,
        count + i,
        group_bytes(tag, groups.push(group)[i], paddings.push(padding)[i]),
    ) by {
        if i < groups.len() {
            assert(paddings.push(padding)[i] == paddings[i]);
            assert(groups.push(group)[i] == groups[i]);
        }
    }
}

/// What the receiving direction works on: the counter of the next packet, the bytes that
/// wait for the rest of a frame, and the records that were read.
pub struct Received {
    /// The counter of the next packet.
    pub count: int,
    /// Plaintext that is not handed out yet.
    pub staging: Seq<u8>,
    /// Records that are not opened yet.
    pub buffer: Seq<u8>,
}

/// What decoding comes to.
pub enum Decoded {
    /// There is nothing to hand out yet.
    Idle,
    /// The frame in front of these bytes.
    Front(Seq<u8>),
    /// A record that is none of this protocol's, with the buffer it stood in front of.
    BadRecord(Seq<u8>),
    /// A record that does not open.
    BadCipher,
    /// Plaintext that is no frame.
    BadFrame,
}

/// What the plaintext in front comes to, and what is left of it. `None` when more is needed.
pub open spec fn staged(staging: Seq<u8>) -> Option<(Decoded, Seq<u8>)> {
    if !Frame::complete(staging) {
        None
    } else if FrameType::of_wire(staging[20]) is None {
        Some((Decoded::BadFrame, Seq::empty()))
    } else {
        Some(
            (
                Decoded::Front(staging),
                staging.subrange(frame_end(staging), staging.len() as int),
            ),
        )
    }
}

/// Opens records until a frame is complete.
///
/// A record that does not open drops what waits and leaves the counter where it was.
pub open spec fn opened(key: Seq<u8>, iv: Seq<u8>, s: Received) -> (Decoded, Received)
    decreases s.buffer.len(),
{
    match data_step(s.buffer) {
        DataStep::Wait => (Decoded::Idle, s),
        DataStep::Foreign { rest, .. } => (
            Decoded::BadRecord(s.buffer),
            Received { buffer: rest, ..s },
        ),
        DataStep::Unexpected { rest, .. } => (
            Decoded::BadRecord(s.buffer),
            Received { buffer: rest, ..s },
        ),
        DataStep::Data { payload, rest } => {
            let nonce = nonce_of(iv, s.count as u64);
            match aead_open(key, nonce, nonce, payload) {
                None => (
                    Decoded::BadCipher,
                    Received { staging: Seq::empty(), buffer: rest, ..s },
                ),
                Some(plain) => {
                    let next = Received {
                        count: s.count + 1,
                        staging: s.staging + plain,
                        buffer: rest,
                    };
                    match staged(next.staging) {
                        Some((event, left)) => (event, Received { staging: left, ..next }),
                        None => if rest.len() < s.buffer.len() {
                            opened(key, iv, next)
                        } else {
                            (Decoded::Idle, next)
                        },
                    }
                },
            }
        },
    }
}

/// What decoding comes to: a frame that is complete already, or the next one in the records.
pub open spec fn decoded(key: Seq<u8>, iv: Seq<u8>, s: Received) -> (Decoded, Received) {
    match staged(s.staging) {
        Some((event, left)) => (event, Received { staging: left, ..s }),
        None => opened(key, iv, s),
    }
}

/// Whether a result is what decoding comes to.
pub open spec fn reports(event: Decoded, r: Result<Option<Frame>, TlsError>) -> bool {
    match event {
        Decoded::Idle => r matches Ok(None),
        Decoded::Front(b) => r matches Ok(Some(frame)) && frame.is_front_of(b),
        Decoded::BadRecord(b) => match data_step(b) {
            DataStep::Unexpected { record, .. } => r matches Err(e) && e.is_error(
                ErrorStage::ApplicationData("Expected AppData record"),
                ErrorAction::Drop,
                record,
            ),
            DataStep::Foreign { reason, .. } => r matches Err(e) && e.is_error(
                ErrorStage::Tls(reason),
                ErrorAction::Redirect,
                Seq::empty(),
            ),
            _ => false,
        },
        Decoded::BadCipher => r matches Err(e) && e.is_error(
            ErrorStage::Tls("AEAD Decrypt Failed"),
            ErrorAction::Drop,
            Seq::empty(),
        ),
        Decoded::BadFrame => r matches Err(e) && e.is_error(
            ErrorStage::Tls("Frame parse error"),
            ErrorAction::Drop,
            Seq::empty(),
        ),
    }
}

/// The receiving direction.
pub struct RxCodec {
    crypto: ChaChaStream,
    auth: SessionAuth,
    staging: BytesMut,
}

impl RxCodec {
    /// The cipher's direction.
    pub closed spec fn stream(self) -> ChaChaStream {
        self.crypto
    }

    /// The key of the tags.
    pub closed spec fn auth_key(self) -> Seq<u8> {
        self.auth.key()
    }

    /// Plaintext that is not handed out yet.
    pub closed spec fn staging(self) -> Seq<u8> {
        buf_view(self.staging)
    }

    /// What the direction works on, with the records in a buffer.
    pub open spec fn received(self, buffer: Seq<u8>) -> Received {
        Received { count: self.stream().count() as int, staging: self.staging(), buffer }
    }

    /// A direction; `staging` is plaintext that waits already, most often none.
    pub fn new(crypto: ChaChaStream, auth: SessionAuth, staging: BytesMut) -> (r: Self)
        ensures
            r.stream() == crypto,
            r.auth_key() == auth.key(),
            r.staging() == buf_view(staging),
    {
        Self { crypto, auth, staging }
    }

    /// Hands out the next frame of the records in a buffer.
    pub fn decode_inbound(&mut self, buffer: &mut BytesMut) -> (r: Result<
        Option<Frame>,
        TlsError,
    >)
        requires
            old(self).stream().count() + buf_view(*old(buffer)).len() <= u64::MAX,
            old(self).staging().len() + buf_view(*old(buffer)).len() <= isize::MAX,
        ensures
            ({
                let s = old(self).received(buf_view(*old(buffer)));
                let (event, left) = decoded(old(self).stream().key(), old(self).stream().iv(), s);
                &&& reports(event, r)
                &&& final(self).received(buf_view(*final(buffer))) == left
            }),
            final(self).stream().same_keys(old(self).stream()),
            final(self).auth_key() == old(self).auth_key(),
            final(self).stream().count() + buf_view(*final(buffer)).len()
                <= old(self).stream().count() + buf_view(*old(buffer)).len(),
            final(self).staging().len() + buf_view(*final(buffer)).len()
                <= old(self).staging().len() + buf_view(*old(buffer)).len(),
    {
        let ghost key = self.crypto.key();
        let ghost iv = self.crypto.iv();
        let ghost start = self.received(buf_view(*buffer));
        let ghost whole = decoded(key, iv, start);
        if !self.staging.is_empty() {
            match self.try_parse_frame() {
                Ok(Some(frame)) => {
                    return Ok(Some(frame));
                },
                Ok(None) => {},
                Err(e) => {
                    return Err(e);
                },
            }
        }
        assert(staged(start.staging) is None);
        loop
            invariant
                self.stream().same_keys(old(self).stream()),
                self.auth_key() == old(self).auth_key(),
                key == old(self).stream().key(),
                iv == old(self).stream().iv(),
                self.stream().count() + buf_view(*buffer).len() <= start.count + start.buffer.len()
                    <= u64::MAX,
                self.staging().len() + buf_view(*buffer).len() <= start.staging.len()
                    + start.buffer.len() <= isize::MAX,
                start == old(self).received(buf_view(*old(buffer))),
                whole == decoded(key, iv, start),
                opened(key, iv, self.received(buf_view(*buffer))) == whole,
            decreases buf_view(*buffer).len(),
        {
            let ghost b = buf_view(*buffer);
            let ghost now = self.received(b);
            let app_data: ApplicationData = match TlsBridge::unpack_app_data(buffer) {
                Ok(Some(app_data)) => app_data,
                Ok(None) => {
                    return Ok(None);
                },
                Err(e) => {
                    return Err(e);
                },
            };
            let ghost rest = buf_view(*buffer);
            let start_idx: usize = self.staging.len();
            self.staging.extend_from_slice(bytes_slice(&app_data.payload));
            let mut data_to_decrypt: BytesMut = self.staging.split_off(start_idx);
            assert(buf_view(data_to_decrypt) =~= bytes_view(app_data.payload));
            assert(buf_view(self.staging) =~= now.staging);
            if self.crypto.decrypt(&mut data_to_decrypt).is_err() {
                self.staging.clear();
                return Err(
                    TlsError::new(
                        ErrorStage::Tls("AEAD Decrypt Failed"),
                        ErrorAction::Drop,
                        Bytes::new(),
                    ),
                );
            }
            self.staging.unsplit(data_to_decrypt);
            match self.try_parse_frame() {
                Ok(Some(frame)) => {
                    return Ok(Some(frame));
                },
                Ok(None) => {},
                Err(e) => {
                    return Err(e);
                },
            }
        }
    }

    /// Hands out the frame that is complete, if one is.
    fn try_parse_frame(&mut self) -> (r: Result<Option<Frame>, TlsError>)
        ensures
            match staged(old(self).staging()) {
                Some((event, left)) => reports(event, r) && final(self).staging() == left,
                None => r matches Ok(None) && final(self).staging() == old(self).staging(),
            },
            final(self).stream() == old(self).stream(),
            final(self).auth_key() == old(self).auth_key(),
    {
        match Frame::parse(&mut self.staging) {
            Ok(Some(frame)) => Ok(Some(frame)),
            Ok(None) => Ok(None),
            Err(_) => {
                self.staging.clear();
                Err(
                    TlsError::new(
                        ErrorStage::Tls("Frame parse error"),
                        ErrorAction::Drop,
                        Bytes::new(),
                    ),
                )
            },
        }
    }
}

/// Both directions of a session, to be handed out.
pub struct Codec {
    tx: TxCodec,
    rx: RxCodec,
}

impl Codec {
    /// The sending direction.
    pub closed spec fn sender(self) -> TxCodec {
        self.tx
    }

    /// The receiving direction.
    pub closed spec fn receiver(self) -> RxCodec {
        self.rx
    }

    /// Both directions of a cipher, with nothing received yet.
    pub fn new(cipher: ChaChaCipher, auth_key: [u8; 32]) -> (r: Self)
        ensures
            r.sender().wf(),
            drawn_here(r.sender().limits()),
            r.sender().stream() == cipher.tx,
            r.sender().auth_key() == auth_key@,
            r.receiver().stream() == cipher.rx,
            r.receiver().auth_key() == auth_key@,
            r.receiver().staging() == Seq::<u8>::empty(),
    {
        let (rx_stream, tx_stream) = cipher.split();
        let auth: SessionAuth = SessionAuth::new(auth_key);
        Self {
            tx: TxCodec::new(tx_stream, auth),
            rx: RxCodec::new(rx_stream, auth, BytesMut::with_capacity(4096)),
        }
    }

    /// Hands out both directions, the receiving one first.
    pub fn split(self) -> (r: (RxCodec, TxCodec))
        ensures
            r.0 == self.receiver(),
            r.1 == self.sender(),
    {
        (self.rx, self.tx)
    }
}

} // verus!
