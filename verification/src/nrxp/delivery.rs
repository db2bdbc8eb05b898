//! What a stream is for: frames come out as they went in.

use bytes::Bytes;
use vstd::prelude::*;

use crate::bridge::{data_step, DataStep};
use crate::buffers::bytes_view;
use crate::crypto::auth::frame_tag;
use crate::errors::TlsError;
use crate::nrxp::batch::{
    fits, flatten, group_bytes, group_len, group_padding, lemma_flatten_holds,
    lemma_group_bytes_len, lemma_group_len_push, lemma_pack_is_packing, pack, plain_frames, Item,
};
use crate::nrxp::codec::{
    batch_sent, cover_record, data_record, decoded, encoded, packet_opens, records_wire, reports,
    sealed_groups, sealed_packet, staged, Decoded, Received, RxCodec, TxCodec,
};
use crate::nrxp::frame::{frame_bytes, lemma_frame_round_trip, payload_len_of, Frame, FrameType};
use crate::parser::Parser;
use crate::tlseng::tls_record::TlsRecord;
use crate::tlseng::types::{ContentType, ProtocolVersion};
use crate::utils::byte_order::{be16, low16, u16_at, u32_at};

verus! {

/// The frame in front of bytes.
pub open spec fn front_item(b: Seq<u8>) -> Item {
    Item {
        stream: u32_at(b, 16),
        kind: FrameType::of_wire(b[20]).unwrap(),
        payload: b.subrange(25, 25 + payload_len_of(b)),
    }
}

/// Whether decoding again and again hands out exactly the given frames, each with the given
/// tag, and then stands at `end`.
#[verifier::opaque]
pub open spec fn delivers(
    key: Seq<u8>,
    iv: Seq<u8>,
    tag: Seq<u8>,
    s: Received,
    items: Seq<Item>,
    end: Received,
) -> bool
    decreases items.len(),
{
    if items.len() == 0 {
        s == end
    } else {
        let (event, next) = decoded(key, iv, s);
        &&& event matches Decoded::Front(b) && b.len() >= 25 && front_item(b) == items[0]
            && b.subrange(0, 16) == tag
        &&& delivers(key, iv, tag, next, items.drop_first(), end)
    }
}

/// What the sending direction sent, the receiving direction hands out: with the same key, IV
/// and counter and nothing waiting, the records of a batch decode to the frames of the batch,
/// in order and none besides, and what follows them on the wire is left alone.
///
/// A payload has to leave its record within what the record's length field can say.
pub proof fn lemma_stream_round_trip(
    before: TxCodec,
    items: Seq<Item>,
    tag: Seq<u8>,
    wire: Seq<u8>,
    after: TxCodec,
    tail: Seq<u8>,
)
    requires
        batch_sent(before, items, tag, wire, after),
        forall|i: int| 0 <= i < items.len() ==> (#[trigger] items[i]).payload.len() + 41 <= 0xffff,
    ensures
        delivers(
            before.stream().key(),
            before.stream().iv(),
            tag,
            (Received {
                count: before.stream().count() as int,
                staging: Seq::empty(),
                buffer: wire + tail,
            }),
            items,
            (Received {
                count: after.stream().count() as int,
                staging: Seq::empty(),
                buffer: tail,
            }),
        ),
{
    let key = before.stream().key();
    let iv = before.stream().iv();
    let count = before.stream().count() as int;
    let groups = pack(items);
    let paddings = choose|paddings: Seq<Seq<u8>>| #[trigger]
        encoded(key, iv, count, tag, before.limits(), groups, paddings, wire);
    lemma_pack_is_packing(items);
    if items.len() == 0 {
        reveal(delivers);
        assert(sealed_groups(key, iv, count, tag, groups, paddings) =~= Seq::empty());
        assert(wire + tail =~= tail);
    } else {
        assert forall|i: int| 0 <= i < groups.len() implies sound(#[trigger] groups[i]) by {
            assert forall|k: int| 0 <= k < groups[i].len() implies (
            #[trigger] groups[i][k]).payload.len() + 41 <= 0xffff by {
                let place = lemma_flatten_holds(groups, i, k);
                assert(items[place] == groups[i][k]);
            }
        }
        lemma_records(key, iv, count, tag, before.limits(), groups, paddings, tail);
    }
}

/// What the receiving direction works on after `n` calls of its decoder.
pub open spec fn after_calls(key: Seq<u8>, iv: Seq<u8>, s: Received, n: nat) -> Received
    decreases n,
{
    if n == 0 {
        s
    } else {
        decoded(key, iv, after_calls(key, iv, s, (n - 1) as nat)).1
    }
}

/// Whether results are those of calls of the decoder one after the other.
pub open spec fn decoded_in_turn(
    key: Seq<u8>,
    iv: Seq<u8>,
    s: Received,
    results: Seq<Result<Option<Frame>, TlsError>>,
) -> bool {
    forall|i: int|
        0 <= i < results.len() ==> reports(
            decoded(key, iv, after_calls(key, iv, s, i as nat)).0,
            #[trigger] results[i],
        )
}

/// Whether a result is a frame with the given tag and contents.
pub open spec fn hands_out(tag: Seq<u8>, it: Item, r: Result<Option<Frame>, TlsError>) -> bool {
    r matches Ok(Some(frame)) && frame.header.auth_tag@ == tag && frame.header.stream_id
        == it.stream && frame.header.frame_type == it.kind && bytes_view(frame.payload)
        == it.payload
}

/// The decoder, called again and again on the records of a batch, hands out every frame of
/// the batch once and in order, and from then on nothing: all records are taken and no
/// plaintext is left.
///
/// The receiving direction has the key, the base IV and the counter of the sending one, and
/// nothing waits. A payload has to leave its record within what the record's length field can
/// say.
pub proof fn lemma_batch_is_decoded_in_turn(
    before: TxCodec,
    items: Seq<Item>,
    tag: Seq<u8>,
    wire: Seq<u8>,
    after: TxCodec,
    rx: RxCodec,
    results: Seq<Result<Option<Frame>, TlsError>>,
    n: nat,
)
    requires
        batch_sent(before, items, tag, wire, after),
        forall|i: int| 0 <= i < items.len() ==> (#[trigger] items[i]).payload.len() <= 65494,
        rx.stream().in_step(before.stream()),
        rx.staging() == Seq::<u8>::empty(),
        decoded_in_turn(rx.stream().key(), rx.stream().iv(), rx.received(wire), results),
        items.len() <= n,
    ensures
        forall|i: int|
            0 <= i < items.len() && i < results.len() ==> hands_out(
                tag,
                items[i],
                #[trigger] results[i],
            ),
        forall|i: int|
            items.len() <= i < results.len() ==> ((#[trigger] results[i]) matches Ok(None)),
        after_calls(rx.stream().key(), rx.stream().iv(), rx.received(wire), n) == (Received {
            count: after.stream().count() as int,
            staging: Seq::empty(),
            buffer: Seq::empty(),
        }),
{
    let key = rx.stream().key();
    let iv = rx.stream().iv();
    let s = rx.received(wire);
    let end = Received {
        count: after.stream().count() as int,
        staging: Seq::<u8>::empty(),
        buffer: Seq::<u8>::empty(),
    };
    lemma_stream_round_trip(before, items, tag, wire, after, Seq::empty());
    assert(wire + Seq::<u8>::empty() =~= wire);
    assert(delivers(key, iv, tag, s, items, end));
    assert forall|i: int| 0 <= i < items.len() && i < results.len() implies hands_out(
        tag,
        items[i],
        #[trigger] results[i],
    ) by {
        lemma_call(key, iv, tag, s, items, end, i as nat);
        let event = decoded(key, iv, after_calls(key, iv, s, i as nat)).0;
        assert(reports(event, results[i]));
        let b = event->Front_0;
        assert(b.subrange(0, 16) == tag);
    }
    lemma_calls_end(key, iv, tag, s, items, end);
    assert forall|i: int| items.len() <= i < results.len() implies (
    (#[trigger] results[i]) matches Ok(None)) by {
        lemma_calls_idle(key, iv, s, items.len(), i as nat);
        assert(reports(decoded(key, iv, after_calls(key, iv, s, i as nat)).0, results[i]));
    }
    lemma_calls_idle(key, iv, s, items.len(), n);
}

/// The call after `i` others hands out frame `i`.
proof fn lemma_call(
    key: Seq<u8>,
    iv: Seq<u8>,
    tag: Seq<u8>,
    s: Received,
    items: Seq<Item>,
    end: Received,
    i: nat,
)
    requires
        delivers(key, iv, tag, s, items, end),
        i < items.len(),
    ensures
        ({
            let event = decoded(key, iv, after_calls(key, iv, s, i)).0;
            event matches Decoded::Front(b) && b.len() >= 25 && front_item(b) == items[i as int]
                && b.subrange(0, 16) == tag
        }),
    decreases i,
{
    reveal(delivers);
    if i > 0 {
        let next = decoded(key, iv, s).1;
        lemma_call(key, iv, tag, next, items.drop_first(), end, (i - 1) as nat);
        lemma_first_call(key, iv, s, (i - 1) as nat);
        assert(items.drop_first()[i - 1] == items[i as int]);
    }
}

/// The first of a number of calls can be taken by itself.
proof fn lemma_first_call(key: Seq<u8>, iv: Seq<u8>, s: Received, n: nat)
    ensures
        after_calls(key, iv, s, n + 1) == after_calls(key, iv, decoded(key, iv, s).1, n),
    decreases n,
{
    if n > 0 {
        lemma_first_call(key, iv, s, (n - 1) as nat);
    } else {
        reveal_with_fuel(after_calls, 2);
    }
}

/// As many calls as there are frames lead to the end.
proof fn lemma_calls_end(
    key: Seq<u8>,
    iv: Seq<u8>,
    tag: Seq<u8>,
    s: Received,
    items: Seq<Item>,
    end: Received,
)
    requires
        delivers(key, iv, tag, s, items, end),
    ensures
        after_calls(key, iv, s, items.len()) == end,
    decreases items.len(),
{
    reveal(delivers);
    if items.len() > 0 {
        let next = decoded(key, iv, s).1;
        lemma_calls_end(key, iv, tag, next, items.drop_first(), end);
        lemma_first_call(key, iv, s, (items.len() - 1) as nat);
    }
}

/// With no records and no plaintext left, further calls find nothing.
proof fn lemma_calls_idle(key: Seq<u8>, iv: Seq<u8>, s: Received, from: nat, n: nat)
    requires
        from <= n,
        after_calls(key, iv, s, from).staging == Seq::<u8>::empty(),
        after_calls(key, iv, s, from).buffer == Seq::<u8>::empty(),
    ensures
        after_calls(key, iv, s, n) == after_calls(key, iv, s, from),
        decoded(key, iv, after_calls(key, iv, s, n)).0 is Idle,
    decreases n,
{
    let end = after_calls(key, iv, s, from);
    assert(staged(end.staging) is None);
    assert(data_step(end.buffer) is Wait);
    assert(decoded(key, iv, end) == (Decoded::Idle, end));
    if n > from {
        lemma_calls_idle(key, iv, s, from, (n - 1) as nat);
    }
}

/// A cover record comes out as one frame of its own type that carries nothing, and what
/// follows it on the wire is left alone.
pub proof fn lemma_cover_round_trip(
    before: TxCodec,
    target: usize,
    step: u64,
    padding: Seq<u8>,
    wire: Bytes,
    tail: Seq<u8>,
)
    requires
        cover_record(before, target, step, padding, Ok(wire)),
    ensures
        delivers(
            before.stream().key(),
            before.stream().iv(),
            frame_tag(before.auth_key(), step),
            (Received {
                count: before.stream().count() as int,
                staging: Seq::empty(),
                buffer: bytes_view(wire) + tail,
            }),
            seq![Item { stream: 0, kind: FrameType::Cover, payload: Seq::empty() }],
            (Received {
                count: before.stream().count() + 1,
                staging: Seq::empty(),
                buffer: tail,
            }),
        ),
{
    let tag = frame_tag(before.auth_key(), step);
    let it = Item { stream: 0, kind: FrameType::Cover, payload: Seq::empty() };
    let group = seq![it];
    assert(group.drop_last() =~= Seq::empty());
    assert(plain_frames(tag, Seq::<Item>::empty()) =~= Seq::<u8>::empty());
    assert(group_bytes(tag, group, padding) =~= frame_bytes(
        tag,
        0,
        FrameType::Cover,
        Seq::empty(),
        padding,
    ));
    lemma_group_len_push(Seq::empty(), it);
    lemma_record(
        before.stream().key(),
        before.stream().iv(),
        before.stream().count() as int,
        tag,
        group,
        padding,
        tail,
    );
}

/// Whether the frames of a record can be told apart again: none is longer than its length
/// fields can say.
spec fn sound(group: Seq<Item>) -> bool {
    &&& group.len() > 0
    &&& fits(group) || group.len() == 1
    &&& forall|k: int| 0 <= k < group.len() ==> (#[trigger] group[k]).payload.len() + 41 <= 0xffff
}

/// Deliveries behind each other.
proof fn lemma_delivers_concat(
    key: Seq<u8>,
    iv: Seq<u8>,
    tag: Seq<u8>,
    s: Received,
    a: Seq<Item>,
    mid: Received,
    b: Seq<Item>,
    end: Received,
)
    requires
        delivers(key, iv, tag, s, a, mid),
        delivers(key, iv, tag, mid, b, end),
    ensures
        delivers(key, iv, tag, s, a + b, end),
    decreases a.len(),
{
    reveal(delivers);
    if a.len() == 0 {
        assert(a + b =~= b);
    } else {
        let (event, next) = decoded(key, iv, s);
        lemma_delivers_concat(key, iv, tag, next, a.drop_first(), mid, b, end);
        assert((a + b).drop_first() =~= a.drop_first() + b);
        assert((a + b)[0] == a[0]);
    }
}

/// A frame in front of the plaintext is handed out.
proof fn lemma_one_frame(
    key: Seq<u8>,
    iv: Seq<u8>,
    tag: Seq<u8>,
    count: int,
    it: Item,
    padding: Seq<u8>,
    left: Seq<u8>,
    buffer: Seq<u8>,
)
    requires
        tag.len() == 16,
        it.payload.len() <= 0xffff,
        padding.len() <= 0xffff,
    ensures
        delivers(
            key,
            iv,
            tag,
            (Received {
                count,
                staging: frame_bytes(tag, it.stream, it.kind, it.payload, padding) + left,
                buffer,
            }),
            seq![it],
            (Received { count, staging: left, buffer }),
        ),
{
    let staging = frame_bytes(tag, it.stream, it.kind, it.payload, padding) + left;
    let s = Received { count, staging, buffer };
    let end = Received { count, staging: left, buffer };
    reveal(delivers);
    lemma_frame_round_trip(tag, it.stream, it.kind, it.payload, padding, left);
    assert(staged(staging) == Some((Decoded::Front(staging), left)));
    assert(front_item(staging) == it);
    assert(seq![it].drop_first() =~= Seq::empty());
    assert(delivers(key, iv, tag, end, Seq::empty(), end));
    assert(decoded(key, iv, s) == (Decoded::Front(staging), end));
}

/// Frames in front of the plaintext are handed out.
proof fn lemma_plain_frames(
    key: Seq<u8>,
    iv: Seq<u8>,
    tag: Seq<u8>,
    count: int,
    group: Seq<Item>,
    left: Seq<u8>,
    buffer: Seq<u8>,
)
    requires
        tag.len() == 16,
        forall|k: int| 0 <= k < group.len() ==> (#[trigger] group[k]).payload.len() <= 0xffff,
    ensures
        delivers(
            key,
            iv,
            tag,
            (Received { count, staging: plain_frames(tag, group) + left, buffer }),
            group,
            (Received { count, staging: left, buffer }),
        ),
    decreases group.len(),
{
    let end = Received { count, staging: left, buffer };
    if group.len() == 0 {
        assert(plain_frames(tag, group) + left =~= left);
        reveal(delivers);
    } else {
        let front = group.drop_last();
        let it = group.last();
        let frame = frame_bytes(tag, it.stream, it.kind, it.payload, Seq::empty());
        let mid = Received { count, staging: frame + left, buffer };
        lemma_plain_frames(key, iv, tag, count, front, frame + left, buffer);
        lemma_one_frame(key, iv, tag, count, it, Seq::empty(), left, buffer);
        assert(plain_frames(tag, group) + left =~= plain_frames(tag, front) + (frame + left));
        lemma_delivers_concat(
            key,
            iv,
            tag,
            Received { count, staging: plain_frames(tag, group) + left, buffer },
            front,
            mid,
            seq![it],
            end,
        );
        assert(front + seq![it] =~= group);
    }
}

/// The plaintext of a record is handed out.
proof fn lemma_group(
    key: Seq<u8>,
    iv: Seq<u8>,
    tag: Seq<u8>,
    count: int,
    group: Seq<Item>,
    padding: Seq<u8>,
    buffer: Seq<u8>,
)
    requires
        tag.len() == 16,
        group.len() > 0,
        padding.len() <= 0xffff,
        forall|k: int| 0 <= k < group.len() ==> (#[trigger] group[k]).payload.len() <= 0xffff,
    ensures
        delivers(
            key,
            iv,
            tag,
            (Received { count, staging: group_bytes(tag, group, padding), buffer }),
            group,
            (Received { count, staging: Seq::empty(), buffer }),
        ),
{
    let front = group.drop_last();
    let it = group.last();
    let frame = frame_bytes(tag, it.stream, it.kind, it.payload, padding);
    let end = Received { count, staging: Seq::<u8>::empty(), buffer };
    lemma_plain_frames(key, iv, tag, count, front, frame, buffer);
    lemma_one_frame(key, iv, tag, count, it, padding, Seq::empty(), buffer);
    assert(frame + Seq::<u8>::empty() =~= frame);
    lemma_delivers_concat(
        key,
        iv,
        tag,
        Received { count, staging: group_bytes(tag, group, padding), buffer },
        front,
        Received { count, staging: frame, buffer },
        seq![it],
        end,
    );
    assert(front + seq![it] =~= group);
}

/// A record in front of the buffer is opened.
proof fn lemma_record_front(sealed: Seq<u8>, rest: Seq<u8>)
    requires
        17 <= sealed.len() <= 0xffff,
    ensures
        data_step(data_record(sealed) + rest) == (DataStep::Data { payload: sealed, rest }),
{
    let b = data_record(sealed) + rest;
    let n = sealed.len() as int;
    let t = ContentType::ApplicationData;
    let v = ProtocolVersion::Tls12;
    assert(b[0] == t.wire());
    assert(b[1] == be16(v.wire())[0] && b[2] == be16(v.wire())[1]);
    assert(b[3] == be16(low16(sealed.len()))[0] && b[4] == be16(low16(sealed.len()))[1]);
    assert(u16_at(b, 1) == v.wire());
    assert(u16_at(b, 3) == n);
    assert(b.subrange(5, 5 + n) =~= sealed);
    assert(b.subrange(5 + n, b.len() as int) =~= rest);
    assert(TlsRecord::complete(b));
}

/// The frames of a record are handed out.
proof fn lemma_record(
    key: Seq<u8>,
    iv: Seq<u8>,
    count: int,
    tag: Seq<u8>,
    group: Seq<Item>,
    padding: Seq<u8>,
    rest: Seq<u8>,
)
    requires
        tag.len() == 16,
        sound(group),
        padding.len() <= 0xffff,
        group_len(group) + padding.len() + 16 <= 0xffff,
        packet_opens(key, iv, count, group_bytes(tag, group, padding)),
    ensures
        delivers(
            key,
            iv,
            tag,
            (Received {
                count,
                staging: Seq::empty(),
                buffer: data_record(
                    sealed_packet(key, iv, count, group_bytes(tag, group, padding)),
                ) + rest,
            }),
            group,
            (Received { count: count + 1, staging: Seq::empty(), buffer: rest }),
        ),
{
    let plain = group_bytes(tag, group, padding);
    let sealed = sealed_packet(key, iv, count, plain);
    let s = Received { count, staging: Seq::<u8>::empty(), buffer: data_record(sealed) + rest };
    let inside = Received { count: count + 1, staging: plain, buffer: rest };
    let end = Received { count: count + 1, staging: Seq::<u8>::empty(), buffer: rest };
    lemma_group_bytes_len(tag, group, padding);
    lemma_group_len_push(group.drop_last(), group.last());
    assert(group.drop_last().push(group.last()) =~= group);
    lemma_staged_group(tag, group, padding);
    lemma_decoded_record(key, iv, count, plain, rest);
    lemma_group(key, iv, tag, count + 1, group, padding, rest);
    lemma_delivers_alike(key, iv, tag, s, inside, group, end);
}

/// Decoding a record is decoding its plaintext.
proof fn lemma_decoded_record(
    key: Seq<u8>,
    iv: Seq<u8>,
    count: int,
    plain: Seq<u8>,
    rest: Seq<u8>,
)
    requires
        packet_opens(key, iv, count, plain),
        1 <= plain.len() <= 0xffff - 16,
        staged(plain) is Some,
    ensures
        ({
            let sealed = sealed_packet(key, iv, count, plain);
            decoded(
                key,
                iv,
                (Received {
                    count,
                    staging: Seq::empty(),
                    buffer: data_record(sealed) + rest,
                }),
            ) == decoded(
                key,
                iv,
                (Received { count: count + 1, staging: plain, buffer: rest }),
            )
        }),
{
    let sealed = sealed_packet(key, iv, count, plain);
    lemma_record_front(sealed, rest);
    assert(Seq::<u8>::empty() + plain =~= plain);
    assert(staged(Seq::<u8>::empty()) is None);
}

/// What decodes alike delivers alike.
proof fn lemma_delivers_alike(
    key: Seq<u8>,
    iv: Seq<u8>,
    tag: Seq<u8>,
    s: Received,
    other: Received,
    items: Seq<Item>,
    end: Received,
)
    requires
        decoded(key, iv, s) == decoded(key, iv, other),
        items.len() > 0,
        delivers(key, iv, tag, other, items, end),
    ensures
        delivers(key, iv, tag, s, items, end),
{
    reveal(delivers);
}

/// The plaintext of a record starts with a frame.
proof fn lemma_staged_group(tag: Seq<u8>, group: Seq<Item>, padding: Seq<u8>)
    requires
        tag.len() == 16,
        sound(group),
        padding.len() <= 0xffff,
    ensures
        staged(group_bytes(tag, group, padding)) is Some,
{
    let key = Seq::<u8>::empty();
    let s = Received {
        count: 0,
        staging: group_bytes(tag, group, padding),
        buffer: Seq::<u8>::empty(),
    };
    lemma_group(key, key, tag, 0, group, padding, Seq::empty());
    reveal(delivers);
    assert(decoded(key, key, s).0 is Front);
    assert(data_step(s.buffer) is Wait);
}

/// The ciphertext of a record is within what its length field can say.
proof fn lemma_sealed_len(limits: Seq<usize>, group: Seq<Item>, padding: Seq<u8>)
    requires
        sound(group),
        padding.len() == group_padding(limits, group),
    ensures
        group_len(group) + padding.len() + 16 <= 0xffff,
{
    lemma_group_len_push(group.drop_last(), group.last());
    assert(group.drop_last().push(group.last()) =~= group);
    if group.len() == 1 {
        assert(group.drop_last() =~= Seq::empty());
        assert(group_len(group.drop_last()) == 0);
        assert(group.last() == group[0]);
    }
}

/// The frames of records behind each other are handed out.
proof fn lemma_records(
    key: Seq<u8>,
    iv: Seq<u8>,
    count: int,
    tag: Seq<u8>,
    limits: Seq<usize>,
    groups: Seq<Seq<Item>>,
    paddings: Seq<Seq<u8>>,
    tail: Seq<u8>,
)
    requires
        tag.len() == 16,
        forall|i: int| 0 <= i < groups.len() ==> sound(#[trigger] groups[i]),
        encoded(
            key,
            iv,
            count,
            tag,
            limits,
            groups,
            paddings,
            records_wire(sealed_groups(key, iv, count, tag, groups, paddings)),
        ),
    ensures
        delivers(
            key,
            iv,
            tag,
            (Received {
                count,
                staging: Seq::empty(),
                buffer: records_wire(sealed_groups(key, iv, count, tag, groups, paddings)) + tail,
            }),
            flatten(groups),
            (Received { count: count + groups.len(), staging: Seq::empty(), buffer: tail }),
        ),
    decreases groups.len(),
{
    let sealed = sealed_groups(key, iv, count, tag, groups, paddings);
    let wire = records_wire(sealed);
    if groups.len() == 0 {
        assert(wire + tail =~= tail);
        reveal(delivers);
    } else {
        let n = groups.len() - 1;
        let front = groups.drop_last();
        let front_paddings = paddings.drop_last();
        let front_sealed = sealed_groups(key, iv, count, tag, front, front_paddings);
        let group = groups.last();
        let padding = paddings.last();
        let record = data_record(sealed.last());
        assert(front_sealed =~= sealed.drop_last());
        assert(sound(groups[n]));
        assert(paddings[n].len() == group_padding(limits, groups[n]));
        assert forall|i: int| 0 <= i < front.len() implies (#[trigger] front_paddings[i]).len()
            == group_padding(limits, front[i]) && packet_opens(
            key,
            iv,
            count + i,
            group_bytes(tag, front[i], front_paddings[i]),
        ) by {
            assert(front_paddings[i] == paddings[i]);
            assert(front[i] == groups[i]);
        }
        assert forall|i: int| 0 <= i < front.len() implies sound(#[trigger] front[i]) by {
            assert(front[i] == groups[i]);
        }
        lemma_records(key, iv, count, tag, limits, front, front_paddings, record + tail);
        lemma_sealed_len(limits, group, padding);
        assert(sealed.last() == sealed_packet(
            key,
            iv,
            count + n,
            group_bytes(tag, group, padding),
        ));
        assert(packet_opens(key, iv, count + n, group_bytes(tag, group, padding)));
        lemma_record(key, iv, count + n, tag, group, padding, tail);
        assert(wire + tail =~= records_wire(front_sealed) + (record + tail));
        lemma_delivers_concat(
            key,
            iv,
            tag,
            Received { count, staging: Seq::empty(), buffer: wire + tail },
            flatten(front),
            Received { count: count + n, staging: Seq::empty(), buffer: record + tail },
            group,
            Received { count: count + groups.len(), staging: Seq::empty(), buffer: tail },
        );
    }
}

} // verus!
