//! How outgoing frames are packed into records.

use bytes::Bytes;
use vstd::prelude::*;

use crate::buffers::bytes_view;
use crate::nrxp::frame::{frame_bytes, FrameType, MAX_RECORD_PLAINTEXT};
use crate::nrxp::shaper::shaped_padding;

verus! {

/// A frame to be sent: stream, type, payload.
pub type Outgoing = (u32, FrameType, Bytes);

/// A frame to be sent, or received: stream, type, payload.
pub struct Item {
    /// The stream.
    pub stream: u32,
    /// The type.
    pub kind: FrameType,
    /// The payload.
    pub payload: Seq<u8>,
}

/// The item that an outgoing frame is.
pub open spec fn item_of(it: Outgoing) -> Item {
    Item { stream: it.0, kind: it.1, payload: bytes_view(it.2) }
}

/// The items that outgoing frames are.
pub open spec fn items_of(list: Seq<Outgoing>) -> Seq<Item> {
    Seq::new(list.len(), |i: int| item_of(list[i]))
}

/// The length of a frame without padding.
pub open spec fn item_len(it: Item) -> nat {
    25 + it.payload.len()
}

/// The length of frames without padding.
pub open spec fn group_len(group: Seq<Item>) -> nat
    decreases group.len(),
{
    if group.len() == 0 {
        0
    } else {
        group_len(group.drop_last()) + item_len(group.last())
    }
}

/// Whether frames fit into one record.
pub open spec fn fits(group: Seq<Item>) -> bool {
    group_len(group) <= MAX_RECORD_PLAINTEXT
}

/// The frames of each record: a frame joins the last record if it fits there, and starts a
/// new one otherwise.
pub open spec fn pack(items: Seq<Item>) -> Seq<Seq<Item>>
    decreases items.len(),
{
    if items.len() == 0 {
        Seq::empty()
    } else {
        let before = pack(items.drop_last());
        if before.len() > 0 && fits(before.last().push(items.last())) {
            before.drop_last().push(before.last().push(items.last()))
        } else {
            before.push(seq![items.last()])
        }
    }
}

/// Groups behind each other.
pub open spec fn flatten(groups: Seq<Seq<Item>>) -> Seq<Item>
    decreases groups.len(),
{
    if groups.len() == 0 {
        Seq::empty()
    } else {
        flatten(groups.drop_last()) + groups.last()
    }
}

/// Whether groups are some way to send items in order: no record is empty, and each has one
/// frame or fits.
pub open spec fn is_packing(items: Seq<Item>, groups: Seq<Seq<Item>>) -> bool {
    &&& flatten(groups) == items
    &&& forall|i: int|
        0 <= i < groups.len() ==> (#[trigger] groups[i]).len() > 0 && (fits(groups[i])
            || groups[i].len() == 1)
}

/// The padding of a record. One that a single frame overfills gets none.
pub open spec fn group_padding(boundaries: Seq<usize>, group: Seq<Item>) -> int {
    if fits(group) {
        shaped_padding(boundaries, group_len(group) as int)
    } else {
        0
    }
}

/// The frames of a record, none of them padded.
pub open spec fn plain_frames(tag: Seq<u8>, group: Seq<Item>) -> Seq<u8>
    decreases group.len(),
{
    if group.len() == 0 {
        Seq::empty()
    } else {
        let it = group.last();
        plain_frames(tag, group.drop_last()) + frame_bytes(
            tag,
            it.stream,
            it.kind,
            it.payload,
            Seq::empty(),
        )
    }
}

/// The plaintext of a record: its frames, the last one padded.
pub open spec fn group_bytes(tag: Seq<u8>, group: Seq<Item>, padding: Seq<u8>) -> Seq<u8> {
    let it = group.last();
    plain_frames(tag, group.drop_last()) + frame_bytes(
        tag,
        it.stream,
        it.kind,
        it.payload,
        padding,
    )
}

/// The lengths of a record's plaintext.
pub proof fn lemma_group_bytes_len(tag: Seq<u8>, group: Seq<Item>, padding: Seq<u8>)
    requires
        tag.len() == 16,
    ensures
        plain_frames(tag, group).len() == group_len(group),
        group.len() > 0 ==> group_bytes(tag, group, padding).len() == group_len(group)
            + padding.len(),
    decreases group.len(),
{
    if group.len() > 0 {
        lemma_group_bytes_len(tag, group.drop_last(), padding);
    }
}

/// Every item makes a group longer.
pub proof fn lemma_group_len_push(group: Seq<Item>, it: Item)
    ensures
        group_len(group.push(it)) == group_len(group) + item_len(it),
        group_len(seq![it]) == item_len(it),
{
    assert(group.push(it).drop_last() =~= group);
    assert(seq![it].drop_last() =~= Seq::empty());
    assert(group_len(Seq::<Item>::empty()) == 0);
}

/// A part of a group is no longer than the group.
pub proof fn lemma_group_len_front(group: Seq<Item>, n: int)
    requires
        0 <= n <= group.len(),
    ensures
        group_len(group.subrange(0, n)) <= group_len(group),
    decreases group.len(),
{
    if n == group.len() {
        assert(group.subrange(0, n) =~= group);
    } else {
        lemma_group_len_front(group.drop_last(), n);
        assert(group.drop_last().subrange(0, n) =~= group.subrange(0, n));
    }
}

/// The length of two groups behind each other.
pub proof fn lemma_group_len_concat(a: Seq<Item>, b: Seq<Item>)
    ensures
        group_len(a + b) == group_len(a) + group_len(b),
    decreases b.len(),
{
    if b.len() == 0 {
        assert(a + b =~= a);
    } else {
        lemma_group_len_concat(a, b.drop_last());
        assert((a + b).drop_last() =~= a + b.drop_last());
    }
}

/// What is packed already stays as it is: all records but the last, and the last one too when
/// a single frame overfills it.
pub proof fn lemma_pack_prefix(items: Seq<Item>, n: int)
    requires
        0 <= n <= items.len(),
    ensures
        ({
            let part = pack(items.subrange(0, n));
            let all = pack(items);
            &&& part.len() <= all.len()
            &&& forall|j: int| 0 <= j < part.len() - 1 ==> all[j] == part[j]
            &&& part.len() > 0 && !fits(part.last()) ==> all[part.len() - 1] == part.last()
        }),
    decreases items.len() - n,
{
    if n == items.len() {
        assert(items.subrange(0, n) =~= items);
    } else {
        let part = pack(items.subrange(0, n));
        let more = items.subrange(0, n + 1);
        assert(more.drop_last() =~= items.subrange(0, n));
        if part.len() > 0 {
            lemma_group_len_push(part.last(), more.last());
        }
        lemma_pack_prefix(items, n + 1);
        let next = pack(more);
        let all = pack(items);
        assert forall|j: int| 0 <= j < part.len() - 1 implies all[j] == part[j] by {
            assert(next[j] == part[j]);
        }
        if part.len() > 0 && !fits(part.last()) {
            assert(next == part.push(seq![more.last()]));
            assert(next[part.len() - 1] == part.last());
        }
    }
}

/// There are no more records than frames.
pub proof fn lemma_pack_len(items: Seq<Item>)
    ensures
        pack(items).len() <= items.len(),
        items.len() > 0 ==> pack(items).len() > 0,
    decreases items.len(),
{
    if items.len() > 0 {
        lemma_pack_len(items.drop_last());
    }
}

/// Packing keeps every frame and its place, and fills no record beyond its limit but by a
/// single frame.
pub proof fn lemma_pack_is_packing(items: Seq<Item>)
    ensures
        is_packing(items, pack(items)),
    decreases items.len(),
{
    if items.len() > 0 {
        let front = items.drop_last();
        let it = items.last();
        let before = pack(front);
        lemma_pack_is_packing(front);
        let groups = pack(items);
        assert(items =~= front.push(it));
        if before.len() > 0 && fits(before.last().push(it)) {
            assert(groups.drop_last() =~= before.drop_last());
            assert(flatten(groups) =~= items);
            assert forall|i: int| 0 <= i < groups.len() implies (#[trigger] groups[i]).len() > 0
                && (fits(groups[i]) || groups[i].len() == 1) by {
                if i < groups.len() - 1 {
                    assert(groups[i] == before[i]);
                }
            }
        } else {
            assert(groups.drop_last() =~= before);
            assert(flatten(groups) =~= items);
            assert forall|i: int| 0 <= i < groups.len() implies (#[trigger] groups[i]).len() > 0
                && (fits(groups[i]) || groups[i].len() == 1) by {
                if i < groups.len() - 1 {
                    assert(groups[i] == before[i]);
                }
            }
        }
    } else {
        assert(flatten(pack(items)) =~= items);
    }
}

/// No other way to send the frames in order takes fewer records.
pub proof fn lemma_pack_is_smallest(items: Seq<Item>, other: Seq<Seq<Item>>)
    requires
        is_packing(items, other),
    ensures
        pack(items).len() <= other.len(),
{
    lemma_pack_reaches(items, other, other.len() as int);
    assert(other.subrange(0, other.len() as int) =~= other);
    assert(items.subrange(0, items.len() as int) =~= items);
}

/// Every frame of a group is one of all frames.
pub proof fn lemma_flatten_holds(groups: Seq<Seq<Item>>, i: int, k: int) -> (place: int)
    requires
        0 <= i < groups.len(),
        0 <= k < groups[i].len(),
    ensures
        0 <= place < flatten(groups).len(),
        flatten(groups)[place] == groups[i][k],
    decreases groups.len(),
{
    let front = flatten(groups.drop_last());
    if i == groups.len() - 1 {
        front.len() + k
    } else {
        lemma_flatten_holds(groups.drop_last(), i, k)
    }
}

/// Every frame is in some group.
pub proof fn lemma_flatten_place(groups: Seq<Seq<Item>>, place: int) -> (r: (int, int))
    requires
        0 <= place < flatten(groups).len(),
    ensures
        0 <= r.0 < groups.len(),
        0 <= r.1 < groups[r.0].len(),
        groups[r.0][r.1] == flatten(groups)[place],
    decreases groups.len(),
{
    let front = flatten(groups.drop_last());
    if place < front.len() {
        lemma_flatten_place(groups.drop_last(), place)
    } else {
        (groups.len() - 1, place - front.len())
    }
}

/// No frame is longer than its group.
pub proof fn lemma_group_len_at(group: Seq<Item>, k: int)
    requires
        0 <= k < group.len(),
    ensures
        item_len(group[k]) <= group_len(group),
    decreases group.len(),
{
    if k < group.len() - 1 {
        lemma_group_len_at(group.drop_last(), k);
    }
}

/// How many frames the first `n` groups hold.
spec fn held(groups: Seq<Seq<Item>>, n: int) -> int {
    flatten(groups.subrange(0, n)).len() as int
}

/// With the frames of the first `n` groups of any packing, ours has at most `n` records.
proof fn lemma_pack_reaches(items: Seq<Item>, other: Seq<Seq<Item>>, n: int)
    requires
        is_packing(items, other),
        0 <= n <= other.len(),
    ensures
        flatten(other.subrange(0, n)) == items.subrange(0, held(other, n)),
        held(other, n) <= items.len(),
        pack(items.subrange(0, held(other, n))).len() <= n,
    decreases n,
{
    let front = other.subrange(0, n);
    lemma_flatten_prefix(other, n);
    assert(flatten(front) =~= items.subrange(0, held(other, n)));
    if n == 0 {
        assert(front =~= Seq::empty());
        assert(items.subrange(0, 0) =~= Seq::empty());
    } else {
        lemma_pack_reaches(items, other, n - 1);
        let last = other[n - 1];
        assert(front.drop_last() =~= other.subrange(0, n - 1));
        let m = held(other, n - 1);
        assert(held(other, n) == m + last.len());
        assert forall|k: int| 0 <= k < last.len() implies items[m + k] == last[k] by {
            assert(flatten(front) == flatten(front.drop_last()) + last);
            assert(flatten(front)[m + k] == last[k]);
        }
        assert(items.subrange(m, m + last.len()) =~= last);
        lemma_pack_adds_one(items, m, last.len() as int);
    }
}

/// The front groups hold the front frames.
proof fn lemma_flatten_prefix(groups: Seq<Seq<Item>>, n: int)
    requires
        0 <= n <= groups.len(),
    ensures
        flatten(groups.subrange(0, n)).len() <= flatten(groups).len(),
        flatten(groups.subrange(0, n)) == flatten(groups).subrange(
            0,
            flatten(groups.subrange(0, n)).len() as int,
        ),
    decreases groups.len() - n,
{
    if n == groups.len() {
        assert(groups.subrange(0, n) =~= groups);
        assert(flatten(groups).subrange(0, flatten(groups).len() as int) =~= flatten(groups));
    } else {
        lemma_flatten_prefix(groups, n + 1);
        let more = groups.subrange(0, n + 1);
        assert(more.drop_last() =~= groups.subrange(0, n));
        assert(flatten(more) == flatten(groups.subrange(0, n)) + groups[n]);
        assert(flatten(groups.subrange(0, n)) =~= flatten(more).subrange(
            0,
            flatten(groups.subrange(0, n)).len() as int,
        ));
    }
}

/// Frames that fit into one record, or a single frame, take at most one record more.
proof fn lemma_pack_adds_one(items: Seq<Item>, m: int, k: int)
    requires
        0 <= m,
        0 < k,
        m + k <= items.len(),
        fits(items.subrange(m, m + k)) || k == 1,
    ensures
        pack(items.subrange(0, m + k)).len() <= pack(items.subrange(0, m)).len() + 1,
    decreases k,
{
    let now = items.subrange(0, m + k);
    assert(now.drop_last() =~= items.subrange(0, m + k - 1));
    if k > 1 {
        let run = items.subrange(m, m + k);
        assert(run.drop_last() =~= items.subrange(m, m + k - 1));
        lemma_pack_adds_one(items, m, k - 1);
        let before = pack(items.subrange(0, m + k - 1));
        if before.len() == pack(items.subrange(0, m)).len() + 1 {
            lemma_new_record_is_suffix(items, m, k - 1);
            let last = before.last();
            lemma_group_len_push(last, items[m + k - 1]);
            let rest = run.drop_last();
            lemma_group_len_suffix(rest, last.len() as int);
            assert(rest.subrange(rest.len() - last.len(), rest.len() as int) =~= last);
            assert(run.last() == items[m + k - 1]);
            assert(fits(last.push(items[m + k - 1])));
        }
    }
}

/// If frames behind the first `m` took a record of their own, the last record holds none of
/// the first `m`.
proof fn lemma_new_record_is_suffix(items: Seq<Item>, m: int, k: int)
    requires
        0 <= m,
        0 < k,
        m + k <= items.len(),
        pack(items.subrange(0, m + k)).len() == pack(items.subrange(0, m)).len() + 1,
    ensures
        ({
            let last = pack(items.subrange(0, m + k)).last();
            &&& last.len() <= k
            &&& last == items.subrange(m + k - last.len(), m + k)
        }),
    decreases k,
{
    let now = items.subrange(0, m + k);
    let prior = items.subrange(0, m + k - 1);
    assert(now.drop_last() =~= prior);
    let before = pack(prior);
    let last = pack(now).last();
    if before.len() > 0 && fits(before.last().push(now.last())) {
        if k == 1 {
            assert(prior =~= items.subrange(0, m));
        } else {
            lemma_pack_monotone(items, m, m + k - 1);
            lemma_new_record_is_suffix(items, m, k - 1);
            assert(last =~= items.subrange(m + k - last.len(), m + k));
        }
    } else {
        assert(last =~= items.subrange(m + k - 1, m + k));
    }
}

/// More frames never take fewer records.
proof fn lemma_pack_monotone(items: Seq<Item>, a: int, b: int)
    requires
        0 <= a <= b <= items.len(),
    ensures
        pack(items.subrange(0, a)).len() <= pack(items.subrange(0, b)).len(),
    decreases b - a,
{
    if a < b {
        lemma_pack_monotone(items, a, b - 1);
        assert(items.subrange(0, b).drop_last() =~= items.subrange(0, b - 1));
    }
}

/// A rear part of a group is no longer than the group.
proof fn lemma_group_len_suffix(group: Seq<Item>, n: int)
    requires
        0 <= n <= group.len(),
    ensures
        group_len(group.subrange(group.len() - n, group.len() as int)) <= group_len(group),
{
    let front = group.subrange(0, group.len() - n);
    let rear = group.subrange(group.len() - n, group.len() as int);
    assert(group =~= front + rear);
    lemma_group_len_concat(front, rear);
}

} // verus!
