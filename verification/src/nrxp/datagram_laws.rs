//! What a datagram leg is for: datagrams are numbered apart, each gives its frame back in
//! whatever order they arrive, none does so twice, and what is not genuine changes nothing.

use vstd::arithmetic::power2::pow2;
use vstd::prelude::*;

use crate::buffers::bytes_view;
use crate::crypto::datagram_keys::{next_id, EpochView, RatchetView};
use crate::errors::{ErrorAction, TlsError};
use crate::nrxp::batch::Item;
use crate::nrxp::datagram::{
    datagram_frame, lemma_datagram_number, lemma_seal_open_round_trip, reports, sealed_under,
    sent_after, stepped, Datagram, ReceiverView, SenderView, SlotView,
};
use crate::nrxp::frame::Frame;
use crate::nrxp::replay::{
    lemma_tried_wf, lemma_truncate_expand_round_trip, truncated, WindowView,
};

verus! {

/// The epoch of a chain `n` steps on.
proof fn lemma_epoch_number(chain: RatchetView, n: nat)
    ensures
        stepped(chain, n).epoch_id == (chain.epoch_id + n) % 256,
    decreases n,
{
    if n > 0 {
        lemma_epoch_number(chain, (n - 1) as nat);
    }
}

/// The datagram after `n` others of a fresh sender has counter `n` modulo the length of an
/// epoch, and the epoch is how often that length was reached, modulo 256.
pub proof fn lemma_seal_numbers(tx: SenderView, n: nat)
    requires
        tx.counter == 0,
        tx.keys.tx.epoch_id == 0,
    ensures
        sent_after(tx, n).ready().counter == n % 16384,
        sent_after(tx, n).ready().keys.tx.epoch_id == (n / 16384) % 256,
{
    lemma_datagram_number(tx, n);
    lemma_epoch_number(tx.keys.tx, n / 16384);
}

/// Among 2^22 datagrams in a row no two have the same epoch and the same counter.
pub proof fn lemma_numbers_do_not_repeat(tx: SenderView, i: nat, j: nat)
    requires
        tx.counter == 0,
        tx.keys.tx.epoch_id == 0,
        i < j < i + 0x40_0000,
    ensures
        ({
            let a = sent_after(tx, i).ready();
            let b = sent_after(tx, j).ready();
            a.keys.tx.epoch_id != b.keys.tx.epoch_id || a.counter != b.counter
        }),
{
    lemma_seal_numbers(tx, i);
    lemma_seal_numbers(tx, j);
}

/// A frame that was sealed: the datagram as it comes off the wire, its full counter, and what
/// it carries.
pub struct Sent {
    /// The datagram.
    pub datagram: Datagram,
    /// Its full counter.
    pub counter: u64,
    /// Its frame.
    pub item: Item,
}

impl Sent {
    /// Whether the datagram is the frame, sealed under the keys of an epoch, with the low bits
    /// of its counter.
    pub open spec fn is_of(self, epoch: EpochView) -> bool {
        &&& self.datagram.epoch_id == epoch.epoch_id
        &&& 1 <= self.datagram.wire_bits < 64
        &&& self.datagram.wire_counter == truncated(
            self.counter as int,
            self.datagram.wire_bits as nat,
        )
        &&& self.item.payload.len() <= 0xffff
        &&& sealed_under(
            epoch,
            self.counter,
            self.datagram.aad,
            datagram_frame(self.item.stream, self.item.kind, self.item.payload),
            self.datagram.ciphertext,
        )
    }

    /// Half of what the bits on the wire can tell apart.
    pub open spec fn half(self) -> int {
        pow2((self.datagram.wire_bits - 1) as nat) as int
    }

    /// Whether a result is the frame.
    pub open spec fn comes_out(self, r: Result<Frame, TlsError>) -> bool {
        r matches Ok(frame) && frame.header.stream_id == self.item.stream
            && frame.header.frame_type == self.item.kind && bytes_view(frame.payload)
            == self.item.payload
    }
}

/// What the next datagram of a sender carries comes out at a receiver that stands at the same
/// place of the chain. The counter must not have come through, nor be too far behind the
/// highest that did, and it must be near enough to the one after it to be told from its low
/// bits.
pub proof fn lemma_next_datagram_comes_out(
    tx: SenderView,
    rx: ReceiverView,
    sent: Sent,
    r: Result<Frame, TlsError>,
)
    requires
        rx.wf(),
        tx.ready().keys.tx == rx.keys.rx,
        sent.counter == tx.ready().counter,
        sent.is_of(tx.ready().keys.tx.current()),
        rx.current.window.accepts(sent.counter),
        -sent.half() < sent.counter - (rx.current.window.highest + 1) < sent.half(),
        reports(rx.opened(sent.datagram).0, r),
    ensures
        sent.comes_out(r),
        rx.opened(sent.datagram).1 == (ReceiverView {
            current: SlotView {
                window: rx.current.window.tried(sent.counter),
                ..rx.current
            },
            ..rx
        }),
{
    lemma_comes_out(rx, sent, r);
}

/// A datagram of the current epoch comes out.
proof fn lemma_comes_out(rx: ReceiverView, sent: Sent, r: Result<Frame, TlsError>)
    requires
        rx.wf(),
        sent.is_of(rx.current.epoch),
        rx.current.window.accepts(sent.counter),
        rx.current.window.highest - sent.half() < sent.counter <= rx.current.window.highest
            + sent.half(),
    ensures
        reports(rx.opened(sent.datagram).0, r) ==> sent.comes_out(r),
        rx.opened(sent.datagram).1 == (ReceiverView {
            current: SlotView {
                window: rx.current.window.tried(sent.counter),
                ..rx.current
            },
            ..rx
        }),
{
    lemma_truncate_expand_round_trip(
        rx.current.window.highest as int,
        sent.counter as int,
        sent.datagram.wire_bits as nat,
    );
    assert(rx.current.counter_of(sent.datagram) == sent.counter);
    if reports(rx.opened(sent.datagram).0, r) {
        lemma_seal_open_round_trip(
            rx,
            sent.datagram,
            rx.current,
            sent.counter,
            sent.item.stream,
            sent.item.kind,
            sent.item.payload,
            r,
        );
    }
}

/// What a receiver knows once the first `n` of the datagrams have arrived.
pub open spec fn received_after(rx: ReceiverView, ds: Seq<Datagram>, n: nat) -> ReceiverView
    decreases n,
{
    if n == 0 {
        rx
    } else {
        received_after(rx, ds, (n - 1) as nat).opened(ds[n - 1]).1
    }
}

/// The datagrams.
pub open spec fn datagrams_of(sent: Seq<Sent>) -> Seq<Datagram> {
    Seq::new(sent.len(), |i: int| sent[i].datagram)
}

/// Whether frames of the receiver's current epoch can arrive in any order: their counters
/// differ, none has come through yet, and they are no further from each other and from the
/// highest counter so far than the window spans and the bits on the wire can tell.
pub open spec fn any_order(rx: ReceiverView, sent: Seq<Sent>) -> bool {
    let window = rx.current.window;
    &&& forall|i: int| 0 <= i < sent.len() ==> (#[trigger] sent[i]).is_of(rx.current.epoch)
    &&& forall|i: int|
        0 <= i < sent.len() ==> {
            &&& !window.seen.contains((#[trigger] sent[i]).counter as int)
            &&& window.started ==> window.highest - sent[i].counter < 1024
            &&& window.highest - sent[i].half() < sent[i].counter <= window.highest
                + sent[i].half()
        }
    &&& forall|i: int, j: int|
        0 <= i < sent.len() && 0 <= j < sent.len() && i != j ==> {
            &&& (#[trigger] sent[i]).counter != (#[trigger] sent[j]).counter
            &&& sent[i].counter - sent[j].counter < 1024
            &&& sent[i].counter - sent[j].counter < sent[j].half()
        }
}

/// Datagrams may arrive in any order: every one of them gives its frame back.
pub proof fn lemma_any_order_comes_out(rx: ReceiverView, sent: Seq<Sent>, k: int, r: Result<
    Frame,
    TlsError,
>)
    requires
        rx.wf(),
        any_order(rx, sent),
        0 <= k < sent.len(),
        reports(
            received_after(rx, datagrams_of(sent), k as nat).opened(sent[k].datagram).0,
            r,
        ),
    ensures
        sent[k].comes_out(r),
{
    lemma_any_order_so_far(rx, sent, k as nat);
    lemma_comes_out(received_after(rx, datagrams_of(sent), k as nat), sent[k], r);
}

/// What is known once the first `n` of the datagrams have arrived, in whatever order.
proof fn lemma_any_order_so_far(rx: ReceiverView, sent: Seq<Sent>, n: nat)
    requires
        rx.wf(),
        any_order(rx, sent),
        n <= sent.len(),
    ensures
        ({
            let now = received_after(rx, datagrams_of(sent), n);
            let window = now.current.window;
            let first = rx.current.window;
            &&& now.wf()
            &&& now.current.epoch == rx.current.epoch
            &&& window.highest >= first.highest
            &&& window.started == first.started && window.highest == first.highest || exists|j: int|
                0 <= j < n && window.highest == (#[trigger] sent[j]).counter
            &&& forall|i: int|
                n <= i < sent.len() ==> !window.seen.contains((#[trigger] sent[i]).counter as int)
            &&& forall|i: int|
                n <= i < sent.len() ==> {
                    &&& window.accepts((#[trigger] sent[i]).counter)
                    &&& window.highest - sent[i].half() < sent[i].counter <= window.highest
                        + sent[i].half()
                }
        }),
    decreases n,
{
    if n > 0 {
        let k = n - 1;
        lemma_any_order_so_far(rx, sent, k as nat);
        let before = received_after(rx, datagrams_of(sent), k as nat);
        let now = received_after(rx, datagrams_of(sent), n);
        lemma_comes_out(before, sent[k], arbitrary());
        lemma_tried_wf(before.current.window, sent[k].counter);
        assert(now.current.window == before.current.window.tried(sent[k].counter));
        assert(now.wf());
    }
}

/// A datagram that is not genuine under the keys of the epoch that it claims, or claims one
/// that is neither the current one nor next to it, is dropped and changes nothing: the chain
/// stays where it is, and what would have come out still does.
pub proof fn lemma_forgery_is_dropped(rx: ReceiverView, d: Datagram, r: Result<Frame, TlsError>)
    requires
        rx.slot_for(d.epoch_id) matches Some(slot) ==> slot.decrypted(d) is None,
        reports(rx.opened(d).0, r),
    ensures
        r matches Err(e) && e.action == ErrorAction::Drop,
        rx.opened(d).1 == rx,
        forall|other: Datagram| rx.opened(d).1.opened(other) == #[trigger] rx.opened(other),
{
}

/// Only datagrams of the current epoch, of the one before it that is kept, and of the next one
/// come out. One of the next epoch makes that the current one, and the current one the only
/// one before it; any other leaves the epochs as they are.
pub proof fn lemma_epoch_rules(rx: ReceiverView, d: Datagram, r: Result<Frame, TlsError>)
    requires
        rx.wf(),
        reports(rx.opened(d).0, r),
        r is Ok,
    ensures
        ({
            let now = rx.current.epoch.epoch_id;
            let after = rx.opened(d).1;
            &&& d.epoch_id == now || d.epoch_id == next_id(now) || (rx.previous matches Some(slot)
                && d.epoch_id == slot.epoch.epoch_id)
            &&& d.epoch_id == next_id(now) ==> after.current.epoch.epoch_id == next_id(now)
                && after.previous == Some(rx.current)
            &&& d.epoch_id != next_id(now) ==> after.current.epoch == rx.current.epoch && (
            match rx.previous {
                Some(slot) => after.previous matches Some(kept) && kept.epoch == slot.epoch,
                None => after.previous is None,
            })
        }),
{
}

/// What a receiver knows stays in order, whatever datagram arrives.
pub proof fn lemma_opened_wf(rx: ReceiverView, d: Datagram)
    requires
        rx.wf(),
    ensures
        rx.opened(d).1.wf(),
{
    if rx.slot_for(d.epoch_id) is Some {
        let slot = rx.slot_for(d.epoch_id)->0;
        lemma_tried_wf(slot.window, slot.counter_of(d) as u64);
    }
}

/// Whether a datagram starts the next epoch.
pub open spec fn starts_epoch(rx: ReceiverView, d: Datagram) -> bool {
    d.epoch_id == next_id(rx.current.epoch.epoch_id) && rx.opened(d).0 is Plain
}

/// How many epochs the first `n` of the datagrams start.
pub open spec fn epochs_started(rx: ReceiverView, ds: Seq<Datagram>, n: nat) -> nat
    decreases n,
{
    if n == 0 {
        0
    } else {
        let before = received_after(rx, ds, (n - 1) as nat);
        epochs_started(rx, ds, (n - 1) as nat) + if starts_epoch(before, ds[n - 1]) {
            1nat
        } else {
            0nat
        }
    }
}

/// Whether the counter of an epoch that began `age` epochs ago is closed: it cannot come
/// through as long as the epoch is kept.
spec fn closed_to(rx: ReceiverView, epoch_id: u8, counter: u64, age: nat) -> bool {
    if age == 0 {
        &&& rx.current.epoch.epoch_id == epoch_id
        &&& !rx.current.window.accepts(counter)
    } else if age == 1 {
        &&& rx.previous matches Some(slot) && slot.epoch.epoch_id == epoch_id
            && !slot.window.accepts(counter)
    } else {
        rx.current.epoch.epoch_id == (epoch_id + age) % 256
    }
}

/// A counter that is closed stays so when another is tried.
proof fn lemma_stays_closed(window: WindowView, counter: u64, other: u64)
    requires
        window.wf(),
        !window.accepts(counter),
    ensures
        !window.tried(other).accepts(counter),
{
}

/// A counter that is closed stays so when another datagram arrives.
proof fn lemma_closed_step(rx: ReceiverView, epoch_id: u8, counter: u64, age: nat, d: Datagram)
    requires
        rx.wf(),
        closed_to(rx, epoch_id, counter, age),
    ensures
        closed_to(
            rx.opened(d).1,
            epoch_id,
            counter,
            if starts_epoch(rx, d) {
                age + 1
            } else {
                age
            },
        ),
{
    let after = rx.opened(d).1;
    let id = rx.current.epoch.epoch_id;
    if starts_epoch(rx, d) {
        assert(after.previous == Some(rx.current));
        assert(after.current.epoch.epoch_id == next_id(id));
        assert(next_id(id) == (id + 1) % 256);
        if age == 1 {
            assert(id == next_id(epoch_id));
        }
    } else {
        lemma_slots_stay_closed(rx, d, counter);
    }
}

/// A counter that is closed in an epoch stays so when a datagram arrives that starts none.
proof fn lemma_slots_stay_closed(rx: ReceiverView, d: Datagram, counter: u64)
    requires
        rx.wf(),
        !starts_epoch(rx, d),
    ensures
        ({
            let after = rx.opened(d).1;
            &&& after.current.epoch == rx.current.epoch
            &&& !rx.current.window.accepts(counter) ==> !after.current.window.accepts(counter)
            &&& rx.previous matches Some(slot) ==> {
                &&& after.previous matches Some(kept)
                &&& kept.epoch == slot.epoch
                &&& !slot.window.accepts(counter) ==> !kept.window.accepts(counter)
            }
        }),
{
    if rx.opened(d).0 is Plain {
        let slot = rx.slot_for(d.epoch_id)->0;
        if !slot.window.accepts(counter) {
            lemma_stays_closed(slot.window, counter, slot.counter_of(d) as u64);
        }
    }
}

/// A datagram that came through does not come through again, whatever arrives in between:
/// it is dropped, and nothing changes.
///
/// Its counter must still be told from its low bits if its epoch is still kept, and the
/// numbers of the epochs must not have come round to its own.
pub proof fn lemma_never_twice(rx: ReceiverView, d: Datagram, between: Seq<Datagram>)
    requires
        rx.wf(),
        rx.opened(d).0 is Plain,
        epochs_started(rx.opened(d).1, between, between.len()) < 254,
        ({
            let later = received_after(rx.opened(d).1, between, between.len());
            later.slot_for(d.epoch_id) matches Some(slot) ==> slot.counter_of(d) == (
            rx.slot_for(d.epoch_id)->0).counter_of(d)
        }),
    ensures
        ({
            let later = received_after(rx.opened(d).1, between, between.len());
            &&& later.opened(d).0 is Drop
            &&& later.opened(d).1 == later
        }),
{
    let after = rx.opened(d).1;
    let counter = (rx.slot_for(d.epoch_id)->0).counter_of(d);
    let age = age_of(rx, d);
    lemma_opened_wf(rx, d);
    lemma_passed_is_closed(rx, d);
    lemma_closed_through(after, d.epoch_id, counter as u64, age, between, between.len());
    let later = received_after(after, between, between.len());
    lemma_closed_is_dropped(
        later,
        d,
        counter,
        age + epochs_started(after, between, between.len()),
    );
}

/// How many epochs ago the epoch of a datagram began, once it has come through.
spec fn age_of(rx: ReceiverView, d: Datagram) -> nat {
    if d.epoch_id == rx.current.epoch.epoch_id || d.epoch_id == next_id(
        rx.current.epoch.epoch_id,
    ) {
        0
    } else {
        1
    }
}

/// The counter of a datagram that came through is closed.
proof fn lemma_passed_is_closed(rx: ReceiverView, d: Datagram)
    requires
        rx.wf(),
        rx.opened(d).0 is Plain,
    ensures
        closed_to(
            rx.opened(d).1,
            d.epoch_id,
            (rx.slot_for(d.epoch_id)->0).counter_of(d) as u64,
            age_of(rx, d),
        ),
{
    let slot = rx.slot_for(d.epoch_id)->0;
    lemma_tried_wf(slot.window, slot.counter_of(d) as u64);
}

/// A datagram with a counter that is closed is dropped.
proof fn lemma_closed_is_dropped(rx: ReceiverView, d: Datagram, counter: int, age: nat)
    requires
        rx.wf(),
        age <= 254,
        closed_to(rx, d.epoch_id, counter as u64, age),
        rx.slot_for(d.epoch_id) matches Some(slot) ==> slot.counter_of(d) == counter,
    ensures
        rx.opened(d).0 is Drop,
        rx.opened(d).1 == rx,
{
}

/// A counter that is closed stays so when other datagrams arrive.
proof fn lemma_closed_through(
    rx: ReceiverView,
    epoch_id: u8,
    counter: u64,
    age: nat,
    ds: Seq<Datagram>,
    n: nat,
)
    requires
        rx.wf(),
        closed_to(rx, epoch_id, counter, age),
    ensures
        received_after(rx, ds, n).wf(),
        closed_to(
            received_after(rx, ds, n),
            epoch_id,
            counter,
            age + epochs_started(rx, ds, n),
        ),
    decreases n,
{
    if n > 0 {
        lemma_closed_through(rx, epoch_id, counter, age, ds, (n - 1) as nat);
        let before = received_after(rx, ds, (n - 1) as nat);
        lemma_opened_wf(before, ds[n - 1]);
        lemma_closed_step(
            before,
            epoch_id,
            counter,
            age + epochs_started(rx, ds, (n - 1) as nat),
            ds[n - 1],
        );
    }
}

} // verus!
