//! The datagram codec: one frame per datagram, in whatever order the datagrams arrive.
//!
//! The nonce comes from a full 64-bit counter, of which only the low bits go on the wire.
//! Keys change epoch by epoch along a one-way chain. Where in a packet the epoch and the
//! counter stand, and what else is authenticated with it, is up to the caller.

use bytes::{Bytes, BytesMut};
use vstd::arithmetic::power2::pow2;
use vstd::prelude::*;

use crate::buffers::{buf_from, buf_view, bytes_view};
use crate::crypto::chacha::{build_nonce, nonce_of};
use crate::crypto::datagram_keys::{
    next_id, DatagramEpochKeys, DatagramKeyMaterial, EpochView, MaterialView, RatchetView,
};
use crate::crypto::primitives::{
    aead_open, answerable, open_in_place, seal_in_place, sealable, sealed_as, TAG_LEN,
};
use crate::errors::{ErrorAction, ErrorStage, TlsError};
use crate::nrxp::frame::{
    frame_bytes, lemma_frame_round_trip, written_frame, Frame, FrameType,
};
use crate::nrxp::replay::{
    expand_counter, expanded, lemma_expand_at_highest, lemma_expanded_is_nearest, lemma_tried_wf,
    lemma_truncate_expand_round_trip, lemma_wire_window, nearest_counter, truncated, ReplayWindow,
    WindowView,
};
use crate::parser::Parser;
use crate::utils::byte_order::zeros;

verus! {

/// How many datagrams are sent under the keys of one epoch.
pub const REKEY_AFTER_DATAGRAMS: u64 = 16384;

/// A datagram, and what its receiver has to be told to open it.
pub struct SealedDatagram {
    /// The epoch of the keys.
    pub epoch_id: u8,
    /// The full counter.
    pub counter: u64,
    /// The ciphertext.
    pub ciphertext: Bytes,
}

/// What the sending side knows.
pub struct SenderView {
    /// The keys.
    pub keys: MaterialView,
    /// The counter of the next datagram.
    pub counter: u64,
}

impl SenderView {
    /// The same once the epoch was changed, if it has sent enough.
    pub open spec fn ready(self) -> Self {
        if self.counter >= REKEY_AFTER_DATAGRAMS {
            self.rekeyed()
        } else {
            self
        }
    }

    /// The same in the next epoch.
    pub open spec fn rekeyed(self) -> Self {
        SenderView {
            keys: MaterialView { tx: self.keys.tx.next(), ..self.keys },
            counter: 0,
        }
    }

    /// The same once a datagram was sealed, or failed to be.
    pub open spec fn sealed(self) -> Self {
        SenderView { counter: (self.ready().counter + 1) as u64, ..self.ready() }
    }
}

/// The plaintext of a datagram: a frame with neither tag nor padding.
pub open spec fn datagram_frame(stream_id: u32, kind: FrameType, payload: Seq<u8>) -> Seq<u8> {
    frame_bytes(zeros(16), stream_id, kind, payload, Seq::empty())
}

/// Whether `ciphertext` is a plaintext under the keys of an epoch and a counter.
pub open spec fn sealed_under(
    epoch: EpochView,
    counter: u64,
    aad: Seq<u8>,
    plain: Seq<u8>,
    ciphertext: Seq<u8>,
) -> bool {
    sealed_as(epoch.key, nonce_of(epoch.salt, counter), aad, plain, ciphertext)
}

/// The error of a datagram that is dropped.
pub open spec fn dropped(what: &'static str, e: TlsError) -> bool {
    e.is_error(ErrorStage::Tls(what), ErrorAction::Drop, Seq::empty())
}

fn auth_fail(what: &'static str) -> (r: TlsError)
    ensures
        dropped(what, r),
{
    TlsError::new(ErrorStage::Tls(what), ErrorAction::Drop, Bytes::new())
}

/// The sending side of a datagram leg.
pub struct DatagramTx {
    keys: DatagramKeyMaterial,
    counter: u64,
}

impl View for DatagramTx {
    type V = SenderView;

    closed spec fn view(&self) -> SenderView {
        SenderView { keys: self.keys@, counter: self.counter }
    }
}

impl DatagramTx {
    /// Whether no epoch was used for too long.
    pub open spec fn wf(self) -> bool {
        self@.counter <= REKEY_AFTER_DATAGRAMS
    }

    /// A side that has sent nothing.
    pub fn new(keys: DatagramKeyMaterial) -> (r: Self)
        ensures
            r.wf(),
            r@ == (SenderView { keys: keys@, counter: 0 }),
    {
        Self { keys, counter: 0 }
    }

    /// By what the server finds the leg of a datagram.
    pub fn leg_token(&self) -> (r: [u8; 16])
        ensures
            r@ == self@.keys.leg_token,
    {
        self.keys.leg_token()
    }

    /// Changes the epoch at once.
    pub fn force_rekey_for_test(&mut self)
        ensures
            final(self).wf(),
            final(self)@ == old(self)@.rekeyed(),
    {
        let _ = self.keys.tx_advance();
        self.counter = 0;
    }

    /// The epoch and the counter of the next datagram.
    pub fn peek_next_epoch_and_counter(&self) -> (r: (u8, u64))
        ensures
            r.0 == self@.ready().keys.tx.epoch_id,
            r.1 == self@.ready().counter,
    {
        if self.counter >= REKEY_AFTER_DATAGRAMS {
            (self.keys.tx_epoch_id().wrapping_add(1), 0)
        } else {
            (self.keys.tx_epoch_id(), self.counter)
        }
    }

    /// Encrypts one frame as one datagram, and binds `aad` to it.
    ///
    /// The counter moves on even when the frame is too long for the cipher.
    pub fn seal(
        &mut self,
        stream_id: u32,
        frame_type: FrameType,
        payload: Bytes,
        aad: &[u8],
    ) -> (r: Result<SealedDatagram, TlsError>)
        requires
            old(self).wf(),
            bytes_view(payload).len() + 41 <= isize::MAX,
            answerable(25 + bytes_view(payload).len()),
        ensures
            final(self).wf(),
            final(self)@ == old(self)@.sealed(),
            r is Ok <==> sealable(25 + bytes_view(payload).len()),
            r matches Ok(d) ==> {
                &&& d.epoch_id == old(self)@.ready().keys.tx.epoch_id
                &&& d.counter == old(self)@.ready().counter
                &&& sealed_under(
                    old(self)@.ready().keys.tx.current(),
                    d.counter,
                    aad@,
                    datagram_frame(stream_id, frame_type, bytes_view(payload)),
                    bytes_view(d.ciphertext),
                )
            },
            r matches Err(e) ==> dropped("Datagram AEAD seal failed", e),
    {
        if self.counter >= REKEY_AFTER_DATAGRAMS {
            let _ = self.keys.tx_advance();
            self.counter = 0;
        }
        let epoch: DatagramEpochKeys = self.keys.tx_current();
        let counter: u64 = self.counter;
        self.counter = self.counter + 1;

        let no_tag: [u8; 16] = [0u8; 16];
        let frame: Frame = Frame::new(stream_id, frame_type, payload);
        let ghost f = frame;
        let mut buf: BytesMut = frame.into_bytes(&no_tag, 0);
        proof {
            assert(no_tag@ =~= zeros(16));
            let padding = choose|padding: Seq<u8>|
                padding.len() == 0 && buf_view(buf) == #[trigger] written_frame(
                    f,
                    no_tag@,
                    padding,
                );
            assert(padding =~= Seq::empty());
            assert(buf_view(buf) =~= datagram_frame(stream_id, frame_type, bytes_view(payload)));
        }
        buf.reserve(16);
        let nonce: [u8; 12] = build_nonce(&epoch.salt, counter);
        match seal_in_place(&epoch.key, &nonce, aad, &mut buf) {
            Ok(()) => Ok(
                SealedDatagram { epoch_id: epoch.epoch_id, counter, ciphertext: buf.freeze() },
            ),
            Err(_) => Err(auth_fail("Datagram AEAD seal failed")),
        }
    }
}

/// What the receiving side knows of an epoch.
pub struct SlotView {
    /// The keys.
    pub epoch: EpochView,
    /// The counters that came through.
    pub window: WindowView,
}

impl SlotView {
    /// An epoch in which nothing came through yet.
    pub open spec fn fresh(epoch: EpochView) -> Self {
        SlotView { epoch, window: WindowView::fresh() }
    }

    /// The full counter of a datagram. No datagram has one that 64 bits cannot hold.
    pub open spec fn counter_of(self, d: Datagram) -> int {
        expanded(self.window.highest as int, d.wire_counter as int, d.wire_bits as nat)
    }

    /// What a datagram decrypts to under the keys of the epoch and its counter, if it is
    /// genuine.
    pub open spec fn decrypted(self, d: Datagram) -> Option<Seq<u8>> {
        if self.counter_of(d) > u64::MAX {
            None
        } else {
            aead_open(
                self.epoch.key,
                nonce_of(self.epoch.salt, self.counter_of(d) as u64),
                d.aad,
                d.ciphertext,
            )
        }
    }

    /// The plaintext of a datagram that is genuine and new.
    pub open spec fn plaintext(self, d: Datagram) -> Option<Seq<u8>> {
        if self.window.accepts(self.counter_of(d) as u64) {
            self.decrypted(d)
        } else {
            None
        }
    }

    /// The same once a datagram came through.
    pub open spec fn passed(self, d: Datagram) -> Self {
        SlotView { window: self.window.tried(self.counter_of(d) as u64), ..self }
    }
}

/// A datagram as it comes off the wire.
pub struct Datagram {
    /// The epoch that it claims.
    pub epoch_id: u8,
    /// The low bits of its counter.
    pub wire_counter: u64,
    /// How many bits of the counter there are.
    pub wire_bits: u32,
    /// The ciphertext.
    pub ciphertext: Seq<u8>,
    /// What is authenticated with it.
    pub aad: Seq<u8>,
}

/// The keys and the window of one epoch.
struct EpochSlot {
    epoch_id: u8,
    keys: DatagramEpochKeys,
    window: ReplayWindow,
}

impl View for EpochSlot {
    type V = SlotView;

    closed spec fn view(&self) -> SlotView {
        SlotView { epoch: self.keys@, window: self.window@ }
    }
}

impl EpochSlot {
    spec fn wf(self) -> bool {
        &&& self.epoch_id == self.keys.epoch_id
        &&& self.window.wf()
    }

    fn fresh(keys: DatagramEpochKeys) -> (r: Self)
        ensures
            r.wf(),
            r@ == SlotView::fresh(keys@),
    {
        Self { epoch_id: keys.epoch_id, keys, window: ReplayWindow::new() }
    }

    /// Decrypts a datagram and lets it through the window. `None` for what is not genuine,
    /// and for a repeat.
    fn try_open(
        &mut self,
        wire_counter: u64,
        wire_bits: u32,
        ciphertext: &[u8],
        aad: &[u8],
    ) -> (r: Option<BytesMut>)
        requires
            old(self).wf(),
            1 <= wire_bits < 64,
            ciphertext@.len() >= TAG_LEN ==> answerable((ciphertext@.len() - TAG_LEN) as nat),
        ensures
            final(self).wf(),
            ({
                let d = Datagram {
                    epoch_id: 0,
                    wire_counter,
                    wire_bits,
                    ciphertext: ciphertext@,
                    aad: aad@,
                };
                match old(self)@.plaintext(d) {
                    Some(plain) => {
                        &&& r matches Some(buf) && buf_view(buf) == plain
                        &&& final(self)@ == old(self)@.passed(d)
                    },
                    None => r is None && final(self)@ == old(self)@,
                }
            }),
    {
        let highest: u64 = self.window.highest();
        if nearest_counter(highest, wire_counter, wire_bits) > u64::MAX as u128 {
            return None;
        }
        let full_counter: u64 = expand_counter(highest, wire_counter, wire_bits);
        let nonce: [u8; 12] = build_nonce(&self.keys.salt, full_counter);
        let mut buf: BytesMut = buf_from(ciphertext);
        match open_in_place(&self.keys.key, &nonce, aad, &mut buf) {
            Ok(()) => {},
            Err(_) => {
                return None;
            },
        }
        if self.window.accept(full_counter) {
            Some(buf)
        } else {
            None
        }
    }
}

/// What the receiving side knows.
pub struct ReceiverView {
    /// The keys.
    pub keys: MaterialView,
    /// The epoch that is current.
    pub current: SlotView,
    /// The epoch before it.
    pub previous: Option<SlotView>,
}

/// What a datagram comes to.
pub enum Opened {
    /// Its plaintext.
    Plain(Seq<u8>),
    /// It is dropped.
    Drop(&'static str),
}

impl ReceiverView {
    /// Whether the epochs follow each other along the chain.
    pub open spec fn wf(self) -> bool {
        &&& self.current.epoch == self.keys.rx.current()
        &&& self.current.window.wf()
        &&& self.previous matches Some(slot) ==> slot.window.wf() && next_id(slot.epoch.epoch_id)
            == self.current.epoch.epoch_id
    }

    /// The epoch after the current one.
    pub open spec fn candidate(self) -> SlotView {
        SlotView::fresh(self.keys.rx.next().current())
    }

    /// By which epoch a claim is tried: the current one, the one before, or the one after.
    pub open spec fn slot_for(self, epoch_id: u8) -> Option<SlotView> {
        if epoch_id == self.current.epoch.epoch_id {
            Some(self.current)
        } else if self.previous is Some && epoch_id == self.previous->0.epoch.epoch_id {
            self.previous
        } else if epoch_id == next_id(self.current.epoch.epoch_id) {
            Some(self.candidate())
        } else {
            None
        }
    }

    /// What a datagram comes to, and what is known then. Only a datagram that is genuine and
    /// new changes anything.
    pub open spec fn opened(self, d: Datagram) -> (Opened, Self) {
        if d.epoch_id == self.current.epoch.epoch_id {
            match self.current.plaintext(d) {
                Some(plain) => (
                    Opened::Plain(plain),
                    ReceiverView { current: self.current.passed(d), ..self },
                ),
                None => (Opened::Drop("Datagram AEAD open failed (current epoch)"), self),
            }
        } else if self.previous is Some && d.epoch_id == self.previous->0.epoch.epoch_id {
            match self.previous->0.plaintext(d) {
                Some(plain) => (
                    Opened::Plain(plain),
                    ReceiverView { previous: Some(self.previous->0.passed(d)), ..self },
                ),
                None => (Opened::Drop("Datagram AEAD open failed (previous epoch)"), self),
            }
        } else if d.epoch_id == next_id(self.current.epoch.epoch_id) {
            match self.candidate().plaintext(d) {
                Some(plain) => (
                    Opened::Plain(plain),
                    ReceiverView {
                        keys: MaterialView { rx: self.keys.rx.next(), ..self.keys },
                        current: self.candidate().passed(d),
                        previous: Some(self.current),
                    },
                ),
                None => (Opened::Drop("Datagram AEAD open failed (candidate next epoch)"), self),
            }
        } else {
            (Opened::Drop("Datagram epoch_id out of acceptable range"), self)
        }
    }
}

/// Whether a result is what a datagram comes to: its plaintext has to start with a frame.
pub open spec fn reports(event: Opened, r: Result<Frame, TlsError>) -> bool {
    match event {
        Opened::Drop(what) => r matches Err(e) && dropped(what, e),
        Opened::Plain(b) => if !Frame::complete(b) {
            r matches Err(e) && dropped("Datagram plaintext did not contain a full frame", e)
        } else if FrameType::of_wire(b[20]) is None {
            r matches Err(e) && dropped("Datagram frame parse error", e)
        } else {
            r matches Ok(frame) && frame.is_front_of(b)
        },
    }
}

/// The receiving side of a datagram leg. It keeps the epoch before the current one for what
/// was sent just before the epoch changed.
pub struct DatagramRx {
    keys: DatagramKeyMaterial,
    current: EpochSlot,
    previous: Option<EpochSlot>,
}

impl View for DatagramRx {
    type V = ReceiverView;

    closed spec fn view(&self) -> ReceiverView {
        ReceiverView {
            keys: self.keys@,
            current: self.current@,
            previous: match self.previous {
                Some(slot) => Some(slot@),
                None => None,
            },
        }
    }
}

impl DatagramRx {
    /// Whether the epochs follow each other along the chain.
    pub closed spec fn wf(self) -> bool {
        &&& self@.wf()
        &&& self.current.wf()
        &&& self.previous matches Some(slot) ==> slot.wf()
    }

    /// A side that has received nothing.
    pub fn new(keys: DatagramKeyMaterial) -> (r: Self)
        ensures
            r.wf(),
            r@ == (ReceiverView {
                keys: keys@,
                current: SlotView::fresh(keys@.rx.current()),
                previous: None,
            }),
    {
        let current: EpochSlot = EpochSlot::fresh(keys.rx_current());
        Self { keys, current, previous: None }
    }

    /// By what the server finds the leg of a datagram.
    pub fn leg_token(&self) -> (r: [u8; 16])
        ensures
            r@ == self@.keys.leg_token,
    {
        self.keys.leg_token()
    }

    /// The epoch that is current.
    pub fn current_epoch_id(&self) -> (r: u8)
        requires
            self.wf(),
        ensures
            r == self@.current.epoch.epoch_id,
    {
        self.current.epoch_id
    }

    /// Decrypts one datagram to its frame.
    pub fn open(
        &mut self,
        epoch_id: u8,
        wire_counter: u64,
        wire_bits: u32,
        ciphertext: &[u8],
        aad: &[u8],
    ) -> (r: Result<Frame, TlsError>)
        requires
            old(self).wf(),
            1 <= wire_bits < 64,
            ciphertext@.len() >= TAG_LEN ==> answerable((ciphertext@.len() - TAG_LEN) as nat),
        ensures
            final(self).wf(),
            ({
                let d = Datagram {
                    epoch_id,
                    wire_counter,
                    wire_bits,
                    ciphertext: ciphertext@,
                    aad: aad@,
                };
                let (event, after) = old(self)@.opened(d);
                &&& reports(event, r)
                &&& final(self)@ == after
            }),
    {
        let mut plaintext: BytesMut = match self.open_epoch(
            epoch_id,
            wire_counter,
            wire_bits,
            ciphertext,
            aad,
        ) {
            Ok(plaintext) => plaintext,
            Err(e) => {
                return Err(e);
            },
        };
        match Frame::parse(&mut plaintext) {
            Ok(Some(frame)) => Ok(frame),
            Ok(None) => Err(auth_fail("Datagram plaintext did not contain a full frame")),
            Err(_) => Err(auth_fail("Datagram frame parse error")),
        }
    }

    /// Decrypts one datagram under the epoch that it claims. The chain steps on only once a
    /// datagram of the next epoch turned out to be genuine.
    fn open_epoch(
        &mut self,
        epoch_id: u8,
        wire_counter: u64,
        wire_bits: u32,
        ciphertext: &[u8],
        aad: &[u8],
    ) -> (r: Result<BytesMut, TlsError>)
        requires
            old(self).wf(),
            1 <= wire_bits < 64,
            ciphertext@.len() >= TAG_LEN ==> answerable((ciphertext@.len() - TAG_LEN) as nat),
        ensures
            final(self).wf(),
            ({
                let d = Datagram {
                    epoch_id,
                    wire_counter,
                    wire_bits,
                    ciphertext: ciphertext@,
                    aad: aad@,
                };
                let (event, after) = old(self)@.opened(d);
                &&& match event {
                    Opened::Plain(plain) => r matches Ok(buf) && buf_view(buf) == plain,
                    Opened::Drop(what) => r matches Err(e) && dropped(what, e),
                }
                &&& final(self)@ == after
            }),
    {
        if epoch_id == self.current.epoch_id {
            match self.current.try_open(wire_counter, wire_bits, ciphertext, aad) {
                Some(plain) => {
                    return Ok(plain);
                },
                None => {
                    return Err(auth_fail("Datagram AEAD open failed (current epoch)"));
                },
            }
        }
        if let Some(slot) = &mut self.previous {
            if slot.epoch_id == epoch_id {
                match slot.try_open(wire_counter, wire_bits, ciphertext, aad) {
                    Some(plain) => {
                        return Ok(plain);
                    },
                    None => {
                        return Err(auth_fail("Datagram AEAD open failed (previous epoch)"));
                    },
                }
            }
        }
        if epoch_id == self.current.epoch_id.wrapping_add(1) {
            let mut candidate: EpochSlot = EpochSlot::fresh(self.keys.rx_peek_next());
            let plain: BytesMut = match candidate.try_open(
                wire_counter,
                wire_bits,
                ciphertext,
                aad,
            ) {
                Some(plain) => plain,
                None => {
                    return Err(auth_fail("Datagram AEAD open failed (candidate next epoch)"));
                },
            };
            let _ = self.keys.rx_advance();
            std::mem::swap(&mut self.current, &mut candidate);
            self.previous = Some(candidate);
            return Ok(plain);
        }
        Err(auth_fail("Datagram epoch_id out of acceptable range"))
    }
}

/// A chain `n` steps on.
pub open spec fn stepped(chain: RatchetView, n: nat) -> RatchetView
    decreases n,
{
    if n == 0 {
        chain
    } else {
        stepped(chain, (n - 1) as nat).next()
    }
}

/// A sender `n` datagrams on.
pub open spec fn sent_after(tx: SenderView, n: nat) -> SenderView
    decreases n,
{
    if n == 0 {
        tx
    } else {
        sent_after(tx, (n - 1) as nat).sealed()
    }
}

/// Datagram `n` of a sender, counted from zero, is sealed in epoch `n` divided by the length
/// of an epoch, under the counter that remains: no step of the chain and counter come twice,
/// and no epoch has more datagrams than its length.
pub proof fn lemma_datagram_number(tx: SenderView, n: nat)
    requires
        tx.counter == 0,
    ensures
        ({
            let now = sent_after(tx, n).ready();
            &&& now.counter == n % 16384
            &&& now.keys == (MaterialView { tx: stepped(tx.keys.tx, n / 16384), ..tx.keys })
        }),
    decreases n,
{
    if n > 0 {
        lemma_datagram_number(tx, (n - 1) as nat);
        let before = sent_after(tx, (n - 1) as nat).ready();
        if n % 16384 == 0 {
            assert((n - 1) % 16384 == 16383);
            assert(n / 16384 == (n - 1) / 16384 + 1);
        } else {
            assert(n % 16384 == (n - 1) % 16384 + 1);
            assert(n / 16384 == (n - 1) / 16384);
        }
    }
}

/// A datagram of a sender is tried by the right keys: those of the current epoch when both
/// sides stand at the same place of the chain, those of the next one when the sender has gone
/// one step further.
pub proof fn lemma_sender_epoch_is_tried(rx: ReceiverView, sender: RatchetView)
    requires
        rx.wf(),
    ensures
        sender == rx.keys.rx ==> rx.slot_for(sender.epoch_id) == Some(rx.current)
            && rx.current.epoch == sender.current(),
        sender == rx.keys.rx.next() ==> rx.slot_for(sender.epoch_id) == Some(rx.candidate())
            && rx.candidate().epoch == sender.current(),
{
}

/// What one side seals, the other opens: a datagram that is tried by the keys it was sealed
/// under, and whose counter is near enough to tell from its low bits and has not come through
/// before, gives its frame back.
pub proof fn lemma_seal_open_round_trip(
    rx: ReceiverView,
    d: Datagram,
    slot: SlotView,
    counter: u64,
    stream_id: u32,
    kind: FrameType,
    payload: Seq<u8>,
    r: Result<Frame, TlsError>,
)
    requires
        rx.wf(),
        rx.slot_for(d.epoch_id) == Some(slot),
        sealed_under(
            slot.epoch,
            counter,
            d.aad,
            datagram_frame(stream_id, kind, payload),
            d.ciphertext,
        ),
        1 <= d.wire_bits < 64,
        d.wire_counter == truncated(counter as int, d.wire_bits as nat),
        slot.window.highest - pow2((d.wire_bits - 1) as nat) < counter <= slot.window.highest
            + pow2((d.wire_bits - 1) as nat),
        slot.window.accepts(counter),
        payload.len() <= 0xffff,
        reports(rx.opened(d).0, r),
    ensures
        r matches Ok(frame) && frame.header.stream_id == stream_id && frame.header.frame_type
            == kind && bytes_view(frame.payload) == payload,
        rx.opened(d).1.slot_for(d.epoch_id) == Some(
            SlotView { window: slot.window.tried(counter), ..slot },
        ),
{
    lemma_truncate_expand_round_trip(
        slot.window.highest as int,
        counter as int,
        d.wire_bits as nat,
    );
    assert(slot.counter_of(d) == counter);
    let plain = datagram_frame(stream_id, kind, payload);
    assert(slot.plaintext(d) == Some(plain));
    lemma_frame_round_trip(zeros(16), stream_id, kind, payload, Seq::empty(), Seq::empty());
    assert(plain + Seq::<u8>::empty() =~= plain);
    assert(rx.opened(d).0 == Opened::Plain(plain));
}

/// A datagram that was let through is dropped when it comes again, and nothing changes.
pub proof fn lemma_replay_is_dropped(rx: ReceiverView, d: Datagram)
    requires
        rx.wf(),
        1 <= d.wire_bits < 64,
        rx.opened(d).0 is Plain,
    ensures
        ({
            let after = rx.opened(d).1;
            &&& after.opened(d).0 is Drop
            &&& after.opened(d).1 == after
        }),
{
    let after = rx.opened(d).1;
    let slot = rx.slot_for(d.epoch_id)->0;
    let bits = d.wire_bits as nat;
    let full = expanded(slot.window.highest as int, d.wire_counter as int, bits);
    lemma_expanded_is_nearest(slot.window.highest as int, d.wire_counter as int, bits);
    lemma_wire_window(bits);
    assert(slot.counter_of(d) == full);
    lemma_tried_wf(slot.window, full as u64);
    lemma_expand_at_highest(full, d.wire_counter as int, bits);
    let passed = slot.passed(d);
    assert(after.slot_for(d.epoch_id) == Some(passed));
    assert(passed.counter_of(d) == full);
    assert(passed.plaintext(d) is None);
}

/// A datagram that is dropped, by whatever epoch it claims, changes nothing.
pub proof fn lemma_drop_changes_nothing(rx: ReceiverView, d: Datagram)
    requires
        rx.opened(d).0 is Drop,
    ensures
        rx.opened(d).1 == rx,
{
}

/// When a datagram of the next epoch was genuine, late datagrams of the epoch that it ended
/// are still tried by their keys and their window.
pub proof fn lemma_late_datagram_is_tried(rx: ReceiverView, d: Datagram)
    requires
        rx.wf(),
        d.epoch_id == next_id(rx.current.epoch.epoch_id),
        rx.opened(d).0 is Plain,
    ensures
        rx.opened(d).1.slot_for(rx.current.epoch.epoch_id) == Some(rx.current),
        rx.opened(d).1.keys.rx == rx.keys.rx.next(),
{
}

/// A datagram of the epoch before the previous one is dropped.
pub proof fn lemma_two_epochs_late_is_dropped(rx: ReceiverView, d: Datagram)
    requires
        rx.wf(),
        next_id(next_id(d.epoch_id)) == rx.current.epoch.epoch_id,
    ensures
        rx.opened(d) == (Opened::Drop("Datagram epoch_id out of acceptable range"), rx),
{
}

} // verus!
