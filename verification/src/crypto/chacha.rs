//! The stream cipher: ChaCha20-Poly1305 with a nonce that both sides count in step.
//!
//! The nonce never travels: it is the direction's base IV with the packet counter folded
//! into its low eight bytes. A lost, repeated or reordered packet therefore fails to open.

use bytes::BytesMut;
use vstd::prelude::*;

use crate::buffers::buf_view;
use crate::crypto::aead_packer::AeadPacker;
use crate::crypto::primitives::{
    aead_open, open_in_place, seal_in_place, sealable, sealed_as, wipe,
};
use crate::utils::byte_order::{be64, lemma_be64_injective, u64_bytes, zeros};

verus! {

/// The nonce of packet `counter`: the base IV, its low eight bytes XORed with the
/// big-endian counter.
pub open spec fn nonce_of(iv: Seq<u8>, counter: u64) -> Seq<u8> {
    Seq::new(
        12,
        |i: int|
            if i < 4 {
                iv[i]
            } else {
                iv[i] ^ be64(counter)[i - 4]
            },
    )
}

/// Under one base IV no two packets share a nonce.
pub proof fn lemma_nonce_unique(iv: Seq<u8>, a: u64, b: u64)
    requires
        iv.len() == 12,
        a != b,
    ensures
        nonce_of(iv, a) != nonce_of(iv, b),
{
    if nonce_of(iv, a) == nonce_of(iv, b) {
        assert forall|i: int| 0 <= i < 8 implies be64(a)[i] == be64(b)[i] by {
            let (v, x, y) = (iv[i + 4], be64(a)[i], be64(b)[i]);
            assert(nonce_of(iv, a)[i + 4] == v ^ x);
            assert(nonce_of(iv, b)[i + 4] == v ^ y);
            assert(v ^ x == v ^ y ==> x == y) by (bit_vector);
        }
        assert(be64(a) =~= be64(b));
        lemma_be64_injective(a, b);
    }
}

/// The nonce for an explicitly given counter.
pub fn build_nonce(salt: &[u8; 12], counter: u64) -> (r: [u8; 12])
    ensures
        r@ == nonce_of(salt@, counter),
{
    let mut iv: [u8; 12] = *salt;
    let counter_bytes: [u8; 8] = u64_bytes(counter);
    let mut i: usize = 0;
    while i < 8
        invariant
            i <= 8,
            counter_bytes@ == be64(counter),
            forall|k: int| 0 <= k < 12 && (k < 4 || k >= i + 4) ==> iv@[k] == salt@[k],
            forall|k: int| 4 <= k < i + 4 ==> iv@[k] == salt@[k] ^ be64(counter)[k - 4],
        decreases 8 - i,
    {
        iv[i + 4] = iv[i + 4] ^ counter_bytes[i];
        i = i + 1;
    }
    assert(iv@ =~= nonce_of(salt@, counter));
    iv
}

/// The nonces of one direction.
pub struct NonceState {
    counter: u64,
    base_iv: [u8; 12],
}

impl NonceState {
    /// The counter of the next packet.
    pub closed spec fn count(self) -> u64 {
        self.counter
    }

    /// The base IV.
    pub closed spec fn iv(self) -> Seq<u8> {
        self.base_iv@
    }

    /// The nonces of a fresh direction.
    pub fn new(base_iv: [u8; 12]) -> (r: Self)
        ensures
            r.count() == 0,
            r.iv() == base_iv@,
    {
        Self { counter: 0, base_iv }
    }

    /// The nonce of the next packet; the counter moves on.
    pub fn next_nonce(&mut self) -> (r: [u8; 12])
        requires
            old(self).count() < u64::MAX,
        ensures
            r@ == nonce_of(old(self).iv(), old(self).count()),
            final(self).count() == old(self).count() + 1,
            final(self).iv() == old(self).iv(),
    {
        let nonce: [u8; 12] = build_nonce(&self.base_iv, self.counter);
        self.counter = self.counter + 1;
        nonce
    }
}

impl Drop for NonceState {
    fn drop(&mut self)
        opens_invariants none
        no_unwind
    {
        wipe(&mut self.base_iv);
    }
}

/// One direction: a key, a base IV and the packet counter.
pub struct ChaChaStream {
    key: [u8; 32],
    state: NonceState,
}

impl ChaChaStream {
    /// The key.
    pub closed spec fn key(self) -> Seq<u8> {
        self.key@
    }

    /// The base IV.
    pub closed spec fn iv(self) -> Seq<u8> {
        self.state.iv()
    }

    /// The counter of the next packet.
    pub closed spec fn count(self) -> u64 {
        self.state.count()
    }

    /// Whether the key and the base IV are those of `other`.
    pub open spec fn same_keys(self, other: Self) -> bool {
        self.key() == other.key() && self.iv() == other.iv()
    }

    /// Whether this direction receives what `other` sends: with the same key and base IV, and
    /// the next packet is the same. Two fresh directions of one key and base IV are in step.
    pub open spec fn in_step(self, other: Self) -> bool {
        self.same_keys(other) && self.count() == other.count()
    }

    /// The nonce of the next packet.
    pub open spec fn next(self) -> Seq<u8> {
        nonce_of(self.iv(), self.count())
    }

    /// A fresh direction.
    pub fn new(key: &[u8; 32], iv: [u8; 12]) -> (r: Self)
        ensures
            r.key() == key@,
            r.iv() == iv@,
            r.count() == 0,
    {
        Self { key: *key, state: NonceState::new(iv) }
    }
}

impl Drop for ChaChaStream {
    fn drop(&mut self)
        opens_invariants none
        no_unwind
    {
        wipe(&mut self.key);
    }
}

impl AeadPacker for ChaChaStream {
    open spec fn ready(self) -> bool {
        self.count() < u64::MAX
    }

    open spec fn encrypted(
        before: Self,
        plain: Seq<u8>,
        r: Result<(), aead::Error>,
        after: Self,
        out: Seq<u8>,
    ) -> bool {
        &&& after.same_keys(before)
        &&& after.count() == before.count() + 1
        &&& r is Ok <==> sealable(plain.len())
        &&& r is Ok ==> sealed_as(before.key(), before.next(), before.next(), plain, out)
        &&& r is Err ==> out == plain
    }

    open spec fn decrypted(
        before: Self,
        sealed: Seq<u8>,
        r: Result<(), aead::Error>,
        after: Self,
        out: Seq<u8>,
    ) -> bool {
        &&& after.same_keys(before)
        &&& match aead_open(before.key(), before.next(), before.next(), sealed) {
            Some(plain) => {
                &&& r is Ok
                &&& out == plain
                &&& out.len() + 16 == sealed.len()
                &&& after.count() == before.count() + 1
            },
            None => {
                &&& r is Err
                &&& out == sealed
                &&& after.count() == before.count()
            },
        }
    }

    /// Encrypts under the next nonce, which is also the associated data.
    fn encrypt(&mut self, data: &mut BytesMut) -> (r: Result<(), aead::Error>) {
        let ghost able = ChaChaStream::ready(*self);
        let ghost plain = buf_view(*data);
        let ghost idle = ChaChaStream::encrypted(*self, plain, Ok(()), *self, plain);
        let nonce: [u8; 12] = self.state.next_nonce();
        data.reserve(16);
        seal_in_place(&self.key, &nonce, nonce.as_slice(), data)
    }

    /// Decrypts under the next nonce. A packet that does not open leaves the counter
    /// where it was: the other side has not moved on either.
    fn decrypt(&mut self, data: &mut BytesMut) -> (r: Result<(), aead::Error>) {
        let ghost able = ChaChaStream::ready(*self);
        let ghost sealed = buf_view(*data);
        let ghost idle = ChaChaStream::decrypted(*self, sealed, Ok(()), *self, sealed);
        let saved: u64 = self.state.counter;
        let nonce: [u8; 12] = self.state.next_nonce();
        match open_in_place(&self.key, &nonce, nonce.as_slice(), data) {
            Ok(()) => Ok(()),
            Err(e) => {
                self.state.counter = saved;
                Err(e)
            },
        }
    }
}

/// What one side encrypts, the other decrypts, and then both are in step again: packet after
/// packet comes out as it went in, 16 bytes shorter than it travelled.
pub proof fn lemma_packet_round_trip(
    sender: ChaChaStream,
    plain: Seq<u8>,
    sent: ChaChaStream,
    packet: Seq<u8>,
    receiver: ChaChaStream,
    r: Result<(), aead::Error>,
    received: ChaChaStream,
    out: Seq<u8>,
)
    requires
        receiver.in_step(sender),
        ChaChaStream::encrypted(sender, plain, Ok(()), sent, packet),
        ChaChaStream::decrypted(receiver, packet, r, received, out),
    ensures
        r is Ok,
        out == plain,
        packet.len() == plain.len() + 16,
        received.in_step(sent),
{
}

/// A packet that does not open does no harm: it is refused and left as it was, the counter
/// stays, and the next genuine packet still opens.
pub proof fn lemma_refused_packet_does_no_harm(
    sender: ChaChaStream,
    plain: Seq<u8>,
    sent: ChaChaStream,
    good: Seq<u8>,
    receiver: ChaChaStream,
    bad: Seq<u8>,
    first: Result<(), aead::Error>,
    between: ChaChaStream,
    left: Seq<u8>,
    second: Result<(), aead::Error>,
    received: ChaChaStream,
    out: Seq<u8>,
)
    requires
        receiver.in_step(sender),
        ChaChaStream::encrypted(sender, plain, Ok(()), sent, good),
        aead_open(receiver.key(), receiver.next(), receiver.next(), bad) is None,
        ChaChaStream::decrypted(receiver, bad, first, between, left),
        ChaChaStream::decrypted(between, good, second, received, out),
    ensures
        first is Err,
        left == bad,
        between.in_step(sender),
        second is Ok,
        out == plain,
        good.len() == plain.len() + 16,
        received.in_step(sent),
{
    lemma_packet_round_trip(sender, plain, sent, good, between, second, received, out);
}

/// Both directions of a session.
pub struct ChaChaCipher {
    /// What is sent.
    pub tx: ChaChaStream,
    /// What is received.
    pub rx: ChaChaStream,
}

impl ChaChaCipher {
    /// A cipher with all-zero keys, until the handshake has given real ones.
    pub fn new() -> (r: Self)
        ensures
            r.tx.key() == zeros(32),
            r.tx.iv() == zeros(12),
            r.tx.count() == 0,
            r.rx.key() == zeros(32),
            r.rx.iv() == zeros(12),
            r.rx.count() == 0,
    {
        let key: [u8; 32] = [0u8; 32];
        let iv: [u8; 12] = [0u8; 12];
        assert(key@ =~= zeros(32));
        assert(iv@ =~= zeros(12));
        Self { tx: ChaChaStream::new(&key, iv), rx: ChaChaStream::new(&key, iv) }
    }

    /// Loads the keys of the session; both counters start at zero again.
    pub fn set_keys(&mut self, w_key: [u8; 32], w_iv: [u8; 12], r_key: [u8; 32], r_iv: [u8; 12])
        ensures
            final(self).tx.key() == w_key@,
            final(self).tx.iv() == w_iv@,
            final(self).tx.count() == 0,
            final(self).rx.key() == r_key@,
            final(self).rx.iv() == r_iv@,
            final(self).rx.count() == 0,
    {
        let mut w: [u8; 32] = w_key;
        let mut r: [u8; 32] = r_key;
        self.tx = ChaChaStream::new(&w, w_iv);
        self.rx = ChaChaStream::new(&r, r_iv);
        wipe(&mut w);
        wipe(&mut r);
    }

    /// Hands out both directions, the receiving one first.
    pub fn split(self) -> (r: (ChaChaStream, ChaChaStream))
        ensures
            r.0 == self.rx,
            r.1 == self.tx,
    {
        (self.rx, self.tx)
    }
}

} // verus!
