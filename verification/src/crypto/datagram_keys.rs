//! The keys of a datagram leg.
//!
//! Each direction has a one-way chain. The chain gives the keys of its epoch; a step
//! replaces the chain by one that is derived from it, so that the keys of an epoch that is
//! over cannot be derived again. The keys that protect packet headers stay for the life of
//! the leg.

use vstd::prelude::*;
use vstd::utf8::encode_utf8;

use crate::crypto::hkdf::{Extracted, HKDF};
use crate::crypto::primitives::{hkdf_expand, wipe};
use crate::crypto::session::SessionKeys;

verus! {

/// The keys of one epoch. The salt is the base nonce.
pub struct DatagramEpochKeys {
    /// The number of the epoch, which starts again at zero after 255.
    pub epoch_id: u8,
    /// The key.
    pub key: [u8; 32],
    /// The base nonce.
    pub salt: [u8; 12],
}

/// The keys of one epoch.
pub struct EpochView {
    /// The number of the epoch.
    pub epoch_id: u8,
    /// The key.
    pub key: Seq<u8>,
    /// The base nonce.
    pub salt: Seq<u8>,
}

impl View for DatagramEpochKeys {
    type V = EpochView;

    open spec fn view(&self) -> EpochView {
        EpochView { epoch_id: self.epoch_id, key: self.key@, salt: self.salt@ }
    }
}

/// The number of the epoch after `id`.
pub open spec fn next_id(id: u8) -> u8 {
    if id == 255 {
        0
    } else {
        (id + 1) as u8
    }
}

/// The state of a chain.
pub struct RatchetView {
    /// The secret that everything is derived from.
    pub chain: Seq<u8>,
    /// The number of the epoch.
    pub epoch_id: u8,
}

impl RatchetView {
    /// The keys of the epoch.
    pub open spec fn current(self) -> EpochView {
        EpochView {
            epoch_id: self.epoch_id,
            key: hkdf_expand(self.chain, encode_utf8("dgram-epoch-key"@), 32),
            salt: hkdf_expand(self.chain, encode_utf8("dgram-epoch-salt"@), 12),
        }
    }

    /// The chain one step on.
    pub open spec fn next(self) -> RatchetView {
        RatchetView {
            chain: hkdf_expand(self.chain, encode_utf8("dgram-epoch-next"@), 32),
            epoch_id: next_id(self.epoch_id),
        }
    }
}

/// The chain of one direction.
struct KeyRatchet {
    chain: [u8; 32],
    epoch_id: u8,
}

impl View for KeyRatchet {
    type V = RatchetView;

    closed spec fn view(&self) -> RatchetView {
        RatchetView { chain: self.chain@, epoch_id: self.epoch_id }
    }
}

impl Drop for KeyRatchet {
    fn drop(&mut self)
        opens_invariants none
        no_unwind
    {
        wipe(&mut self.chain);
    }
}

impl KeyRatchet {
    fn from_root(chain: [u8; 32]) -> (r: Self)
        ensures
            r@ == (RatchetView { chain: chain@, epoch_id: 0 }),
    {
        Self { chain, epoch_id: 0 }
    }

    /// The keys of the epoch.
    fn current(&self) -> (r: DatagramEpochKeys)
        ensures
            r@ == self@.current(),
    {
        Self::derive_epoch(&self.chain, self.epoch_id)
    }

    /// The keys of the next epoch; the chain stays where it is.
    fn peek_next(&self) -> (r: DatagramEpochKeys)
        ensures
            r@ == self@.next().current(),
    {
        let mut next_chain: [u8; 32] = Self::step_chain(&self.chain);
        let keys: DatagramEpochKeys = Self::derive_epoch(
            &next_chain,
            self.epoch_id.wrapping_add(1),
        );
        wipe(&mut next_chain);
        keys
    }

    /// Steps on and returns the keys of the new epoch.
    fn advance(&mut self) -> (r: DatagramEpochKeys)
        ensures
            final(self)@ == old(self)@.next(),
            r@ == final(self)@.current(),
    {
        let next_chain: [u8; 32] = Self::step_chain(&self.chain);
        self.epoch_id = self.epoch_id.wrapping_add(1);
        self.chain = next_chain;
        self.current()
    }

    fn derive_epoch(chain: &[u8; 32], epoch_id: u8) -> (r: DatagramEpochKeys)
        ensures
            r@ == (RatchetView { chain: chain@, epoch_id }).current(),
    {
        let hk: Extracted = HKDF::from_prk(chain);
        DatagramEpochKeys {
            epoch_id,
            key: derived::<32>(&hk, "dgram-epoch-key"),
            salt: derived::<12>(&hk, "dgram-epoch-salt"),
        }
    }

    fn step_chain(chain: &[u8; 32]) -> (r: [u8; 32])
        ensures
            r@ == hkdf_expand(chain@, encode_utf8("dgram-epoch-next"@), 32),
    {
        let hk: Extracted = HKDF::from_prk(chain);
        derived::<32>(&hk, "dgram-epoch-next")
    }
}

/// A key of a few bytes under a label.
fn derived<const N: usize>(hk: &Extracted, label: &str) -> (r: [u8; N])
    requires
        N <= 32,
    ensures
        r@ == hkdf_expand(hk.prk(), encode_utf8(label@), N as nat),
{
    match HKDF::expand_key::<N>(hk, label.as_bytes()) {
        Ok(key) => key,
        Err(_) => [0u8; N],
    }
}

/// What a side knows of a datagram leg.
pub struct MaterialView {
    /// By what the server finds the leg of a datagram.
    pub leg_token: Seq<u8>,
    /// The chain of what is sent.
    pub tx: RatchetView,
    /// The chain of what is received.
    pub rx: RatchetView,
    /// The header key of what is sent.
    pub hp_key_tx: Seq<u8>,
    /// The header key of what is received.
    pub hp_key_rx: Seq<u8>,
}

/// What a side starts with. The directions are named from the client's side.
pub open spec fn material_of(root: Seq<u8>, is_initiator: bool) -> MaterialView {
    let leg_token = hkdf_expand(root, encode_utf8("dgram-leg-token"@), 16);
    let c2s = RatchetView {
        chain: hkdf_expand(root, encode_utf8("dgram-chain-c2s"@), 32),
        epoch_id: 0,
    };
    let s2c = RatchetView {
        chain: hkdf_expand(root, encode_utf8("dgram-chain-s2c"@), 32),
        epoch_id: 0,
    };
    let hp_c2s = hkdf_expand(root, encode_utf8("dgram-hp-c2s"@), 32);
    let hp_s2c = hkdf_expand(root, encode_utf8("dgram-hp-s2c"@), 32);
    if is_initiator {
        MaterialView { leg_token, tx: c2s, rx: s2c, hp_key_tx: hp_c2s, hp_key_rx: hp_s2c }
    } else {
        MaterialView { leg_token, tx: s2c, rx: c2s, hp_key_tx: hp_s2c, hp_key_rx: hp_c2s }
    }
}

/// The two sides of a session know the same leg: the same token, and what one sends under,
/// the other receives under, in the first epoch and, when both have stepped on, in the next.
pub proof fn lemma_sides_match(root: Seq<u8>)
    ensures
        ({
            let client = material_of(root, true);
            let server = material_of(root, false);
            &&& client.leg_token == server.leg_token
            &&& client.tx == server.rx
            &&& client.rx == server.tx
            &&& client.tx.next().current() == server.rx.next().current()
            &&& client.rx.next().current() == server.tx.next().current()
            &&& client.hp_key_tx == server.hp_key_rx
            &&& client.hp_key_rx == server.hp_key_tx
        }),
{
}

/// The keys of a datagram leg: its token, and a chain for each direction.
pub struct DatagramKeyMaterial {
    leg_token: [u8; 16],
    tx: KeyRatchet,
    rx: KeyRatchet,
    hp_key_tx: [u8; 32],
    hp_key_rx: [u8; 32],
}

impl View for DatagramKeyMaterial {
    type V = MaterialView;

    closed spec fn view(&self) -> MaterialView {
        MaterialView {
            leg_token: self.leg_token@,
            tx: self.tx@,
            rx: self.rx@,
            hp_key_tx: self.hp_key_tx@,
            hp_key_rx: self.hp_key_rx@,
        }
    }
}

impl DatagramKeyMaterial {
    /// The keys of the leg that belongs to a session.
    pub fn derive(session_keys: &SessionKeys) -> (r: Self)
        requires
            session_keys@.root is Some,
        ensures
            r@ == material_of(session_keys@.root->0, session_keys@.is_initiator),
    {
        Self::derive_from_root(session_keys.datagram_root(), session_keys.is_initiator())
    }

    /// The keys of the leg that belongs to the pseudorandom key of a session.
    pub fn derive_from_root(root: [u8; 32], is_initiator: bool) -> (r: Self)
        ensures
            r@ == material_of(root@, is_initiator),
    {
        let hk: Extracted = HKDF::from_prk(&root);
        let leg_token: [u8; 16] = derived::<16>(&hk, "dgram-leg-token");
        let c2s0: [u8; 32] = derived::<32>(&hk, "dgram-chain-c2s");
        let s2c0: [u8; 32] = derived::<32>(&hk, "dgram-chain-s2c");
        let hp_c2s: [u8; 32] = derived::<32>(&hk, "dgram-hp-c2s");
        let hp_s2c: [u8; 32] = derived::<32>(&hk, "dgram-hp-s2c");
        if is_initiator {
            Self {
                leg_token,
                tx: KeyRatchet::from_root(c2s0),
                rx: KeyRatchet::from_root(s2c0),
                hp_key_tx: hp_c2s,
                hp_key_rx: hp_s2c,
            }
        } else {
            Self {
                leg_token,
                tx: KeyRatchet::from_root(s2c0),
                rx: KeyRatchet::from_root(c2s0),
                hp_key_tx: hp_s2c,
                hp_key_rx: hp_c2s,
            }
        }
    }

    /// The key that protects the headers of what is sent; it never changes.
    pub fn hp_key_tx(&self) -> (r: [u8; 32])
        ensures
            r@ == self@.hp_key_tx,
    {
        self.hp_key_tx
    }

    /// The key that protects the headers of what is received; it never changes.
    pub fn hp_key_rx(&self) -> (r: [u8; 32])
        ensures
            r@ == self@.hp_key_rx,
    {
        self.hp_key_rx
    }

    /// By what the server finds the leg of a datagram.
    pub fn leg_token(&self) -> (r: [u8; 16])
        ensures
            r@ == self@.leg_token,
    {
        self.leg_token
    }

    /// The epoch of what is sent.
    pub fn tx_epoch_id(&self) -> (r: u8)
        ensures
            r == self@.tx.epoch_id,
    {
        self.tx.epoch_id
    }

    /// The keys of what is sent.
    pub fn tx_current(&self) -> (r: DatagramEpochKeys)
        ensures
            r@ == self@.tx.current(),
    {
        self.tx.current()
    }

    /// Starts the next epoch of what is sent.
    pub fn tx_advance(&mut self) -> (r: DatagramEpochKeys)
        ensures
            final(self)@ == (MaterialView { tx: old(self)@.tx.next(), ..old(self)@ }),
            r@ == final(self)@.tx.current(),
    {
        self.tx.advance()
    }

    /// The epoch of what is received.
    pub fn rx_epoch_id(&self) -> (r: u8)
        ensures
            r == self@.rx.epoch_id,
    {
        self.rx.epoch_id
    }

    /// The keys of what is received.
    pub fn rx_current(&self) -> (r: DatagramEpochKeys)
        ensures
            r@ == self@.rx.current(),
    {
        self.rx.current()
    }

    /// The keys of the next epoch of what is received; nothing changes.
    pub fn rx_peek_next(&self) -> (r: DatagramEpochKeys)
        ensures
            r@ == self@.rx.next().current(),
    {
        self.rx.peek_next()
    }

    /// Starts the next epoch of what is received.
    pub fn rx_advance(&mut self) -> (r: DatagramEpochKeys)
        ensures
            final(self)@ == (MaterialView { rx: old(self)@.rx.next(), ..old(self)@ }),
            r@ == final(self)@.rx.current(),
    {
        self.rx.advance()
    }
}

} // verus!
