//! The ephemeral key pair of one handshake: X25519.

use vstd::prelude::*;

use crate::crypto::primitives::{
    diffie_hellman, exchange_agrees, public_key_of, wipe, wipe_vec, x25519_public, x25519_shared,
};
use crate::entropy::system_bytes;
use crate::utils::byte_order::take_array;

verus! {

/// An ephemeral key pair. The secret half lives until the session keys are derived.
pub struct ECDH {
    secret: Option<[u8; 32]>,
    public_key: [u8; 32],
}

impl ECDH {
    /// The secret half, as long as it lives.
    pub closed spec fn secret(self) -> Option<Seq<u8>> {
        match self.secret {
            Some(s) => Some(s@),
            None => None,
        }
    }

    /// The public half.
    pub closed spec fn public(self) -> Seq<u8> {
        self.public_key@
    }

    /// Whether the two halves belong together.
    pub open spec fn wf(self) -> bool {
        &&& self.public().len() == 32
        &&& self.secret() matches Some(s) ==> s.len() == 32 && self.public() == x25519_public(s)
    }

    /// A fresh pair.
    pub fn new() -> (r: Self)
        ensures
            r.wf(),
            r.secret() is Some,
            exists|seed: Vec<u8>| #[trigger]
                call_ensures(system_bytes, (32usize,), seed) && r.secret() == Some(seed@),
    {
        let mut seed: Vec<u8> = system_bytes(32);
        let ghost drawn = seed;
        let secret: [u8; 32] = take_array::<32>(seed.as_slice(), 0);
        assert(secret@ =~= drawn@);
        assert(call_ensures(system_bytes, (32usize,), drawn));
        wipe_vec(&mut seed);
        Self::from_secret(secret)
    }

    /// The pair of a given secret.
    pub fn from_secret(secret: [u8; 32]) -> (r: Self)
        ensures
            r.wf(),
            r.secret() == Some(secret@),
            r.public() == x25519_public(secret@),
    {
        let public_key: [u8; 32] = public_key_of(&secret);
        Self { secret: Some(secret), public_key }
    }

    /// The public half.
    pub fn public_bytes(&self) -> (r: [u8; 32])
        ensures
            r@ == self.public(),
    {
        self.public_key
    }

    /// The secret shared with the owner of `peer`; `None` once the secret is burnt.
    pub fn dh(&self, peer: &[u8; 32]) -> (r: Option<[u8; 32]>)
        ensures
            r is Some <==> self.secret() is Some,
            r matches Some(shared) ==> {
                &&& shared@ == x25519_shared(self.secret()->Some_0, peer@)
                &&& exchange_agrees(self.secret()->Some_0, peer@)
            },
    {
        match &self.secret {
            Some(secret) => Some(diffie_hellman(secret, peer)),
            None => None,
        }
    }

    /// Destroys the secret half.
    pub fn burn(&mut self)
        ensures
            final(self).secret() is None,
            final(self).public() == old(self).public(),
    {
        if let Some(secret) = &mut self.secret {
            wipe(secret);
        }
        self.secret = None;
    }
}

impl Drop for ECDH {
    fn drop(&mut self)
        opens_invariants none
        no_unwind
    {
        if let Some(secret) = &mut self.secret {
            wipe(secret);
        }
    }
}

} // verus!
