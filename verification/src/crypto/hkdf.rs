//! Key derivation: HKDF-SHA256.
//!
//! A shared secret is never a key by itself. Extracting condenses it, together with a
//! salt, into a pseudorandom key; expanding that under different labels gives keys that
//! are independent of each other.

use vstd::prelude::*;

use crate::crypto::primitives::{expand, extract, hkdf_expand, hkdf_extract, wipe_vec};
use crate::utils::byte_order::take_array;

verus! {

/// A pseudorandom key, ready to be expanded.
pub struct Extracted {
    prk: [u8; 32],
}

impl Extracted {
    /// The pseudorandom key.
    pub closed spec fn prk(self) -> Seq<u8> {
        self.prk@
    }
}

/// The two phases of the derivation.
pub struct HKDF;

impl HKDF {
    /// Condenses the input key material under a salt: the raw pseudorandom key, and the
    /// same ready to be expanded.
    pub fn extract_key(salt: &[u8], ikm: &[u8]) -> (r: ([u8; 32], Extracted))
        ensures
            r.0@ == hkdf_extract(salt@, ikm@),
            r.1.prk() == r.0@,
    {
        let prk: [u8; 32] = extract(salt, ikm);
        (prk, Extracted { prk })
    }

    /// A pseudorandom key from an earlier extraction, ready to be expanded again.
    pub fn from_prk(prk: &[u8; 32]) -> (r: Extracted)
        ensures
            r.prk() == prk@,
    {
        Extracted { prk: *prk }
    }

    /// Derives a key of `N` bytes under the label `mark`. At most 255 blocks of 32 bytes
    /// can be derived.
    pub fn expand_key<const N: usize>(extracted_key: &Extracted, mark: &[u8]) -> (r: Result<
        [u8; N],
        String,
    >)
        requires
            N <= isize::MAX,
        ensures
            r is Ok <==> N <= 255 * 32,
            r matches Ok(key) ==> key@ == hkdf_expand(extracted_key.prk(), mark@, N as nat),
            r matches Err(e) ==> e@ == "invalid number of blocks, too large output"@,
    {
        match expand(&extracted_key.prk, mark, N) {
            Ok(okm) => {
                let mut okm: Vec<u8> = okm;
                let key: [u8; N] = take_array::<N>(okm.as_slice(), 0);
                assert(okm@.subrange(0, N as int) =~= okm@);
                wipe_vec(&mut okm);
                Ok(key)
            },
            Err(e) => Err(e),
        }
    }
}

} // verus!
