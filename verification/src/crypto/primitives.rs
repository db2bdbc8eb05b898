//! The outside primitives, on plain bytes.
//!
//! Keys, nonces and points are byte arrays here; the outside types are made and dropped
//! inside each wrapper. What a primitive computes has a name, and the few facts beside
//! the names are what the rest of the engine relies on.

use bytes::BytesMut;
use chacha20poly1305::{AeadInPlace, ChaCha20Poly1305, Key, KeyInit, Nonce};
use hmac::{Hmac, Mac};
use sha2::Sha256;
use subtle::{Choice, ConstantTimeEq};
use vstd::prelude::*;
use x25519_dalek::{PublicKey, StaticSecret};
use zeroize::Zeroize;

use crate::buffers::buf_view;
use crate::utils::byte_order::zeros;

verus! {

#[verifier::external_type_specification]
#[verifier::external_body]
pub struct ExAeadError(aead::Error);

/// The length of the authentication tag that sealing appends.
pub const TAG_LEN: usize = 16;

/// ChaCha20-Poly1305: the ciphertext with its tag.
pub uninterp spec fn aead_seal(
    key: Seq<u8>,
    nonce: Seq<u8>,
    aad: Seq<u8>,
    plain: Seq<u8>,
) -> Seq<u8>;

/// ChaCha20-Poly1305: the plaintext of a ciphertext with its tag, or `None` when the
/// tag does not match.
pub uninterp spec fn aead_open(
    key: Seq<u8>,
    nonce: Seq<u8>,
    aad: Seq<u8>,
    sealed: Seq<u8>,
) -> Option<Seq<u8>>;

/// HKDF-SHA256, the extract phase.
pub uninterp spec fn hkdf_extract(salt: Seq<u8>, ikm: Seq<u8>) -> Seq<u8>;

/// HKDF-SHA256, the expand phase, for `n` bytes.
pub uninterp spec fn hkdf_expand(prk: Seq<u8>, info: Seq<u8>, n: nat) -> Seq<u8>;

/// HMAC-SHA256.
pub uninterp spec fn hmac_sha256(key: Seq<u8>, message: Seq<u8>) -> Seq<u8>;

/// The X25519 public key of a secret.
pub uninterp spec fn x25519_public(secret: Seq<u8>) -> Seq<u8>;

/// The X25519 shared secret of a secret and a public key.
pub uninterp spec fn x25519_shared(secret: Seq<u8>, public: Seq<u8>) -> Seq<u8>;

/// Whether a plaintext of `n` bytes is short enough for the cipher: its keystream has that
/// many blocks of 64 bytes.
pub open spec fn sealable(n: nat) -> bool {
    n <= 64 * 0xffff_fffe
}

/// Whether the cipher has an answer for a plaintext of `n` bytes. It refuses those of one
/// block more than it has; between the two it panics.
pub open spec fn answerable(n: nat) -> bool {
    sealable(n) || n >= 64 * 0xffff_ffff
}

/// Whether `sealed` is `plain` under the given key, nonce and associated data: sealing
/// gives it, and opening it gives `plain` back.
pub open spec fn sealed_as(
    key: Seq<u8>,
    nonce: Seq<u8>,
    aad: Seq<u8>,
    plain: Seq<u8>,
    sealed: Seq<u8>,
) -> bool {
    &&& sealed == aead_seal(key, nonce, aad, plain)
    &&& aead_open(key, nonce, aad, sealed) == Some(plain)
    &&& sealed.len() == plain.len() + TAG_LEN
}

/// Whether the exchange of `secret` with `public` gives what the other side computes:
/// if `public` belongs to some secret, the shared secret is the same from there.
pub open spec fn exchange_agrees(secret: Seq<u8>, public: Seq<u8>) -> bool {
    forall|other: Seq<u8>|
        public == #[trigger] x25519_public(other) && other.len() == 32 ==> x25519_shared(
            secret,
            public,
        ) == x25519_shared(other, x25519_public(secret))
}

/// `AeadInPlace::encrypt_in_place` of ChaCha20-Poly1305: replaces the plaintext by the
/// ciphertext and its tag, and opening that gives the plaintext back. It refuses a
/// plaintext that would exhaust the block counter, and then changes nothing; at the very
/// end of the keystream it panics.
#[verifier::external_body]
pub(crate) fn seal_in_place(
    key: &[u8; 32],
    nonce: &[u8; 12],
    aad: &[u8],
    buf: &mut BytesMut,
) -> (r: Result<(), aead::Error>)
    requires
        buf_view(*old(buf)).len() + TAG_LEN <= isize::MAX,
        answerable(buf_view(*old(buf)).len()),
    ensures
        r is Ok <==> sealable(buf_view(*old(buf)).len()),
        r is Ok ==> buf_view(*final(buf)) == aead_seal(key@, nonce@, aad@, buf_view(*old(buf))),
        r is Ok ==> buf_view(*final(buf)).len() == buf_view(*old(buf)).len() + TAG_LEN,
        r is Ok ==> aead_open(key@, nonce@, aad@, buf_view(*final(buf))) == Some(
            buf_view(*old(buf)),
        ),
        r is Err ==> buf_view(*final(buf)) == buf_view(*old(buf)),
{
    let cipher = ChaCha20Poly1305::new(Key::from_slice(key));
    cipher.encrypt_in_place(Nonce::from_slice(nonce), aad, buf)
}

/// `AeadInPlace::decrypt_in_place` of ChaCha20-Poly1305: checks the tag and replaces the
/// ciphertext by the plaintext; when the tag does not match, or there is none, it changes
/// nothing. At the very end of the keystream it panics.
#[verifier::external_body]
pub(crate) fn open_in_place(
    key: &[u8; 32],
    nonce: &[u8; 12],
    aad: &[u8],
    buf: &mut BytesMut,
) -> (r: Result<(), aead::Error>)
    requires
        buf_view(*old(buf)).len() >= TAG_LEN ==> answerable(
            (buf_view(*old(buf)).len() - TAG_LEN) as nat,
        ),
    ensures
        r is Ok <==> aead_open(key@, nonce@, aad@, buf_view(*old(buf))) is Some,
        r is Ok ==> aead_open(key@, nonce@, aad@, buf_view(*old(buf))) == Some(
            buf_view(*final(buf)),
        ),
        r is Ok ==> buf_view(*final(buf)).len() + TAG_LEN == buf_view(*old(buf)).len(),
        r is Err ==> buf_view(*final(buf)) == buf_view(*old(buf)),
{
    let cipher = ChaCha20Poly1305::new(Key::from_slice(key));
    cipher.decrypt_in_place(Nonce::from_slice(nonce), aad, buf)
}

/// `Hkdf::<Sha256>::extract`: the pseudorandom key of a salt and input key material.
#[verifier::external_body]
pub(crate) fn extract(salt: &[u8], ikm: &[u8]) -> (r: [u8; 32])
    ensures
        r@ == hkdf_extract(salt@, ikm@),
{
    let (prk, _) = hkdf::Hkdf::<Sha256>::extract(Some(salt), ikm);
    prk.into()
}

/// `Hkdf::<Sha256>::expand` on `Hkdf::from_prk`: `n` bytes of key under a label. More
/// than 255 blocks of 32 bytes are refused, with the words that `InvalidLength` has.
#[verifier::external_body]
pub(crate) fn expand(prk: &[u8; 32], info: &[u8], n: usize) -> (r: Result<Vec<u8>, String>)
    requires
        n <= isize::MAX,
    ensures
        r is Ok <==> n <= 255 * 32,
        r matches Ok(okm) ==> okm@.len() == n && okm@ == hkdf_expand(prk@, info@, n as nat),
        r matches Err(e) ==> e@ == "invalid number of blocks, too large output"@,
{
    let hk = hkdf::Hkdf::<Sha256>::from_prk(prk).expect("a digest is long enough");
    let mut okm = vec![0u8; n];
    hk.expand(info, &mut okm).map_err(|e| e.to_string())?;
    Ok(okm)
}

/// `Hmac::<Sha256>`, from `new_from_slice` to `finalize`: the code of one message. A key
/// of any length will do.
#[verifier::external_body]
pub(crate) fn hmac(key: &[u8], message: &[u8]) -> (r: [u8; 32])
    ensures
        r@ == hmac_sha256(key@, message@),
{
    let mut mac = <Hmac<Sha256> as Mac>::new_from_slice(key).expect("any length will do");
    mac.update(message);
    mac.finalize().into_bytes().into()
}

/// `PublicKey::from(&StaticSecret)`: the public key of a secret.
#[verifier::external_body]
pub(crate) fn public_key_of(secret: &[u8; 32]) -> (r: [u8; 32])
    ensures
        r@ == x25519_public(secret@),
{
    PublicKey::from(&StaticSecret::from(*secret)).to_bytes()
}

/// `StaticSecret::diffie_hellman`: the shared secret, the same from either side.
#[verifier::external_body]
pub(crate) fn diffie_hellman(secret: &[u8; 32], public: &[u8; 32]) -> (r: [u8; 32])
    ensures
        r@ == x25519_shared(secret@, public@),
        forall|other: Seq<u8>|
            public@ == #[trigger] x25519_public(other) && other.len() == 32 ==> r@
                == x25519_shared(other, x25519_public(secret@)),
{
    StaticSecret::from(*secret).diffie_hellman(&PublicKey::from(*public)).to_bytes()
}

/// `ConstantTimeEq::ct_eq` of byte slices: 1 when they are equal, 0 when not.
#[verifier::external_body]
pub(crate) fn ct_eq(a: &[u8], b: &[u8]) -> (r: u8)
    ensures
        r == (if a@ == b@ {
            1u8
        } else {
            0u8
        }),
{
    a.ct_eq(b).unwrap_u8()
}

/// `BitOr` of `Choice`: 1 when either is 1. A `Choice` is 0 or 1.
#[verifier::external_body]
pub(crate) fn ct_or(a: u8, b: u8) -> (r: u8)
    requires
        a <= 1,
        b <= 1,
    ensures
        r == (if a == 1 || b == 1 {
            1u8
        } else {
            0u8
        }),
{
    (Choice::from(a) | Choice::from(b)).unwrap_u8()
}

/// `Zeroize` of a byte array: every byte becomes zero.
#[verifier::external_body]
pub(crate) fn wipe<const N: usize>(bytes: &mut [u8; N])
    ensures
        final(bytes)@ == zeros(N as nat),
    opens_invariants none
    no_unwind
{
    bytes.zeroize()
}

/// `Zeroize` of a byte vector: every byte, spare room included, becomes zero, and none
/// is left in it.
#[verifier::external_body]
pub(crate) fn wipe_vec(bytes: &mut Vec<u8>)
    ensures
        final(bytes)@.len() == 0,
    opens_invariants none
    no_unwind
{
    bytes.zeroize()
}

} // verus!
