//! The cryptographic foundation: key exchange, key derivation, the stream ciphers and
//! the time-based tags.

pub mod aead_packer;
pub mod auth;
pub mod chacha;
pub mod clock;
pub mod datagram_keys;
pub mod ecdh;
pub mod hex;
pub mod hkdf;
pub mod identity;
pub mod key_laws;
pub mod primitives;
pub mod session;
