//! One direction of authenticated encryption, whatever the cipher.

use bytes::BytesMut;
use vstd::prelude::*;

use crate::buffers::buf_view;
use crate::crypto::primitives::{answerable, TAG_LEN};

verus! {

/// A direction that encrypts or decrypts packets in place, one after the other.
pub trait AeadPacker: Sized {
    /// Whether the direction can take another packet.
    spec fn ready(self) -> bool;

    /// What encrypting the packet `plain` does to the direction and to the packet.
    spec fn encrypted(
        before: Self,
        plain: Seq<u8>,
        r: Result<(), aead::Error>,
        after: Self,
        out: Seq<u8>,
    ) -> bool;

    /// What decrypting the packet `sealed` does to the direction and to the packet.
    spec fn decrypted(
        before: Self,
        sealed: Seq<u8>,
        r: Result<(), aead::Error>,
        after: Self,
        out: Seq<u8>,
    ) -> bool;

    /// Encrypts a packet in place.
    fn encrypt(&mut self, data: &mut BytesMut) -> (r: Result<(), aead::Error>)
        requires
            old(self).ready(),
            buf_view(*old(data)).len() + TAG_LEN <= isize::MAX,
            answerable(buf_view(*old(data)).len()),
        ensures
            Self::encrypted(
                *old(self),
                buf_view(*old(data)),
                r,
                *final(self),
                buf_view(*final(data)),
            ),
    ;

    /// Decrypts a packet in place.
    fn decrypt(&mut self, data: &mut BytesMut) -> (r: Result<(), aead::Error>)
        requires
            old(self).ready(),
            buf_view(*old(data)).len() >= TAG_LEN ==> answerable(
                (buf_view(*old(data)).len() - TAG_LEN) as nat,
            ),
        ensures
            Self::decrypted(
                *old(self),
                buf_view(*old(data)),
                r,
                *final(self),
                buf_view(*final(data)),
            ),
    ;
}

} // verus!
