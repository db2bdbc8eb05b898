//! 24-bit numbers: TLS writes the length of a handshake message in three bytes.

use bytes::BytesMut;
use vstd::prelude::*;

use crate::buffers::{buf_view, get_u8};
use crate::utils::byte_order::{be24, u24_at};

verus! {

/// A 24-bit number as three bytes, most significant first.
#[derive(Debug, Clone, Copy, PartialEq, Eq)]
pub struct U24(pub [u8; 3]);

impl U24 {
    /// The number.
    pub open spec fn value(self) -> u32 {
        u24_at(self.0@, 0)
    }

    /// The low 24 bits of a number.
    pub fn from_u32(value: u32) -> (r: Self)
        ensures
            r.0@ == be24(value),
            r.value() == value % 0x100_0000,
    {
        let r: U24 = U24(
            [
                ((value / 65536) % 256) as u8,
                ((value / 256) % 256) as u8,
                (value % 256) as u8,
            ],
        );
        proof {
            assert(r.0@ =~= be24(value));
            assert(((value / 65536) % 256) * 65536 + ((value / 256) % 256) * 256 + value % 256
                == value % 0x100_0000) by (bit_vector);
        }
        r
    }

    /// The number.
    pub fn _to_u32(&self) -> (r: u32)
        ensures
            r == self.value(),
    {
        self.0[0] as u32 * 65536 + self.0[1] as u32 * 256 + self.0[2] as u32
    }

    /// The number in the first three bytes of a slice.
    pub fn _from_slice(slice: &[u8]) -> (r: u32)
        requires
            slice@.len() >= 3,
        ensures
            r == u24_at(slice@, 0),
    {
        slice[0] as u32 * 65536 + slice[1] as u32 * 256 + slice[2] as u32
    }
}

/// Reading 24-bit numbers off the front of a buffer.
pub trait BufExt: Sized {
    /// The bytes not read yet.
    spec fn unread(self) -> Seq<u8>;

    /// Takes a 24-bit number off the front.
    fn get_u24(&mut self) -> (r: u32)
        requires
            old(self).unread().len() >= 3,
        ensures
            r == u24_at(old(self).unread(), 0),
            final(self).unread() == old(self).unread().subrange(
                3,
                old(self).unread().len() as int,
            ),
    ;
}

impl BufExt for BytesMut {
    open spec fn unread(self) -> Seq<u8> {
        buf_view(self)
    }

    fn get_u24(&mut self) -> (r: u32) {
        let ghost b = self.unread();
        let b1: u32 = get_u8(self) as u32;
        let b2: u32 = get_u8(self) as u32;
        let b3: u32 = get_u8(self) as u32;
        assert(buf_view(*self) =~= b.subrange(3, b.len() as int));
        b1 * 65536 + b2 * 256 + b3
    }
}

} // verus!
