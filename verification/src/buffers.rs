//! The byte buffers of the `bytes` crate.
//!
//! [`BytesMut`] is the growable buffer that everything is parsed from and written
//! into, [`Bytes`] the shared, immutable one. Both are opaque here: [`buf_view`] and
//! [`bytes_view`] name the bytes that they hold, and the items below say what each
//! method does to those bytes. A buffer cannot hold more than `isize::MAX` bytes, so
//! whatever makes one grow asks that the sum stays below that; that there is memory for
//! it is taken for granted.

use bytes::{Buf, BufMut, Bytes, BytesMut};
use vstd::prelude::*;

use crate::utils::byte_order::be16;

verus! {

#[verifier::external_type_specification]
#[verifier::external_body]
pub struct ExBytesMut(BytesMut);

#[verifier::external_type_specification]
#[verifier::external_body]
pub struct ExBytes(Bytes);

/// The bytes that a [`BytesMut`] holds.
pub uninterp spec fn buf_view(b: BytesMut) -> Seq<u8>;

/// The bytes that a [`Bytes`] holds.
pub uninterp spec fn bytes_view(b: Bytes) -> Seq<u8>;

/// `BytesMut::new`: an empty buffer.
pub assume_specification[ BytesMut::new ]() -> (r: BytesMut)
    ensures
        buf_view(r) == Seq::<u8>::empty(),
;

/// `BytesMut::with_capacity`: an empty buffer, whatever room it has.
pub assume_specification[ BytesMut::with_capacity ](capacity: usize) -> (r: BytesMut)
    requires
        capacity <= isize::MAX,
    ensures
        buf_view(r) == Seq::<u8>::empty(),
;

/// `BytesMut::len`: the number of bytes held.
pub assume_specification[ BytesMut::len ](b: &BytesMut) -> (r: usize)
    ensures
        r == buf_view(*b).len(),
;

/// `BytesMut::is_empty`: whether no byte is held.
pub assume_specification[ BytesMut::is_empty ](b: &BytesMut) -> (r: bool)
    ensures
        r == (buf_view(*b).len() == 0),
;

/// `BytesMut::clear`: drops every byte.
pub assume_specification[ BytesMut::clear ](b: &mut BytesMut)
    ensures
        buf_view(*final(b)) == Seq::<u8>::empty(),
;

/// `BytesMut::freeze`: the same bytes, from now on immutable.
pub assume_specification[ BytesMut::freeze ](b: BytesMut) -> (r: Bytes)
    ensures
        bytes_view(r) == buf_view(b),
;

/// `BytesMut::split_to`: cuts off and returns the first `at` bytes; it panics when
/// there are fewer.
pub assume_specification[ BytesMut::split_to ](b: &mut BytesMut, at: usize) -> (r: BytesMut)
    requires
        at <= buf_view(*old(b)).len(),
    ensures
        buf_view(r) == buf_view(*old(b)).subrange(0, at as int),
        buf_view(*final(b)) == buf_view(*old(b)).subrange(
            at as int,
            buf_view(*old(b)).len() as int,
        ),
;

/// `BytesMut::split_off`: keeps the first `at` bytes and returns the others. Beyond
/// the length it depends on the spare room, so that is left out.
pub assume_specification[ BytesMut::split_off ](b: &mut BytesMut, at: usize) -> (r: BytesMut)
    requires
        at <= buf_view(*old(b)).len(),
    ensures
        buf_view(*final(b)) == buf_view(*old(b)).subrange(0, at as int),
        buf_view(r) == buf_view(*old(b)).subrange(at as int, buf_view(*old(b)).len() as int),
;

/// `BytesMut::split`: takes all bytes out and leaves the buffer empty.
pub assume_specification[ BytesMut::split ](b: &mut BytesMut) -> (r: BytesMut)
    ensures
        buf_view(r) == buf_view(*old(b)),
        buf_view(*final(b)) == Seq::<u8>::empty(),
;

/// `BytesMut::unsplit`: appends the bytes of `other`.
pub assume_specification[ BytesMut::unsplit ](b: &mut BytesMut, other: BytesMut)
    requires
        buf_view(*old(b)).len() + buf_view(other).len() <= isize::MAX,
    ensures
        buf_view(*final(b)) == buf_view(*old(b)) + buf_view(other),
;

/// `BytesMut::extend_from_slice`: appends the bytes of `extend`.
pub assume_specification[ BytesMut::extend_from_slice ](b: &mut BytesMut, extend: &[u8])
    requires
        buf_view(*old(b)).len() + extend@.len() <= isize::MAX,
    ensures
        buf_view(*final(b)) == buf_view(*old(b)) + extend@,
;

/// `BytesMut::reserve`: makes room for `additional` more bytes and changes no byte.
pub assume_specification[ BytesMut::reserve ](b: &mut BytesMut, additional: usize)
    requires
        buf_view(*old(b)).len() + additional <= isize::MAX,
    ensures
        buf_view(*final(b)) == buf_view(*old(b)),
;

/// `Buf::advance` on a [`BytesMut`]: drops the first `cnt` bytes; it panics when there
/// are fewer.
pub assume_specification[ <BytesMut as Buf>::advance ](b: &mut BytesMut, cnt: usize)
    requires
        cnt <= buf_view(*old(b)).len(),
    ensures
        buf_view(*final(b)) == buf_view(*old(b)).subrange(
            cnt as int,
            buf_view(*old(b)).len() as int,
        ),
;

/// `BufMut::put_slice` on a [`BytesMut`]: appends the bytes of `src`.
pub assume_specification[ <BytesMut as BufMut>::put_slice ](b: &mut BytesMut, src: &[u8])
    requires
        buf_view(*old(b)).len() + src@.len() <= isize::MAX,
    ensures
        buf_view(*final(b)) == buf_view(*old(b)) + src@,
;

/// `Buf::get_u8`: takes one byte off the front; it panics when there is none.
#[verifier::external_body]
pub(crate) fn get_u8(b: &mut BytesMut) -> (r: u8)
    requires
        buf_view(*old(b)).len() >= 1,
    ensures
        r == buf_view(*old(b))[0],
        buf_view(*final(b)) == buf_view(*old(b)).subrange(1, buf_view(*old(b)).len() as int),
{
    b.get_u8()
}

/// `Buf::get_u16`: takes a big-endian 16-bit number off the front; it panics when
/// there are fewer than two bytes.
#[verifier::external_body]
pub(crate) fn get_u16(b: &mut BytesMut) -> (r: u16)
    requires
        buf_view(*old(b)).len() >= 2,
    ensures
        r == crate::utils::byte_order::u16_at(buf_view(*old(b)), 0),
        buf_view(*final(b)) == buf_view(*old(b)).subrange(2, buf_view(*old(b)).len() as int),
{
    b.get_u16()
}

/// `BufMut::put_u8`: appends one byte.
#[verifier::external_body]
pub(crate) fn put_u8(b: &mut BytesMut, n: u8)
    requires
        buf_view(*old(b)).len() + 1 <= isize::MAX,
    ensures
        buf_view(*final(b)) == buf_view(*old(b)).push(n),
{
    b.put_u8(n)
}

/// `BufMut::put_u16`: appends a 16-bit number, big-endian.
#[verifier::external_body]
pub(crate) fn put_u16(b: &mut BytesMut, n: u16)
    requires
        buf_view(*old(b)).len() + 2 <= isize::MAX,
    ensures
        buf_view(*final(b)) == buf_view(*old(b)) + be16(n),
{
    b.put_u16(n)
}

/// `BytesMut::from(&[u8])`: a buffer with a copy of the given bytes.
#[verifier::external_body]
pub(crate) fn buf_from(s: &[u8]) -> (r: BytesMut)
    ensures
        buf_view(r) == s@,
{
    BytesMut::from(s)
}

/// `AsRef<[u8]>` for [`BytesMut`]: the bytes held, as a slice.
#[verifier::external_body]
pub(crate) fn buf_slice(b: &BytesMut) -> (r: &[u8])
    ensures
        r@ == buf_view(*b),
{
    b.as_ref()
}

/// `Bytes::new`: no bytes.
pub assume_specification[ Bytes::new ]() -> (r: Bytes)
    ensures
        bytes_view(r) == Seq::<u8>::empty(),
;

/// `Bytes::len`: the number of bytes held.
pub assume_specification[ Bytes::len ](b: &Bytes) -> (r: usize)
    ensures
        r == bytes_view(*b).len(),
;

/// `Bytes::copy_from_slice`: a copy of the given bytes.
pub assume_specification[ Bytes::copy_from_slice ](data: &[u8]) -> (r: Bytes)
    ensures
        bytes_view(r) == data@,
;

/// `Clone` for [`Bytes`]: another handle on the same bytes.
pub assume_specification[ <Bytes as Clone>::clone ](b: &Bytes) -> (r: Bytes)
    ensures
        bytes_view(r) == bytes_view(*b),
;

/// `AsRef<[u8]>` for [`Bytes`]: the bytes held, as a slice.
#[verifier::external_body]
pub(crate) fn bytes_slice(b: &Bytes) -> (r: &[u8])
    ensures
        r@ == bytes_view(*b),
{
    b.as_ref()
}

} // verus!
