//! Parsing values off the front of a buffer.

use bytes::BytesMut;
use vstd::prelude::*;

use crate::buffers::buf_view;

verus! {

/// A value that can be parsed off the front of a buffer.
///
/// `can_parse` only looks; `parse` takes the value's bytes out of the buffer.
/// `Ok(None)` means that there is nothing to take yet.
pub trait Parser: Sized {
    /// What is reported of bytes that can never become such a value.
    type Error;

    /// Whether the bytes in front are enough.
    spec fn complete(b: Seq<u8>) -> bool;

    /// What `parse` returns for the bytes `b`, and which bytes it leaves behind.
    spec fn outcome(b: Seq<u8>, r: Result<Option<Self>, Self::Error>, rest: Seq<u8>) -> bool;

    /// Whether the bytes in front are enough.
    fn can_parse(bytes: &BytesMut) -> (r: bool)
        ensures
            r == Self::complete(buf_view(*bytes)),
    ;

    /// Takes one value off the front.
    fn parse(bytes: &mut BytesMut) -> (r: Result<Option<Self>, Self::Error>)
        ensures
            Self::outcome(buf_view(*old(bytes)), r, buf_view(*final(bytes))),
    ;
}

} // verus!
