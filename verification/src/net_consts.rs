//! Fixed numbers of the protocol.

use vstd::prelude::*;

verus! {

/// How long one time step of an authentication tag lasts, in seconds.
pub const AUTH_TIME_STEP: u64 = 60;

/// How many steps around the current one are still accepted, on either side.
pub const AUTH_WINDOW_SIZE: u64 = 2;

/// The protocol version of a side that has credentials.
pub const PROTOCOL_VERSION: u8 = 3;

/// The protocol version of a side without credentials.
pub const PROTOCOL_VERSION_ANONYMOUS: u8 = 2;

/// From this version on the handshake includes the exchange with the static key.
pub const MIN_VERSION_FOR_STATIC_DH: u8 = 3;

} // verus!
