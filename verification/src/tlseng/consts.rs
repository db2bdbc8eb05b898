//! Single numbers of the TLS wire format.

use vstd::prelude::*;

verus! {

/// The handshake type of a `ClientHello`.
pub const HANDSHAKE_TYPE_CLIENT_HELLO: u8 = 0x01;

/// The handshake type of a `ServerHello`.
pub const HANDSHAKE_TYPE_SERVER_HELLO: u8 = 0x02;

/// The kind of name in a `server_name` extension: a host name.
pub const TYPE_HOST_NAME: u8 = 0x00;

/// The `psk_dhe_ke` mode of `psk_key_exchange_modes`.
pub const PSK_DHE_KE_MODE: u8 = 0x01;

/// Brotli, in `compress_certificate`.
pub const CERT_COMPRESSION_BROTLI: u16 = 0x0002;

/// OCSP, in `status_request`.
pub const OCSP_STATUS_TYPE: u8 = 0x01;

} // verus!
