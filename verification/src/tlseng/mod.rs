//! The disguise: hello messages and records that look like those of a browser's TLS.

pub mod consts;
pub mod decoy;
pub mod decoy_laws;
pub mod extension;
pub mod extension_builder;
pub mod extension_laws;
pub mod grease;
pub mod handshake;
pub mod hello_laws;
pub mod layout_laws;
pub mod mlkem;
pub mod profile;
pub mod reading_laws;
pub mod tls_record;
pub mod types;
