//! The protocol inside the disguise: frames, the stream codec and the datagram codec.

pub mod batch;
pub mod codec;
pub mod datagram;
pub mod datagram_laws;
pub mod delivery;
pub mod frame;
pub mod replay;
pub mod shaper;
pub mod wire_laws;
