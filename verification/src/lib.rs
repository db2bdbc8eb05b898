//! Netrunner engine: a tunnel protocol carried inside records that look like TLS.

pub mod agreement;
pub mod answer_laws;
pub mod app_error;
pub mod bridge;
pub mod buffers;
pub mod crypto;
pub mod entropy;
pub mod errors;
pub mod logging;
pub mod net_consts;
pub mod nrxp;
pub mod parser;
pub mod tlseng;
pub mod utils;
