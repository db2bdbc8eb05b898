//! Small building blocks shared by the whole engine.

pub mod address;
pub mod byte_order;
pub mod text;
pub mod text_laws;
pub mod u24;
