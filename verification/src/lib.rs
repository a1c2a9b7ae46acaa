//! A small persistent key-value store that speaks the RESP wire protocol.

pub mod buffer;
pub mod checksum;
pub mod cmd;
pub mod decimal;
pub mod display;
pub mod persistence;
pub mod resp;
pub mod resp_laws;
pub mod session;
pub mod store;
pub mod text;
pub mod value;
pub mod value_laws;
