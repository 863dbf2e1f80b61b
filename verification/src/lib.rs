//! A verified core for a small RESP (Redis serialization protocol) key-value
//! server: a codec between raw bytes and protocol values, a command
//! classifier, a keyspace store with lazy expiry, and the request dispatcher
//! that ties them together.

pub mod command;
pub mod decode;
pub mod digits;
pub mod encode;
pub mod laws;
pub mod resp;
pub mod server;
pub mod store;
