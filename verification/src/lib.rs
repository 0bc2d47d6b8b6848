//! A small key-value cache spoken to over a length-prefixed text protocol.
pub mod framing;
pub mod laws;
pub mod session;
pub mod store;
pub mod text;
