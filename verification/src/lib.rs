//! A small client-side core for the RESP text protocol of key-value servers.
//!
//! The crate holds the protocol's logic and no socket. It frames a command
//! as a line, decodes one typed reply from the bytes received so far, and
//! drives one request/reply exchange by telling its caller, event by event,
//! whether to read on or what the outcome is.
//!
//! `wire` states the grammar of replies over sequences of bytes, `decode`
//! implements it, and `laws` proves what holds of it for every input.

pub mod error;
pub mod reply;
pub mod wire;
pub mod text;
pub mod decode;
pub mod write;
pub mod exchange;
pub mod laws;

pub use crate::reply::ReturnType;
