//! Message preprocessing, and what it shares with the record grammar: byte
//! classes, the byte cursor with its stop-character protocol, and tags
//! packed into integers.

pub mod address;
pub mod ascii;
pub mod chain;
pub mod crypto;
pub mod cursor;
pub mod headers;
pub mod laws;
pub mod message;
pub mod tag;
