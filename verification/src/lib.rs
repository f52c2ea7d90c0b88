//! Extraction of the authentication evidence carried by an e-mail
//! transaction: the SPF policy record grammar, and the preprocessing of a raw
//! message into classified headers, signature descriptors, body hashes and an
//! ordered ARC chain.
//!
//! Every function is specified over sequences of bytes and proved against
//! that specification. DNS, networking and signature verification are left
//! to the consumers of the structures built here.

pub mod arc;
pub mod common;
pub mod dkim;
pub mod error;
pub mod spf;

pub use common::message::AuthenticatedMessage;
pub use spf::SPF;
