//! Why a signature header could not be read.

use vstd::prelude::*;

verus! {

/// The failure to parse one DKIM or ARC header. It stays with that header:
/// the other headers of the message are read all the same.
#[derive(Debug, Clone, Copy, PartialEq, Eq, Structural)]
pub enum Error {
    /// A tag that the header needs is absent or has no value.
    MissingParameters,
    /// The version is not 1.
    UnsupportedVersion,
    /// The signing algorithm is not known.
    UnsupportedAlgorithm,
    /// The canonicalization is not known.
    UnsupportedCanonicalization,
    /// The instance of an ARC header is absent or not between 1 and 50.
    ARCInvalidInstance,
}

} // verus!
