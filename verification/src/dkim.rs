//! The descriptor of a DKIM signature, as far as message preprocessing
//! needs it: the algorithm, the canonicalizations and the body length that
//! the signature asks for.

use vstd::prelude::*;
use vstd::slice::slice_subrange;
use crate::common::tag::{
    bytes_eq, find_tag, first_tag, has_value, lemma_first_tag, number, number_of, spans_within,
    squeeze, squeezed, tag_list, tag_views, tags_from, value_of, Tag, TagSpan,
};
use crate::error::Error;

pub mod canonicalize;

verus! {

/// The tag `a`: the signing algorithm.
pub const TAG_A: u64 = 0x61;

/// The tag `b`: the signature.
pub const TAG_B: u64 = 0x62;

/// The tag `bh`: the body hash.
pub const TAG_BH: u64 = 0x6862;

/// The tag `c`: the canonicalizations of header and body.
pub const TAG_C: u64 = 0x63;

/// The tag `d`: the signing domain.
pub const TAG_D: u64 = 0x64;

/// The tag `h`: the signed header fields.
pub const TAG_H: u64 = 0x68;

/// The tag `i`: in an ARC header, the instance.
pub const TAG_I: u64 = 0x69;

/// The tag `l`: the body length.
pub const TAG_L: u64 = 0x6c;

/// The tag `s`: the selector.
pub const TAG_S: u64 = 0x73;

/// The tag `v`: the version.
pub const TAG_V: u64 = 0x76;

/// The algorithm name `rsa-sha256`.
pub const RSA_SHA256: [u8; 10] = [0x72, 0x73, 0x61, 0x2d, 0x73, 0x68, 0x61, 0x32, 0x35, 0x36];

/// The algorithm name `rsa-sha1`.
pub const RSA_SHA1: [u8; 8] = [0x72, 0x73, 0x61, 0x2d, 0x73, 0x68, 0x61, 0x31];

/// The algorithm name `ed25519-sha256`.
pub const ED25519_SHA256: [u8; 14] = [
    0x65, 0x64, 0x32, 0x35, 0x35, 0x31, 0x39, 0x2d, 0x73, 0x68, 0x61, 0x32, 0x35, 0x36,
];

/// The canonicalization `simple`.
pub const SIMPLE: [u8; 6] = [0x73, 0x69, 0x6d, 0x70, 0x6c, 0x65];

/// The canonicalization `relaxed`.
pub const RELAXED: [u8; 7] = [0x72, 0x65, 0x6c, 0x61, 0x78, 0x65, 0x64];

/// The canonicalization `simple/simple`.
pub const SIMPLE_SIMPLE: [u8; 13] = [
    0x73, 0x69, 0x6d, 0x70, 0x6c, 0x65, 0x2f, 0x73, 0x69, 0x6d, 0x70, 0x6c, 0x65,
];

/// The canonicalization `simple/relaxed`.
pub const SIMPLE_RELAXED: [u8; 14] = [
    0x73, 0x69, 0x6d, 0x70, 0x6c, 0x65, 0x2f, 0x72, 0x65, 0x6c, 0x61, 0x78, 0x65, 0x64,
];

/// The canonicalization `relaxed/simple`.
pub const RELAXED_SIMPLE: [u8; 14] = [
    0x72, 0x65, 0x6c, 0x61, 0x78, 0x65, 0x64, 0x2f, 0x73, 0x69, 0x6d, 0x70, 0x6c, 0x65,
];

/// The canonicalization `relaxed/relaxed`.
pub const RELAXED_RELAXED: [u8; 15] = [
    0x72, 0x65, 0x6c, 0x61, 0x78, 0x65, 0x64, 0x2f, 0x72, 0x65, 0x6c, 0x61, 0x78, 0x65, 0x64,
];

/// The signing algorithms.
#[derive(Debug, Clone, Copy, PartialEq, Eq, Structural)]
pub enum Algorithm {
    RsaSha1,
    RsaSha256,
    Ed25519Sha256,
}

/// The hashes that the signing algorithms sign.
#[derive(Debug, Clone, Copy, PartialEq, Eq, Structural)]
pub enum HashAlgorithm {
    Sha1,
    Sha256,
}

/// The ways to bring a header or a body into the form that is hashed.
#[derive(Debug, Clone, Copy, PartialEq, Eq, Structural)]
pub enum Canonicalization {
    Relaxed,
    Simple,
}

impl Algorithm {
    /// The hash that the algorithm signs.
    pub open spec fn hash(self) -> HashAlgorithm {
        match self {
            Algorithm::RsaSha1 => HashAlgorithm::Sha1,
            Algorithm::RsaSha256 => HashAlgorithm::Sha256,
            Algorithm::Ed25519Sha256 => HashAlgorithm::Sha256,
        }
    }

    pub fn hash_algorithm(self) -> (h: HashAlgorithm)
        ensures
            h == self.hash(),
    {
        match self {
            Algorithm::RsaSha1 => HashAlgorithm::Sha1,
            Algorithm::RsaSha256 => HashAlgorithm::Sha256,
            Algorithm::Ed25519Sha256 => HashAlgorithm::Sha256,
        }
    }
}

/// What a signature asks of the body and of the signer: the fields that a
/// DKIM signature and an ARC message signature share.
#[derive(Debug, Clone, Copy, PartialEq, Eq, Structural)]
pub struct Signature {
    /// The signing algorithm.
    pub a: Algorithm,
    /// The canonicalization of the header.
    pub ch: Canonicalization,
    /// The canonicalization of the body.
    pub cb: Canonicalization,
    /// The number of body bytes that are hashed; 0 stands for all of them.
    pub l: u64,
}

/// The algorithm that a value names.
pub open spec fn algorithm_of(v: Seq<u8>) -> Option<Algorithm> {
    let word = squeezed(v);
    if word == RSA_SHA256@ {
        Some(Algorithm::RsaSha256)
    } else if word == RSA_SHA1@ {
        Some(Algorithm::RsaSha1)
    } else if word == ED25519_SHA256@ {
        Some(Algorithm::Ed25519Sha256)
    } else {
        None
    }
}

/// The canonicalizations of header and body that a value names. Where the
/// one of the body is not written, it is `simple`.
pub open spec fn canonicalization_of(v: Seq<u8>) -> Option<(Canonicalization, Canonicalization)> {
    let word = squeezed(v);
    if word == SIMPLE@ || word == SIMPLE_SIMPLE@ {
        Some((Canonicalization::Simple, Canonicalization::Simple))
    } else if word == RELAXED@ || word == RELAXED_SIMPLE@ {
        Some((Canonicalization::Relaxed, Canonicalization::Simple))
    } else if word == SIMPLE_RELAXED@ {
        Some((Canonicalization::Simple, Canonicalization::Relaxed))
    } else if word == RELAXED_RELAXED@ {
        Some((Canonicalization::Relaxed, Canonicalization::Relaxed))
    } else {
        None
    }
}

/// The tags `b`, `bh`, `d`, `h` and `s` are there, each with a value.
pub open spec fn has_signature_values(s: Seq<u8>, tags: Seq<TagSpan>) -> bool {
    &&& has_value(s, tags, TAG_B)
    &&& has_value(s, tags, TAG_BH)
    &&& has_value(s, tags, TAG_D)
    &&& has_value(s, tags, TAG_H)
    &&& has_value(s, tags, TAG_S)
}

/// The body length that a tag list asks for: the number behind `l`, and 0
/// where there is no such tag or no number behind it.
pub open spec fn body_length_of(s: Seq<u8>, tags: Seq<TagSpan>) -> u64 {
    match value_of(s, tags, TAG_L) {
        Some(v) => match number_of(v) {
            Some(n) => n,
            None => 0,
        },
        None => 0,
    }
}

/// The descriptor that the pairs `tags` of the header value `s` make.
///
/// The algorithm must be there and known. The canonicalization must be
/// known if it is there, and is `simple/simple` if it is not. The
/// signature, the body hash, the domain, the header list and the selector
/// must be there. Of several pairs with one tag, the first counts.
pub open spec fn signature_fields(s: Seq<u8>, tags: Seq<TagSpan>) -> Result<Signature, Error> {
    match value_of(s, tags, TAG_A) {
        None => Err(Error::MissingParameters),
        Some(name) => match algorithm_of(name) {
            None => Err(Error::UnsupportedAlgorithm),
            Some(a) => {
                let c = match value_of(s, tags, TAG_C) {
                    Some(v) => canonicalization_of(v),
                    None => Some((Canonicalization::Simple, Canonicalization::Simple)),
                };
                match c {
                    None => Err(Error::UnsupportedCanonicalization),
                    Some((ch, cb)) => if has_signature_values(s, tags) {
                        Ok(Signature { a, ch, cb, l: body_length_of(s, tags) })
                    } else {
                        Err(Error::MissingParameters)
                    },
                }
            },
        },
    }
}

/// The version of a tag list is acceptable: it is not written, or it is 1.
pub open spec fn version_ok(s: Seq<u8>, tags: Seq<TagSpan>) -> bool {
    match value_of(s, tags, TAG_V) {
        Some(v) => number_of(v) == Some(1u64),
        None => true,
    }
}

/// The descriptor of the DKIM signature whose header value is `s`.
pub open spec fn signature_of(s: Seq<u8>) -> Result<Signature, Error> {
    let tags = tags_from(s, 0);
    if !version_ok(s, tags) {
        Err(Error::UnsupportedVersion)
    } else {
        signature_fields(s, tags)
    }
}

/// The value of the first pair whose tag is `key`.
pub(crate) fn tag_value<'a>(bytes: &'a [u8], tags: &Vec<Tag>, key: u64) -> (r: Option<&'a [u8]>)
    requires
        spans_within(tag_views(tags@), bytes@.len() as int),
    ensures
        match r {
            Some(v) => value_of(bytes@, tag_views(tags@), key) == Some(v@),
            None => value_of(bytes@, tag_views(tags@), key) is None,
        },
{
    match find_tag(tags, key) {
        Some(t) => {
            proof {
                lemma_first_tag(tag_views(tags@), key);
            }
            Some(slice_subrange(bytes, t.start, t.end))
        },
        None => None,
    }
}

/// Whether the tag `key` is there with a value that holds more than
/// whitespace.
pub(crate) fn tag_has_value(bytes: &[u8], tags: &Vec<Tag>, key: u64) -> (r: bool)
    requires
        spans_within(tag_views(tags@), bytes@.len() as int),
    ensures
        r == has_value(bytes@, tag_views(tags@), key),
{
    match tag_value(bytes, tags, key) {
        Some(v) => squeeze(v).len() > 0,
        None => false,
    }
}

/// Reads the name of a signing algorithm.
pub fn algorithm(value: &[u8]) -> (r: Option<Algorithm>)
    ensures
        r == algorithm_of(value@),
{
    let word = squeeze(value);
    if bytes_eq(word.as_slice(), RSA_SHA256.as_slice()) {
        Some(Algorithm::RsaSha256)
    } else if bytes_eq(word.as_slice(), RSA_SHA1.as_slice()) {
        Some(Algorithm::RsaSha1)
    } else if bytes_eq(word.as_slice(), ED25519_SHA256.as_slice()) {
        Some(Algorithm::Ed25519Sha256)
    } else {
        None
    }
}

/// Reads the names of the canonicalizations of header and body.
pub fn canonicalization(value: &[u8]) -> (r: Option<(Canonicalization, Canonicalization)>)
    ensures
        r == canonicalization_of(value@),
{
    let word = squeeze(value);
    let w = word.as_slice();
    if bytes_eq(w, SIMPLE.as_slice()) || bytes_eq(w, SIMPLE_SIMPLE.as_slice()) {
        Some((Canonicalization::Simple, Canonicalization::Simple))
    } else if bytes_eq(w, RELAXED.as_slice()) || bytes_eq(w, RELAXED_SIMPLE.as_slice()) {
        Some((Canonicalization::Relaxed, Canonicalization::Simple))
    } else if bytes_eq(w, SIMPLE_RELAXED.as_slice()) {
        Some((Canonicalization::Simple, Canonicalization::Relaxed))
    } else if bytes_eq(w, RELAXED_RELAXED.as_slice()) {
        Some((Canonicalization::Relaxed, Canonicalization::Relaxed))
    } else {
        None
    }
}

/// Builds the descriptor that a DKIM signature and an ARC message signature
/// share from the pairs of a header value.
pub(crate) fn signature_from_tags(bytes: &[u8], tags: &Vec<Tag>) -> (r: Result<Signature, Error>)
    requires
        spans_within(tag_views(tags@), bytes@.len() as int),
    ensures
        r == signature_fields(bytes@, tag_views(tags@)),
{
    let a = match tag_value(bytes, tags, TAG_A) {
        None => {
            return Err(Error::MissingParameters);
        },
        Some(name) => match algorithm(name) {
            None => {
                return Err(Error::UnsupportedAlgorithm);
            },
            Some(a) => a,
        },
    };
    let c = match tag_value(bytes, tags, TAG_C) {
        Some(v) => canonicalization(v),
        None => Some((Canonicalization::Simple, Canonicalization::Simple)),
    };
    let (ch, cb) = match c {
        None => {
            return Err(Error::UnsupportedCanonicalization);
        },
        Some(pair) => pair,
    };
    if !(tag_has_value(bytes, tags, TAG_B) && tag_has_value(bytes, tags, TAG_BH) && tag_has_value(
        bytes,
        tags,
        TAG_D,
    ) && tag_has_value(bytes, tags, TAG_H) && tag_has_value(bytes, tags, TAG_S)) {
        return Err(Error::MissingParameters);
    }
    let l = match tag_value(bytes, tags, TAG_L) {
        Some(v) => match number(v) {
            Some(n) => n,
            None => 0,
        },
        None => 0,
    };
    Ok(Signature { a, ch, cb, l })
}

impl Signature {
    /// Parses the value of a `DKIM-Signature` header.
    pub fn parse(header: &[u8]) -> (r: Result<Signature, Error>)
        ensures
            r == signature_of(header@),
    {
        let tags = tag_list(header);
        let version_ok = match tag_value(header, &tags, TAG_V) {
            Some(v) => match number(v) {
                Some(n) => n == 1,
                None => false,
            },
            None => true,
        };
        if !version_ok {
            return Err(Error::UnsupportedVersion);
        }
        signature_from_tags(header, &tags)
    }
}

} // verus!
