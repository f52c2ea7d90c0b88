//! The descriptors of the three headers that one hop adds to an ARC chain:
//! the message signature, the seal and the authentication results. Each
//! carries the instance of its hop.

use vstd::prelude::*;
use crate::common::tag::{
    has_value, number, number_of, spans_within, tag_list, tag_views, tags_from, value_of, Tag,
    TagSpan,
};
use crate::dkim::{
    algorithm, algorithm_of, signature_fields, signature_from_tags, tag_has_value, tag_value,
    Algorithm, Canonicalization, TAG_A, TAG_B, TAG_D, TAG_I, TAG_S,
};
use crate::error::Error;

verus! {

/// The largest instance that a chain may reach.
pub const MAX_INSTANCE: u64 = 50;

/// A descriptor that belongs to one hop of an ARC chain.
pub trait Instance {
    /// The instance of the hop, as a mathematical value.
    spec fn instance_of(&self) -> u32;

    /// The instance of the hop.
    fn instance(&self) -> (i: u32)
        ensures
            i == self.instance_of(),
    ;
}

/// The descriptor of an `ARC-Message-Signature` header.
#[derive(Debug, Clone, Copy, PartialEq, Eq, Structural)]
pub struct Signature {
    /// The instance.
    pub i: u32,
    /// The signing algorithm.
    pub a: Algorithm,
    /// The canonicalization of the header.
    pub ch: Canonicalization,
    /// The canonicalization of the body.
    pub cb: Canonicalization,
    /// The number of body bytes that are hashed; 0 stands for all of them.
    pub l: u64,
}

/// The descriptor of an `ARC-Seal` header.
#[derive(Debug, Clone, Copy, PartialEq, Eq, Structural)]
pub struct Seal {
    /// The instance.
    pub i: u32,
    /// The signing algorithm.
    pub a: Algorithm,
}

/// The descriptor of an `ARC-Authentication-Results` header.
#[derive(Debug, Clone, Copy, PartialEq, Eq, Structural)]
pub struct Results {
    /// The instance.
    pub i: u32,
}

impl Instance for Signature {
    open spec fn instance_of(&self) -> u32 {
        self.i
    }

    fn instance(&self) -> (i: u32) {
        self.i
    }
}

impl Instance for Seal {
    open spec fn instance_of(&self) -> u32 {
        self.i
    }

    fn instance(&self) -> (i: u32) {
        self.i
    }
}

impl Instance for Results {
    open spec fn instance_of(&self) -> u32 {
        self.i
    }

    fn instance(&self) -> (i: u32) {
        self.i
    }
}

/// The instance that a tag list names: the number behind the first `i`,
/// which must lie between 1 and 50.
pub open spec fn instance_in(s: Seq<u8>, tags: Seq<TagSpan>) -> Result<u32, Error> {
    match value_of(s, tags, TAG_I) {
        Some(v) => match number_of(v) {
            Some(n) => if 1 <= n <= MAX_INSTANCE {
                Ok(n as u32)
            } else {
                Err(Error::ARCInvalidInstance)
            },
            None => Err(Error::ARCInvalidInstance),
        },
        None => Err(Error::ARCInvalidInstance),
    }
}

/// The descriptor of the ARC message signature whose header value is `s`:
/// its instance, and the fields of a DKIM signature.
pub open spec fn message_signature_of(s: Seq<u8>) -> Result<Signature, Error> {
    let tags = tags_from(s, 0);
    match instance_in(s, tags) {
        Err(e) => Err(e),
        Ok(i) => match signature_fields(s, tags) {
            Err(e) => Err(e),
            Ok(f) => Ok(Signature { i, a: f.a, ch: f.ch, cb: f.cb, l: f.l }),
        },
    }
}

/// The descriptor of the ARC seal whose header value is `s`: its instance
/// and its algorithm, which must be known. The signature, the domain and
/// the selector must be there.
pub open spec fn seal_of(s: Seq<u8>) -> Result<Seal, Error> {
    let tags = tags_from(s, 0);
    match instance_in(s, tags) {
        Err(e) => Err(e),
        Ok(i) => match value_of(s, tags, TAG_A) {
            None => Err(Error::MissingParameters),
            Some(name) => match algorithm_of(name) {
                None => Err(Error::UnsupportedAlgorithm),
                Some(a) => if has_value(s, tags, TAG_B) && has_value(s, tags, TAG_D) && has_value(
                    s,
                    tags,
                    TAG_S,
                ) {
                    Ok(Seal { i, a })
                } else {
                    Err(Error::MissingParameters)
                },
            },
        },
    }
}

/// The descriptor of the ARC authentication results whose header value is
/// `s`: its instance.
pub open spec fn results_of(s: Seq<u8>) -> Result<Results, Error> {
    match instance_in(s, tags_from(s, 0)) {
        Err(e) => Err(e),
        Ok(i) => Ok(Results { i }),
    }
}

fn instance_from_tags(bytes: &[u8], tags: &Vec<Tag>) -> (r: Result<u32, Error>)
    requires
        spans_within(tag_views(tags@), bytes@.len() as int),
    ensures
        r == instance_in(bytes@, tag_views(tags@)),
{
    match tag_value(bytes, tags, TAG_I) {
        Some(v) => match number(v) {
            Some(n) => {
                if 1 <= n && n <= MAX_INSTANCE {
                    Ok(n as u32)
                } else {
                    Err(Error::ARCInvalidInstance)
                }
            },
            None => Err(Error::ARCInvalidInstance),
        },
        None => Err(Error::ARCInvalidInstance),
    }
}

impl Signature {
    /// Parses the value of an `ARC-Message-Signature` header.
    pub fn parse(header: &[u8]) -> (r: Result<Signature, Error>)
        ensures
            r == message_signature_of(header@),
    {
        let tags = tag_list(header);
        let i = match instance_from_tags(header, &tags) {
            Ok(i) => i,
            Err(e) => {
                return Err(e);
            },
        };
        match signature_from_tags(header, &tags) {
            Ok(f) => Ok(Signature { i, a: f.a, ch: f.ch, cb: f.cb, l: f.l }),
            Err(e) => Err(e),
        }
    }
}

impl Seal {
    /// Parses the value of an `ARC-Seal` header.
    pub fn parse(header: &[u8]) -> (r: Result<Seal, Error>)
        ensures
            r == seal_of(header@),
    {
        let tags = tag_list(header);
        let i = match instance_from_tags(header, &tags) {
            Ok(i) => i,
            Err(e) => {
                return Err(e);
            },
        };
        let a = match tag_value(header, &tags, TAG_A) {
            None => {
                return Err(Error::MissingParameters);
            },
            Some(name) => match algorithm(name) {
                None => {
                    return Err(Error::UnsupportedAlgorithm);
                },
                Some(a) => a,
            },
        };
        if tag_has_value(header, &tags, TAG_B) && tag_has_value(
            header,
            &tags,
            TAG_D,
        ) && tag_has_value(header, &tags, TAG_S) {
            Ok(Seal { i, a })
        } else {
            Err(Error::MissingParameters)
        }
    }
}

impl Results {
    /// Parses the value of an `ARC-Authentication-Results` header.
    pub fn parse(header: &[u8]) -> (r: Result<Results, Error>)
        ensures
            r == results_of(header@),
    {
        let tags = tag_list(header);
        match instance_from_tags(header, &tags) {
            Ok(i) => Ok(Results { i }),
            Err(e) => Err(e),
        }
    }
}

} // verus!
