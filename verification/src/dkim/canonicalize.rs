//! The canonical form of a message body, and the hash of it that a
//! signature covers.

use vstd::prelude::*;
use vstd::slice::slice_subrange;
use crate::common::ascii::{CR, LF, SPACE, TAB};
use crate::common::crypto::{sha1, sha1_digest, sha256, sha256_digest};
use crate::dkim::{Canonicalization, HashAlgorithm};

verus! {

/// A line break: carriage return and line feed.
pub open spec fn line_break() -> Seq<u8> {
    seq![CR, LF]
}

/// `n` line breaks.
pub open spec fn line_breaks(n: nat) -> Seq<u8>
    decreases n,
{
    if n == 0 {
        Seq::empty()
    } else {
        line_breaks((n - 1) as nat) + line_break()
    }
}

/// The `simple` form of the body from index `i` on, behind the output `out`
/// and `pending` line breaks that are not written yet.
///
/// Every line feed counts as a line break and carriage returns are dropped,
/// so that each line ends in exactly one carriage return and line feed. Line
/// breaks are written once a byte of a later line follows, so the empty
/// lines at the end are dropped; the body then ends in a single line break.
pub open spec fn simple_from(body: Seq<u8>, i: int, out: Seq<u8>, pending: nat) -> Seq<u8>
    decreases body.len() - i,
{
    if i < 0 || i >= body.len() {
        out + line_break()
    } else if body[i] == LF {
        simple_from(body, i + 1, out, pending + 1)
    } else if body[i] == CR {
        simple_from(body, i + 1, out, pending)
    } else {
        simple_from(body, i + 1, (out + line_breaks(pending)).push(body[i]), 0)
    }
}

/// The bytes that a byte of text adds to the `relaxed` form: the pending
/// line breaks, a single space if whitespace stood before the byte on its
/// line, and the byte.
pub open spec fn relaxed_text(out: Seq<u8>, pending: nat, space: bool, ch: u8) -> Seq<u8> {
    if space {
        (out + line_breaks(pending)).push(SPACE).push(ch)
    } else {
        (out + line_breaks(pending)).push(ch)
    }
}

/// The `relaxed` form of the body from index `i` on, behind the output
/// `out`, `pending` line breaks that are not written yet, and whitespace
/// that is not written yet if `space` holds.
///
/// As in the `simple` form, and besides: a run of spaces and tabs inside a
/// line becomes a single space, and one at the end of a line is dropped. A
/// body that holds nothing but whitespace and line breaks becomes empty.
pub open spec fn relaxed_from(body: Seq<u8>, i: int, out: Seq<u8>, pending: nat, space: bool) -> Seq<
    u8,
>
    decreases body.len() - i,
{
    if i < 0 || i >= body.len() {
        if out.len() > 0 {
            out + line_break()
        } else {
            out
        }
    } else if body[i] == SPACE || body[i] == TAB {
        relaxed_from(body, i + 1, out, pending, true)
    } else if body[i] == LF {
        relaxed_from(body, i + 1, out, pending + 1, false)
    } else if body[i] == CR {
        relaxed_from(body, i + 1, out, pending, space)
    } else {
        relaxed_from(body, i + 1, relaxed_text(out, pending, space, body[i]), 0, false)
    }
}

/// The canonical form of a body.
pub open spec fn canonical_body(c: Canonicalization, body: Seq<u8>) -> Seq<u8> {
    match c {
        Canonicalization::Simple => simple_from(body, 0, Seq::empty(), 0),
        Canonicalization::Relaxed => relaxed_from(body, 0, Seq::empty(), 0, false),
    }
}

/// The first `l` bytes of a canonical body, and all of it where `l` is 0
/// or the body is no longer than that.
pub open spec fn limited(canonical: Seq<u8>, l: u64) -> Seq<u8> {
    if l == 0 || l >= canonical.len() {
        canonical
    } else {
        canonical.subrange(0, l as int)
    }
}

/// The digest of a byte string under a hash algorithm.
pub open spec fn digest_of(h: HashAlgorithm, data: Seq<u8>) -> Seq<u8> {
    match h {
        HashAlgorithm::Sha1 => sha1(data),
        HashAlgorithm::Sha256 => sha256(data),
    }
}

/// The length of a digest under a hash algorithm, in bytes.
pub open spec fn digest_len(h: HashAlgorithm) -> nat {
    match h {
        HashAlgorithm::Sha1 => 20,
        HashAlgorithm::Sha256 => 32,
    }
}

/// The body hash that a signature with canonicalization `c`, hash `h` and
/// body length `l` covers.
pub open spec fn body_hash(c: Canonicalization, h: HashAlgorithm, body: Seq<u8>, l: u64) -> Seq<
    u8,
> {
    digest_of(h, limited(canonical_body(c, body), l))
}

/// Appends `pending` line breaks to `out`.
fn write_line_breaks(out: &mut Vec<u8>, pending: usize)
    ensures
        final(out)@ == old(out)@ + line_breaks(pending as nat),
{
    let mut k: usize = 0;
    assert(out@ + line_breaks(0) =~= out@);
    while k < pending
        invariant
            k <= pending,
            out@ == old(out)@ + line_breaks(k as nat),
        decreases pending - k,
    {
        out.push(CR);
        out.push(LF);
        k += 1;
        assert(out@ =~= old(out)@ + line_breaks(k as nat)) by {
            assert(line_breaks(k as nat) == line_breaks((k - 1) as nat) + line_break());
        }
    }
}

impl Canonicalization {
    /// Brings a body into its canonical form.
    pub fn canonicalize_body(&self, body: &[u8]) -> (out: Vec<u8>)
        ensures
            out@ == canonical_body(*self, body@),
    {
        let mut out: Vec<u8> = Vec::new();
        let mut pending: usize = 0;
        let mut i: usize = 0;
        match self {
            Canonicalization::Simple => {
                while i < body.len()
                    invariant
                        i <= body@.len(),
                        pending <= i,
                        canonical_body(Canonicalization::Simple, body@) == simple_from(
                            body@,
                            i as int,
                            out@,
                            pending as nat,
                        ),
                    decreases body@.len() - i,
                {
                    let ch = body[i];
                    if ch == LF {
                        pending += 1;
                    } else if ch != CR {
                        write_line_breaks(&mut out, pending);
                        out.push(ch);
                        pending = 0;
                    }
                    i += 1;
                }
                let ghost before = out@;
                out.push(CR);
                out.push(LF);
                assert(out@ =~= before + line_break());
            },
            Canonicalization::Relaxed => {
                let mut space = false;
                while i < body.len()
                    invariant
                        i <= body@.len(),
                        pending <= i,
                        canonical_body(Canonicalization::Relaxed, body@) == relaxed_from(
                            body@,
                            i as int,
                            out@,
                            pending as nat,
                            space,
                        ),
                    decreases body@.len() - i,
                {
                    let ch = body[i];
                    if ch == SPACE || ch == TAB {
                        space = true;
                    } else if ch == LF {
                        pending += 1;
                        space = false;
                    } else if ch != CR {
                        write_line_breaks(&mut out, pending);
                        if space {
                            out.push(SPACE);
                        }
                        out.push(ch);
                        pending = 0;
                        space = false;
                    }
                    i += 1;
                }
                if out.len() > 0 {
                    let ghost before = out@;
                    out.push(CR);
                    out.push(LF);
                    assert(out@ =~= before + line_break());
                }
            },
        }
        out
    }

    /// Computes the hash of a body that a signature covers: the digest
    /// under `h` of the canonical body, cut to `l` bytes if `l` is not 0.
    pub fn hash_body(&self, h: HashAlgorithm, body: &[u8], l: u64) -> (digest: Vec<u8>)
        ensures
            digest@ == body_hash(*self, h, body@, l),
            digest@.len() == digest_len(h),
    {
        let canonical = self.canonicalize_body(body);
        let data = if l == 0 || l >= canonical.len() as u64 {
            canonical.as_slice()
        } else {
            slice_subrange(canonical.as_slice(), 0, l as usize)
        };
        match h {
            HashAlgorithm::Sha1 => sha1_digest(data),
            HashAlgorithm::Sha256 => sha256_digest(data),
        }
    }
}

} // verus!
