//! The header block of a raw message: where each header begins and ends,
//! and which of the kinds that matter to authentication it is.

use vstd::prelude::*;
use vstd::slice::slice_subrange;
use crate::common::ascii::{byte_to_lower, to_lower, COLON, CR, LF, SPACE, TAB};

verus! {

/// The header name `dkim-signature`.
pub const DKIM_SIGNATURE: [u8; 14] = [
    0x64, 0x6b, 0x69, 0x6d, 0x2d, 0x73, 0x69, 0x67, 0x6e, 0x61, 0x74, 0x75, 0x72, 0x65,
];

/// The header name `arc-authentication-results`.
pub const ARC_AUTHENTICATION_RESULTS: [u8; 26] = [
    0x61, 0x72, 0x63, 0x2d, 0x61, 0x75, 0x74, 0x68, 0x65, 0x6e, 0x74, 0x69, 0x63, 0x61, 0x74, 0x69, 0x6f, 0x6e, 0x2d, 0x72, 0x65, 0x73, 0x75, 0x6c, 0x74, 0x73,
];

/// The header name `arc-message-signature`.
pub const ARC_MESSAGE_SIGNATURE: [u8; 21] = [
    0x61, 0x72, 0x63, 0x2d, 0x6d, 0x65, 0x73, 0x73, 0x61, 0x67, 0x65, 0x2d, 0x73, 0x69, 0x67, 0x6e, 0x61, 0x74, 0x75, 0x72, 0x65,
];

/// The header name `arc-seal`.
pub const ARC_SEAL: [u8; 8] = [
    0x61, 0x72, 0x63, 0x2d, 0x73, 0x65, 0x61, 0x6c,
];

/// The header name `from`.
pub const FROM: [u8; 4] = [
    0x66, 0x72, 0x6f, 0x6d,
];

/// A space or a horizontal tab: what continues a folded header on the next
/// line.
pub open spec fn is_blank(ch: u8) -> bool {
    ch == SPACE || ch == TAB
}

/// The header block ends at index `i`: the input ends there, or an empty
/// line stands there.
pub open spec fn is_block_end(s: Seq<u8>, i: int) -> bool {
    i >= s.len() || s[i] == LF || (s[i] == CR && i + 1 < s.len() && s[i + 1] == LF)
}

/// The index at which the body begins, for a header block that ends at
/// index `i` on an empty line: the first byte behind that line. Where the
/// input ends with the header block there is no body.
pub open spec fn body_start(s: Seq<u8>, i: int) -> Option<int> {
    if i >= s.len() {
        None
    } else if s[i] == LF {
        Some(i + 1)
    } else {
        Some(i + 2)
    }
}

/// The index behind the header that begins at index `i`: behind the first
/// line feed that no space or tab follows, or the end of the input.
pub open spec fn header_end(s: Seq<u8>, i: int) -> int
    decreases s.len() - i,
{
    if i < 0 || i >= s.len() {
        i
    } else if s[i] == LF && !(i + 1 < s.len() && is_blank(s[i + 1])) {
        i + 1
    } else {
        header_end(s, i + 1)
    }
}

/// The index of the first colon from index `i` on and before `end`.
pub open spec fn find_colon(s: Seq<u8>, i: int, end: int) -> Option<int>
    decreases end - i,
{
    if i >= end {
        None
    } else if s[i] == COLON {
        Some(i)
    } else {
        find_colon(s, i + 1, end)
    }
}

/// Where the name and the value of a header lie in the message.
pub struct HeaderSpan {
    pub name_start: int,
    pub name_end: int,
    pub value_start: int,
    pub value_end: int,
}

impl HeaderSpan {
    pub open spec fn name(self, s: Seq<u8>) -> Seq<u8> {
        s.subrange(self.name_start, self.name_end)
    }

    pub open spec fn value(self, s: Seq<u8>) -> Seq<u8> {
        s.subrange(self.value_start, self.value_end)
    }
}

/// The header that begins at index `i`. Its name runs up to the first
/// colon, its value from behind the colon to the end of the header, line
/// break included. A header without a colon is all name and has an empty
/// value.
pub open spec fn header_at(s: Seq<u8>, i: int) -> HeaderSpan {
    let end = header_end(s, i);
    match find_colon(s, i, end) {
        Some(colon) => HeaderSpan {
            name_start: i,
            name_end: colon,
            value_start: colon + 1,
            value_end: end,
        },
        None => HeaderSpan { name_start: i, name_end: end, value_start: end, value_end: end },
    }
}

/// A header ends behind its start and within the message.
pub proof fn lemma_header_end(s: Seq<u8>, i: int)
    requires
        0 <= i < s.len(),
    ensures
        i < header_end(s, i) <= s.len(),
    decreases s.len() - i,
{
    if !(s[i] == LF && !(i + 1 < s.len() && is_blank(s[i + 1]))) {
        if i + 1 < s.len() {
            lemma_header_end(s, i + 1);
        }
    }
}

/// A colon that is found lies in the range that was searched.
pub proof fn lemma_find_colon(s: Seq<u8>, i: int, end: int)
    requires
        0 <= i <= end <= s.len(),
    ensures
        find_colon(s, i, end) matches Some(c) ==> i <= c < end && s[c] == COLON,
    decreases end - i,
{
    if i < end && s[i] != COLON {
        lemma_find_colon(s, i + 1, end);
    }
}

/// The name and the value of a header lie in the message, the value behind
/// the name, and the header ends where its value ends.
pub proof fn lemma_header_at(s: Seq<u8>, i: int)
    requires
        0 <= i < s.len(),
    ensures
        ({
            let span = header_at(s, i);
            &&& span.name_start == i
            &&& i <= span.name_end <= span.value_start <= span.value_end
            &&& span.value_end == header_end(s, i)
            &&& span.value_end <= s.len()
        }),
{
    lemma_header_end(s, i);
    lemma_find_colon(s, i, header_end(s, i));
}

/// The headers from index `i` on, in the order of the message.
pub open spec fn headers_from(s: Seq<u8>, i: int) -> Seq<HeaderSpan>
    decreases s.len() - i,
    when 0 <= i <= s.len()
{
    if is_block_end(s, i) {
        Seq::empty()
    } else {
        proof {
            lemma_header_end(s, i);
        }
        seq![header_at(s, i)] + headers_from(s, header_end(s, i))
    }
}

/// The index at which the header block that is read from index `i` on
/// ends.
pub open spec fn block_end_from(s: Seq<u8>, i: int) -> int
    decreases s.len() - i,
    when 0 <= i <= s.len()
{
    if is_block_end(s, i) {
        i
    } else {
        proof {
            lemma_header_end(s, i);
        }
        block_end_from(s, header_end(s, i))
    }
}

/// The body of a message: what follows the empty line that ends the header
/// block, and nothing where there is no such line.
pub open spec fn body_of(s: Seq<u8>) -> Seq<u8> {
    match body_start(s, block_end_from(s, 0)) {
        Some(offset) => s.subrange(offset, s.len() as int),
        None => Seq::empty(),
    }
}

/// The kinds of header that authentication tells apart.
#[derive(Debug, Clone, Copy, PartialEq, Eq, Structural)]
pub enum HeaderKind {
    /// `DKIM-Signature`
    Ds,
    /// `ARC-Authentication-Results`
    Aar,
    /// `ARC-Message-Signature`
    Ams,
    /// `ARC-Seal`
    As,
    /// `From`
    From,
    Other,
}

/// A header of a message with its kind; each variant holds the header's
/// name as it is written.
#[derive(Debug, Clone, Copy, PartialEq, Eq)]
pub enum AuthenticatedHeader<'x> {
    Ds(&'x [u8]),
    Aar(&'x [u8]),
    Ams(&'x [u8]),
    As(&'x [u8]),
    From(&'x [u8]),
    Other(&'x [u8]),
}

impl<'x> AuthenticatedHeader<'x> {
    pub open spec fn kind(&self) -> HeaderKind {
        match self {
            AuthenticatedHeader::Ds(_) => HeaderKind::Ds,
            AuthenticatedHeader::Aar(_) => HeaderKind::Aar,
            AuthenticatedHeader::Ams(_) => HeaderKind::Ams,
            AuthenticatedHeader::As(_) => HeaderKind::As,
            AuthenticatedHeader::From(_) => HeaderKind::From,
            AuthenticatedHeader::Other(_) => HeaderKind::Other,
        }
    }

    pub open spec fn name(&self) -> Seq<u8> {
        match self {
            AuthenticatedHeader::Ds(name) => name@,
            AuthenticatedHeader::Aar(name) => name@,
            AuthenticatedHeader::Ams(name) => name@,
            AuthenticatedHeader::As(name) => name@,
            AuthenticatedHeader::From(name) => name@,
            AuthenticatedHeader::Other(name) => name@,
        }
    }
}

/// The length of `name` without the spaces and tabs at its end.
pub open spec fn trimmed_len(name: Seq<u8>) -> int
    decreases name.len(),
{
    if name.len() > 0 && is_blank(name.last()) {
        trimmed_len(name.drop_last())
    } else {
        name.len() as int
    }
}

/// `name`, without the spaces and tabs at its end, is `word` in any mix of
/// upper and lower case. `word` is written in lower case.
pub open spec fn is_name(name: Seq<u8>, word: Seq<u8>) -> bool {
    &&& trimmed_len(name) == word.len()
    &&& forall|k: int| 0 <= k < word.len() ==> to_lower(#[trigger] name[k]) == word[k]
}

/// The kind of the header called `name`.
pub open spec fn kind_of(name: Seq<u8>) -> HeaderKind {
    if is_name(name, DKIM_SIGNATURE@) {
        HeaderKind::Ds
    } else if is_name(name, ARC_AUTHENTICATION_RESULTS@) {
        HeaderKind::Aar
    } else if is_name(name, ARC_MESSAGE_SIGNATURE@) {
        HeaderKind::Ams
    } else if is_name(name, ARC_SEAL@) {
        HeaderKind::As
    } else if is_name(name, FROM@) {
        HeaderKind::From
    } else {
        HeaderKind::Other
    }
}

fn name_len(name: &[u8]) -> (n: usize)
    ensures
        n == trimmed_len(name@),
        n <= name@.len(),
{
    let mut n = name.len();
    assert(name@.subrange(0, n as int) =~= name@);
    while n > 0 && (name[n - 1] == SPACE || name[n - 1] == TAB)
        invariant
            n <= name@.len(),
            trimmed_len(name@) == trimmed_len(name@.subrange(0, n as int)),
        decreases n,
    {
        assert(name@.subrange(0, n as int).drop_last() =~= name@.subrange(0, n - 1));
        n -= 1;
    }
    n
}

fn name_is(name: &[u8], word: &[u8]) -> (b: bool)
    ensures
        b == is_name(name@, word@),
{
    let n = name_len(name);
    if n != word.len() {
        return false;
    }
    let mut k: usize = 0;
    while k < n
        invariant
            k <= n == word@.len(),
            n <= name@.len(),
            forall|j: int| 0 <= j < k ==> to_lower(#[trigger] name@[j]) == word@[j],
        decreases n - k,
    {
        if byte_to_lower(name[k]) != word[k] {
            return false;
        }
        k += 1;
    }
    true
}

/// Classifies a header by its name.
pub fn classify<'x>(name: &'x [u8]) -> (h: AuthenticatedHeader<'x>)
    ensures
        h.kind() == kind_of(name@),
        h.name() == name@,
{
    if name_is(name, DKIM_SIGNATURE.as_slice()) {
        AuthenticatedHeader::Ds(name)
    } else if name_is(name, ARC_AUTHENTICATION_RESULTS.as_slice()) {
        AuthenticatedHeader::Aar(name)
    } else if name_is(name, ARC_MESSAGE_SIGNATURE.as_slice()) {
        AuthenticatedHeader::Ams(name)
    } else if name_is(name, ARC_SEAL.as_slice()) {
        AuthenticatedHeader::As(name)
    } else if name_is(name, FROM.as_slice()) {
        AuthenticatedHeader::From(name)
    } else {
        AuthenticatedHeader::Other(name)
    }
}

/// Reads the headers of a message one after the other.
pub struct HeaderParser<'x> {
    pub message: &'x [u8],
    pub pos: usize,
}

impl<'x> HeaderParser<'x> {
    pub open spec fn wf(&self) -> bool {
        self.pos <= self.message@.len()
    }

    pub fn new(message: &'x [u8]) -> (p: Self)
        ensures
            p.wf(),
            p.message@ == message@,
            p.pos == 0,
    {
        HeaderParser { message, pos: 0 }
    }

    /// The index behind the header that begins at `self.pos`.
    fn end_of_header(&self) -> (end: usize)
        requires
            self.wf(),
        ensures
            end == header_end(self.message@, self.pos as int),
            self.pos <= end <= self.message@.len(),
    {
        let s = self.message;
        let mut i = self.pos;
        while i < s.len()
            invariant
                s == self.message,
                self.pos <= i <= s@.len(),
                header_end(s@, self.pos as int) == header_end(s@, i as int),
            decreases s@.len() - i,
        {
            if s[i] == LF && !(i + 1 < s.len() && (s[i + 1] == SPACE || s[i + 1] == TAB)) {
                return i + 1;
            }
            i += 1;
        }
        i
    }

    /// The index of the first colon of the header that ends at `end`.
    fn colon(&self, end: usize) -> (r: Option<usize>)
        requires
            self.pos <= end <= self.message@.len(),
        ensures
            match r {
                Some(c) => find_colon(self.message@, self.pos as int, end as int) == Some(c as int)
                    && self.pos <= c < end,
                None => find_colon(self.message@, self.pos as int, end as int) is None,
            },
    {
        let s = self.message;
        let mut i = self.pos;
        while i < end
            invariant
                s == self.message,
                self.pos <= i <= end <= s@.len(),
                find_colon(s@, self.pos as int, end as int) == find_colon(s@, i as int, end as int),
            decreases end - i,
        {
            if s[i] == COLON {
                return Some(i);
            }
            i += 1;
        }
        None
    }

    /// Reads the next header, if the header block has one more: its kind
    /// with its name, and its value.
    pub fn next(&mut self) -> (r: Option<(AuthenticatedHeader<'x>, &'x [u8])>)
        requires
            old(self).wf(),
        ensures
            final(self).wf(),
            final(self).message == old(self).message,
            match r {
                Some((header, value)) => {
                    let span = header_at(old(self).message@, old(self).pos as int);
                    &&& !is_block_end(old(self).message@, old(self).pos as int)
                    &&& final(self).pos == header_end(old(self).message@, old(self).pos as int)
                    &&& header.name() == span.name(old(self).message@)
                    &&& header.kind() == kind_of(span.name(old(self).message@))
                    &&& value@ == span.value(old(self).message@)
                },
                None => is_block_end(old(self).message@, old(self).pos as int) && final(self).pos
                    == old(self).pos,
            },
    {
        let s = self.message;
        let i = self.pos;
        if i >= s.len() || s[i] == LF || (s[i] == CR && i + 1 < s.len() && s[i + 1] == LF) {
            return None;
        }
        let end = self.end_of_header();
        let (name, value) = match self.colon(end) {
            Some(colon) => (slice_subrange(s, i, colon), slice_subrange(s, colon + 1, end)),
            None => (slice_subrange(s, i, end), slice_subrange(s, end, end)),
        };
        self.pos = end;
        Some((classify(name), value))
    }

    /// The index at which the body begins, once all headers are read. There
    /// is none while headers are left, nor where the input ends with the
    /// header block.
    pub fn body_offset(&self) -> (r: Option<usize>)
        requires
            self.wf(),
        ensures
            match r {
                Some(offset) => is_block_end(self.message@, self.pos as int) && body_start(
                    self.message@,
                    self.pos as int,
                ) == Some(offset as int) && offset <= self.message@.len(),
                None => !is_block_end(self.message@, self.pos as int) || body_start(
                    self.message@,
                    self.pos as int,
                ) is None,
            },
    {
        let s = self.message;
        let i = self.pos;
        if i >= s.len() {
            None
        } else if s[i] == LF {
            Some(i + 1)
        } else if s[i] == CR && i + 1 < s.len() && s[i + 1] == LF {
            Some(i + 2)
        } else {
            None
        }
    }
}

} // verus!
