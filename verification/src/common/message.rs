//! The preprocessing of a raw message: its headers in their order, the
//! descriptors of its DKIM and ARC headers, the addresses of its `From`
//! headers, its body and the body hashes that its signatures ask for.

use vstd::prelude::*;
use vstd::slice::slice_subrange;
use crate::arc;
use crate::arc::{message_signature_of, results_of, seal_of};
use crate::common::address::{
    collect_addresses, lowered_addresses, parse_address, parsed_addresses, string_views,
};
use crate::common::chain::{header_views, sort_by_instance, sorted_by_instance, Header, HeaderView};
use crate::common::laws::lemma_message_needs_header;
use crate::common::headers::{
    block_end_from, body_of, body_start, header_at, header_end, is_block_end, kind_of,
    lemma_header_end, AuthenticatedHeader, HeaderKind, HeaderParser,
};
use crate::dkim;
use crate::dkim::canonicalize::body_hash;
use crate::dkim::{signature_of, Canonicalization, HashAlgorithm};
use crate::error::Error;

verus! {

/// What the signatures of a message ask of its body: a canonicalization, a
/// hash algorithm and a body length.
pub type Request = (Canonicalization, HashAlgorithm, u64);

/// A message with what authentication needs of it. It borrows the names
/// and values of the headers, and the body, from the raw message.
#[derive(Debug, PartialEq, Eq)]
pub struct AuthenticatedMessage<'x> {
    /// Name and value of every header, in the order of the message.
    pub headers: Vec<(&'x [u8], &'x [u8])>,
    /// The addresses of the `From` headers, in lower case.
    pub from: Vec<String>,
    /// The bytes behind the header block.
    pub body: &'x [u8],
    /// The body hash for each request of a signature, each request once.
    pub body_hashes: Vec<(Canonicalization, HashAlgorithm, u64, Vec<u8>)>,
    pub dkim_headers: Vec<Header<'x, Result<dkim::Signature, Error>>>,
    pub ams_headers: Vec<Header<'x, Result<arc::Signature, Error>>>,
    pub as_headers: Vec<Header<'x, Result<arc::Seal, Error>>>,
    pub aar_headers: Vec<Header<'x, Result<arc::Results, Error>>>,
}

/// The mathematical value of an [`AuthenticatedMessage`].
pub struct MessageView {
    pub headers: Seq<(Seq<u8>, Seq<u8>)>,
    pub from: Seq<Seq<char>>,
    pub body: Seq<u8>,
    pub body_hashes: Seq<(Canonicalization, HashAlgorithm, u64, Seq<u8>)>,
    pub dkim_headers: Seq<HeaderView<Result<dkim::Signature, Error>>>,
    pub ams_headers: Seq<HeaderView<Result<arc::Signature, Error>>>,
    pub as_headers: Seq<HeaderView<Result<arc::Seal, Error>>>,
    pub aar_headers: Seq<HeaderView<Result<arc::Results, Error>>>,
}

/// The values of a sequence of name and value pairs.
pub open spec fn pair_views(items: Seq<(&[u8], &[u8])>) -> Seq<(Seq<u8>, Seq<u8>)> {
    Seq::new(items.len(), |i: int| (items[i].0@, items[i].1@))
}

/// The values of a sequence of body hashes.
pub open spec fn hash_views(items: Seq<(Canonicalization, HashAlgorithm, u64, Vec<u8>)>) -> Seq<
    (Canonicalization, HashAlgorithm, u64, Seq<u8>),
> {
    Seq::new(items.len(), |i: int| (items[i].0, items[i].1, items[i].2, items[i].3@))
}

/// The requests that a sequence of body hashes answers.
pub open spec fn request_views(
    items: Seq<(Canonicalization, HashAlgorithm, u64, Vec<u8>)>,
) -> Seq<Request> {
    Seq::new(items.len(), |i: int| (items[i].0, items[i].1, items[i].2))
}

impl<'x> AuthenticatedMessage<'x> {
    pub open spec fn view(&self) -> MessageView {
        MessageView {
            headers: pair_views(self.headers@),
            from: string_views(self.from@),
            body: self.body@,
            body_hashes: hash_views(self.body_hashes@),
            dkim_headers: header_views(self.dkim_headers@),
            ams_headers: header_views(self.ams_headers@),
            as_headers: header_views(self.as_headers@),
            aar_headers: header_views(self.aar_headers@),
        }
    }
}

/// What has been gathered from the headers read so far.
pub struct Collected {
    pub headers: Seq<(Seq<u8>, Seq<u8>)>,
    pub from: Seq<Seq<char>>,
    /// The requests of the signatures that parsed, each once, in the order
    /// in which they were first made.
    pub requests: Seq<Request>,
    pub dkim_headers: Seq<HeaderView<Result<dkim::Signature, Error>>>,
    pub ams_headers: Seq<HeaderView<Result<arc::Signature, Error>>>,
    pub as_headers: Seq<HeaderView<Result<arc::Seal, Error>>>,
    pub aar_headers: Seq<HeaderView<Result<arc::Results, Error>>>,
    /// Whether any ARC header failed to parse.
    pub has_arc_errors: bool,
}

pub open spec fn nothing_collected() -> Collected {
    Collected {
        headers: Seq::empty(),
        from: Seq::empty(),
        requests: Seq::empty(),
        dkim_headers: Seq::empty(),
        ams_headers: Seq::empty(),
        as_headers: Seq::empty(),
        aar_headers: Seq::empty(),
        has_arc_errors: false,
    }
}

/// The requests with `request` among them: it is added at the end unless
/// it is there already.
pub open spec fn with_request(requests: Seq<Request>, request: Request) -> Seq<Request> {
    if requests.contains(request) {
        requests
    } else {
        requests.push(request)
    }
}

/// The request that a DKIM signature makes.
pub open spec fn dkim_request(signature: dkim::Signature) -> Request {
    (signature.cb, signature.a.hash(), signature.l)
}

/// The request that an ARC message signature makes.
pub open spec fn arc_request(signature: arc::Signature) -> Request {
    (signature.cb, signature.a.hash(), signature.l)
}

/// What is gathered once the header `name` of kind `kind` with value
/// `value` is read.
///
/// Every header is recorded with its name and value. A DKIM signature, an
/// ARC message signature, an ARC seal and ARC authentication results are
/// parsed and kept with the outcome, error or not; a signature that parses
/// adds its request, and an ARC header that does not parse marks the chain.
/// A `From` header adds its addresses.
pub open spec fn add_header(st: Collected, kind: HeaderKind, name: Seq<u8>, value: Seq<u8>) -> Collected {
    let st = Collected { headers: st.headers.push((name, value)), ..st };
    match kind {
        HeaderKind::Ds => {
            let header = signature_of(value);
            Collected {
                requests: match header {
                    Ok(signature) => with_request(st.requests, dkim_request(signature)),
                    Err(_) => st.requests,
                },
                dkim_headers: st.dkim_headers.push(HeaderView { name, value, header }),
                ..st
            }
        },
        HeaderKind::Aar => {
            let header = results_of(value);
            Collected {
                aar_headers: st.aar_headers.push(HeaderView { name, value, header }),
                has_arc_errors: st.has_arc_errors || header is Err,
                ..st
            }
        },
        HeaderKind::Ams => {
            let header = message_signature_of(value);
            Collected {
                requests: match header {
                    Ok(signature) => with_request(st.requests, arc_request(signature)),
                    Err(_) => st.requests,
                },
                ams_headers: st.ams_headers.push(HeaderView { name, value, header }),
                has_arc_errors: st.has_arc_errors || header is Err,
                ..st
            }
        },
        HeaderKind::As => {
            let header = seal_of(value);
            Collected {
                as_headers: st.as_headers.push(HeaderView { name, value, header }),
                has_arc_errors: st.has_arc_errors || header is Err,
                ..st
            }
        },
        HeaderKind::From => Collected {
            from: st.from + lowered_addresses(parsed_addresses(value)),
            ..st
        },
        HeaderKind::Other => st,
    }
}

/// What is gathered from the headers from index `i` on, behind what was
/// gathered before.
pub open spec fn collect_from(s: Seq<u8>, i: int, st: Collected) -> Collected
    decreases s.len() - i,
    when 0 <= i <= s.len()
{
    if is_block_end(s, i) {
        st
    } else {
        proof {
            lemma_header_end(s, i);
        }
        let span = header_at(s, i);
        collect_from(
            s,
            header_end(s, i),
            add_header(st, kind_of(span.name(s)), span.name(s), span.value(s)),
        )
    }
}

/// The body hash for each request.
pub open spec fn hashes_of(requests: Seq<Request>, body: Seq<u8>) -> Seq<
    (Canonicalization, HashAlgorithm, u64, Seq<u8>),
> {
    Seq::new(
        requests.len(),
        |k: int|
            (
                requests[k].0,
                requests[k].1,
                requests[k].2,
                body_hash(requests[k].0, requests[k].1, body, requests[k].2),
            ),
    )
}

/// The ARC chain can be put in the order of its instances: it has a seal,
/// and none of its headers failed to parse.
pub open spec fn chain_is_sortable(st: Collected) -> bool {
    st.as_headers.len() > 0 && !st.has_arc_errors
}

/// The message that is made of what was gathered from all headers of `s`.
/// Its ARC headers are sorted by instance where the chain allows it, and
/// left in the order of the message where it does not.
pub open spec fn assemble(s: Seq<u8>, st: Collected) -> MessageView {
    MessageView {
        headers: st.headers,
        from: st.from,
        body: body_of(s),
        body_hashes: hashes_of(st.requests, body_of(s)),
        dkim_headers: st.dkim_headers,
        ams_headers: if chain_is_sortable(st) {
            sorted_by_instance(st.ams_headers)
        } else {
            st.ams_headers
        },
        as_headers: if chain_is_sortable(st) {
            sorted_by_instance(st.as_headers)
        } else {
            st.as_headers
        },
        aar_headers: if chain_is_sortable(st) {
            sorted_by_instance(st.aar_headers)
        } else {
            st.aar_headers
        },
    }
}

/// The message that the bytes `s` hold, if they hold any header.
pub open spec fn message_of(s: Seq<u8>) -> Option<MessageView> {
    let st = collect_from(s, 0, nothing_collected());
    if st.headers.len() == 0 {
        None
    } else {
        Some(assemble(s, st))
    }
}

/// Adds a request to the body hashes, with no digest yet, unless it is
/// there already.
pub fn add_request(
    hashes: &mut Vec<(Canonicalization, HashAlgorithm, u64, Vec<u8>)>,
    cb: Canonicalization,
    ha: HashAlgorithm,
    l: u64,
)
    ensures
        request_views(final(hashes)@) == with_request(request_views(old(hashes)@), (cb, ha, l)),
{
    let ghost before = request_views(hashes@);
    let mut k: usize = 0;
    while k < hashes.len()
        invariant
            k <= hashes@.len(),
            hashes@ == old(hashes)@,
            before == request_views(hashes@),
            forall|j: int| 0 <= j < k ==> before[j] != (cb, ha, l),
        decreases hashes@.len() - k,
    {
        if hashes[k].0 == cb && hashes[k].1 == ha && hashes[k].2 == l {
            assert(before[k as int] == (cb, ha, l));
            assert(before.contains((cb, ha, l)));
            return ;
        }
        k += 1;
    }
    assert(!before.contains((cb, ha, l)));
    hashes.push((cb, ha, l, Vec::new()));
    assert(request_views(hashes@) =~= before.push((cb, ha, l)));
}

/// Computes the body hash of each request.
pub fn hash_requests(
    hashes: &Vec<(Canonicalization, HashAlgorithm, u64, Vec<u8>)>,
    body: &[u8],
) -> (out: Vec<(Canonicalization, HashAlgorithm, u64, Vec<u8>)>)
    ensures
        hash_views(out@) == hashes_of(request_views(hashes@), body@),
{
    let mut out: Vec<(Canonicalization, HashAlgorithm, u64, Vec<u8>)> = Vec::new();
    let mut k: usize = 0;
    let ghost all = hashes_of(request_views(hashes@), body@);
    assert(hash_views(out@) =~= all.subrange(0, 0));
    while k < hashes.len()
        invariant
            k <= hashes@.len(),
            all == hashes_of(request_views(hashes@), body@),
            hash_views(out@) == all.subrange(0, k as int),
        decreases hashes@.len() - k,
    {
        let cb = hashes[k].0;
        let ha = hashes[k].1;
        let l = hashes[k].2;
        let digest = cb.hash_body(ha, body, l);
        let ghost before = hash_views(out@);
        assert(request_views(hashes@)[k as int] == (cb, ha, l));
        assert(all[k as int] == (cb, ha, l, digest@));
        out.push((cb, ha, l, digest));
        assert(hash_views(out@) =~= before.push((cb, ha, l, digest@)));
        k += 1;
        assert(all.subrange(0, k as int) =~= all.subrange(0, k - 1).push(all[k - 1]));
    }
    assert(all.subrange(0, k as int) =~= all);
    out
}

impl<'x> AuthenticatedMessage<'x> {
    /// What the message holds of the headers read so far.
    pub open spec fn collected(&self, has_arc_errors: bool) -> Collected {
        Collected {
            headers: pair_views(self.headers@),
            from: string_views(self.from@),
            requests: request_views(self.body_hashes@),
            dkim_headers: header_views(self.dkim_headers@),
            ams_headers: header_views(self.ams_headers@),
            as_headers: header_views(self.as_headers@),
            aar_headers: header_views(self.aar_headers@),
            has_arc_errors,
        }
    }

    /// Takes in one header: records it, and parses it if its kind asks for
    /// it. Returns whether an ARC header has failed to parse so far.
    pub fn add(
        &mut self,
        header: AuthenticatedHeader<'x>,
        value: &'x [u8],
        has_arc_errors: bool,
    ) -> (errors: bool)
        ensures
            final(self).collected(errors) == add_header(
                old(self).collected(has_arc_errors),
                header.kind(),
                header.name(),
                value@,
            ),
            final(self).body == old(self).body,
    {
        let ghost st = self.collected(has_arc_errors);
        let ghost want = add_header(st, header.kind(), header.name(), value@);
        let mut errors = has_arc_errors;
        let name = match header {
            AuthenticatedHeader::Ds(name) => {
                let signature = dkim::Signature::parse(value);
                if let Ok(signature) = &signature {
                    add_request(
                        &mut self.body_hashes,
                        signature.cb,
                        signature.a.hash_algorithm(),
                        signature.l,
                    );
                }
                self.dkim_headers.push(Header::new(name, value, signature));
                assert(header_views(self.dkim_headers@) =~= want.dkim_headers);
                name
            },
            AuthenticatedHeader::Aar(name) => {
                let results = arc::Results::parse(value);
                if !errors {
                    errors = results.is_err();
                }
                self.aar_headers.push(Header::new(name, value, results));
                assert(header_views(self.aar_headers@) =~= want.aar_headers);
                name
            },
            AuthenticatedHeader::Ams(name) => {
                let signature = arc::Signature::parse(value);
                if let Ok(signature) = &signature {
                    add_request(
                        &mut self.body_hashes,
                        signature.cb,
                        signature.a.hash_algorithm(),
                        signature.l,
                    );
                } else {
                    errors = true;
                }
                self.ams_headers.push(Header::new(name, value, signature));
                assert(header_views(self.ams_headers@) =~= want.ams_headers);
                name
            },
            AuthenticatedHeader::As(name) => {
                let seal = arc::Seal::parse(value);
                if !errors {
                    errors = seal.is_err();
                }
                self.as_headers.push(Header::new(name, value, seal));
                assert(header_views(self.as_headers@) =~= want.as_headers);
                name
            },
            AuthenticatedHeader::From(name) => {
                let parsed = parse_address(value);
                collect_addresses(&mut self.from, &parsed);
                name
            },
            AuthenticatedHeader::Other(name) => name,
        };
        self.headers.push((name, value));
        assert(pair_views(self.headers@) =~= want.headers);
        errors
    }

    /// Completes a message once all its headers are read: takes the body,
    /// computes the body hashes and puts the ARC chain in order.
    fn finish(self, raw_message: &'x [u8], offset: Option<usize>, has_arc_errors: bool) -> (m: Self)
        requires
            match offset {
                Some(o) => o <= raw_message@.len() && body_of(raw_message@)
                    == raw_message@.subrange(o as int, raw_message@.len() as int),
                None => body_of(raw_message@) == Seq::<u8>::empty(),
            },
        ensures
            m@ == assemble(raw_message@, self.collected(has_arc_errors)),
    {
        let mut message = self;
        message.body = match offset {
            Some(o) => slice_subrange(raw_message, o, raw_message.len()),
            None => slice_subrange(raw_message, 0, 0),
        };
        assert(message.body@ =~= body_of(raw_message@));
        message.body_hashes = hash_requests(&message.body_hashes, message.body);
        if message.as_headers.len() > 0 && !has_arc_errors {
            message.as_headers = sort_by_instance(&message.as_headers);
            message.ams_headers = sort_by_instance(&message.ams_headers);
            message.aar_headers = sort_by_instance(&message.aar_headers);
        }
        message
    }

    /// Preprocesses a raw message.
    ///
    /// The result is the message that the bytes hold. There is none where
    /// the input holds no header: where it is empty or begins with an empty
    /// line. A header that does not parse fails no message: it is kept with
    /// its error.
    pub fn parse(raw_message: &'x [u8]) -> (r: Option<Self>)
        ensures
            match r {
                Some(m) => message_of(raw_message@) == Some(m@),
                None => message_of(raw_message@) is None,
            },
            r is None <==> is_block_end(raw_message@, 0),
    {
        proof {
            lemma_message_needs_header(raw_message@);
        }
        let mut message = AuthenticatedMessage {
            headers: Vec::new(),
            from: Vec::new(),
            body: slice_subrange(raw_message, 0, 0),
            body_hashes: Vec::new(),
            dkim_headers: Vec::new(),
            ams_headers: Vec::new(),
            as_headers: Vec::new(),
            aar_headers: Vec::new(),
        };
        let mut headers = HeaderParser::new(raw_message);
        let mut has_arc_errors = false;
        proof {
            let st = message.collected(false);
            assert(st.headers =~= Seq::empty());
            assert(st.from =~= Seq::empty());
            assert(st.requests =~= Seq::empty());
            assert(st.dkim_headers =~= Seq::empty());
            assert(st.ams_headers =~= Seq::empty());
            assert(st.as_headers =~= Seq::empty());
            assert(st.aar_headers =~= Seq::empty());
        }
        loop
            invariant
                headers.wf(),
                headers.message@ == raw_message@,
                collect_from(raw_message@, 0, nothing_collected()) == collect_from(
                    raw_message@,
                    headers.pos as int,
                    message.collected(has_arc_errors),
                ),
                block_end_from(raw_message@, 0) == block_end_from(
                    raw_message@,
                    headers.pos as int,
                ),
                message_of(raw_message@) is None <==> is_block_end(raw_message@, 0),
            decreases raw_message@.len() - headers.pos,
        {
            proof {
                if !is_block_end(raw_message@, headers.pos as int) {
                    lemma_header_end(raw_message@, headers.pos as int);
                }
            }
            match headers.next() {
                Some((header, value)) => {
                    has_arc_errors = message.add(header, value, has_arc_errors);
                },
                None => {
                    if message.headers.len() == 0 {
                        return None;
                    }
                    let offset = headers.body_offset();
                    return Some(message.finish(raw_message, offset, has_arc_errors));
                },
            }
        }
    }
}

} // verus!
