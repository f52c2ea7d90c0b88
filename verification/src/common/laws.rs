//! What holds of every preprocessed message, proved from its definition.

use vstd::prelude::*;
use crate::arc;
use crate::common::cursor::is_front_of;
use crate::common::chain::{is_ascending, lemma_sorted_by_instance, sorted_by_instance, HeaderView};
use crate::common::headers::{
    header_at, header_end, headers_from, is_block_end, kind_of, lemma_header_end, HeaderKind,
    HeaderSpan,
};
use crate::common::message::{
    add_header, arc_request, assemble, chain_is_sortable, collect_from, dkim_request, hashes_of,
    message_of, nothing_collected, with_request, Collected, MessageView, Request,
};
use crate::dkim;
use crate::error::Error;

verus! {

/// Name and value of each header of a sequence.
pub open spec fn span_pairs(s: Seq<u8>, spans: Seq<HeaderSpan>) -> Seq<(Seq<u8>, Seq<u8>)> {
    Seq::new(spans.len(), |k: int| (spans[k].name(s), spans[k].value(s)))
}

/// Reading the headers from index `i` on adds each of them, in the order of
/// the message, to the headers gathered before.
pub proof fn lemma_headers_collected(s: Seq<u8>, i: int, st: Collected)
    requires
        0 <= i <= s.len(),
    ensures
        collect_from(s, i, st).headers == st.headers + span_pairs(s, headers_from(s, i)),
    decreases s.len() - i,
{
    if is_block_end(s, i) {
        assert(st.headers + span_pairs(s, headers_from(s, i)) =~= st.headers);
    } else {
        lemma_header_end(s, i);
        let span = header_at(s, i);
        let next = add_header(st, kind_of(span.name(s)), span.name(s), span.value(s));
        lemma_headers_collected(s, header_end(s, i), next);
        let rest = headers_from(s, header_end(s, i));
        assert(next.headers == st.headers.push((span.name(s), span.value(s))));
        assert(headers_from(s, i) == seq![span] + rest);
        assert(st.headers.push((span.name(s), span.value(s))) + span_pairs(s, rest) =~= st.headers
            + span_pairs(s, seq![span] + rest));
    }
}

/// The headers of a message are all the headers of its header block, with
/// name and value, in their order.
pub proof fn lemma_headers_in_order(s: Seq<u8>)
    ensures
        message_of(s) matches Some(m) ==> m.headers == span_pairs(s, headers_from(s, 0)),
{
    lemma_headers_collected(s, 0, nothing_collected());
    assert(Seq::<(Seq<u8>, Seq<u8>)>::empty() + span_pairs(s, headers_from(s, 0)) =~= span_pairs(
        s,
        headers_from(s, 0),
    ));
}

/// There is a message exactly where the input begins with a header: where
/// it is not empty and does not begin with an empty line.
pub proof fn lemma_message_needs_header(s: Seq<u8>)
    ensures
        message_of(s) is None <==> is_block_end(s, 0),
{
    lemma_headers_collected(s, 0, nothing_collected());
    if !is_block_end(s, 0) {
        lemma_header_end(s, 0);
        assert(headers_from(s, 0).len() > 0);
    }
}

/// The headers of kind `kind` among `spans`, in their order, each with
/// what `parse` makes of its value.
pub open spec fn family_in<T>(
    s: Seq<u8>,
    spans: Seq<HeaderSpan>,
    kind: HeaderKind,
    parse: spec_fn(Seq<u8>) -> Result<T, Error>,
) -> Seq<HeaderView<Result<T, Error>>>
    decreases spans.len(),
{
    if spans.len() == 0 {
        Seq::empty()
    } else {
        let first = spans[0];
        let rest = family_in(s, spans.drop_first(), kind, parse);
        if kind_of(first.name(s)) == kind {
            seq![
                HeaderView {
                    name: first.name(s),
                    value: first.value(s),
                    header: parse(first.value(s)),
                },
            ] + rest
        } else {
            rest
        }
    }
}

/// The DKIM signatures among `spans`, each with its descriptor or the
/// reason why it has none.
pub open spec fn dkim_signatures_in(s: Seq<u8>, spans: Seq<HeaderSpan>) -> Seq<
    HeaderView<Result<dkim::Signature, Error>>,
> {
    family_in(s, spans, HeaderKind::Ds, |v: Seq<u8>| dkim::signature_of(v))
}

/// The ARC message signatures among `spans`.
pub open spec fn arc_signatures_in(s: Seq<u8>, spans: Seq<HeaderSpan>) -> Seq<
    HeaderView<Result<arc::Signature, Error>>,
> {
    family_in(s, spans, HeaderKind::Ams, |v: Seq<u8>| arc::message_signature_of(v))
}

/// The ARC seals among `spans`.
pub open spec fn arc_seals_in(s: Seq<u8>, spans: Seq<HeaderSpan>) -> Seq<
    HeaderView<Result<arc::Seal, Error>>,
> {
    family_in(s, spans, HeaderKind::As, |v: Seq<u8>| arc::seal_of(v))
}

/// The ARC authentication results among `spans`.
pub open spec fn arc_results_in(s: Seq<u8>, spans: Seq<HeaderSpan>) -> Seq<
    HeaderView<Result<arc::Results, Error>>,
> {
    family_in(s, spans, HeaderKind::Aar, |v: Seq<u8>| arc::results_of(v))
}

/// Reading the headers from index `i` on adds to each family every header
/// of its kind, in the order of the message, parsed or not.
pub proof fn lemma_families_collected(s: Seq<u8>, i: int, st: Collected)
    requires
        0 <= i <= s.len(),
    ensures
        collect_from(s, i, st).dkim_headers == st.dkim_headers + dkim_signatures_in(
            s,
            headers_from(s, i),
        ),
        collect_from(s, i, st).ams_headers == st.ams_headers + arc_signatures_in(
            s,
            headers_from(s, i),
        ),
        collect_from(s, i, st).as_headers == st.as_headers + arc_seals_in(s, headers_from(s, i)),
        collect_from(s, i, st).aar_headers == st.aar_headers + arc_results_in(
            s,
            headers_from(s, i),
        ),
    decreases s.len() - i,
{
    let spans = headers_from(s, i);
    if is_block_end(s, i) {
        assert(st.dkim_headers + dkim_signatures_in(s, spans) =~= st.dkim_headers);
        assert(st.ams_headers + arc_signatures_in(s, spans) =~= st.ams_headers);
        assert(st.as_headers + arc_seals_in(s, spans) =~= st.as_headers);
        assert(st.aar_headers + arc_results_in(s, spans) =~= st.aar_headers);
    } else {
        lemma_header_end(s, i);
        let span = header_at(s, i);
        let next = add_header(st, kind_of(span.name(s)), span.name(s), span.value(s));
        let rest = headers_from(s, header_end(s, i));
        lemma_families_collected(s, header_end(s, i), next);
        assert(spans == seq![span] + rest);
        assert(spans[0] == span);
        assert(spans.drop_first() =~= rest);
        assert(next.dkim_headers + dkim_signatures_in(s, rest) =~= st.dkim_headers
            + dkim_signatures_in(s, spans));
        assert(next.ams_headers + arc_signatures_in(s, rest) =~= st.ams_headers
            + arc_signatures_in(s, spans));
        assert(next.as_headers + arc_seals_in(s, rest) =~= st.as_headers + arc_seals_in(s, spans));
        assert(next.aar_headers + arc_results_in(s, rest) =~= st.aar_headers + arc_results_in(
            s,
            spans,
        ));
    }
}

/// Every DKIM and ARC header of a message is kept in its family, with its
/// descriptor or with the reason why it has none: a header that does not
/// parse is not dropped. The DKIM signatures stand in the order of the
/// message, and so do the ARC headers before they are sorted.
pub proof fn lemma_families(s: Seq<u8>)
    ensures
        message_of(s) matches Some(m) ==> m.dkim_headers == dkim_signatures_in(
            s,
            headers_from(s, 0),
        ),
        collected_of(s).ams_headers == arc_signatures_in(s, headers_from(s, 0)),
        collected_of(s).as_headers == arc_seals_in(s, headers_from(s, 0)),
        collected_of(s).aar_headers == arc_results_in(s, headers_from(s, 0)),
{
    let spans = headers_from(s, 0);
    lemma_families_collected(s, 0, nothing_collected());
    assert(Seq::empty() + dkim_signatures_in(s, spans) =~= dkim_signatures_in(s, spans));
    assert(Seq::empty() + arc_signatures_in(s, spans) =~= arc_signatures_in(s, spans));
    assert(Seq::empty() + arc_seals_in(s, spans) =~= arc_seals_in(s, spans));
    assert(Seq::empty() + arc_results_in(s, spans) =~= arc_results_in(s, spans));
}

/// One of the headers failed to parse.
pub open spec fn any_error<T>(items: Seq<HeaderView<Result<T, Error>>>) -> bool {
    exists|k: int| 0 <= k < items.len() && (#[trigger] items[k]).header is Err
}

/// The mark of the chain is set exactly where an ARC header failed to
/// parse.
pub open spec fn errors_marked(st: Collected) -> bool {
    st.has_arc_errors <==> (any_error(st.ams_headers) || any_error(st.as_headers) || any_error(
        st.aar_headers,
    ))
}

/// A sequence with one more header holds an error where it held one
/// before, or where the new header is one.
pub proof fn lemma_any_error_push<T>(
    items: Seq<HeaderView<Result<T, Error>>>,
    x: HeaderView<Result<T, Error>>,
)
    ensures
        any_error(items.push(x)) <==> (any_error(items) || x.header is Err),
{
    let more = items.push(x);
    if any_error(items) {
        let k = choose|k: int| 0 <= k < items.len() && (#[trigger] items[k]).header is Err;
        assert(more[k] == items[k]);
    }
    if x.header is Err {
        assert(more[items.len() as int] == x);
    }
    if any_error(more) {
        let k = choose|k: int| 0 <= k < more.len() && (#[trigger] more[k]).header is Err;
        if k < items.len() {
            assert(items[k] == more[k]);
        }
    }
}

/// A DKIM signature or an ARC message signature that parsed makes the
/// request `r`.
pub open spec fn is_requested(st: Collected, r: Request) -> bool {
    ||| exists|k: int|
        0 <= k < st.dkim_headers.len() && (#[trigger] st.dkim_headers[k]).header is Ok
            && dkim_request(st.dkim_headers[k].header->Ok_0) == r
    ||| exists|k: int|
        0 <= k < st.ams_headers.len() && (#[trigger] st.ams_headers[k]).header is Ok
            && arc_request(st.ams_headers[k].header->Ok_0) == r
}

/// The requests are those of the signatures that parsed, no more and no
/// fewer, and each stands once.
pub open spec fn requests_exact(st: Collected) -> bool {
    &&& st.requests.no_duplicates()
    &&& forall|j: int| 0 <= j < st.requests.len() ==> is_requested(st, #[trigger] st.requests[j])
    &&& forall|r: Request| is_requested(st, r) ==> st.requests.contains(r)
}

/// Adding a request keeps each request once, keeps those that were there,
/// and has the new one among them.
pub proof fn lemma_with_request(requests: Seq<Request>, r: Request)
    requires
        requests.no_duplicates(),
    ensures
        with_request(requests, r).no_duplicates(),
        with_request(requests, r).contains(r),
        forall|q: Request| requests.contains(q) ==> with_request(requests, r).contains(q),
        forall|j: int|
            0 <= j < with_request(requests, r).len() ==> (#[trigger] with_request(requests, r)[j])
                == r || requests.contains(with_request(requests, r)[j]),
{
    let more = with_request(requests, r);
    if !requests.contains(r) {
        assert(more[requests.len() as int] == r);
        assert forall|q: Request| requests.contains(q) implies more.contains(q) by {
            let k = choose|k: int| 0 <= k < requests.len() && requests[k] == q;
            assert(more[k] == q);
        }
        assert forall|j: int| 0 <= j < more.len() implies (#[trigger] more[j]) == r
            || requests.contains(more[j]) by {
            if j < requests.len() {
                assert(requests[j] == more[j]);
            }
        }
        assert forall|i: int, j: int| 0 <= i < more.len() && 0 <= j < more.len() && i
            != j implies more[i] != more[j] by {
            if i < requests.len() && j < requests.len() {
            } else if i < requests.len() {
                assert(requests[i] == more[i]);
            } else {
                assert(requests[j] == more[j]);
            }
        }
    }
}

/// Taking in a header keeps the mark of the chain and the requests exact.
pub proof fn lemma_add_header(st: Collected, kind: HeaderKind, name: Seq<u8>, value: Seq<u8>)
    requires
        errors_marked(st),
        requests_exact(st),
    ensures
        errors_marked(add_header(st, kind, name, value)),
        requests_exact(add_header(st, kind, name, value)),
{
    let next = add_header(st, kind, name, value);
    match kind {
        HeaderKind::Ds => {
            let header = dkim::signature_of(value);
            let x = HeaderView { name, value, header };
            assert(next.dkim_headers == st.dkim_headers.push(x));
            if let Ok(g) = header {
                let r = dkim_request(g);
                lemma_with_request(st.requests, r);
                assert(next.requests == with_request(st.requests, r));
                assert(next.dkim_headers[st.dkim_headers.len() as int] == x);
                assert(is_requested(next, r));
                assert forall|j: int| 0 <= j < next.requests.len() implies st.requests.contains(
                    #[trigger] next.requests[j],
                ) || is_requested(next, next.requests[j]) by {
                    assert(with_request(st.requests, r)[j] == next.requests[j]);
                }
            }
            lemma_requests_kept(st, next);
            if let Ok(g) = header {
                let r = dkim_request(g);
                assert forall|q: Request| is_requested(next, q) implies next.requests.contains(
                    q,
                ) by {
                    if q != r {
                        lemma_requested_before(st, next, x, q);
                    }
                }
            } else {
                assert forall|q: Request| is_requested(next, q) implies next.requests.contains(
                    q,
                ) by {
                    lemma_requested_before(st, next, x, q);
                }
            }
        },
        HeaderKind::Ams => {
            let header = arc::message_signature_of(value);
            let x = HeaderView { name, value, header };
            lemma_any_error_push(st.ams_headers, x);
            assert(next.ams_headers == st.ams_headers.push(x));
            if let Ok(g) = header {
                let r = arc_request(g);
                lemma_with_request(st.requests, r);
                assert(next.requests == with_request(st.requests, r));
                assert(next.ams_headers[st.ams_headers.len() as int] == x);
                assert(is_requested(next, r));
                assert forall|j: int| 0 <= j < next.requests.len() implies st.requests.contains(
                    #[trigger] next.requests[j],
                ) || is_requested(next, next.requests[j]) by {
                    assert(with_request(st.requests, r)[j] == next.requests[j]);
                }
            }
            lemma_requests_kept(st, next);
            if let Ok(g) = header {
                let r = arc_request(g);
                assert forall|q: Request| is_requested(next, q) implies next.requests.contains(
                    q,
                ) by {
                    if q != r {
                        lemma_requested_before_arc(st, next, x, q);
                    }
                }
            } else {
                assert forall|q: Request| is_requested(next, q) implies next.requests.contains(
                    q,
                ) by {
                    lemma_requested_before_arc(st, next, x, q);
                }
            }
        },
        HeaderKind::Aar => {
            let x = HeaderView { name, value, header: arc::results_of(value) };
            lemma_any_error_push(st.aar_headers, x);
            lemma_requests_kept(st, next);
            assert forall|q: Request| is_requested(next, q) implies next.requests.contains(q) by {
                assert(is_requested(st, q));
            }
        },
        HeaderKind::As => {
            let x = HeaderView { name, value, header: arc::seal_of(value) };
            lemma_any_error_push(st.as_headers, x);
            lemma_requests_kept(st, next);
            assert forall|q: Request| is_requested(next, q) implies next.requests.contains(q) by {
                assert(is_requested(st, q));
            }
        },
        _ => {
            lemma_requests_kept(st, next);
            assert forall|q: Request| is_requested(next, q) implies next.requests.contains(q) by {
                assert(is_requested(st, q));
            }
        },
    }
}

/// What `st` holds is still there in `next`.
pub open spec fn extends(st: Collected, next: Collected) -> bool {
    &&& st.dkim_headers.len() <= next.dkim_headers.len()
    &&& st.ams_headers.len() <= next.ams_headers.len()
    &&& forall|k: int|
        0 <= k < st.dkim_headers.len() ==> (#[trigger] next.dkim_headers[k]) == st.dkim_headers[k]
    &&& forall|k: int|
        0 <= k < st.ams_headers.len() ==> (#[trigger] next.ams_headers[k]) == st.ams_headers[k]
    &&& forall|q: Request| st.requests.contains(q) ==> next.requests.contains(q)
    &&& forall|j: int|
        0 <= j < next.requests.len() ==> st.requests.contains(#[trigger] next.requests[j])
            || is_requested(next, next.requests[j])
    &&& st.requests.no_duplicates() ==> next.requests.no_duplicates()
}

/// A request that was made before a header was taken in is still made
/// after it, and the requests that are listed after it are made.
proof fn lemma_requests_kept(st: Collected, next: Collected)
    requires
        requests_exact(st),
        extends(st, next),
    ensures
        next.requests.no_duplicates(),
        forall|j: int| 0 <= j < next.requests.len() ==> is_requested(next, #[trigger] next.requests[j]),
{
    assert forall|j: int| 0 <= j < next.requests.len() implies is_requested(
        next,
        #[trigger] next.requests[j],
    ) by {
        let r = next.requests[j];
        if st.requests.contains(r) {
            let i = choose|i: int| 0 <= i < st.requests.len() && st.requests[i] == r;
            assert(is_requested(st, st.requests[i]));
            lemma_requested_later(st, next, r);
        }
    }
}

/// A request that is made in `st` is made in what extends it.
proof fn lemma_requested_later(st: Collected, next: Collected, r: Request)
    requires
        extends(st, next),
        is_requested(st, r),
    ensures
        is_requested(next, r),
{
    if exists|k: int|
        0 <= k < st.dkim_headers.len() && (#[trigger] st.dkim_headers[k]).header is Ok
            && dkim_request(st.dkim_headers[k].header->Ok_0) == r {
        let k = choose|k: int|
            0 <= k < st.dkim_headers.len() && (#[trigger] st.dkim_headers[k]).header is Ok
                && dkim_request(st.dkim_headers[k].header->Ok_0) == r;
        assert(next.dkim_headers[k] == st.dkim_headers[k]);
    } else {
        let k = choose|k: int|
            0 <= k < st.ams_headers.len() && (#[trigger] st.ams_headers[k]).header is Ok
                && arc_request(st.ams_headers[k].header->Ok_0) == r;
        assert(next.ams_headers[k] == st.ams_headers[k]);
    }
}

/// A request that is made once the DKIM header `x` is taken in was made
/// before, unless it is the one of `x`.
proof fn lemma_requested_before(
    st: Collected,
    next: Collected,
    x: HeaderView<Result<dkim::Signature, Error>>,
    q: Request,
)
    requires
        requests_exact(st),
        next.dkim_headers == st.dkim_headers.push(x),
        next.ams_headers == st.ams_headers,
        forall|r: Request| st.requests.contains(r) ==> next.requests.contains(r),
        is_requested(next, q),
        !(x.header is Ok && dkim_request(x.header->Ok_0) == q),
    ensures
        next.requests.contains(q),
{
    if exists|k: int|
        0 <= k < next.dkim_headers.len() && (#[trigger] next.dkim_headers[k]).header is Ok
            && dkim_request(next.dkim_headers[k].header->Ok_0) == q {
        let k = choose|k: int|
            0 <= k < next.dkim_headers.len() && (#[trigger] next.dkim_headers[k]).header is Ok
                && dkim_request(next.dkim_headers[k].header->Ok_0) == q;
        assert(k < st.dkim_headers.len());
        assert(st.dkim_headers[k] == next.dkim_headers[k]);
        assert(is_requested(st, q));
    } else {
        assert(is_requested(st, q));
    }
}

/// A request that is made once the ARC message signature `x` is taken in
/// was made before, unless it is the one of `x`.
proof fn lemma_requested_before_arc(
    st: Collected,
    next: Collected,
    x: HeaderView<Result<arc::Signature, Error>>,
    q: Request,
)
    requires
        requests_exact(st),
        next.ams_headers == st.ams_headers.push(x),
        next.dkim_headers == st.dkim_headers,
        forall|r: Request| st.requests.contains(r) ==> next.requests.contains(r),
        is_requested(next, q),
        !(x.header is Ok && arc_request(x.header->Ok_0) == q),
    ensures
        next.requests.contains(q),
{
    if exists|k: int|
        0 <= k < next.ams_headers.len() && (#[trigger] next.ams_headers[k]).header is Ok
            && arc_request(next.ams_headers[k].header->Ok_0) == q {
        let k = choose|k: int|
            0 <= k < next.ams_headers.len() && (#[trigger] next.ams_headers[k]).header is Ok
                && arc_request(next.ams_headers[k].header->Ok_0) == q;
        assert(k < st.ams_headers.len());
        assert(st.ams_headers[k] == next.ams_headers[k]);
        assert(is_requested(st, q));
    } else {
        assert(is_requested(st, q));
    }
}

/// Requests are only ever added behind those that are there: taking in a
/// header leaves the requests made before it in front.
pub proof fn lemma_requests_stay_in_front(
    st: Collected,
    kind: HeaderKind,
    name: Seq<u8>,
    value: Seq<u8>,
)
    ensures
        is_front_of(st.requests, add_header(st, kind, name, value).requests),
{
    let next = add_header(st, kind, name, value).requests;
    assert(next.subrange(0, st.requests.len() as int) =~= st.requests);
}

/// The requests stand in the order in which they were first made: those
/// gathered before index `i` stay in front of those that the headers from
/// there on add.
pub proof fn lemma_requests_in_order(s: Seq<u8>, i: int, st: Collected)
    requires
        0 <= i <= s.len(),
    ensures
        is_front_of(st.requests, collect_from(s, i, st).requests),
    decreases s.len() - i,
{
    if is_block_end(s, i) {
        assert(st.requests.subrange(0, st.requests.len() as int) =~= st.requests);
    } else {
        lemma_header_end(s, i);
        let span = header_at(s, i);
        let next = add_header(st, kind_of(span.name(s)), span.name(s), span.value(s));
        lemma_requests_stay_in_front(st, kind_of(span.name(s)), span.name(s), span.value(s));
        lemma_requests_in_order(s, header_end(s, i), next);
        let all = collect_from(s, header_end(s, i), next).requests;
        assert(all.subrange(0, st.requests.len() as int) =~= all.subrange(
            0,
            next.requests.len() as int,
        ).subrange(0, st.requests.len() as int));
    }
}


/// Reading the headers from index `i` on keeps the mark of the chain and
/// the requests exact.
pub proof fn lemma_collect_from(s: Seq<u8>, i: int, st: Collected)
    requires
        0 <= i <= s.len(),
        errors_marked(st),
        requests_exact(st),
    ensures
        errors_marked(collect_from(s, i, st)),
        requests_exact(collect_from(s, i, st)),
    decreases s.len() - i,
{
    if !is_block_end(s, i) {
        lemma_header_end(s, i);
        let span = header_at(s, i);
        let next = add_header(st, kind_of(span.name(s)), span.name(s), span.value(s));
        lemma_add_header(st, kind_of(span.name(s)), span.name(s), span.value(s));
        lemma_collect_from(s, header_end(s, i), next);
    }
}

/// What was gathered from all headers of a message.
pub open spec fn collected_of(s: Seq<u8>) -> Collected {
    collect_from(s, 0, nothing_collected())
}

/// The body hashes of a message answer the requests of its signatures that
/// parsed, and no others, each once. Each is the hash of the body of the
/// message that its request asks for, and they stand in the order of the
/// requests, which is the order in which these were first made.
pub proof fn lemma_body_hashes(s: Seq<u8>)
    ensures
        requests_exact(collected_of(s)),
        message_of(s) matches Some(m) ==> m.body_hashes == hashes_of(
            collected_of(s).requests,
            m.body,
        ),
{
    lemma_collect_from(s, 0, nothing_collected());
}

/// The ARC headers of a message stand in ascending order of their
/// instances where the chain has a seal and every ARC header parsed; they
/// are then the same headers as in the message, each as often. Where an
/// ARC header failed to parse they stand in the order of the message.
pub proof fn lemma_chain_order(s: Seq<u8>)
    ensures
        message_of(s) matches Some(m) ==> ({
            let st = collected_of(s);
            let failed = any_error(st.ams_headers) || any_error(st.as_headers) || any_error(
                st.aar_headers,
            );
            &&& failed ==> m.as_headers == st.as_headers && m.ams_headers == st.ams_headers
                && m.aar_headers == st.aar_headers
            &&& !failed && st.as_headers.len() > 0 ==> is_ascending(m.as_headers) && is_ascending(
                m.ams_headers,
            ) && is_ascending(m.aar_headers)
            &&& m.as_headers.to_multiset() == st.as_headers.to_multiset()
            &&& m.ams_headers.to_multiset() == st.ams_headers.to_multiset()
            &&& m.aar_headers.to_multiset() == st.aar_headers.to_multiset()
        }),
{
    let st = collected_of(s);
    lemma_collect_from(s, 0, nothing_collected());
    lemma_sorted_by_instance(st.as_headers);
    lemma_sorted_by_instance(st.ams_headers);
    lemma_sorted_by_instance(st.aar_headers);
}

} // verus!
