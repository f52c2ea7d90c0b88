//! What holds of every record, proved from the grammar.

use vstd::prelude::*;
use crate::common::ascii::{
    decimal_number, digit_value, is_digit, is_whitespace, CLOSE_BRACE, LOWER_R, MINUS, OPEN_BRACE,
    PERCENT, SLASH, SPACE, UNDERSCORE, UPPER_R,
};
use crate::common::cursor::is_front_of;
use crate::common::tag::{
    key_at, lemma_key_end, lemma_pack_wf, nothing_packed, pack, packed_wf, unmatched, V,
};
use crate::spf::ip6::{ip6_at, ip6_start, lemma_ip6_end};
use crate::spf::literals::{
    cidr_length_from, dual_cidr_length_at, dual_cidr_length_from, ip4_at, lemma_cidr_length_end,
    lemma_dual_cidr_length_end, lemma_ip4_end, length_or,
};
use crate::spf::macros::{
    delimiter_bit, escaped_space, exp_variable_letter, flush, is_delimiter, lemma_macro_end,
    lemma_variable_at_end, macro_at, macro_from, push_part_digit, variable_at, variable_from,
    variable_letter, VarState,
};
use crate::spf::parse::{
    address_length_at, is_version_at, lemma_term_body_end, record, record_from, record_result_is,
    record_value, term_body_at, version_end, TermView,
};
use crate::spf::term::{
    is_keyword_char, is_term_stop, lemma_term_end, qualifier_of, term_at, term_from, term_start,
    TermState, A, ALL, EXISTS, EXP, INCLUDE, IP4, IP6, MX, PTR, REDIRECT,
};
use crate::spf::{DirectiveView, Error, MacroView, ModifierView, Qualifier, SpfView, SPF};

verus! {

/// Once a keyword character has been read, the term has a keyword and
/// nothing changes its qualifier any more.
pub proof fn lemma_qualifier_kept(s: Seq<u8>, i: int, st: TermState)
    requires
        0 <= i <= s.len(),
        packed_wf(st.keyword),
        st.keyword.letters > 0,
    ensures
        term_from(s, i, st).value matches Some(t) && t.1 == st.qualifier,
    decreases s.len() - i,
{
    if i < s.len() {
        if is_keyword_char(s[i]) && st.keyword.letters < 8 {
            lemma_pack_wf(st.keyword, s[i]);
            lemma_qualifier_kept(s, i + 1, TermState { keyword: pack(st.keyword, s[i]), ..st });
        } else if is_term_stop(s[i]) {
        } else if is_whitespace(s[i]) {
        } else {
            lemma_qualifier_kept(
                s,
                i + 1,
                TermState { keyword: unmatched(), ..st },
            );
        }
    }
}

/// There is no term only where the input ends before any keyword: a term
/// lexer that finds none has read the input to its end.
pub proof fn lemma_no_term_at_end_only(s: Seq<u8>, i: int, st: TermState)
    requires
        0 <= i <= s.len(),
        packed_wf(st.keyword),
    ensures
        term_from(s, i, st).value is None ==> term_from(s, i, st).end == s.len()
            && st.keyword.letters == 0,
    decreases s.len() - i,
{
    if i < s.len() {
        if is_keyword_char(s[i]) && st.keyword.letters < 8 {
            lemma_pack_wf(st.keyword, s[i]);
            lemma_no_term_at_end_only(
                s,
                i + 1,
                TermState { keyword: pack(st.keyword, s[i]), ..st },
            );
        } else if st.keyword.letters == 0 && qualifier_of(s[i]) is Some {
            lemma_no_term_at_end_only(
                s,
                i + 1,
                TermState { qualifier: qualifier_of(s[i])->Some_0, ..st },
            );
        } else if is_term_stop(s[i]) {
        } else if is_whitespace(s[i]) {
            if st.keyword.letters == 0 {
                lemma_no_term_at_end_only(s, i + 1, st);
            }
        } else {
            lemma_no_term_at_end_only(s, i + 1, TermState { keyword: unmatched(), ..st });
        }
    }
}

/// The qualifier of a term is the one that its prefix symbol stands for,
/// and `Pass` where the term begins with its keyword.
pub proof fn lemma_qualifier_matches_prefix(s: Seq<u8>, i: int)
    requires
        0 <= i < s.len(),
    ensures
        is_keyword_char(s[i]) ==> (term_at(s, i).value matches Some(t) && t.1 == Qualifier::Pass),
        qualifier_of(s[i]) matches Some(q) ==> i + 1 < s.len() ==> is_keyword_char(s[i + 1])
            ==> (term_at(s, i).value matches Some(t) && t.1 == q),
{
    let st = term_start();
    if is_keyword_char(s[i]) {
        lemma_pack_wf(st.keyword, s[i]);
        lemma_qualifier_kept(s, i + 1, TermState { keyword: pack(st.keyword, s[i]), ..st });
    } else if qualifier_of(s[i]) is Some && i + 1 < s.len() && is_keyword_char(s[i + 1]) {
        let st1 = TermState { qualifier: qualifier_of(s[i])->Some_0, ..st };
        let st2 = TermState { keyword: pack(st1.keyword, s[i + 1]), ..st1 };
        lemma_pack_wf(st1.keyword, s[i + 1]);
        lemma_qualifier_kept(s, i + 2, st2);
        assert(term_at(s, i) == term_from(s, i + 1, st1));
        assert(term_from(s, i + 1, st1) == term_from(s, i + 2, st2));
    }
}

/// Directives and modifiers come out in the order of the record: what was
/// read before index `i` stays in front of what is read from there on.
pub proof fn lemma_order_kept(
    s: Seq<u8>,
    i: int,
    directives: Seq<DirectiveView>,
    modifiers: Seq<ModifierView>,
)
    requires
        0 <= i <= s.len(),
    ensures
        record_from(s, i, directives, modifiers) matches Ok(r) ==> is_front_of(
            directives,
            r.directives,
        ) && is_front_of(modifiers, r.modifiers),
    decreases s.len() - i,
{
    let t = term_at(s, i);
    match t.value {
        None => {
            assert(directives.subrange(0, directives.len() as int) =~= directives);
            assert(modifiers.subrange(0, modifiers.len() as int) =~= modifiers);
        },
        Some((id, qualifier, stop)) => {
            let body = term_body_at(s, t.end, id, stop);
            lemma_term_end(s, i, term_start());
            lemma_term_body_end(s, t.end, id, stop);
            match body.value {
                Ok(TermView::Directive(mechanism)) => {
                    let next = directives.push(DirectiveView { qualifier, mechanism });
                    lemma_order_kept(s, body.end, next, modifiers);
                    if let Ok(r) = record_from(s, body.end, next, modifiers) {
                        assert(r.directives.subrange(0, directives.len() as int)
                            =~= r.directives.subrange(0, next.len() as int).subrange(
                            0,
                            directives.len() as int,
                        ));
                        assert(next.subrange(0, directives.len() as int) =~= directives);
                    }
                },
                Ok(TermView::Modifier(modifier)) => {
                    let next = modifiers.push(modifier);
                    lemma_order_kept(s, body.end, directives, next);
                    if let Ok(r) = record_from(s, body.end, directives, next) {
                        assert(r.modifiers.subrange(0, modifiers.len() as int)
                            =~= r.modifiers.subrange(0, next.len() as int).subrange(
                            0,
                            modifiers.len() as int,
                        ));
                        assert(next.subrange(0, modifiers.len() as int) =~= modifiers);
                    }
                },
                Ok(TermView::Unknown) => {
                    lemma_order_kept(s, body.end, directives, modifiers);
                },
                Err(e) => {},
            }
        },
    }
}

/// The directive that a term contributes to a record carries the qualifier
/// that the term's prefix symbol stands for, and `Pass` where the term
/// begins with its keyword. It stands right behind the directives that were
/// read before it.
pub proof fn lemma_directive_qualifier(
    s: Seq<u8>,
    i: int,
    directives: Seq<DirectiveView>,
    modifiers: Seq<ModifierView>,
)
    requires
        0 <= i < s.len(),
        term_at(s, i).value matches Some(t) && term_body_at(
            s,
            term_at(s, i).end,
            t.0,
            t.2,
        ).value matches Ok(TermView::Directive(_)),
        record_from(s, i, directives, modifiers) is Ok,
    ensures
        ({
            let r = record_from(s, i, directives, modifiers)->Ok_0;
            let d = r.directives[directives.len() as int];
            &&& directives.len() < r.directives.len()
            &&& is_keyword_char(s[i]) ==> d.qualifier == Qualifier::Pass
            &&& qualifier_of(s[i]) matches Some(q) ==> i + 1 < s.len() ==> is_keyword_char(s[i + 1])
                ==> d.qualifier == q
        }),
{
    let t = term_at(s, i);
    let (id, qualifier, stop) = t.value->Some_0;
    let body = term_body_at(s, t.end, id, stop);
    lemma_term_end(s, i, term_start());
    lemma_term_body_end(s, t.end, id, stop);
    lemma_qualifier_matches_prefix(s, i);
    let mechanism = body.value->Ok_0->Directive_0;
    let next = directives.push(DirectiveView { qualifier, mechanism });
    lemma_order_kept(s, body.end, next, modifiers);
    let r = record_from(s, body.end, next, modifiers)->Ok_0;
    assert(r.directives.subrange(0, next.len() as int)[directives.len() as int]
        == r.directives[directives.len() as int]);
}

/// A variable reference that closes is a fragment.
pub proof fn lemma_variable_is_fragment(s: Seq<u8>, i: int, st: VarState)
    ensures
        variable_from(s, i, st).value matches Ok(m) ==> m.is_fragment(),
    decreases s.len() - i,
{
    if 0 <= i < s.len() {
        if is_digit(s[i]) {
            lemma_variable_is_fragment(
                s,
                i + 1,
                VarState {
                    num_parts: push_part_digit(st.num_parts, s[i]),
                    ..st
                },
            );
        } else if s[i] == LOWER_R || s[i] == UPPER_R {
            lemma_variable_is_fragment(s, i + 1, VarState { reverse: true, ..st });
        } else if s[i] == CLOSE_BRACE {
        } else if is_delimiter(s[i]) {
            lemma_variable_is_fragment(
                s,
                i + 1,
                VarState { delimiters: st.delimiters | delimiter_bit(s[i]), ..st },
            );
        }
    }
}

/// Every element of `frags` is a fragment.
pub open spec fn all_fragments(frags: Seq<MacroView>) -> bool {
    forall|k: int| 0 <= k < frags.len() ==> (#[trigger] frags[k]).is_fragment()
}

/// A macro-string that parses is a single fragment or a list of two
/// fragments or more: never empty, never a list of one, never nested.
pub proof fn lemma_macro_wf(
    s: Seq<u8>,
    i: int,
    is_exp: bool,
    frags: Seq<MacroView>,
    lit: Seq<u8>,
    pct: bool,
)
    requires
        0 <= i <= s.len(),
        all_fragments(frags),
    ensures
        macro_from(s, i, is_exp, frags, lit, pct).value matches Ok(r) ==> r.0.wf(),
    decreases s.len() - i,
{
    assert(all_fragments(flush(frags, lit)));
    if i < s.len() {
        if s[i] == PERCENT {
            if pct {
                lemma_macro_wf(s, i + 1, is_exp, frags, lit.push(PERCENT), false);
            } else {
                lemma_macro_wf(s, i + 1, is_exp, frags, lit, true);
            }
        } else if pct && s[i] == UNDERSCORE {
            lemma_macro_wf(s, i + 1, is_exp, frags, lit.push(SPACE), false);
        } else if pct && s[i] == MINUS {
            lemma_macro_wf(
                s,
                i + 1,
                is_exp,
                frags,
                lit + escaped_space(),
                false,
            );
        } else if pct && s[i] == OPEN_BRACE {
            let var = variable_at(s, i + 1, is_exp);
            lemma_variable_at_end(s, i + 1, is_exp);
            if let Ok(fragment) = var.value {
                let letter = if is_exp {
                    exp_variable_letter(s[i + 1])
                } else {
                    variable_letter(s[i + 1])
                };
                let (letter, escape) = letter->Some_0;
                lemma_variable_is_fragment(
                    s,
                    i + 2,
                    VarState { letter, escape, num_parts: 0, reverse: false, delimiters: 0 },
                );
                let next = flush(frags, lit).push(fragment);
                assert(all_fragments(next));
                lemma_macro_wf(s, var.end, is_exp, next, Seq::empty(), false);
            }
        } else if s[i] == SLASH && !is_exp {
        } else if pct {
        } else if !is_whitespace(s[i]) || is_exp {
            lemma_macro_wf(s, i + 1, is_exp, frags, lit.push(s[i]), false);
        }
    }
}

/// What a term contributes is well-formed.
pub open spec fn term_view_wf(t: TermView) -> bool {
    match t {
        TermView::Directive(m) => m.wf(),
        TermView::Modifier(m) => m.wf(),
        TermView::Unknown => true,
    }
}

/// The mechanism or modifier that a term contributes is well-formed: its
/// prefix lengths do not pass 32 and 128, its address is whole, and its
/// argument is a proper macro-string.
pub proof fn lemma_term_body_wf(s: Seq<u8>, j: int, id: u64, stop: u8)
    requires
        0 <= j <= s.len(),
    ensures
        term_body_at(s, j, id, stop).value matches Ok(t) ==> term_view_wf(t),
{
    let m = macro_at(s, j, false);
    lemma_macro_end(s, j, false, Seq::empty(), Seq::empty(), false);
    lemma_macro_wf(s, j, false, Seq::empty(), Seq::empty(), false);
    lemma_dual_cidr_length_end(s, j, None, None, false);
    lemma_dual_cidr_length_end(s, m.end, None, None, false);
    lemma_ip4_end(s, j, Seq::empty(), 0);
    lemma_ip6_end(s, j, ip6_start());
}

/// Every element of `directives` and of `modifiers` is well-formed.
pub open spec fn all_wf(directives: Seq<DirectiveView>, modifiers: Seq<ModifierView>) -> bool {
    &&& forall|k: int| 0 <= k < directives.len() ==> (#[trigger] directives[k]).mechanism.wf()
    &&& forall|k: int| 0 <= k < modifiers.len() ==> (#[trigger] modifiers[k]).wf()
}

/// The terms read from index `i` on keep a record well-formed.
pub proof fn lemma_record_from_wf(
    s: Seq<u8>,
    i: int,
    directives: Seq<DirectiveView>,
    modifiers: Seq<ModifierView>,
)
    requires
        0 <= i <= s.len(),
        all_wf(directives, modifiers),
    ensures
        record_from(s, i, directives, modifiers) matches Ok(r) ==> r.wf(),
    decreases s.len() - i,
{
    let t = term_at(s, i);
    match t.value {
        None => {},
        Some((id, qualifier, stop)) => {
            let body = term_body_at(s, t.end, id, stop);
            lemma_term_end(s, i, term_start());
            lemma_term_body_end(s, t.end, id, stop);
            lemma_term_body_wf(s, t.end, id, stop);
            match body.value {
                Ok(TermView::Directive(mechanism)) => {
                    lemma_record_from_wf(
                        s,
                        body.end,
                        directives.push(DirectiveView { qualifier, mechanism }),
                        modifiers,
                    );
                },
                Ok(TermView::Modifier(modifier)) => {
                    lemma_record_from_wf(s, body.end, directives, modifiers.push(modifier));
                },
                Ok(TermView::Unknown) => {
                    lemma_record_from_wf(s, body.end, directives, modifiers);
                },
                Err(e) => {},
            }
        },
    }
}

/// Every record that parses is well-formed: it has at least one directive
/// or modifier, no prefix length passes the maximum of its family, and no
/// macro-string is an empty list or a list of one.
pub proof fn lemma_record_wf(s: Seq<u8>)
    ensures
        record(s) matches Ok(r) ==> r.wf(),
{
    let k = key_at(s, 0);
    lemma_key_end(s, 0, nothing_packed());
    if k.value == Some(V) && is_version_at(s, k.end) {
        lemma_record_from_wf(s, version_end(s, k.end), Seq::empty(), Seq::empty());
    }
}

/// The keyword with identifier `id` is one that the grammar knows.
pub open spec fn is_known_keyword(id: u64) -> bool {
    id == A || id == MX || id == ALL || id == INCLUDE || id == EXISTS || id == IP4 || id == IP6
        || id == PTR || id == EXP || id == REDIRECT
}

/// A term with an unknown keyword and a well-formed argument ends no
/// record and leaves no trace in it: the record is what the terms behind it
/// make.
pub proof fn lemma_unknown_term_dropped(
    s: Seq<u8>,
    i: int,
    directives: Seq<DirectiveView>,
    modifiers: Seq<ModifierView>,
)
    requires
        0 <= i <= s.len(),
        term_at(s, i).value matches Some(t) && !is_known_keyword(t.0) && (t.2 == SPACE || (macro_at(
            s,
            term_at(s, i).end,
            false,
        ).value matches Ok(m) && m.1 == SPACE)),
    ensures
        ({
            let t = term_at(s, i);
            let (id, qualifier, stop) = t.value->Some_0;
            record_from(s, i, directives, modifiers) == record_from(
                s,
                term_body_at(s, t.end, id, stop).end,
                directives,
                modifiers,
            )
        }),
{
    let t = term_at(s, i);
    let (id, qualifier, stop) = t.value->Some_0;
    lemma_term_end(s, i, term_start());
    lemma_term_body_end(s, t.end, id, stop);
}

/// Every byte from index `i` up to index `j` is a decimal digit.
pub open spec fn digits_between(s: Seq<u8>, i: int, j: int) -> bool {
    0 <= i <= j <= s.len() && forall|k: int| i <= k < j ==> is_digit(#[trigger] s[k])
}

/// The number that the digits from index `i` up to index `j` write.
pub open spec fn number_between(s: Seq<u8>, i: int, j: int) -> int {
    decimal_number(s.subrange(i, j))
}

/// The prefix length that the digits from index `i` up to index `j` write
/// for a family whose maximum is `max`: their number if it is smaller than
/// the maximum, and the maximum where it is not or where no digit stands.
pub open spec fn written_length(s: Seq<u8>, i: int, j: int, max: u8) -> u8 {
    if i < j && number_between(s, i, j) < max {
        number_between(s, i, j) as u8
    } else {
        max
    }
}

/// The input ends at index `j`, or goes on with whitespace there.
pub open spec fn ends_at(s: Seq<u8>, j: int) -> bool {
    j == s.len() || (0 <= j < s.len() && is_whitespace(s[j]))
}

/// The index behind what ends at index `j`: behind the whitespace, if any
/// stands there.
pub open spec fn behind(s: Seq<u8>, j: int) -> int {
    if j < s.len() {
        j + 1
    } else {
        j
    }
}

/// A number held in a byte, which stays at 255 once it would pass it.
pub open spec fn saturated(v: int) -> u8 {
    if v > 255 {
        255u8
    } else {
        v as u8
    }
}

/// What is written of a length once the digits from index `i` up to index
/// `k` are read.
pub open spec fn length_so_far(s: Seq<u8>, i: int, k: int) -> Option<u8> {
    if k <= i {
        None
    } else {
        Some(saturated(number_between(s, i, k)))
    }
}

/// One more digit makes the number ten times as large and adds the digit;
/// the number is never negative.
pub proof fn lemma_number_between(s: Seq<u8>, i: int, k: int)
    requires
        digits_between(s, i, k),
    ensures
        number_between(s, i, k) >= 0,
        k < s.len() ==> number_between(s, i, k + 1) == number_between(s, i, k) * 10 + digit_value(
            s[k],
        ),
    decreases k - i,
{
    if i < k {
        lemma_number_between(s, i, k - 1);
        assert(s.subrange(i, k).drop_last() =~= s.subrange(i, k - 1));
    }
    if k < s.len() {
        assert(s.subrange(i, k + 1).drop_last() =~= s.subrange(i, k));
    }
}

/// Reading the digits of the IPv4 length leads from the state behind some
/// of them to the state behind all of them.
proof fn lemma_ip4_digits(s: Seq<u8>, j: int, k: int, a: int, ip6: Option<u8>)
    requires
        digits_between(s, j, a),
        j <= k <= a,
    ensures
        dual_cidr_length_from(s, k, length_so_far(s, j, k), ip6, false) == dual_cidr_length_from(
            s,
            a,
            length_so_far(s, j, a),
            ip6,
            false,
        ),
    decreases a - k,
{
    if k < a {
        assert(digits_between(s, j, k));
        lemma_number_between(s, j, k);
        lemma_ip4_digits(s, j, k + 1, a, ip6);
    }
}

/// Reading the digits of the IPv6 length leads from the state behind some
/// of them to the state behind all of them.
proof fn lemma_ip6_digits(s: Seq<u8>, j: int, k: int, a: int, ip4: Option<u8>)
    requires
        digits_between(s, j, a),
        j <= k <= a,
    ensures
        dual_cidr_length_from(s, k, ip4, length_so_far(s, j, k), true) == dual_cidr_length_from(
            s,
            a,
            ip4,
            length_so_far(s, j, a),
            true,
        ),
    decreases a - k,
{
    if k < a {
        assert(digits_between(s, j, k));
        lemma_number_between(s, j, k);
        lemma_ip6_digits(s, j, k + 1, a, ip4);
    }
}

/// Reading the digits of a single length leads from the state behind some
/// of them to the state behind all of them.
proof fn lemma_cidr_digits(s: Seq<u8>, j: int, k: int, a: int)
    requires
        digits_between(s, j, a),
        j <= k <= a,
    ensures
        cidr_length_from(s, k, saturated(number_between(s, j, k))) == cidr_length_from(
            s,
            a,
            saturated(number_between(s, j, a)),
        ),
    decreases a - k,
{
    if k < a {
        assert(digits_between(s, j, k));
        lemma_number_between(s, j, k);
        lemma_cidr_digits(s, j, k + 1, a);
    }
}

/// What is written of a length comes out as the written length of its
/// family.
proof fn lemma_length_so_far(s: Seq<u8>, i: int, j: int, max: u8)
    requires
        digits_between(s, i, j),
    ensures
        length_or(length_so_far(s, i, j), max) == written_length(s, i, j, max),
{
    lemma_number_between(s, i, j);
}

/// A dual prefix length that consists of an IPv4 length alone: the digits
/// from index `j` up to `a`, however many, behind which the input ends or
/// goes on with whitespace. The IPv4 length is the written number, or 32
/// where the number is larger or no digit is written; the IPv6 length is
/// 128.
pub proof fn lemma_single_length_written(s: Seq<u8>, j: int, a: int)
    requires
        digits_between(s, j, a),
        ends_at(s, a),
    ensures
        dual_cidr_length_at(s, j).value == Ok::<(u8, u8), Error>(
            (written_length(s, j, a, 32), 128),
        ),
        dual_cidr_length_at(s, j).end == behind(s, a),
{
    lemma_ip4_digits(s, j, j, a, None);
    lemma_length_so_far(s, j, a, 32);
}

/// A dual prefix length with both lengths: the digits of the IPv4 length
/// from index `j` up to `a`, one slash or two, and the digits of the IPv6
/// length from index `c` up to `b`, however many, behind which the input
/// ends or goes on with whitespace. Each length is the written number, or
/// the maximum of its family, 32 or 128, where the number is larger or no
/// digit is written.
pub proof fn lemma_dual_lengths_written(s: Seq<u8>, j: int, a: int, c: int, b: int)
    requires
        digits_between(s, j, a),
        a < s.len() && s[a] == SLASH,
        c == a + 1 || (c == a + 2 && c <= s.len() && s[a + 1] == SLASH),
        digits_between(s, c, b),
        ends_at(s, b),
    ensures
        dual_cidr_length_at(s, j).value == Ok::<(u8, u8), Error>(
            (written_length(s, j, a, 32), written_length(s, c, b, 128)),
        ),
        dual_cidr_length_at(s, j).end == behind(s, b),
{
    let ip4 = length_so_far(s, j, a);
    lemma_ip4_digits(s, j, j, a, None);
    lemma_length_so_far(s, j, a, 32);
    assert(dual_cidr_length_from(s, a, ip4, None, false) == dual_cidr_length_from(
        s,
        a + 1,
        ip4,
        None,
        true,
    ));
    if c == a + 2 {
        assert(dual_cidr_length_from(s, a + 1, ip4, None, true) == dual_cidr_length_from(
            s,
            a + 2,
            ip4,
            None,
            true,
        ));
    }
    lemma_ip6_digits(s, c, c, b, ip4);
    lemma_length_so_far(s, c, b, 128);
}

/// The prefix length of an address: the digits from index `j` up to `a`,
/// however many, behind which the input ends or goes on with whitespace.
/// The length is the written number, or the maximum of the family where the
/// number is larger or no digit is written.
pub proof fn lemma_address_length_written(s: Seq<u8>, j: int, a: int, max: u8)
    requires
        digits_between(s, j, a),
        ends_at(s, a),
    ensures
        address_length_at(s, j, max).value == Ok::<u8, Error>(written_length(s, j, a, max)),
        address_length_at(s, j, max).end == behind(s, a),
{
    lemma_cidr_digits(s, j, j, a);
    lemma_number_between(s, j, a);
    assert(s.subrange(j, j) =~= Seq::<u8>::empty());
}

/// A dual prefix length of which nothing is written is the pair of the
/// families' maxima, 32 and 128.
pub proof fn lemma_lengths_default(s: Seq<u8>, j: int)
    requires
        0 <= j <= s.len(),
        j < s.len() ==> is_whitespace(s[j]),
    ensures
        dual_cidr_length_at(s, j).value == Ok::<(u8, u8), Error>((32, 128)),
{
}

/// Parsing is a function of the bytes: two results for the same record are
/// both errors, and the same one, or both records of the same value.
pub proof fn lemma_parse_deterministic(
    bytes: Seq<u8>,
    first: Result<SPF, Error>,
    second: Result<SPF, Error>,
)
    requires
        record_result_is(first, record(bytes)),
        record_result_is(second, record(bytes)),
    ensures
        match (first, second) {
            (Ok(a), Ok(b)) => a@ == b@,
            (Err(a), Err(b)) => a == b,
            _ => false,
        },
{
}

} // verus!
