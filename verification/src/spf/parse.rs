//! The record parser: the version tag, then one term after the other, each
//! read by the continuation that belongs to its keyword.

use vstd::prelude::*;
use crate::common::ascii::{
    byte_is_digit, byte_is_whitespace, byte_to_lower, is_digit, is_whitespace, to_lower, COLON,
    DIGIT_1, EQUALS, LOWER_F, LOWER_P, LOWER_S, SLASH, SPACE,
};
use crate::common::cursor::{Cursor, Lexed};
use crate::common::tag::{key_at, V};
use crate::spf::ip6::{ip6_at, ip6_start, lemma_ip6_end};
use crate::spf::literals::{
    cidr_length_at, clamp, dual_cidr_length_at, ip4_at, lemma_cidr_length_end,
    lemma_dual_cidr_length_end, lemma_ip4_end,
};
use crate::spf::laws::lemma_record_wf;
use crate::spf::macros::{lemma_macro_end, macro_at};
use crate::spf::term::{
    lemma_term_end, term_at, term_start, A, ALL, EXISTS, EXP, INCLUDE, IP4, IP6, MX, PTR, REDIRECT,
};
use crate::spf::{
    directive_views, modifier_views, Directive, DirectiveView, Error, Macro, MacroView, Mechanism,
    MechanismView, Modifier, ModifierView, Qualifier, SpfView, Version, SPF,
};

verus! {

/// What one term of a record contributes.
#[derive(Debug, PartialEq, Eq)]
pub enum Term {
    Directive(Mechanism),
    Modifier(Modifier),
    /// A term with an unknown keyword: it is read and dropped.
    Unknown,
}

/// The mathematical value of a [`Term`].
pub enum TermView {
    Directive(MechanismView),
    Modifier(ModifierView),
    Unknown,
}

impl Term {
    pub open spec fn view(&self) -> TermView {
        match self {
            Term::Directive(m) => TermView::Directive(m@),
            Term::Modifier(m) => TermView::Modifier(m@),
            Term::Unknown => TermView::Unknown,
        }
    }
}

/// A term as the parser returns it, against the same in the mathematical
/// model.
pub open spec fn term_result_is(r: Result<Term, Error>, model: Result<TermView, Error>) -> bool {
    match r {
        Ok(t) => model == Ok::<TermView, Error>(t@),
        Err(e) => model == Err::<TermView, Error>(e),
    }
}

/// The mechanism `a` or `mx`, whichever `id` names.
pub open spec fn host_mechanism(id: u64, macro_string: MacroView, ip4: u8, ip6: u8) -> TermView {
    TermView::Directive(
        if id == A {
            MechanismView::A { macro_string, ip4_cidr_length: ip4, ip6_cidr_length: ip6 }
        } else {
            MechanismView::Mx { macro_string, ip4_cidr_length: ip4, ip6_cidr_length: ip6 }
        },
    )
}

/// The dual prefix length at index `j`, for the host mechanism `id` with the
/// argument `macro_string`.
pub open spec fn host_lengths_at(s: Seq<u8>, j: int, id: u64, macro_string: MacroView) -> Lexed<
    Result<TermView, Error>,
> {
    let d = dual_cidr_length_at(s, j);
    Lexed {
        value: match d.value {
            Ok((ip4, ip6)) => Ok(host_mechanism(id, macro_string, ip4, ip6)),
            Err(e) => Err(e),
        },
        end: d.end,
    }
}

/// The rest of an `a` or `mx` term whose keyword ended on `stop` before
/// index `j`: nothing; or a domain behind a colon, a dual prefix length
/// behind a slash, or both in this order. Lengths that are not written are
/// 32 and 128.
pub open spec fn host_term_at(s: Seq<u8>, j: int, id: u64, stop: u8) -> Lexed<
    Result<TermView, Error>,
> {
    if stop == SPACE {
        Lexed { value: Ok(host_mechanism(id, MacroView::Empty, 32, 128)), end: j }
    } else if stop == COLON || stop == EQUALS {
        let m = macro_at(s, j, false);
        match m.value {
            Ok((macro_string, stop2)) => if stop2 == SLASH {
                host_lengths_at(s, m.end, id, macro_string)
            } else if stop2 != SPACE {
                Lexed { value: Err(Error::ParseFailed), end: m.end }
            } else {
                Lexed { value: Ok(host_mechanism(id, macro_string, 32, 128)), end: m.end }
            },
            Err(e) => Lexed { value: Err(e), end: m.end },
        }
    } else if stop == SLASH {
        host_lengths_at(s, j, id, MacroView::Empty)
    } else {
        Lexed { value: Err(Error::ParseFailed), end: j }
    }
}

/// The rest of an `all` term: it takes no argument.
pub open spec fn all_term_at(j: int, stop: u8) -> Lexed<Result<TermView, Error>> {
    Lexed {
        value: if stop == SPACE {
            Ok(TermView::Directive(MechanismView::All))
        } else {
            Err(Error::ParseFailed)
        },
        end: j,
    }
}

/// The rest of an `include` or `exists` term: a colon and a domain, with
/// nothing behind it.
pub open spec fn domain_term_at(s: Seq<u8>, j: int, id: u64, stop: u8) -> Lexed<
    Result<TermView, Error>,
> {
    if stop != COLON {
        Lexed { value: Err(Error::ParseFailed), end: j }
    } else {
        let m = macro_at(s, j, false);
        Lexed {
            value: match m.value {
                Ok((macro_string, stop2)) => if stop2 == SPACE {
                    Ok(
                        TermView::Directive(
                            if id == INCLUDE {
                                MechanismView::Include { macro_string }
                            } else {
                                MechanismView::Exists { macro_string }
                            },
                        ),
                    )
                } else {
                    Err(Error::ParseFailed)
                },
                Err(e) => Err(e),
            },
            end: m.end,
        }
    }
}

/// The prefix length at index `j`, behind the slash of an address of the
/// family whose maximum is `max`: the written length if it is smaller than
/// the maximum, and the maximum where the written length is larger or no
/// digit is written.
pub open spec fn address_length_at(s: Seq<u8>, j: int, max: u8) -> Lexed<Result<u8, Error>> {
    let c = cidr_length_at(s, j);
    Lexed {
        value: match c.value {
            Ok(length) => if 0 <= j < s.len() && is_digit(s[j]) {
                Ok(clamp(length, max))
            } else {
                Ok(max)
            },
            Err(e) => Err(e),
        },
        end: c.end,
    }
}

/// The rest of an `ip4` term: a colon, an address, and a prefix length if a
/// slash follows. A length that is not written is 32.
pub open spec fn ip4_term_at(s: Seq<u8>, j: int, stop: u8) -> Lexed<Result<TermView, Error>> {
    if stop != COLON {
        Lexed { value: Err(Error::ParseFailed), end: j }
    } else {
        let a = ip4_at(s, j);
        match a.value {
            Ok((addr, stop2)) => if stop2 == SLASH {
                let c = address_length_at(s, a.end, 32);
                Lexed {
                    value: match c.value {
                        Ok(cidr_length) => Ok(
                            TermView::Directive(MechanismView::Ip4 { addr, cidr_length }),
                        ),
                        Err(e) => Err(e),
                    },
                    end: c.end,
                }
            } else if stop2 != SPACE {
                Lexed { value: Err(Error::ParseFailed), end: a.end }
            } else {
                Lexed {
                    value: Ok(TermView::Directive(MechanismView::Ip4 { addr, cidr_length: 32 })),
                    end: a.end,
                }
            },
            Err(e) => Lexed { value: Err(e), end: a.end },
        }
    }
}

/// The rest of an `ip6` term: a colon, an address, and a prefix length if a
/// slash follows. A length that is not written is 128.
pub open spec fn ip6_term_at(s: Seq<u8>, j: int, stop: u8) -> Lexed<Result<TermView, Error>> {
    if stop != COLON {
        Lexed { value: Err(Error::ParseFailed), end: j }
    } else {
        let a = ip6_at(s, j);
        match a.value {
            Ok((addr, stop2)) => if stop2 == SLASH {
                let c = address_length_at(s, a.end, 128);
                Lexed {
                    value: match c.value {
                        Ok(cidr_length) => Ok(
                            TermView::Directive(MechanismView::Ip6 { addr, cidr_length }),
                        ),
                        Err(e) => Err(e),
                    },
                    end: c.end,
                }
            } else if stop2 != SPACE {
                Lexed { value: Err(Error::ParseFailed), end: a.end }
            } else {
                Lexed {
                    value: Ok(TermView::Directive(MechanismView::Ip6 { addr, cidr_length: 128 })),
                    end: a.end,
                }
            },
            Err(e) => Lexed { value: Err(e), end: a.end },
        }
    }
}

/// The rest of a `ptr` term: nothing, or a colon and a domain.
pub open spec fn ptr_term_at(s: Seq<u8>, j: int, stop: u8) -> Lexed<Result<TermView, Error>> {
    if stop == COLON {
        let m = macro_at(s, j, false);
        Lexed {
            value: match m.value {
                Ok((macro_string, stop2)) => if stop2 == SPACE {
                    Ok(TermView::Directive(MechanismView::Ptr { macro_string }))
                } else {
                    Err(Error::ParseFailed)
                },
                Err(e) => Err(e),
            },
            end: m.end,
        }
    } else {
        Lexed {
            value: if stop == SPACE {
                Ok(TermView::Directive(MechanismView::Ptr { macro_string: MacroView::Empty }))
            } else {
                Err(Error::ParseFailed)
            },
            end: j,
        }
    }
}

/// The rest of an `exp` or `redirect` term: an equals sign and a
/// macro-string, with nothing behind it.
pub open spec fn modifier_term_at(s: Seq<u8>, j: int, id: u64, stop: u8) -> Lexed<
    Result<TermView, Error>,
> {
    if stop != EQUALS {
        Lexed { value: Err(Error::ParseFailed), end: j }
    } else {
        let m = macro_at(s, j, false);
        Lexed {
            value: match m.value {
                Ok((macro_string, stop2)) => if stop2 == SPACE {
                    Ok(
                        TermView::Modifier(
                            if id == REDIRECT {
                                ModifierView::Redirect(macro_string)
                            } else {
                                ModifierView::Explanation(macro_string)
                            },
                        ),
                    )
                } else {
                    Err(Error::ParseFailed)
                },
                Err(e) => Err(e),
            },
            end: m.end,
        }
    }
}

/// The rest of a term with an unknown keyword. Its argument, if it has one,
/// is read as a macro-string and dropped; a malformed argument is an error
/// all the same.
pub open spec fn unknown_term_at(s: Seq<u8>, j: int, stop: u8) -> Lexed<Result<TermView, Error>> {
    if stop == SPACE {
        Lexed { value: Ok(TermView::Unknown), end: j }
    } else {
        let m = macro_at(s, j, false);
        Lexed {
            value: match m.value {
                Ok((_, stop2)) => if stop2 == SPACE {
                    Ok(TermView::Unknown)
                } else {
                    Err(Error::ParseFailed)
                },
                Err(e) => Err(e),
            },
            end: m.end,
        }
    }
}

/// The rest of the term whose keyword `id` ended on `stop` before index `j`.
pub open spec fn term_body_at(s: Seq<u8>, j: int, id: u64, stop: u8) -> Lexed<
    Result<TermView, Error>,
> {
    if id == A || id == MX {
        host_term_at(s, j, id, stop)
    } else if id == ALL {
        all_term_at(j, stop)
    } else if id == INCLUDE || id == EXISTS {
        domain_term_at(s, j, id, stop)
    } else if id == IP4 {
        ip4_term_at(s, j, stop)
    } else if id == IP6 {
        ip6_term_at(s, j, stop)
    } else if id == PTR {
        ptr_term_at(s, j, stop)
    } else if id == EXP || id == REDIRECT {
        modifier_term_at(s, j, id, stop)
    } else {
        unknown_term_at(s, j, stop)
    }
}

/// The rest of a term ends between its start and the end of the input.
pub proof fn lemma_term_body_end(s: Seq<u8>, j: int, id: u64, stop: u8)
    requires
        0 <= j <= s.len(),
    ensures
        j <= term_body_at(s, j, id, stop).end <= s.len(),
{
    let m = macro_at(s, j, false);
    lemma_macro_end(s, j, false, Seq::empty(), Seq::empty(), false);
    lemma_dual_cidr_length_end(s, j, None, None, false);
    lemma_dual_cidr_length_end(s, m.end, None, None, false);
    let a4 = ip4_at(s, j);
    lemma_ip4_end(s, j, Seq::empty(), 0);
    lemma_cidr_length_end(s, a4.end, 0);
    let a6 = ip6_at(s, j);
    lemma_ip6_end(s, j, ip6_start());
    lemma_cidr_length_end(s, a6.end, 0);
}

/// The record that the collected directives and modifiers make. A record
/// without any of them is none.
pub open spec fn record_value(directives: Seq<DirectiveView>, modifiers: Seq<ModifierView>) -> Result<
    SpfView,
    Error,
> {
    if directives.len() == 0 && modifiers.len() == 0 {
        Err(Error::ParseFailed)
    } else {
        Ok(SpfView { version: Version::Spf1, directives, modifiers })
    }
}

/// The record whose terms are written from index `i` on, behind the
/// directives and modifiers already read. Each term is added to its list in
/// the order of the record; the first error ends the reading.
pub open spec fn record_from(
    s: Seq<u8>,
    i: int,
    directives: Seq<DirectiveView>,
    modifiers: Seq<ModifierView>,
) -> Result<SpfView, Error>
    decreases s.len() - i,
    when 0 <= i <= s.len()
{
    let t = term_at(s, i);
    match t.value {
        None => record_value(directives, modifiers),
        Some((id, qualifier, stop)) => {
            let body = term_body_at(s, t.end, id, stop);
            proof {
                lemma_term_end(s, i, term_start());
                lemma_term_body_end(s, t.end, id, stop);
            }
            match body.value {
                Ok(TermView::Directive(mechanism)) => record_from(
                    s,
                    body.end,
                    directives.push(DirectiveView { qualifier, mechanism }),
                    modifiers,
                ),
                Ok(TermView::Modifier(modifier)) => record_from(
                    s,
                    body.end,
                    directives,
                    modifiers.push(modifier),
                ),
                Ok(TermView::Unknown) => record_from(s, body.end, directives, modifiers),
                Err(e) => Err(e),
            }
        },
    }
}

/// The version `spf1` stands at index `j`, in either case, and the input
/// ends or goes on with whitespace behind it.
pub open spec fn is_version_at(s: Seq<u8>, j: int) -> bool {
    &&& 0 <= j
    &&& j + 4 <= s.len()
    &&& to_lower(s[j]) == LOWER_S
    &&& to_lower(s[j + 1]) == LOWER_P
    &&& to_lower(s[j + 2]) == LOWER_F
    &&& s[j + 3] == DIGIT_1
    &&& (j + 4 == s.len() || is_whitespace(s[j + 4]))
}

/// The index of the first byte behind the version at index `j` and its
/// boundary.
pub open spec fn version_end(s: Seq<u8>, j: int) -> int {
    if j + 4 == s.len() {
        j + 4
    } else {
        j + 5
    }
}

/// The record that the bytes `s` write: the tag `v`, the version `spf1`
/// with its boundary, then the terms.
pub open spec fn record(s: Seq<u8>) -> Result<SpfView, Error> {
    let k = key_at(s, 0);
    if k.value != Some(V) {
        Err(Error::InvalidRecord)
    } else if !is_version_at(s, k.end) {
        Err(Error::InvalidVersion)
    } else {
        record_from(s, version_end(s, k.end), Seq::empty(), Seq::empty())
    }
}

/// A record as the parser returns it, against the same in the mathematical
/// model.
pub open spec fn record_result_is(r: Result<SPF, Error>, model: Result<SpfView, Error>) -> bool {
    match r {
        Ok(spf) => model == Ok::<SpfView, Error>(spf@),
        Err(e) => model == Err::<SpfView, Error>(e),
    }
}

fn host(id: u64, macro_string: Macro, ip4: u8, ip6: u8) -> (t: Term)
    ensures
        t@ == host_mechanism(id, macro_string@, ip4, ip6),
{
    Term::Directive(
        if id == A {
            Mechanism::A { macro_string, ip4_cidr_length: ip4, ip6_cidr_length: ip6 }
        } else {
            Mechanism::Mx { macro_string, ip4_cidr_length: ip4, ip6_cidr_length: ip6 }
        },
    )
}

impl<'a> Cursor<'a> {
    fn host_lengths(&mut self, id: u64, macro_string: Macro) -> (r: Result<Term, Error>)
        requires
            old(self).wf(),
        ensures
            final(self).advanced_from(old(self)),
            final(self).index() == host_lengths_at(
                old(self).input(),
                old(self).index(),
                id,
                macro_string@,
            ).end,
            term_result_is(
                r,
                host_lengths_at(old(self).input(), old(self).index(), id, macro_string@).value,
            ),
    {
        match self.dual_cidr_length() {
            Ok((ip4, ip6)) => Ok(host(id, macro_string, ip4, ip6)),
            Err(e) => Err(e),
        }
    }

    fn host_term(&mut self, id: u64, stop: u8) -> (r: Result<Term, Error>)
        requires
            old(self).wf(),
        ensures
            final(self).advanced_from(old(self)),
            final(self).index() == host_term_at(old(self).input(), old(self).index(), id, stop).end,
            term_result_is(r, host_term_at(old(self).input(), old(self).index(), id, stop).value),
    {
        if stop == SPACE {
            Ok(host(id, Macro::Empty, 32, 128))
        } else if stop == COLON || stop == EQUALS {
            match self.macro_string(false) {
                Ok((macro_string, stop2)) => {
                    if stop2 == SLASH {
                        self.host_lengths(id, macro_string)
                    } else if stop2 != SPACE {
                        Err(Error::ParseFailed)
                    } else {
                        Ok(host(id, macro_string, 32, 128))
                    }
                },
                Err(e) => Err(e),
            }
        } else if stop == SLASH {
            self.host_lengths(id, Macro::Empty)
        } else {
            Err(Error::ParseFailed)
        }
    }

    fn domain_term(&mut self, id: u64, stop: u8) -> (r: Result<Term, Error>)
        requires
            old(self).wf(),
        ensures
            final(self).advanced_from(old(self)),
            final(self).index() == domain_term_at(
                old(self).input(),
                old(self).index(),
                id,
                stop,
            ).end,
            term_result_is(r, domain_term_at(old(self).input(), old(self).index(), id, stop).value),
    {
        if stop != COLON {
            return Err(Error::ParseFailed);
        }
        match self.macro_string(false) {
            Ok((macro_string, stop2)) => {
                if stop2 == SPACE {
                    Ok(
                        Term::Directive(
                            if id == INCLUDE {
                                Mechanism::Include { macro_string }
                            } else {
                                Mechanism::Exists { macro_string }
                            },
                        ),
                    )
                } else {
                    Err(Error::ParseFailed)
                }
            },
            Err(e) => Err(e),
        }
    }

    /// Reads the prefix length of an address of the family whose maximum
    /// is `max`: the written length, the maximum where the written length
    /// is larger, and the maximum where no digit is written.
    pub fn address_length(&mut self, max: u8) -> (r: Result<u8, Error>)
        requires
            old(self).wf(),
        ensures
            final(self).advanced_from(old(self)),
            final(self).index() == address_length_at(old(self).input(), old(self).index(), max).end,
            r == address_length_at(old(self).input(), old(self).index(), max).value,
    {
        let written = self.pos < self.bytes.len() && byte_is_digit(self.bytes[self.pos]);
        match self.cidr_length() {
            Ok(length) => Ok(if written && length < max { length } else { max }),
            Err(e) => Err(e),
        }
    }

    fn ip4_term(&mut self, stop: u8) -> (r: Result<Term, Error>)
        requires
            old(self).wf(),
        ensures
            final(self).advanced_from(old(self)),
            final(self).index() == ip4_term_at(old(self).input(), old(self).index(), stop).end,
            term_result_is(r, ip4_term_at(old(self).input(), old(self).index(), stop).value),
    {
        if stop != COLON {
            return Err(Error::ParseFailed);
        }
        match self.ip4() {
            Ok((addr, stop2)) => {
                if stop2 == SLASH {
                    match self.address_length(32) {
                        Ok(cidr_length) => Ok(Term::Directive(Mechanism::Ip4 { addr, cidr_length })),
                        Err(e) => Err(e),
                    }
                } else if stop2 != SPACE {
                    Err(Error::ParseFailed)
                } else {
                    Ok(Term::Directive(Mechanism::Ip4 { addr, cidr_length: 32 }))
                }
            },
            Err(e) => Err(e),
        }
    }

    fn ip6_term(&mut self, stop: u8) -> (r: Result<Term, Error>)
        requires
            old(self).wf(),
        ensures
            final(self).advanced_from(old(self)),
            final(self).index() == ip6_term_at(old(self).input(), old(self).index(), stop).end,
            term_result_is(r, ip6_term_at(old(self).input(), old(self).index(), stop).value),
    {
        if stop != COLON {
            return Err(Error::ParseFailed);
        }
        match self.ip6() {
            Ok((addr, stop2)) => {
                if stop2 == SLASH {
                    match self.address_length(128) {
                        Ok(cidr_length) => Ok(Term::Directive(Mechanism::Ip6 { addr, cidr_length })),
                        Err(e) => Err(e),
                    }
                } else if stop2 != SPACE {
                    Err(Error::ParseFailed)
                } else {
                    Ok(Term::Directive(Mechanism::Ip6 { addr, cidr_length: 128 }))
                }
            },
            Err(e) => Err(e),
        }
    }

    fn ptr_term(&mut self, stop: u8) -> (r: Result<Term, Error>)
        requires
            old(self).wf(),
        ensures
            final(self).advanced_from(old(self)),
            final(self).index() == ptr_term_at(old(self).input(), old(self).index(), stop).end,
            term_result_is(r, ptr_term_at(old(self).input(), old(self).index(), stop).value),
    {
        if stop == COLON {
            match self.macro_string(false) {
                Ok((macro_string, stop2)) => {
                    if stop2 == SPACE {
                        Ok(Term::Directive(Mechanism::Ptr { macro_string }))
                    } else {
                        Err(Error::ParseFailed)
                    }
                },
                Err(e) => Err(e),
            }
        } else if stop == SPACE {
            Ok(Term::Directive(Mechanism::Ptr { macro_string: Macro::Empty }))
        } else {
            Err(Error::ParseFailed)
        }
    }

    fn modifier_term(&mut self, id: u64, stop: u8) -> (r: Result<Term, Error>)
        requires
            old(self).wf(),
        ensures
            final(self).advanced_from(old(self)),
            final(self).index() == modifier_term_at(
                old(self).input(),
                old(self).index(),
                id,
                stop,
            ).end,
            term_result_is(
                r,
                modifier_term_at(old(self).input(), old(self).index(), id, stop).value,
            ),
    {
        if stop != EQUALS {
            return Err(Error::ParseFailed);
        }
        match self.macro_string(false) {
            Ok((macro_string, stop2)) => {
                if stop2 == SPACE {
                    Ok(
                        Term::Modifier(
                            if id == REDIRECT {
                                Modifier::Redirect(macro_string)
                            } else {
                                Modifier::Explanation(macro_string)
                            },
                        ),
                    )
                } else {
                    Err(Error::ParseFailed)
                }
            },
            Err(e) => Err(e),
        }
    }

    fn unknown_term(&mut self, stop: u8) -> (r: Result<Term, Error>)
        requires
            old(self).wf(),
        ensures
            final(self).advanced_from(old(self)),
            final(self).index() == unknown_term_at(old(self).input(), old(self).index(), stop).end,
            term_result_is(r, unknown_term_at(old(self).input(), old(self).index(), stop).value),
    {
        if stop == SPACE {
            return Ok(Term::Unknown);
        }
        match self.macro_string(false) {
            Ok((_, stop2)) => {
                if stop2 == SPACE {
                    Ok(Term::Unknown)
                } else {
                    Err(Error::ParseFailed)
                }
            },
            Err(e) => Err(e),
        }
    }

    /// Reads what follows the keyword `id` of a term, which ended on `stop`.
    pub fn term_body(&mut self, id: u64, stop: u8) -> (r: Result<Term, Error>)
        requires
            old(self).wf(),
        ensures
            final(self).advanced_from(old(self)),
            final(self).index() == term_body_at(old(self).input(), old(self).index(), id, stop).end,
            term_result_is(r, term_body_at(old(self).input(), old(self).index(), id, stop).value),
    {
        if id == A || id == MX {
            self.host_term(id, stop)
        } else if id == ALL {
            if stop == SPACE {
                Ok(Term::Directive(Mechanism::All))
            } else {
                Err(Error::ParseFailed)
            }
        } else if id == INCLUDE || id == EXISTS {
            self.domain_term(id, stop)
        } else if id == IP4 {
            self.ip4_term(stop)
        } else if id == IP6 {
            self.ip6_term(stop)
        } else if id == PTR {
            self.ptr_term(stop)
        } else if id == EXP || id == REDIRECT {
            self.modifier_term(id, stop)
        } else {
            self.unknown_term(stop)
        }
    }

    /// Reads the version `spf1` and the boundary behind it.
    fn version(&mut self) -> (ok: bool)
        requires
            old(self).wf(),
        ensures
            final(self).advanced_from(old(self)),
            ok == is_version_at(old(self).input(), old(self).index()),
            ok ==> final(self).index() == version_end(old(self).input(), old(self).index()),
    {
        let matched = match self.next() {
            Some(ch) => byte_to_lower(ch) == LOWER_S,
            None => false,
        } && match self.next() {
            Some(ch) => byte_to_lower(ch) == LOWER_P,
            None => false,
        } && match self.next() {
            Some(ch) => byte_to_lower(ch) == LOWER_F,
            None => false,
        } && match self.next() {
            Some(ch) => ch == DIGIT_1,
            None => false,
        };
        matched && match self.next() {
            Some(ch) => byte_is_whitespace(ch),
            None => true,
        }
    }
}

impl SPF {
    /// Parses the value of a DNS TXT record as an SPF record.
    ///
    /// The result is the record that the bytes write under the grammar. A
    /// record that parses has at least one directive or modifier, prefix
    /// lengths within 32 and 128, and proper macro-strings.
    pub fn parse(bytes: &[u8]) -> (r: Result<SPF, Error>)
        ensures
            record_result_is(r, record(bytes@)),
            r matches Ok(spf) ==> spf@.wf(),
    {
        let mut cursor = Cursor::new(bytes);
        match cursor.key() {
            Some(k) => {
                if k != V {
                    return Err(Error::InvalidRecord);
                }
            },
            None => {
                return Err(Error::InvalidRecord);
            },
        }
        if !cursor.version() {
            return Err(Error::InvalidVersion);
        }
        let mut directives: Vec<Directive> = Vec::new();
        let mut modifiers: Vec<Modifier> = Vec::new();
        assert(directive_views(directives@) =~= Seq::<DirectiveView>::empty());
        assert(modifier_views(modifiers@) =~= Seq::<ModifierView>::empty());
        loop
            invariant
                cursor.wf(),
                cursor.input() == bytes@,
                key_at(bytes@, 0).value == Some(V),
                is_version_at(bytes@, key_at(bytes@, 0).end),
                record(bytes@) == record_from(
                    bytes@,
                    cursor.index(),
                    directive_views(directives@),
                    modifier_views(modifiers@),
                ),
            decreases bytes@.len() - cursor.index(),
        {
            let ghost i = cursor.index();
            let ghost before_directives = directive_views(directives@);
            let ghost before_modifiers = modifier_views(modifiers@);
            proof {
                lemma_term_end(bytes@, i, term_start());
            }
            match cursor.next_term() {
                None => {
                    return if directives.len() == 0 && modifiers.len() == 0 {
                        Err(Error::ParseFailed)
                    } else {
                        let spf = SPF { version: Version::Spf1, directives, modifiers };
                        proof {
                            lemma_record_wf(bytes@);
                        }
                        Ok(spf)
                    };
                },
                Some((id, qualifier, stop)) => {
                    proof {
                        lemma_term_body_end(bytes@, cursor.index(), id, stop);
                    }
                    match cursor.term_body(id, stop) {
                        Ok(Term::Directive(mechanism)) => {
                            directives.push(Directive::new(qualifier, mechanism));
                            assert(directive_views(directives@) =~= before_directives.push(
                                DirectiveView { qualifier, mechanism: mechanism@ },
                            ));
                        },
                        Ok(Term::Modifier(modifier)) => {
                            modifiers.push(modifier);
                            assert(modifier_views(modifiers@) =~= before_modifiers.push(modifier@));
                        },
                        Ok(Term::Unknown) => {},
                        Err(e) => {
                            return Err(e);
                        },
                    }
                },
            }
        }
    }
}

} // verus!
