//! The macro-string grammar: literal text with `%{...}` references to the
//! variables of the transaction.

use vstd::prelude::*;
use crate::common::ascii::{
    byte_is_digit, byte_is_upper, byte_is_whitespace, byte_to_lower, digit_value, is_digit,
    is_upper, is_whitespace, to_lower, CLOSE_BRACE, COMMA, DIGIT_0, DIGIT_2, DOT, EQUALS, LOWER_C,
    LOWER_D, LOWER_H, LOWER_I, LOWER_L, LOWER_O, LOWER_P, LOWER_R, LOWER_S, LOWER_T, LOWER_V,
    MINUS, OPEN_BRACE, PERCENT, PLUS, SLASH, SPACE, UNDERSCORE, UPPER_R,
};
use crate::common::cursor::{Cursor, Lexed};
use crate::spf::{Error, Macro, MacroView, Variable};

verus! {

/// The variable that a lower-case letter names in a mechanism or modifier.
pub open spec fn variable_of(ch: u8) -> Option<Variable> {
    if ch == LOWER_S {
        Some(Variable::Sender)
    } else if ch == LOWER_L {
        Some(Variable::SenderLocalPart)
    } else if ch == LOWER_O {
        Some(Variable::SenderDomainPart)
    } else if ch == LOWER_D {
        Some(Variable::Domain)
    } else if ch == LOWER_I {
        Some(Variable::Ip)
    } else if ch == LOWER_P {
        Some(Variable::ValidatedDomain)
    } else if ch == LOWER_V {
        Some(Variable::IpVersion)
    } else if ch == LOWER_H {
        Some(Variable::HeloDomain)
    } else {
        None
    }
}

/// The variable that a lower-case letter names in an explanation, where
/// `c`, `r` and `t` are known too.
pub open spec fn exp_variable_of(ch: u8) -> Option<Variable> {
    if ch == LOWER_C {
        Some(Variable::SmtpIp)
    } else if ch == LOWER_R {
        Some(Variable::HostDomain)
    } else if ch == LOWER_T {
        Some(Variable::CurrentTime)
    } else {
        variable_of(ch)
    }
}

/// The variable that a letter of either case names, and whether its value
/// is to be URL-escaped, which the upper case asks for.
pub open spec fn variable_letter(ch: u8) -> Option<(Variable, bool)> {
    if variable_of(ch) is Some {
        Some((variable_of(ch)->Some_0, false))
    } else if is_upper(ch) && variable_of(to_lower(ch)) is Some {
        Some((variable_of(to_lower(ch))->Some_0, true))
    } else {
        None
    }
}

/// The same for the letters of an explanation.
pub open spec fn exp_variable_letter(ch: u8) -> Option<(Variable, bool)> {
    if exp_variable_of(ch) is Some {
        Some((exp_variable_of(ch)->Some_0, false))
    } else if is_upper(ch) && exp_variable_of(to_lower(ch)) is Some {
        Some((exp_variable_of(to_lower(ch))->Some_0, true))
    } else {
        None
    }
}

/// One of the seven bytes that can split a variable's value into parts.
pub open spec fn is_delimiter(ch: u8) -> bool {
    ch == DOT || ch == MINUS || ch == PLUS || ch == COMMA || ch == SLASH || ch == UNDERSCORE || ch
        == EQUALS
}

/// The bit of a delimiter in a delimiter set: bit number `ch - '+'`.
pub open spec fn delimiter_bit(ch: u8) -> u64 {
    if ch == PLUS {
        0x1
    } else if ch == COMMA {
        0x2
    } else if ch == MINUS {
        0x4
    } else if ch == DOT {
        0x8
    } else if ch == SLASH {
        0x10
    } else if ch == EQUALS {
        0x4_0000
    } else if ch == UNDERSCORE {
        0x10_0000_0000_0000
    } else {
        0
    }
}

/// The bit of a delimiter is the one whose number is the distance of the
/// delimiter from `+`.
pub proof fn lemma_delimiter_bit(ch: u8)
    requires
        is_delimiter(ch),
    ensures
        delimiter_bit(ch) == 1u64 << ((ch - PLUS) as u64),
{
    assert(1u64 << 0u64 == 0x1) by (bit_vector);
    assert(1u64 << 1u64 == 0x2) by (bit_vector);
    assert(1u64 << 2u64 == 0x4) by (bit_vector);
    assert(1u64 << 3u64 == 0x8) by (bit_vector);
    assert(1u64 << 4u64 == 0x10) by (bit_vector);
    assert(1u64 << 18u64 == 0x4_0000) by (bit_vector);
    assert(1u64 << 52u64 == 0x10_0000_0000_0000) by (bit_vector);
}

/// A decimal digit appended to a number of parts, which stays at the
/// largest `u32` once it would pass it.
pub open spec fn push_part_digit(acc: u32, ch: u8) -> u32 {
    if acc * 10 + digit_value(ch) > u32::MAX {
        u32::MAX
    } else {
        (acc * 10 + digit_value(ch)) as u32
    }
}

/// What has been read of a variable reference behind its letter.
pub struct VarState {
    pub letter: Variable,
    pub escape: bool,
    pub num_parts: u32,
    pub reverse: bool,
    pub delimiters: u64,
}

/// The fragment that a reference closed in state `st` stands for. A
/// reference that names no delimiter splits at dots.
pub open spec fn variable_value(st: VarState) -> MacroView {
    MacroView::Variable {
        letter: st.letter,
        num_parts: st.num_parts,
        reverse: st.reverse,
        escape: st.escape,
        delimiters: if st.delimiters == 0 {
            delimiter_bit(DOT)
        } else {
            st.delimiters
        },
    }
}

/// The rest of a variable reference, from index `i` on: digits give the
/// number of parts, `r` asks for reversal, delimiters join the set, and a
/// closing brace ends the reference. Any other byte is an error, and so is
/// the end of the input.
pub open spec fn variable_from(s: Seq<u8>, i: int, st: VarState) -> Lexed<Result<MacroView, Error>>
    decreases s.len() - i,
{
    if i < 0 || i >= s.len() {
        Lexed { value: Err(Error::InvalidMacro), end: i }
    } else if is_digit(s[i]) {
        variable_from(s, i + 1, VarState { num_parts: push_part_digit(st.num_parts, s[i]), ..st })
    } else if s[i] == LOWER_R || s[i] == UPPER_R {
        variable_from(s, i + 1, VarState { reverse: true, ..st })
    } else if s[i] == CLOSE_BRACE {
        Lexed { value: Ok(variable_value(st)), end: i + 1 }
    } else if is_delimiter(s[i]) {
        variable_from(
            s,
            i + 1,
            VarState { delimiters: st.delimiters | delimiter_bit(s[i]), ..st },
        )
    } else {
        Lexed { value: Err(Error::InvalidMacro), end: i + 1 }
    }
}

/// The variable reference whose letter stands at index `i`, just behind the
/// opening brace.
pub open spec fn variable_at(s: Seq<u8>, i: int, is_exp: bool) -> Lexed<Result<MacroView, Error>> {
    if i < 0 || i >= s.len() {
        Lexed { value: Err(Error::InvalidMacro), end: i }
    } else {
        let letter = if is_exp {
            exp_variable_letter(s[i])
        } else {
            variable_letter(s[i])
        };
        match letter {
            Some((letter, escape)) => variable_from(
                s,
                i + 1,
                VarState { letter, escape, num_parts: 0, reverse: false, delimiters: 0 },
            ),
            None => Lexed { value: Err(Error::InvalidMacro), end: i + 1 },
        }
    }
}

/// The rest of a reference ends nowhere before its start, and within the
/// input if it starts there.
pub proof fn lemma_variable_from_end(s: Seq<u8>, i: int, st: VarState)
    requires
        0 <= i,
    ensures
        i <= variable_from(s, i, st).end,
        variable_from(s, i, st).end <= s.len() || variable_from(s, i, st).end == i,
    decreases s.len() - i,
{
    if i < s.len() {
        if is_digit(s[i]) {
            lemma_variable_from_end(
                s,
                i + 1,
                VarState { num_parts: push_part_digit(st.num_parts, s[i]), ..st },
            );
        } else if s[i] == LOWER_R || s[i] == UPPER_R {
            lemma_variable_from_end(s, i + 1, VarState { reverse: true, ..st });
        } else if s[i] == CLOSE_BRACE {
        } else if is_delimiter(s[i]) {
            lemma_variable_from_end(
                s,
                i + 1,
                VarState { delimiters: st.delimiters | delimiter_bit(s[i]), ..st },
            );
        }
    }
}

/// A reference ends nowhere before its start, and within the input if it
/// starts there.
pub proof fn lemma_variable_at_end(s: Seq<u8>, i: int, is_exp: bool)
    requires
        0 <= i,
    ensures
        i <= variable_at(s, i, is_exp).end,
        variable_at(s, i, is_exp).end <= s.len() || variable_at(s, i, is_exp).end == i,
{
    if i < s.len() {
        let letter = if is_exp {
            exp_variable_letter(s[i])
        } else {
            variable_letter(s[i])
        };
        if let Some((letter, escape)) = letter {
            lemma_variable_from_end(
                s,
                i + 1,
                VarState { letter, escape, num_parts: 0, reverse: false, delimiters: 0 },
            );
        }
    }
}

/// The fragments read so far with the pending literal text, if any, as the
/// last of them.
pub open spec fn flush(frags: Seq<MacroView>, lit: Seq<u8>) -> Seq<MacroView> {
    if lit.len() > 0 {
        frags.push(MacroView::Literal(lit))
    } else {
        frags
    }
}

/// The macro-string that ends with fragments `frags` and pending literal
/// text `lit` on `stop`: no fragment at all is an error, a single fragment
/// stands for itself, several make a list.
pub open spec fn macro_value(frags: Seq<MacroView>, lit: Seq<u8>, stop: u8) -> Result<
    (MacroView, u8),
    Error,
> {
    let all = flush(frags, lit);
    if all.len() == 0 {
        Err(Error::ParseFailed)
    } else if all.len() == 1 {
        Ok((all[0], stop))
    } else {
        Ok((MacroView::List(all), stop))
    }
}

/// The text that `%-` stands for: `%20`.
pub open spec fn escaped_space() -> Seq<u8> {
    seq![PERCENT, DIGIT_2, DIGIT_0]
}

/// The macro-string written from index `i` on. `frags` holds the fragments
/// that are complete, `lit` the literal text read since, and `pct` says that
/// the byte before was a percent sign that opens an escape.
///
/// After a percent sign, `%`, `_` and `-` stand for a percent sign, a space
/// and `%20`, and `{` opens a variable reference, before which the pending
/// literal text becomes a fragment. Outside an explanation a slash ends the
/// macro-string and is its stop character, and so does whitespace, with a
/// space as stop character. Any other byte is literal text, unless it
/// follows a percent sign, where it is an error.
pub open spec fn macro_from(
    s: Seq<u8>,
    i: int,
    is_exp: bool,
    frags: Seq<MacroView>,
    lit: Seq<u8>,
    pct: bool,
) -> Lexed<Result<(MacroView, u8), Error>>
    decreases s.len() - i,
{
    if i < 0 || i >= s.len() {
        Lexed { value: macro_value(frags, lit, SPACE), end: i }
    } else if s[i] == PERCENT {
        if pct {
            macro_from(s, i + 1, is_exp, frags, lit.push(PERCENT), false)
        } else {
            macro_from(s, i + 1, is_exp, frags, lit, true)
        }
    } else if pct && s[i] == UNDERSCORE {
        macro_from(s, i + 1, is_exp, frags, lit.push(SPACE), false)
    } else if pct && s[i] == MINUS {
        macro_from(s, i + 1, is_exp, frags, lit + escaped_space(), false)
    } else if pct && s[i] == OPEN_BRACE {
        let var = variable_at(s, i + 1, is_exp);
        proof {
            lemma_variable_at_end(s, i + 1, is_exp);
        }
        match var.value {
            Ok(fragment) => macro_from(
                s,
                var.end,
                is_exp,
                flush(frags, lit).push(fragment),
                Seq::empty(),
                false,
            ),
            Err(e) => Lexed { value: Err(e), end: var.end },
        }
    } else if s[i] == SLASH && !is_exp {
        Lexed { value: macro_value(frags, lit, SLASH), end: i + 1 }
    } else if pct {
        Lexed { value: Err(Error::InvalidMacro), end: i + 1 }
    } else if !is_whitespace(s[i]) || is_exp {
        macro_from(s, i + 1, is_exp, frags, lit.push(s[i]), false)
    } else {
        Lexed { value: macro_value(frags, lit, SPACE), end: i + 1 }
    }
}

/// The macro-string written at index `i`, and its stop character.
pub open spec fn macro_at(s: Seq<u8>, i: int, is_exp: bool) -> Lexed<
    Result<(MacroView, u8), Error>,
> {
    macro_from(s, i, is_exp, Seq::empty(), Seq::empty(), false)
}

/// A macro-string ends between its start and the end of the input.
pub proof fn lemma_macro_end(
    s: Seq<u8>,
    i: int,
    is_exp: bool,
    frags: Seq<MacroView>,
    lit: Seq<u8>,
    pct: bool,
)
    requires
        0 <= i <= s.len(),
    ensures
        i <= macro_from(s, i, is_exp, frags, lit, pct).end <= s.len(),
    decreases s.len() - i,
{
    if i < s.len() {
        if s[i] == PERCENT {
            if pct {
                lemma_macro_end(s, i + 1, is_exp, frags, lit.push(PERCENT), false);
            } else {
                lemma_macro_end(s, i + 1, is_exp, frags, lit, true);
            }
        } else if pct && s[i] == UNDERSCORE {
            lemma_macro_end(s, i + 1, is_exp, frags, lit.push(SPACE), false);
        } else if pct && s[i] == MINUS {
            lemma_macro_end(s, i + 1, is_exp, frags, lit + escaped_space(), false);
        } else if pct && s[i] == OPEN_BRACE {
            let var = variable_at(s, i + 1, is_exp);
            lemma_variable_at_end(s, i + 1, is_exp);
            if let Ok(fragment) = var.value {
                lemma_macro_end(
                    s,
                    var.end,
                    is_exp,
                    flush(frags, lit).push(fragment),
                    Seq::empty(),
                    false,
                );
            }
        } else if s[i] == SLASH && !is_exp {
        } else if pct {
        } else if !is_whitespace(s[i]) || is_exp {
            lemma_macro_end(s, i + 1, is_exp, frags, lit.push(s[i]), false);
        }
    }
}

/// The values of a sequence of fragments.
pub open spec fn macro_views(items: Seq<Macro>) -> Seq<MacroView> {
    Seq::new(items.len(), |i: int| items[i]@)
}

/// A macro-string and stop character as the parser returns them, against
/// the same in the mathematical model.
pub open spec fn macro_result_is(
    r: Result<(Macro, u8), Error>,
    model: Result<(MacroView, u8), Error>,
) -> bool {
    match r {
        Ok((m, stop)) => model == Ok::<(MacroView, u8), Error>((m@, stop)),
        Err(e) => model == Err::<(MacroView, u8), Error>(e),
    }
}

impl Variable {
    fn lower(ch: u8) -> (r: Option<Variable>)
        ensures
            r == variable_of(ch),
    {
        if ch == LOWER_S {
            Some(Variable::Sender)
        } else if ch == LOWER_L {
            Some(Variable::SenderLocalPart)
        } else if ch == LOWER_O {
            Some(Variable::SenderDomainPart)
        } else if ch == LOWER_D {
            Some(Variable::Domain)
        } else if ch == LOWER_I {
            Some(Variable::Ip)
        } else if ch == LOWER_P {
            Some(Variable::ValidatedDomain)
        } else if ch == LOWER_V {
            Some(Variable::IpVersion)
        } else if ch == LOWER_H {
            Some(Variable::HeloDomain)
        } else {
            None
        }
    }

    fn lower_exp(ch: u8) -> (r: Option<Variable>)
        ensures
            r == exp_variable_of(ch),
    {
        if ch == LOWER_C {
            Some(Variable::SmtpIp)
        } else if ch == LOWER_R {
            Some(Variable::HostDomain)
        } else if ch == LOWER_T {
            Some(Variable::CurrentTime)
        } else {
            Variable::lower(ch)
        }
    }

    /// The variable that a letter names in a mechanism or modifier, and
    /// whether its value is to be escaped.
    pub fn parse(ch: u8) -> (r: Option<(Variable, bool)>)
        ensures
            r == variable_letter(ch),
    {
        match Variable::lower(ch) {
            Some(v) => Some((v, false)),
            None => {
                if byte_is_upper(ch) {
                    match Variable::lower(byte_to_lower(ch)) {
                        Some(v) => Some((v, true)),
                        None => None,
                    }
                } else {
                    None
                }
            },
        }
    }

    /// The variable that a letter names in an explanation, and whether its
    /// value is to be escaped.
    pub fn parse_exp(ch: u8) -> (r: Option<(Variable, bool)>)
        ensures
            r == exp_variable_letter(ch),
    {
        match Variable::lower_exp(ch) {
            Some(v) => Some((v, false)),
            None => {
                if byte_is_upper(ch) {
                    match Variable::lower_exp(byte_to_lower(ch)) {
                        Some(v) => Some((v, true)),
                        None => None,
                    }
                } else {
                    None
                }
            },
        }
    }
}

fn byte_is_delimiter(ch: u8) -> (b: bool)
    ensures
        b == is_delimiter(ch),
{
    ch == DOT || ch == MINUS || ch == PLUS || ch == COMMA || ch == SLASH || ch == UNDERSCORE || ch
        == EQUALS
}

fn delimiter_bit_of(ch: u8) -> (bit: u64)
    ensures
        bit == delimiter_bit(ch),
{
    if ch == PLUS {
        0x1
    } else if ch == COMMA {
        0x2
    } else if ch == MINUS {
        0x4
    } else if ch == DOT {
        0x8
    } else if ch == SLASH {
        0x10
    } else if ch == EQUALS {
        0x4_0000
    } else if ch == UNDERSCORE {
        0x10_0000_0000_0000
    } else {
        0
    }
}

fn append_part_digit(acc: u32, ch: u8) -> (r: u32)
    requires
        is_digit(ch),
    ensures
        r == push_part_digit(acc, ch),
{
    let wide: u64 = (acc as u64) * 10 + ((ch - DIGIT_0) as u64);
    if wide > 0xffff_ffff {
        0xffff_ffff
    } else {
        wide as u32
    }
}

/// The macro-string that the collected fragments and literal text make.
fn macro_result(frags: Vec<Macro>, literal: Vec<u8>, stop: u8) -> (r: Result<(Macro, u8), Error>)
    ensures
        macro_result_is(r, macro_value(macro_views(frags@), literal@, stop)),
{
    let mut frags = frags;
    let ghost before = macro_views(frags@);
    if literal.len() > 0 {
        frags.push(Macro::Literal(literal));
        assert(macro_views(frags@) =~= flush(before, literal@));
    }
    let ghost all = macro_views(frags@);
    if frags.len() == 0 {
        Err(Error::ParseFailed)
    } else if frags.len() == 1 {
        let single = frags.pop().unwrap();
        assert(single@ == all[0]);
        Ok((single, stop))
    } else {
        let list = Macro::List(frags);
        assert(list@ == MacroView::List(all)) by {
            assert(list@->List_0 =~= all);
        }
        Ok((list, stop))
    }
}

impl<'a> Cursor<'a> {
    /// Reads the variable reference whose letter is the next byte.
    fn variable(&mut self, is_exp: bool) -> (r: Result<Macro, Error>)
        requires
            old(self).wf(),
        ensures
            final(self).advanced_from(old(self)),
            final(self).index() == variable_at(old(self).input(), old(self).index(), is_exp).end,
            match r {
                Ok(m) => variable_at(old(self).input(), old(self).index(), is_exp).value == Ok::<
                    MacroView,
                    Error,
                >(m@),
                Err(e) => variable_at(old(self).input(), old(self).index(), is_exp).value == Err::<
                    MacroView,
                    Error,
                >(e),
            },
    {
        let ghost s = self.bytes@;
        let ghost start = self.pos as int;
        let first = match self.next() {
            Some(ch) => if is_exp {
                Variable::parse_exp(ch)
            } else {
                Variable::parse(ch)
            },
            None => {
                return Err(Error::InvalidMacro);
            },
        };
        let (letter, escape) = match first {
            Some(pair) => pair,
            None => {
                return Err(Error::InvalidMacro);
            },
        };
        let mut num_parts: u32 = 0;
        let mut reverse = false;
        let mut delimiters: u64 = 0;
        loop
            invariant
                self.wf(),
                s == old(self).bytes@,
                start == old(self).pos,
                self.bytes@ == s,
                start < self.pos,
                variable_at(s, start, is_exp) == variable_from(
                    s,
                    self.pos as int,
                    VarState { letter, escape, num_parts, reverse, delimiters },
                ),
            decreases s.len() - self.pos,
        {
            match self.next() {
                None => {
                    return Err(Error::InvalidMacro);
                },
                Some(ch) => {
                    if byte_is_digit(ch) {
                        num_parts = append_part_digit(num_parts, ch);
                    } else if ch == LOWER_R || ch == UPPER_R {
                        reverse = true;
                    } else if ch == CLOSE_BRACE {
                        if delimiters == 0 {
                            delimiters = delimiter_bit_of(DOT);
                        }
                        return Ok(Macro::Variable { letter, num_parts, reverse, escape, delimiters });
                    } else if byte_is_delimiter(ch) {
                        delimiters = delimiters | delimiter_bit_of(ch);
                    } else {
                        return Err(Error::InvalidMacro);
                    }
                },
            }
        }
    }

    /// Reads a macro-string. In an explanation (`is_exp`) it runs to the end
    /// of the input; elsewhere a slash or whitespace ends it.
    pub fn macro_string(&mut self, is_exp: bool) -> (r: Result<(Macro, u8), Error>)
        requires
            old(self).wf(),
        ensures
            final(self).advanced_from(old(self)),
            final(self).index() == macro_at(old(self).input(), old(self).index(), is_exp).end,
            macro_result_is(r, macro_at(old(self).input(), old(self).index(), is_exp).value),
    {
        let ghost s = self.bytes@;
        let ghost start = self.pos as int;
        let mut pct = false;
        let mut literal: Vec<u8> = Vec::new();
        let mut frags: Vec<Macro> = Vec::new();
        assert(macro_views(frags@) =~= Seq::<MacroView>::empty());
        assert(literal@ =~= Seq::<u8>::empty());
        loop
            invariant
                self.wf(),
                s == old(self).bytes@,
                start == old(self).pos,
                self.bytes@ == s,
                start <= self.pos,
                macro_at(s, start, is_exp) == macro_from(
                    s,
                    self.pos as int,
                    is_exp,
                    macro_views(frags@),
                    literal@,
                    pct,
                ),
            decreases s.len() - self.pos,
        {
            match self.next() {
                None => {
                    return macro_result(frags, literal, SPACE);
                },
                Some(ch) => {
                    if ch == PERCENT {
                        if pct {
                            literal.push(PERCENT);
                            pct = false;
                        } else {
                            pct = true;
                        }
                    } else if pct && ch == UNDERSCORE {
                        literal.push(SPACE);
                        pct = false;
                    } else if pct && ch == MINUS {
                        let ghost before = literal@;
                        literal.push(PERCENT);
                        literal.push(DIGIT_2);
                        literal.push(DIGIT_0);
                        assert(literal@ =~= before + escaped_space());
                        pct = false;
                    } else if pct && ch == OPEN_BRACE {
                        let ghost views = macro_views(frags@);
                        let ghost text = literal@;
                        if literal.len() > 0 {
                            frags.push(Macro::Literal(literal));
                            literal = Vec::new();
                        }
                        assert(macro_views(frags@) =~= flush(views, text));
                        let ghost flushed = macro_views(frags@);
                        match self.variable(is_exp) {
                            Ok(fragment) => {
                                frags.push(fragment);
                                assert(macro_views(frags@) =~= flushed.push(fragment@));
                                assert(literal@ =~= Seq::<u8>::empty());
                            },
                            Err(e) => {
                                return Err(e);
                            },
                        }
                        pct = false;
                    } else if ch == SLASH && !is_exp {
                        return macro_result(frags, literal, SLASH);
                    } else if pct {
                        return Err(Error::InvalidMacro);
                    } else if !byte_is_whitespace(ch) || is_exp {
                        literal.push(ch);
                    } else {
                        return macro_result(frags, literal, SPACE);
                    }
                },
            }
        }
    }
}

} // verus!
