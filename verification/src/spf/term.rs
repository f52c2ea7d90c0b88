//! The term lexer: the qualifier and the keyword of one directive or
//! modifier, the keyword packed into an integer.

use vstd::prelude::*;
use crate::common::ascii::{
    byte_is_lower, byte_is_upper, byte_is_whitespace, is_lower, is_upper, is_whitespace, COLON,
    DIGIT_4, DIGIT_6, EQUALS, MINUS, PLUS, QUESTION, SLASH, SPACE, TILDE,
};
use crate::common::cursor::{Cursor, Lexed};
use crate::common::tag::{
    lemma_packed_word_push, nothing_packed, pack, pack_byte, packed, packed_wf, packed_word,
    unmatched, Packed, UNMATCHED,
};
use crate::spf::Qualifier;

verus! {

/// The keyword `a`.
pub const A: u64 = 0x61;

/// The keyword `mx`.
pub const MX: u64 = 0x786d;

/// The keyword `all`.
pub const ALL: u64 = 0x6c6c61;

/// The keyword `ptr`.
pub const PTR: u64 = 0x727470;

/// The keyword `ip4`.
pub const IP4: u64 = 0x347069;

/// The keyword `ip6`.
pub const IP6: u64 = 0x367069;

/// The keyword `exp`.
pub const EXP: u64 = 0x707865;

/// The keyword `exists`.
pub const EXISTS: u64 = 0x737473697865;

/// The keyword `include`.
pub const INCLUDE: u64 = 0x6564756c636e69;

/// The keyword `redirect`.
pub const REDIRECT: u64 = 0x7463657269646572;

/// A character that a keyword may hold: a letter, `4` or `6`.
pub open spec fn is_keyword_char(ch: u8) -> bool {
    is_lower(ch) || is_upper(ch) || ch == DIGIT_4 || ch == DIGIT_6
}

/// The qualifier that a prefix symbol stands for.
pub open spec fn qualifier_of(ch: u8) -> Option<Qualifier> {
    if ch == PLUS {
        Some(Qualifier::Pass)
    } else if ch == MINUS {
        Some(Qualifier::Fail)
    } else if ch == TILDE {
        Some(Qualifier::SoftFail)
    } else if ch == QUESTION {
        Some(Qualifier::Neutral)
    } else {
        None
    }
}

/// A byte that ends a keyword and announces an argument.
pub open spec fn is_term_stop(ch: u8) -> bool {
    ch == COLON || ch == EQUALS || ch == SLASH
}

/// What has been read of a term.
pub struct TermState {
    pub keyword: Packed,
    pub qualifier: Qualifier,
}

/// The state in which the keyword `keyword` and `qualifier` have been read.
pub open spec fn term_state(keyword: Packed, qualifier: Qualifier) -> TermState {
    TermState { keyword, qualifier }
}

pub open spec fn term_start() -> TermState {
    TermState { keyword: nothing_packed(), qualifier: Qualifier::Pass }
}

/// The term that ends in state `st` at the end of the input or on
/// whitespace, if any keyword was read.
pub open spec fn term_value(st: TermState, stop: u8) -> Option<(u64, Qualifier, u8)> {
    if st.keyword.id != 0 {
        Some((st.keyword.id, st.qualifier, stop))
    } else {
        None
    }
}

/// The term that ends in state `st` on the stop character `stop` of an
/// argument. An argument without a keyword before it belongs to no known
/// term: its keyword is unmatched.
pub open spec fn argument_term(st: TermState, stop: u8) -> Option<(u64, Qualifier, u8)> {
    if st.keyword.id != 0 {
        Some((st.keyword.id, st.qualifier, stop))
    } else {
        Some((UNMATCHED, st.qualifier, stop))
    }
}

/// The term written from index `i` on, `st` being what was read before.
///
/// Up to eight keyword characters are packed into the identifier, in lower
/// case. Before the first of them a qualifier symbol sets the qualifier and
/// whitespace is skipped. A colon, an equals sign or a slash ends the term
/// and is its stop character; so does whitespace behind a keyword, with a
/// space as stop character, and the end of the input. Any other byte, a
/// ninth keyword character too, makes the keyword unmatched, and so does an
/// argument that no keyword stands before. There is no term only where the
/// input ends before any keyword.
pub open spec fn term_from(s: Seq<u8>, i: int, st: TermState) -> Lexed<Option<(u64, Qualifier, u8)>>
    decreases s.len() - i,
{
    if i < 0 || i >= s.len() {
        Lexed { value: term_value(st, SPACE), end: i }
    } else if is_keyword_char(s[i]) && st.keyword.letters < 8 {
        term_from(s, i + 1, TermState { keyword: pack(st.keyword, s[i]), ..st })
    } else if st.keyword.letters == 0 && qualifier_of(s[i]) is Some {
        term_from(s, i + 1, TermState { qualifier: qualifier_of(s[i])->Some_0, ..st })
    } else if is_term_stop(s[i]) {
        Lexed { value: argument_term(st, s[i]), end: i + 1 }
    } else if is_whitespace(s[i]) {
        if st.keyword.letters != 0 {
            Lexed { value: term_value(st, SPACE), end: i + 1 }
        } else {
            term_from(s, i + 1, st)
        }
    } else {
        term_from(s, i + 1, TermState { keyword: unmatched(), ..st })
    }
}

/// The term written at index `i`: the identifier of its keyword, its
/// qualifier and its stop character; or nothing, where the input ends
/// before any keyword.
pub open spec fn term_at(s: Seq<u8>, i: int) -> Lexed<Option<(u64, Qualifier, u8)>> {
    term_from(s, i, term_start())
}

proof fn lemma_keyword_a()
    ensures
        packed_word(seq![0x61u8]).id == A,
{
    let w0 = Seq::<u8>::empty();
    let w1 = w0.push(0x61u8);
    lemma_packed_word_push(w0, 0x61u8);
    assert(seq![0x61u8] =~= w1);
}

proof fn lemma_keyword_mx()
    ensures
        packed_word(seq![0x6du8, 0x78u8]).id == MX,
{
    let w0 = Seq::<u8>::empty();
    let w1 = w0.push(0x6du8);
    lemma_packed_word_push(w0, 0x6du8);
    let w2 = w1.push(0x78u8);
    lemma_packed_word_push(w1, 0x78u8);
    assert(seq![0x6du8, 0x78u8] =~= w2);
}

proof fn lemma_keyword_all()
    ensures
        packed_word(seq![0x61u8, 0x6cu8, 0x6cu8]).id == ALL,
{
    let w0 = Seq::<u8>::empty();
    let w1 = w0.push(0x61u8);
    lemma_packed_word_push(w0, 0x61u8);
    let w2 = w1.push(0x6cu8);
    lemma_packed_word_push(w1, 0x6cu8);
    let w3 = w2.push(0x6cu8);
    lemma_packed_word_push(w2, 0x6cu8);
    assert(seq![0x61u8, 0x6cu8, 0x6cu8] =~= w3);
}

proof fn lemma_keyword_ptr()
    ensures
        packed_word(seq![0x70u8, 0x74u8, 0x72u8]).id == PTR,
{
    let w0 = Seq::<u8>::empty();
    let w1 = w0.push(0x70u8);
    lemma_packed_word_push(w0, 0x70u8);
    let w2 = w1.push(0x74u8);
    lemma_packed_word_push(w1, 0x74u8);
    let w3 = w2.push(0x72u8);
    lemma_packed_word_push(w2, 0x72u8);
    assert(seq![0x70u8, 0x74u8, 0x72u8] =~= w3);
}

proof fn lemma_keyword_ip4()
    ensures
        packed_word(seq![0x69u8, 0x70u8, 0x34u8]).id == IP4,
{
    let w0 = Seq::<u8>::empty();
    let w1 = w0.push(0x69u8);
    lemma_packed_word_push(w0, 0x69u8);
    let w2 = w1.push(0x70u8);
    lemma_packed_word_push(w1, 0x70u8);
    let w3 = w2.push(0x34u8);
    lemma_packed_word_push(w2, 0x34u8);
    assert(seq![0x69u8, 0x70u8, 0x34u8] =~= w3);
}

proof fn lemma_keyword_ip6()
    ensures
        packed_word(seq![0x69u8, 0x70u8, 0x36u8]).id == IP6,
{
    let w0 = Seq::<u8>::empty();
    let w1 = w0.push(0x69u8);
    lemma_packed_word_push(w0, 0x69u8);
    let w2 = w1.push(0x70u8);
    lemma_packed_word_push(w1, 0x70u8);
    let w3 = w2.push(0x36u8);
    lemma_packed_word_push(w2, 0x36u8);
    assert(seq![0x69u8, 0x70u8, 0x36u8] =~= w3);
}

proof fn lemma_keyword_exp()
    ensures
        packed_word(seq![0x65u8, 0x78u8, 0x70u8]).id == EXP,
{
    let w0 = Seq::<u8>::empty();
    let w1 = w0.push(0x65u8);
    lemma_packed_word_push(w0, 0x65u8);
    let w2 = w1.push(0x78u8);
    lemma_packed_word_push(w1, 0x78u8);
    let w3 = w2.push(0x70u8);
    lemma_packed_word_push(w2, 0x70u8);
    assert(seq![0x65u8, 0x78u8, 0x70u8] =~= w3);
}

proof fn lemma_keyword_exists()
    ensures
        packed_word(seq![0x65u8, 0x78u8, 0x69u8, 0x73u8, 0x74u8, 0x73u8]).id == EXISTS,
{
    let w0 = Seq::<u8>::empty();
    let w1 = w0.push(0x65u8);
    lemma_packed_word_push(w0, 0x65u8);
    let w2 = w1.push(0x78u8);
    lemma_packed_word_push(w1, 0x78u8);
    let w3 = w2.push(0x69u8);
    lemma_packed_word_push(w2, 0x69u8);
    let w4 = w3.push(0x73u8);
    lemma_packed_word_push(w3, 0x73u8);
    let w5 = w4.push(0x74u8);
    lemma_packed_word_push(w4, 0x74u8);
    let w6 = w5.push(0x73u8);
    lemma_packed_word_push(w5, 0x73u8);
    assert(seq![0x65u8, 0x78u8, 0x69u8, 0x73u8, 0x74u8, 0x73u8] =~= w6);
}

proof fn lemma_keyword_include()
    ensures
        packed_word(seq![0x69u8, 0x6eu8, 0x63u8, 0x6cu8, 0x75u8, 0x64u8, 0x65u8]).id == INCLUDE,
{
    let w0 = Seq::<u8>::empty();
    let w1 = w0.push(0x69u8);
    lemma_packed_word_push(w0, 0x69u8);
    let w2 = w1.push(0x6eu8);
    lemma_packed_word_push(w1, 0x6eu8);
    let w3 = w2.push(0x63u8);
    lemma_packed_word_push(w2, 0x63u8);
    let w4 = w3.push(0x6cu8);
    lemma_packed_word_push(w3, 0x6cu8);
    let w5 = w4.push(0x75u8);
    lemma_packed_word_push(w4, 0x75u8);
    let w6 = w5.push(0x64u8);
    lemma_packed_word_push(w5, 0x64u8);
    let w7 = w6.push(0x65u8);
    lemma_packed_word_push(w6, 0x65u8);
    assert(seq![0x69u8, 0x6eu8, 0x63u8, 0x6cu8, 0x75u8, 0x64u8, 0x65u8] =~= w7);
}

proof fn lemma_keyword_redirect()
    ensures
        packed_word(seq![0x72u8, 0x65u8, 0x64u8, 0x69u8, 0x72u8, 0x65u8, 0x63u8, 0x74u8]).id == REDIRECT,
{
    let w0 = Seq::<u8>::empty();
    let w1 = w0.push(0x72u8);
    lemma_packed_word_push(w0, 0x72u8);
    let w2 = w1.push(0x65u8);
    lemma_packed_word_push(w1, 0x65u8);
    let w3 = w2.push(0x64u8);
    lemma_packed_word_push(w2, 0x64u8);
    let w4 = w3.push(0x69u8);
    lemma_packed_word_push(w3, 0x69u8);
    let w5 = w4.push(0x72u8);
    lemma_packed_word_push(w4, 0x72u8);
    let w6 = w5.push(0x65u8);
    lemma_packed_word_push(w5, 0x65u8);
    let w7 = w6.push(0x63u8);
    lemma_packed_word_push(w6, 0x63u8);
    let w8 = w7.push(0x74u8);
    lemma_packed_word_push(w7, 0x74u8);
    assert(seq![0x72u8, 0x65u8, 0x64u8, 0x69u8, 0x72u8, 0x65u8, 0x63u8, 0x74u8] =~= w8);
}

/// The identifier of each keyword is what its letters pack to: `a`, `mx`,
/// `all`, `ptr`, `ip4`, `ip6`, `exp`, `exists`, `include` and `redirect`,
/// in this order.
pub proof fn lemma_keyword_ids()
    ensures
        packed_word(seq![0x61u8]).id == A,
        packed_word(seq![0x6du8, 0x78u8]).id == MX,
        packed_word(seq![0x61u8, 0x6cu8, 0x6cu8]).id == ALL,
        packed_word(seq![0x70u8, 0x74u8, 0x72u8]).id == PTR,
        packed_word(seq![0x69u8, 0x70u8, 0x34u8]).id == IP4,
        packed_word(seq![0x69u8, 0x70u8, 0x36u8]).id == IP6,
        packed_word(seq![0x65u8, 0x78u8, 0x70u8]).id == EXP,
        packed_word(seq![0x65u8, 0x78u8, 0x69u8, 0x73u8, 0x74u8, 0x73u8]).id == EXISTS,
        packed_word(seq![0x69u8, 0x6eu8, 0x63u8, 0x6cu8, 0x75u8, 0x64u8, 0x65u8]).id == INCLUDE,
        packed_word(seq![0x72u8, 0x65u8, 0x64u8, 0x69u8, 0x72u8, 0x65u8, 0x63u8, 0x74u8]).id == REDIRECT,
{
    lemma_keyword_a();
    lemma_keyword_mx();
    lemma_keyword_all();
    lemma_keyword_ptr();
    lemma_keyword_ip4();
    lemma_keyword_ip6();
    lemma_keyword_exp();
    lemma_keyword_exists();
    lemma_keyword_include();
    lemma_keyword_redirect();
}

/// A term ends within the input, and behind its start unless it starts at
/// the end of the input.
pub proof fn lemma_term_end(s: Seq<u8>, i: int, st: TermState)
    requires
        0 <= i <= s.len(),
    ensures
        i <= term_from(s, i, st).end <= s.len(),
        i < s.len() ==> i < term_from(s, i, st).end,
    decreases s.len() - i,
{
    if i < s.len() {
        if is_keyword_char(s[i]) && st.keyword.letters < 8 {
            lemma_term_end(s, i + 1, TermState { keyword: pack(st.keyword, s[i]), ..st });
        } else if st.keyword.letters == 0 && qualifier_of(s[i]) is Some {
            lemma_term_end(s, i + 1, TermState { qualifier: qualifier_of(s[i])->Some_0, ..st });
        } else if is_term_stop(s[i]) {
        } else if is_whitespace(s[i]) {
            if st.keyword.letters == 0 {
                lemma_term_end(s, i + 1, st);
            }
        } else {
            lemma_term_end(s, i + 1, TermState { keyword: unmatched(), ..st });
        }
    }
}

fn byte_is_keyword_char(ch: u8) -> (b: bool)
    ensures
        b == is_keyword_char(ch),
{
    byte_is_lower(ch) || byte_is_upper(ch) || ch == DIGIT_4 || ch == DIGIT_6
}

fn qualifier_for(ch: u8) -> (q: Option<Qualifier>)
    ensures
        q == qualifier_of(ch),
{
    if ch == PLUS {
        Some(Qualifier::Pass)
    } else if ch == MINUS {
        Some(Qualifier::Fail)
    } else if ch == TILDE {
        Some(Qualifier::SoftFail)
    } else if ch == QUESTION {
        Some(Qualifier::Neutral)
    } else {
        None
    }
}

impl<'a> Cursor<'a> {
    /// Reads the qualifier and the keyword of the next term.
    pub fn next_term(&mut self) -> (r: Option<(u64, Qualifier, u8)>)
        requires
            old(self).wf(),
        ensures
            final(self).advanced_from(old(self)),
            final(self).index() == term_at(old(self).input(), old(self).index()).end,
            r == term_at(old(self).input(), old(self).index()).value,
            r is Some ==> final(self).index() > old(self).index(),
    {
        let ghost s = self.bytes@;
        let ghost start = self.pos as int;
        let mut id: u64 = 0;
        let mut letters: u8 = 0;
        let mut qualifier = Qualifier::Pass;
        loop
            invariant
                self.wf(),
                s == old(self).bytes@,
                start == old(self).pos,
                self.bytes@ == s,
                start <= self.pos,
                packed_wf(packed(id, letters as int)),
                letters != 0 ==> start < self.pos,
                term_at(s, start) == term_from(
                    s,
                    self.pos as int,
                    term_state(packed(id, letters as int), qualifier),
                ),
            decreases s.len() - self.pos,
        {
            match self.next() {
                None => {
                    return if id != 0 {
                        Some((id, qualifier, SPACE))
                    } else {
                        None
                    };
                },
                Some(ch) => {
                    if byte_is_keyword_char(ch) && letters < 8 {
                        id = pack_byte(id, letters, ch);
                        letters = letters + 1;
                    } else if letters == 0 && qualifier_for(ch).is_some() {
                        qualifier = qualifier_for(ch).unwrap();
                    } else if ch == COLON || ch == EQUALS || ch == SLASH {
                        return if id != 0 {
                            Some((id, qualifier, ch))
                        } else {
                            Some((UNMATCHED, qualifier, ch))
                        };
                    } else if byte_is_whitespace(ch) {
                        if letters != 0 {
                            return Some((id, qualifier, SPACE));
                        }
                    } else {
                        id = UNMATCHED;
                        letters = 8;
                    }
                },
            }
        }
    }
}

} // verus!
