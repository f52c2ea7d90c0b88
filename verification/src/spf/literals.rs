//! The literals of a record: CIDR prefix lengths and IP addresses.

use vstd::prelude::*;
use crate::common::ascii::{
    byte_is_digit, byte_is_whitespace, digit_value, is_digit, is_whitespace, DIGIT_0, DOT, SLASH,
    SPACE,
};
use crate::common::cursor::{stop_char, Cursor, Lexed};
use crate::spf::Error;

verus! {

/// A decimal digit appended to a number that is held in a byte: the number
/// stays at 255 once it would pass it.
pub open spec fn push_digit(acc: u8, ch: u8) -> u8 {
    if acc * 10 + digit_value(ch) > 255 {
        255u8
    } else {
        (acc * 10 + digit_value(ch)) as u8
    }
}

/// The number that the digits of a prefix length write from index `i` on,
/// `acc` being the value of the digits already read. Digits are read up to
/// whitespace, which is consumed, or to the end of the input; any other
/// byte is an error.
pub open spec fn cidr_length_from(s: Seq<u8>, i: int, acc: u8) -> Lexed<Result<u8, Error>>
    decreases s.len() - i,
{
    if i < 0 || i >= s.len() {
        Lexed { value: Ok(acc), end: i }
    } else if is_digit(s[i]) {
        cidr_length_from(s, i + 1, push_digit(acc, s[i]))
    } else if is_whitespace(s[i]) {
        Lexed { value: Ok(acc), end: i + 1 }
    } else {
        Lexed { value: Err(Error::ParseFailed), end: i + 1 }
    }
}

/// The number that the digits of the prefix length at index `i` write, and
/// 0 where no digit stands there.
pub open spec fn cidr_length_at(s: Seq<u8>, i: int) -> Lexed<Result<u8, Error>> {
    cidr_length_from(s, i, 0)
}

/// A decimal digit appended to a prefix length of which `acc` is written
/// so far, if anything is. The length stays at 255 once it would pass it.
pub open spec fn push_length_digit(acc: Option<u8>, ch: u8) -> Option<u8> {
    match acc {
        Some(length) => Some(push_digit(length, ch)),
        None => Some(push_digit(0, ch)),
    }
}

/// The smaller of a length and the maximum of its address family.
pub open spec fn clamp(length: u8, max: u8) -> u8 {
    if length < max {
        length
    } else {
        max
    }
}

/// The prefix length of a family whose maximum is `max`: the written length
/// if it is smaller than the maximum, and the maximum where the written
/// length is larger or nothing is written.
pub open spec fn length_or(written: Option<u8>, max: u8) -> u8 {
    match written {
        Some(length) => clamp(length, max),
        None => max,
    }
}

/// The pair of prefix lengths written from index `i` on. `ip4` and `ip6` are
/// what is written of each length so far, and `in_ip6` says that a slash
/// has been passed, after which digits belong to the IPv6 length. A slash
/// after IPv6 digits is an error. What is not written comes out as the
/// family's maximum, and so does anything larger.
pub open spec fn dual_cidr_length_from(
    s: Seq<u8>,
    i: int,
    ip4: Option<u8>,
    ip6: Option<u8>,
    in_ip6: bool,
) -> Lexed<Result<(u8, u8), Error>>
    decreases s.len() - i,
{
    if i < 0 || i >= s.len() {
        Lexed { value: Ok((length_or(ip4, 32), length_or(ip6, 128))), end: i }
    } else if is_digit(s[i]) {
        if in_ip6 {
            dual_cidr_length_from(s, i + 1, ip4, push_length_digit(ip6, s[i]), in_ip6)
        } else {
            dual_cidr_length_from(s, i + 1, push_length_digit(ip4, s[i]), ip6, in_ip6)
        }
    } else if s[i] == SLASH {
        if !in_ip6 {
            dual_cidr_length_from(s, i + 1, ip4, ip6, true)
        } else if ip6 is Some {
            Lexed { value: Err(Error::ParseFailed), end: i + 1 }
        } else {
            dual_cidr_length_from(s, i + 1, ip4, ip6, in_ip6)
        }
    } else if is_whitespace(s[i]) {
        Lexed { value: Ok((length_or(ip4, 32), length_or(ip6, 128))), end: i + 1 }
    } else {
        Lexed { value: Err(Error::ParseFailed), end: i + 1 }
    }
}

/// The pair of prefix lengths written at index `i`, just behind the slash
/// that announced them.
pub open spec fn dual_cidr_length_at(s: Seq<u8>, i: int) -> Lexed<Result<(u8, u8), Error>> {
    dual_cidr_length_from(s, i, None, None, false)
}

/// The value of an IPv4 literal once its end is reached: the three octets
/// in `done` and the current one make the address, if three dots were read.
pub open spec fn ip4_value(done: Seq<u8>, cur: u8, stop: u8) -> Result<(Seq<u8>, u8), Error> {
    if done.len() == 3 {
        Ok((done.push(cur), stop))
    } else {
        Err(Error::InvalidIp4)
    }
}

/// The IPv4 literal written from index `i` on: `done` holds the octets that
/// a dot has closed, `cur` the value of the digits read since. Digits are
/// appended to the current octet, which stays at 255 once it would pass it;
/// each of the first three dots closes an octet; any other byte, a fourth
/// dot too, ends the literal and is reported as its stop character.
pub open spec fn ip4_from(s: Seq<u8>, i: int, done: Seq<u8>, cur: u8) -> Lexed<
    Result<(Seq<u8>, u8), Error>,
>
    decreases s.len() - i,
{
    if i < 0 || i >= s.len() {
        Lexed { value: ip4_value(done, cur, SPACE), end: i }
    } else if is_digit(s[i]) {
        ip4_from(s, i + 1, done, push_digit(cur, s[i]))
    } else if s[i] == DOT && done.len() < 3 {
        ip4_from(s, i + 1, done.push(cur), 0)
    } else {
        Lexed { value: ip4_value(done, cur, stop_char(s[i])), end: i + 1 }
    }
}

/// The IPv4 literal written at index `i`: its four octets and its stop
/// character.
pub open spec fn ip4_at(s: Seq<u8>, i: int) -> Lexed<Result<(Seq<u8>, u8), Error>> {
    ip4_from(s, i, Seq::empty(), 0)
}

/// A prefix length ends between its start and the end of the input.
pub proof fn lemma_cidr_length_end(s: Seq<u8>, i: int, acc: u8)
    requires
        0 <= i <= s.len(),
    ensures
        i <= cidr_length_from(s, i, acc).end <= s.len(),
    decreases s.len() - i,
{
    if i < s.len() && is_digit(s[i]) {
        lemma_cidr_length_end(s, i + 1, push_digit(acc, s[i]));
    }
}

/// A dual prefix length ends between its start and the end of the input,
/// and its lengths are within the maxima of their families.
pub proof fn lemma_dual_cidr_length_end(
    s: Seq<u8>,
    i: int,
    ip4: Option<u8>,
    ip6: Option<u8>,
    in_ip6: bool,
)
    requires
        0 <= i <= s.len(),
    ensures
        i <= dual_cidr_length_from(s, i, ip4, ip6, in_ip6).end <= s.len(),
        dual_cidr_length_from(s, i, ip4, ip6, in_ip6).value matches Ok(lengths) ==> lengths.0
            <= 32 && lengths.1 <= 128,
    decreases s.len() - i,
{
    if i < s.len() {
        if is_digit(s[i]) {
            if in_ip6 {
                lemma_dual_cidr_length_end(s, i + 1, ip4, push_length_digit(ip6, s[i]), in_ip6);
            } else {
                lemma_dual_cidr_length_end(s, i + 1, push_length_digit(ip4, s[i]), ip6, in_ip6);
            }
        } else if s[i] == SLASH {
            if !in_ip6 {
                lemma_dual_cidr_length_end(s, i + 1, ip4, ip6, true);
            } else if ip6 is None {
                lemma_dual_cidr_length_end(s, i + 1, ip4, ip6, in_ip6);
            }
        }
    }
}

/// An IPv4 literal ends between its start and the end of the input, and an
/// address has four octets.
pub proof fn lemma_ip4_end(s: Seq<u8>, i: int, done: Seq<u8>, cur: u8)
    requires
        0 <= i <= s.len(),
    ensures
        i <= ip4_from(s, i, done, cur).end <= s.len(),
        ip4_from(s, i, done, cur).value matches Ok(r) ==> r.0.len() == 4,
    decreases s.len() - i,
{
    if i < s.len() {
        if is_digit(s[i]) {
            lemma_ip4_end(s, i + 1, done, push_digit(cur, s[i]));
        } else if s[i] == DOT && done.len() < 3 {
            lemma_ip4_end(s, i + 1, done.push(cur), 0);
        }
    }
}

/// Appends a decimal digit to a byte-sized number, saturating at 255.
pub(crate) fn append_digit(acc: u8, ch: u8) -> (r: u8)
    requires
        is_digit(ch),
    ensures
        r == push_digit(acc, ch),
{
    let wide: u16 = (acc as u16) * 10 + ((ch - DIGIT_0) as u16);
    if wide > 255 {
        255
    } else {
        wide as u8
    }
}

fn append_length_digit(acc: Option<u8>, ch: u8) -> (r: Option<u8>)
    requires
        is_digit(ch),
    ensures
        r == push_length_digit(acc, ch),
{
    match acc {
        Some(length) => Some(append_digit(length, ch)),
        None => Some(append_digit(0, ch)),
    }
}

fn length_or_max(written: Option<u8>, max: u8) -> (r: u8)
    ensures
        r == length_or(written, max),
{
    match written {
        Some(length) => if length < max {
            length
        } else {
            max
        },
        None => max,
    }
}

/// An address and stop character as the parser returns them, against the
/// same in the mathematical model.
pub open spec fn ip4_result_is(r: Result<([u8; 4], u8), Error>, model: Result<(Seq<u8>, u8), Error>) -> bool {
    match r {
        Ok((addr, stop)) => model == Ok::<(Seq<u8>, u8), Error>((addr@, stop)),
        Err(e) => model == Err::<(Seq<u8>, u8), Error>(e),
    }
}

fn ip4_result(done: &Vec<u8>, cur: u8, stop: u8) -> (r: Result<([u8; 4], u8), Error>)
    ensures
        ip4_result_is(r, ip4_value(done@, cur, stop)),
{
    if done.len() == 3 {
        let addr: [u8; 4] = [done[0], done[1], done[2], cur];
        assert(addr@ =~= done@.push(cur));
        Ok((addr, stop))
    } else {
        Err(Error::InvalidIp4)
    }
}

impl<'a> Cursor<'a> {
    /// Reads the digits of one prefix length: the number that they write,
    /// which stays at 255 once it would pass it, and 0 where no digit is
    /// written. The default and the maximum of the address family are
    /// applied by `address_length`.
    pub fn cidr_length(&mut self) -> (r: Result<u8, Error>)
        requires
            old(self).wf(),
        ensures
            final(self).advanced_from(old(self)),
            r == cidr_length_at(old(self).input(), old(self).index()).value,
            final(self).index() == cidr_length_at(old(self).input(), old(self).index()).end,
    {
        let ghost s = self.bytes@;
        let ghost start = self.pos as int;
        let mut acc: u8 = 0;
        loop
            invariant
                self.wf(),
                s == old(self).bytes@,
                start == old(self).pos,
                self.bytes@ == s,
                start <= self.pos,
                cidr_length_from(s, start, 0) == cidr_length_from(s, self.pos as int, acc),
            decreases s.len() - self.pos,
        {
            match self.next() {
                None => {
                    return Ok(acc);
                },
                Some(ch) => {
                    if byte_is_digit(ch) {
                        acc = append_digit(acc, ch);
                    } else if byte_is_whitespace(ch) {
                        return Ok(acc);
                    } else {
                        return Err(Error::ParseFailed);
                    }
                },
            }
        }
    }

    /// Reads a dotted-quad IPv4 address.
    pub fn ip4(&mut self) -> (r: Result<([u8; 4], u8), Error>)
        requires
            old(self).wf(),
        ensures
            final(self).advanced_from(old(self)),
            final(self).index() == ip4_at(old(self).input(), old(self).index()).end,
            ip4_result_is(r, ip4_at(old(self).input(), old(self).index()).value),
    {
        let ghost s = self.bytes@;
        let ghost start = self.pos as int;
        let mut done: Vec<u8> = Vec::new();
        let mut cur: u8 = 0;
        loop
            invariant
                self.wf(),
                s == old(self).bytes@,
                start == old(self).pos,
                self.bytes@ == s,
                start <= self.pos,
                done@.len() <= 3,
                ip4_from(s, start, Seq::empty(), 0) == ip4_from(s, self.pos as int, done@, cur),
            decreases s.len() - self.pos,
        {
            match self.next() {
                None => {
                    return ip4_result(&done, cur, SPACE);
                },
                Some(ch) => {
                    if byte_is_digit(ch) {
                        cur = append_digit(cur, ch);
                    } else if ch == DOT && done.len() < 3 {
                        done.push(cur);
                        cur = 0;
                    } else {
                        let stop = if byte_is_whitespace(ch) { SPACE } else { ch };
                        return ip4_result(&done, cur, stop);
                    }
                },
            }
        }
    }

    /// Reads the lengths of a dual prefix, `ip4[/ip6]`, and clamps each to
    /// the maximum of its family.
    pub fn dual_cidr_length(&mut self) -> (r: Result<(u8, u8), Error>)
        requires
            old(self).wf(),
        ensures
            final(self).advanced_from(old(self)),
            r == dual_cidr_length_at(old(self).input(), old(self).index()).value,
            final(self).index() == dual_cidr_length_at(old(self).input(), old(self).index()).end,
            r matches Ok(lengths) ==> lengths.0 <= 32 && lengths.1 <= 128,
    {
        let ghost s = self.bytes@;
        let ghost start = self.pos as int;
        let mut ip4: Option<u8> = None;
        let mut ip6: Option<u8> = None;
        let mut in_ip6 = false;
        loop
            invariant
                self.wf(),
                s == old(self).bytes@,
                start == old(self).pos,
                self.bytes@ == s,
                start <= self.pos,
                dual_cidr_length_at(s, start) == dual_cidr_length_from(
                    s,
                    self.pos as int,
                    ip4,
                    ip6,
                    in_ip6,
                ),
            decreases s.len() - self.pos,
        {
            match self.next() {
                None => {
                    return Ok((length_or_max(ip4, 32), length_or_max(ip6, 128)));
                },
                Some(ch) => {
                    if byte_is_digit(ch) {
                        if in_ip6 {
                            ip6 = append_length_digit(ip6, ch);
                        } else {
                            ip4 = append_length_digit(ip4, ch);
                        }
                    } else if ch == SLASH {
                        if !in_ip6 {
                            in_ip6 = true;
                        } else if ip6.is_some() {
                            return Err(Error::ParseFailed);
                        }
                    } else if byte_is_whitespace(ch) {
                        return Ok((length_or_max(ip4, 32), length_or_max(ip6, 128)));
                    } else {
                        return Err(Error::ParseFailed);
                    }
                },
            }
        }
    }
}

} // verus!
