//! The IPv6 literal: colon-separated hexadecimal groups, one run of zero
//! groups written as `::`, and an optional dotted-quad suffix.

use vstd::prelude::*;
use crate::common::ascii::{
    byte_is_digit, byte_is_hex_digit, byte_is_whitespace, decimal_number, hex_value, is_digit,
    is_hex_digit, COLON, DIGIT_0, DOT, LOWER_A, LOWER_F, SPACE, UPPER_A,
};
use crate::common::cursor::{stop_char, Cursor, Lexed};
use crate::spf::Error;

verus! {

/// What has been read of an IPv6 literal.
pub struct Ip6State {
    /// The groups that are complete, in order.
    pub groups: Seq<u16>,
    /// The high byte of a group that a dotted quad has begun.
    pub pending: u16,
    /// The number of dots read.
    pub quads: int,
    /// The digits read since the last separator, at most four.
    pub part: Seq<u8>,
    /// The number of groups that stood before `::`, once it has been read.
    pub zero: Option<int>,
}

/// The number that hexadecimal digits write.
pub open spec fn hex_number(part: Seq<u8>) -> int
    decreases part.len(),
{
    if part.len() == 0 {
        0
    } else {
        hex_number(part.drop_last()) * 16 + hex_value(part.last())
    }
}

/// The octet that the digits in `part` write in decimal, if they are all
/// decimal digits and the number fits in a byte.
pub open spec fn decimal_octet(part: Seq<u8>) -> Option<u8> {
    if part.len() > 0 && (forall|k: int| 0 <= k < part.len() ==> is_digit(#[trigger] part[k]))
        && decimal_number(part) <= 255 {
        Some(decimal_number(part) as u8)
    } else {
        None
    }
}

pub open spec fn ip6_start() -> Ip6State {
    Ip6State { groups: Seq::empty(), pending: 0, quads: 0, part: Seq::empty(), zero: None }
}

/// The state with one more complete group and nothing begun behind it.
pub open spec fn ip6_push(st: Ip6State, group: u16) -> Ip6State {
    Ip6State { groups: st.groups.push(group), pending: 0, part: Seq::empty(), ..st }
}

/// The state after a colon, unless the colon is an error. A colon behind
/// digits closes a hexadecimal group. A colon behind no digits marks the
/// place of the zero run; it may be repeated in that place only. No colon
/// may follow once a dotted quad has begun: the quad ends the address.
pub open spec fn ip6_colon(st: Ip6State) -> Option<Ip6State> {
    if st.groups.len() >= 8 || st.quads != 0 {
        None
    } else if st.part.len() != 0 {
        Some(ip6_push(st, hex_number(st.part) as u16))
    } else if st.zero is None {
        Some(Ip6State { zero: Some(st.groups.len() as int), ..st })
    } else if st.zero != Some(st.groups.len() as int) {
        None
    } else {
        Some(st)
    }
}

/// The state after a dot, unless the dot is an error. The digits before it
/// must write an octet in decimal, and a quad has three dots. The octets of
/// a dotted quad are packed in pairs: one read behind an even number of
/// dots begins a group as its high byte, the next completes the group as
/// its low byte.
pub open spec fn ip6_dot(st: Ip6State) -> Option<Ip6State> {
    if st.groups.len() < 8 && st.part.len() > 0 && st.quads < 3 {
        match decimal_octet(st.part) {
            Some(octet) => Some(
                if st.quads % 2 == 1 {
                    Ip6State {
                        quads: st.quads + 1,
                        ..ip6_push(st, (st.pending * 256 + octet) as u16)
                    }
                } else {
                    Ip6State {
                        pending: octet as u16,
                        quads: st.quads + 1,
                        part: Seq::empty(),
                        ..st
                    }
                },
            ),
            None => None,
        }
    } else {
        None
    }
}

/// The state once the digits that the literal ends on are taken in.
///
/// Without a dotted quad they are a hexadecimal group, if there are any.
/// With one they are its fourth octet: the quad must be whole, and its two
/// groups must end the address, so that either `::` stands before them or
/// they are the seventh and eighth group.
pub open spec fn ip6_close(st: Ip6State) -> Option<Ip6State> {
    if st.quads != 0 {
        if st.quads == 3 && st.part.len() > 0 && st.groups.len() < 8 && (st.zero is Some
            || st.groups.len() == 7) {
            match decimal_octet(st.part) {
                Some(octet) => Some(ip6_push(st, (st.pending * 256 + octet) as u16)),
                None => None,
            }
        } else {
            None
        }
    } else if st.part.len() == 0 {
        Some(st)
    } else if st.groups.len() >= 8 {
        None
    } else {
        Some(ip6_push(st, hex_number(st.part) as u16))
    }
}

/// `n` zero groups.
pub open spec fn zero_groups(n: int) -> Seq<u16> {
    Seq::new(n as nat, |i: int| 0u16)
}

/// The eight groups of the address. Where `::` stands before at least one
/// group, the groups behind it move to the end and zeros fill the gap; this
/// needs at most six written groups. Otherwise the written groups come
/// first and zeros follow. Nothing written at all is no address.
pub open spec fn ip6_address(st: Ip6State) -> Option<Seq<u16>> {
    let n = st.groups.len() as int;
    if st.zero is Some && st.zero->Some_0 < n {
        let z = st.zero->Some_0;
        if n < 7 {
            Some(st.groups.subrange(0, z) + zero_groups(8 - n) + st.groups.subrange(z, n))
        } else {
            None
        }
    } else if n != 0 || st.zero is Some {
        Some(st.groups + zero_groups(8 - n))
    } else {
        None
    }
}

/// The value of an IPv6 literal that ends in state `st` on `stop`.
pub open spec fn ip6_value(st: Ip6State, stop: u8) -> Result<(Seq<u16>, u8), Error> {
    match ip6_close(st) {
        Some(closed) => match ip6_address(closed) {
            Some(addr) => Ok((addr, stop)),
            None => Err(Error::InvalidIp6),
        },
        None => Err(Error::InvalidIp6),
    }
}

/// The IPv6 literal written from index `i` on, `st` being what was read
/// before. Up to four hexadecimal digits are collected between separators;
/// a byte that is no hexadecimal digit, colon or dot ends the literal and is
/// reported as its stop character.
pub open spec fn ip6_from(s: Seq<u8>, i: int, st: Ip6State) -> Lexed<Result<(Seq<u16>, u8), Error>>
    decreases s.len() - i,
{
    if i < 0 || i >= s.len() {
        Lexed { value: ip6_value(st, SPACE), end: i }
    } else if is_hex_digit(s[i]) {
        if st.part.len() < 4 {
            ip6_from(s, i + 1, Ip6State { part: st.part.push(s[i]), ..st })
        } else {
            Lexed { value: Err(Error::InvalidIp6), end: i + 1 }
        }
    } else if s[i] == COLON {
        match ip6_colon(st) {
            Some(next) => ip6_from(s, i + 1, next),
            None => Lexed { value: Err(Error::InvalidIp6), end: i + 1 },
        }
    } else if s[i] == DOT {
        match ip6_dot(st) {
            Some(next) => ip6_from(s, i + 1, next),
            None => Lexed { value: Err(Error::InvalidIp6), end: i + 1 },
        }
    } else {
        Lexed { value: ip6_value(st, stop_char(s[i])), end: i + 1 }
    }
}

/// The IPv6 literal written at index `i`: its eight groups and its stop
/// character.
pub open spec fn ip6_at(s: Seq<u8>, i: int) -> Lexed<Result<(Seq<u16>, u8), Error>> {
    ip6_from(s, i, ip6_start())
}

/// The states that reading can reach.
pub open spec fn ip6_state_wf(st: Ip6State) -> bool {
    &&& st.groups.len() <= 8
    &&& st.part.len() <= 4
    &&& st.zero matches Some(z) ==> 0 <= z <= st.groups.len()
}

/// An IPv6 literal ends between its start and the end of the input, and an
/// address has eight groups.
pub proof fn lemma_ip6_end(s: Seq<u8>, i: int, st: Ip6State)
    requires
        0 <= i <= s.len(),
        ip6_state_wf(st),
    ensures
        i <= ip6_from(s, i, st).end <= s.len(),
        ip6_from(s, i, st).value matches Ok(r) ==> r.0.len() == 8,
    decreases s.len() - i,
{
    if i < s.len() {
        if is_hex_digit(s[i]) {
            if st.part.len() < 4 {
                lemma_ip6_end(s, i + 1, Ip6State { part: st.part.push(s[i]), ..st });
            }
        } else if s[i] == COLON {
            if let Some(next) = ip6_colon(st) {
                lemma_ip6_end(s, i + 1, next);
            }
        } else if s[i] == DOT {
            if let Some(next) = ip6_dot(st) {
                lemma_ip6_end(s, i + 1, next);
            }
        }
    }
}

/// Where `::` stands before at least one group, the address has eight
/// groups: those written before `::` at the front, those written behind it
/// at the end, and zeros in between.
pub proof fn lemma_zero_run_expansion(st: Ip6State)
    requires
        ip6_state_wf(st),
        st.zero matches Some(z) && z < st.groups.len() < 7,
    ensures
        ip6_address(st) matches Some(addr) && ({
            let n = st.groups.len() as int;
            let z = st.zero->Some_0;
            &&& addr.len() == 8
            &&& forall|k: int| 0 <= k < z ==> addr[k] == st.groups[k]
            &&& forall|k: int| z <= k < z + 8 - n ==> addr[k] == 0
            &&& forall|k: int| z + 8 - n <= k < 8 ==> addr[k] == st.groups[k - (8 - n)]
        }),
{
}

/// An address and stop character as the parser returns them, against the
/// same in the mathematical model.
pub open spec fn ip6_result_is(
    r: Result<([u16; 8], u8), Error>,
    model: Result<(Seq<u16>, u8), Error>,
) -> bool {
    match r {
        Ok((addr, stop)) => model == Ok::<(Seq<u16>, u8), Error>((addr@, stop)),
        Err(e) => model == Err::<(Seq<u16>, u8), Error>(e),
    }
}

pub open spec fn all_hex_digits(part: Seq<u8>) -> bool {
    forall|k: int| 0 <= k < part.len() ==> is_hex_digit(#[trigger] part[k])
}

/// 16 to the power `n`, for the lengths that a group can have.
pub open spec fn hex_limit(n: int) -> int {
    if n <= 0 {
        1
    } else if n == 1 {
        0x10
    } else if n == 2 {
        0x100
    } else if n == 3 {
        0x1000
    } else {
        0x10000
    }
}

proof fn lemma_hex_number_bound(part: Seq<u8>)
    requires
        all_hex_digits(part),
        part.len() <= 4,
    ensures
        0 <= hex_number(part) < hex_limit(part.len() as int),
    decreases part.len(),
{
    if part.len() > 0 {
        lemma_hex_number_bound(part.drop_last());
    }
}

/// The number that up to four decimal digits write is below 10000, and
/// lower for fewer digits.
pub proof fn lemma_decimal_number_bound(part: Seq<u8>)
    requires
        forall|k: int| 0 <= k < part.len() ==> is_digit(#[trigger] part[k]),
        part.len() <= 4,
    ensures
        0 <= decimal_number(part) < 10000,
        part.len() <= 3 ==> decimal_number(part) < 1000,
        part.len() <= 2 ==> decimal_number(part) < 100,
        part.len() <= 1 ==> decimal_number(part) < 10,
    decreases part.len(),
{
    if part.len() > 0 {
        lemma_decimal_number_bound(part.drop_last());
    }
}

fn hex_digit_value(ch: u8) -> (v: u16)
    requires
        is_hex_digit(ch),
    ensures
        v == hex_value(ch),
        v < 16,
{
    if byte_is_digit(ch) {
        (ch - DIGIT_0) as u16
    } else if LOWER_A <= ch && ch <= LOWER_F {
        (ch - LOWER_A + 10) as u16
    } else {
        (ch - UPPER_A + 10) as u16
    }
}

/// The group that up to four hexadecimal digits write.
fn hex_group(part: &Vec<u8>) -> (group: u16)
    requires
        all_hex_digits(part@),
        part@.len() <= 4,
    ensures
        group == hex_number(part@),
{
    let mut acc: u16 = 0;
    let mut k: usize = 0;
    while k < part.len()
        invariant
            k <= part@.len() <= 4,
            all_hex_digits(part@),
            acc == hex_number(part@.subrange(0, k as int)),
            acc < hex_limit(k as int),
        decreases part@.len() - k,
    {
        let v = hex_digit_value(part[k]);
        proof {
            assert(part@.subrange(0, k + 1).drop_last() =~= part@.subrange(0, k as int));
        }
        acc = acc * 16 + v;
        k += 1;
    }
    proof {
        assert(part@.subrange(0, k as int) =~= part@);
    }
    acc
}

/// The octet that up to four digits write in decimal, if they do.
fn octet(part: &Vec<u8>) -> (r: Option<u8>)
    requires
        0 < part@.len() <= 4,
    ensures
        r == decimal_octet(part@),
{
    let mut acc: u16 = 0;
    let mut k: usize = 0;
    while k < part.len()
        invariant
            k <= part@.len() <= 4,
            forall|j: int| 0 <= j < k ==> is_digit(#[trigger] part@[j]),
            acc == decimal_number(part@.subrange(0, k as int)),
            acc < 10000,
        decreases part@.len() - k,
    {
        let ch = part[k];
        if !byte_is_digit(ch) {
            return None;
        }
        proof {
            assert(part@.subrange(0, k + 1).drop_last() =~= part@.subrange(0, k as int));
            lemma_decimal_number_bound(part@.subrange(0, k as int));
            lemma_decimal_number_bound(part@.subrange(0, k + 1));
        }
        acc = acc * 10 + (ch - DIGIT_0) as u16;
        k += 1;
    }
    proof {
        assert(part@.subrange(0, k as int) =~= part@);
    }
    if acc <= 255 {
        Some(acc as u8)
    } else {
        None
    }
}

/// The parser's own record of what it has read.
struct Ip6Parser {
    groups: Vec<u16>,
    pending: u16,
    quads: usize,
    part: Vec<u8>,
    zero: Option<usize>,
}

impl Ip6Parser {
    spec fn view(&self) -> Ip6State {
        Ip6State {
            groups: self.groups@,
            pending: self.pending,
            quads: self.quads as int,
            part: self.part@,
            zero: match self.zero {
                Some(z) => Some(z as int),
                None => None,
            },
        }
    }

    spec fn wf(&self) -> bool {
        &&& self.groups@.len() <= 8
        &&& self.part@.len() <= 4
        &&& all_hex_digits(self.part@)
        &&& self.pending <= 255
        &&& self.quads <= 3
    }

    fn new() -> (p: Self)
        ensures
            p.wf(),
            p@ == ip6_start(),
    {
        Ip6Parser { groups: Vec::new(), pending: 0, quads: 0, part: Vec::new(), zero: None }
    }

    fn push(&mut self, group: u16)
        requires
            old(self).wf(),
            old(self).groups@.len() < 8,
        ensures
            final(self).wf(),
            final(self)@ == ip6_push(old(self)@, group),
    {
        self.groups.push(group);
        self.pending = 0;
        self.part.clear();
    }

    fn colon(&mut self) -> (ok: bool)
        requires
            old(self).wf(),
        ensures
            final(self).wf(),
            ok ==> ip6_colon(old(self)@) == Some(final(self)@),
            !ok ==> ip6_colon(old(self)@) is None,
    {
        if self.groups.len() >= 8 || self.quads != 0 {
            false
        } else if self.part.len() != 0 {
            let group = hex_group(&self.part);
            self.push(group);
            true
        } else {
            match self.zero {
                None => {
                    self.zero = Some(self.groups.len());
                    true
                },
                Some(z) => z == self.groups.len(),
            }
        }
    }

    fn dot(&mut self) -> (ok: bool)
        requires
            old(self).wf(),
        ensures
            final(self).wf(),
            ok ==> ip6_dot(old(self)@) == Some(final(self)@),
            !ok ==> ip6_dot(old(self)@) is None,
    {
        if self.groups.len() < 8 && self.part.len() > 0 && self.quads < 3 {
            match octet(&self.part) {
                Some(q) => {
                    if self.quads % 2 == 1 {
                        let group = self.pending * 256 + q as u16;
                        self.push(group);
                    } else {
                        self.pending = q as u16;
                        self.part.clear();
                    }
                    self.quads += 1;
                    true
                },
                None => false,
            }
        } else {
            false
        }
    }

    fn close(&mut self) -> (ok: bool)
        requires
            old(self).wf(),
        ensures
            final(self).wf(),
            ok ==> ip6_close(old(self)@) == Some(final(self)@),
            !ok ==> ip6_close(old(self)@) is None,
    {
        if self.quads != 0 {
            if self.quads == 3 && self.part.len() > 0 && self.groups.len() < 8 && (
            self.zero.is_some() || self.groups.len() == 7) {
                match octet(&self.part) {
                    Some(q) => {
                        let group = self.pending * 256 + q as u16;
                        self.push(group);
                        true
                    },
                    None => false,
                }
            } else {
                false
            }
        } else if self.part.len() == 0 {
            true
        } else if self.groups.len() >= 8 {
            false
        } else {
            let group = hex_group(&self.part);
            self.push(group);
            true
        }
    }

    fn address(&self) -> (r: Option<[u16; 8]>)
        requires
            self.wf(),
        ensures
            match r {
                Some(addr) => ip6_address(self@) == Some(addr@),
                None => ip6_address(self@) is None,
            },
    {
        let n = self.groups.len();
        let mut addr: Vec<u16> = Vec::new();
        match self.zero {
            Some(z) if z < n => {
                if n >= 7 {
                    return None;
                }
                let mut k: usize = 0;
                while k < z
                    invariant
                        k <= z < n,
                        n == self.groups@.len(),
                        addr@ == self.groups@.subrange(0, k as int),
                    decreases z - k,
                {
                    addr.push(self.groups[k]);
                    k += 1;
                    assert(addr@ =~= self.groups@.subrange(0, k as int));
                }
                let mut j: usize = 0;
                while j < 8 - n
                    invariant
                        j <= 8 - n,
                        n < 7,
                        addr@ == self.groups@.subrange(0, z as int) + zero_groups(j as int),
                    decreases 8 - n - j,
                {
                    addr.push(0);
                    j += 1;
                    assert(addr@ =~= self.groups@.subrange(0, z as int) + zero_groups(j as int));
                }
                let mut k: usize = z;
                while k < n
                    invariant
                        z <= k <= n,
                        n == self.groups@.len(),
                        addr@ == self.groups@.subrange(0, z as int) + zero_groups(8 - n)
                            + self.groups@.subrange(z as int, k as int),
                    decreases n - k,
                {
                    addr.push(self.groups[k]);
                    k += 1;
                    assert(addr@ =~= self.groups@.subrange(0, z as int) + zero_groups(8 - n)
                        + self.groups@.subrange(z as int, k as int));
                }
            },
            _ => {
                if n == 0 && self.zero.is_none() {
                    return None;
                }
                let mut k: usize = 0;
                while k < n
                    invariant
                        k <= n,
                        n == self.groups@.len(),
                        addr@ == self.groups@.subrange(0, k as int),
                    decreases n - k,
                {
                    addr.push(self.groups[k]);
                    k += 1;
                    assert(addr@ =~= self.groups@.subrange(0, k as int));
                }
                assert(addr@ =~= self.groups@ + zero_groups(0));
                let mut j: usize = 0;
                while j < 8 - n
                    invariant
                        j <= 8 - n,
                        n <= 8,
                        addr@ == self.groups@ + zero_groups(j as int),
                    decreases 8 - n - j,
                {
                    addr.push(0);
                    j += 1;
                    assert(addr@ =~= self.groups@ + zero_groups(j as int));
                }
            },
        }
        assert(addr@.len() == 8);
        let out: [u16; 8] = [
            addr[0],
            addr[1],
            addr[2],
            addr[3],
            addr[4],
            addr[5],
            addr[6],
            addr[7],
        ];
        assert(out@ =~= addr@);
        Some(out)
    }

    fn finish(self, stop: u8) -> (r: Result<([u16; 8], u8), Error>)
        requires
            self.wf(),
        ensures
            ip6_result_is(r, ip6_value(self@, stop)),
    {
        let mut st = self;
        if !st.close() {
            return Err(Error::InvalidIp6);
        }
        match st.address() {
            Some(addr) => Ok((addr, stop)),
            None => Err(Error::InvalidIp6),
        }
    }
}

impl<'a> Cursor<'a> {
    /// Reads an IPv6 address.
    pub fn ip6(&mut self) -> (r: Result<([u16; 8], u8), Error>)
        requires
            old(self).wf(),
        ensures
            final(self).advanced_from(old(self)),
            final(self).index() == ip6_at(old(self).input(), old(self).index()).end,
            ip6_result_is(r, ip6_at(old(self).input(), old(self).index()).value),
    {
        let ghost s = self.bytes@;
        let ghost start = self.pos as int;
        let mut st = Ip6Parser::new();
        loop
            invariant
                self.wf(),
                s == old(self).bytes@,
                start == old(self).pos,
                self.bytes@ == s,
                start <= self.pos,
                st.wf(),
                ip6_from(s, start, ip6_start()) == ip6_from(s, self.pos as int, st@),
            decreases s.len() - self.pos,
        {
            match self.next() {
                None => {
                    return st.finish(SPACE);
                },
                Some(ch) => {
                    if byte_is_hex_digit(ch) {
                        if st.part.len() < 4 {
                            st.part.push(ch);
                        } else {
                            return Err(Error::InvalidIp6);
                        }
                    } else if ch == COLON {
                        if !st.colon() {
                            return Err(Error::InvalidIp6);
                        }
                    } else if ch == DOT {
                        if !st.dot() {
                            return Err(Error::InvalidIp6);
                        }
                    } else {
                        let stop = if byte_is_whitespace(ch) { SPACE } else { ch };
                        return st.finish(stop);
                    }
                },
            }
        }
    }
}

} // verus!
