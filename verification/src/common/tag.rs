//! Keywords packed into integers, and the lexer of the tag that opens a
//! `tag=value` pair.

use vstd::prelude::*;
use crate::common::ascii::{
    byte_is_digit, byte_is_lower, byte_is_upper, byte_is_whitespace, byte_to_lower, digit_value,
    is_digit, is_lower, is_upper, is_whitespace, to_lower, CR, DIGIT_0, EQUALS, LF, SEMICOLON,
    SPACE, TAB,
};
use crate::common::cursor::{Cursor, Lexed};

verus! {

/// The tag `v`.
pub const V: u64 = 0x76;

/// The identifier of a keyword that is none of the known ones for certain:
/// one with a ninth character, or with a character that no keyword has.
pub const UNMATCHED: u64 = 0xffff_ffff_ffff_ffff;

/// 256 to the power `n`: the weight of the character at index `n` of a
/// keyword in its identifier.
pub open spec fn place_value(n: int) -> int {
    if n <= 0 {
        1
    } else if n == 1 {
        0x100
    } else if n == 2 {
        0x1_0000
    } else if n == 3 {
        0x100_0000
    } else if n == 4 {
        0x1_0000_0000
    } else if n == 5 {
        0x100_0000_0000
    } else if n == 6 {
        0x1_0000_0000_0000
    } else if n == 7 {
        0x100_0000_0000_0000
    } else {
        0x1_0000_0000_0000_0000
    }
}

/// What has been read of a keyword.
pub struct Packed {
    /// The identifier of the characters read.
    pub id: u64,
    /// Their number; 8 also once the keyword is unmatched.
    pub letters: int,
}

/// The states that reading can reach: the identifier lies below the weight
/// of the next character, and is zero as long as nothing was read.
pub open spec fn packed_wf(p: Packed) -> bool {
    &&& 0 <= p.letters <= 8
    &&& p.letters < 8 ==> p.id < place_value(p.letters)
    &&& p.letters == 0 <==> p.id == 0
}

/// The keyword with one more character, which is stored in lower case
/// above the ones before it.
pub open spec fn pack(p: Packed, ch: u8) -> Packed {
    Packed {
        id: (p.id + to_lower(ch) * place_value(p.letters)) as u64,
        letters: p.letters + 1,
    }
}

/// The keyword of `letters` characters with identifier `id`.
pub open spec fn packed(id: u64, letters: int) -> Packed {
    Packed { id, letters }
}

pub open spec fn nothing_packed() -> Packed {
    Packed { id: 0, letters: 0 }
}

pub open spec fn unmatched() -> Packed {
    Packed { id: UNMATCHED, letters: 8 }
}

/// Adding a character keeps a keyword within the reachable states: the
/// identifier stays below the weight of the next character, and is not zero.
pub proof fn lemma_pack_wf(p: Packed, ch: u8)
    requires
        packed_wf(p),
        p.letters < 8,
        ch != 0,
    ensures
        packed_wf(pack(p, ch)),
        pack(p, ch).id == p.id + to_lower(ch) * place_value(p.letters),
{
    let low = to_lower(ch) as int;
    let weight = place_value(p.letters);
    assert(low * weight <= 255 * weight) by (nonlinear_arith)
        requires
            low <= 255,
            weight >= 0,
    ;
    assert(low * weight >= weight) by (nonlinear_arith)
        requires
            low >= 1,
            weight >= 0,
    ;
}

/// The keyword that the bytes of `word` make, packed one after the other.
pub open spec fn packed_word(word: Seq<u8>) -> Packed
    decreases word.len(),
{
    if word.len() == 0 {
        nothing_packed()
    } else {
        pack(packed_word(word.drop_last()), word.last())
    }
}

/// A word with one more byte packs to the word with that byte added.
pub proof fn lemma_packed_word_push(word: Seq<u8>, ch: u8)
    ensures
        packed_word(word.push(ch)) == pack(packed_word(word), ch),
{
    assert(word.push(ch).drop_last() =~= word);
}

fn place(n: u8) -> (w: u64)
    requires
        n < 8,
    ensures
        w == place_value(n as int),
{
    if n == 0 {
        1
    } else if n == 1 {
        0x100
    } else if n == 2 {
        0x1_0000
    } else if n == 3 {
        0x100_0000
    } else if n == 4 {
        0x1_0000_0000
    } else if n == 5 {
        0x100_0000_0000
    } else if n == 6 {
        0x1_0000_0000_0000
    } else {
        0x100_0000_0000_0000
    }
}

/// Adds the character `ch` to a keyword of `letters` characters.
pub(crate) fn pack_byte(id: u64, letters: u8, ch: u8) -> (r: u64)
    requires
        letters < 8,
        packed_wf(packed(id, letters as int)),
        ch != 0,
    ensures
        packed(r, letters + 1) == pack(packed(id, letters as int), ch),
        packed_wf(packed(r, letters + 1)),
{
    let low = byte_to_lower(ch);
    let weight = place(letters);
    proof {
        lemma_pack_wf(packed(id, letters as int), ch);
    }
    id + (low as u64) * weight
}

/// Whitespace inside a tag list: space, tab, carriage return or line feed.
pub open spec fn is_tag_space(ch: u8) -> bool {
    ch == SPACE || ch == TAB || ch == CR || ch == LF
}

/// The tag written from index `i` on, `p` being what was read of it. The
/// letters before the equals sign are packed in lower case, whitespace is
/// skipped, a semicolon starts the tag afresh, and any other byte, a ninth
/// letter too, makes the tag unmatched. Without an equals sign there is no
/// tag.
pub open spec fn key_from(s: Seq<u8>, i: int, p: Packed) -> Lexed<Option<u64>>
    decreases s.len() - i,
{
    if i < 0 || i >= s.len() {
        Lexed { value: None, end: i }
    } else if (is_lower(s[i]) || is_upper(s[i])) && p.letters < 8 {
        key_from(s, i + 1, pack(p, s[i]))
    } else if is_tag_space(s[i]) {
        key_from(s, i + 1, p)
    } else if s[i] == EQUALS {
        Lexed { value: Some(p.id), end: i + 1 }
    } else if s[i] == SEMICOLON {
        key_from(s, i + 1, nothing_packed())
    } else {
        key_from(s, i + 1, unmatched())
    }
}

/// The tag written at index `i`, up to and including its equals sign.
pub open spec fn key_at(s: Seq<u8>, i: int) -> Lexed<Option<u64>> {
    key_from(s, i, nothing_packed())
}

/// A tag ends between its start and the end of the input, and behind its
/// start where there is one.
pub proof fn lemma_key_end(s: Seq<u8>, i: int, p: Packed)
    requires
        0 <= i <= s.len(),
    ensures
        i <= key_from(s, i, p).end <= s.len(),
        key_from(s, i, p).value is Some ==> i < key_from(s, i, p).end,
    decreases s.len() - i,
{
    if i < s.len() {
        if (is_lower(s[i]) || is_upper(s[i])) && p.letters < 8 {
            lemma_key_end(s, i + 1, pack(p, s[i]));
        } else if is_tag_space(s[i]) {
            lemma_key_end(s, i + 1, p);
        } else if s[i] == EQUALS {
        } else if s[i] == SEMICOLON {
            lemma_key_end(s, i + 1, nothing_packed());
        } else {
            lemma_key_end(s, i + 1, unmatched());
        }
    }
}

impl<'a> Cursor<'a> {
    /// Reads the tag of the next `tag=value` pair.
    pub fn key(&mut self) -> (r: Option<u64>)
        requires
            old(self).wf(),
        ensures
            final(self).advanced_from(old(self)),
            final(self).index() == key_at(old(self).input(), old(self).index()).end,
            r == key_at(old(self).input(), old(self).index()).value,
    {
        let ghost s = self.bytes@;
        let ghost start = self.pos as int;
        let mut id: u64 = 0;
        let mut letters: u8 = 0;
        loop
            invariant
                self.wf(),
                s == old(self).bytes@,
                start == old(self).pos,
                self.bytes@ == s,
                start <= self.pos,
                packed_wf(packed(id, letters as int)),
                key_at(s, start) == key_from(s, self.pos as int, packed(id, letters as int)),
            decreases s.len() - self.pos,
        {
            match self.next() {
                None => {
                    return None;
                },
                Some(ch) => {
                    if (byte_is_lower(ch) || byte_is_upper(ch)) && letters < 8 {
                        id = pack_byte(id, letters, ch);
                        letters = letters + 1;
                    } else if ch == SPACE || ch == TAB || ch == CR || ch == LF {
                    } else if ch == EQUALS {
                        return Some(id);
                    } else if ch == SEMICOLON {
                        id = 0;
                        letters = 0;
                    } else {
                        id = UNMATCHED;
                        letters = 8;
                    }
                },
            }
        }
    }
}

/// The index of the semicolon that ends the value beginning at index `i`,
/// or the end of the input where there is none.
pub open spec fn value_end(s: Seq<u8>, i: int) -> int
    decreases s.len() - i,
{
    if i < 0 || i >= s.len() || s[i] == SEMICOLON {
        i
    } else {
        value_end(s, i + 1)
    }
}

/// A value ends between its start and the end of the input.
pub proof fn lemma_value_end(s: Seq<u8>, i: int)
    requires
        0 <= i <= s.len(),
    ensures
        i <= value_end(s, i) <= s.len(),
    decreases s.len() - i,
{
    if i < s.len() && s[i] != SEMICOLON {
        lemma_value_end(s, i + 1);
    }
}

/// One `tag=value` pair of a tag list: the identifier of its tag, and where
/// its value lies.
#[derive(Debug, Clone, Copy, PartialEq, Eq)]
pub struct Tag {
    pub key: u64,
    pub start: usize,
    pub end: usize,
}

/// The mathematical value of a [`Tag`].
pub struct TagSpan {
    pub key: u64,
    pub start: int,
    pub end: int,
}

impl Tag {
    pub open spec fn view(&self) -> TagSpan {
        TagSpan { key: self.key, start: self.start as int, end: self.end as int }
    }
}

/// The values of a sequence of tags.
pub open spec fn tag_views(tags: Seq<Tag>) -> Seq<TagSpan> {
    Seq::new(tags.len(), |i: int| tags[i]@)
}

/// The index at which the pair behind a value that ends at `end` begins:
/// behind the semicolon, if one stands there.
pub open spec fn next_pair(s: Seq<u8>, end: int) -> int {
    if end < s.len() {
        end + 1
    } else {
        end
    }
}

/// The pairs of the tag list written from index `i` on, in its order. Each
/// value runs from behind the equals sign to the next semicolon or to the
/// end of the input.
pub open spec fn tags_from(s: Seq<u8>, i: int) -> Seq<TagSpan>
    decreases s.len() - i,
    when 0 <= i <= s.len()
{
    let k = key_at(s, i);
    match k.value {
        None => Seq::empty(),
        Some(key) => {
            let end = value_end(s, k.end);
            proof {
                lemma_key_end(s, i, nothing_packed());
                lemma_value_end(s, k.end);
            }
            seq![TagSpan { key, start: k.end, end }] + tags_from(s, next_pair(s, end))
        },
    }
}

/// Every value of the list lies within the input.
pub open spec fn spans_within(tags: Seq<TagSpan>, len: int) -> bool {
    forall|k: int| 0 <= k < tags.len() ==> 0 <= (#[trigger] tags[k]).start <= tags[k].end <= len
}

/// The values of a tag list lie within the input.
pub proof fn lemma_tags_within(s: Seq<u8>, i: int)
    requires
        0 <= i <= s.len(),
    ensures
        spans_within(tags_from(s, i), s.len() as int),
    decreases s.len() - i,
{
    let k = key_at(s, i);
    if k.value is Some {
        let end = value_end(s, k.end);
        lemma_key_end(s, i, nothing_packed());
        lemma_value_end(s, k.end);
        lemma_tags_within(s, next_pair(s, end));
    }
}

/// The first pair of the list whose tag is `key`.
pub open spec fn first_tag(tags: Seq<TagSpan>, key: u64) -> Option<TagSpan>
    decreases tags.len(),
{
    if tags.len() == 0 {
        None
    } else if tags[0].key == key {
        Some(tags[0])
    } else {
        first_tag(tags.drop_first(), key)
    }
}

/// A pair that is found is one of the list.
pub proof fn lemma_first_tag(tags: Seq<TagSpan>, key: u64)
    ensures
        first_tag(tags, key) matches Some(t) ==> tags.contains(t) && t.key == key,
    decreases tags.len(),
{
    if tags.len() > 0 && tags[0].key != key {
        lemma_first_tag(tags.drop_first(), key);
        if let Some(t) = first_tag(tags.drop_first(), key) {
            let j = choose|j: int| 0 <= j < tags.drop_first().len() && tags.drop_first()[j] == t;
            assert(tags[j + 1] == t);
        }
    }
}

/// A decimal digit appended to a number, which stays at the largest `u64`
/// once it would pass it.
pub open spec fn push_number_digit(acc: u64, ch: u8) -> u64 {
    if acc * 10 + digit_value(ch) > u64::MAX {
        u64::MAX
    } else {
        (acc * 10 + digit_value(ch)) as u64
    }
}

/// The number that the bytes of `v` from index `i` on write, `acc` being
/// the value of the digits before and `seen` saying that there were any.
/// Whitespace may stand anywhere; any other byte, or no digit at all, makes
/// it no number.
pub open spec fn number_from(v: Seq<u8>, i: int, acc: u64, seen: bool) -> Option<u64>
    decreases v.len() - i,
{
    if i < 0 || i >= v.len() {
        if seen {
            Some(acc)
        } else {
            None
        }
    } else if is_digit(v[i]) {
        number_from(v, i + 1, push_number_digit(acc, v[i]), true)
    } else if is_whitespace(v[i]) {
        number_from(v, i + 1, acc, seen)
    } else {
        None
    }
}

/// The number that a value writes in decimal.
pub open spec fn number_of(v: Seq<u8>) -> Option<u64> {
    number_from(v, 0, 0, false)
}

/// The bytes of a value without its whitespace, letters in lower case.
pub open spec fn squeezed(v: Seq<u8>) -> Seq<u8>
    decreases v.len(),
{
    if v.len() == 0 {
        Seq::empty()
    } else if is_whitespace(v.last()) {
        squeezed(v.drop_last())
    } else {
        squeezed(v.drop_last()).push(to_lower(v.last()))
    }
}

/// The value of the first pair whose tag is `key`, if there is one.
pub open spec fn value_of(s: Seq<u8>, tags: Seq<TagSpan>, key: u64) -> Option<Seq<u8>> {
    match first_tag(tags, key) {
        Some(t) => Some(s.subrange(t.start, t.end)),
        None => None,
    }
}

/// The tag `key` is there and its value holds more than whitespace.
pub open spec fn has_value(s: Seq<u8>, tags: Seq<TagSpan>, key: u64) -> bool {
    value_of(s, tags, key) matches Some(v) && squeezed(v).len() > 0
}

/// Splits a tag list into its pairs.
pub fn tag_list(bytes: &[u8]) -> (tags: Vec<Tag>)
    ensures
        tag_views(tags@) == tags_from(bytes@, 0),
        spans_within(tag_views(tags@), bytes@.len() as int),
{
    let mut cursor = Cursor::new(bytes);
    let mut tags: Vec<Tag> = Vec::new();
    assert(tag_views(tags@) =~= Seq::<TagSpan>::empty());
    proof {
        lemma_tags_within(bytes@, 0);
    }
    loop
        invariant
            cursor.wf(),
            cursor.input() == bytes@,
            tags_from(bytes@, 0) == tag_views(tags@) + tags_from(bytes@, cursor.index()),
        decreases bytes@.len() - cursor.index(),
    {
        let ghost i = cursor.index();
        let ghost before = tag_views(tags@);
        proof {
            lemma_key_end(bytes@, i, nothing_packed());
        }
        match cursor.key() {
            None => {
                assert(before + Seq::<TagSpan>::empty() =~= before);
                proof {
                    lemma_tags_within(bytes@, 0);
                }
                return tags;
            },
            Some(key) => {
                let start = cursor.pos;
                proof {
                    lemma_value_end(bytes@, start as int);
                }
                while cursor.pos < bytes.len() && bytes[cursor.pos] != SEMICOLON
                    invariant
                        cursor.wf(),
                        cursor.bytes@ == bytes@,
                        start <= cursor.pos,
                        value_end(bytes@, start as int) == value_end(bytes@, cursor.pos as int),
                    decreases bytes@.len() - cursor.pos,
                {
                    cursor.pos += 1;
                }
                let end = cursor.pos;
                tags.push(Tag { key, start, end });
                if cursor.pos < bytes.len() {
                    cursor.pos += 1;
                }
                assert(tag_views(tags@) =~= before + seq![
                    TagSpan { key, start: start as int, end: end as int },
                ]);
                assert(before + (seq![TagSpan { key, start: start as int, end: end as int }]
                    + tags_from(bytes@, cursor.index())) =~= tag_views(tags@) + tags_from(
                    bytes@,
                    cursor.index(),
                ));
            },
        }
    }
}

/// Finds the first pair whose tag is `key`.
pub fn find_tag(tags: &Vec<Tag>, key: u64) -> (r: Option<Tag>)
    ensures
        match r {
            Some(t) => first_tag(tag_views(tags@), key) == Some(t@),
            None => first_tag(tag_views(tags@), key) is None,
        },
{
    let mut k: usize = 0;
    assert(tag_views(tags@).skip(0) =~= tag_views(tags@));
    while k < tags.len()
        invariant
            k <= tags@.len(),
            first_tag(tag_views(tags@), key) == first_tag(tag_views(tags@).skip(k as int), key),
        decreases tags@.len() - k,
    {
        if tags[k].key == key {
            return Some(tags[k]);
        }
        assert(tag_views(tags@).skip(k as int).drop_first() =~= tag_views(tags@).skip(k + 1));
        k += 1;
    }
    None
}

/// Reads a value as a decimal number.
pub fn number(value: &[u8]) -> (r: Option<u64>)
    ensures
        r == number_of(value@),
{
    let mut acc: u64 = 0;
    let mut seen = false;
    let mut i: usize = 0;
    while i < value.len()
        invariant
            i <= value@.len(),
            number_of(value@) == number_from(value@, i as int, acc, seen),
        decreases value@.len() - i,
    {
        let ch = value[i];
        if byte_is_digit(ch) {
            let wide: u128 = (acc as u128) * 10 + ((ch - DIGIT_0) as u128);
            acc = if wide > 0xffff_ffff_ffff_ffff {
                0xffff_ffff_ffff_ffff
            } else {
                wide as u64
            };
            seen = true;
        } else if !byte_is_whitespace(ch) {
            return None;
        }
        i += 1;
    }
    if seen {
        Some(acc)
    } else {
        None
    }
}

/// Copies a value without its whitespace and in lower case.
pub fn squeeze(value: &[u8]) -> (r: Vec<u8>)
    ensures
        r@ == squeezed(value@),
{
    let mut out: Vec<u8> = Vec::new();
    let mut i: usize = 0;
    assert(value@.subrange(0, 0) =~= Seq::<u8>::empty());
    while i < value.len()
        invariant
            i <= value@.len(),
            out@ == squeezed(value@.subrange(0, i as int)),
        decreases value@.len() - i,
    {
        let ch = value[i];
        assert(value@.subrange(0, i + 1).drop_last() =~= value@.subrange(0, i as int));
        if !byte_is_whitespace(ch) {
            out.push(byte_to_lower(ch));
        }
        i += 1;
    }
    assert(value@.subrange(0, i as int) =~= value@);
    out
}

/// Whether two byte strings are the same.
pub fn bytes_eq(a: &[u8], b: &[u8]) -> (r: bool)
    ensures
        r == (a@ == b@),
{
    if a.len() != b.len() {
        return false;
    }
    let mut k: usize = 0;
    while k < a.len()
        invariant
            k <= a@.len() == b@.len(),
            forall|j: int| 0 <= j < k ==> a@[j] == b@[j],
        decreases a@.len() - k,
    {
        if a[k] != b[k] {
            return false;
        }
        k += 1;
    }
    assert(a@ =~= b@);
    true
}

} // verus!
