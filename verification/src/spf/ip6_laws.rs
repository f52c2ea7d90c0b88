//! What holds of the IPv6 literal for every text of the usual forms: the
//! written groups come out as they are written, and `::` stands for the
//! zero groups that are missing.

use vstd::prelude::*;
use crate::common::ascii::{decimal_number, is_digit, is_hex_digit, COLON, DOT, SPACE};
use crate::common::cursor::stop_char;
use crate::spf::ip6::{
    all_hex_digits, decimal_octet, hex_number, ip6_at, ip6_from, ip6_start,
    lemma_decimal_number_bound, zero_groups, Ip6State,
};
use crate::spf::Error;

verus! {

/// The text of one group: one to four hexadecimal digits.
pub open spec fn is_group_text(g: Seq<u8>) -> bool {
    1 <= g.len() <= 4 && all_hex_digits(g)
}

/// Each element of `parts` is the text of one group.
pub open spec fn are_group_texts(parts: Seq<Seq<u8>>) -> bool {
    forall|k: int| 0 <= k < parts.len() ==> is_group_text(#[trigger] parts[k])
}

/// The texts of groups, one after the other with a colon in between.
pub open spec fn groups_text(parts: Seq<Seq<u8>>) -> Seq<u8>
    decreases parts.len(),
{
    if parts.len() == 0 {
        Seq::empty()
    } else if parts.len() == 1 {
        parts[0]
    } else {
        parts[0] + seq![COLON] + groups_text(parts.drop_first())
    }
}

/// The groups that the texts write.
pub open spec fn group_values(parts: Seq<Seq<u8>>) -> Seq<u16> {
    Seq::new(parts.len(), |k: int| hex_number(parts[k]) as u16)
}

/// The text `t` stands in `s` at index `i`.
pub open spec fn stands_at(s: Seq<u8>, i: int, t: Seq<u8>) -> bool {
    0 <= i && i + t.len() <= s.len() && s.subrange(i, i + t.len()) == t
}

/// The literal ends at index `e`: the input ends there, or a byte stands
/// there that is no hexadecimal digit, colon or dot.
pub open spec fn literal_ends_at(s: Seq<u8>, e: int) -> bool {
    e == s.len() || (0 <= e < s.len() && !is_hex_digit(s[e]) && s[e] != COLON && s[e] != DOT)
}

/// The stop character of a literal that ends at index `e`.
pub open spec fn stop_at(s: Seq<u8>, e: int) -> u8 {
    if e < s.len() {
        stop_char(s[e])
    } else {
        SPACE
    }
}

/// The state in which `groups` are complete, `part` holds the digits read
/// since, and no dotted quad has begun.
pub open spec fn reading(groups: Seq<u16>, part: Seq<u8>, zero: Option<int>) -> Ip6State {
    Ip6State { groups, pending: 0, quads: 0, part, zero }
}

/// The state `st` with the digits `part` read since the last separator.
pub open spec fn with_part(st: Ip6State, part: Seq<u8>) -> Ip6State {
    Ip6State { part, ..st }
}

/// Reading the digits of one group or octet leads from behind some of them
/// to behind all of them.
proof fn lemma_read_part(s: Seq<u8>, i: int, g: Seq<u8>, k: int, st: Ip6State)
    requires
        is_group_text(g),
        stands_at(s, i, g),
        0 <= k <= g.len(),
    ensures
        ip6_from(s, i + k, with_part(st, g.subrange(0, k))) == ip6_from(
            s,
            i + g.len(),
            with_part(st, g),
        ),
    decreases g.len() - k,
{
    if k < g.len() {
        assert(s[i + k] == s.subrange(i, i + g.len())[k]);
        assert(is_hex_digit(g[k]));
        assert(g.subrange(0, k).push(g[k]) =~= g.subrange(0, k + 1));
        lemma_read_part(s, i, g, k + 1, st);
    } else {
        assert(g.subrange(0, k) =~= g);
    }
}

/// Reading written groups leads from before the first to behind the last,
/// whose digits are then still to be closed; the groups before it are
/// complete, with the values that their texts write.
proof fn lemma_read_groups(
    s: Seq<u8>,
    i: int,
    parts: Seq<Seq<u8>>,
    groups: Seq<u16>,
    zero: Option<int>,
)
    requires
        parts.len() >= 1,
        are_group_texts(parts),
        stands_at(s, i, groups_text(parts)),
        groups.len() + parts.len() <= 8,
    ensures
        ip6_from(s, i, reading(groups, Seq::empty(), zero)) == ip6_from(
            s,
            i + groups_text(parts).len(),
            reading(groups + group_values(parts.drop_last()), parts.last(), zero),
        ),
    decreases parts.len(),
{
    let g = parts[0];
    let text = groups_text(parts);
    assert(is_group_text(g));
    if parts.len() == 1 {
        lemma_read_part(s, i, g, 0, reading(groups, Seq::empty(), zero));
        assert(g.subrange(0, 0) =~= Seq::<u8>::empty());
        assert(groups + group_values(parts.drop_last()) =~= groups);
    } else {
        let rest = parts.drop_first();
        let tail = groups_text(rest);
        assert(text == g + seq![COLON] + tail);
        assert(s.subrange(i, i + g.len()) =~= g) by {
            assert forall|k: int| 0 <= k < g.len() implies s[i + k] == g[k] by {
                assert(s.subrange(i, i + text.len())[k] == text[k]);
            }
        }
        lemma_read_part(s, i, g, 0, reading(groups, Seq::empty(), zero));
        assert(g.subrange(0, 0) =~= Seq::<u8>::empty());
        assert(s[i + g.len()] == COLON) by {
            assert(s.subrange(i, i + text.len())[g.len() as int] == text[g.len() as int]);
        }
        let next = groups.push(hex_number(g) as u16);
        assert(ip6_from(s, i + g.len(), reading(groups, g, zero)) == ip6_from(
            s,
            i + g.len() + 1,
            reading(next, Seq::empty(), zero),
        ));
        assert(s.subrange(i + g.len() + 1, i + g.len() + 1 + tail.len()) =~= tail) by {
            assert forall|k: int| 0 <= k < tail.len() implies s[i + g.len() + 1 + k] == tail[k] by {
                assert(s.subrange(i, i + text.len())[g.len() as int + 1 + k] == text[g.len() as int
                    + 1 + k]);
            }
        }
        assert(are_group_texts(rest)) by {
            assert forall|k: int| 0 <= k < rest.len() implies is_group_text(
                #[trigger] rest[k],
            ) by {
                assert(rest[k] == parts[k + 1]);
            }
        }
        lemma_read_groups(s, i + g.len() + 1, rest, next, zero);
        assert(rest.last() == parts.last());
        assert(next + group_values(rest.drop_last()) =~= groups + group_values(
            parts.drop_last(),
        )) by {
            assert forall|k: int| 0 <= k < rest.drop_last().len() implies rest.drop_last()[k]
                == parts.drop_last()[k + 1] by {}
        }
    }
}

/// The last of the written groups, once it is closed, completes the values
/// that the texts write.
proof fn lemma_close_values(parts: Seq<Seq<u8>>)
    requires
        parts.len() >= 1,
    ensures
        group_values(parts.drop_last()).push(hex_number(parts.last()) as u16) == group_values(
            parts,
        ),
{
    assert(group_values(parts.drop_last()).push(hex_number(parts.last()) as u16) =~= group_values(
        parts,
    ));
}

/// An address in full form: eight groups, each of one to four hexadecimal
/// digits, with colons in between. Its groups are the written ones.
pub proof fn lemma_written_groups(s: Seq<u8>, j: int, parts: Seq<Seq<u8>>)
    requires
        parts.len() == 8,
        are_group_texts(parts),
        stands_at(s, j, groups_text(parts)),
        literal_ends_at(s, j + groups_text(parts).len()),
    ensures
        ip6_at(s, j).value == Ok::<(Seq<u16>, u8), Error>(
            (group_values(parts), stop_at(s, j + groups_text(parts).len())),
        ),
{
    lemma_read_groups(s, j, parts, Seq::empty(), None);
    lemma_close_values(parts);
    assert(Seq::<u16>::empty() + group_values(parts.drop_last()) =~= group_values(
        parts.drop_last(),
    ));
    assert(group_values(parts) + zero_groups(0) =~= group_values(parts));
}

/// Reading the groups written before `::`, and `::` itself, leads to the
/// state in which these groups are complete and the place of the zero run
/// is marked behind them.
proof fn lemma_read_to_marker(s: Seq<u8>, j: int, before: Seq<Seq<u8>>)
    requires
        are_group_texts(before),
        before.len() <= 7,
        stands_at(s, j, groups_text(before) + seq![COLON, COLON]),
    ensures
        ip6_at(s, j) == ip6_from(
            s,
            j + groups_text(before).len() + 2,
            reading(group_values(before), Seq::empty(), Some(before.len() as int)),
        ),
{
    let head = groups_text(before);
    let text = head + seq![COLON, COLON];
    let p = j + head.len();
    let nb = before.len() as int;
    assert forall|k: int| 0 <= k < text.len() implies s[j + k] == text[k] by {
        assert(s.subrange(j, j + text.len())[k] == text[k]);
    }
    assert(s[p] == COLON) by {
        assert(text[head.len() as int] == COLON);
    }
    assert(s[p + 1] == COLON) by {
        assert(text[head.len() as int + 1] == COLON);
    }
    assert(s.subrange(j, j + head.len()) =~= head) by {
        assert forall|k: int| 0 <= k < head.len() implies s[j + k] == head[k] by {
            assert(text[k] == head[k]);
        }
    }
    let vb = group_values(before);
    let marked = reading(vb, Seq::empty(), Some(nb));
    if nb == 0 {
        assert(head =~= Seq::<u8>::empty());
        assert(vb =~= Seq::<u16>::empty());
        let first = reading(Seq::empty(), Seq::empty(), Some(0int));
        assert(ip6_from(s, j, ip6_start()) == ip6_from(s, j + 1, first));
        assert(ip6_from(s, j + 1, first) == ip6_from(s, j + 2, first));
        assert(first == marked);
    } else {
        lemma_read_groups(s, j, before, Seq::empty(), None);
        lemma_close_values(before);
        assert(Seq::<u16>::empty() + group_values(before.drop_last()) =~= group_values(
            before.drop_last(),
        ));
        let open = reading(group_values(before.drop_last()), before.last(), None);
        let closed = reading(vb, Seq::empty(), None);
        assert(ip6_from(s, p, open) == ip6_from(s, p + 1, closed));
        assert(ip6_from(s, p + 1, closed) == ip6_from(s, p + 2, marked));
    }
}

/// A text of which a front part stands at an index has that part standing
/// there, and the rest behind it.
proof fn lemma_stands_apart(s: Seq<u8>, j: int, front: Seq<u8>, back: Seq<u8>)
    requires
        stands_at(s, j, front + back),
    ensures
        stands_at(s, j, front),
        stands_at(s, j + front.len(), back),
{
    let text = front + back;
    assert(s.subrange(j, j + front.len()) =~= front) by {
        assert forall|k: int| 0 <= k < front.len() implies s[j + k] == front[k] by {
            assert(s.subrange(j, j + text.len())[k] == text[k]);
        }
    }
    assert(s.subrange(j + front.len(), j + front.len() + back.len()) =~= back) by {
        assert forall|k: int| 0 <= k < back.len() implies s[j + front.len() + k] == back[k] by {
            assert(s.subrange(j, j + text.len())[front.len() as int + k] == text[front.len() as int
                + k]);
        }
    }
}

/// An address with `::`: the groups written before it, `::`, and the groups
/// written behind it, each of one to four hexadecimal digits with colons in
/// between. Its groups are those before `::`, then as many zeros as are
/// missing, then those behind `::`. At most six groups may be written, and
/// seven where `::` ends the address.
pub proof fn lemma_compressed_groups(
    s: Seq<u8>,
    j: int,
    before: Seq<Seq<u8>>,
    after: Seq<Seq<u8>>,
)
    requires
        are_group_texts(before),
        are_group_texts(after),
        stands_at(s, j, groups_text(before) + seq![COLON, COLON] + groups_text(after)),
        literal_ends_at(s, j + groups_text(before).len() + 2 + groups_text(after).len()),
        before.len() + after.len() <= 6 || (after.len() == 0 && before.len() == 7),
    ensures
        ip6_at(s, j).value == Ok::<(Seq<u16>, u8), Error>(
            (
                group_values(before) + zero_groups(8 - before.len() - after.len()) + group_values(
                    after,
                ),
                stop_at(s, j + groups_text(before).len() + 2 + groups_text(after).len()),
            ),
        ),
{
    let head = groups_text(before) + seq![COLON, COLON];
    let tail = groups_text(after);
    let nb = before.len() as int;
    let vb = group_values(before);
    lemma_stands_apart(s, j, head, tail);
    lemma_read_to_marker(s, j, before);
    if after.len() == 0 {
        assert(tail =~= Seq::<u8>::empty());
        assert(group_values(after) =~= Seq::<u16>::empty());
        assert(vb + zero_groups(8 - nb) =~= vb + zero_groups(8 - nb - 0) + group_values(after));
    } else {
        lemma_read_groups(s, j + head.len(), after, vb, Some(nb));
        lemma_close_values(after);
        let all = vb + group_values(after);
        assert((vb + group_values(after.drop_last())).push(hex_number(after.last()) as u16)
            =~= all);
        assert(all.subrange(0, nb) =~= vb);
        assert(all.subrange(nb, all.len() as int) =~= group_values(after));
    }
}

/// The text of one octet of a dotted quad: one to four decimal digits that
/// write a number up to 255.
pub open spec fn is_octet_text(t: Seq<u8>) -> bool {
    1 <= t.len() <= 4 && decimal_octet(t) is Some
}

/// The text of a dotted quad: four octets with dots in between.
pub open spec fn quad_text(o1: Seq<u8>, o2: Seq<u8>, o3: Seq<u8>, o4: Seq<u8>) -> Seq<u8> {
    o1 + seq![DOT] + o2 + seq![DOT] + o3 + seq![DOT] + o4
}

/// The group that two octets make: the first is its high byte, the second
/// its low byte.
pub open spec fn octet_pair(high: Seq<u8>, low: Seq<u8>) -> u16 {
    (decimal_number(high) * 256 + decimal_number(low)) as u16
}

/// The state in which a dotted quad is read up to its fourth octet: the
/// first two octets make a complete group, the third is the high byte of
/// the next.
pub open spec fn quad_read(
    groups: Seq<u16>,
    zero: Option<int>,
    o1: Seq<u8>,
    o2: Seq<u8>,
    o3: Seq<u8>,
    o4: Seq<u8>,
) -> Ip6State {
    Ip6State {
        groups: groups.push(octet_pair(o1, o2)),
        pending: decimal_number(o3) as u16,
        quads: 3,
        part: o4,
        zero,
    }
}

/// An octet text is the text of a group as far as its digits go.
proof fn lemma_octet_is_part(t: Seq<u8>)
    requires
        is_octet_text(t),
    ensures
        is_group_text(t),
        decimal_octet(t) == Some(decimal_number(t) as u8),
        0 <= decimal_number(t) <= 255,
{
    assert forall|k: int| 0 <= k < t.len() implies is_hex_digit(#[trigger] t[k]) by {
        assert(is_digit(t[k]));
    }
    lemma_decimal_number_bound(t);
}

/// Reading a dotted quad leads from before its first octet to behind its
/// fourth.
proof fn lemma_read_quad(
    s: Seq<u8>,
    i: int,
    groups: Seq<u16>,
    zero: Option<int>,
    o1: Seq<u8>,
    o2: Seq<u8>,
    o3: Seq<u8>,
    o4: Seq<u8>,
)
    requires
        is_octet_text(o1) && is_octet_text(o2) && is_octet_text(o3) && is_octet_text(o4),
        stands_at(s, i, quad_text(o1, o2, o3, o4)),
        groups.len() <= 6,
    ensures
        ip6_from(s, i, reading(groups, Seq::empty(), zero)) == ip6_from(
            s,
            i + quad_text(o1, o2, o3, o4).len(),
            quad_read(groups, zero, o1, o2, o3, o4),
        ),
{
    lemma_octet_is_part(o1);
    lemma_octet_is_part(o2);
    lemma_octet_is_part(o3);
    lemma_octet_is_part(o4);
    let dot = seq![DOT];
    assert(quad_text(o1, o2, o3, o4) =~= o1 + (dot + (o2 + (dot + (o3 + (dot + o4))))));
    lemma_stands_apart(s, i, o1, dot + (o2 + (dot + (o3 + (dot + o4)))));
    let i1 = i + o1.len();
    lemma_stands_apart(s, i1, dot, o2 + (dot + (o3 + (dot + o4))));
    let i2 = i1 + 1;
    lemma_stands_apart(s, i2, o2, dot + (o3 + (dot + o4)));
    let i3 = i2 + o2.len();
    lemma_stands_apart(s, i3, dot, o3 + (dot + o4));
    let i4 = i3 + 1;
    lemma_stands_apart(s, i4, o3, dot + o4);
    let i5 = i4 + o3.len();
    lemma_stands_apart(s, i5, dot, o4);
    let i6 = i5 + 1;
    assert(s[i1] == DOT) by {
        assert(s.subrange(i1, i1 + 1)[0] == dot[0]);
    }
    assert(s[i3] == DOT) by {
        assert(s.subrange(i3, i3 + 1)[0] == dot[0]);
    }
    assert(s[i5] == DOT) by {
        assert(s.subrange(i5, i5 + 1)[0] == dot[0]);
    }
    let empty = Seq::<u8>::empty();
    let st0 = reading(groups, empty, zero);
    lemma_read_part(s, i, o1, 0, st0);
    assert(o1.subrange(0, 0) =~= empty);
    let st1 = Ip6State { pending: decimal_number(o1) as u16, quads: 1, ..st0 };
    assert(ip6_from(s, i1, with_part(st0, o1)) == ip6_from(s, i2, st1));
    lemma_read_part(s, i2, o2, 0, st1);
    assert(o2.subrange(0, 0) =~= empty);
    let st2 = Ip6State {
        groups: groups.push(octet_pair(o1, o2)),
        pending: 0,
        quads: 2,
        part: empty,
        zero,
    };
    assert(ip6_from(s, i3, with_part(st1, o2)) == ip6_from(s, i4, st2));
    lemma_read_part(s, i4, o3, 0, st2);
    assert(o3.subrange(0, 0) =~= empty);
    let st3 = Ip6State { pending: decimal_number(o3) as u16, quads: 3, ..st2 };
    assert(ip6_from(s, i5, with_part(st2, o3)) == ip6_from(s, i6, st3));
    lemma_read_part(s, i6, o4, 0, st3);
    assert(o4.subrange(0, 0) =~= empty);
    assert(with_part(st3, o4) == quad_read(groups, zero, o1, o2, o3, o4));
}

/// Reading written groups and the colon behind the last of them leads to
/// the state in which they are complete.
proof fn lemma_read_groups_and_colon(s: Seq<u8>, j: int, parts: Seq<Seq<u8>>)
    requires
        1 <= parts.len() <= 8,
        are_group_texts(parts),
        stands_at(s, j, groups_text(parts) + seq![COLON]),
    ensures
        ip6_at(s, j) == ip6_from(
            s,
            j + groups_text(parts).len() + 1,
            reading(group_values(parts), Seq::empty(), None),
        ),
{
    let head = groups_text(parts);
    let colon = seq![COLON];
    lemma_stands_apart(s, j, head, colon);
    let p = j + head.len();
    assert(s[p] == COLON) by {
        assert(s.subrange(p, p + 1)[0] == colon[0]);
    }
    lemma_read_groups(s, j, parts, Seq::empty(), None);
    lemma_close_values(parts);
    assert(Seq::<u16>::empty() + group_values(parts.drop_last()) =~= group_values(
        parts.drop_last(),
    ));
    let open = reading(group_values(parts.drop_last()), parts.last(), None);
    let closed = reading(group_values(parts), Seq::empty(), None);
    assert(ip6_from(s, p, open) == ip6_from(s, p + 1, closed));
}

/// Reading the groups before `::`, `::` itself, and the groups behind it
/// with the colon behind each leads to the state in which all of them are
/// complete and the place of the zero run is marked.
proof fn lemma_read_run_and_groups(
    s: Seq<u8>,
    j: int,
    before: Seq<Seq<u8>>,
    after: Seq<Seq<u8>>,
)
    requires
        are_group_texts(before),
        are_group_texts(after),
        before.len() + after.len() <= 7,
        stands_at(s, j, groups_text(before) + seq![COLON, COLON] + groups_and_colon(after)),
    ensures
        ip6_at(s, j) == ip6_from(
            s,
            j + groups_text(before).len() + 2 + groups_and_colon(after).len(),
            reading(
                group_values(before) + group_values(after),
                Seq::empty(),
                Some(before.len() as int),
            ),
        ),
{
    let head = groups_text(before) + seq![COLON, COLON];
    let mid = groups_and_colon(after);
    let nb = before.len() as int;
    let vb = group_values(before);
    let va = group_values(after);
    lemma_stands_apart(s, j, head, mid);
    let p = j + head.len();
    lemma_read_to_marker(s, j, before);
    let q = p + mid.len();
    if after.len() == 0 {
        assert(mid =~= Seq::<u8>::empty());
        assert(va =~= Seq::<u16>::empty());
        assert(vb + va =~= vb);
    } else {
        let colon = seq![COLON];
        lemma_stands_apart(s, p, groups_text(after), colon);
        lemma_read_groups(s, p, after, vb, Some(nb));
        lemma_close_values(after);
        assert(s[q - 1] == COLON) by {
            assert(s.subrange(q - 1, q - 1 + 1)[0] == colon[0]);
        }
        let open = reading(vb + group_values(after.drop_last()), after.last(), Some(nb));
        let closed = reading(vb + va, Seq::empty(), Some(nb));
        assert((vb + group_values(after.drop_last())).push(hex_number(after.last()) as u16) =~= vb
            + va);
        assert(ip6_from(s, q - 1, open) == ip6_from(s, q, closed));
    }
}

/// An address that ends in a dotted quad, without `::`: six groups, a
/// colon, and four decimal octets with dots in between. Its first six
/// groups are the written ones, and the octets make the last two, in pairs.
pub proof fn lemma_written_groups_and_quad(
    s: Seq<u8>,
    j: int,
    parts: Seq<Seq<u8>>,
    o1: Seq<u8>,
    o2: Seq<u8>,
    o3: Seq<u8>,
    o4: Seq<u8>,
)
    requires
        parts.len() == 6,
        are_group_texts(parts),
        is_octet_text(o1) && is_octet_text(o2) && is_octet_text(o3) && is_octet_text(o4),
        stands_at(s, j, groups_text(parts) + seq![COLON] + quad_text(o1, o2, o3, o4)),
        literal_ends_at(s, j + groups_text(parts).len() + 1 + quad_text(o1, o2, o3, o4).len()),
    ensures
        ip6_at(s, j).value == Ok::<(Seq<u16>, u8), Error>(
            (
                group_values(parts).push(octet_pair(o1, o2)).push(octet_pair(o3, o4)),
                stop_at(s, j + groups_text(parts).len() + 1 + quad_text(o1, o2, o3, o4).len()),
            ),
        ),
{
    let head = groups_text(parts) + seq![COLON];
    let quad = quad_text(o1, o2, o3, o4);
    lemma_stands_apart(s, j, head, quad);
    lemma_read_groups_and_colon(s, j, parts);
    lemma_read_quad(s, j + head.len(), group_values(parts), None, o1, o2, o3, o4);
    lemma_octet_is_part(o3);
    lemma_octet_is_part(o4);
    let all = group_values(parts).push(octet_pair(o1, o2)).push(octet_pair(o3, o4));
    assert(all + zero_groups(0) =~= all);
}

/// An address that ends in a dotted quad behind `::`: the groups written
/// before `::`, `::`, the groups written behind it, each followed by a
/// colon, and four decimal octets with dots in between. Its groups are
/// those before `::`, then as many zeros as are missing, then those behind
/// `::`, then the two that the octets make. At most four groups may be
/// written beside the quad.
pub proof fn lemma_compressed_groups_and_quad(
    s: Seq<u8>,
    j: int,
    before: Seq<Seq<u8>>,
    after: Seq<Seq<u8>>,
    o1: Seq<u8>,
    o2: Seq<u8>,
    o3: Seq<u8>,
    o4: Seq<u8>,
)
    requires
        are_group_texts(before),
        are_group_texts(after),
        before.len() + after.len() <= 4,
        is_octet_text(o1) && is_octet_text(o2) && is_octet_text(o3) && is_octet_text(o4),
        stands_at(
            s,
            j,
            groups_text(before) + seq![COLON, COLON] + groups_and_colon(after) + quad_text(
                o1,
                o2,
                o3,
                o4,
            ),
        ),
        literal_ends_at(
            s,
            j + groups_text(before).len() + 2 + groups_and_colon(after).len() + quad_text(
                o1,
                o2,
                o3,
                o4,
            ).len(),
        ),
    ensures
        ip6_at(s, j).value == Ok::<(Seq<u16>, u8), Error>(
            (
                group_values(before) + zero_groups(6 - before.len() - after.len()) + group_values(
                    after,
                ).push(octet_pair(o1, o2)).push(octet_pair(o3, o4)),
                stop_at(
                    s,
                    j + groups_text(before).len() + 2 + groups_and_colon(after).len() + quad_text(
                        o1,
                        o2,
                        o3,
                        o4,
                    ).len(),
                ),
            ),
        ),
{
    let head = groups_text(before) + seq![COLON, COLON] + groups_and_colon(after);
    let quad = quad_text(o1, o2, o3, o4);
    let nb = before.len() as int;
    let vb = group_values(before);
    let va = group_values(after);
    lemma_stands_apart(s, j, head, quad);
    lemma_read_run_and_groups(s, j, before, after);
    lemma_read_quad(s, j + head.len(), vb + va, Some(nb), o1, o2, o3, o4);
    lemma_octet_is_part(o3);
    lemma_octet_is_part(o4);
    let all = (vb + va).push(octet_pair(o1, o2)).push(octet_pair(o3, o4));
    let behind_run = va.push(octet_pair(o1, o2)).push(octet_pair(o3, o4));
    assert(all.subrange(0, nb) =~= vb);
    assert(all.subrange(nb, all.len() as int) =~= behind_run);
}

/// Once eight groups are complete, digits that follow make no address,
/// whatever stands behind them.
pub proof fn lemma_full_fails(s: Seq<u8>, i: int, st: Ip6State)
    requires
        st.groups.len() >= 8,
        st.part.len() > 0,
    ensures
        ip6_from(s, i, st).value is Err,
    decreases s.len() - i,
{
    if 0 <= i < s.len() && is_hex_digit(s[i]) && st.part.len() < 4 {
        lemma_full_fails(s, i + 1, Ip6State { part: st.part.push(s[i]), ..st });
    }
}

/// The text of several groups is the text of all but the last, a colon,
/// and the last.
proof fn lemma_groups_text_last(parts: Seq<Seq<u8>>)
    requires
        parts.len() >= 2,
    ensures
        groups_text(parts) == groups_text(parts.drop_last()) + seq![COLON] + parts.last(),
    decreases parts.len(),
{
    let rest = parts.drop_first();
    let colon = seq![COLON];
    if parts.len() == 2 {
        assert(groups_text(rest) == parts[1]);
        assert(groups_text(parts.drop_last()) == parts[0]);
    } else {
        lemma_groups_text_last(rest);
        assert(parts.drop_last().drop_first() =~= rest.drop_last());
        assert(rest.last() == parts.last());
        assert(parts[0] + colon + (groups_text(rest.drop_last()) + colon + rest.last())
            =~= parts[0] + colon + groups_text(rest.drop_last()) + colon + parts.last());
    }
}

/// More than eight groups make no address: nine groups, each of one to
/// four hexadecimal digits with colons in between, fail whatever stands
/// behind them.
pub proof fn lemma_nine_groups_fail(s: Seq<u8>, j: int, parts: Seq<Seq<u8>>)
    requires
        parts.len() == 9,
        are_group_texts(parts),
        stands_at(s, j, groups_text(parts)),
    ensures
        ip6_at(s, j).value is Err,
{
    let first = parts.drop_last();
    let last = parts.last();
    let head = groups_text(first) + seq![COLON];
    lemma_groups_text_last(parts);
    assert(are_group_texts(first)) by {
        assert forall|k: int| 0 <= k < first.len() implies is_group_text(#[trigger] first[k]) by {
            assert(first[k] == parts[k]);
        }
    }
    assert(is_group_text(last));
    lemma_stands_apart(s, j, head, last);
    lemma_read_groups_and_colon(s, j, first);
    let q = j + head.len();
    let full = reading(group_values(first), Seq::empty(), None);
    assert(s[q] == last[0]) by {
        assert(s.subrange(q, q + last.len())[0] == last[0]);
    }
    assert(is_hex_digit(last[0]));
    assert(ip6_from(s, q, full) == ip6_from(s, q + 1, with_part(full, Seq::empty().push(s[q]))));
    lemma_full_fails(s, q + 1, with_part(full, Seq::empty().push(s[q])));
}

/// A second `::` makes no address: groups, `::`, at least one group more
/// and `::` again fail whatever stands behind them.
pub proof fn lemma_second_run_fails(
    s: Seq<u8>,
    j: int,
    before: Seq<Seq<u8>>,
    between: Seq<Seq<u8>>,
)
    requires
        are_group_texts(before),
        are_group_texts(between),
        between.len() >= 1,
        before.len() + between.len() <= 7,
        stands_at(
            s,
            j,
            groups_text(before) + seq![COLON, COLON] + groups_and_colon(between) + seq![COLON],
        ),
    ensures
        ip6_at(s, j).value is Err,
{
    let head = groups_text(before) + seq![COLON, COLON] + groups_and_colon(between);
    let colon = seq![COLON];
    lemma_stands_apart(s, j, head, colon);
    lemma_read_run_and_groups(s, j, before, between);
    let q = j + head.len();
    assert(s[q] == COLON) by {
        assert(s.subrange(q, q + 1)[0] == colon[0]);
    }
}

/// A dotted quad with a fifth octet makes no address: behind six groups
/// and a colon, four decimal octets and one more dot fail whatever stands
/// behind them.
pub proof fn lemma_fifth_octet_fails(
    s: Seq<u8>,
    j: int,
    parts: Seq<Seq<u8>>,
    o1: Seq<u8>,
    o2: Seq<u8>,
    o3: Seq<u8>,
    o4: Seq<u8>,
)
    requires
        parts.len() == 6,
        are_group_texts(parts),
        is_octet_text(o1) && is_octet_text(o2) && is_octet_text(o3) && is_octet_text(o4),
        stands_at(
            s,
            j,
            groups_text(parts) + seq![COLON] + quad_text(o1, o2, o3, o4) + seq![DOT],
        ),
    ensures
        ip6_at(s, j).value is Err,
{
    let head = groups_text(parts) + seq![COLON];
    let quad = quad_text(o1, o2, o3, o4);
    let dot = seq![DOT];
    assert(head + quad + dot =~= head + (quad + dot));
    lemma_stands_apart(s, j, head, quad + dot);
    let q = j + head.len();
    lemma_stands_apart(s, q, quad, dot);
    lemma_read_groups_and_colon(s, j, parts);
    lemma_read_quad(s, q, group_values(parts), None, o1, o2, o3, o4);
    assert(s[q + quad.len()] == DOT) by {
        assert(s.subrange(q + quad.len(), q + quad.len() + 1)[0] == dot[0]);
    }
}

/// A dotted quad with a fifth octet makes no address behind `::` either.
pub proof fn lemma_fifth_octet_behind_run_fails(
    s: Seq<u8>,
    j: int,
    before: Seq<Seq<u8>>,
    after: Seq<Seq<u8>>,
    o1: Seq<u8>,
    o2: Seq<u8>,
    o3: Seq<u8>,
    o4: Seq<u8>,
)
    requires
        are_group_texts(before),
        are_group_texts(after),
        before.len() + after.len() <= 6,
        is_octet_text(o1) && is_octet_text(o2) && is_octet_text(o3) && is_octet_text(o4),
        stands_at(
            s,
            j,
            groups_text(before) + seq![COLON, COLON] + groups_and_colon(after) + quad_text(
                o1,
                o2,
                o3,
                o4,
            ) + seq![DOT],
        ),
    ensures
        ip6_at(s, j).value is Err,
{
    let head = groups_text(before) + seq![COLON, COLON] + groups_and_colon(after);
    let quad = quad_text(o1, o2, o3, o4);
    let dot = seq![DOT];
    assert(head + quad + dot =~= head + (quad + dot));
    lemma_stands_apart(s, j, head, quad + dot);
    let q = j + head.len();
    lemma_stands_apart(s, q, quad, dot);
    lemma_read_run_and_groups(s, j, before, after);
    lemma_read_quad(
        s,
        q,
        group_values(before) + group_values(after),
        Some(before.len() as int),
        o1,
        o2,
        o3,
        o4,
    );
    assert(s[q + quad.len()] == DOT) by {
        assert(s.subrange(q + quad.len(), q + quad.len() + 1)[0] == dot[0]);
    }
}

/// The texts of groups, each with a colon behind it.
pub open spec fn groups_and_colon(parts: Seq<Seq<u8>>) -> Seq<u8> {
    if parts.len() == 0 {
        Seq::empty()
    } else {
        groups_text(parts) + seq![COLON]
    }
}

} // verus!
