//! Laws of addresses: their text reads back, an IPv4-mapped address is the
//! IPv4 address, and ranges nest.

use crate::address::{
    address, address_text, agree, bit, dotted, dotted_text, fixed_bits, group, groups, groups_text,
    in_range, is_mapped, lemma_agree_octets, lemma_dotted_len, lemma_longest_run, lemma_zero_run,
    longest_run, mapped_octets, normal, octet, octet_groups, octets, side, sized, v6_groups,
    v6_text, zero_run, zeros, Address,
};
use crate::number::{
    all_digits, digit_value, is_digit, lemma_number_grows, lemma_number_text, lemma_numeral,
    lemma_numeral_len, number, numeral,
};
use crate::text::{find, find_text, lemma_find_from, lemma_find_text_from, stands_at};
use vstd::prelude::*;

verus! {

// ---------------------------------------------------------------- finding

/// A character is found where it first comes.
pub proof fn lemma_find_at(x: Seq<char>, c: char, rest: Seq<char>)
    requires
        !x.contains(c),
    ensures
        find(x + seq![c] + rest, c) == x.len(),
        (x + seq![c] + rest).take(x.len() as int) == x,
        (x + seq![c] + rest).skip((x.len() + 1) as int) == rest,
{
    let s = x + seq![c] + rest;
    lemma_find_from(s, c, 0);
    let f = find(s, c);
    assert(s[x.len() as int] == c);
    if f < x.len() {
        assert(x[f] == c);
    }
    assert(s.take(x.len() as int) =~= x);
    assert(s.skip((x.len() + 1) as int) =~= rest);
}

/// A character that does not come is not found.
pub proof fn lemma_find_none(s: Seq<char>, c: char)
    requires
        !s.contains(c),
    ensures
        find(s, c) == s.len(),
{
    lemma_find_from(s, c, 0);
}

// ---------------------------------------------------------------- IPv4

/// The numeral of an octet holds decimal digits alone.
pub proof fn lemma_octet_numeral(n: u8)
    ensures
        octet(numeral(n as int, 10)) == Some(n),
        numeral(n as int, 10).len() > 0,
        forall|i: int|
            0 <= i < numeral(n as int, 10).len() ==> '0' <= #[trigger] numeral(n as int, 10)[i]
                <= '9',
{
    lemma_numeral(n as int, 10);
    lemma_numeral_len(n as int, 10);
    let t = numeral(n as int, 10);
    if t.len() > 1 && t[0] == '0' {
        assert(n == 0);
        assert(numeral(0, 10).len() == 1);
    }
}

/// A character of a dotted address.
pub open spec fn dotted_char(c: char) -> bool {
    '0' <= c <= '9' || c == '.'
}

/// Dotted octets read back.
pub proof fn lemma_dotted_text(o: Seq<u8>)
    requires
        o.len() >= 1,
    ensures
        dotted(dotted_text(o), o.len()) == Some(o),
        dotted_text(o).len() > 0,
        dotted_text(o)[0] != '.',
        forall|i: int|
            0 <= i < dotted_text(o).len() ==> dotted_char(#[trigger] dotted_text(o)[i]),
    decreases o.len(),
{
    let first = numeral(o[0] as int, 10);
    lemma_octet_numeral(o[0]);
    if o.len() == 1 {
        assert(seq![o[0]] =~= o);
    } else {
        let rest = dotted_text(o.skip(1));
        lemma_dotted_text(o.skip(1));
        lemma_find_at(first, '.', rest);
        assert(seq![o[0]] + o.skip(1) =~= o);
        let s = dotted_text(o);
        assert(s[0] == first[0]);
        assert forall|i: int| 0 <= i < s.len() implies dotted_char(#[trigger] s[i]) by {
            if i < first.len() {
                assert(s[i] == first[i]);
            } else if i > first.len() {
                assert(s[i] == rest[i - first.len() - 1]);
            }
        }
    }
}

/// Dotted octets hold digits and dots alone.
pub proof fn lemma_dotted_chars(s: Seq<char>, n: nat)
    requires
        n >= 1,
        dotted(s, n) is Some,
    ensures
        s.len() > 0,
        '0' <= s[0] <= '9',
        forall|i: int| 0 <= i < s.len() ==> dotted_char(#[trigger] s[i]),
    decreases n,
{
    if n == 1 {
        lemma_octet_chars(s);
    } else {
        let f = find(s, '.');
        lemma_find_from(s, '.', 0);
        let first = s.take(f);
        let rest = s.skip(f + 1);
        lemma_octet_chars(first);
        lemma_dotted_chars(rest, (n - 1) as nat);
        assert(s[0] == first[0]);
        assert forall|i: int| 0 <= i < s.len() implies dotted_char(#[trigger] s[i]) by {
            if i < f {
                assert(s[i] == first[i]);
            } else if i > f {
                assert(s[i] == rest[i - f - 1]);
            }
        }
    }
}

proof fn lemma_octet_chars(s: Seq<char>)
    requires
        octet(s) is Some,
    ensures
        s.len() > 0,
        forall|i: int| 0 <= i < s.len() ==> '0' <= #[trigger] s[i] <= '9',
{
    assert forall|i: int| 0 <= i < s.len() implies '0' <= #[trigger] s[i] <= '9' by {
        assert(is_digit(s[i], 10));
    }
}

// ---------------------------------------------------------------- IPv6

/// A hexadecimal digit.
pub open spec fn hex_char(c: char) -> bool {
    0 <= digit_value(c) < 16
}

/// A character of an address.
pub open spec fn address_char(c: char) -> bool {
    hex_char(c) || c == '.' || c == ':'
}

/// A group reads back.
proof fn lemma_group_numeral(n: u16)
    ensures
        group(numeral(n as int, 16)) == Some(n),
        numeral(n as int, 16).len() > 0,
        forall|i: int|
            0 <= i < numeral(n as int, 16).len() ==> hex_char(#[trigger] numeral(n as int, 16)[i]),
{
    lemma_numeral(n as int, 16);
    lemma_numeral_len(n as int, 16);
    let t = numeral(n as int, 16);
    assert forall|i: int| 0 <= i < t.len() implies hex_char(#[trigger] t[i]) by {
        assert(is_digit(t[i], 16));
    }
}

/// Two colons in a row.
pub open spec fn has_gap(s: Seq<char>) -> bool {
    exists|i: int| 0 <= i < s.len() - 1 && #[trigger] s[i] == ':' && s[i + 1] == ':'
}

/// Groups read back. Their text holds digits with single colons between them.
proof fn lemma_groups_text(g: Seq<u16>, v4_last: bool)
    requires
        g.len() >= 1,
    ensures
        groups(groups_text(g), v4_last) == Some(g),
        groups_text(g).len() > 0,
        hex_char(groups_text(g)[0]),
        hex_char(groups_text(g).last()),
        !has_gap(groups_text(g)),
        g.len() > 1 ==> groups_text(g).contains(':'),
        forall|i: int|
            0 <= i < groups_text(g).len() ==> (hex_char(#[trigger] groups_text(g)[i]) || groups_text(
                g,
            )[i] == ':'),
    decreases g.len(),
{
    let first = numeral(g[0] as int, 16);
    lemma_group_numeral(g[0]);
    let s = groups_text(g);
    if g.len() == 1 {
        lemma_find_none(s, ':');
        lemma_find_none(s, '.');
        assert(dotted(s, 4) is None);
        assert(seq![g[0]] =~= g);
    } else {
        let rest = groups_text(g.skip(1));
        lemma_groups_text(g.skip(1), v4_last);
        assert(s == first + seq![':'] + rest);
        lemma_find_at(first, ':', rest);
        assert(seq![g[0]] + g.skip(1) =~= g);
        assert(s[0] == first[0]);
        assert(s.last() == rest.last());
        assert(s[first.len() as int] == ':');
        assert forall|i: int| 0 <= i < s.len() implies (hex_char(#[trigger] s[i]) || s[i] == ':') by {
            if i < first.len() {
                assert(s[i] == first[i]);
            } else if i > first.len() {
                assert(s[i] == rest[i - first.len() - 1]);
            }
        }
        assert forall|i: int| 0 <= i < s.len() - 1 implies !(#[trigger] s[i] == ':' && s[i + 1]
            == ':') by {
            if i < first.len() {
                assert(s[i] == first[i]);
            } else if i == first.len() {
                assert(s[i + 1] == rest[0]);
            } else {
                let j = i - first.len() - 1;
                assert(s[i] == rest[j] && s[i + 1] == rest[j + 1]);
            }
        }
    }
}

proof fn lemma_stands_gap(s: Seq<char>, i: int)
    requires
        0 <= i,
    ensures
        stands_at(s, "::"@, i) <==> (i + 2 <= s.len() && s[i] == ':' && s[i + 1] == ':'),
{
    reveal_strlit("::");
    if i + 2 <= s.len() {
        let t = s.subrange(i, i + 2);
        assert(t[0] == s[i] && t[1] == s[i + 1]);
        if s[i] == ':' && s[i + 1] == ':' {
            assert(t =~= "::"@);
        }
    }
}

proof fn lemma_no_gap(s: Seq<char>)
    requires
        !has_gap(s),
    ensures
        find_text(s, "::"@) == s.len(),
{
    reveal_strlit("::");
    lemma_find_text_from(s, "::"@, 0);
    lemma_stands_gap(s, find_text(s, "::"@));
}

/// What stands on one side of `::` reads back.
proof fn lemma_side_text(g: Seq<u16>, v4_last: bool)
    ensures
        side(groups_text(g), v4_last) == Some(g),
{
    if g.len() == 0 {
        assert(g =~= Seq::<u16>::empty());
    } else {
        lemma_groups_text(g, v4_last);
    }
}

proof fn lemma_compressed_text(g: Seq<u16>)
    requires
        g.len() == 8,
        !is_mapped(g),
        zero_run(g, longest_run(g, 0)) > 1,
    ensures
        v6_groups(v6_text(g)) == Some(g),
        v6_text(g).contains(':'),
{
    let start = longest_run(g, 0);
    let run = zero_run(g, start);
    lemma_longest_run(g, 0);
    lemma_zero_run(g, start);
    let head = g.take(start);
    let tail = g.skip(start + run);
    let a = groups_text(head);
    let b = groups_text(tail);
    let s = v6_text(g);
    reveal_strlit("::");
    assert(s == a + "::"@ + b);
    if head.len() > 0 {
        lemma_groups_text(head, false);
    }
    let n = a.len() as int;
    assert(s[n] == ':' && s[n + 1] == ':');
    lemma_stands_gap(s, n);
    lemma_find_text_from(s, "::"@, 0);
    let f = find_text(s, "::"@);
    lemma_stands_gap(s, f);
    if f < n {
        assert(s[f] == a[f]);
        if f + 1 < n {
            assert(s[f + 1] == a[f + 1]);
        }
    }
    assert(f == n);
    assert(s.take(n) =~= a);
    assert(s.skip(n + 2) =~= b);
    lemma_side_text(head, false);
    lemma_side_text(tail, true);
    assert(head + zeros(8 - head.len() - tail.len()) + tail =~= g);
}

proof fn lemma_mapped_text(g: Seq<u16>)
    requires
        g.len() == 8,
        is_mapped(g),
    ensures
        v6_groups(v6_text(g)) == Some(g),
        v6_text(g).contains(':'),
{
    let o = mapped_octets(g);
    let d = dotted_text(o);
    lemma_dotted_text(o);
    let s = v6_text(g);
    reveal_strlit("::ffff:");
    reveal_strlit("::");
    assert(s == "::ffff:"@ + d);
    assert(s[0] == ':' && s[1] == ':');
    lemma_stands_gap(s, 0);
    assert(find_text(s, "::"@) == 0);
    assert(s.take(0) =~= Seq::<char>::empty());
    let ffff = seq!['f', 'f', 'f', 'f'];
    assert(s.skip(2) =~= ffff + seq![':'] + d);
    lemma_find_at(ffff, ':', d);
    assert(group(ffff) == Some(0xffffu16)) by {
        assert(ffff.drop_last() =~= seq!['f', 'f', 'f']);
        assert(ffff.drop_last().drop_last() =~= seq!['f', 'f']);
        assert(ffff.drop_last().drop_last().drop_last() =~= seq!['f']);
        reveal_with_fuel(number, 5);
        assert(number(ffff, 16) == 0xffff);
        assert(all_digits(ffff, 16));
    }
    lemma_find_none(d, ':');
    assert(groups(d, true) == Some(octet_groups(o)));
    assert(octet_groups(o) =~= seq![g[6], g[7]]);
    assert(groups(s.skip(2), true) == Some(seq![0xffffu16] + octet_groups(o)));
    let tail = seq![0xffffu16] + octet_groups(o);
    assert(Seq::<u16>::empty() + zeros(5) + tail =~= g);
}

/// The text of an address reads back as the address.
pub proof fn address_text_reads_back(a: Address)
    requires
        sized(a),
    ensures
        address(address_text(a)) == Some(a),
{
    match a {
        Address::V4(o) => {
            lemma_dotted_text(o);
        },
        Address::V6(g) => {
            let s = v6_text(g);
            if is_mapped(g) {
                lemma_mapped_text(g);
            } else if zero_run(g, longest_run(g, 0)) > 1 {
                lemma_compressed_text(g);
            } else {
                lemma_groups_text(g, true);
                lemma_no_gap(s);
            }
            if dotted(s, 4) is Some {
                lemma_dotted_chars(s, 4);
                let i = choose|i: int| 0 <= i < s.len() && s[i] == ':';
                assert(dotted_char(s[i]));
            }
        },
    }
}

/// Two colons.
pub open spec fn two_colons(s: Seq<char>) -> bool {
    exists|i: int, j: int| 0 <= i < j < s.len() && #[trigger] s[i] == ':' && #[trigger] s[j] == ':'
}

/// A character that stands in the text of an address.
pub open spec fn written_char(c: char) -> bool {
    '0' <= c <= '9' || 'a' <= c <= 'f' || c == '.' || c == ':'
}

proof fn lemma_groups_chars(g: Seq<u16>)
    ensures
        forall|i: int|
            0 <= i < groups_text(g).len() ==> written_char(#[trigger] groups_text(g)[i]),
    decreases g.len(),
{
    if g.len() > 0 {
        lemma_numeral(g[0] as int, 16);
        let first = numeral(g[0] as int, 16);
        let s = groups_text(g);
        if g.len() > 1 {
            lemma_groups_chars(g.skip(1));
            let rest = groups_text(g.skip(1));
            assert forall|i: int| 0 <= i < s.len() implies written_char(#[trigger] s[i]) by {
                if i < first.len() {
                    assert(s[i] == first[i]);
                } else if i > first.len() {
                    assert(s[i] == rest[i - first.len() - 1]);
                }
            }
        }
    }
}

/// The text of an address holds digits, lowercase letters, dots and colons; of
/// an IPv6 address at least two colons, of an IPv4 address none.
pub proof fn lemma_address_text_chars(a: Address)
    requires
        sized(a),
    ensures
        address_text(a).len() > 0,
        forall|i: int|
            0 <= i < address_text(a).len() ==> written_char(#[trigger] address_text(a)[i]),
        a is V6 ==> two_colons(address_text(a)),
        a is V4 ==> !address_text(a).contains(':'),
{
    match a {
        Address::V4(o) => {
            lemma_dotted_text(o);
            let s = dotted_text(o);
            assert forall|i: int| 0 <= i < s.len() implies written_char(#[trigger] s[i]) && s[i]
                != ':' by {
                assert(dotted_char(s[i]));
            }
        },
        Address::V6(g) => {
            let s = v6_text(g);
            let start = longest_run(g, 0);
            let run = zero_run(g, start);
            if is_mapped(g) {
                let d = dotted_text(mapped_octets(g));
                lemma_dotted_text(mapped_octets(g));
                reveal_strlit("::ffff:");
                assert(s[0] == ':' && s[1] == ':');
                assert forall|i: int| 0 <= i < s.len() implies written_char(#[trigger] s[i]) by {
                    if i >= 7 {
                        assert(s[i] == d[i - 7]);
                        assert(dotted_char(d[i - 7]));
                    }
                }
            } else if run > 1 {
                lemma_longest_run(g, 0);
                lemma_zero_run(g, start);
                let x = groups_text(g.take(start));
                let y = groups_text(g.skip(start + run));
                lemma_groups_chars(g.take(start));
                lemma_groups_chars(g.skip(start + run));
                reveal_strlit("::");
                let n = x.len() as int;
                assert(s[n] == ':' && s[n + 1] == ':');
                assert forall|i: int| 0 <= i < s.len() implies written_char(#[trigger] s[i]) by {
                    if i < n {
                        assert(s[i] == x[i]);
                    } else if i >= n + 2 {
                        assert(s[i] == y[i - n - 2]);
                    }
                }
            } else {
                lemma_groups_chars(g);
                lemma_groups_text(g, true);
                lemma_groups_text(g.skip(1), true);
                lemma_group_numeral(g[0]);
                let first = numeral(g[0] as int, 16);
                let rest = groups_text(g.skip(1));
                assert(s == first + seq![':'] + rest);
                let j = choose|j: int| 0 <= j < rest.len() && rest[j] == ':';
                assert(s[first.len() as int] == ':');
                assert(s[first.len() + 1 + j] == rest[j]);
            }
        },
    }
}

proof fn lemma_group_chars(s: Seq<char>)
    requires
        group(s) is Some,
    ensures
        s.len() > 0,
        forall|i: int| 0 <= i < s.len() ==> hex_char(#[trigger] s[i]),
{
    assert forall|i: int| 0 <= i < s.len() implies hex_char(#[trigger] s[i]) by {
        assert(is_digit(s[i], 16));
    }
}

proof fn lemma_groups_read_chars(s: Seq<char>, v4_last: bool)
    requires
        groups(s, v4_last) is Some,
    ensures
        s.len() > 0,
        hex_char(s[0]),
        forall|i: int| 0 <= i < s.len() ==> address_char(#[trigger] s[i]),
    decreases s.len(),
{
    let f = find(s, ':');
    lemma_find_from(s, ':', 0);
    if f == s.len() {
        if v4_last && dotted(s, 4) is Some {
            lemma_dotted_chars(s, 4);
            assert forall|i: int| 0 <= i < s.len() implies address_char(#[trigger] s[i]) by {
                assert(dotted_char(s[i]));
            }
        } else {
            lemma_group_chars(s);
        }
    } else {
        let first = s.take(f);
        let rest = s.skip(f + 1);
        lemma_group_chars(first);
        lemma_groups_read_chars(rest, v4_last);
        assert(s[0] == first[0]);
        assert forall|i: int| 0 <= i < s.len() implies address_char(#[trigger] s[i]) by {
            if i < f {
                assert(s[i] == first[i]);
            } else if i > f {
                assert(s[i] == rest[i - f - 1]);
            }
        }
    }
}

/// What reads as an address holds hexadecimal digits, dots and colons alone,
/// and begins with no dot.
pub proof fn lemma_address_chars(s: Seq<char>)
    requires
        address(s) is Some,
    ensures
        s.len() > 0,
        s[0] != '.',
        forall|i: int| 0 <= i < s.len() ==> address_char(#[trigger] s[i]),
{
    if dotted(s, 4) is Some {
        lemma_dotted_chars(s, 4);
        assert forall|i: int| 0 <= i < s.len() implies address_char(#[trigger] s[i]) by {
            assert(dotted_char(s[i]));
        }
    } else {
        let f = find_text(s, "::"@);
        reveal_strlit("::");
        lemma_find_text_from(s, "::"@, 0);
        if f == s.len() {
            lemma_groups_read_chars(s, true);
        } else {
            lemma_stands_gap(s, f);
            let head = s.take(f);
            let tail = s.skip(f + 2);
            if head.len() > 0 {
                lemma_groups_read_chars(head, false);
                assert(s[0] == head[0]);
            }
            if tail.len() > 0 {
                lemma_groups_read_chars(tail, true);
            }
            assert forall|i: int| 0 <= i < s.len() implies address_char(#[trigger] s[i]) by {
                if i < f {
                    assert(s[i] == head[i]);
                } else if i >= f + 2 {
                    assert(s[i] == tail[i - f - 2]);
                }
            }
        }
    }
}

// ---------------------------------------------------------------- mapped addresses

/// An octet is written in one way only.
proof fn lemma_octet_text(s: Seq<char>)
    ensures
        octet(s) matches Some(o) ==> numeral(o as int, 10) == s,
{
    if octet(s) is Some {
        lemma_number_text(s);
        lemma_number_grows(s, 10, 0);
    }
}

/// A dotted address is written in one way only.
pub proof fn lemma_dotted_once(s: Seq<char>, n: nat)
    requires
        n >= 1,
    ensures
        dotted(s, n) matches Some(o) ==> dotted_text(o) == s,
    decreases n,
{
    if n == 1 {
        lemma_octet_text(s);
    } else {
        let i = find(s, '.');
        lemma_find_from(s, '.', 0);
        if i < s.len() && dotted(s, n) is Some {
            let o = dotted(s, n)->Some_0;
            let rest = dotted(s.skip(i + 1), (n - 1) as nat)->Some_0;
            lemma_octet_text(s.take(i));
            lemma_dotted_once(s.skip(i + 1), (n - 1) as nat);
            lemma_dotted_len(s.skip(i + 1), (n - 1) as nat);
            assert(o.skip(1) =~= rest);
            assert(s.take(i) + seq!['.'] + s.skip(i + 1) =~= s);
        }
    }
}

/// An IPv4 address is written in one way only, and a text without colons can
/// write no other address.
pub proof fn ipv4_address_is_written_once(s: Seq<char>)
    ensures
        address(s) matches Some(Address::V4(o)) ==> address_text(Address::V4(o)) == s,
        !s.contains(':') ==> (address(s) matches Some(a) ==> a is V4),
{
    lemma_dotted_once(s, 4);
    if !s.contains(':') {
        lemma_find_none(s, ':');
        reveal_strlit("::");
        lemma_find_text_from(s, "::"@, 0);
        let f = find_text(s, "::"@);
        if f < s.len() {
            assert(s.subrange(f, f + 2)[0] == ':');
            assert(s[f] == ':');
        }
    }
}

/// The IPv4-mapped form of an IPv4 address.
pub open spec fn mapped(o: Seq<u8>) -> Address {
    Address::V6(zeros(5) + seq![0xffffu16] + octet_groups(o))
}

/// `::ffff:` before an IPv4 address writes its IPv4-mapped form, and the two
/// are one address.
pub proof fn mapped_text_is_the_ipv4_address(o: Seq<u8>)
    requires
        o.len() == 4,
    ensures
        address("::ffff:"@ + dotted_text(o)) == Some(mapped(o)),
        normal(mapped(o)) == Address::V4(o),
        normal(Address::V4(o)) == Address::V4(o),
{
    let g = zeros(5) + seq![0xffffu16] + octet_groups(o);
    assert(g.len() == 8);
    assert(g[5] == 0xffff);
    assert(is_mapped(g));
    assert(g[6] == o[0] * 256 + o[1]);
    assert(g[7] == o[2] * 256 + o[3]);
    assert(mapped_octets(g) =~= o);
    address_text_reads_back(mapped(o));
}

/// An address and its normal form are read, written and compared as one: the
/// normal form of a normal form is itself.
pub proof fn normal_form_is_stable(a: Address)
    requires
        sized(a),
    ensures
        sized(normal(a)),
        normal(normal(a)) == normal(a),
{
}

// ---------------------------------------------------------------- ranges

/// A range holds the address that it is written with.
pub proof fn range_holds_its_network(network: Address, prefix: int)
    ensures
        in_range(network, prefix, network),
{
}

/// A range never holds an address of the other family.
pub proof fn range_keeps_to_its_family(network: Address, prefix: int, a: Address)
    requires
        in_range(network, prefix, a),
    ensures
        (network is V4) == (a is V4),
{
}

/// A prefix of no bits makes the range of all addresses of its family.
pub proof fn empty_prefix_holds_all(network: Address, a: Address)
    requires
        (network is V4) == (a is V4),
    ensures
        in_range(network, 0, a),
{
}

/// A prefix as long as the address makes the range of that address alone.
pub proof fn full_prefix_holds_one(network: Address, a: Address)
    requires
        sized(network),
        sized(a),
    ensures
        network is V4 ==> (in_range(network, 32, a) <==> network == a),
        network is V6 ==> (in_range(network, 128, a) <==> network == a),
{
    match (network, a) {
        (Address::V4(n), Address::V4(o)) => {
            lemma_agree_octets(n, o, 32);
            assert(n.take(4) =~= n);
            assert(o.take(4) =~= o);
        },
        (Address::V6(g), Address::V6(h)) => {
            let x = octets(network);
            let y = octets(a);
            lemma_agree_octets(x, y, 128);
            assert(x.take(16) =~= x);
            assert(y.take(16) =~= y);
            if x == y {
                assert forall|i: int| 0 <= i < 8 implies g[i] == h[i] by {
                    assert(x[2 * i] == y[2 * i] && x[2 * i + 1] == y[2 * i + 1]);
                    assert((2 * i) / 2 == i && (2 * i + 1) / 2 == i);
                }
                assert(g =~= h);
            }
        },
        _ => {},
    }
}

/// A longer prefix makes a smaller range.
pub proof fn longer_prefix_holds_less(network: Address, shorter: int, longer: int, a: Address)
    requires
        0 <= shorter <= longer,
        in_range(network, longer, a),
    ensures
        in_range(network, shorter, a),
{
    let x = octets(network);
    let y = octets(a);
    let n = fixed_bits(network, longer);
    assert forall|i: int| 0 <= i < n implies #[trigger] bit(x, i) == bit(y, i) by {}
}

/// Two addresses of one range make the same range.
pub proof fn range_is_that_of_any_member(network: Address, prefix: int, a: Address, b: Address)
    requires
        in_range(network, prefix, a),
    ensures
        in_range(network, prefix, b) == in_range(a, prefix, b),
{
    let n = octets(network);
    let x = octets(a);
    let y = octets(b);
    let p = fixed_bits(network, prefix);
    if agree(n, y, p) {
        assert forall|i: int| 0 <= i < p implies #[trigger] bit(x, i) == bit(y, i) by {
            assert(bit(n, i) == bit(x, i) && bit(n, i) == bit(y, i));
        }
    }
    if agree(x, y, p) {
        assert forall|i: int| 0 <= i < p implies #[trigger] bit(n, i) == bit(y, i) by {
            assert(bit(n, i) == bit(x, i) && bit(x, i) == bit(y, i));
        }
    }
}

} // verus!
