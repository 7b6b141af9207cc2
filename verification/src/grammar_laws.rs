//! Laws of the text of addresses: which texts write an address, which address
//! they write, and how an address is written.

use crate::address::{
    address, address_text, dotted, dotted_text, group, groups, groups_text, lemma_dotted_len,
    lemma_longest_run, lemma_zero_run, longest_run, octet_groups, v6_groups, v6_text, zero_run,
    zeros, Address,
};
use crate::address_laws::{
    ipv4_address_is_written_once, lemma_dotted_text, lemma_find_at, lemma_find_none,
};
use crate::number::{all_digits, is_digit, lemma_number_text, lemma_numeral, number, numeral};
use crate::text::{find_text, lemma_find_text_from, stands_at};
use crate::text_laws::{decimal, lemma_decimal};
use vstd::prelude::*;

verus! {

// ---------------------------------------------------------------- numerals

/// A numeral is made of digits that read back as the number, with no zero before
/// them, and is the only such text.
pub proof fn numerals_write_their_numbers(n: int, s: Seq<char>)
    requires
        0 <= n,
    ensures
        decimal(numeral(n, 10)),
        number(numeral(n, 10), 10) == n,
        n > 0 ==> numeral(n, 10)[0] != '0',
        decimal(s) && number(s, 10) == n && (s.len() > 1 ==> s[0] != '0') ==> s == numeral(n, 10),
{
    lemma_numeral(n, 10);
    lemma_decimal(numeral(n, 10));
    lemma_decimal(s);
    if decimal(s) && (s.len() > 1 ==> s[0] != '0') {
        lemma_number_text(s);
    }
}

/// A hexadecimal numeral reads back as the number, in lowercase and with no zero
/// before it.
pub proof fn hexadecimal_numerals_write_their_numbers(n: int)
    requires
        0 <= n,
    ensures
        numeral(n, 16).len() > 0,
        number(numeral(n, 16), 16) == n,
        n > 0 ==> numeral(n, 16)[0] != '0',
        forall|i: int|
            0 <= i < numeral(n, 16).len() ==> ('0' <= #[trigger] numeral(n, 16)[i] <= '9' || 'a'
                <= numeral(n, 16)[i] <= 'f'),
{
    lemma_numeral(n, 16);
}

// ---------------------------------------------------------------- IPv4

/// A text writes an IPv4 address exactly where it is four numerals with dots
/// between them.
pub proof fn ipv4_address_is_four_numerals(s: Seq<char>, o: Seq<u8>)
    requires
        o.len() == 4,
    ensures
        address(s) == Some(Address::V4(o)) <==> s == numeral(o[0] as int, 10) + seq!['.'] + (
        numeral(o[1] as int, 10) + seq!['.'] + (numeral(o[2] as int, 10) + seq!['.'] + numeral(
            o[3] as int,
            10,
        ))),
        address_text(Address::V4(o)) == numeral(o[0] as int, 10) + seq!['.'] + (numeral(
            o[1] as int,
            10,
        ) + seq!['.'] + (numeral(o[2] as int, 10) + seq!['.'] + numeral(o[3] as int, 10))),
{
    reveal_with_fuel(dotted_text, 5);
    assert(o.skip(1)[0] == o[1]);
    assert(o.skip(1).skip(1)[0] == o[2]);
    assert(o.skip(1).skip(1).skip(1)[0] == o[3]);
    lemma_dotted_text(o);
    ipv4_address_is_written_once(s);
}

/// An IPv4 address has four octets.
pub proof fn ipv4_address_has_four_octets(s: Seq<char>)
    ensures
        address(s) matches Some(Address::V4(o)) ==> o.len() == 4,
{
    lemma_dotted_len(s, 4);
}

// ---------------------------------------------------------------- IPv6

/// A hexadecimal digit, in either case.
pub open spec fn hex_digit(c: char) -> bool {
    '0' <= c <= '9' || 'a' <= c <= 'f' || 'A' <= c <= 'F'
}

/// One to four hexadecimal digits.
pub open spec fn hex_text(t: Seq<char>) -> bool {
    1 <= t.len() <= 4 && forall|i: int| 0 <= i < t.len() ==> hex_digit(#[trigger] t[i])
}

proof fn lemma_hex_bound(t: Seq<char>)
    requires
        all_digits(t, 16),
        t.len() <= 4,
    ensures
        0 <= number(t, 16) <= 0xffff,
        t.len() <= 3 ==> number(t, 16) <= 0xfff,
        t.len() <= 2 ==> number(t, 16) <= 0xff,
        t.len() <= 1 ==> number(t, 16) <= 0xf,
        t.len() == 0 ==> number(t, 16) == 0,
    decreases t.len(),
{
    if t.len() > 0 {
        assert(is_digit(t[t.len() - 1], 16));
        lemma_hex_bound(t.drop_last());
    }
}

/// A group is one to four hexadecimal digits, and has their number.
pub proof fn group_is_up_to_four_digits(t: Seq<char>)
    ensures
        hex_text(t) ==> (group(t) matches Some(n) && n as int == number(t, 16)),
        !hex_text(t) ==> group(t) is None,
{
    if hex_text(t) {
        assert forall|i: int| 0 <= i < t.len() implies is_digit(#[trigger] t[i], 16) by {
            assert(hex_digit(t[i]));
        }
        lemma_hex_bound(t);
    }
    if t.len() <= 4 && all_digits(t, 16) {
        assert forall|i: int| 0 <= i < t.len() implies hex_digit(#[trigger] t[i]) by {
            assert(is_digit(t[i], 16));
        }
    }
}

/// Groups are read one by one, with colons between them. At the end of a text
/// four octets may stand for two groups.
pub proof fn groups_are_read_one_by_one(t: Seq<char>, rest: Seq<char>, v4_last: bool)
    requires
        !t.contains(':'),
    ensures
        groups(t, v4_last) == (if v4_last && dotted(t, 4) is Some {
            Some(octet_groups(dotted(t, 4)->Some_0))
        } else if group(t) is Some {
            Some(seq![group(t)->Some_0])
        } else {
            None
        }),
        groups(t + seq![':'] + rest, v4_last) == (if group(t) is Some && groups(
            rest,
            v4_last,
        ) is Some {
            Some(seq![group(t)->Some_0] + groups(rest, v4_last)->Some_0)
        } else {
            None
        }),
{
    lemma_find_none(t, ':');
    lemma_find_at(t, ':', rest);
}

/// Four octets fill two groups, the first of each pair in front.
pub proof fn octets_fill_groups(o: Seq<u8>)
    requires
        o.len() == 4,
    ensures
        octet_groups(o).len() == 2,
        octet_groups(o)[0] == o[0] * 256 + o[1],
        octet_groups(o)[1] == o[2] * 256 + o[3],
{
}

/// No `::` stands in a text.
pub open spec fn gapless(s: Seq<char>) -> bool {
    forall|i: int| 0 <= i && i + 1 < s.len() ==> !(#[trigger] s[i] == ':' && s[i + 1] == ':')
}

proof fn lemma_gap_stands(s: Seq<char>, i: int)
    requires
        0 <= i,
    ensures
        stands_at(s, "::"@, i) <==> (i + 1 < s.len() && s[i] == ':' && s[i + 1] == ':'),
{
    reveal_strlit("::");
    if i + 2 <= s.len() {
        let t = s.subrange(i, i + 2);
        assert(t[0] == s[i] && t[1] == s[i + 1]);
        if s[i] == ':' && s[i + 1] == ':' {
            assert(t =~= "::"@);
        }
    }
}

/// Without `::` an IPv6 address has all its eight groups.
pub proof fn ipv6_address_has_eight_groups(s: Seq<char>, g: Seq<u16>)
    requires
        gapless(s),
    ensures
        v6_groups(s) == Some(g) <==> groups(s, true) == Some(g) && g.len() == 8,
{
    reveal_strlit("::");
    lemma_find_text_from(s, "::"@, 0);
    lemma_gap_stands(s, find_text(s, "::"@));
}

/// The groups on one side of `::`, where there may be none.
pub open spec fn groups_aside(s: Seq<char>, v4_last: bool) -> Option<Seq<u16>> {
    if s.len() == 0 {
        Some(Seq::empty())
    } else {
        groups(s, v4_last)
    }
}

/// `::` stands for as many groups of zeros as are missing, at least one.
pub proof fn two_colons_fill_with_zeros(a: Seq<char>, b: Seq<char>, g: Seq<u16>)
    requires
        gapless(a),
        a.len() > 0 ==> a.last() != ':',
    ensures
        v6_groups(a + "::"@ + b) == Some(g) <==> (groups_aside(a, false) matches Some(head)
            && groups_aside(b, true) matches Some(tail) && head.len() + tail.len() <= 7
            && g.len() == 8 && g.take(head.len() as int) == head && g.skip(8 - tail.len()) == tail
            && forall|i: int| head.len() <= i < 8 - tail.len() ==> #[trigger] g[i] == 0),
{
    reveal_strlit("::");
    let s = a + "::"@ + b;
    let n = a.len() as int;
    assert(s[n] == "::"@[0] && s[n + 1] == "::"@[1]);
    lemma_gap_stands(s, n);
    lemma_find_text_from(s, "::"@, 0);
    let f = find_text(s, "::"@);
    lemma_gap_stands(s, f);
    if f < n {
        assert(s[f] == a[f]);
        if f + 1 < n {
            assert(s[f + 1] == a[f + 1]);
        }
    }
    assert(f == n);
    assert(s.take(n) =~= a);
    assert(s.skip(n + 2) =~= b);
    if let (Some(head), Some(tail)) = (groups_aside(a, false), groups_aside(b, true)) {
        if head.len() + tail.len() <= 7 {
            let whole = head + zeros(8 - head.len() - tail.len()) + tail;
            assert(whole.take(head.len() as int) =~= head);
            assert(whole.skip(8 - tail.len()) =~= tail);
            if g.len() == 8 && g.take(head.len() as int) == head && g.skip(8 - tail.len()) == tail
                && forall|i: int| head.len() <= i < 8 - tail.len() ==> #[trigger] g[i] == 0 {
                assert forall|i: int| 0 <= i < 8 implies g[i] == whole[i] by {
                    if i < head.len() {
                        assert(g.take(head.len() as int)[i] == head[i]);
                    } else if i >= 8 - tail.len() {
                        assert(g.skip(8 - tail.len())[i - (8 - tail.len())] == tail[i - (8
                            - tail.len())]);
                    }
                }
                assert(g =~= whole);
            }
        }
    }
}

/// A text that is no IPv4 address is read as an IPv6 address.
pub proof fn address_is_of_one_family(s: Seq<char>)
    ensures
        address(s) matches Some(Address::V6(g)) ==> v6_groups(s) == Some(g),
        dotted(s, 4) is None ==> address(s) == (match v6_groups(s) {
            Some(g) => Some(Address::V6(g)),
            None => None,
        }),
{
}

// ---------------------------------------------------------------- writing IPv6

/// `n` groups of zeros stand at a place.
pub open spec fn zeros_at(g: Seq<u16>, i: int, n: int) -> bool {
    0 <= i && 0 <= n && i + n <= g.len() && forall|k: int| i <= k < i + n ==> #[trigger] g[k] == 0
}

proof fn lemma_run_is_longest_here(g: Seq<u16>, i: int, n: int)
    requires
        zeros_at(g, i, n),
    ensures
        n <= zero_run(g, i),
    decreases n,
{
    if n > 0 {
        assert(g[i] == 0);
        lemma_run_is_longest_here(g, i + 1, n - 1);
    } else {
        lemma_zero_run(g, i);
    }
}

proof fn lemma_longest(g: Seq<u16>, i: int, j: int)
    requires
        0 <= i <= j < g.len(),
    ensures
        zero_run(g, j) <= zero_run(g, longest_run(g, i)),
        j < longest_run(g, i) ==> zero_run(g, j) < zero_run(g, longest_run(g, i)),
    decreases g.len() - i,
{
    if i < j {
        lemma_longest(g, i + 1, j);
    }
    lemma_longest_run(g, i + 1);
}

/// The longest run of zeros, the first of several, stands at a place.
pub open spec fn first_longest_zeros(g: Seq<u16>, i: int, n: int) -> bool {
    &&& zeros_at(g, i, n)
    &&& forall|j: int, m: int| #[trigger] zeros_at(g, j, m) ==> m <= n && (j < i ==> m < n)
}

/// Groups are written one by one, with colons between them.
pub proof fn groups_are_written_one_by_one(x: u16, rest: Seq<u16>)
    ensures
        groups_text(seq![x]) == numeral(x as int, 16),
        rest.len() > 0 ==> groups_text(seq![x] + rest) == numeral(x as int, 16) + seq![':']
            + groups_text(rest),
{
    reveal_with_fuel(groups_text, 2);
    assert((seq![x] + rest).skip(1) =~= rest);
    assert((seq![x] + rest)[0] == x);
}

/// An IPv6 address is written with `::` for the first of its longest runs of
/// zeros, where that has at least two groups, and in full otherwise. Only an
/// IPv4-mapped address is written with the IPv4 address at its end.
pub proof fn longest_zeros_are_left_out(g: Seq<u16>, i: int, n: int)
    requires
        g.len() == 8,
        first_longest_zeros(g, i, n),
    ensures
        ({
            let mapped = g[0] == 0 && g[1] == 0 && g[2] == 0 && g[3] == 0 && g[4] == 0 && g[5]
                == 0xffff;
            &&& !mapped && n >= 2 ==> v6_text(g) == groups_text(g.take(i)) + "::"@ + groups_text(
                g.skip(i + n),
            )
            &&& !mapped && n < 2 ==> v6_text(g) == groups_text(g)
            &&& mapped ==> v6_text(g) == "::ffff:"@ + dotted_text(
                seq![
                    (g[6] / 256) as u8,
                    (g[6] % 256) as u8,
                    (g[7] / 256) as u8,
                    (g[7] % 256) as u8,
                ],
            )
        }),
{
    let s = longest_run(g, 0);
    lemma_longest_run(g, 0);
    lemma_zero_run(g, s);
    let r = zero_run(g, s);
    assert(zeros_at(g, s, r));
    lemma_run_is_longest_here(g, i, n);
    if i < 8 {
        lemma_longest(g, 0, i);
        lemma_zero_run(g, i);
        assert(zeros_at(g, i, zero_run(g, i)));
    }
    if n >= 2 {
        assert(s == i);
    }
    if g[0] == 0 && g[1] == 0 && g[2] == 0 && g[3] == 0 && g[4] == 0 {
        assert forall|k: int| 0 <= k < 5 implies #[trigger] g[k] == 0 by {}
    }
}

} // verus!
