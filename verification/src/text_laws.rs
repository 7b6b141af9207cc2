//! Laws of text: what is trimmed off, how numbers are read, where a host and a
//! port, a scheme and a path come apart, and what a host becomes before it is
//! compared.

use crate::error::BypassRuleError;
use crate::host::{
    ends_host, host_end, host_part, host_port, lemma_host_end, normal_host, port_number,
};
use crate::number::{all_digits, digit_value, is_digit, lemma_number_grows, number, unsigned};
use crate::parse::split_scheme;
use crate::spelling_laws::{lemma_leading_is, lemma_solid_tail};
use crate::text::{
    find, find_text, lemma_find_from, lemma_find_text_from, lemma_leading_space, lemma_rfind_before,
    lemma_solid_len, lemma_undotted_len, rfind, solid_len, stands_at, trimmed, undotted,
    undotted_len,
};
use crate::unicode::{ascii_lowered, lowercased, unicode_lowercased, white_space};
use vstd::prelude::*;
use vstd::utf8::is_ascii_chars;

verus! {

// ---------------------------------------------------------------- white space and dots

/// Nothing but white space.
pub open spec fn blank(s: Seq<char>) -> bool {
    forall|i: int| 0 <= i < s.len() ==> white_space(#[trigger] s[i])
}

/// Nothing but dots.
pub open spec fn dots(s: Seq<char>) -> bool {
    forall|i: int| 0 <= i < s.len() ==> #[trigger] s[i] == '.'
}

/// A text that neither begins nor ends with white space is what is left of it
/// with white space around it.
pub proof fn trimming_takes_all_white_space_around(a: Seq<char>, t: Seq<char>, b: Seq<char>)
    requires
        blank(a),
        blank(b),
        t.len() > 0 ==> !white_space(t[0]) && !white_space(t.last()),
    ensures
        trimmed(a + t + b) == t,
{
    let s = a + t + b;
    let n = (a.len() + t.len()) as int;
    if t.len() > 0 {
        assert forall|j: int| 0 <= j < a.len() implies white_space(#[trigger] s[j]) by {
            assert(s[j] == a[j]);
        }
        assert(s[a.len() as int] == t[0]);
        lemma_leading_is(s, a.len() as int, 0);
        assert(s[n - 1] == t.last());
        lemma_solid_tail(s, n, b.len() as int);
        assert(s.skip(n) =~= b);
        lemma_solid_len(b, b.len() as int);
        assert(s.subrange(a.len() as int, n) =~= t);
    } else {
        lemma_leading_space(s, 0);
        lemma_solid_len(s, s.len() as int);
        assert forall|j: int| 0 <= j < s.len() implies white_space(#[trigger] s[j]) by {
            if j < a.len() {
                assert(s[j] == a[j]);
            } else {
                assert(s[j] == b[j - a.len()]);
            }
        }
        let k = solid_len(s, s.len() as int);
        if k > 0 {
            assert(white_space(s[k - 1]));
        }
        assert(trimmed(s) =~= t);
    }
}

/// A text without a dot at its end is what is left of it with dots behind it.
proof fn lemma_undotted_is(h: Seq<char>, d: Seq<char>)
    requires
        h.len() > 0 ==> h.last() != '.',
        dots(d),
    ensures
        undotted(h + d) == h,
{
    let s = h + d;
    let n = undotted_len(s, s.len() as int);
    lemma_undotted_len(s, s.len() as int);
    if n < h.len() {
        assert(s[h.len() - 1] == h.last());
    }
    if n > h.len() {
        assert(s[n - 1] == d[n - 1 - h.len()]);
    }
    assert(s.take(n) =~= h);
}

/// `low` is `s` with `A` to `Z` replaced by `a` to `z`.
pub open spec fn lowered_to(s: Seq<char>, low: Seq<char>) -> bool {
    &&& low.len() == s.len()
    &&& forall|i: int|
        0 <= i < s.len() ==> (if 'A' <= #[trigger] s[i] <= 'Z' {
            low[i] as int == s[i] as int + 32
        } else {
            low[i] == s[i]
        })
}

pub proof fn lemma_lowered_to(s: Seq<char>, low: Seq<char>)
    requires
        lowered_to(s, low),
        is_ascii_chars(s),
    ensures
        lowercased(s) == low,
        ascii_lowered(s) == low,
{
    assert(ascii_lowered(s) =~= low);
}

/// `low` is `s` in lowercase, letter by letter where `s` is in ASCII.
pub open spec fn in_lowercase(s: Seq<char>, low: Seq<char>) -> bool {
    if is_ascii_chars(s) {
        lowered_to(s, low)
    } else {
        low == unicode_lowercased(s)
    }
}

/// What stands between white space, without the dots at its end, in lowercase
/// and without one pair of brackets, is the host that is compared.
pub proof fn host_is_taken_out_of_its_spelling(
    a: Seq<char>,
    h: Seq<char>,
    low: Seq<char>,
    d: Seq<char>,
    b: Seq<char>,
)
    requires
        blank(a),
        blank(b),
        dots(d),
        in_lowercase(h, low),
        h.len() > 0 ==> !white_space(h[0]) && h.last() != '.',
        h.len() > 0 && d.len() == 0 ==> !white_space(h.last()),
    ensures
        normal_host(a + (h + d) + b) == (if low.len() >= 2 && low[0] == '[' && low[low.len() - 1]
            == ']' {
            low.subrange(1, low.len() - 1)
        } else {
            low
        }),
{
    let t = h + d;
    if t.len() > 0 {
        if d.len() > 0 {
            assert(t.last() == d.last());
            assert(d[d.len() - 1] == '.');
        } else {
            assert(t.last() == h.last());
        }
        if h.len() > 0 {
            assert(t[0] == h[0]);
        } else {
            assert(t[0] == d[0]);
        }
    }
    trimming_takes_all_white_space_around(a, t, b);
    lemma_undotted_is(h, d);
    if is_ascii_chars(h) {
        lemma_lowered_to(h, low);
    }
}

// ---------------------------------------------------------------- numbers

/// The value of each digit.
pub proof fn digits_have_their_values(c: char)
    ensures
        '0' <= c <= '9' ==> digit_value(c) == c as int - 48,
        'a' <= c <= 'f' ==> digit_value(c) == c as int - 87,
        'A' <= c <= 'F' ==> digit_value(c) == c as int - 55,
        !('0' <= c <= '9' || 'a' <= c <= 'f' || 'A' <= c <= 'F') ==> digit_value(c) == -1,
{
}

/// A digit behind others makes the number the radix times as large and adds its
/// value.
pub proof fn numbers_are_positional(s: Seq<char>, c: char, radix: int)
    ensures
        number(Seq::<char>::empty(), radix) == 0,
        number(s.push(c), radix) == number(s, radix) * radix + digit_value(c),
{
    assert(s.push(c).drop_last() =~= s);
}

/// Decimal digits, at least one.
pub open spec fn decimal(s: Seq<char>) -> bool {
    s.len() > 0 && forall|i: int| 0 <= i < s.len() ==> '0' <= #[trigger] s[i] <= '9'
}

pub proof fn lemma_decimal(s: Seq<char>)
    ensures
        decimal(s) <==> s.len() > 0 && all_digits(s, 10),
{
    if s.len() > 0 && all_digits(s, 10) {
        assert forall|i: int| 0 <= i < s.len() implies '0' <= #[trigger] s[i] <= '9' by {
            assert(is_digit(s[i], 10));
        }
    }
    if decimal(s) {
        assert forall|i: int| 0 <= i < s.len() implies is_digit(#[trigger] s[i], 10) by {}
    }
}

/// A number is read from decimal digits, with a plus sign or without, where it
/// is not too large, and from nothing else.
pub proof fn numbers_are_read_from_digits(s: Seq<char>, max: int)
    ensures
        decimal(s) ==> unsigned(s, max) == (if number(s, 10) <= max {
            Some(number(s, 10))
        } else {
            None
        }),
        unsigned(seq!['+'] + s, max) == (if decimal(s) && number(s, 10) <= max {
            Some(number(s, 10))
        } else {
            None
        }),
        !decimal(s) && (s.len() == 0 || s[0] != '+') ==> unsigned(s, max) is None,
{
    lemma_decimal(s);
    assert((seq!['+'] + s).skip(1) =~= s);
    if decimal(s) {
        assert('0' <= s[0] <= '9');
    }
}

/// A port is a number from 1 to 65535, with a plus sign or without; anything
/// else is refused.
pub proof fn ports_are_numbers(s: Seq<char>)
    ensures
        decimal(s) ==> ({
            let n = number(s, 10);
            if 1 <= n <= 65535 {
                port_number(s) matches Ok(p) && p as int == n && port_number(seq!['+'] + s)
                    == port_number(s)
            } else {
                &&& port_number(s) == Err::<u16, _>(BypassRuleError::InvalidPort)
                &&& port_number(seq!['+'] + s) == Err::<u16, _>(BypassRuleError::InvalidPort)
            }
        }),
        !decimal(s) ==> port_number(seq!['+'] + s) == Err::<u16, _>(BypassRuleError::InvalidPort),
        !decimal(s) && (s.len() == 0 || s[0] != '+') ==> port_number(s) == Err::<u16, _>(
            BypassRuleError::InvalidPort,
        ),
{
    numbers_are_read_from_digits(s, 0xffff);
    lemma_decimal(s);
    if decimal(s) {
        lemma_number_grows(s, 10, 0);
    }
}

// ---------------------------------------------------------------- host and port

/// A host without a colon stands alone, and one colon divides it from a port.
pub proof fn one_colon_divides_host_and_port(h: Seq<char>, t: Seq<char>)
    requires
        !h.contains(':'),
        !t.contains(':'),
        h.len() > 0 ==> h[0] != '[',
    ensures
        host_port(h) == Ok::<(Seq<char>, Option<u16>), BypassRuleError>((h, None)),
        host_port(h + seq![':'] + t) == (match port_number(t) {
            Ok(p) => Ok((h, Some(p))),
            Err(e) => Err(e),
        }),
{
    lemma_rfind_before(h, ':', h.len() as int);
    let s = h + seq![':'] + t;
    let n = h.len() as int;
    lemma_rfind_before(s, ':', s.len() as int);
    let f = rfind(s, ':');
    assert(s[n] == ':');
    assert(s[0] == if n > 0 { h[0] } else { ':' });
    if f > n {
        assert(s[f] == t[f - n - 1]);
    }
    assert(s.take(n) =~= h);
    assert(s.skip(n + 1) =~= t);
}

/// A text with two colons and no bracket before them is a host as a whole.
pub proof fn two_colons_make_a_host(a: Seq<char>, b: Seq<char>, c: Seq<char>)
    requires
        a.len() > 0 ==> a[0] != '[',
    ensures
        ({
            let s = a + seq![':'] + b + seq![':'] + c;
            host_port(s) == Ok::<(Seq<char>, Option<u16>), BypassRuleError>((s, None))
        }),
{
    let s = a + seq![':'] + b + seq![':'] + c;
    let i = a.len() as int;
    let j = i + 1 + b.len();
    assert(s[i] == ':' && s[j] == ':');
    assert(s[0] == if i > 0 { a[0] } else { ':' });
    lemma_rfind_before(s, ':', s.len() as int);
    let f = rfind(s, ':');
    assert(f >= j);
    assert(s.take(f)[i] == ':');
}

/// Brackets around a host come off, and only a colon and a port may follow them.
pub proof fn brackets_hold_a_host(h: Seq<char>, t: Seq<char>)
    requires
        !h.contains(']'),
    ensures
        host_port(seq!['['] + h) == Err::<(Seq<char>, Option<u16>), _>(
            BypassRuleError::InvalidHost,
        ),
        host_port(seq!['['] + h + seq![']']) == Ok::<(Seq<char>, Option<u16>), BypassRuleError>(
            (h, None),
        ),
        host_port(seq!['['] + h + seq![']'] + (seq![':'] + t)) == (match port_number(t) {
            Ok(p) => Ok((h, Some(p))),
            Err(e) => Err(e),
        }),
        t.len() > 0 && t[0] != ':' ==> host_port(seq!['['] + h + seq![']'] + t) == Err::<
            (Seq<char>, Option<u16>),
            _,
        >(BypassRuleError::InvalidHost),
{
    let open = seq!['['] + h;
    lemma_find_from(h, ']', 0);
    assert(open.skip(1) =~= h);
    assert(open[0] == '[');
    lemma_bracket(h, Seq::empty());
    assert(seq!['['] + h + seq![']'] + Seq::<char>::empty() =~= seq!['['] + h + seq![']']);
    lemma_bracket(h, seq![':'] + t);
    assert((seq![':'] + t).skip(1) =~= t);
    lemma_bracket(h, t);
}

proof fn lemma_bracket(h: Seq<char>, tail: Seq<char>)
    requires
        !h.contains(']'),
    ensures
        ({
            let s = seq!['['] + h + seq![']'] + tail;
            let inner = s.skip(1);
            &&& s.len() > 0 && s[0] == '['
            &&& find(inner, ']') == h.len()
            &&& h.len() < inner.len()
            &&& inner.take(h.len() as int) == h
            &&& inner.skip((h.len() + 1) as int) == tail
        }),
{
    let s = seq!['['] + h + seq![']'] + tail;
    let inner = s.skip(1);
    let n = h.len() as int;
    assert(inner =~= h + seq![']'] + tail);
    lemma_find_from(inner, ']', 0);
    let f = find(inner, ']');
    assert(inner[n] == ']');
    if f < n {
        assert(inner[f] == h[f]);
        assert(h.contains(']'));
    }
    assert(inner.take(n) =~= h);
    assert(inner.skip(n + 1) =~= tail);
}

// ---------------------------------------------------------------- path and scheme

/// A character that ends the host of a URL, or of a rule without a scheme.
pub open spec fn cuts(c: char, is_url: bool) -> bool {
    c == '/' || c == '#' || (c == '?' && is_url)
}

/// A text without a character that ends a host.
pub open spec fn uncut(s: Seq<char>, is_url: bool) -> bool {
    forall|i: int| 0 <= i < s.len() ==> !cuts(#[trigger] s[i], is_url)
}

/// The host goes as far as the first slash or hash sign, or question mark behind
/// a scheme.
pub proof fn host_ends_at_the_first_mark(h: Seq<char>, end: char, rest: Seq<char>, is_url: bool)
    requires
        uncut(h, is_url),
    ensures
        host_part(h, is_url) == h,
        cuts(end, is_url) ==> host_part(h + seq![end] + rest, is_url) == h,
{
    lemma_host_end(h, is_url, 0);
    let n = host_end(h, is_url, 0);
    if n < h.len() {
        assert(cuts(h[n], is_url));
    }
    assert(h.take(h.len() as int) =~= h);
    let s = h + seq![end] + rest;
    lemma_host_end(s, is_url, 0);
    let e = host_end(s, is_url, 0);
    assert(s[h.len() as int] == end);
    if e < h.len() {
        assert(s[e] == h[e]);
        assert(cuts(h[e], is_url));
    }
    if cuts(end, is_url) {
        if e > h.len() {
            assert(!ends_host(s[h.len() as int], is_url));
        }
        assert(s.take(h.len() as int) =~= h);
    }
}

/// No `://` stands in a text.
pub open spec fn schemeless(s: Seq<char>) -> bool {
    forall|i: int|
        0 <= i && i + 2 < s.len() ==> !(#[trigger] s[i] == ':' && s[i + 1] == '/' && s[i + 2]
            == '/')
}

proof fn lemma_stands(s: Seq<char>, i: int)
    requires
        0 <= i,
    ensures
        stands_at(s, "://"@, i) <==> (i + 2 < s.len() && s[i] == ':' && s[i + 1] == '/' && s[i + 2]
            == '/'),
{
    reveal_strlit("://");
    let p = "://"@;
    if i + 3 <= s.len() {
        let t = s.subrange(i, i + 3);
        assert(t[0] == s[i] && t[1] == s[i + 1] && t[2] == s[i + 2]);
        if s[i] == ':' && s[i + 1] == '/' && s[i + 2] == '/' {
            assert(t =~= p);
        }
    }
}

/// A text is split at its first `://`, and is not split where it has none.
pub proof fn scheme_ends_at_the_first_mark(s: Seq<char>, rest: Seq<char>)
    requires
        schemeless(s),
    ensures
        split_scheme(s) is None,
        split_scheme(s + "://"@ + rest) == Some((s, rest)),
{
    reveal_strlit("://");
    let p = "://"@;
    lemma_find_text_from(s, p, 0);
    let f = find_text(s, p);
    lemma_stands(s, f);
    let t = s + p + rest;
    let n = s.len() as int;
    assert(t[n] == ':' && t[n + 1] == '/' && t[n + 2] == '/') by {
        assert(t[n] == p[0] && t[n + 1] == p[1] && t[n + 2] == p[2]);
    }
    lemma_stands(t, n);
    lemma_find_text_from(t, p, 0);
    let g = find_text(t, p);
    lemma_stands(t, g);
    if g < n {
        assert(t[g] == s[g]);
        if g + 1 < n {
            assert(t[g + 1] == s[g + 1]);
            if g + 2 < n {
                assert(t[g + 2] == s[g + 2]);
            } else {
                assert(t[g + 2] == p[0]);
            }
        } else {
            assert(t[g + 1] == p[0]);
        }
    }
    assert(g == n);
    assert(t.take(n) =~= s);
    assert(t.skip(n + 3) =~= rest);
}

} // verus!
