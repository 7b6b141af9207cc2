//! Laws of spelling: what may differ between two texts that mean the same.

use crate::address::address;
use crate::address_laws::{address_char, lemma_address_chars, lemma_find_at, lemma_find_none};
use crate::error::BypassRuleError;
use crate::host::{ends_host, host_end, lemma_host_end, normal_host, unbracketed};
use crate::number::{all_digits, is_digit, unsigned_text};
use crate::parse::{authority_rule, lowered_rule, parsed, slashed};
use crate::reread::{lemma_split_scheme, lemma_trimmed_already};
use crate::rule::{scheme_char, scheme_ok};
use crate::target::target_of;
use crate::text::{
    find, leading_space, lemma_find_from, lemma_leading_space, lemma_solid_len, lemma_undotted_len,
    solid_len, trimmed, undotted, undotted_len,
};
use crate::unicode::{ascii_lower_char, ascii_lowered, same_ignoring_ascii_case, white_space};
use vstd::prelude::*;
use vstd::utf8::is_ascii_chars;

verus! {

// ---------------------------------------------------------------- white space

/// To trim a trimmed text changes nothing.
pub proof fn trimming_is_stable(s: Seq<char>)
    ensures
        trimmed(trimmed(s)) == trimmed(s),
{
    let t = trimmed(s);
    lemma_leading_space(s, 0);
    lemma_solid_len(s, s.len() as int);
    if t.len() > 0 {
        lemma_trimmed_already(t);
    } else {
        assert(t =~= Seq::<char>::empty());
    }
}

/// The white space around a rule, a host or a target means nothing.
pub proof fn white_space_around_means_nothing(s: Seq<char>)
    ensures
        parsed(trimmed(s)) == parsed(s),
        normal_host(trimmed(s)) == normal_host(s),
        target_of(trimmed(s)) == target_of(s),
{
    trimming_is_stable(s);
}

pub proof fn lemma_leading_is(s: Seq<char>, n: int, i: int)
    requires
        0 <= i <= n < s.len(),
        forall|j: int| i <= j < n ==> white_space(#[trigger] s[j]),
        !white_space(s[n]),
    ensures
        leading_space(s, i) == n - i,
    decreases n - i,
{
    if i < n {
        lemma_leading_is(s, n, i + 1);
    }
}

proof fn lemma_undotted_of_longer(s: Seq<char>, t: Seq<char>, n: int)
    requires
        0 <= n <= s.len(),
        n <= t.len(),
        forall|i: int| 0 <= i < n ==> s[i] == t[i],
    ensures
        undotted_len(s, n) == undotted_len(t, n),
    decreases n,
{
    if n > 0 {
        lemma_undotted_of_longer(s, t, n - 1);
    }
}

// ---------------------------------------------------------------- hosts

/// A host with the root dot behind it is the same host. (White space before
/// the dot is no longer at the end, so it must not be there.)
pub proof fn root_dot_means_nothing(host: Seq<char>)
    requires
        host.len() > 0 ==> !white_space(host.last()),
    ensures
        normal_host(host.push('.')) == normal_host(host),
{
    let dotted = host.push('.');
    if host.len() == 0 {
        lemma_trimmed_already(dotted);
        assert(trimmed(host) =~= Seq::<char>::empty());
        assert(undotted_len(dotted, 0) == 0);
        assert(undotted_len(dotted, 1) == 0);
        assert(undotted(dotted) =~= undotted(trimmed(host)));
    } else {
        let from = leading_space(host, 0);
        lemma_leading_space(host, 0);
        assert(from < host.len()) by {
            if from == host.len() {
                assert(white_space(host[host.len() - 1]));
            }
        }
        assert forall|j: int| 0 <= j < from implies white_space(#[trigger] dotted[j]) by {
            assert(dotted[j] == host[j]);
        }
        assert(dotted[from] == host[from]);
        lemma_leading_is(dotted, from, 0);
        let a = trimmed(dotted);
        let b = trimmed(host);
        assert(b == host.subrange(from, host.len() as int));
        assert(solid_len(dotted, dotted.len() as int) == dotted.len());
        assert(a =~= b.push('.'));
        let n = b.len() as int;
        assert(undotted_len(a, n + 1) == undotted_len(a, n));
        lemma_undotted_of_longer(a, b, n);
        lemma_undotted_len(b, n);
        assert(undotted(a) =~= undotted(b));
    }
}

/// A host in square brackets is the same host.
pub proof fn brackets_around_a_host_mean_nothing(host: Seq<char>)
    requires
        is_ascii_chars(host),
        host.len() > 0 ==> !white_space(host[0]) && !white_space(host.last()) && host.last() != '.',
        unbracketed(host) == host,
    ensures
        normal_host(seq!['['] + host + seq![']']) == normal_host(host),
{
    let s = seq!['['] + host + seq![']'];
    assert(s.last() == ']');
    lemma_trimmed_already(s);
    assert(undotted_len(s, s.len() as int) == s.len());
    assert(undotted(s) =~= s);
    assert forall|i: int| 0 <= i < s.len() implies '\0' <= #[trigger] s[i] <= '\u{7f}' by {
        if 0 < i < s.len() - 1 {
            assert(s[i] == host[i - 1]);
        }
    }
    let low = ascii_lowered(s);
    assert(low[0] == '[');
    assert(low.last() == ']');
    assert(low.subrange(1, low.len() - 1) =~= ascii_lowered(host));
    if host.len() > 0 {
        lemma_trimmed_already(host);
        assert(undotted_len(host, host.len() as int) == host.len());
        assert(undotted(host) =~= host);
        let l = ascii_lowered(host);
        assert(l[0] == ascii_lower_char(host[0]));
        assert(l.last() == ascii_lower_char(host.last()));
        if l.len() >= 2 && l[0] == '[' && l.last() == ']' {
            assert(host[0] == '[' && host.last() == ']');
            assert(unbracketed(host).len() != host.len());
        }
    } else {
        assert(trimmed(host) =~= host);
        assert(undotted(host) =~= host);
        assert(ascii_lowered(host) =~= host);
    }
}

// ---------------------------------------------------------------- case

proof fn lemma_lower_keeps(c: char)
    ensures
        white_space(ascii_lower_char(c)) == white_space(c),
        (ascii_lower_char(c) == '.') == (c == '.'),
        (ascii_lower_char(c) == '/') == (c == '/'),
        (ascii_lower_char(c) == '#') == (c == '#'),
        c <= '\u{7f}' ==> ascii_lower_char(c) <= '\u{7f}',
{
}

proof fn lemma_lowered_leading(s: Seq<char>, i: int)
    requires
        0 <= i <= s.len(),
    ensures
        leading_space(ascii_lowered(s), i) == leading_space(s, i),
    decreases s.len() - i,
{
    if i < s.len() {
        lemma_lower_keeps(s[i]);
        lemma_lowered_leading(s, i + 1);
    }
}

proof fn lemma_lowered_solid(s: Seq<char>, n: int)
    requires
        0 <= n <= s.len(),
    ensures
        solid_len(ascii_lowered(s), n) == solid_len(s, n),
        undotted_len(ascii_lowered(s), n) == undotted_len(s, n),
    decreases n,
{
    if n > 0 {
        lemma_lower_keeps(s[n - 1]);
        lemma_lowered_solid(s, n - 1);
    }
}

/// Trimming and lowering may change places.
proof fn lemma_lowered_trimmed(s: Seq<char>)
    ensures
        trimmed(ascii_lowered(s)) == ascii_lowered(trimmed(s)),
{
    lemma_lowered_leading(s, 0);
    lemma_lowered_solid(s, s.len() as int);
    lemma_leading_space(s, 0);
    lemma_solid_len(s, s.len() as int);
    assert(trimmed(ascii_lowered(s)) =~= ascii_lowered(trimmed(s)));
}

proof fn lemma_lowered_undotted(s: Seq<char>)
    ensures
        undotted(ascii_lowered(s)) == ascii_lowered(undotted(s)),
{
    lemma_lowered_solid(s, s.len() as int);
    lemma_undotted_len(s, s.len() as int);
    assert(undotted(ascii_lowered(s)) =~= ascii_lowered(undotted(s)));
}

pub proof fn lemma_trimmed_ascii(s: Seq<char>)
    requires
        is_ascii_chars(s),
    ensures
        is_ascii_chars(trimmed(s)),
        is_ascii_chars(undotted(s)),
{
    lemma_leading_space(s, 0);
    lemma_solid_len(s, s.len() as int);
    lemma_undotted_len(s, s.len() as int);
    let from = leading_space(s, 0);
    let t = trimmed(s);
    assert forall|i: int| 0 <= i < t.len() implies '\0' <= #[trigger] t[i] <= '\u{7f}' by {
        assert(t[i] == s[from + i]);
    }
}

/// The case of the ASCII letters of a host means nothing.
pub proof fn case_of_a_host_means_nothing(a: Seq<char>, b: Seq<char>)
    requires
        is_ascii_chars(a),
        is_ascii_chars(b),
        same_ignoring_ascii_case(a, b),
    ensures
        normal_host(a) == normal_host(b),
{
    lemma_trimmed_ascii(a);
    lemma_trimmed_ascii(b);
    lemma_trimmed_ascii(trimmed(a));
    lemma_trimmed_ascii(trimmed(b));
    lemma_lowered_trimmed(a);
    lemma_lowered_trimmed(b);
    lemma_lowered_undotted(trimmed(a));
    lemma_lowered_undotted(trimmed(b));
}

/// The case of the ASCII letters of a rule means nothing, but in a regular
/// expression between slashes, which is kept as it is.
pub proof fn case_of_a_rule_means_nothing(a: Seq<char>, b: Seq<char>)
    requires
        is_ascii_chars(a),
        is_ascii_chars(b),
        same_ignoring_ascii_case(a, b),
        !slashed(trimmed(a)),
    ensures
        parsed(a) == parsed(b),
{
    let s = trimmed(a);
    let t = trimmed(b);
    lemma_trimmed_ascii(a);
    lemma_trimmed_ascii(b);
    lemma_lowered_trimmed(a);
    lemma_lowered_trimmed(b);
    assert(ascii_lowered(s) == ascii_lowered(t));
    assert(ascii_lowered(s).len() == s.len() && ascii_lowered(t).len() == t.len());
    if s.len() > 0 {
        let n = s.len() - 1;
        assert(ascii_lowered(s)[0] == ascii_lowered(t)[0]);
        assert(ascii_lowered(s)[n] == ascii_lowered(t)[n]);
        lemma_lower_keeps(s[0]);
        lemma_lower_keeps(t[0]);
        lemma_lower_keeps(s[n]);
        lemma_lower_keeps(t[n]);
    }
}

// ---------------------------------------------------------------- pasted URLs

/// What ends a host and what follows it make the address before them a range.
pub open spec fn makes_a_range(host: Seq<char>, end: char, rest: Seq<char>) -> bool {
    end == '/' && unsigned_text(rest) && address(host) is Some
}

/// The path, the query and the fragment of a pasted URL are dropped. (A number
/// after an address and a slash is the length of a range instead.)
pub proof fn pasted_url_is_reduced_to_its_host(
    scheme: Seq<char>,
    host: Seq<char>,
    end: char,
    rest: Seq<char>,
)
    requires
        scheme_ok(scheme),
        host.len() > 0,
        forall|i: int| 0 <= i < host.len() ==> !ends_host(#[trigger] host[i], true),
        ends_host(end, true),
        !makes_a_range(host, end, rest),
    ensures
        lowered_rule(scheme + "://"@ + (host + seq![end] + rest)) == lowered_rule(
            scheme + "://"@ + host,
        ),
{
    let long = host + seq![end] + rest;
    path_is_dropped(Some(scheme), host, end, rest);
    lemma_split_scheme(scheme, long);
    lemma_split_scheme(scheme, host);
    let a = scheme + "://"@ + long;
    let b = scheme + "://"@ + host;
    assert(a[0] == scheme[0] && b[0] == scheme[0]);
    assert(scheme_char(scheme[0]));
    reveal_strlit("<local>");
    reveal_strlit("<loopback>");
    assert(a[0] != '<' && b[0] != '<');
}

/// A prefix length has no letters.
proof fn lemma_lowered_digits(s: Seq<char>)
    ensures
        unsigned_text(ascii_lowered(s)) == unsigned_text(s),
{
    let low = ascii_lowered(s);
    let (a, b) = if s.len() > 0 && s[0] == '+' {
        (s.skip(1), low.skip(1))
    } else {
        (s, low)
    };
    assert(forall|i: int| 0 <= i < a.len() ==> #[trigger] b[i] == ascii_lower_char(a[i]));
    if all_digits(a, 10) {
        assert forall|i: int| 0 <= i < b.len() implies is_digit(#[trigger] b[i], 10) by {
            assert(is_digit(a[i], 10));
        }
    }
    if all_digits(b, 10) {
        assert forall|i: int| 0 <= i < a.len() implies is_digit(#[trigger] a[i], 10) by {
            assert(is_digit(b[i], 10));
        }
    }
}

/// The white space at the end of a text is that at the end of its last part.
pub proof fn lemma_solid_tail(s: Seq<char>, n: int, m: int)
    requires
        0 < n,
        0 <= m,
        n + m <= s.len(),
        !white_space(s[n - 1]),
    ensures
        solid_len(s, n + m) == n + solid_len(s.skip(n), m),
    decreases m,
{
    if m > 0 {
        lemma_solid_tail(s, n, m - 1);
        assert(s.skip(n)[m - 1] == s[n + m - 1]);
    }
}

/// A pasted URL in ASCII is read as the URL without its path, query and
/// fragment, whatever the case of its letters.
pub proof fn pasted_url_is_read_as_its_host(
    scheme: Seq<char>,
    host: Seq<char>,
    end: char,
    rest: Seq<char>,
)
    requires
        is_ascii_chars(host),
        is_ascii_chars(rest),
        scheme_ok(scheme),
        host.len() > 0,
        !white_space(host.last()),
        forall|i: int| 0 <= i < host.len() ==> !ends_host(#[trigger] host[i], true),
        ends_host(end, true),
        !makes_a_range(ascii_lowered(host), end, rest.take(solid_len(rest, rest.len() as int))),
    ensures
        parsed(scheme + "://"@ + (host + seq![end] + rest)) == parsed(scheme + "://"@ + host),
{
    reveal_strlit("://");
    let pre = scheme + "://"@;
    let a = pre + (host + seq![end] + rest);
    let b = pre + host;
    let p = pre.len() as int;
    let n = p + host.len();
    assert(scheme_char(scheme[0]));
    assert(a[0] == scheme[0] && b[0] == scheme[0]);
    assert(a[n] == end);
    assert(b.last() == host.last());
    lemma_trimmed_already(b);
    lemma_solid_len(a, a.len() as int);
    let k = solid_len(a, a.len() as int);
    assert(k > n) by {
        if k <= n {
            assert(white_space(a[n]));
        }
    }
    assert(leading_space(a, 0) == 0);
    let kept = rest.take(k - n - 1);
    lemma_solid_tail(a, n + 1, rest.len() as int);
    assert(a.skip(n + 1) =~= rest);
    lemma_lowered_digits(kept);
    let t = trimmed(a);
    assert(t =~= pre + (host + seq![end] + kept));
    assert forall|i: int| 0 <= i < scheme.len() implies '\0' <= #[trigger] scheme[i] <= '\u{7f}' by {
        assert(scheme_char(scheme[i]));
    }
    assert forall|i: int| 0 <= i < pre.len() implies '\0' <= #[trigger] pre[i] <= '\u{7f}' by {
        if i < scheme.len() {
            assert(pre[i] == scheme[i]);
        }
    }
    assert forall|i: int| 0 <= i < b.len() implies '\0' <= #[trigger] b[i] <= '\u{7f}' by {
        if i < p {
            assert(b[i] == pre[i]);
        } else {
            assert(b[i] == host[i - p]);
        }
    }
    assert forall|i: int| 0 <= i < t.len() implies '\0' <= #[trigger] t[i] <= '\u{7f}' by {
        if i < n {
            assert(t[i] == b[i]);
        } else if i > n {
            assert(t[i] == rest[i - n - 1]);
        }
    }
    let low_scheme = ascii_lowered(scheme);
    let low_host = ascii_lowered(host);
    let low_kept = ascii_lowered(kept);
    assert(ascii_lowered(t) =~= low_scheme + "://"@ + (low_host + seq![end] + low_kept));
    assert(ascii_lowered(b) =~= low_scheme + "://"@ + low_host);
    assert forall|i: int| 0 <= i < low_scheme.len() implies scheme_char(#[trigger] low_scheme[i]) by {
        assert(scheme_char(scheme[i]));
    }
    assert forall|i: int| 0 <= i < low_host.len() implies !ends_host(
        #[trigger] low_host[i],
        true,
    ) by {
        assert(!ends_host(host[i], true));
    }
    pasted_url_is_reduced_to_its_host(low_scheme, low_host, end, low_kept);
}

/// What follows the end of a host is dropped, with a scheme and without one.
pub proof fn path_is_dropped(
    scheme: Option<Seq<char>>,
    host: Seq<char>,
    end: char,
    rest: Seq<char>,
)
    requires
        host.len() > 0,
        forall|i: int| 0 <= i < host.len() ==> !ends_host(#[trigger] host[i], scheme is Some),
        ends_host(end, scheme is Some),
        !makes_a_range(host, end, rest),
    ensures
        authority_rule(scheme, host + seq![end] + rest) == authority_rule(scheme, host),
{
    reveal(authority_rule);
    let is_url = scheme is Some;
    let long = host + seq![end] + rest;
    let n = host.len() as int;
    assert forall|i: int| 0 <= i < n implies #[trigger] host[i] != '/' by {
        assert(!ends_host(host[i], is_url));
    }
    lemma_find_none(host, '/');
    lemma_host_end(host, is_url, 0);
    lemma_host_end(long, is_url, 0);
    let e = host_end(long, is_url, 0);
    assert(long[n] == end);
    if e < n {
        assert(long[e] == host[e]);
    }
    assert(e == n);
    assert(long.take(n) =~= host);
    assert(host.take(n) =~= host);
    if end == '/' {
        lemma_find_at(host, '/', rest);
    } else {
        lemma_find_from(long, '/', 0);
        let f = find(long, '/');
        if f < n {
            assert(long[f] == host[f]);
        }
        if f < long.len() && address(long.take(f)) is Some {
            lemma_address_chars(long.take(f));
            assert(long.take(f)[n] == end);
            assert(address_char(long.take(f)[n]));
        }
    }
}

// ---------------------------------------------------------------- blanks and comments

/// A text is refused as empty exactly where it is blank or a comment.
pub proof fn only_blanks_and_comments_are_empty(raw: Seq<char>)
    ensures
        parsed(raw) == Err::<crate::rule::RuleModel, _>(BypassRuleError::Empty) <==> (trimmed(
            raw,
        ).len() == 0 || trimmed(raw)[0] == '#'),
{
    reveal(authority_rule);
}

} // verus!
