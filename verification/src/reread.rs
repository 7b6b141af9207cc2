//! The canonical form of a rule reads back as the rule.

use crate::address::{
    address, address_text, dotted_text, lemma_address_sized, normal, sized, width, Address,
};
use crate::address_laws::{
    address_char, address_text_reads_back, dotted_char, ipv4_address_is_written_once,
    lemma_address_chars, lemma_address_text_chars, lemma_dotted_text, lemma_find_at,
    lemma_find_none, mapped_text_is_the_ipv4_address, two_colons, written_char,
};
use crate::domain::named_domain;
use crate::error::BypassRuleError;
use crate::host::{
    domain_char, ends_host, has_regex_meta, has_wildcard, host_end, host_part, host_port,
    lemma_host_end, regex_only_meta, wrapped,
};
use crate::number::{lemma_numeral, numeral, unsigned, unsigned_text};
use crate::parse::{
    authority_rule, host_rule, lowered_rule, parsed, range_kind, split_scheme, unnarrowed,
};
use crate::rule::{
    canonical_text, host_text, kind_text, narrowed, needs_brackets, port_text, scheme_char,
    scheme_ok, scheme_text, stored_domain, valid_rule, KindModel, RuleModel,
};
use crate::text::{
    find_text, lemma_find_text_from, lemma_leading_space, lemma_rfind_before, lemma_solid_len,
    rfind, stands_at, trimmed,
};
use crate::unicode::{
    ascii_alphanumeric, ascii_lowered, ascii_upper, lowercased, no_ascii_upper, white_space,
};
use vstd::prelude::*;
use vstd::utf8::is_ascii_chars;

verus! {

// ---------------------------------------------------------------- parts

/// A text with no white space at its ends is already trimmed.
pub proof fn lemma_trimmed_already(s: Seq<char>)
    requires
        s.len() > 0,
        !white_space(s[0]),
        !white_space(s.last()),
    ensures
        trimmed(s) == s,
{
    lemma_leading_space(s, 0);
    lemma_solid_len(s, s.len() as int);
    assert(s.subrange(0, s.len() as int) =~= s);
}

/// A text in ASCII without upper-case letters is already in lowercase.
pub proof fn lemma_lowercased_already(s: Seq<char>)
    requires
        is_ascii_chars(s),
        no_ascii_upper(s),
    ensures
        lowercased(s) == s,
{
    assert(ascii_lowered(s) =~= s);
}

proof fn lemma_stands_scheme(s: Seq<char>, i: int)
    requires
        0 <= i,
    ensures
        stands_at(s, "://"@, i) <==> (i + 3 <= s.len() && s[i] == ':' && s[i + 1] == '/' && s[i + 2]
            == '/'),
{
    reveal_strlit("://");
    if i + 3 <= s.len() {
        let t = s.subrange(i, i + 3);
        assert(t[0] == s[i] && t[1] == s[i + 1] && t[2] == s[i + 2]);
        if s[i] == ':' && s[i + 1] == '/' && s[i + 2] == '/' {
            assert(t =~= "://"@);
        }
    }
}

/// A text is split at the end of its scheme.
pub proof fn lemma_split_scheme(scheme: Seq<char>, rest: Seq<char>)
    requires
        scheme_ok(scheme),
    ensures
        split_scheme(scheme + "://"@ + rest) == Some((scheme, rest)),
{
    let s = scheme + "://"@ + rest;
    let n = scheme.len() as int;
    let f = find_text(s, "://"@);
    assert(f == n) by {
        reveal_strlit("://");
        lemma_find_text_from(s, "://"@, 0);
        lemma_stands_scheme(s, n);
        lemma_stands_scheme(s, f);
        assert(s[n] == "://"@[0] && s[n + 1] == "://"@[1] && s[n + 2] == "://"@[2]);
        if f < n {
            assert(s[f] == scheme[f]);
            assert(scheme_char(scheme[f]));
        }
    }
    assert("://"@.len() == 3) by {
        reveal_strlit("://");
    }
    assert(s.take(n) =~= scheme);
    assert(s.skip(n + 3) =~= rest);
}

/// A text without two slashes in a row has no scheme.
proof fn lemma_no_scheme(s: Seq<char>)
    requires
        forall|i: int| 0 <= i < s.len() - 1 ==> !(#[trigger] s[i] == '/' && s[i + 1] == '/'),
    ensures
        split_scheme(s) is None,
{
    reveal_strlit("://");
    lemma_find_text_from(s, "://"@, 0);
    let f = find_text(s, "://"@);
    lemma_stands_scheme(s, f);
    if f < s.len() {
        assert(s[f + 1] == '/' && s[f + 2] == '/');
    }
}

/// A decimal numeral reads back.
proof fn lemma_unsigned_numeral(n: int, max: int)
    requires
        0 <= n <= max,
    ensures
        unsigned(numeral(n, 10), max) == Some(n),
        unsigned_text(numeral(n, 10)),
        numeral(n, 10).len() > 0,
        forall|i: int| 0 <= i < numeral(n, 10).len() ==> '0' <= #[trigger] numeral(n, 10)[i] <= '9',
{
    lemma_numeral(n, 10);
    assert('0' <= numeral(n, 10)[0] <= '9');
}

/// A host without colons and a port are split again.
pub proof fn lemma_host_port_plain(h: Seq<char>, port: Option<u16>)
    requires
        h.len() > 0,
        h[0] != '[',
        !h.contains(':'),
        port != Some(0u16),
    ensures
        host_port(h + port_text(port)) == Ok::<_, BypassRuleError>((h, port)),
{
    let s = h + port_text(port);
    assert(s[0] == h[0]);
    lemma_rfind_before(s, ':', s.len() as int);
    let f = rfind(s, ':');
    match port {
        None => {
            assert(s =~= h);
        },
        Some(p) => {
            let num = numeral(p as int, 10);
            lemma_unsigned_numeral(p as int, 0xffff);
            let n = h.len() as int;
            assert(s[n] == ':');
            if f > n {
                assert(s[f] == num[f - n - 1]);
            }
            assert(f == n);
            assert(s.take(n) =~= h);
            assert(s.skip(n + 1) =~= num);
        },
    }
}

/// The brackets around a host come off again, and its port with them.
proof fn lemma_host_port_bracketed(h: Seq<char>, port: Option<u16>)
    requires
        !h.contains(']'),
        port != Some(0u16),
    ensures
        host_port(wrapped(h, true) + port_text(port)) == Ok::<_, BypassRuleError>((h, port)),
{
    let s = wrapped(h, true) + port_text(port);
    let tail = port_text(port);
    assert(s.skip(1) =~= h + seq![']'] + tail);
    lemma_find_at(h, ']', tail);
    if let Some(p) = port {
        lemma_unsigned_numeral(p as int, 0xffff);
        assert(tail.skip(1) =~= numeral(p as int, 10));
    }
}

/// An IPv6 address without brackets is left alone.
proof fn lemma_host_port_colons(h: Seq<char>)
    requires
        h.len() > 0,
        h[0] != '[',
        two_colons(h),
    ensures
        host_port(h) == Ok::<(Seq<char>, Option<u16>), BypassRuleError>((h, None)),
{
    let (i, j): (int, int) = choose|i: int, j: int|
        0 <= i < j < h.len() && #[trigger] h[i] == ':' && #[trigger] h[j] == ':';
    lemma_rfind_before(h, ':', h.len() as int);
    let f = rfind(h, ':');
    assert(f >= j);
    assert(h.take(f)[i] == ':');
    assert(h.take(f).contains(':'));
}

/// A text without the characters that end a host is a host as a whole.
proof fn lemma_host_part_whole(s: Seq<char>, is_url: bool)
    requires
        forall|i: int| 0 <= i < s.len() ==> !ends_host(#[trigger] s[i], is_url),
    ensures
        host_part(s, is_url) == s,
        range_kind(s) is None,
{
    lemma_host_end(s, is_url, 0);
    assert(s.take(s.len() as int) =~= s);
    assert(!s.contains('/')) by {
        if s.contains('/') {
            let i = choose|i: int| 0 <= i < s.len() && s[i] == '/';
            assert(ends_host(s[i], is_url));
        }
    }
    lemma_find_none(s, '/');
}

/// A character of a stored domain.
pub open spec fn stored_char(c: char) -> bool {
    ascii_alphanumeric(c) || c == '-' || c == '.' || c == '_'
}

proof fn lemma_stored_chars(d: Seq<char>)
    requires
        stored_domain(d),
    ensures
        forall|i: int| 0 <= i < d.len() ==> stored_char(#[trigger] d[i]),
        d[0] != '.',
        d.last() != '.',
        named_domain(d) == Ok::<_, BypassRuleError>(d),
        !has_regex_meta(d),
        !has_wildcard(d),
        !d.contains(':'),
{
    assert forall|i: int| 0 <= i < d.len() implies stored_char(#[trigger] d[i]) by {
        assert(domain_char(d[i]));
    }
}

// ---------------------------------------------------------------- what reads back

/// A rule whose canonical form is read as the rule. Left out is a domain that is
/// written like an address, which is read as the address. A glob or a narrowed
/// regular expression is written as it was lowered, so lowering must leave it as
/// it is; that goes without saying in ASCII.
pub open spec fn rereadable(rule: RuleModel) -> bool {
    let is_url = rule.scheme is Some;
    let c = canonical_text(rule);
    match rule.kind {
        KindModel::Domain(d) => address(d) is None,
        KindModel::Wildcard(_) => lowercased(c) == c,
        KindModel::Regex(source) => narrowed(rule) ==> {
            &&& lowercased(c) == c
            &&& needs_brackets(source, rule.port, is_url) ==> !source.contains(']')
        },
        _ => true,
    }
}

/// What follows the scheme in a canonical form.
pub open spec fn body_text(rule: RuleModel) -> Seq<char> {
    kind_text(rule.kind, rule.port, rule.scheme is Some) + port_text(rule.port)
}

/// A character of the canonical form of an address or a domain.
spec fn plain_char(c: char) -> bool {
    stored_char(c) || c == ':' || c == '[' || c == ']' || c == '*'
}

proof fn lemma_port_chars(port: Option<u16>)
    ensures
        forall|i: int|
            0 <= i < port_text(port).len() ==> (#[trigger] port_text(port)[i] == ':' || '0'
                <= port_text(port)[i] <= '9'),
        port is Some ==> port_text(port).len() > 1 && '0' <= port_text(port).last() <= '9',
        port is None ==> port_text(port).len() == 0,
{
    if let Some(p) = port {
        let num = numeral(p as int, 10);
        lemma_numeral(p as int, 10);
        let t = port_text(port);
        assert forall|i: int| 0 <= i < t.len() implies (#[trigger] t[i] == ':' || '0' <= t[i]
            <= '9') by {
            if i > 0 {
                assert(t[i] == num[i - 1]);
            }
        }
        assert(t.last() == num.last());
        assert('0' <= num[num.len() - 1] <= '9');
    }
}

/// A host that is written so as to be read as itself is read so.
proof fn lemma_host_text(p: Seq<char>, port: Option<u16>, is_url: bool)
    requires
        p.len() > 0,
        port != Some(0u16),
        address(p) is None,
        forall|i: int| 0 <= i < p.len() ==> !ends_host(#[trigger] p[i], is_url),
        needs_brackets(p, port, is_url) ==> !p.contains(']'),
    ensures
        ({
            let b = host_text(p, port, is_url) + port_text(port);
            &&& b.len() > 0
            &&& range_kind(b) is None
            &&& host_part(b, is_url).len() > 0
            &&& host_port(host_part(b, is_url)) == Ok::<_, BypassRuleError>((p, port))
        }),
{
    let b = host_text(p, port, is_url) + port_text(port);
    let t = port_text(port);
    let n = p.len() as int;
    lemma_port_chars(port);
    if needs_brackets(p, port, is_url) {
        lemma_host_port_bracketed(p, port);
        assert forall|i: int| 0 <= i < b.len() implies !ends_host(#[trigger] b[i], is_url) by {
            if 0 < i <= n {
                assert(b[i] == p[i - 1]);
            } else if i > n + 1 {
                assert(b[i] == t[i - n - 2]);
            }
        }
        lemma_host_part_whole(b, is_url);
    } else if port is None && white_space(p.last()) {
        assert(b =~= p + seq!['/'] + Seq::<char>::empty());
        assert(p + t =~= p);
        assert(!p.contains('/')) by {
            if p.contains('/') {
                let i = choose|i: int| 0 <= i < p.len() && p[i] == '/';
                assert(ends_host(p[i], is_url));
            }
        }
        lemma_find_at(p, '/', Seq::<char>::empty());
        lemma_host_end(b, is_url, 0);
        let e = host_end(b, is_url, 0);
        assert(b[n] == '/');
        if e < n {
            assert(b[e] == p[e]);
        }
        assert(e == n);
        assert(b.take(n) =~= p);
    } else {
        assert forall|i: int| 0 <= i < b.len() implies !ends_host(#[trigger] b[i], is_url) by {
            if i < n {
                assert(b[i] == p[i]);
            } else {
                assert(b[i] == t[i - n]);
            }
        }
        lemma_host_part_whole(b, is_url);
    }
}

/// The characters of a host that is written so as to be read as itself.
proof fn lemma_host_text_chars(p: Seq<char>, port: Option<u16>, is_url: bool)
    requires
        p.len() > 0,
        forall|i: int| 0 <= i < p.len() ==> !ends_host(#[trigger] p[i], is_url),
    ensures
        ({
            let b = host_text(p, port, is_url) + port_text(port);
            &&& b.len() > 0
            &&& b[0] == '[' || b[0] == p[0]
            &&& is_url || !white_space(b[0])
            &&& !white_space(b.last())
            &&& forall|i: int| 0 <= i < b.len() - 1 ==> !(#[trigger] b[i] == '/' && b[i + 1] == '/')
            &&& forall|w: int| 0 <= w < p.len() ==> b.contains(#[trigger] p[w])
            &&& no_ascii_upper(p) ==> no_ascii_upper(b)
            &&& is_ascii_chars(p) ==> is_ascii_chars(b)
        }),
{
    let b = host_text(p, port, is_url) + port_text(port);
    let t = port_text(port);
    let n = p.len() as int;
    let h = host_text(p, port, is_url);
    let from: int = if needs_brackets(p, port, is_url) {
        1
    } else {
        0
    };
    lemma_port_chars(port);
    assert forall|i: int| 0 <= i < b.len() implies {
        ||| from <= i < n + from && #[trigger] b[i] == p[i - from]
        ||| b[i] == '[' || b[i] == ']' || b[i] == ':' || '0' <= b[i] <= '9'
        ||| b[i] == '/' && i == b.len() - 1
    } by {
        if i < h.len() {
            assert(b[i] == h[i]);
        } else {
            assert(b[i] == t[i - h.len()]);
        }
    }
    assert forall|w: int| 0 <= w < n implies b.contains(#[trigger] p[w]) by {
        assert(b[w + from] == p[w]);
    }
    if t.len() > 0 {
        assert(b.last() == t.last());
    } else {
        assert(b =~= h);
    }
    assert forall|i: int| 0 <= i < b.len() - 1 implies !(#[trigger] b[i] == '/' && b[i + 1]
        == '/') by {
        if from <= i < n + from {
            assert(!ends_host(p[i - from], is_url));
        }
    }
    if no_ascii_upper(p) {
        assert forall|i: int| 0 <= i < b.len() implies !ascii_upper(#[trigger] b[i]) by {
            if from <= i < n + from {
                assert(!ascii_upper(p[i - from]));
            }
        }
    }
    if is_ascii_chars(p) {
        assert forall|i: int| 0 <= i < b.len() implies '\0' <= #[trigger] b[i] <= '\u{7f}' by {
            if from <= i < n + from {
                assert('\0' <= p[i - from] <= '\u{7f}');
            }
        }
    }
}

/// The characters of what follows the scheme, for addresses and domains.
proof fn lemma_body_chars(rule: RuleModel)
    requires
        valid_rule(rule),
        rule.kind is Ip || rule.kind is Domain || rule.kind is Subdomains,
    ensures
        body_text(rule).len() > 0,
        forall|i: int| 0 <= i < body_text(rule).len() ==> plain_char(#[trigger] body_text(rule)[i]),
        no_ascii_upper(body_text(rule)),
{
    let b = body_text(rule);
    let t = port_text(rule.port);
    let k = kind_text(rule.kind, rule.port, rule.scheme is Some);
    lemma_port_chars(rule.port);
    assert forall|i: int| 0 <= i < k.len() implies plain_char(#[trigger] k[i]) && !ascii_upper(
        k[i],
    ) by {
        match rule.kind {
            KindModel::Ip(a) => {
                lemma_address_text_chars(a);
                let w = address_text(a);
                if k.len() == w.len() {
                    assert(k[i] == w[i]);
                    assert(written_char(w[i]));
                } else if 0 < i < k.len() - 1 {
                    assert(k[i] == w[i - 1]);
                    assert(written_char(w[i - 1]));
                }
            },
            KindModel::Domain(d) => {
                lemma_stored_chars(d);
                assert(stored_char(d[i]));
            },
            KindModel::Subdomains(d) => {
                lemma_stored_chars(d);
                reveal_strlit("*.");
                if i >= 2 {
                    assert(k[i] == d[i - 2]);
                    assert(stored_char(d[i - 2]));
                    assert(!ascii_upper(d[i - 2]));
                }
            },
            _ => {},
        }
    }
    assert(k.len() > 0) by {
        match rule.kind {
            KindModel::Ip(a) => {
                lemma_address_text_chars(a);
            },
            KindModel::Subdomains(d) => {
                reveal_strlit("*.");
            },
            _ => {},
        }
    }
    assert forall|i: int| 0 <= i < b.len() implies plain_char(#[trigger] b[i]) && !ascii_upper(
        b[i],
    ) by {
        if i < k.len() {
            assert(b[i] == k[i]);
        } else {
            assert(b[i] == t[i - k.len()]);
        }
    }
}

/// Host and port come apart again, for addresses and domains.
proof fn lemma_body_rule(rule: RuleModel)
    requires
        valid_rule(rule),
        rereadable(rule),
        rule.kind is Ip || rule.kind is Domain || rule.kind is Subdomains,
    ensures
        host_rule(rule.scheme, body_text(rule)) == Ok::<_, BypassRuleError>(rule),
{
    lemma_body_chars(rule);
    let b = body_text(rule);
    match rule.kind {
        KindModel::Ip(a) => {
            let w = address_text(a);
            lemma_address_text_chars(a);
            address_text_reads_back(a);
            assert forall|i: int| 0 <= i < w.len() implies #[trigger] w[i] != '[' && w[i] != ']' by {
                assert(written_char(w[i]));
            }
            if a is V4 {
                lemma_host_port_plain(w, rule.port);
            } else {
                match rule.port {
                    Some(_) => {
                        lemma_host_port_bracketed(w, rule.port);
                    },
                    None => {
                        lemma_host_port_colons(w);
                        assert(b =~= w);
                    },
                }
            }
        },
        KindModel::Domain(d) => {
            lemma_stored_chars(d);
            assert(stored_char(d[0]));
            lemma_host_port_plain(d, rule.port);
        },
        KindModel::Subdomains(d) => {
            let h = "*."@ + d;
            lemma_stored_chars(d);
            reveal_strlit("*.");
            assert(h[0] == '*' && h[1] == '.');
            assert forall|i: int| 0 <= i < h.len() implies #[trigger] h[i] != ':'
                && !regex_only_meta(h[i]) by {
                if i >= 2 {
                    assert(h[i] == d[i - 2]);
                    assert(stored_char(d[i - 2]));
                }
            }
            lemma_host_port_plain(h, rule.port);
            if address(h) is Some {
                lemma_address_chars(h);
                assert(address_char(h[0]));
            }
            assert(h.skip(2) =~= d);
        },
        _ => {},
    }
}

/// A range reads back.
proof fn lemma_range_text(network: Address, prefix: u8)
    requires
        sized(network),
        normal(network) == network,
        prefix <= width(network),
    ensures
        range_kind(kind_text(KindModel::Cidr { network, prefix }, None, false)) == Some(
            Ok::<_, BypassRuleError>(KindModel::Cidr { network, prefix }),
        ),
{
    let w = address_text(network);
    let num = numeral(prefix as int, 10);
    lemma_address_text_chars(network);
    address_text_reads_back(network);
    lemma_unsigned_numeral(prefix as int, 255);
    assert(!w.contains('/')) by {
        if w.contains('/') {
            let i = choose|i: int| 0 <= i < w.len() && w[i] == '/';
            assert(written_char(w[i]));
        }
    }
    lemma_find_at(w, '/', num);
}

/// The characters of a range.
proof fn lemma_range_chars(network: Address, prefix: u8)
    requires
        sized(network),
    ensures
        ({
            let k = kind_text(KindModel::Cidr { network, prefix }, None, false);
            let n = address_text(network).len() as int;
            &&& k.len() > n + 1
            &&& n > 0
            &&& k[n] == '/'
            &&& '0' <= k.last() <= '9'
            &&& forall|i: int| 0 <= i < k.len() && i != n ==> written_char(#[trigger] k[i])
        }),
{
    let w = address_text(network);
    let num = numeral(prefix as int, 10);
    let k = kind_text(KindModel::Cidr { network, prefix }, None, false);
    let n = w.len() as int;
    lemma_address_text_chars(network);
    lemma_unsigned_numeral(prefix as int, 255);
    assert(k[n] == '/');
    assert(k.last() == num.last());
    assert('0' <= num[num.len() - 1] <= '9');
    assert forall|i: int| 0 <= i < k.len() && i != n implies written_char(#[trigger] k[i]) by {
        if i < n {
            assert(k[i] == w[i]);
        } else {
            assert(k[i] == num[i - n - 1]);
            assert('0' <= num[i - n - 1] <= '9');
        }
    }
}

/// Once the scheme is off, a rule reads back.
proof fn lemma_authority_text(rule: RuleModel)
    requires
        valid_rule(rule),
        rereadable(rule),
        rule.kind is Regex ==> narrowed(rule),
        !(rule.kind is Local),
        !(rule.kind is Loopback),
    ensures
        authority_rule(rule.scheme, body_text(rule)) == Ok::<_, BypassRuleError>(rule),
{
    reveal(authority_rule);
    let b = body_text(rule);
    let is_url = rule.scheme is Some;
    match rule.kind {
        KindModel::Cidr { network, prefix } => {
            lemma_range_text(network, prefix);
            lemma_range_chars(network, prefix);
            assert(b =~= kind_text(rule.kind, None, false));
        },
        KindModel::Wildcard(p) => {
            assert(!p.contains(']')) by {
                if p.contains(']') {
                    let i = choose|i: int| 0 <= i < p.len() && p[i] == ']';
                    assert(regex_only_meta(p[i]));
                }
            }
            lemma_host_text(p, rule.port, is_url);
        },
        KindModel::Regex(source) => {
            lemma_host_text(source, rule.port, is_url);
        },
        _ => {
            lemma_body_chars(rule);
            assert forall|i: int| 0 <= i < b.len() implies !ends_host(#[trigger] b[i], is_url) by {
                assert(plain_char(b[i]));
            }
            lemma_host_part_whole(b, is_url);
            lemma_body_rule(rule);
        },
    }
}

/// The canonical form is the scheme and what follows it.
proof fn lemma_canonical_parts(rule: RuleModel)
    ensures
        canonical_text(rule) == scheme_text(rule.scheme) + body_text(rule),
        rule.scheme matches Some(s) ==> canonical_text(rule) == s + "://"@ + body_text(rule),
        rule.scheme is None ==> canonical_text(rule) == body_text(rule),
{
    assert(canonical_text(rule) =~= scheme_text(rule.scheme) + body_text(rule));
    if rule.scheme is None {
        assert(canonical_text(rule) =~= body_text(rule));
    }
}

/// The scheme of a canonical form is in ASCII and in lowercase.
proof fn lemma_scheme_chars(scheme: Option<Seq<char>>)
    requires
        scheme matches Some(s) ==> scheme_ok(s) && no_ascii_upper(s),
    ensures
        is_ascii_chars(scheme_text(scheme)),
        no_ascii_upper(scheme_text(scheme)),
        scheme is Some ==> scheme_text(scheme).len() > 0 && scheme_char(scheme_text(scheme)[0]),
        scheme is None ==> scheme_text(scheme).len() == 0,
{
    if let Some(s) = scheme {
        reveal_strlit("://");
        let t = scheme_text(scheme);
        assert(t[0] == s[0]);
        assert forall|i: int| 0 <= i < t.len() implies '\0' <= #[trigger] t[i] <= '\u{7f}'
            && !ascii_upper(t[i]) by {
            if i < s.len() {
                assert(t[i] == s[i]);
                assert(scheme_char(s[i]));
            } else {
                assert(t[i] == "://"@[i - s.len()]);
            }
        }
    }
}

/// What follows the scheme, for addresses, ranges and domains: ASCII in
/// lowercase, with nothing at its ends that means something else.
proof fn lemma_body_edges(rule: RuleModel)
    requires
        valid_rule(rule),
        rule.kind is Ip || rule.kind is Domain || rule.kind is Subdomains || rule.kind is Cidr,
    ensures
        body_text(rule).len() > 0,
        is_ascii_chars(body_text(rule)),
        no_ascii_upper(body_text(rule)),
        plain_char(body_text(rule)[0]),
        plain_char(body_text(rule).last()),
        forall|i: int|
            0 <= i < body_text(rule).len() - 1 ==> !(#[trigger] body_text(rule)[i] == '/'
                && body_text(rule)[i + 1] == '/'),
{
    let b = body_text(rule);
    match rule.kind {
        KindModel::Cidr { network, prefix } => {
            let n = address_text(network).len() as int;
            lemma_range_chars(network, prefix);
            assert(b =~= kind_text(rule.kind, None, false));
            assert(written_char(b[0]));
            assert forall|i: int| 0 <= i < b.len() implies '\0' <= #[trigger] b[i] <= '\u{7f}'
                && !ascii_upper(b[i]) by {
                if i != n {
                    assert(written_char(b[i]));
                }
            }
            assert forall|i: int| 0 <= i < b.len() - 1 implies !(#[trigger] b[i] == '/' && b[i + 1]
                == '/') by {
                if i == n {
                    assert(written_char(b[i + 1]));
                } else {
                    assert(written_char(b[i]));
                }
            }
        },
        _ => {
            lemma_body_chars(rule);
            assert(plain_char(b[0]));
            assert(plain_char(b[b.len() - 1]));
            assert forall|i: int| 0 <= i < b.len() implies '\0' <= #[trigger] b[i] <= '\u{7f}'
                && b[i] != '/' by {
                assert(plain_char(b[i]));
            }
        },
    }
}

/// What follows the trimming and lowering of a canonical form.
proof fn lemma_lowered_text(rule: RuleModel)
    requires
        valid_rule(rule),
        rereadable(rule),
        rule.kind is Regex ==> narrowed(rule),
        !(rule.kind is Local),
        !(rule.kind is Loopback),
        canonical_text(rule) != "<local>"@,
        canonical_text(rule) != "<loopback>"@,
        rule.scheme is None ==> forall|i: int|
            0 <= i < body_text(rule).len() - 1 ==> !(#[trigger] body_text(rule)[i] == '/'
                && body_text(rule)[i + 1] == '/'),
    ensures
        lowered_rule(canonical_text(rule)) == Ok::<_, BypassRuleError>(rule),
{
    lemma_canonical_parts(rule);
    lemma_authority_text(rule);
    match rule.scheme {
        Some(s) => {
            lemma_split_scheme(s, body_text(rule));
        },
        None => {
            lemma_no_scheme(body_text(rule));
        },
    }
}

/// A text that only the characters of addresses and domains make up, behind a
/// scheme or none, is read as a host with an optional port.
proof fn lemma_plain_text(scheme: Option<Seq<char>>, b: Seq<char>)
    requires
        scheme matches Some(s) ==> scheme_ok(s) && no_ascii_upper(s),
        b.len() > 0,
        no_ascii_upper(b),
        forall|i: int| 0 <= i < b.len() ==> plain_char(#[trigger] b[i]),
    ensures
        parsed(scheme_text(scheme) + b) == host_rule(scheme, b),
{
    reveal(authority_rule);
    let t = scheme_text(scheme);
    let c = t + b;
    lemma_scheme_chars(scheme);
    assert forall|i: int| 0 <= i < c.len() implies '\0' <= #[trigger] c[i] <= '\u{7f}'
        && !ascii_upper(c[i]) by {
        if i < t.len() {
            assert(c[i] == t[i]);
        } else {
            assert(c[i] == b[i - t.len()]);
            assert(plain_char(b[i - t.len()]));
        }
    }
    assert(c.last() == b[b.len() - 1]);
    assert(c[0] == t[0] || c[0] == b[0]);
    assert(plain_char(c[0]) || scheme_char(c[0]));
    lemma_trimmed_already(c);
    lemma_lowercased_already(c);
    reveal_strlit("<local>");
    reveal_strlit("<loopback>");
    let is_url = scheme is Some;
    assert forall|i: int| 0 <= i < b.len() implies !ends_host(#[trigger] b[i], is_url) by {
        assert(plain_char(b[i]));
    }
    lemma_host_part_whole(b, is_url);
    match scheme {
        Some(s) => {
            assert(c =~= s + "://"@ + b);
            lemma_split_scheme(s, b);
        },
        None => {
            assert(c =~= b);
            lemma_no_scheme(b);
        },
    }
}

proof fn lemma_named_reads_back(rule: RuleModel)
    requires
        valid_rule(rule),
        rereadable(rule),
        rule.kind is Ip || rule.kind is Domain || rule.kind is Subdomains || rule.kind is Cidr,
    ensures
        parsed(canonical_text(rule)) == Ok::<_, BypassRuleError>(rule),
        is_ascii_chars(canonical_text(rule)),
        no_ascii_upper(canonical_text(rule)),
{
    let c = canonical_text(rule);
    let b = body_text(rule);
    let t = scheme_text(rule.scheme);
    lemma_canonical_parts(rule);
    lemma_scheme_chars(rule.scheme);
    lemma_body_edges(rule);
    assert forall|i: int| 0 <= i < c.len() implies '\0' <= #[trigger] c[i] <= '\u{7f}'
        && !ascii_upper(c[i]) by {
        if i < t.len() {
            assert(c[i] == t[i]);
        } else {
            assert(c[i] == b[i - t.len()]);
        }
    }
    assert(c.last() == b.last());
    assert(c[0] == t[0] || c[0] == b[0]);
    assert(plain_char(c[0]) || scheme_char(c[0]));
    lemma_trimmed_already(c);
    lemma_lowercased_already(c);
    reveal_strlit("<local>");
    reveal_strlit("<loopback>");
    lemma_lowered_text(rule);
}

/// The text that a glob or a narrowed regular expression was written as.
pub open spec fn host_of(kind: KindModel) -> Seq<char> {
    match kind {
        KindModel::Wildcard(p) => p,
        KindModel::Regex(source) => source,
        _ => Seq::empty(),
    }
}

/// What follows the scheme, for globs and narrowed regular expressions.
pub proof fn lemma_written_edges(rule: RuleModel)
    requires
        valid_rule(rule),
        rule.kind is Wildcard || (rule.kind is Regex && narrowed(rule)),
    ensures
        ({
            let c = canonical_text(rule);
            let b = body_text(rule);
            &&& c.len() > 0
            &&& trimmed(c) == c
            &&& c[0] != '#'
            &&& c[0] != '/'
            &&& c != "<local>"@
            &&& c != "<loopback>"@
            &&& no_ascii_upper(c)
            &&& is_ascii_chars(host_of(rule.kind)) ==> is_ascii_chars(c)
            &&& forall|i: int| 0 <= i < b.len() - 1 ==> !(#[trigger] b[i] == '/' && b[i + 1] == '/')
        }),
{
    let p = host_of(rule.kind);
    let c = canonical_text(rule);
    let b = body_text(rule);
    let t = scheme_text(rule.scheme);
    let is_url = rule.scheme is Some;
    lemma_canonical_parts(rule);
    lemma_scheme_chars(rule.scheme);
    let w: int = if rule.kind is Wildcard {
        choose|w: int| 0 <= w < p.len() && (p[w] == '*' || p[w] == '?')
    } else {
        choose|w: int| 0 <= w < p.len() && regex_only_meta(#[trigger] p[w])
    };
    assert(p[w] == '*' || p[w] == '?' || regex_only_meta(p[w]));
    lemma_host_text_chars(p, rule.port, is_url);
    assert(!ends_host(p[0], is_url));
    assert(b.contains(p[w]));
    let j = choose|j: int| 0 <= j < b.len() && b[j] == p[w];
    assert(c[t.len() + j] == p[w]);
    assert(c.last() == b.last());
    assert(c[0] == t[0] || c[0] == b[0]);
    lemma_trimmed_already(c);
    reveal_strlit("<local>");
    reveal_strlit("<loopback>");
    assert(c != "<local>"@) by {
        if c == "<local>"@ {
            assert("<local>"@[t.len() + j] == p[w]);
        }
    }
    assert(c != "<loopback>"@) by {
        if c == "<loopback>"@ {
            assert("<loopback>"@[t.len() + j] == p[w]);
        }
    }
    assert forall|i: int| 0 <= i < c.len() implies !ascii_upper(#[trigger] c[i]) by {
        if i < t.len() {
            assert(c[i] == t[i]);
        } else {
            assert(c[i] == b[i - t.len()]);
        }
    }
    if is_ascii_chars(p) {
        assert forall|i: int| 0 <= i < c.len() implies '\0' <= #[trigger] c[i] <= '\u{7f}' by {
            if i < t.len() {
                assert(c[i] == t[i]);
            } else {
                assert(c[i] == b[i - t.len()]);
            }
        }
    }
}

proof fn lemma_written_reads_back(rule: RuleModel)
    requires
        valid_rule(rule),
        rereadable(rule),
        rule.kind is Wildcard || (rule.kind is Regex && narrowed(rule)),
    ensures
        parsed(canonical_text(rule)) == Ok::<_, BypassRuleError>(rule),
{
    lemma_written_edges(rule);
    lemma_lowered_text(rule);
}

/// The canonical form of a rule is read as that rule again. So what is stored
/// means what was typed.
pub proof fn canonical_form_reads_back(rule: RuleModel)
    requires
        valid_rule(rule),
        rereadable(rule),
    ensures
        parsed(canonical_text(rule)) == Ok::<_, BypassRuleError>(rule),
{
    let c = canonical_text(rule);
    lemma_canonical_parts(rule);
    match rule.kind {
        KindModel::Local => {
            reveal_strlit("<local>");
            assert(c =~= "<local>"@);
            lemma_trimmed_already(c);
            lemma_lowercased_already(c);
        },
        KindModel::Loopback => {
            reveal_strlit("<local>");
            reveal_strlit("<loopback>");
            assert(c =~= "<loopback>"@);
            assert("<local>"@.len() != "<loopback>"@.len());
            lemma_trimmed_already(c);
            lemma_lowercased_already(c);
        },
        KindModel::Regex(source) if !narrowed(rule) => {
            assert(c =~= seq!['/'] + source + seq!['/']);
            lemma_trimmed_already(c);
            assert(c.subrange(1, c.len() - 1) =~= source);
        },
        KindModel::Wildcard(_) | KindModel::Regex(_) => {
            lemma_written_reads_back(rule);
        },
        _ => {
            lemma_named_reads_back(rule);
        },
    }
}

/// The canonical form of a rule is read as a rule that has this form too.
pub open spec fn settled(rule: RuleModel) -> bool {
    parsed(canonical_text(rule)) matches Ok(again) && canonical_text(again) == canonical_text(rule)
}

/// The canonical form of a rule is the canonical form of what it is read as.
/// That goes for a domain that is written like an address as well, though it
/// is read as the address.
pub proof fn canonical_form_is_settled(rule: RuleModel)
    requires
        valid_rule(rule),
        rereadable(rule) || rule.kind is Domain,
    ensures
        settled(rule),
{
    match rule.kind {
        KindModel::Domain(d) if address(d) is Some => {
            lemma_stored_chars(d);
            ipv4_address_is_written_once(d);
            lemma_address_sized(d);
            let a = address(d)->Some_0;
            let again = RuleModel { kind: KindModel::Ip(a), port: rule.port, scheme: rule.scheme };
            canonical_form_reads_back(again);
            assert(canonical_text(again) == canonical_text(rule));
        },
        _ => {
            canonical_form_reads_back(rule);
        },
    }
}

/// Rules with the same canonical form are the same rule.
pub proof fn canonical_form_tells_rules_apart(a: RuleModel, b: RuleModel)
    requires
        valid_rule(a),
        valid_rule(b),
        rereadable(a),
        rereadable(b),
        canonical_text(a) == canonical_text(b),
    ensures
        a == b,
{
    canonical_form_reads_back(a);
    canonical_form_reads_back(b);
}

/// A subdomain rule that is spelled with `.` is read as the rule that its
/// canonical form spells with `*.`.
pub proof fn leading_dot_is_stored_as_star(rule: RuleModel, domain: Seq<char>)
    requires
        valid_rule(rule),
        rule.kind == KindModel::Subdomains(domain),
    ensures
        parsed(scheme_text(rule.scheme) + (seq!['.'] + domain + port_text(rule.port))) == Ok::<
            _,
            BypassRuleError,
        >(rule),
        canonical_text(rule) == scheme_text(rule.scheme) + ("*."@ + domain + port_text(rule.port)),
{
    let h = seq!['.'] + domain;
    let t = port_text(rule.port);
    let b = h + t;
    lemma_stored_chars(domain);
    lemma_port_chars(rule.port);
    assert(canonical_text(rule) =~= scheme_text(rule.scheme) + ("*."@ + domain + t));
    assert forall|i: int| 0 <= i < h.len() implies plain_char(#[trigger] h[i]) && h[i] != ':'
        && !regex_only_meta(h[i]) && !ascii_upper(h[i]) by {
        if i >= 1 {
            assert(h[i] == domain[i - 1]);
            assert(stored_char(domain[i - 1]));
        }
    }
    assert forall|i: int| 0 <= i < b.len() implies plain_char(#[trigger] b[i]) && !ascii_upper(
        b[i],
    ) by {
        if i < h.len() {
            assert(b[i] == h[i]);
        } else {
            assert(b[i] == t[i - h.len()]);
        }
    }
    lemma_plain_text(rule.scheme, b);
    lemma_host_port_plain(h, rule.port);
    if address(h) is Some {
        lemma_address_chars(h);
    }
    assert(h.skip(1) =~= domain);
}

/// A rule for the IPv4-mapped form of an IPv4 address is the rule for that
/// address.
pub proof fn mapped_spelling_is_the_ipv4_rule(o: Seq<u8>)
    requires
        o.len() == 4,
    ensures
        parsed("::ffff:"@ + dotted_text(o)) == parsed(dotted_text(o)),
        parsed(dotted_text(o)) == Ok::<_, BypassRuleError>(unnarrowed(KindModel::Ip(Address::V4(o)))),
{
    let w = dotted_text(o);
    let b = "::ffff:"@ + w;
    let rule = unnarrowed(KindModel::Ip(Address::V4(o)));
    canonical_form_reads_back(rule);
    assert(canonical_text(rule) =~= w);
    lemma_dotted_text(o);
    reveal_strlit("::ffff:");
    assert(b[0] == ':' && b[1] == ':');
    assert forall|i: int| 0 <= i < b.len() implies plain_char(#[trigger] b[i]) && !ascii_upper(
        b[i],
    ) by {
        if i >= 7 {
            assert(b[i] == w[i - 7]);
            assert(dotted_char(w[i - 7]));
        }
    }
    lemma_plain_text(None, b);
    assert(scheme_text(None) + b =~= b);
    lemma_host_port_colons(b);
    mapped_text_is_the_ipv4_address(o);
}

/// The canonical form of a rule has no upper-case ASCII letter in it, unless it
/// is a regular expression between slashes, which is kept as it is.
pub proof fn canonical_form_is_lowercase(rule: RuleModel)
    requires
        valid_rule(rule),
        rule.kind is Regex ==> narrowed(rule),
    ensures
        no_ascii_upper(canonical_text(rule)),
{
    let c = canonical_text(rule);
    let b = body_text(rule);
    let t = scheme_text(rule.scheme);
    lemma_canonical_parts(rule);
    lemma_scheme_chars(rule.scheme);
    lemma_port_chars(rule.port);
    match rule.kind {
        KindModel::Local => {
            reveal_strlit("<local>");
            assert(c =~= "<local>"@);
        },
        KindModel::Loopback => {
            reveal_strlit("<loopback>");
            assert(c =~= "<loopback>"@);
        },
        KindModel::Wildcard(_) | KindModel::Regex(_) => {
            lemma_written_edges(rule);
        },
        _ => {
            lemma_body_edges(rule);
            assert forall|i: int| 0 <= i < c.len() implies !ascii_upper(#[trigger] c[i]) by {
                if i < t.len() {
                    assert(c[i] == t[i]);
                } else {
                    assert(c[i] == b[i - t.len()]);
                }
            }
        },
    }
}

} // verus!
