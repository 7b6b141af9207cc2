//! Laws of reading: which rule a text writes, told by the characters that stand
//! in it.

use crate::address::{address, normal, Address};
use crate::address_laws::{address_char, lemma_address_chars, lemma_find_at, lemma_find_none};
use crate::domain::{named_domain, url_host_of};
use crate::error::BypassRuleError;
use crate::host::{
    domain_char, domain_ok, ends_host, has_empty_label, has_regex_meta, host_port, regex_only_meta,
};
use crate::number::{number, unsigned_text};
use crate::parse::{authority_rule, host_kind, lowered_rule, parsed};
use crate::pattern::regex_compiles;
use crate::rule::{scheme_char, scheme_ok, KindModel, RuleModel};
use crate::spelling_laws::path_is_dropped;
use crate::text::{find, lemma_find_from};
use crate::text_laws::{
    blank, cuts, decimal, host_ends_at_the_first_mark, in_lowercase, lemma_decimal,
    lemma_lowered_to, numbers_are_read_from_digits, scheme_ends_at_the_first_mark, schemeless,
    trimming_takes_all_white_space_around, uncut,
};
use crate::unicode::white_space;
use vstd::prelude::*;
use vstd::utf8::is_ascii_chars;

verus! {

// ---------------------------------------------------------------- hosts

/// One of the eleven characters that only a regular expression holds.
pub open spec fn looks_like_regex(s: Seq<char>) -> bool {
    ||| s.contains('\\')
    ||| s.contains('^')
    ||| s.contains('$')
    ||| s.contains('[')
    ||| s.contains(']')
    ||| s.contains('(')
    ||| s.contains(')')
    ||| s.contains('+')
    ||| s.contains('|')
    ||| s.contains('{')
    ||| s.contains('}')
}

proof fn lemma_looks_like_regex(s: Seq<char>)
    ensures
        looks_like_regex(s) <==> has_regex_meta(s),
{
    if has_regex_meta(s) {
        let i = choose|i: int| 0 <= i < s.len() && regex_only_meta(#[trigger] s[i]);
        assert(s.contains(s[i]));
    }
}

/// A host that is no address and holds one of the eleven characters is a regular
/// expression or is refused as none. It is never a domain or a glob.
pub proof fn regex_characters_make_a_regex(host: Seq<char>)
    requires
        address(host) is None,
        looks_like_regex(host),
    ensures
        host_kind(host) == (if regex_compiles(host) && regex_compiles(
            "(?i)^(?:"@ + host + ")$"@,
        ) {
            Ok(KindModel::Regex(host))
        } else {
            Err(BypassRuleError::InvalidRegex)
        }),
{
    lemma_looks_like_regex(host);
}

/// A host that writes an address is the address, in its normal form.
pub proof fn addresses_make_an_address_rule(host: Seq<char>)
    ensures
        address(host) matches Some(a) ==> host_kind(host) == Ok::<_, BypassRuleError>(
            KindModel::Ip(normal(a)),
        ),
{
}

/// `*.` or `.` before a domain makes a rule for its subdomains, where nothing in
/// the domain belongs to a glob or a regular expression.
pub proof fn star_dot_and_dot_make_subdomains(base: Seq<char>)
    requires
        base.len() > 0,
        !base.contains('*'),
        !base.contains('?'),
        !looks_like_regex(base),
    ensures
        host_kind("*."@ + base) == (match named_domain(base) {
            Ok(d) => Ok(KindModel::Subdomains(d)),
            Err(e) => Err(e),
        }),
        host_kind(seq!['.'] + base) == (match named_domain(base) {
            Ok(d) => Ok(KindModel::Subdomains(d)),
            Err(e) => Err(e),
        }),
{
    reveal_strlit("*.");
    let star = "*."@ + base;
    let dot = seq!['.'] + base;
    lemma_looks_like_regex(base);
    assert(star[0] == '*' && star[1] == '.');
    assert(dot[0] == '.');
    if address(star) is Some {
        lemma_address_chars(star);
        assert(address_char(star[0]));
    }
    if address(dot) is Some {
        lemma_address_chars(dot);
    }
    assert(!has_regex_meta(star)) by {
        if has_regex_meta(star) {
            let i = choose|i: int| 0 <= i < star.len() && regex_only_meta(#[trigger] star[i]);
            assert(star[i] == base[i - 2]);
        }
    }
    assert(!has_regex_meta(dot)) by {
        if has_regex_meta(dot) {
            let i = choose|i: int| 0 <= i < dot.len() && regex_only_meta(#[trigger] dot[i]);
            assert(dot[i] == base[i - 1]);
        }
    }
    assert(star.skip(2) =~= base);
    assert(dot.skip(1) =~= base);
}

/// A host that begins with `*.` or `.`, with a plain domain behind it.
pub open spec fn names_subdomains(host: Seq<char>) -> bool {
    ||| host.len() > 2 && host[0] == '*' && host[1] == '.' && !host.skip(2).contains('*')
        && !host.skip(2).contains('?')
    ||| host.len() > 1 && host[0] == '.' && !host.skip(1).contains('*') && !host.skip(1).contains(
        '?',
    )
}

/// Any other host with `*` or `?` in it is a glob, and any host without them a
/// domain.
pub proof fn stars_and_question_marks_make_a_glob(host: Seq<char>)
    requires
        address(host) is None,
        !looks_like_regex(host),
        !names_subdomains(host),
    ensures
        host.contains('*') || host.contains('?') ==> host_kind(host) == Ok::<_, BypassRuleError>(
            KindModel::Wildcard(host),
        ),
        !host.contains('*') && !host.contains('?') ==> host_kind(host) == (match named_domain(
            host,
        ) {
            Ok(d) => Ok(KindModel::Domain(d)),
            Err(e) => Err(e),
        }),
{
    lemma_looks_like_regex(host);
}

/// A letter, a digit, a hyphen, a dot or an underscore.
pub open spec fn label_char(c: char) -> bool {
    'a' <= c <= 'z' || 'A' <= c <= 'Z' || '0' <= c <= '9' || c == '-' || c == '.' || c == '_'
}

/// Labels of such characters with single dots between them.
pub open spec fn labels(d: Seq<char>) -> bool {
    &&& forall|i: int| 0 <= i < d.len() ==> label_char(#[trigger] d[i])
    &&& d.len() > 0 ==> d[0] != '.' && d[d.len() - 1] != '.'
    &&& forall|i: int| 0 <= i < d.len() - 1 ==> !(#[trigger] d[i] == '.' && d[i + 1] == '.')
}

/// A domain in ASCII is itself where it is made of labels, and is refused
/// otherwise. Beyond ASCII it is the host that a URL has of it, where that is
/// made of labels.
pub proof fn domains_are_made_of_labels(d: Seq<char>)
    ensures
        is_ascii_chars(d) ==> named_domain(d) == (if labels(d) {
            Ok(d)
        } else {
            Err(BypassRuleError::InvalidHost)
        }),
        !is_ascii_chars(d) ==> match url_host_of("http://"@ + d) {
            None => named_domain(d) == Err::<Seq<char>, _>(BypassRuleError::InvalidHost),
            Some(h) => is_ascii_chars(h) ==> named_domain(d) == (if labels(h) {
                Ok(h)
            } else {
                Err(BypassRuleError::InvalidHost)
            }),
        },
{
    if is_ascii_chars(d) {
        lemma_labels(d);
    } else if let Some(h) = url_host_of("http://"@ + d) {
        if is_ascii_chars(h) {
            lemma_labels(h);
        }
    }
}

proof fn lemma_labels(d: Seq<char>)
    requires
        is_ascii_chars(d),
    ensures
        labels(d) <==> domain_ok(d),
{
    if domain_ok(d) {
        assert forall|i: int| 0 <= i < d.len() implies label_char(#[trigger] d[i]) by {
            assert(domain_char(d[i]));
        }
        assert forall|i: int| 0 <= i < d.len() - 1 implies !(#[trigger] d[i] == '.' && d[i + 1]
            == '.') by {
            if d[i] == '.' && d[i + 1] == '.' {
                assert(has_empty_label(d));
            }
        }
    }
    if labels(d) {
        assert forall|i: int| 0 <= i < d.len() implies domain_char(#[trigger] d[i]) by {
            assert(label_char(d[i]));
        }
        assert(!has_empty_label(d));
    }
}

// ---------------------------------------------------------------- behind a scheme, or without one

/// What a host with an optional port is read as, with the scheme before it or
/// without: its kind, narrowed to that port and that scheme.
pub proof fn host_and_port_make_the_rule(scheme: Option<Seq<char>>, h: Seq<char>)
    requires
        uncut(h, scheme is Some),
    ensures
        authority_rule(scheme, h) == (if h.len() == 0 {
            Err(BypassRuleError::InvalidHost)
        } else {
            match host_port(h) {
                Err(e) => Err(e),
                Ok((host, port)) => if host.len() == 0 {
                    Err(BypassRuleError::InvalidHost)
                } else {
                    match host_kind(host) {
                        Ok(kind) => Ok(RuleModel { kind, port, scheme }),
                        Err(e) => Err(e),
                    }
                },
            }
        }),
{
    reveal(authority_rule);
    host_ends_at_the_first_mark(h, '/', Seq::empty(), scheme is Some);
    assert(!h.contains('/')) by {
        if h.contains('/') {
            let i = choose|i: int| 0 <= i < h.len() && h[i] == '/';
            assert(cuts(h[i], scheme is Some));
        }
    }
    lemma_find_none(h, '/');
}

/// Digits, with a plus sign before them or without.
pub open spec fn prefix_length(s: Seq<char>) -> bool {
    decimal(s) || (s.len() > 0 && s[0] == '+' && decimal(s.skip(1)))
}

proof fn lemma_prefix_length(s: Seq<char>)
    ensures
        prefix_length(s) <==> unsigned_text(s),
{
    lemma_decimal(s);
    if s.len() > 0 {
        lemma_decimal(s.skip(1));
        if decimal(s) {
            assert('0' <= s[0] <= '9');
        }
    }
}

/// What follows a slash, a hash sign or, behind a scheme, a question mark is
/// dropped, unless it is the length of a range behind an address and a slash.
pub proof fn what_follows_the_host_is_dropped(
    scheme: Option<Seq<char>>,
    h: Seq<char>,
    end: char,
    rest: Seq<char>,
)
    requires
        uncut(h, scheme is Some),
        cuts(end, scheme is Some),
        !(end == '/' && address(h) is Some && prefix_length(rest)),
    ensures
        authority_rule(scheme, h + seq![end] + rest) == authority_rule(scheme, h),
{
    let is_url = scheme is Some;
    lemma_prefix_length(rest);
    if h.len() > 0 {
        assert forall|i: int| 0 <= i < h.len() implies !ends_host(#[trigger] h[i], is_url) by {
            assert(!cuts(h[i], is_url));
        }
        path_is_dropped(scheme, h, end, rest);
    } else {
        reveal(authority_rule);
        let s = h + seq![end] + rest;
        host_ends_at_the_first_mark(h, end, rest, is_url);
        assert(s[0] == end);
        lemma_find_from(s, '/', 0);
        let f = find(s, '/');
        if f < s.len() && address(s.take(f)) is Some {
            lemma_address_chars(s.take(f));
            assert(s.take(f)[0] == end);
            assert(address_char(s.take(f)[0]));
        }
    }
}

/// How many bits a range fixes of the IPv4 address in an IPv4-mapped one.
pub open spec fn mapped_length(n: int) -> int {
    if n <= 32 {
        n
    } else if n < 96 {
        32
    } else {
        n - 96
    }
}

/// An address, a slash and a number make a range, where the address has that
/// many bits, and are refused otherwise.
pub proof fn address_slash_number_make_a_range(
    scheme: Option<Seq<char>>,
    t: Seq<char>,
    a: Address,
    digits: Seq<char>,
    plus: bool,
)
    requires
        address(t) == Some(a),
        decimal(digits),
    ensures
        ({
            let n = number(digits, 10);
            let s = t + seq!['/'] + (if plus {
                seq!['+'] + digits
            } else {
                digits
            });
            let most: int = if a is V4 {
                32
            } else {
                128
            };
            let bits = if normal(a) == a {
                n
            } else {
                mapped_length(n)
            };
            authority_rule(scheme, s) == (if n <= most {
                Ok(
                    RuleModel {
                        kind: KindModel::Cidr { network: normal(a), prefix: bits as u8 },
                        port: None,
                        scheme,
                    },
                )
            } else {
                Err(BypassRuleError::InvalidCidr)
            })
        }),
{
    reveal(authority_rule);
    let d = if plus {
        seq!['+'] + digits
    } else {
        digits
    };
    lemma_address_chars(t);
    assert(!t.contains('/')) by {
        if t.contains('/') {
            let i = choose|i: int| 0 <= i < t.len() && t[i] == '/';
            assert(address_char(t[i]));
        }
    }
    lemma_find_at(t, '/', d);
    numbers_are_read_from_digits(digits, 255);
    assert((seq!['+'] + digits).skip(1) =~= digits);
    lemma_prefix_length(d);
}

// ---------------------------------------------------------------- scheme

/// A letter, a digit, `+`, `-` or `.`.
pub open spec fn scheme_letter(c: char) -> bool {
    'a' <= c <= 'z' || 'A' <= c <= 'Z' || '0' <= c <= '9' || c == '+' || c == '-' || c == '.'
}

/// What stands before the first `://` is the scheme of the rule, where it is one,
/// and the text is refused otherwise. Without `://` a rule has no scheme.
pub proof fn scheme_stands_before_its_mark(s: Seq<char>, rest: Seq<char>)
    requires
        schemeless(s),
    ensures
        lowered_rule(s + "://"@ + rest) == (if s.len() > 0 && (forall|i: int|
            0 <= i < s.len() ==> scheme_letter(#[trigger] s[i])) {
            authority_rule(Some(s), rest)
        } else {
            Err(BypassRuleError::InvalidScheme)
        }),
        s != "<local>"@ && s != "<loopback>"@ ==> lowered_rule(s) == authority_rule(None, s),
{
    reveal_strlit("://");
    reveal_strlit("<local>");
    reveal_strlit("<loopback>");
    let t = s + "://"@ + rest;
    assert(t[s.len() as int] == "://"@[0]);
    scheme_ends_at_the_first_mark(s, rest);
    assert(t != "<local>"@) by {
        if t == "<local>"@ {
            assert("<local>"@[s.len() as int] == ':');
        }
    }
    assert(t != "<loopback>"@) by {
        if t == "<loopback>"@ {
            assert("<loopback>"@[s.len() as int] == ':');
        }
    }
    if scheme_ok(s) {
        assert forall|i: int| 0 <= i < s.len() implies scheme_letter(#[trigger] s[i]) by {
            assert(scheme_char(s[i]));
        }
    }
    if forall|i: int| 0 <= i < s.len() ==> scheme_letter(#[trigger] s[i]) {
        assert forall|i: int| 0 <= i < s.len() implies scheme_char(#[trigger] s[i]) by {
            assert(scheme_letter(s[i]));
        }
    }
}

/// `<local>` and `<loopback>` write the rules of their names, and nothing else
/// writes these.
pub proof fn only_their_names_write_local_and_loopback(s: Seq<char>)
    ensures
        lowered_rule(s) matches Ok(rule) ==> {
            &&& rule.kind is Local <==> s == "<local>"@
            &&& rule.kind is Loopback <==> s == "<loopback>"@
            &&& rule.kind is Local || rule.kind is Loopback ==> rule.port is None && rule.scheme
                is None
        },
        s == "<local>"@ || s == "<loopback>"@ ==> lowered_rule(s) is Ok,
{
    reveal(authority_rule);
    reveal_strlit("<local>");
    reveal_strlit("<loopback>");
    assert("<local>"@.len() != "<loopback>"@.len());
}

// ---------------------------------------------------------------- whole texts

/// What stands between slashes is a regular expression as it is typed, or is
/// refused as none.
pub proof fn slashes_make_a_regex(a: Seq<char>, body: Seq<char>, b: Seq<char>)
    requires
        blank(a),
        blank(b),
    ensures
        parsed(a + (seq!['/'] + body + seq!['/']) + b) == (if body.len() > 0 && regex_compiles(
            body,
        ) && regex_compiles("(?i)^(?:"@ + body + ")$"@) {
            Ok(RuleModel { kind: KindModel::Regex(body), port: None, scheme: None })
        } else {
            Err(BypassRuleError::InvalidRegex)
        }),
{
    let t = seq!['/'] + body + seq!['/'];
    assert(t[0] == '/' && t.last() == '/');
    trimming_takes_all_white_space_around(a, t, b);
    assert(t.subrange(1, t.len() - 1) =~= body);
}

/// White space alone, and a comment, write no rule.
pub proof fn blanks_and_comments_write_nothing(a: Seq<char>, t: Seq<char>, b: Seq<char>)
    requires
        blank(a),
        blank(b),
        t.len() > 0 ==> t[0] == '#' && !white_space(t.last()),
    ensures
        parsed(a + t + b) == Err::<RuleModel, _>(BypassRuleError::Empty),
{
    trimming_takes_all_white_space_around(a, t, b);
}

/// Any other text is read in lowercase, without the white space around it.
pub proof fn other_texts_are_read_in_lowercase(
    a: Seq<char>,
    t: Seq<char>,
    low: Seq<char>,
    b: Seq<char>,
)
    requires
        blank(a),
        blank(b),
        t.len() > 0,
        !white_space(t[0]),
        !white_space(t.last()),
        t[0] != '#',
        !(t.len() >= 2 && t[0] == '/' && t.last() == '/'),
        in_lowercase(t, low),
    ensures
        parsed(a + t + b) == lowered_rule(low),
{
    trimming_takes_all_white_space_around(a, t, b);
    if is_ascii_chars(t) {
        lemma_lowered_to(t, low);
    }
}

} // verus!
