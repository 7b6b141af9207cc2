//! Reading a text as a rule.

use crate::address::{
    address, lemma_address_sized, normal, normal_bits, normalize_ip, normalize_range, parse_ip,
    width,
};
use crate::domain::{check_domain, named_domain, opt_text, to_ascii_domain};
use crate::error::BypassRuleError;
use crate::host::{
    base_domain, contains_regex_meta, contains_wildcard, cut_host, ends_host, has_regex_meta,
    has_wildcard, host_part, host_port, lemma_host_end, lemma_port_number, split_host_port,
    subdomain_base,
};
use crate::number::{is_unsigned_text, read_unsigned, unsigned, unsigned_text};
use crate::pattern::{anchors, compile_anchored};
use crate::reread::lemma_host_port_plain;
use crate::rule::{
    port_text, scheme_char, scheme_ok, splits_bare, valid_kind, valid_rule, BypassRule, KindModel,
    RuleKind, RuleModel,
};
use crate::text::{
    chars_of, find, find_char, find_pattern, find_text, lemma_find_from, lemma_find_text_from,
    lemma_rfind_before, part, rfind, same, trim, trimmed,
};
use crate::unicode::{ascii_upper, is_ascii_alphanumeric, lowercased, no_ascii_upper, to_lowercase};
use regex_lite::Regex;
use vstd::prelude::*;

verus! {

// ---------------------------------------------------------------- what a text means

/// A rule that is narrowed to nothing.
pub open spec fn unnarrowed(kind: KindModel) -> RuleModel {
    RuleModel { kind, port: None, scheme: None }
}

/// The rule of a regular expression.
pub open spec fn regex_kind(body: Seq<char>) -> Result<KindModel, BypassRuleError> {
    if body.len() > 0 && anchors(body) {
        Ok(KindModel::Regex(body))
    } else {
        Err(BypassRuleError::InvalidRegex)
    }
}

/// A text between two slashes.
pub open spec fn slashed(s: Seq<char>) -> bool {
    s.len() >= 2 && s[0] == '/' && s.last() == '/'
}

/// A text split at its first `://`.
pub open spec fn split_scheme(s: Seq<char>) -> Option<(Seq<char>, Seq<char>)> {
    let i = find_text(s, "://"@);
    if i == s.len() {
        None
    } else {
        Some((s.take(i), s.skip(i + 3)))
    }
}

/// An address before the first slash and a number behind it make a range: the
/// number says how many bits are fixed.
pub open spec fn range_kind(s: Seq<char>) -> Option<Result<KindModel, BypassRuleError>> {
    let i = find(s, '/');
    if i == s.len() {
        None
    } else {
        match address(s.take(i)) {
            Some(a) if unsigned_text(s.skip(i + 1)) => match unsigned(s.skip(i + 1), 255) {
                Some(prefix) if prefix <= width(a) => Some(
                    Ok(
                        KindModel::Cidr {
                            network: normal(a),
                            prefix: normal_bits(a, prefix) as u8,
                        },
                    ),
                ),
                _ => Some(Err(BypassRuleError::InvalidCidr)),
            },
            _ => None,
        }
    }
}

/// What a host in a rule stands for: an address, a regular expression, the
/// subdomains of a domain, a glob, or a domain.
pub open spec fn host_kind(host: Seq<char>) -> Result<KindModel, BypassRuleError> {
    if let Some(a) = address(host) {
        Ok(KindModel::Ip(normal(a)))
    } else if has_regex_meta(host) {
        regex_kind(host)
    } else if let Some(base) = base_domain(host) {
        match named_domain(base) {
            Ok(d) => Ok(KindModel::Subdomains(d)),
            Err(e) => Err(e),
        }
    } else if has_wildcard(host) {
        Ok(KindModel::Wildcard(host))
    } else {
        match named_domain(host) {
            Ok(d) => Ok(KindModel::Domain(d)),
            Err(e) => Err(e),
        }
    }
}

/// The rule of a host and an optional port.
pub open spec fn host_rule(scheme: Option<Seq<char>>, s: Seq<char>) -> Result<
    RuleModel,
    BypassRuleError,
> {
    if s.len() == 0 {
        Err(BypassRuleError::InvalidHost)
    } else {
        match host_port(s) {
            Err(e) => Err(e),
            Ok((host, port)) => if host.len() == 0 {
                Err(BypassRuleError::InvalidHost)
            } else {
                match host_kind(host) {
                    Ok(kind) => Ok(RuleModel { kind, port, scheme }),
                    Err(e) => Err(e),
                }
            },
        }
    }
}

/// The rule of what follows a scheme, or of a whole text without one. A slash
/// that makes no range begins a pasted URL path, which is dropped.
#[verifier::opaque]
pub open spec fn authority_rule(scheme: Option<Seq<char>>, s: Seq<char>) -> Result<
    RuleModel,
    BypassRuleError,
> {
    if s.len() == 0 {
        Err(BypassRuleError::InvalidHost)
    } else {
        match range_kind(s) {
            Some(Ok(kind)) => Ok(RuleModel { kind, port: None, scheme }),
            Some(Err(e)) => Err(e),
            None => host_rule(scheme, host_part(s, scheme is Some)),
        }
    }
}

/// The rule of a text in lowercase.
pub open spec fn lowered_rule(s: Seq<char>) -> Result<RuleModel, BypassRuleError> {
    if s == "<local>"@ {
        Ok(unnarrowed(KindModel::Local))
    } else if s == "<loopback>"@ {
        Ok(unnarrowed(KindModel::Loopback))
    } else {
        match split_scheme(s) {
            Some((scheme, rest)) => if scheme_ok(scheme) {
                authority_rule(Some(scheme), rest)
            } else {
                Err(BypassRuleError::InvalidScheme)
            },
            None => authority_rule(None, s),
        }
    }
}

/// The rule that a text writes, or why it writes none.
pub open spec fn parsed(raw: Seq<char>) -> Result<RuleModel, BypassRuleError> {
    let s = trimmed(raw);
    if s.len() == 0 || s[0] == '#' {
        Err(BypassRuleError::Empty)
    } else if slashed(s) {
        match regex_kind(s.subrange(1, s.len() - 1)) {
            Ok(kind) => Ok(unnarrowed(kind)),
            Err(e) => Err(e),
        }
    } else {
        lowered_rule(lowercased(s))
    }
}

/// A rule or a reason, with the rule as its model.
pub open spec fn rule_result(r: Result<BypassRule, BypassRuleError>) -> Result<
    RuleModel,
    BypassRuleError,
> {
    match r {
        Ok(rule) => Ok(rule@),
        Err(e) => Err(e),
    }
}

/// A kind or a reason, with the kind as its model.
pub open spec fn kind_result(r: Result<RuleKind, BypassRuleError>) -> Result<
    KindModel,
    BypassRuleError,
> {
    match r {
        Ok(kind) => Ok(kind@),
        Err(e) => Err(e),
    }
}

// ---------------------------------------------------------------- reading

/// The kind of rule that a compiled expression makes; none where it did not
/// compile.
pub fn regex_rule_kind(body: &str, compiled: Result<Regex, regex_lite::Error>) -> (r: Result<
    RuleKind,
    BypassRuleError,
>)
    ensures
        match (compiled, r) {
            (Ok(regex), Ok(kind)) => kind matches RuleKind::Regex { source, compiled: c } && source@
                == body@ && c == regex,
            (Err(_), Err(e)) => e == BypassRuleError::InvalidRegex,
            _ => false,
        },
{
    match compiled {
        Ok(compiled) => Ok(RuleKind::Regex { source: body.to_owned(), compiled }),
        Err(_) => Err(BypassRuleError::InvalidRegex),
    }
}

/// Compiles the body of a regular expression.
pub fn compile_regex(body: &str) -> (r: Result<RuleKind, BypassRuleError>)
    ensures
        kind_result(r) == regex_kind(body@),
        r matches Ok(kind) ==> kind.faithful(),
{
    if body.is_empty() {
        return Err(BypassRuleError::InvalidRegex);
    }
    regex_rule_kind(body, compile_anchored(body))
}

/// A rule that is narrowed to nothing.
fn plain(kind: RuleKind) -> (r: BypassRule)
    requires
        kind.faithful(),
        valid_kind(kind@, false),
    ensures
        r@ == unnarrowed(kind@),
{
    BypassRule::assemble(kind, None, None)
}

/// Whether a text may be a scheme.
fn is_scheme(s: &str) -> (r: bool)
    ensures
        r == scheme_ok(s@),
{
    let v = chars_of(s);
    if v.len() == 0 {
        return false;
    }
    let mut i: usize = 0;
    while i < v.len()
        invariant
            i <= v.len(),
            v@ == s@,
            forall|j: int| 0 <= j < i ==> scheme_char(#[trigger] s@[j]),
        decreases v.len() - i,
    {
        let c = v[i];
        if !(is_ascii_alphanumeric(c) || c == '+' || c == '-' || c == '.') {
            assert(!scheme_char(s@[i as int]));
            return false;
        }
        i += 1;
    }
    true
}

/// Splits a text at its first `://`.
pub fn split_at_scheme<'a>(s: &'a str) -> (r: Option<(&'a str, &'a str)>)
    ensures
        match r {
            Some((scheme, rest)) => split_scheme(s@) == Some((scheme@, rest@)),
            None => split_scheme(s@) is None,
        },
{
    let v = chars_of(s);
    let i = find_pattern(&v, &chars_of("://"));
    proof {
        reveal_strlit("://");
        lemma_find_text_from(s@, "://"@, 0);
    }
    if i == v.len() {
        return None;
    }
    let scheme = part(s, 0, i);
    let rest = part(s, i + 3, v.len());
    assert(scheme@ =~= s@.take(i as int));
    assert(rest@ =~= s@.skip(i + 3));
    Some((scheme, rest))
}

/// Reads a text as an address range.
fn read_range(s: &str) -> (r: Option<Result<RuleKind, BypassRuleError>>)
    ensures
        match r {
            Some(k) => range_kind(s@) == Some(kind_result(k)),
            None => range_kind(s@) is None,
        },
        r matches Some(Ok(kind)) ==> kind.faithful() && valid_kind(kind@, true) && valid_kind(
            kind@,
            false,
        ) && kind@ is Cidr,
{
    let v = chars_of(s);
    let i = find_char(&v, '/');
    if i == v.len() {
        return None;
    }
    proof {
        lemma_find_from(s@, '/', 0);
        assert(s@.subrange(0, i as int) =~= s@.take(i as int));
        assert(s@.subrange(i + 1, s@.len() as int) =~= s@.skip(i + 1));
        lemma_address_sized(s@.take(i as int));
    }
    let tail = part(s, i + 1, v.len());
    if !is_unsigned_text(tail) {
        return None;
    }
    match parse_ip(part(s, 0, i)) {
        None => None,
        Some(network) => {
            let most: u32 = if network.is_ipv6() {
                128
            } else {
                32
            };
            match read_unsigned(tail, 255) {
                Some(prefix) => if prefix <= most {
                    let (network, prefix) = normalize_range(network, prefix as u8);
                    Some(Ok(RuleKind::Cidr { network, prefix }))
                } else {
                    Some(Err(BypassRuleError::InvalidCidr))
                },
                None => Some(Err(BypassRuleError::InvalidCidr)),
            }
        },
    }
}

/// Reads a host as what it stands for.
fn read_host(host: &str, is_url: bool) -> (r: Result<RuleKind, BypassRuleError>)
    requires
        host@.len() > 0,
        no_ascii_upper(host@),
        forall|i: int| 0 <= i < host@.len() ==> !ends_host(#[trigger] host@[i], is_url),
    ensures
        kind_result(r) == host_kind(host@),
        r matches Ok(kind) ==> kind.faithful() && valid_kind(kind@, is_url) && !(kind@ is Cidr)
            && !(kind@ is Local) && !(kind@ is Loopback),
{
    if let Some(ip) = parse_ip(host) {
        proof {
            lemma_address_sized(host@);
        }
        return Ok(RuleKind::Ip(normalize_ip(ip)));
    }
    if contains_regex_meta(host) {
        // A host with such a character can only be a regular expression; it is
        // anchored, so `.*\.local` does not also match `foo.local.attacker.net`.
        return compile_regex(host);
    }
    if let Some(base) = subdomain_base(host) {
        return match check_domain(to_ascii_domain(base)) {
            Ok(d) => Ok(RuleKind::Subdomains(d)),
            Err(e) => Err(e),
        };
    }
    if contains_wildcard(host) {
        return Ok(RuleKind::Wildcard(host.to_owned()));
    }
    match check_domain(to_ascii_domain(host)) {
        Ok(d) => Ok(RuleKind::Domain(d)),
        Err(e) => Err(e),
    }
}

/// The host of `host:port` is part of it.
pub proof fn lemma_host_within(s: Seq<char>)
    ensures
        host_port(s) matches Ok((host, _)) ==> forall|i: int|
            0 <= i < host.len() ==> s.contains(#[trigger] host[i]),
        host_port(s) matches Ok((_, port)) ==> port != Some(0u16),
{
    if s.len() > 0 && s[0] == '[' {
        let inner = s.skip(1);
        lemma_find_from(inner, ']', 0);
        let close = find(inner, ']');
        lemma_port_number(inner.skip(close + 1).skip(1));
        assert forall|i: int| 0 <= i < close implies s.contains(#[trigger] inner.take(close)[i]) by {
            assert(s[i + 1] == inner.take(close)[i]);
        }
    } else {
        let i = rfind(s, ':');
        lemma_rfind_before(s, ':', s.len() as int);
        lemma_port_number(s.skip(i + 1));
        assert forall|j: int| 0 <= j < s.len() implies s.contains(#[trigger] s[j]) by {}
        if i >= 0 {
            assert forall|j: int| 0 <= j < i implies s.contains(#[trigger] s.take(i)[j]) by {
                assert(s[j] == s.take(i)[j]);
            }
        }
    }
}

/// A host that was split off can be written so that it is split off again: bare,
/// or in brackets.
pub proof fn lemma_host_splits(s: Seq<char>)
    ensures
        host_port(s) matches Ok((host, port)) ==> host.len() > 0 ==> splits_bare(host, port)
            || !host.contains(']'),
        host_port(s) matches Ok((host, _)) ==> host.len() > 0 ==> !host.contains(']') || host[0]
            == s[0],
{
    if host_port(s) is Ok {
        let (host, port) = host_port(s)->Ok_0;
        lemma_host_within(s);
        if s.len() > 0 && s[0] == '[' {
            lemma_find_from(s.skip(1), ']', 0);
        } else {
            lemma_rfind_before(s, ':', s.len() as int);
            if host.len() > 0 {
                if port is Some {
                    lemma_host_port_plain(host, port);
                } else {
                    assert(s + port_text(None) =~= s);
                }
            }
        }
    }
}

/// Reads a host and an optional port as a rule.
fn read_host_rule(scheme: Option<String>, s: &str) -> (r: Result<BypassRule, BypassRuleError>)
    requires
        no_ascii_upper(s@),
        forall|i: int| 0 <= i < s@.len() ==> !ends_host(#[trigger] s@[i], scheme is Some),
        scheme matches Some(t) ==> scheme_ok(t@) && no_ascii_upper(t@),
    ensures
        rule_result(r) == host_rule(opt_text(scheme), s@),
        r matches Ok(rule) ==> valid_rule(rule@),
{
    if s.is_empty() {
        return Err(BypassRuleError::InvalidHost);
    }
    let (host, port) = match split_host_port(s) {
        Ok((host, port)) => (host, port),
        Err(e) => {
            return Err(e);
        },
    };
    if host.as_str().is_empty() {
        return Err(BypassRuleError::InvalidHost);
    }
    proof {
        lemma_host_within(s@);
        lemma_host_splits(s@);
        assert forall|i: int| 0 <= i < host@.len() implies !ends_host(
            #[trigger] host@[i],
            scheme is Some,
        ) && !ascii_upper(host@[i]) by {
            assert(s@.contains(host@[i]));
        }
    }
    match read_host(host.as_str(), scheme.is_some()) {
        Ok(kind) => Ok(BypassRule::assemble(kind, port, scheme)),
        Err(e) => Err(e),
    }
}

/// Reads what follows a scheme, or a whole text without one, as a rule.
fn read_authority(scheme: Option<String>, s: &str) -> (r: Result<BypassRule, BypassRuleError>)
    requires
        no_ascii_upper(s@),
        scheme matches Some(t) ==> scheme_ok(t@) && no_ascii_upper(t@),
    ensures
        rule_result(r) == authority_rule(opt_text(scheme), s@),
        r matches Ok(rule) ==> valid_rule(rule@),
{
    reveal(authority_rule);
    if s.is_empty() {
        return Err(BypassRuleError::InvalidHost);
    }
    // A range is the only meaning a `/` can have here; anything after a slash
    // that is no prefix length is a pasted URL path and is dropped.
    match read_range(s) {
        Some(Ok(kind)) => Ok(BypassRule::assemble(kind, None, scheme)),
        Some(Err(e)) => Err(e),
        None => {
            proof {
                lemma_host_end(s@, scheme is Some, 0);
            }
            let host = cut_host(s, scheme.is_some());
            read_host_rule(scheme, host)
        },
    }
}

/// Reads a text in lowercase as a rule.
pub fn parse_lowered(lowered: &str) -> (r: Result<BypassRule, BypassRuleError>)
    requires
        no_ascii_upper(lowered@),
    ensures
        rule_result(r) == lowered_rule(lowered@),
        r matches Ok(rule) ==> valid_rule(rule@),
{
    if same(lowered, "<local>") {
        return Ok(plain(RuleKind::Local));
    }
    if same(lowered, "<loopback>") {
        return Ok(plain(RuleKind::Loopback));
    }
    match split_at_scheme(lowered) {
        Some((scheme, rest)) => {
            proof {
                reveal_strlit("://");
                lemma_find_text_from(lowered@, "://"@, 0);
            }
            if !is_scheme(scheme) {
                return Err(BypassRuleError::InvalidScheme);
            }
            read_authority(Some(scheme.to_owned()), rest)
        },
        None => read_authority(None, lowered),
    }
}

/// Reads a text as a rule.
pub fn parse_rule(raw: &str) -> (r: Result<BypassRule, BypassRuleError>)
    ensures
        rule_result(r) == parsed(raw@),
        r matches Ok(rule) ==> valid_rule(rule@),
{
    let t = trim(raw);
    let v = chars_of(t);
    if v.len() == 0 || v[0] == '#' {
        return Err(BypassRuleError::Empty);
    }
    // The explicit regex form is kept as it is typed: lowercasing it would turn
    // a class such as `\D` into another.
    if v.len() >= 2 && v[0] == '/' && v[v.len() - 1] == '/' {
        return match compile_regex(part(t, 1, v.len() - 1)) {
            Ok(kind) => Ok(plain(kind)),
            Err(e) => Err(e),
        };
    }
    parse_lowered(to_lowercase(t).as_str())
}

} // verus!
