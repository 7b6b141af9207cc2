//! Host names: normalizing them, splitting off a port, and what a domain may
//! hold.

use crate::error::BypassRuleError;
use crate::number::{lemma_unsigned, read_unsigned, unsigned};
use crate::text::{
    chars_of, find, find_char, lemma_find_from, part, rfind, rfind_char, trim, trim_end_dots,
    trimmed, undotted,
};
use crate::unicode::{alphanumeric, is_alphanumeric, lowercased, to_lowercase};
use vstd::prelude::*;

verus! {

// ---------------------------------------------------------------- host and port

/// A port: a decimal number from 1 to 65535, which a plus sign may precede.
pub open spec fn port_number(s: Seq<char>) -> Result<u16, BypassRuleError> {
    match unsigned(s, 0xffff) {
        Some(n) if n != 0 => Ok(n as u16),
        _ => Err(BypassRuleError::InvalidPort),
    }
}

/// `host:port` split in two. Bare IPv6 literals (many colons, no brackets) are
/// left alone, and bracketed ones are unwrapped.
pub open spec fn host_port(s: Seq<char>) -> Result<(Seq<char>, Option<u16>), BypassRuleError> {
    if s.len() > 0 && s[0] == '[' {
        let inner = s.skip(1);
        let close = find(inner, ']');
        let tail = inner.skip(close + 1);
        if close == inner.len() {
            Err(BypassRuleError::InvalidHost)
        } else if tail.len() == 0 {
            Ok((inner.take(close), None))
        } else if tail[0] != ':' {
            Err(BypassRuleError::InvalidHost)
        } else {
            match port_number(tail.skip(1)) {
                Ok(port) => Ok((inner.take(close), Some(port))),
                Err(e) => Err(e),
            }
        }
    } else {
        let i = rfind(s, ':');
        if i >= 0 && !s.take(i).contains(':') {
            match port_number(s.skip(i + 1)) {
                Ok(port) => Ok((s.take(i), Some(port))),
                Err(e) => Err(e),
            }
        } else {
            Ok((s, None))
        }
    }
}

/// A host and port with the host as its characters.
pub open spec fn host_port_view(
    r: Result<(String, Option<u16>), BypassRuleError>,
) -> Result<(Seq<char>, Option<u16>), BypassRuleError> {
    match r {
        Ok((host, port)) => Ok((host@, port)),
        Err(e) => Err(e),
    }
}

pub proof fn lemma_port_number(s: Seq<char>)
    ensures
        port_number(s) matches Ok(port) ==> port != 0,
{
    lemma_unsigned(s, 0xffff);
}

fn read_port(s: &str) -> (r: Result<u16, BypassRuleError>)
    ensures
        r == port_number(s@),
{
    match read_unsigned(s, 0xffff) {
        Some(n) => if n != 0 {
            Ok(n as u16)
        } else {
            Err(BypassRuleError::InvalidPort)
        },
        None => Err(BypassRuleError::InvalidPort),
    }
}

/// Split `host:port`, leaving bare IPv6 literals (many colons, no brackets)
/// alone and unwrapping bracketed ones.
pub fn split_host_port(input: &str) -> (r: Result<(String, Option<u16>), BypassRuleError>)
    ensures
        host_port_view(r) == host_port(input@),
{
    let v = chars_of(input);
    if v.len() > 0 && v[0] == '[' {
        let inner = part(input, 1, v.len());
        assert(inner@ =~= input@.skip(1));
        let w = chars_of(inner);
        let close = find_char(&w, ']');
        if close == w.len() {
            return Err(BypassRuleError::InvalidHost);
        }
        let host = part(inner, 0, close);
        let tail = part(inner, close + 1, w.len());
        proof {
            assert(host@ =~= inner@.take(close as int));
            assert(tail@ =~= inner@.skip(close + 1));
        }
        let t = chars_of(tail);
        if t.len() == 0 {
            return Ok((host.to_owned(), None));
        }
        if t[0] != ':' {
            return Err(BypassRuleError::InvalidHost);
        }
        assert(tail@.subrange(1, tail@.len() as int) =~= tail@.skip(1));
        return match read_port(part(tail, 1, t.len())) {
            Ok(port) => Ok((host.to_owned(), Some(port))),
            Err(e) => Err(e),
        };
    }
    if let Some(i) = rfind_char(&v, ':') {
        let head = part(input, 0, i);
        assert(head@ =~= input@.take(i as int));
        let h = chars_of(head);
        let first = find_char(&h, ':');
        proof {
            lemma_find_from(head@, ':', 0);
        }
        if first == h.len() {
            assert(input@.subrange(i + 1, input@.len() as int) =~= input@.skip(i + 1));
            return match read_port(part(input, i + 1, v.len())) {
                Ok(port) => Ok((head.to_owned(), Some(port))),
                Err(e) => Err(e),
            };
        }
    }
    Ok((input.to_owned(), None))
}

// ---------------------------------------------------------------- normal form

/// A text without one pair of square brackets around it.
pub open spec fn unbracketed(s: Seq<char>) -> Seq<char> {
    if s.len() >= 2 && s[0] == '[' && s.last() == ']' {
        s.subrange(1, s.len() - 1)
    } else {
        s
    }
}

/// A host in lowercase, without brackets and without the dots at its end.
pub open spec fn normal_host(s: Seq<char>) -> Seq<char> {
    unbracketed(lowercased(undotted(trimmed(s))))
}

/// A text without one pair of square brackets around it.
pub fn unbracket(s: &str) -> (r: String)
    ensures
        r@ == unbracketed(s@),
{
    let v = chars_of(s);
    if v.len() >= 2 && v[0] == '[' && v[v.len() - 1] == ']' {
        part(s, 1, v.len() - 1).to_owned()
    } else {
        s.to_owned()
    }
}

/// Lowercase, unbracket, and drop the FQDN root dot so `Example.COM.` and
/// `example.com` are the same host.
pub fn normalize_host(host: &str) -> (r: String)
    ensures
        r@ == normal_host(host@),
{
    unbracket(to_lowercase(trim_end_dots(trim(host))).as_str())
}

/// A host, in square brackets where `wrap` holds.
pub open spec fn wrapped(host: Seq<char>, wrap: bool) -> Seq<char> {
    if wrap {
        seq!['['] + host + seq![']']
    } else {
        host
    }
}

/// A host, in square brackets where `wrap` holds.
pub fn bracketed(host: &str, wrap: bool) -> (r: String)
    ensures
        r@ == wrapped(host@, wrap),
{
    if wrap {
        let mut r = String::new();
        r.push('[');
        r.append(host);
        r.push(']');
        assert(r@ =~= seq!['['] + host@ + seq![']']);
        r
    } else {
        host.to_owned()
    }
}

// ---------------------------------------------------------------- shape

/// The characters that stand in a regular expression but in no other rule.
pub open spec fn regex_only_meta(c: char) -> bool {
    c == '\\' || c == '^' || c == '$' || c == '[' || c == ']' || c == '(' || c == ')' || c == '+'
        || c == '|' || c == '{' || c == '}'
}

/// Whether a character stands in a regular expression but in no other rule.
pub fn is_regex_only_meta(c: char) -> (r: bool)
    ensures
        r == regex_only_meta(c),
{
    c == '\\' || c == '^' || c == '$' || c == '[' || c == ']' || c == '(' || c == ')' || c == '+'
        || c == '|' || c == '{' || c == '}'
}

/// A host that can only be a regular expression.
pub open spec fn has_regex_meta(s: Seq<char>) -> bool {
    exists|i: int| 0 <= i < s.len() && regex_only_meta(#[trigger] s[i])
}

/// Whether a host can only be a regular expression.
pub fn contains_regex_meta(s: &str) -> (r: bool)
    ensures
        r == has_regex_meta(s@),
{
    let v = chars_of(s);
    let mut i: usize = 0;
    while i < v.len()
        invariant
            i <= v.len(),
            v@ == s@,
            forall|j: int| 0 <= j < i ==> !regex_only_meta(#[trigger] s@[j]),
        decreases v.len() - i,
    {
        if is_regex_only_meta(v[i]) {
            assert(regex_only_meta(s@[i as int]));
            return true;
        }
        i += 1;
    }
    false
}

/// A host with a `*` or a `?` in it.
pub open spec fn has_wildcard(s: Seq<char>) -> bool {
    s.contains('*') || s.contains('?')
}

/// Whether a host has a `*` or a `?` in it.
pub fn contains_wildcard(s: &str) -> (r: bool)
    ensures
        r == has_wildcard(s@),
{
    let v = chars_of(s);
    let star = find_char(&v, '*');
    let mark = find_char(&v, '?');
    proof {
        lemma_find_from(s@, '*', 0);
        lemma_find_from(s@, '?', 0);
    }
    star < v.len() || mark < v.len()
}

/// What follows `*.` or `.` at the start of a host, where that is a plain
/// domain.
pub open spec fn base_domain(host: Seq<char>) -> Option<Seq<char>> {
    let rest = if host.len() >= 2 && host[0] == '*' && host[1] == '.' {
        Some(host.skip(2))
    } else if host.len() >= 1 && host[0] == '.' {
        Some(host.skip(1))
    } else {
        None
    };
    match rest {
        Some(base) if base.len() > 0 && !has_wildcard(base) => Some(base),
        _ => None,
    }
}

/// `*.example.com` and `.example.com` mean "subdomains of this domain" — but
/// only when a plain domain follows. `*.corp.*` is a general glob instead.
pub fn subdomain_base<'a>(host: &'a str) -> (r: Option<&'a str>)
    ensures
        match r {
            Some(base) => base_domain(host@) == Some(base@),
            None => base_domain(host@) is None,
        },
{
    let v = chars_of(host);
    let skip: usize = if v.len() >= 2 && v[0] == '*' && v[1] == '.' {
        2
    } else if v.len() >= 1 && v[0] == '.' {
        1
    } else {
        return None;
    };
    let base = part(host, skip, v.len());
    assert(base@ =~= host@.skip(skip as int));
    if skip == v.len() || contains_wildcard(base) {
        return None;
    }
    Some(base)
}

/// A character that a domain may hold.
pub open spec fn domain_char(c: char) -> bool {
    alphanumeric(c) || c == '-' || c == '.' || c == '_'
}

/// Two dots in a row.
pub open spec fn has_empty_label(s: Seq<char>) -> bool {
    exists|i: int| 0 <= i < s.len() - 1 && #[trigger] s[i] == '.' && s[i + 1] == '.'
}

/// A text that may name a domain.
pub open spec fn domain_ok(s: Seq<char>) -> bool {
    &&& s.len() > 0 ==> s[0] != '.' && s.last() != '.'
    &&& !has_empty_label(s)
    &&& forall|i: int| 0 <= i < s.len() ==> domain_char(#[trigger] s[i])
}

/// Refuses what cannot name a domain.
pub fn check_host(host: &str) -> (r: Result<(), BypassRuleError>)
    ensures
        r == (if domain_ok(host@) {
            Ok(())
        } else {
            Err::<(), BypassRuleError>(BypassRuleError::InvalidHost)
        }),
{
    let v = chars_of(host);
    if v.len() > 0 && (v[0] == '.' || v[v.len() - 1] == '.') {
        return Err(BypassRuleError::InvalidHost);
    }
    let mut i: usize = 0;
    while i < v.len()
        invariant
            i <= v.len(),
            v@ == host@,
            v.len() > 0 ==> v@[0] != '.' && v@.last() != '.',
            forall|j: int| 0 <= j < i ==> domain_char(#[trigger] host@[j]),
            forall|j: int|
                0 <= j < i && j < host@.len() - 1 ==> !(#[trigger] host@[j] == '.' && host@[j + 1]
                    == '.'),
        decreases v.len() - i,
    {
        let c = v[i];
        if c == '.' && i + 1 < v.len() && v[i + 1] == '.' {
            assert(host@[i as int] == '.' && host@[i + 1] == '.');
            assert(has_empty_label(host@));
            return Err(BypassRuleError::InvalidHost);
        }
        if !(is_alphanumeric(c) || c == '-' || c == '.' || c == '_') {
            assert(!domain_char(host@[i as int]));
            return Err(BypassRuleError::InvalidHost);
        }
        i += 1;
    }
    Ok(())
}

// ---------------------------------------------------------------- URLs

/// The characters that end the host of a URL. `?` does so only where a scheme
/// proves that this is a URL: bare, it is the single-character glob.
pub open spec fn ends_host(c: char, is_url: bool) -> bool {
    c == '/' || c == '#' || (is_url && c == '?')
}

/// The first position from `i` on at which the host of a URL ends, or the
/// length.
pub open spec fn host_end(s: Seq<char>, is_url: bool, i: int) -> int
    decreases s.len() - i,
{
    if i >= s.len() {
        s.len() as int
    } else if ends_host(s[i], is_url) {
        i
    } else {
        host_end(s, is_url, i + 1)
    }
}

/// A text up to where the host of a URL ends.
pub open spec fn host_part(s: Seq<char>, is_url: bool) -> Seq<char> {
    s.take(host_end(s, is_url, 0))
}

pub proof fn lemma_host_end(s: Seq<char>, is_url: bool, i: int)
    requires
        0 <= i <= s.len(),
    ensures
        i <= host_end(s, is_url, i) <= s.len(),
        host_end(s, is_url, i) < s.len() ==> ends_host(s[host_end(s, is_url, i)], is_url),
        forall|j: int| i <= j < host_end(s, is_url, i) ==> !ends_host(#[trigger] s[j], is_url),
    decreases s.len() - i,
{
    if i < s.len() && !ends_host(s[i], is_url) {
        lemma_host_end(s, is_url, i + 1);
    }
}

/// A text up to where the host of a URL ends.
pub fn cut_host<'a>(s: &'a str, is_url: bool) -> (r: &'a str)
    ensures
        r@ == host_part(s@, is_url),
{
    let v = chars_of(s);
    let mut i: usize = 0;
    while i < v.len()
        invariant
            i <= v.len(),
            v@ == s@,
            host_end(s@, is_url, 0) == host_end(s@, is_url, i as int),
        decreases v.len() - i,
    {
        let c = v[i];
        if c == '/' || c == '#' || (is_url && c == '?') {
            return part(s, 0, i);
        }
        i += 1;
    }
    part(s, 0, i)
}

} // verus!
