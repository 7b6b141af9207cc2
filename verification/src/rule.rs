//! Rules: their shapes, their canonical form, and which requests they cover.

use crate::address::{
    address, address_text, cidr_contains, in_range, loopback, normal, opt_address, sized, width,
    Address, IpAddr,
};
use crate::domain::opt_text;
use crate::error::BypassRuleError;
use crate::glob::{glob, glob_match};
use crate::host::{
    base_domain, bracketed, domain_ok, ends_host, has_regex_meta, has_wildcard, host_port,
    split_host_port, wrapped,
};
use crate::number::{numeral, write_number};
use crate::pattern::{anchored, anchors, is_match, regex_finds, regex_pattern};
use crate::text::{chars_of, ends_with, eq_ignore_ascii_case, has_char, same};
use crate::unicode::{
    ascii_alphanumeric, is_white_space, no_ascii_upper, same_ignoring_ascii_case, white_space,
};
use regex_lite::Regex;
use vstd::prelude::*;
use vstd::utf8::is_ascii_chars;

verus! {

/// What a rule covers.
#[derive(Debug)]
pub enum RuleKind {
    /// Hosts with no dot (plus loopback) — the intranet shorthand.
    Local,
    /// Loopback addresses and `localhost`.
    Loopback,
    /// One exact address.
    Ip(IpAddr),
    /// An address range.
    Cidr { network: IpAddr, prefix: u8 },
    /// A domain and all of its subdomains.
    Domain(String),
    /// Subdomains of a domain, but not the domain itself.
    Subdomains(String),
    /// A `*`/`?` glob over the whole host.
    Wildcard(String),
    /// A user-supplied regex, anchored and case-insensitive.
    Regex { source: String, compiled: Regex },
}

/// What a rule covers, with texts as their characters.
#[verifier::ext_equal]
pub enum KindModel {
    Local,
    Loopback,
    Ip(Address),
    Cidr { network: Address, prefix: u8 },
    Domain(Seq<char>),
    Subdomains(Seq<char>),
    Wildcard(Seq<char>),
    Regex(Seq<char>),
}

/// A rule: what it covers, and the port and scheme it is narrowed to.
#[verifier::ext_equal]
pub struct RuleModel {
    pub kind: KindModel,
    pub port: Option<u16>,
    pub scheme: Option<Seq<char>>,
}

impl View for RuleKind {
    type V = KindModel;

    open spec fn view(&self) -> KindModel {
        match self {
            RuleKind::Local => KindModel::Local,
            RuleKind::Loopback => KindModel::Loopback,
            RuleKind::Ip(ip) => KindModel::Ip(ip@),
            RuleKind::Cidr { network, prefix } => KindModel::Cidr {
                network: network@,
                prefix: *prefix,
            },
            RuleKind::Domain(d) => KindModel::Domain(d@),
            RuleKind::Subdomains(d) => KindModel::Subdomains(d@),
            RuleKind::Wildcard(p) => KindModel::Wildcard(p@),
            RuleKind::Regex { source, .. } => KindModel::Regex(source@),
        }
    }
}

impl RuleKind {
    /// A compiled expression is that of its source.
    pub open spec fn faithful(self) -> bool {
        self matches RuleKind::Regex { source, compiled } ==> regex_pattern(compiled) == anchored(
            source@,
        )
    }
}

// ---------------------------------------------------------------- validity

/// A character that a scheme may hold.
pub open spec fn scheme_char(c: char) -> bool {
    ascii_alphanumeric(c) || c == '+' || c == '-' || c == '.'
}

/// A text that may be a scheme.
pub open spec fn scheme_ok(s: Seq<char>) -> bool {
    s.len() > 0 && forall|i: int| 0 <= i < s.len() ==> scheme_char(#[trigger] s[i])
}

/// A domain as a rule stores it: in ASCII, in lowercase, and not empty.
pub open spec fn stored_domain(d: Seq<char>) -> bool {
    d.len() > 0 && is_ascii_chars(d) && no_ascii_upper(d) && domain_ok(d)
}

/// What holds of the kind of every rule; `is_url` says whether the rule has a
/// scheme.
pub open spec fn valid_kind(kind: KindModel, is_url: bool) -> bool {
    match kind {
        KindModel::Local | KindModel::Loopback => !is_url,
        KindModel::Ip(a) => sized(a) && normal(a) == a,
        KindModel::Cidr { network, prefix } => sized(network) && normal(network) == network
            && prefix <= width(network),
        KindModel::Domain(d) | KindModel::Subdomains(d) => stored_domain(d),
        KindModel::Wildcard(p) => {
            &&& has_wildcard(p)
            &&& !has_regex_meta(p)
            &&& address(p) is None
            &&& base_domain(p) is None
            &&& no_ascii_upper(p)
            &&& forall|i: int| 0 <= i < p.len() ==> !ends_host(#[trigger] p[i], is_url)
        },
        KindModel::Regex(source) => source.len() > 0 && anchors(source),
    }
}

/// What holds of a regular expression that is narrowed to a port or a scheme: it
/// was written as a host.
pub open spec fn valid_narrowed(source: Seq<char>, port: Option<u16>, is_url: bool) -> bool {
    &&& has_regex_meta(source)
    &&& address(source) is None
    &&& no_ascii_upper(source)
    &&& forall|i: int| 0 <= i < source.len() ==> !ends_host(#[trigger] source[i], is_url)
    &&& splits_bare(source, port) || !source.contains(']')
}

/// A rule that is narrowed to a port or a scheme.
pub open spec fn narrowed(rule: RuleModel) -> bool {
    rule.port is Some || rule.scheme is Some
}

/// What holds of every rule.
pub open spec fn valid_rule(rule: RuleModel) -> bool {
    &&& valid_kind(rule.kind, rule.scheme is Some)
    &&& rule.kind matches KindModel::Regex(source) ==> narrowed(rule) ==> valid_narrowed(
        source,
        rule.port,
        rule.scheme is Some,
    )
    &&& rule.port != Some(0u16)
    &&& rule.scheme matches Some(s) ==> scheme_ok(s) && no_ascii_upper(s)
    &&& rule.kind is Local || rule.kind is Loopback || rule.kind is Cidr ==> rule.port is None
}

/// A rule: what it covers, and the port and scheme it is narrowed to.
#[derive(Debug)]
pub struct BypassRule {
    kind: RuleKind,
    port: Option<u16>,
    scheme: Option<String>,
}

impl View for BypassRule {
    type V = RuleModel;

    closed spec fn view(&self) -> RuleModel {
        RuleModel {
            kind: self.kind@,
            port: self.port,
            scheme: opt_text(self.scheme),
        }
    }
}

impl BypassRule {
    #[verifier::type_invariant]
    spec fn well_formed(self) -> bool {
        self.kind.faithful() && valid_rule(self@)
    }
}

impl BypassRule {
    /// Puts a rule together.
    pub(crate) fn assemble(kind: RuleKind, port: Option<u16>, scheme: Option<String>) -> (r: Self)
        requires
            kind.faithful(),
            valid_rule((RuleModel { kind: kind@, port, scheme: opt_text(scheme) })),
        ensures
            r@ == (RuleModel { kind: kind@, port, scheme: opt_text(scheme) }),
    {
        BypassRule { kind, port, scheme }
    }
}

// ---------------------------------------------------------------- names

/// The name of each shape.
pub open spec fn shape_name(kind: KindModel) -> Seq<char> {
    match kind {
        KindModel::Local => "local"@,
        KindModel::Loopback => "loopback"@,
        KindModel::Ip(_) => "ip"@,
        KindModel::Cidr { .. } => "cidr"@,
        KindModel::Domain(_) => "domain"@,
        KindModel::Subdomains(_) => "subdomains"@,
        KindModel::Wildcard(_) => "wildcard"@,
        KindModel::Regex(_) => "regex"@,
    }
}

impl RuleKind {
    /// The name of the shape.
    pub fn name(&self) -> (name: &'static str)
        ensures
            name@ == shape_name(self@),
    {
        match self {
            RuleKind::Local => "local",
            RuleKind::Loopback => "loopback",
            RuleKind::Ip(_) => "ip",
            RuleKind::Cidr { .. } => "cidr",
            RuleKind::Domain(_) => "domain",
            RuleKind::Subdomains(_) => "subdomains",
            RuleKind::Wildcard(_) => "wildcard",
            RuleKind::Regex { .. } => "regex",
        }
    }
}

// ---------------------------------------------------------------- writing

/// A host and a port come apart again where they are written one after the
/// other.
pub open spec fn splits_bare(host: Seq<char>, port: Option<u16>) -> bool {
    host_port(host + port_text(port)) == Ok::<_, BypassRuleError>((host, port))
}

/// A host that is not read as itself where it is written bare: the port would
/// be split off otherwise, or white space at its start would be trimmed.
pub open spec fn needs_brackets(host: Seq<char>, port: Option<u16>, is_url: bool) -> bool {
    !splits_bare(host, port) || (!is_url && host.len() > 0 && white_space(host[0]))
}

/// A host as it is written before a port, so that it is read as itself. White
/// space at its end is kept from being trimmed by a slash, as if a path
/// followed.
pub open spec fn host_text(host: Seq<char>, port: Option<u16>, is_url: bool) -> Seq<char> {
    if needs_brackets(host, port, is_url) {
        wrapped(host, true)
    } else if port is None && host.len() > 0 && white_space(host.last()) {
        host.push('/')
    } else {
        host
    }
}

/// What a rule covers, in canonical form, as it is written before a port;
/// `is_url` says whether it is written behind a scheme. A regular expression
/// stands between slashes, unless a port or a scheme narrows it.
pub open spec fn kind_text(kind: KindModel, port: Option<u16>, is_url: bool) -> Seq<char> {
    match kind {
        KindModel::Local => "<local>"@,
        KindModel::Loopback => "<loopback>"@,
        KindModel::Ip(a) => wrapped(address_text(a), port is Some && a is V6),
        KindModel::Cidr { network, prefix } => address_text(network) + seq!['/'] + numeral(
            prefix as int,
            10,
        ),
        KindModel::Domain(d) => d,
        KindModel::Subdomains(d) => "*."@ + d,
        KindModel::Wildcard(p) => host_text(p, port, is_url),
        KindModel::Regex(source) => if port is Some || is_url {
            host_text(source, port, is_url)
        } else {
            seq!['/'] + source + seq!['/']
        },
    }
}

/// The scheme of a rule and what divides it from the host.
pub open spec fn scheme_text(scheme: Option<Seq<char>>) -> Seq<char> {
    match scheme {
        Some(s) => s + "://"@,
        None => Seq::empty(),
    }
}

/// The port of a rule and what divides it from the host.
pub open spec fn port_text(port: Option<u16>) -> Seq<char> {
    match port {
        Some(p) => seq![':'] + numeral(p as int, 10),
        None => Seq::empty(),
    }
}

/// A rule in canonical form.
pub open spec fn canonical_text(rule: RuleModel) -> Seq<char> {
    scheme_text(rule.scheme) + kind_text(rule.kind, rule.port, rule.scheme is Some) + port_text(
        rule.port,
    )
}

/// Writes the port of a rule and what divides it from the host.
fn write_port(port: Option<u16>) -> (r: String)
    ensures
        r@ == port_text(port),
{
    let mut r = String::new();
    if let Some(p) = port {
        r.push(':');
        r.append(write_number(p as u32, 10).as_str());
    }
    assert(r@ =~= port_text(port));
    r
}

/// Whether a host and a port come apart again where they are written one after
/// the other.
fn is_split_bare(host: &str, port: Option<u16>) -> (r: bool)
    ensures
        r == splits_bare(host@, port),
{
    let mut bare = host.to_owned();
    bare.append(write_port(port).as_str());
    match split_host_port(bare.as_str()) {
        Ok((name, found)) => {
            let same_port = match (found, port) {
                (Some(a), Some(b)) => a == b,
                (None, None) => true,
                _ => false,
            };
            same_port && same(name.as_str(), host)
        },
        Err(_) => false,
    }
}

/// Writes a host so that it is read as itself.
pub fn write_host(host: &str, port: Option<u16>, is_url: bool) -> (r: String)
    ensures
        r@ == host_text(host@, port, is_url),
{
    let v = chars_of(host);
    let n: usize = v.len();
    if !is_split_bare(host, port) || (!is_url && n > 0 && is_white_space(v[0])) {
        return bracketed(host, true);
    }
    let mut r = host.to_owned();
    if port.is_none() && n > 0 && is_white_space(v[n - 1]) {
        r.push('/');
    }
    r
}

impl RuleKind {
    /// What the rule covers, in canonical form, as it is written before a port.
    pub fn text(&self, port: Option<u16>, is_url: bool) -> (r: String)
        ensures
            r@ == kind_text(self@, port, is_url),
    {
        match self {
            RuleKind::Local => "<local>".to_owned(),
            RuleKind::Loopback => "<loopback>".to_owned(),
            RuleKind::Ip(ip) => bracketed(ip.text().as_str(), port.is_some() && ip.is_ipv6()),
            RuleKind::Cidr { network, prefix } => {
                let mut r = network.text();
                r.push('/');
                r.append(write_number(*prefix as u32, 10).as_str());
                assert(r@ =~= kind_text(self@, port, is_url));
                r
            },
            RuleKind::Domain(d) => d.clone(),
            RuleKind::Subdomains(d) => {
                let mut r = "*.".to_owned();
                r.append(d.as_str());
                r
            },
            RuleKind::Wildcard(p) => write_host(p.as_str(), port, is_url),
            RuleKind::Regex { source, .. } => {
                if port.is_some() || is_url {
                    return write_host(source.as_str(), port, is_url);
                }
                let mut r = String::new();
                r.push('/');
                r.append(source.as_str());
                r.push('/');
                assert(r@ =~= kind_text(self@, port, is_url));
                r
            },
        }
    }
}

impl BypassRule {
    /// Stable identifier for the rule's shape, used by the UI to label it.
    pub fn kind_name(&self) -> (name: &'static str)
        ensures
            name@ == shape_name(self@.kind),
    {
        self.kind.name()
    }

    /// The rule rewritten in canonical form: lowercased, pasted URL paths
    /// dropped, `.example.com` normalized to `*.example.com`. This is what gets
    /// stored, so two spellings of the same rule dedupe against each other.
    pub fn canonical(&self) -> (r: String)
        ensures
            r@ == canonical_text(self@),
    {
        let host = self.kind.text(self.port, self.scheme.is_some());
        let mut out = String::new();
        if let Some(scheme) = &self.scheme {
            out.append(scheme.as_str());
            out.append("://");
        }
        assert(out@ =~= scheme_text(self@.scheme));
        out.append(host.as_str());
        out.append(write_port(self.port).as_str());
        assert(out@ =~= canonical_text(self@));
        out
    }
}

// ---------------------------------------------------------------- matching

/// A rule narrowed to a port or a scheme fires only where that port or scheme
/// is known; unknown means "not this rule".
pub open spec fn narrowing_admits(
    rule: RuleModel,
    port: Option<u16>,
    scheme: Option<Seq<char>>,
) -> bool {
    &&& rule.port matches Some(want) ==> port == Some(want)
    &&& rule.scheme matches Some(want) ==> (scheme matches Some(got) && same_ignoring_ascii_case(
        got,
        want,
    ))
}

/// A host below a domain.
pub open spec fn below(host: Seq<char>, domain: Seq<char>) -> bool {
    (seq!['.'] + domain).is_suffix_of(host)
}

/// A loopback address, `localhost`, or a host below `localhost`.
pub open spec fn names_loopback(host: Seq<char>, ip: Option<Address>) -> bool {
    ||| ip matches Some(a) && loopback(a)
    ||| host == "localhost"@
    ||| below(host, "localhost"@)
}

/// A host that a kind of rule covers. `ip` is the address that the host
/// writes, if it writes one.
pub open spec fn kind_covers(kind: KindModel, host: Seq<char>, ip: Option<Address>) -> bool {
    match kind {
        KindModel::Local => names_loopback(host, ip) || (ip is None && !host.contains('.')),
        KindModel::Loopback => names_loopback(host, ip),
        KindModel::Ip(want) => ip == Some(want),
        KindModel::Cidr { network, prefix } => ip matches Some(a) && in_range(
            network,
            prefix as int,
            a,
        ),
        KindModel::Domain(d) => host == d || below(host, d),
        KindModel::Subdomains(d) => below(host, d),
        KindModel::Wildcard(p) => glob(p, host),
        KindModel::Regex(source) => regex_finds(anchored(source), host),
    }
}

/// A request that a rule covers.
pub open spec fn rule_covers(
    rule: RuleModel,
    host: Seq<char>,
    ip: Option<Address>,
    port: Option<u16>,
    scheme: Option<Seq<char>>,
) -> bool {
    narrowing_admits(rule, port, scheme) && kind_covers(rule.kind, host, ip)
}

/// The characters of a borrowed text that may be missing.
pub open spec fn opt_str(s: Option<&str>) -> Option<Seq<char>> {
    match s {
        Some(t) => Some(t@),
        None => None,
    }
}

/// Whether a host lies below a domain.
pub fn is_below(host: &str, domain: &str) -> (r: bool)
    ensures
        r == below(host@, domain@),
{
    let mut suffix = String::new();
    suffix.push('.');
    suffix.append(domain);
    assert(suffix@ =~= seq!['.'] + domain@);
    ends_with(host, suffix.as_str())
}

/// Whether a host is a loopback address or `localhost`.
pub fn is_loopback(host: &str, ip: Option<IpAddr>) -> (r: bool)
    ensures
        r == names_loopback(host@, opt_address(ip)),
{
    if let Some(a) = ip {
        if a.is_loopback() {
            return true;
        }
    }
    same(host, "localhost") || is_below(host, "localhost")
}

impl BypassRule {
    /// Whether the port and scheme that the rule is narrowed to are those of
    /// the request.
    pub fn admits(&self, port: Option<u16>, scheme: Option<&str>) -> (r: bool)
        ensures
            r == narrowing_admits(self@, port, opt_str(scheme)),
    {
        if let Some(want) = self.port {
            match port {
                Some(got) => if got != want {
                    return false;
                },
                None => {
                    return false;
                },
            }
        }
        if let Some(want) = &self.scheme {
            match scheme {
                Some(got) => if !eq_ignore_ascii_case(got, want.as_str()) {
                    return false;
                },
                None => {
                    return false;
                },
            }
        }
        true
    }

    /// Whether the rule covers a request. `host` is normalized; `ip` is the
    /// same host pre-parsed, so a long rule list doesn't re-parse it per rule.
    pub fn matches(
        &self,
        host: &str,
        ip: Option<IpAddr>,
        port: Option<u16>,
        scheme: Option<&str>,
    ) -> (r: bool)
        ensures
            r == rule_covers(self@, host@, opt_address(ip), port, opt_str(scheme)),
    {
        proof {
            use_type_invariant(self);
        }
        // A narrowed rule only fires when we actually know the port/scheme.
        // Unknown means "not this rule": staying on the proxy is the safe answer.
        if !self.admits(port, scheme) {
            return false;
        }
        match &self.kind {
            RuleKind::Local => is_loopback(host, ip) || (ip.is_none() && !has_char(host, '.')),
            RuleKind::Loopback => is_loopback(host, ip),
            RuleKind::Ip(want) => match ip {
                Some(a) => a.same(want),
                None => false,
            },
            RuleKind::Cidr { network, prefix } => match ip {
                Some(a) => cidr_contains(*network, *prefix, a),
                None => false,
            },
            RuleKind::Domain(d) => same(host, d.as_str()) || is_below(host, d.as_str()),
            RuleKind::Subdomains(d) => is_below(host, d.as_str()),
            RuleKind::Wildcard(p) => glob_match(p.as_str(), host),
            RuleKind::Regex { source: _, compiled } => is_match(compiled, host),
        }
    }
}

} // verus!
