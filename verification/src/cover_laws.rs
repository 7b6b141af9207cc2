//! Laws of coverage: which hosts each kind of rule covers, and what a port and a
//! scheme add to that.

use crate::address::{
    address, in_range, lemma_address_sized, lemma_agree_octets, lemma_octet_prefix, normal,
    octet_bit, octets, sized, Address,
};
use crate::address_laws::{address_char, lemma_address_chars};
use crate::glob::glob;
use crate::host::normal_host;
use crate::matcher::{covers, direct_rule, first_cover, host_address};
use crate::pattern::regex_finds;
use crate::rule::{below, kind_covers, rule_covers, KindModel, RuleModel};
use crate::unicode::{ascii_lower_char, ascii_lowered, same_ignoring_ascii_case};
use vstd::prelude::*;

verus! {

// ---------------------------------------------------------------- port and scheme

/// The same character, or the same ASCII letter in the other case.
pub open spec fn same_letter(a: char, b: char) -> bool {
    ||| a == b
    ||| 'A' <= a <= 'Z' && b as int == a as int + 32
    ||| 'A' <= b <= 'Z' && a as int == b as int + 32
}

/// Texts that are the same but for the case of their ASCII letters.
pub open spec fn same_letters(a: Seq<char>, b: Seq<char>) -> bool {
    a.len() == b.len() && forall|i: int| 0 <= i < a.len() ==> same_letter(#[trigger] a[i], b[i])
}

/// ASCII case is ignored letter by letter.
pub proof fn ascii_case_is_ignored_by_letters(a: Seq<char>, b: Seq<char>)
    ensures
        same_ignoring_ascii_case(a, b) <==> same_letters(a, b),
{
    let x = ascii_lowered(a);
    let y = ascii_lowered(b);
    if same_ignoring_ascii_case(a, b) {
        assert(x.len() == a.len() && y.len() == b.len());
        assert forall|i: int| 0 <= i < a.len() implies same_letter(#[trigger] a[i], b[i]) by {
            assert(x[i] == ascii_lower_char(a[i]) && y[i] == ascii_lower_char(b[i]));
        }
    }
    if same_letters(a, b) {
        assert forall|i: int| 0 <= i < a.len() implies x[i] == y[i] by {
            assert(same_letter(a[i], b[i]));
        }
        assert(x =~= y);
    }
}

/// The request is on the port of the rule, if it has one.
pub open spec fn on_its_port(rule: RuleModel, port: Option<u16>) -> bool {
    rule.port is None || port == rule.port
}

/// The request is over the scheme of the rule, if it has one.
pub open spec fn over_its_scheme(rule: RuleModel, scheme: Option<Seq<char>>) -> bool {
    rule.scheme is None || (scheme is Some && same_letters(scheme->Some_0, rule.scheme->Some_0))
}

/// On its port and over its scheme a rule covers what its kind covers, and
/// otherwise nothing.
pub proof fn port_and_scheme_only_narrow(
    rule: RuleModel,
    host: Seq<char>,
    ip: Option<Address>,
    port: Option<u16>,
    scheme: Option<Seq<char>>,
)
    ensures
        on_its_port(rule, port) && over_its_scheme(rule, scheme) ==> rule_covers(
            rule,
            host,
            ip,
            port,
            scheme,
        ) == kind_covers(rule.kind, host, ip),
        !on_its_port(rule, port) || !over_its_scheme(rule, scheme) ==> !rule_covers(
            rule,
            host,
            ip,
            port,
            scheme,
        ),
{
    if let (Some(got), Some(want)) = (scheme, rule.scheme) {
        ascii_case_is_ignored_by_letters(got, want);
    }
}

/// The scheme of a request means nothing to a rule without a scheme, nor the
/// port to a rule without a port.
pub proof fn what_a_rule_leaves_open_means_nothing(
    rule: RuleModel,
    host: Seq<char>,
    port: Option<u16>,
    scheme: Option<Seq<char>>,
    other_port: Option<u16>,
    other_scheme: Option<Seq<char>>,
)
    ensures
        rule.scheme is None ==> covers(rule, host, port, scheme) == covers(
            rule,
            host,
            port,
            other_scheme,
        ),
        rule.port is None ==> covers(rule, host, port, scheme) == covers(
            rule,
            host,
            other_port,
            scheme,
        ),
{
}

/// A rule alone in a list sends a request direct exactly where the host has a
/// name, the request is on the port and over the scheme of the rule, and its
/// kind covers the host, with the address that the host writes.
pub proof fn lone_rule_sends_direct_what_it_covers(
    text: Seq<char>,
    rule: RuleModel,
    host: Seq<char>,
    port: Option<u16>,
    scheme: Option<Seq<char>>,
)
    ensures
        ({
            let name = normal_host(host);
            let ip = match address(name) {
                Some(a) => Some(normal(a)),
                None => None,
            };
            direct_rule(seq![(text, rule)], host, port, scheme) == (if name.len() > 0
                && on_its_port(rule, port) && over_its_scheme(rule, scheme) && kind_covers(
                rule.kind,
                name,
                ip,
            ) {
                Some(text)
            } else {
                None
            })
        }),
{
    let rules = seq![(text, rule)];
    let name = normal_host(host);
    port_and_scheme_only_narrow(rule, name, host_address(name), port, scheme);
    assert(rules[0] == (text, rule));
    reveal_with_fuel(first_cover, 2);
}

// ---------------------------------------------------------------- local and loopback

/// A loopback address: 127.0.0.0/8, the same in the IPv4-mapped form, or ::1.
pub open spec fn written_loopback(a: Address) -> bool {
    match a {
        Address::V4(o) => o[0] == 127,
        Address::V6(g) => {
            &&& g[0] == 0 && g[1] == 0 && g[2] == 0 && g[3] == 0 && g[4] == 0
            &&& (g[5] == 0 && g[6] == 0 && g[7] == 1) || (g[5] == 0xffff && g[6] / 256 == 127)
        },
    }
}

/// Of the hosts that write an address, the local rule and the loopback rule
/// cover the loopback addresses alone.
pub proof fn of_addresses_only_loopback_is_local(host: Seq<char>)
    ensures
        address(host) matches Some(a) ==> {
            &&& kind_covers(KindModel::Loopback, host, host_address(host)) <==> written_loopback(a)
            &&& kind_covers(KindModel::Local, host, host_address(host)) <==> written_loopback(a)
        },
{
    if let Some(a) = address(host) {
        lemma_address_chars(host);
        lemma_address_sized(host);
        reveal_strlit("localhost");
        let l = "localhost"@;
        if host == l {
            assert(address_char(host[0]));
        }
        if below(host, l) {
            let n = host.len() - l.len();
            assert(host.skip(n - 1) == seq!['.'] + l);
            assert(host.skip(n - 1)[1] == host[n]);
            assert((seq!['.'] + l)[1] == l[0]);
            assert(address_char(host[n]));
        }
        if let Address::V6(g) = a {
            if written_loopback(a) && g[5] == 0 {
                assert forall|i: int| 0 <= i < 7 implies #[trigger] g[i] == 0 by {}
            }
            if g[0] == 0 && g[1] == 0 && g[2] == 0 && g[3] == 0 && g[4] == 0 {
                assert forall|i: int| 0 <= i < 5 implies #[trigger] g[i] == 0 by {}
            }
        }
    }
}

/// Of the hosts that write no address, the loopback rule covers `localhost` and
/// what ends in `.localhost`, and the local rule covers these and every host
/// without a dot.
pub proof fn of_names_localhost_is_loopback(host: Seq<char>)
    requires
        address(host) is None,
    ensures
        kind_covers(KindModel::Loopback, host, host_address(host)) <==> (host == "localhost"@
            || exists|sub: Seq<char>| host == #[trigger] (sub + ".localhost"@)),
        kind_covers(KindModel::Local, host, host_address(host)) <==> (!host.contains('.') || host
            == "localhost"@ || exists|sub: Seq<char>| host == #[trigger] (sub + ".localhost"@)),
{
    reveal_strlit("localhost");
    reveal_strlit(".localhost");
    let dotted = seq!['.'] + "localhost"@;
    assert(dotted =~= ".localhost"@);
    if below(host, "localhost"@) {
        let n = host.len() - dotted.len();
        assert(host =~= host.take(n) + ".localhost"@);
    }
    if exists|sub: Seq<char>| host == #[trigger] (sub + ".localhost"@) {
        let sub = choose|sub: Seq<char>| host == #[trigger] (sub + ".localhost"@);
        assert(host.skip(sub.len() as int) =~= dotted);
    }
}

/// What the loopback rule and the local rule cover, where the host comes with an
/// address: a loopback address is covered, and with any other the address adds
/// nothing to what the name of the host is.
pub proof fn address_of_a_host_decides_on_loopback(host: Seq<char>, ip: Address)
    requires
        sized(ip),
        normal(ip) == ip,
    ensures
        written_loopback(ip) ==> kind_covers(KindModel::Loopback, host, Some(ip)) && kind_covers(
            KindModel::Local,
            host,
            Some(ip),
        ),
        !written_loopback(ip) ==> {
            &&& kind_covers(KindModel::Loopback, host, Some(ip)) == kind_covers(
                KindModel::Loopback,
                host,
                None,
            )
            &&& kind_covers(KindModel::Local, host, Some(ip)) == kind_covers(
                KindModel::Loopback,
                host,
                None,
            )
        },
{
    if let Address::V6(g) = ip {
        if g[0] == 0 && g[1] == 0 && g[2] == 0 && g[3] == 0 && g[4] == 0 {
            assert forall|i: int| 0 <= i < 5 implies #[trigger] g[i] == 0 by {}
            if g[5] == 0 && g[6] == 0 {
                assert forall|i: int| 0 <= i < 7 implies #[trigger] g[i] == 0 by {}
            }
        }
    }
}

// ---------------------------------------------------------------- addresses and ranges

/// The normal form of an address is the address, but for an IPv4-mapped one,
/// which it takes the IPv4 address out of.
pub proof fn only_mapped_addresses_change(a: Address)
    requires
        sized(a),
    ensures
        a matches Address::V4(_) ==> normal(a) == a,
        a matches Address::V6(g) ==> {
            let mapped = g[0] == 0 && g[1] == 0 && g[2] == 0 && g[3] == 0 && g[4] == 0 && g[5]
                == 0xffff;
            &&& !mapped ==> normal(a) == a
            &&& mapped ==> (normal(a) matches Address::V4(o) && o.len() == 4 && o[0] * 256 + o[1]
                == g[6] && o[2] * 256 + o[3] == g[7])
        },
{
    if let Address::V6(g) = a {
        if g[0] == 0 && g[1] == 0 && g[2] == 0 && g[3] == 0 && g[4] == 0 {
            assert forall|i: int| 0 <= i < 5 implies #[trigger] g[i] == 0 by {}
        }
    }
}

/// A rule for an address covers the hosts that write this address, and none
/// else.
pub proof fn address_rule_covers_its_address_alone(want: Address, host: Seq<char>)
    ensures
        kind_covers(KindModel::Ip(want), host, host_address(host)) <==> (address(host) matches Some(
            a,
        ) && normal(a) == want),
{
}

/// A rule for a range covers the hosts that write an address in the range.
pub proof fn range_rule_covers_its_addresses(network: Address, prefix: u8, host: Seq<char>)
    ensures
        kind_covers(KindModel::Cidr { network, prefix }, host, host_address(host)) <==> (address(
            host,
        ) matches Some(a) && in_range(network, prefix as int, normal(a))),
{
}

/// A prefix longer than the address makes no smaller range than one as long as
/// it.
pub proof fn prefix_fixes_no_more_than_there_is(network: Address, prefix: int, a: Address)
    ensures
        network is V4 && prefix > 32 ==> in_range(network, prefix, a) == in_range(network, 32, a),
        network is V6 && prefix > 128 ==> in_range(network, prefix, a) == in_range(
            network,
            128,
            a,
        ),
{
}

/// Octet `k` of an address, counted from the most significant.
pub open spec fn octet_of(a: Address, k: int) -> int {
    match a {
        Address::V4(o) => o[k] as int,
        Address::V6(g) => if k % 2 == 0 {
            g[k / 2] as int / 256
        } else {
            g[k / 2] as int % 256
        },
    }
}

/// How far apart octets lie that differ in one of their first `r` bits.
pub open spec fn step(r: int) -> int {
    if r == 1 {
        128
    } else if r == 2 {
        64
    } else if r == 3 {
        32
    } else if r == 4 {
        16
    } else if r == 5 {
        8
    } else if r == 6 {
        4
    } else {
        2
    }
}

proof fn lemma_step(x: u8, y: u8, r: int)
    requires
        1 <= r <= 7,
    ensures
        (forall|k: int| 0 <= k < r ==> #[trigger] octet_bit(x, k) == octet_bit(y, k)) <==> x as int
            / step(r) == y as int / step(r),
{
    lemma_octet_prefix(x, y, r as u8);
    assert((x & (0xffu8 << 7u8) == y & (0xffu8 << 7u8)) <==> x / 128 == y / 128) by (bit_vector);
    assert((x & (0xffu8 << 6u8) == y & (0xffu8 << 6u8)) <==> x / 64 == y / 64) by (bit_vector);
    assert((x & (0xffu8 << 5u8) == y & (0xffu8 << 5u8)) <==> x / 32 == y / 32) by (bit_vector);
    assert((x & (0xffu8 << 4u8) == y & (0xffu8 << 4u8)) <==> x / 16 == y / 16) by (bit_vector);
    assert((x & (0xffu8 << 3u8) == y & (0xffu8 << 3u8)) <==> x / 8 == y / 8) by (bit_vector);
    assert((x & (0xffu8 << 2u8) == y & (0xffu8 << 2u8)) <==> x / 4 == y / 4) by (bit_vector);
    assert((x & (0xffu8 << 1u8) == y & (0xffu8 << 1u8)) <==> x / 2 == y / 2) by (bit_vector);
}

/// An address lies in a range exactly where it is of the same family, its first
/// octets are those of the network as far as the prefix takes them whole, and
/// the next octet lies in the same block of the size that the rest of the prefix
/// leaves.
pub proof fn range_is_a_block_of_addresses(network: Address, prefix: int, a: Address)
    requires
        sized(network),
        sized(a),
        0 <= prefix <= 128,
        network is V4 ==> prefix <= 32,
    ensures
        in_range(network, prefix, a) <==> {
            &&& (network is V4) == (a is V4)
            &&& forall|k: int|
                0 <= k < prefix / 8 ==> #[trigger] octet_of(network, k) == octet_of(a, k)
            &&& prefix % 8 != 0 ==> octet_of(network, prefix / 8) / step(prefix % 8) == octet_of(
                a,
                prefix / 8,
            ) / step(prefix % 8)
        },
{
    if (network is V4) == (a is V4) {
        let x = octets(network);
        let y = octets(a);
        let w = prefix / 8;
        let r = prefix % 8;
        lemma_agree_octets(x, y, prefix);
        assert forall|k: int| 0 <= k < x.len() implies octet_of(network, k) == x[k] && octet_of(
            a,
            k,
        ) == y[k] by {}
        if r != 0 {
            lemma_step(x[w], y[w], r);
        }
        if x.take(w) == y.take(w) {
            assert forall|k: int| 0 <= k < w implies #[trigger] octet_of(network, k) == octet_of(
                a,
                k,
            ) by {
                assert(x.take(w)[k] == y.take(w)[k]);
            }
        }
        if forall|k: int| 0 <= k < w ==> #[trigger] octet_of(network, k) == octet_of(a, k) {
            assert forall|k: int| 0 <= k < w implies x[k] == y[k] by {
                assert(octet_of(network, k) == octet_of(a, k));
            }
            assert(x.take(w) =~= y.take(w));
        }
    }
}

// ---------------------------------------------------------------- names

/// A domain rule covers the domain and what a dot divides from it, and a
/// subdomain rule only the latter.
pub proof fn domain_rules_cover_labels(domain: Seq<char>, host: Seq<char>, ip: Option<Address>)
    ensures
        kind_covers(KindModel::Subdomains(domain), host, ip) <==> exists|sub: Seq<char>|
            host == #[trigger] (sub + (seq!['.'] + domain)),
        kind_covers(KindModel::Domain(domain), host, ip) <==> (host == domain || exists|
            sub: Seq<char>,
        |
            host == #[trigger] (sub + (seq!['.'] + domain))),
{
    let tail = seq!['.'] + domain;
    if below(host, domain) {
        let n = host.len() - tail.len();
        assert(host =~= host.take(n) + tail);
    }
    if exists|sub: Seq<char>| host == #[trigger] (sub + tail) {
        let sub = choose|sub: Seq<char>| host == #[trigger] (sub + tail);
        assert(host.skip(sub.len() as int) =~= tail);
    }
}

/// A glob covers the hosts that it matches, whether they write an address or
/// not, and a regular expression those in which its anchored form is found.
pub proof fn patterns_cover_what_they_match(
    pattern: Seq<char>,
    host: Seq<char>,
    ip: Option<Address>,
)
    ensures
        kind_covers(KindModel::Wildcard(pattern), host, ip) == glob(pattern, host),
        kind_covers(KindModel::Regex(pattern), host, ip) == regex_finds(
            "(?i)^(?:"@ + pattern + ")$"@,
            host,
        ),
{
}

} // verus!
