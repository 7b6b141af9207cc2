//! Laws of the canonical form: what stands in it, and in which order.

use crate::address::{address_text, Address};
use crate::number::numeral;
use crate::reread::lemma_host_port_plain;
use crate::rule::{canonical_text, splits_bare, KindModel, RuleModel};
use crate::text_laws::two_colons_make_a_host;
use crate::unicode::white_space;
use vstd::prelude::*;

verus! {

/// A host with the scheme and `://` before it, and a colon and the port behind
/// it, as far as the rule has them.
pub open spec fn around(rule: RuleModel, host: Seq<char>) -> Seq<char> {
    let front = match rule.scheme {
        Some(s) => s + "://"@ + host,
        None => host,
    };
    match rule.port {
        Some(p) => front + seq![':'] + numeral(p as int, 10),
        None => front,
    }
}

/// Rules of every kind but globs and regular expressions are written out with
/// the scheme before and the port behind. An IPv6 address stands in brackets
/// where a port follows.
pub proof fn rules_are_written_out(rule: RuleModel)
    ensures
        match rule.kind {
            KindModel::Local => canonical_text(rule) == around(rule, "<local>"@),
            KindModel::Loopback => canonical_text(rule) == around(rule, "<loopback>"@),
            KindModel::Domain(d) => canonical_text(rule) == around(rule, d),
            KindModel::Subdomains(d) => canonical_text(rule) == around(rule, "*."@ + d),
            KindModel::Cidr { network, prefix } => canonical_text(rule) == around(
                rule,
                address_text(network) + seq!['/'] + numeral(prefix as int, 10),
            ),
            KindModel::Ip(Address::V4(o)) => canonical_text(rule) == around(
                rule,
                address_text(Address::V4(o)),
            ),
            KindModel::Ip(Address::V6(g)) => canonical_text(rule) == around(
                rule,
                if rule.port is Some {
                    seq!['['] + address_text(Address::V6(g)) + seq![']']
                } else {
                    address_text(Address::V6(g))
                },
            ),
            _ => true,
        },
{
    match rule.kind {
        KindModel::Local => {
            assert(canonical_text(rule) =~= around(rule, "<local>"@));
        },
        KindModel::Loopback => {
            assert(canonical_text(rule) =~= around(rule, "<loopback>"@));
        },
        KindModel::Domain(d) => {
            assert(canonical_text(rule) =~= around(rule, d));
        },
        KindModel::Subdomains(d) => {
            assert(canonical_text(rule) =~= around(rule, "*."@ + d));
        },
        KindModel::Cidr { network, prefix } => {
            assert(canonical_text(rule) =~= around(
                rule,
                address_text(network) + seq!['/'] + numeral(prefix as int, 10),
            ));
        },
        KindModel::Ip(a) => {
            assert(canonical_text(rule) =~= around(
                rule,
                if rule.port is Some && a is V6 {
                    seq!['['] + address_text(a) + seq![']']
                } else {
                    address_text(a)
                },
            ));
        },
        _ => {},
    }
}

/// A regular expression that nothing narrows stands between slashes.
pub proof fn regex_stands_between_slashes(rule: RuleModel, source: Seq<char>)
    requires
        rule.kind == KindModel::Regex(source),
        rule.port is None,
        rule.scheme is None,
    ensures
        canonical_text(rule) == seq!['/'] + source + seq!['/'],
{
    assert(canonical_text(rule) =~= seq!['/'] + source + seq!['/']);
}

/// A glob, and a regular expression that is narrowed, stands as it is where no
/// colon or bracket gets in the way. With a colon in it and a port behind it, it
/// stands in brackets.
pub proof fn patterns_stand_as_they_are(rule: RuleModel, p: Seq<char>)
    requires
        rule.kind == KindModel::Wildcard(p) || (rule.kind == KindModel::Regex(p) && (rule.port
            is Some || rule.scheme is Some)),
        rule.port != Some(0u16),
        p.len() > 0,
        p[0] != '[',
        !white_space(p[0]),
        !white_space(p.last()),
    ensures
        !p.contains(':') ==> canonical_text(rule) == around(rule, p),
        p.contains(':') && rule.port is Some ==> canonical_text(rule) == around(
            rule,
            seq!['['] + p + seq![']'],
        ),
{
    if !p.contains(':') {
        lemma_host_port_plain(p, rule.port);
        assert(canonical_text(rule) =~= around(rule, p));
    } else if let Some(port) = rule.port {
        let i = choose|i: int| 0 <= i < p.len() && p[i] == ':';
        let num = numeral(port as int, 10);
        let a = p.take(i);
        let b = p.skip(i + 1);
        let s = p + (seq![':'] + num);
        two_colons_make_a_host(a, b, num);
        assert(a + seq![':'] + b + seq![':'] + num =~= s);
        assert(!splits_bare(p, rule.port));
        assert(canonical_text(rule) =~= around(rule, seq!['['] + p + seq![']']));
    }
}

} // verus!
