//! Laws of rules and of lists of rules.

use crate::address::{address, dotted_text, Address};
use crate::address_laws::{
    address_char, lemma_address_chars, lemma_dotted_text, mapped_text_is_the_ipv4_address,
};
use crate::error::BypassRuleError;
use crate::glob::{glob, glob_at};
use crate::host::{has_regex_meta, has_wildcard, normal_host, regex_only_meta};
use crate::matcher::{covers, direct_rule, dropped, first_cover, loaded};
use crate::parse::{authority_rule, host_kind, parsed};
use crate::pattern::{anchored, regex_compiles};
use crate::rule::{below, kind_covers, rule_covers, KindModel, RuleModel};
use crate::text::trimmed;
use crate::unicode::same_ignoring_ascii_case;
use vstd::prelude::*;

verus! {

// ---------------------------------------------------------------- domains

/// A domain rule covers the domain and every host below it.
pub proof fn domain_covers_apex_and_subdomains(
    domain: Seq<char>,
    sub: Seq<char>,
    ip: Option<Address>,
)
    ensures
        kind_covers(KindModel::Domain(domain), domain, ip),
        kind_covers(KindModel::Domain(domain), sub + seq!['.'] + domain, ip),
{
    lemma_below(sub, domain);
}

/// A subdomain rule covers every host below its domain, but not the domain.
pub proof fn subdomains_skip_the_apex(domain: Seq<char>, sub: Seq<char>, ip: Option<Address>)
    ensures
        kind_covers(KindModel::Subdomains(domain), sub + seq!['.'] + domain, ip),
        !kind_covers(KindModel::Subdomains(domain), domain, ip),
{
    lemma_below(sub, domain);
}

proof fn lemma_below(sub: Seq<char>, domain: Seq<char>)
    ensures
        below(sub + seq!['.'] + domain, domain),
{
    let host = sub + seq!['.'] + domain;
    let tail = seq!['.'] + domain;
    assert(host.subrange(host.len() - tail.len(), host.len() as int) =~= tail);
}

/// A domain rule is anchored: what it covers ends with the domain, and a dot
/// stands before the domain where anything does. So a lookalike such as the
/// domain with something behind it, or with letters before it, is not covered.
pub proof fn domain_is_anchored(domain: Seq<char>, host: Seq<char>, ip: Option<Address>)
    requires
        kind_covers(KindModel::Domain(domain), host, ip) || kind_covers(
            KindModel::Subdomains(domain),
            host,
            ip,
        ),
    ensures
        domain.is_suffix_of(host),
        host == domain || (host.len() > domain.len() && host[host.len() - domain.len() - 1] == '.'),
{
    if host != domain {
        let tail = seq!['.'] + domain;
        let n = host.len() - tail.len();
        assert(host.subrange(n, host.len() as int) == tail);
        assert(host[n] == tail[0]);
        assert forall|i: int| 0 <= i < domain.len() implies host[n + 1 + i] == domain[i] by {
            assert(host.subrange(n, host.len() as int)[1 + i] == tail[1 + i]);
        }
        assert(host.subrange(n + 1, host.len() as int) =~= domain);
    } else {
        assert(host.subrange(0, host.len() as int) =~= host);
    }
}

/// A rule with `.` before a domain is the rule with `*.` before it.
pub proof fn leading_dot_means_subdomains(domain: Seq<char>)
    requires
        domain.len() > 0,
        !has_wildcard(domain),
        !has_regex_meta(domain),
    ensures
        host_kind(seq!['.'] + domain) == host_kind("*."@ + domain),
{
    let dot = seq!['.'] + domain;
    let star = "*."@ + domain;
    reveal_strlit("*.");
    assert(dot[0] == '.');
    assert(star[0] == '*' && star[1] == '.');
    if address(dot) is Some {
        lemma_address_chars(dot);
    }
    if address(star) is Some {
        lemma_address_chars(star);
        assert(address_char(star[0]));
    }
    assert(dot.skip(1) =~= domain);
    assert(star.skip(2) =~= domain);
    assert forall|i: int| 0 <= i < dot.len() implies !regex_only_meta(#[trigger] dot[i]) by {
        if i >= 1 {
            assert(dot[i] == domain[i - 1]);
        }
    }
    assert forall|i: int| 0 <= i < star.len() implies !regex_only_meta(#[trigger] star[i]) by {
        if i >= 2 {
            assert(star[i] == domain[i - 2]);
        }
    }
}

// ---------------------------------------------------------------- addresses

/// A rule for an address or a range covers no host name.
pub proof fn address_rules_cover_no_name(kind: KindModel, host: Seq<char>)
    requires
        kind is Ip || kind is Cidr,
    ensures
        !kind_covers(kind, host, None),
{
}

/// A rule for an address or a range covers the IPv4-mapped form of an IPv4
/// address exactly where it covers the address.
pub proof fn ipv4_rules_cover_the_mapped_form(
    rule: RuleModel,
    o: Seq<u8>,
    port: Option<u16>,
    scheme: Option<Seq<char>>,
)
    requires
        o.len() == 4,
        rule.kind is Ip || rule.kind is Cidr,
    ensures
        covers(rule, "::ffff:"@ + dotted_text(o), port, scheme) == covers(
            rule,
            dotted_text(o),
            port,
            scheme,
        ),
{
    mapped_text_is_the_ipv4_address(o);
    lemma_dotted_text(o);
}

/// What the loopback rule covers, the local rule covers too.
pub proof fn local_covers_loopback(host: Seq<char>, ip: Option<Address>)
    requires
        kind_covers(KindModel::Loopback, host, ip),
    ensures
        kind_covers(KindModel::Local, host, ip),
{
}

/// The local rule covers every host name without a dot, and of the host names
/// with one only those below `localhost`.
pub proof fn local_covers_dotless_names(host: Seq<char>)
    ensures
        !host.contains('.') ==> kind_covers(KindModel::Local, host, None),
        host.contains('.') && kind_covers(KindModel::Local, host, None) ==> below(
            host,
            "localhost"@,
        ),
{
    assert(!"localhost"@.contains('.')) by {
        reveal_strlit("localhost");
    }
}

// ---------------------------------------------------------------- ports and schemes

/// A rule narrowed to a port covers nothing on another port, nor where the
/// port is unknown.
pub proof fn port_must_be_known(
    rule: RuleModel,
    want: u16,
    host: Seq<char>,
    ip: Option<Address>,
    port: Option<u16>,
    scheme: Option<Seq<char>>,
)
    requires
        rule.port == Some(want),
        port != Some(want),
    ensures
        !rule_covers(rule, host, ip, port, scheme),
{
}

/// A rule narrowed to a scheme covers nothing over another scheme, nor where
/// the scheme is unknown.
pub proof fn scheme_must_be_known(
    rule: RuleModel,
    want: Seq<char>,
    host: Seq<char>,
    ip: Option<Address>,
    port: Option<u16>,
    scheme: Option<Seq<char>>,
)
    requires
        rule.scheme == Some(want),
        scheme matches Some(got) ==> !same_ignoring_ascii_case(got, want),
    ensures
        !rule_covers(rule, host, ip, port, scheme),
{
}

/// A rule that is narrowed to nothing covers a host whatever the port and the
/// scheme are.
pub proof fn unnarrowed_rules_ignore_port_and_scheme(
    rule: RuleModel,
    host: Seq<char>,
    ip: Option<Address>,
    port: Option<u16>,
    scheme: Option<Seq<char>>,
)
    requires
        rule.port is None,
        rule.scheme is None,
    ensures
        rule_covers(rule, host, ip, port, scheme) == kind_covers(rule.kind, host, ip),
{
}

/// To narrow a rule only ever takes requests out of what it covers.
pub proof fn narrowing_covers_less(
    rule: RuleModel,
    host: Seq<char>,
    ip: Option<Address>,
    port: Option<u16>,
    scheme: Option<Seq<char>>,
)
    requires
        rule_covers(rule, host, ip, port, scheme),
    ensures
        rule_covers(
            (RuleModel { kind: rule.kind, port: None, scheme: None }),
            host,
            ip,
            port,
            scheme,
        ),
{
}

// ---------------------------------------------------------------- globs

/// The source of every regular expression that a rule holds is an expression of
/// its own. So the anchors around it go for the whole of it.
pub proof fn regex_sources_stand_alone(raw: Seq<char>)
    ensures
        parsed(raw) matches Ok(rule) ==> (rule.kind matches KindModel::Regex(source) ==> {
            &&& source.len() > 0
            &&& regex_compiles(source)
            &&& regex_compiles(anchored(source))
        }),
{
    reveal(authority_rule);
}

/// `*` alone matches every value.
pub proof fn star_matches_everything(v: Seq<char>)
    ensures
        glob(seq!['*'], v),
{
    lemma_star_rest(v, 0);
}

proof fn lemma_star_rest(v: Seq<char>, j: int)
    requires
        0 <= j <= v.len(),
    ensures
        glob_at(seq!['*'], v, 0, j),
    decreases v.len() - j,
{
    let p = seq!['*'];
    if j < v.len() {
        lemma_star_rest(v, j + 1);
    } else {
        assert(glob_at(p, v, 1, j));
    }
}

/// `?` alone matches the values of one character.
pub proof fn question_mark_matches_one_character(v: Seq<char>)
    ensures
        glob(seq!['?'], v) <==> v.len() == 1,
{
    let p = seq!['?'];
    assert(glob_at(p, v, 1, 1) == (1 >= v.len()));
}

/// A pattern without `*` and `?` matches itself alone.
pub proof fn literal_pattern_matches_itself(p: Seq<char>, v: Seq<char>)
    requires
        !has_wildcard(p),
    ensures
        glob(p, v) <==> p == v,
{
    lemma_literal(p, v, 0);
    assert(p.skip(0) =~= p);
    assert(v.skip(0) =~= v);
}

proof fn lemma_literal(p: Seq<char>, v: Seq<char>, i: int)
    requires
        !has_wildcard(p),
        0 <= i <= p.len(),
        i <= v.len(),
    ensures
        glob_at(p, v, i, i) <==> p.skip(i) == v.skip(i),
    decreases p.len() - i,
{
    if i < p.len() {
        assert(p[i] != '*' && p[i] != '?');
        if i < v.len() {
            lemma_literal(p, v, i + 1);
            if p.skip(i) == v.skip(i) {
                assert(p.skip(i)[0] == v.skip(i)[0]);
                assert(p.skip(i + 1) =~= p.skip(i).skip(1));
                assert(v.skip(i + 1) =~= v.skip(i).skip(1));
            }
            if p[i] == v[i] && p.skip(i + 1) == v.skip(i + 1) {
                assert(p.skip(i) =~= seq![p[i]] + p.skip(i + 1));
                assert(v.skip(i) =~= seq![v[i]] + v.skip(i + 1));
            }
        } else {
            assert(p.skip(i).len() != v.skip(i).len());
        }
    } else {
        assert(p.skip(i).len() == 0);
        if v.skip(i).len() == 0 {
            assert(p.skip(i) =~= v.skip(i));
        }
    }
}

/// A pattern that begins with its first characters literally matches only
/// values that begin with them.
pub proof fn glob_is_anchored_at_its_start(p: Seq<char>, v: Seq<char>, n: int)
    requires
        0 <= n <= p.len(),
        !has_wildcard(p.take(n)),
        glob(p, v),
    ensures
        n <= v.len(),
        v.take(n) == p.take(n),
{
    lemma_literal_start(p, v, n, 0);
    assert(v.take(n) =~= p.take(n));
}

proof fn lemma_literal_start(p: Seq<char>, v: Seq<char>, n: int, i: int)
    requires
        0 <= i <= n <= p.len(),
        i <= v.len(),
        !has_wildcard(p.take(n)),
        glob_at(p, v, i, i),
    ensures
        n <= v.len(),
        forall|j: int| i <= j < n ==> v[j] == p[j],
    decreases n - i,
{
    if i < n {
        assert(p.take(n)[i] == p[i]);
        assert(p[i] != '*' && p[i] != '?') by {
            if p[i] == '*' {
                assert(p.take(n).contains('*'));
            }
            if p[i] == '?' {
                assert(p.take(n).contains('?'));
            }
        }
        lemma_literal_start(p, v, n, i + 1);
    }
}

/// A pattern that ends with its last characters literally matches only values
/// that end with them. So no glob for a domain matches that domain with
/// something behind it.
pub proof fn glob_is_anchored_at_its_end(p: Seq<char>, v: Seq<char>, n: int)
    requires
        0 <= n <= p.len(),
        !has_wildcard(p.skip(n)),
        glob(p, v),
    ensures
        p.skip(n).is_suffix_of(v),
{
    lemma_literal_end(p, v, n, 0, 0);
}

proof fn lemma_literal_end(p: Seq<char>, v: Seq<char>, n: int, i: int, j: int)
    requires
        0 <= i <= n <= p.len(),
        0 <= j <= v.len(),
        !has_wildcard(p.skip(n)),
        glob_at(p, v, i, j),
    ensures
        p.skip(n).is_suffix_of(v.skip(j)),
        p.skip(n).is_suffix_of(v),
    decreases p.len() - i, v.len() - j,
{
    let t = p.skip(n);
    if i < n {
        if p[i] == '*' {
            if glob_at(p, v, i + 1, j) {
                lemma_literal_end(p, v, n, i + 1, j);
            } else {
                lemma_literal_end(p, v, n, i, j + 1);
                lemma_suffix_of_skip(t, v, j, j + 1);
            }
        } else {
            lemma_literal_end(p, v, n, i + 1, j + 1);
            lemma_suffix_of_skip(t, v, j, j + 1);
        }
    } else {
        lemma_literal_tail(p, v, n, n, j);
        assert(v.skip(j) =~= t);
        assert(t.subrange(0, t.len() as int) =~= t);
        assert(v.subrange(v.len() - t.len(), v.len() as int) =~= t);
    }
}

proof fn lemma_suffix_of_skip(t: Seq<char>, v: Seq<char>, j: int, k: int)
    requires
        0 <= j <= k <= v.len(),
        t.is_suffix_of(v.skip(k)),
    ensures
        t.is_suffix_of(v.skip(j)),
{
    let a = v.skip(j);
    let b = v.skip(k);
    assert(a.subrange(a.len() - t.len(), a.len() as int) =~= b.subrange(
        b.len() - t.len(),
        b.len() as int,
    ));
}

proof fn lemma_literal_tail(p: Seq<char>, v: Seq<char>, n: int, i: int, j: int)
    requires
        0 <= n <= i <= p.len(),
        0 <= j <= v.len(),
        !has_wildcard(p.skip(n)),
        glob_at(p, v, i, j),
    ensures
        p.skip(i) == v.skip(j),
    decreases p.len() - i,
{
    if i < p.len() {
        assert(p.skip(n)[i - n] == p[i]);
        assert(p[i] != '*' && p[i] != '?') by {
            if p[i] == '*' {
                assert(p.skip(n).contains('*'));
            }
            if p[i] == '?' {
                assert(p.skip(n).contains('?'));
            }
        }
        lemma_literal_tail(p, v, n, i + 1, j + 1);
        assert(p.skip(i) =~= seq![p[i]] + p.skip(i + 1));
        assert(v.skip(j) =~= seq![v[j]] + v.skip(j + 1));
    } else {
        assert(p.skip(i) =~= v.skip(j));
    }
}

/// A star right behind a star adds nothing.
pub proof fn second_star_adds_nothing(p: Seq<char>, v: Seq<char>, i: int, j: int)
    requires
        0 <= i < p.len() - 1,
        p[i] == '*',
        p[i + 1] == '*',
        0 <= j <= v.len(),
    ensures
        glob_at(p, v, i, j) == glob_at(p, v, i + 1, j),
    decreases v.len() - j,
{
    if j < v.len() {
        second_star_adds_nothing(p, v, i, j + 1);
    }
}

// ---------------------------------------------------------------- lists

/// The rules of two lists put together are the rules of both.
pub proof fn lists_load_in_order(a: Seq<Seq<char>>, b: Seq<Seq<char>>)
    ensures
        loaded(a + b) == loaded(a) + loaded(b),
    decreases b.len(),
{
    if b.len() == 0 {
        assert(a + b =~= a);
        assert(loaded(a) + loaded(b) =~= loaded(a));
    } else {
        lists_load_in_order(a, b.drop_last());
        assert((a + b).drop_last() =~= a + b.drop_last());
        assert((a + b).last() == b.last());
        if let Ok(rule) = parsed(b.last()) {
            let entry = (trimmed(b.last()), rule);
            assert((loaded(a) + loaded(b.drop_last())).push(entry) =~= loaded(a) + loaded(
                b.drop_last(),
            ).push(entry));
        }
    }
}

/// A text that writes no rule leaves the other rules of a list as they are.
pub proof fn invalid_rule_disables_nothing(a: Seq<Seq<char>>, bad: Seq<char>, b: Seq<Seq<char>>)
    requires
        parsed(bad) is Err,
    ensures
        loaded(a + seq![bad] + b) == loaded(a + b),
{
    let one = seq![bad];
    let none = Seq::<(Seq<char>, RuleModel)>::empty();
    lists_load_in_order(a + one, b);
    lists_load_in_order(a, one);
    lists_load_in_order(a, b);
    lemma_loaded_none(bad);
    assert(loaded(a) + none =~= loaded(a));
}

proof fn lemma_loaded_none(bad: Seq<char>)
    requires
        parsed(bad) is Err,
    ensures
        loaded(seq![bad]) == Seq::<(Seq<char>, RuleModel)>::empty(),
{
    let one = seq![bad];
    assert(one.drop_last() =~= Seq::<Seq<char>>::empty());
    assert(one.last() == bad);
    assert(loaded(one.drop_last()) == Seq::<(Seq<char>, RuleModel)>::empty());
}

/// Every text of a list is loaded as a rule or dropped, and none is both.
pub proof fn every_text_is_loaded_or_dropped(list: Seq<Seq<char>>)
    ensures
        loaded(list).len() + dropped(list).len() == list.len(),
    decreases list.len(),
{
    if list.len() > 0 {
        every_text_is_loaded_or_dropped(list.drop_last());
    }
}

/// An empty list sends nothing direct.
pub proof fn empty_list_bypasses_nothing(
    host: Seq<char>,
    port: Option<u16>,
    scheme: Option<Seq<char>>,
)
    ensures
        loaded(Seq::<Seq<char>>::empty()) == Seq::<(Seq<char>, RuleModel)>::empty(),
        direct_rule(Seq::<(Seq<char>, RuleModel)>::empty(), host, port, scheme) is None,
{
}

/// A rule of the list from position `i` on covers a request.
pub open spec fn some_rule_covers(
    rules: Seq<(Seq<char>, RuleModel)>,
    host: Seq<char>,
    port: Option<u16>,
    scheme: Option<Seq<char>>,
    i: int,
) -> bool {
    exists|k: int| i <= k < rules.len() && covers(#[trigger] rules[k].1, host, port, scheme)
}

/// A request goes direct exactly where its host has a name and some rule
/// covers it.
pub proof fn bypassed_where_some_rule_covers(
    rules: Seq<(Seq<char>, RuleModel)>,
    host: Seq<char>,
    port: Option<u16>,
    scheme: Option<Seq<char>>,
)
    ensures
        direct_rule(rules, host, port, scheme) is Some <==> normal_host(host).len() > 0
            && some_rule_covers(rules, normal_host(host), port, scheme, 0),
{
    lemma_first_cover(rules, normal_host(host), port, scheme, 0);
}

proof fn lemma_first_cover(
    rules: Seq<(Seq<char>, RuleModel)>,
    host: Seq<char>,
    port: Option<u16>,
    scheme: Option<Seq<char>>,
    i: int,
)
    requires
        0 <= i <= rules.len(),
    ensures
        first_cover(rules, host, port, scheme, i) is Some <==> some_rule_covers(
            rules,
            host,
            port,
            scheme,
            i,
        ),
        first_cover(rules, host, port, scheme, i) matches Some(text) ==> exists|k: int|
            i <= k < rules.len() && #[trigger] rules[k].0 == text && covers(
                rules[k].1,
                host,
                port,
                scheme,
            ) && forall|m: int|
                i <= m < k ==> !covers(#[trigger] rules[m].1, host, port, scheme),
    decreases rules.len() - i,
{
    if i < rules.len() {
        if covers(rules[i].1, host, port, scheme) {
            assert(rules[i].0 == rules[i].0);
        } else {
            lemma_first_cover(rules, host, port, scheme, i + 1);
            if let Some(text) = first_cover(rules, host, port, scheme, i + 1) {
                let k = choose|k: int|
                    i + 1 <= k < rules.len() && #[trigger] rules[k].0 == text && covers(
                        rules[k].1,
                        host,
                        port,
                        scheme,
                    ) && forall|m: int|
                        i + 1 <= m < k ==> !covers(#[trigger] rules[m].1, host, port, scheme);
                assert(rules[k].0 == text);
                assert forall|m: int| i <= m < k implies !covers(
                    #[trigger] rules[m].1,
                    host,
                    port,
                    scheme,
                ) by {}
            }
            if some_rule_covers(rules, host, port, scheme, i) {
                let k = choose|k: int|
                    i <= k < rules.len() && covers(#[trigger] rules[k].1, host, port, scheme);
                assert(i + 1 <= k);
            }
        }
    }
}

/// The rule that is named is the first of the list that covers the request.
pub proof fn first_covering_rule_is_named(
    rules: Seq<(Seq<char>, RuleModel)>,
    host: Seq<char>,
    port: Option<u16>,
    scheme: Option<Seq<char>>,
)
    ensures
        direct_rule(rules, host, port, scheme) matches Some(text) ==> exists|k: int|
            0 <= k < rules.len() && #[trigger] rules[k].0 == text && covers(
                rules[k].1,
                normal_host(host),
                port,
                scheme,
            ) && forall|m: int|
                0 <= m < k ==> !covers(#[trigger] rules[m].1, normal_host(host), port, scheme),
{
    lemma_first_cover(rules, normal_host(host), port, scheme, 0);
}

/// The rule that is named is named as it was typed, without the white space
/// around it.
pub proof fn named_rule_is_as_typed(
    list: Seq<Seq<char>>,
    host: Seq<char>,
    port: Option<u16>,
    scheme: Option<Seq<char>>,
)
    ensures
        direct_rule(loaded(list), host, port, scheme) matches Some(text) ==> exists|k: int|
            0 <= k < list.len() && trimmed(#[trigger] list[k]) == text && parsed(list[k]) is Ok,
{
    let rules = loaded(list);
    if let Some(text) = direct_rule(rules, host, port, scheme) {
        first_covering_rule_is_named(rules, host, port, scheme);
        let k = choose|k: int|
            0 <= k < rules.len() && #[trigger] rules[k].0 == text && covers(
                rules[k].1,
                normal_host(host),
                port,
                scheme,
            ) && forall|m: int|
                0 <= m < k ==> !covers(#[trigger] rules[m].1, normal_host(host), port, scheme);
        lemma_loaded_from(list, k);
    }
}

pub proof fn lemma_loaded_from(list: Seq<Seq<char>>, k: int)
    requires
        0 <= k < loaded(list).len(),
    ensures
        exists|i: int|
            0 <= i < list.len() && trimmed(#[trigger] list[i]) == loaded(list)[k].0 && parsed(
                list[i],
            ) == Ok::<_, BypassRuleError>(loaded(list)[k].1),
    decreases list.len(),
{
    let shorter = list.drop_last();
    let n = list.len() - 1;
    if k < loaded(shorter).len() {
        lemma_loaded_from(shorter, k);
        let i = choose|i: int|
            0 <= i < shorter.len() && trimmed(#[trigger] shorter[i]) == loaded(shorter)[k].0
                && parsed(shorter[i]) == Ok::<_, BypassRuleError>(loaded(shorter)[k].1);
        assert(list[i] == shorter[i]);
    } else {
        assert(list[n] == list.last());
    }
}

/// To add rules behind a list takes no request back to the proxy, and where a
/// rule of the list is named it stays the one.
pub proof fn more_rules_bypass_more(
    rules: Seq<(Seq<char>, RuleModel)>,
    more: Seq<(Seq<char>, RuleModel)>,
    host: Seq<char>,
    port: Option<u16>,
    scheme: Option<Seq<char>>,
)
    requires
        direct_rule(rules, host, port, scheme) is Some,
    ensures
        direct_rule(rules + more, host, port, scheme) == direct_rule(rules, host, port, scheme),
{
    lemma_cover_of_longer(rules, more, normal_host(host), port, scheme, 0);
}

proof fn lemma_cover_of_longer(
    rules: Seq<(Seq<char>, RuleModel)>,
    more: Seq<(Seq<char>, RuleModel)>,
    host: Seq<char>,
    port: Option<u16>,
    scheme: Option<Seq<char>>,
    i: int,
)
    requires
        0 <= i <= rules.len(),
        first_cover(rules, host, port, scheme, i) is Some,
    ensures
        first_cover(rules + more, host, port, scheme, i) == first_cover(
            rules,
            host,
            port,
            scheme,
            i,
        ),
    decreases rules.len() - i,
{
    if i < rules.len() {
        assert((rules + more)[i] == rules[i]);
        if !covers(rules[i].1, host, port, scheme) {
            lemma_cover_of_longer(rules, more, host, port, scheme, i + 1);
        }
    }
}

} // verus!
