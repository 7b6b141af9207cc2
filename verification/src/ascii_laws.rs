//! Laws of rules in ASCII: every one of them is valid, and what is stored of it
//! reads back.

use crate::address::{address, lemma_address_sized};
use crate::error::BypassRuleError;
use crate::host::{base_domain, ends_host, has_regex_meta, host_end, host_port, lemma_host_end};
use crate::matcher::{direct_rule, loaded};
use crate::number::lemma_unsigned;
use crate::parse::{
    authority_rule, host_kind, host_rule, lemma_host_splits, lemma_host_within, lowered_rule,
    parsed, range_kind, slashed,
};
use crate::report::{all_ascii, canonical_list, first_bad, writes};
use crate::reread::{
    canonical_form_reads_back, lemma_lowercased_already, lemma_written_edges, rereadable,
};
use crate::rule::{
    canonical_text, narrowed, scheme_ok, valid_kind, valid_rule, KindModel, RuleModel,
};
use crate::spelling_laws::lemma_trimmed_ascii;
use crate::store_laws::{
    all_read_back, all_settled, stored_list_bypasses_the_same, stored_list_is_stored_as_it_is,
    valid_lists_are_settled,
};
use crate::text::{
    find, find_text, lemma_find_from, lemma_find_text_from, lemma_leading_space, lemma_solid_len,
    trimmed,
};
use crate::unicode::{ascii_lower_char, ascii_lowered, ascii_upper, no_ascii_upper, white_space};
use vstd::prelude::*;
use vstd::utf8::is_ascii_chars;

verus! {

/// A text in ASCII without upper-case letters.
spec fn plain_text(s: Seq<char>) -> bool {
    is_ascii_chars(s) && no_ascii_upper(s)
}

proof fn lemma_plain_part(s: Seq<char>, from: int, to: int)
    requires
        plain_text(s),
        0 <= from <= to <= s.len(),
    ensures
        plain_text(s.subrange(from, to)),
{
    let t = s.subrange(from, to);
    assert forall|i: int| 0 <= i < t.len() implies '\0' <= #[trigger] t[i] <= '\u{7f}'
        && !ascii_upper(t[i]) by {
        assert(t[i] == s[from + i]);
    }
}

/// What a host stands for is valid.
proof fn lemma_host_kind(host: Seq<char>, is_url: bool)
    requires
        host.len() > 0,
        plain_text(host),
        forall|i: int| 0 <= i < host.len() ==> !ends_host(#[trigger] host[i], is_url),
    ensures
        host_kind(host) matches Ok(kind) ==> {
            &&& valid_kind(kind, is_url)
            &&& !(kind is Local) && !(kind is Loopback) && !(kind is Cidr)
            &&& kind matches KindModel::Domain(d) ==> address(d) is None
            &&& kind matches KindModel::Wildcard(p) ==> p == host
            &&& kind matches KindModel::Regex(source) ==> source == host && address(source) is None
                && has_regex_meta(source)
        },
{
    lemma_address_sized(host);
    let n = host.len() as int;
    if host.len() >= 1 {
        lemma_plain_part(host, 1, n);
        assert(host.subrange(1, n) =~= host.skip(1));
    }
    if host.len() >= 2 {
        lemma_plain_part(host, 2, n);
        assert(host.subrange(2, n) =~= host.skip(2));
    }
    if let Some(base) = base_domain(host) {
        assert(plain_text(base));
    }
}

/// The rule of a host and an optional port is valid and reads back.
proof fn lemma_host_rule(scheme: Option<Seq<char>>, s: Seq<char>)
    requires
        plain_text(s),
        scheme matches Some(t) ==> scheme_ok(t) && no_ascii_upper(t),
        scheme is None && s.len() > 0 ==> !white_space(s[0]),
        forall|i: int| 0 <= i < s.len() ==> !ends_host(#[trigger] s[i], scheme is Some),
    ensures
        host_rule(scheme, s) matches Ok(rule) ==> valid_rule(rule) && rereadable(rule),
{
    if let Ok(rule) = host_rule(scheme, s) {
        let is_url = scheme is Some;
        let (host, port) = host_port(s)->Ok_0;
        lemma_host_within(s);
        lemma_host_splits(s);
        assert forall|i: int| 0 <= i < host.len() implies !ends_host(#[trigger] host[i], is_url)
            && '\0' <= host[i] <= '\u{7f}' && !ascii_upper(host[i]) by {
            assert(s.contains(host[i]));
        }
        lemma_host_kind(host, is_url);
        assert(valid_rule(rule));
        if rule.kind is Wildcard || (rule.kind is Regex && narrowed(rule)) {
            lemma_written_edges(rule);
            lemma_lowercased_already(canonical_text(rule));
        }
    }
}

/// The rule of what follows a scheme is valid and reads back.
proof fn lemma_authority(scheme: Option<Seq<char>>, s: Seq<char>)
    requires
        plain_text(s),
        scheme matches Some(t) ==> scheme_ok(t) && no_ascii_upper(t),
        scheme is None && s.len() > 0 ==> !white_space(s[0]),
    ensures
        authority_rule(scheme, s) matches Ok(rule) ==> valid_rule(rule) && rereadable(rule),
{
    reveal(authority_rule);
    let is_url = scheme is Some;
    let i = find(s, '/');
    lemma_find_from(s, '/', 0);
    if i < s.len() {
        lemma_address_sized(s.take(i));
        lemma_unsigned(s.skip(i + 1), 255);
    }
    if range_kind(s) is None {
        lemma_host_end(s, is_url, 0);
        let e = host_end(s, is_url, 0);
        lemma_plain_part(s, 0, e);
        assert(s.subrange(0, e) =~= s.take(e));
        lemma_host_rule(scheme, s.take(e));
    }
}

/// Every rule that a text in ASCII writes is valid, and its canonical form is
/// read as the rule.
pub proof fn rules_in_ascii_read_back(raw: Seq<char>)
    requires
        is_ascii_chars(raw),
    ensures
        parsed(raw) matches Ok(rule) ==> valid_rule(rule) && rereadable(rule) && parsed(
            canonical_text(rule),
        ) == Ok::<_, BypassRuleError>(rule),
{
    if let Ok(rule) = parsed(raw) {
        let s = trimmed(raw);
        lemma_trimmed_ascii(raw);
        if !slashed(s) {
            let low = ascii_lowered(s);
            lemma_leading_space(raw, 0);
            lemma_solid_len(raw, raw.len() as int);
            assert(!white_space(s[0]));
            assert(low[0] == ascii_lower_char(s[0]));
            assert forall|i: int| 0 <= i < low.len() implies '\0' <= #[trigger] low[i] <= '\u{7f}'
                && !ascii_upper(low[i]) by {
                assert('\0' <= s[i] <= '\u{7f}');
            }
            lemma_lowered_rule(low);
        }
        canonical_form_reads_back(rule);
    }
}

proof fn lemma_lowered_rule(s: Seq<char>)
    requires
        plain_text(s),
        s.len() > 0,
        !white_space(s[0]),
    ensures
        lowered_rule(s) matches Ok(rule) ==> valid_rule(rule) && rereadable(rule),
{
    reveal_strlit("://");
    lemma_find_text_from(s, "://"@, 0);
    let i = find_text(s, "://"@);
    if i < s.len() {
        lemma_plain_part(s, 0, i);
        lemma_plain_part(s, i + 3, s.len() as int);
        assert(s.subrange(0, i) =~= s.take(i));
        assert(s.subrange(i + 3, s.len() as int) =~= s.skip(i + 3));
        if scheme_ok(s.take(i)) {
            lemma_authority(Some(s.take(i)), s.skip(i + 3));
        }
    } else {
        lemma_authority(None, s);
    }
}

/// What is stored of a list in ASCII holds no bad rule, is stored as it is when
/// it is stored again, and sends the same requests direct.
pub proof fn lists_in_ascii_are_stored_well(
    list: Seq<Seq<char>>,
    host: Seq<char>,
    port: Option<u16>,
    scheme: Option<Seq<char>>,
)
    requires
        all_ascii(list),
    ensures
        all_settled(list),
        all_read_back(list),
        first_bad(canonical_list(list), 0) is None,
        canonical_list(canonical_list(list)) == canonical_list(list),
        direct_rule(loaded(canonical_list(list)), host, port, scheme) is Some <==> direct_rule(
            loaded(list),
            host,
            port,
            scheme,
        ) is Some,
{
    assert forall|rule: RuleModel| #[trigger] writes(list, rule) implies valid_rule(rule)
        && rereadable(rule) by {
        let i = choose|i: int|
            0 <= i < list.len() && parsed(#[trigger] list[i]) == Ok::<_, BypassRuleError>(rule);
        rules_in_ascii_read_back(list[i]);
    }
    valid_lists_are_settled(list);
    stored_list_is_stored_as_it_is(list);
    stored_list_bypasses_the_same(list, host, port, scheme);
}

} // verus!
