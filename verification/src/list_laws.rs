//! Laws of lists: one text at a time, and one list behind another.

use crate::error::{error_code, BypassRuleError};
use crate::matcher::{covers, direct_rule, dropped, first_cover, loaded};
use crate::host::normal_host;
use crate::parse::parsed;
use crate::report::{canonical_list, report_of, reports_of};
use crate::rule::{canonical_text, shape_name, KindModel, RuleModel};
use crate::target::TargetModel;
use crate::text::trimmed;
use vstd::prelude::*;

verus! {

// ---------------------------------------------------------------- loading

/// A list of one text loads the rule that the text writes, under the text
/// without the white space around it, or drops the text with the reason.
pub proof fn one_text_loads_one_rule(raw: Seq<char>)
    ensures
        match parsed(raw) {
            Ok(rule) => loaded(seq![raw]) == seq![(trimmed(raw), rule)] && dropped(seq![raw]).len()
                == 0,
            Err(e) => loaded(seq![raw]).len() == 0 && dropped(seq![raw]) == seq![(raw, e)],
        },
{
    let one = seq![raw];
    reveal_with_fuel(loaded, 2);
    reveal_with_fuel(dropped, 2);
    assert(one.drop_last() =~= Seq::<Seq<char>>::empty());
    assert(one.last() == raw);
    match parsed(raw) {
        Ok(rule) => {
            assert(loaded(one) =~= seq![(trimmed(raw), rule)]);
        },
        Err(e) => {
            assert(dropped(one) =~= seq![(raw, e)]);
        },
    }
}

/// What is dropped of two lists put together is what is dropped of both.
pub proof fn lists_drop_in_order(a: Seq<Seq<char>>, b: Seq<Seq<char>>)
    ensures
        dropped(a + b) == dropped(a) + dropped(b),
    decreases b.len(),
{
    if b.len() == 0 {
        assert(a + b =~= a);
        assert(dropped(a) + dropped(b) =~= dropped(a));
    } else {
        let c = a + b;
        assert(c.drop_last() =~= a + b.drop_last());
        assert(c.last() == b.last());
        lists_drop_in_order(a, b.drop_last());
        assert(dropped(c) =~= dropped(a) + dropped(b));
    }
}

// ---------------------------------------------------------------- deciding

proof fn lemma_first_cover_later(
    a: Seq<(Seq<char>, RuleModel)>,
    b: Seq<(Seq<char>, RuleModel)>,
    host: Seq<char>,
    port: Option<u16>,
    scheme: Option<Seq<char>>,
    i: int,
)
    requires
        0 <= i <= b.len(),
    ensures
        first_cover(a + b, host, port, scheme, a.len() + i) == first_cover(
            b,
            host,
            port,
            scheme,
            i,
        ),
    decreases b.len() - i,
{
    if i < b.len() {
        assert((a + b)[a.len() + i] == b[i]);
        lemma_first_cover_later(a, b, host, port, scheme, i + 1);
    }
}

proof fn lemma_first_cover_joined(
    a: Seq<(Seq<char>, RuleModel)>,
    b: Seq<(Seq<char>, RuleModel)>,
    host: Seq<char>,
    port: Option<u16>,
    scheme: Option<Seq<char>>,
    i: int,
)
    requires
        0 <= i <= a.len(),
    ensures
        first_cover(a + b, host, port, scheme, i) == (if first_cover(
            a,
            host,
            port,
            scheme,
            i,
        ) is Some {
            first_cover(a, host, port, scheme, i)
        } else {
            first_cover(b, host, port, scheme, 0)
        }),
    decreases a.len() - i,
{
    if i < a.len() {
        assert((a + b)[i] == a[i]);
        lemma_first_cover_joined(a, b, host, port, scheme, i + 1);
    } else {
        lemma_first_cover_later(a, b, host, port, scheme, 0);
    }
}

/// Of two lists put together the first is asked first, and the second where the
/// first sends nothing direct.
pub proof fn earlier_rules_are_asked_first(
    a: Seq<(Seq<char>, RuleModel)>,
    b: Seq<(Seq<char>, RuleModel)>,
    host: Seq<char>,
    port: Option<u16>,
    scheme: Option<Seq<char>>,
)
    ensures
        direct_rule(a + b, host, port, scheme) == (if direct_rule(a, host, port, scheme) is Some {
            direct_rule(a, host, port, scheme)
        } else {
            direct_rule(b, host, port, scheme)
        }),
{
    lemma_first_cover_joined(a, b, normal_host(host), port, scheme, 0);
}

// ---------------------------------------------------------------- storing

/// A list of one text stores the canonical form of the rule that it writes.
pub proof fn one_text_stores_one_form(raw: Seq<char>)
    ensures
        match parsed(raw) {
            Ok(rule) => canonical_list(seq![raw]) == seq![canonical_text(rule)],
            Err(_) => canonical_list(seq![raw]).len() == 0,
        },
{
    let one = seq![raw];
    reveal_with_fuel(canonical_list, 2);
    assert(one.drop_last() =~= Seq::<Seq<char>>::empty());
    assert(one.last() == raw);
    if let Ok(rule) = parsed(raw) {
        assert(canonical_list(one) =~= seq![canonical_text(rule)]);
    }
}

/// More texts behind a list leave what it stores in place.
pub proof fn later_texts_are_stored_behind(a: Seq<Seq<char>>, b: Seq<Seq<char>>)
    ensures
        canonical_list(a).len() <= canonical_list(a + b).len(),
        canonical_list(a + b).take(canonical_list(a).len() as int) == canonical_list(a),
    decreases b.len(),
{
    let n = canonical_list(a).len() as int;
    if b.len() == 0 {
        assert(a + b =~= a);
        assert(canonical_list(a).take(n) =~= canonical_list(a));
    } else {
        let c = a + b;
        assert(c.drop_last() =~= a + b.drop_last());
        assert(c.last() == b.last());
        later_texts_are_stored_behind(a, b.drop_last());
        let before = canonical_list(c.drop_last());
        if let Ok(rule) = parsed(c.last()) {
            assert(before.push(canonical_text(rule)).take(n) =~= before.take(n));
        }
    }
}

// ---------------------------------------------------------------- reports

/// The report on a text tells what a list of that text would store, under the
/// text without the white space around it, or why the text is refused. Only on
/// a rule, and only where there is a target, does it say whether the rule covers
/// the target.
pub proof fn report_tells_what_is_stored(raw: Seq<char>, target: Option<TargetModel>)
    ensures
        ({
            let report = report_of(raw, target);
            &&& report.rule == trimmed(raw)
            &&& match parsed(raw) {
                Ok(rule) => {
                    &&& report.canonical == Some(canonical_list(seq![raw])[0])
                    &&& report.kind == Some(shape_name(rule.kind))
                    &&& report.error_code is None
                    &&& report.matches_target is Some <==> target is Some
                    &&& target matches Some(t) ==> report.matches_target == Some(
                        covers(rule, t.host, t.port, t.scheme),
                    )
                },
                Err(e) => {
                    &&& report.canonical is None
                    &&& report.kind is None
                    &&& report.error_code == Some(error_code(e))
                    &&& report.matches_target is None
                },
            }
        }),
{
    one_text_stores_one_form(raw);
}

/// Every text of a list has its report, in order.
pub proof fn every_text_has_its_report(
    a: Seq<Seq<char>>,
    raw: Seq<char>,
    b: Seq<Seq<char>>,
    target: Option<TargetModel>,
)
    ensures
        reports_of(a + seq![raw] + b, target).len() == a.len() + 1 + b.len(),
        reports_of(a + seq![raw] + b, target)[a.len() as int] == report_of(raw, target),
{
    assert((a + seq![raw] + b)[a.len() as int] == raw);
}

/// Each reason has a code of its own.
pub proof fn codes_tell_reasons_apart(a: BypassRuleError, b: BypassRuleError)
    requires
        error_code(a) == error_code(b),
    ensures
        a == b,
{
    reveal_strlit("BYPASS_RULE_EMPTY");
    reveal_strlit("BYPASS_RULE_INVALID_HOST");
    reveal_strlit("BYPASS_RULE_INVALID_PORT");
    reveal_strlit("BYPASS_RULE_INVALID_CIDR");
    reveal_strlit("BYPASS_RULE_INVALID_SCHEME");
    reveal_strlit("BYPASS_RULE_INVALID_REGEX");
    let x = error_code(a);
    let y = error_code(b);
    assert(x.len() == y.len());
    assert(x[x.len() - 1] == y[y.len() - 1]);
    assert(x[x.len() - 4] == y[y.len() - 4]);
}

/// The names of the shapes.
pub proof fn shapes_have_their_names(kind: KindModel)
    ensures
        (shape_name(kind) == "local"@) == (kind is Local),
        (shape_name(kind) == "loopback"@) == (kind is Loopback),
        (shape_name(kind) == "ip"@) == (kind is Ip),
        (shape_name(kind) == "cidr"@) == (kind is Cidr),
        (shape_name(kind) == "domain"@) == (kind is Domain),
        (shape_name(kind) == "subdomains"@) == (kind is Subdomains),
        (shape_name(kind) == "wildcard"@) == (kind is Wildcard),
        (shape_name(kind) == "regex"@) == (kind is Regex),
{
    reveal_strlit("local");
    reveal_strlit("loopback");
    reveal_strlit("ip");
    reveal_strlit("cidr");
    reveal_strlit("domain");
    reveal_strlit("subdomains");
    reveal_strlit("wildcard");
    reveal_strlit("regex");
    let name = shape_name(kind);
    if name.len() == 5 {
        assert(name[0] == if kind is Local { 'l' } else { 'r' });
    }
    if name.len() == 8 {
        assert(name[0] == if kind is Loopback { 'l' } else { 'w' });
    }
}

} // verus!
