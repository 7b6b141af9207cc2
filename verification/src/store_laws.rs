//! Laws of the lists that are stored, and of the reports on them.

use crate::error::BypassRuleError;
use crate::host::{host_port, normal_host};
use crate::laws::{bypassed_where_some_rule_covers, lemma_loaded_from, some_rule_covers};
use crate::matcher::{covers, direct_rule, loaded};
use crate::parse::parsed;
use crate::report::{canonical_list, first_bad, report_of, writes};
use crate::reread::{canonical_form_is_settled, canonical_form_reads_back, rereadable, settled};
use crate::rule::{canonical_text, valid_rule, RuleModel};
use crate::target::{requested, TargetModel};
use crate::text::trimmed;
use vstd::prelude::*;

verus! {

// ---------------------------------------------------------------- what is stored

/// A text of the list writes a rule with this canonical form.
pub open spec fn writes_form(list: Seq<Seq<char>>, form: Seq<char>) -> bool {
    exists|rule: RuleModel| #[trigger] writes(list, rule) && canonical_text(rule) == form
}

proof fn lemma_writes_more(list: Seq<Seq<char>>, i: int, rule: RuleModel)
    requires
        0 <= i < list.len(),
        parsed(list[i]) == Ok::<_, BypassRuleError>(rule),
    ensures
        writes(list, rule),
{
}

proof fn lemma_writes_where(list: Seq<Seq<char>>, rule: RuleModel) -> (i: int)
    requires
        writes(list, rule),
    ensures
        0 <= i < list.len(),
        parsed(list[i]) == Ok::<_, BypassRuleError>(rule),
{
    choose|i: int|
        0 <= i < list.len() && parsed(#[trigger] list[i]) == Ok::<_, BypassRuleError>(rule)
}

proof fn lemma_writes_last(list: Seq<Seq<char>>, rule: RuleModel)
    requires
        list.len() > 0,
    ensures
        writes(list, rule) <==> writes(list.drop_last(), rule) || parsed(list.last()) == Ok::<
            _,
            BypassRuleError,
        >(rule),
{
    let n = list.len() - 1;
    let before = list.drop_last();
    assert(list[n] == list.last());
    if writes(list, rule) {
        let i = lemma_writes_where(list, rule);
        if i < n {
            assert(before[i] == list[i]);
            lemma_writes_more(before, i, rule);
        }
    }
    if writes(before, rule) {
        let i = lemma_writes_where(before, rule);
        assert(list[i] == before[i]);
        lemma_writes_more(list, i, rule);
    }
    if parsed(list.last()) == Ok::<_, BypassRuleError>(rule) {
        lemma_writes_more(list, n, rule);
    }
}

/// A stored list holds the canonical form of each rule that the list writes,
/// and nothing else.
pub proof fn stored_list_holds_the_rules(list: Seq<Seq<char>>, form: Seq<char>)
    ensures
        canonical_list(list).contains(form) <==> writes_form(list, form),
    decreases list.len(),
{
    if list.len() > 0 {
        let before = list.drop_last();
        let stored = canonical_list(before);
        stored_list_holds_the_rules(before, form);
        if writes_form(list, form) {
            let rule = choose|rule: RuleModel|
                #[trigger] writes(list, rule) && canonical_text(rule) == form;
            lemma_writes_last(list, rule);
            if writes(before, rule) {
                assert(writes_form(before, form));
            }
        }
        if writes_form(before, form) {
            let rule = choose|rule: RuleModel|
                #[trigger] writes(before, rule) && canonical_text(rule) == form;
            lemma_writes_last(list, rule);
        }
        match parsed(list.last()) {
            Ok(rule) => {
                lemma_writes_last(list, rule);
                let c = canonical_text(rule);
                let all = stored.push(c);
                assert(all.last() == c);
                assert(all.contains(c));
                if stored.contains(form) {
                    let k = choose|k: int| 0 <= k < stored.len() && stored[k] == form;
                    assert(all[k] == form);
                }
                if all.contains(form) && form != c {
                    let k = choose|k: int| 0 <= k < all.len() && all[k] == form;
                    assert(stored[k] == form);
                }
            },
            Err(_) => {},
        }
    }
}

/// A stored list holds nothing twice.
pub proof fn stored_list_has_no_duplicates(list: Seq<Seq<char>>)
    ensures
        canonical_list(list).no_duplicates(),
    decreases list.len(),
{
    if list.len() > 0 {
        stored_list_has_no_duplicates(list.drop_last());
    }
}

/// Two spellings of one rule are stored once.
pub proof fn spellings_of_one_rule_are_stored_once(
    list: Seq<Seq<char>>,
    a: Seq<char>,
    b: Seq<char>,
)
    requires
        parsed(a) is Ok,
        parsed(a) == parsed(b),
    ensures
        canonical_list(list.push(a).push(b)) == canonical_list(list.push(a)),
{
    let one = list.push(a);
    let two = one.push(b);
    assert(two.drop_last() =~= one);
    assert(two.last() == b);
    assert(one.drop_last() =~= list);
    assert(one.last() == a);
    let rule = parsed(a)->Ok_0;
    lemma_writes_last(one, rule);
    assert(writes_form(one, canonical_text(rule)));
    stored_list_holds_the_rules(one, canonical_text(rule));
}

/// A list is refused exactly where some text of it writes no rule.
pub proof fn list_is_refused_for_its_first_bad_rule(list: Seq<Seq<char>>)
    ensures
        first_bad(list, 0) is None <==> forall|i: int|
            0 <= i < list.len() ==> parsed(#[trigger] list[i]) is Ok,
        first_bad(list, 0) matches Some((text, error)) ==> exists|k: int|
            0 <= k < list.len() && trimmed(#[trigger] list[k]) == text && parsed(list[k]) == Err::<
                RuleModel,
                _,
            >(error) && forall|m: int| 0 <= m < k ==> parsed(#[trigger] list[m]) is Ok,
{
    lemma_first_bad(list, 0);
}

proof fn lemma_first_bad(list: Seq<Seq<char>>, i: int)
    requires
        0 <= i <= list.len(),
    ensures
        first_bad(list, i) is None <==> forall|k: int|
            i <= k < list.len() ==> parsed(#[trigger] list[k]) is Ok,
        first_bad(list, i) matches Some((text, error)) ==> exists|k: int|
            i <= k < list.len() && trimmed(#[trigger] list[k]) == text && parsed(list[k]) == Err::<
                RuleModel,
                _,
            >(error) && forall|m: int| i <= m < k ==> parsed(#[trigger] list[m]) is Ok,
    decreases list.len() - i,
{
    if i < list.len() {
        if parsed(list[i]) is Ok {
            lemma_first_bad(list, i + 1);
            if let Some((text, error)) = first_bad(list, i + 1) {
                let k = choose|k: int|
                    i + 1 <= k < list.len() && trimmed(#[trigger] list[k]) == text && parsed(
                        list[k],
                    ) == Err::<RuleModel, _>(error) && forall|m: int|
                        i + 1 <= m < k ==> parsed(#[trigger] list[m]) is Ok;
                assert(trimmed(list[k]) == text);
                assert forall|m: int| i <= m < k implies parsed(#[trigger] list[m]) is Ok by {}
            }
        } else {
            assert(trimmed(list[i]) == trimmed(list[i]));
        }
    }
}

// ---------------------------------------------------------------- storing again

/// The canonical form of a rule that the list writes is stored, and it is read
/// as that rule.
pub proof fn stored_rule_reads_back(list: Seq<Seq<char>>, rule: RuleModel)
    requires
        writes(list, rule),
        valid_rule(rule),
        rereadable(rule),
    ensures
        canonical_list(list).contains(canonical_text(rule)),
        parsed(canonical_text(rule)) == Ok::<_, BypassRuleError>(rule),
{
    assert(writes_form(list, canonical_text(rule)));
    stored_list_holds_the_rules(list, canonical_text(rule));
    canonical_form_reads_back(rule);
}

/// The canonical form of every rule that the list writes is the canonical form
/// of what it is read as.
pub open spec fn all_settled(list: Seq<Seq<char>>) -> bool {
    forall|rule: RuleModel| #[trigger] writes(list, rule) ==> settled(rule)
}

/// The canonical form of every rule that the list writes is read as the rule.
pub open spec fn all_read_back(list: Seq<Seq<char>>) -> bool {
    forall|rule: RuleModel| #[trigger]
        writes(list, rule) ==> parsed(canonical_text(rule)) == Ok::<_, BypassRuleError>(rule)
}

/// A list of valid rules is settled where each of them is read back or is a
/// domain, and is read back where each of them is.
pub proof fn valid_lists_are_settled(list: Seq<Seq<char>>)
    requires
        forall|rule: RuleModel| #[trigger] writes(list, rule) ==> valid_rule(rule),
        forall|rule: RuleModel| #[trigger]
            writes(list, rule) ==> rereadable(rule) || rule.kind is Domain,
    ensures
        all_settled(list),
        (forall|rule: RuleModel| #[trigger] writes(list, rule) ==> rereadable(rule))
            ==> all_read_back(list),
{
    assert forall|rule: RuleModel| #[trigger] writes(list, rule) implies settled(rule) by {
        canonical_form_is_settled(rule);
    }
    if forall|rule: RuleModel| #[trigger] writes(list, rule) ==> rereadable(rule) {
        assert forall|rule: RuleModel| #[trigger] writes(list, rule) implies parsed(
            canonical_text(rule),
        ) == Ok::<_, BypassRuleError>(rule) by {
            canonical_form_reads_back(rule);
        }
    }
}

/// Every text of a stored list writes a rule, of which the text is the
/// canonical form: a bad rule is never stored.
pub proof fn stored_rules_are_rules(list: Seq<Seq<char>>, k: int)
    requires
        all_settled(list),
        0 <= k < canonical_list(list).len(),
    ensures
        parsed(canonical_list(list)[k]) matches Ok(rule) && canonical_text(rule)
            == canonical_list(list)[k],
{
    let form = canonical_list(list)[k];
    stored_list_holds_the_rules(list, form);
    assert(canonical_list(list).contains(form));
    let rule = choose|rule: RuleModel|
        #[trigger] writes(list, rule) && canonical_text(rule) == form;
    assert(settled(rule));
}

proof fn lemma_stored_already(s: Seq<Seq<char>>)
    requires
        s.no_duplicates(),
        forall|k: int|
            0 <= k < s.len() ==> parsed(#[trigger] s[k]) is Ok && canonical_text(parsed(s[k])->Ok_0)
                == s[k],
    ensures
        canonical_list(s) == s,
    decreases s.len(),
{
    if s.len() > 0 {
        let before = s.drop_last();
        assert forall|k: int| 0 <= k < before.len() implies parsed(#[trigger] before[k]) is Ok
            && canonical_text(parsed(before[k])->Ok_0) == before[k] by {
            assert(before[k] == s[k]);
        }
        lemma_stored_already(before);
        let n = s.len() - 1;
        assert(s[n] == s.last());
        assert(!before.contains(s.last())) by {
            if before.contains(s.last()) {
                let k = choose|k: int| 0 <= k < before.len() && before[k] == s.last();
                assert(s[k] == s[n]);
            }
        }
        assert(before.push(s.last()) =~= s);
    }
}

/// To store a stored list again changes nothing.
pub proof fn stored_list_is_stored_as_it_is(list: Seq<Seq<char>>)
    requires
        all_settled(list),
    ensures
        first_bad(canonical_list(list), 0) is None,
        canonical_list(canonical_list(list)) == canonical_list(list),
{
    let s = canonical_list(list);
    stored_list_has_no_duplicates(list);
    assert forall|k: int| 0 <= k < s.len() implies parsed(#[trigger] s[k]) is Ok && canonical_text(
        parsed(s[k])->Ok_0,
    ) == s[k] by {
        stored_rules_are_rules(list, k);
    }
    lemma_stored_already(s);
    list_is_refused_for_its_first_bad_rule(s);
}

proof fn lemma_loaded_writes(list: Seq<Seq<char>>, rule: RuleModel)
    requires
        writes(list, rule),
    ensures
        exists|k: int| 0 <= k < loaded(list).len() && #[trigger] loaded(list)[k].1 == rule,
    decreases list.len(),
{
    let before = list.drop_last();
    let n = loaded(before).len() as int;
    lemma_writes_last(list, rule);
    if parsed(list.last()) == Ok::<_, BypassRuleError>(rule) {
        assert(loaded(list)[n].1 == rule);
    } else {
        lemma_loaded_writes(before, rule);
        let k = choose|k: int|
            0 <= k < loaded(before).len() && #[trigger] loaded(before)[k].1 == rule;
        assert(loaded(list)[k] == loaded(before)[k]);
    }
}

/// Some rule that the list writes covers a request.
pub open spec fn some_written_rule_covers(
    list: Seq<Seq<char>>,
    host: Seq<char>,
    port: Option<u16>,
    scheme: Option<Seq<char>>,
) -> bool {
    exists|rule: RuleModel| #[trigger] writes(list, rule) && covers(rule, host, port, scheme)
}

/// A list sends a request direct exactly where its host has a name and some
/// rule that the list writes covers it.
pub proof fn list_bypasses_what_its_rules_cover(
    list: Seq<Seq<char>>,
    host: Seq<char>,
    port: Option<u16>,
    scheme: Option<Seq<char>>,
)
    ensures
        direct_rule(loaded(list), host, port, scheme) is Some <==> normal_host(host).len() > 0
            && some_written_rule_covers(list, normal_host(host), port, scheme),
{
    let rules = loaded(list);
    let name = normal_host(host);
    bypassed_where_some_rule_covers(rules, host, port, scheme);
    if some_rule_covers(rules, name, port, scheme, 0) {
        let k = choose|k: int|
            0 <= k < rules.len() && covers(#[trigger] rules[k].1, name, port, scheme);
        lemma_loaded_from(list, k);
        assert(writes(list, rules[k].1));
    }
    if some_written_rule_covers(list, name, port, scheme) {
        let rule = choose|rule: RuleModel|
            #[trigger] writes(list, rule) && covers(rule, name, port, scheme);
        lemma_loaded_writes(list, rule);
        let k = choose|k: int| 0 <= k < rules.len() && #[trigger] rules[k].1 == rule;
        assert(covers(rules[k].1, name, port, scheme));
    }
}

/// A stored list sends the same requests direct as the list it was made from.
pub proof fn stored_list_bypasses_the_same(
    list: Seq<Seq<char>>,
    host: Seq<char>,
    port: Option<u16>,
    scheme: Option<Seq<char>>,
)
    requires
        all_read_back(list),
    ensures
        direct_rule(loaded(canonical_list(list)), host, port, scheme) is Some <==> direct_rule(
            loaded(list),
            host,
            port,
            scheme,
        ) is Some,
{
    let s = canonical_list(list);
    let name = normal_host(host);
    list_bypasses_what_its_rules_cover(list, host, port, scheme);
    list_bypasses_what_its_rules_cover(s, host, port, scheme);
    if some_written_rule_covers(list, name, port, scheme) {
        let rule = choose|rule: RuleModel|
            #[trigger] writes(list, rule) && covers(rule, name, port, scheme);
        let form = canonical_text(rule);
        assert(writes_form(list, form));
        stored_list_holds_the_rules(list, form);
        let k = choose|k: int| 0 <= k < s.len() && s[k] == form;
        assert(parsed(s[k]) == Ok::<_, BypassRuleError>(rule));
        assert(writes(s, rule));
    }
    if some_written_rule_covers(s, name, port, scheme) {
        let rule = choose|rule: RuleModel|
            #[trigger] writes(s, rule) && covers(rule, name, port, scheme);
        let k = choose|k: int|
            0 <= k < s.len() && parsed(#[trigger] s[k]) == Ok::<_, BypassRuleError>(rule);
        assert(s.contains(s[k]));
        stored_list_holds_the_rules(list, s[k]);
        let written = choose|written: RuleModel|
            #[trigger] writes(list, written) && canonical_text(written) == s[k];
        assert(written == rule);
    }
}

// ---------------------------------------------------------------- reports

/// A list may be stored exactly where no report on it has an error.
pub proof fn reports_agree_with_validation(list: Seq<Seq<char>>, target: Option<TargetModel>)
    ensures
        first_bad(list, 0) is None <==> forall|i: int|
            0 <= i < list.len() ==> report_of(#[trigger] list[i], target).error_code is None,
{
    list_is_refused_for_its_first_bad_rule(list);
    if forall|i: int|
        0 <= i < list.len() ==> report_of(#[trigger] list[i], target).error_code is None {
        assert forall|i: int| 0 <= i < list.len() implies parsed(#[trigger] list[i]) is Ok by {
            assert(report_of(list[i], target).error_code is None);
        }
    }
}

/// Some report on a list says that the target goes direct exactly where the
/// list sends it direct. The host of the target is the normal form of the host
/// that is asked for.
pub proof fn reports_agree_with_the_list(
    list: Seq<Seq<char>>,
    target: TargetModel,
    host: Seq<char>,
)
    requires
        target.host.len() > 0,
        target.host == normal_host(host),
    ensures
        (exists|i: int|
            0 <= i < list.len() && report_of(#[trigger] list[i], Some(target)).matches_target
                == Some(true)) <==> direct_rule(
            loaded(list),
            host,
            target.port,
            target.scheme,
        ) is Some,
{
    list_bypasses_what_its_rules_cover(list, host, target.port, target.scheme);
    if exists|i: int|
        0 <= i < list.len() && report_of(#[trigger] list[i], Some(target)).matches_target == Some(
            true,
        ) {
        let i = choose|i: int|
            0 <= i < list.len() && report_of(#[trigger] list[i], Some(target)).matches_target
                == Some(true);
        let rule = parsed(list[i])->Ok_0;
        assert(parsed(list[i]) == Ok::<_, BypassRuleError>(rule));
        assert(writes(list, rule));
    }
    if some_written_rule_covers(list, target.host, target.port, target.scheme) {
        let rule = choose|rule: RuleModel|
            #[trigger] writes(list, rule) && covers(rule, target.host, target.port, target.scheme);
        let i = choose|i: int|
            0 <= i < list.len() && parsed(#[trigger] list[i]) == Ok::<_, BypassRuleError>(rule);
        assert(report_of(list[i], Some(target)).matches_target == Some(true));
    }
}

/// A report answers what a list of that one rule would do with the target.
pub proof fn report_answers_for_its_rule(raw: Seq<char>, target: TargetModel, host: Seq<char>)
    requires
        target.host.len() > 0,
        target.host == normal_host(host),
        parsed(raw) is Ok,
    ensures
        report_of(raw, Some(target)).matches_target == Some(
            direct_rule(loaded(seq![raw]), host, target.port, target.scheme) is Some,
        ),
{
    let one = seq![raw];
    reports_agree_with_the_list(one, target, host);
    assert(one[0] == raw);
    let answer = report_of(raw, Some(target)).matches_target;
    assert(answer is Some);
    if answer == Some(true) {
        assert(report_of(one[0], Some(target)).matches_target == Some(true));
    }
}

/// A target that a text writes has a host, in the normal form of the host that
/// stands in the text.
pub proof fn target_host_is_normal(scheme: Option<Seq<char>>, s: Seq<char>)
    ensures
        requested(scheme, s) matches Some(target) ==> {
            &&& target.host.len() > 0
            &&& host_port(s) matches Ok((host, _)) && target.host == normal_host(host)
        },
{
}

} // verus!
