//! What the editor of a list asks: whether each rule parses, what it covers,
//! and which list may be stored.

use crate::ascii_laws::lists_in_ascii_are_stored_well;
use crate::domain::opt_text;
use crate::error::{error_code, BypassRuleError};
use crate::matcher::{covers, read_host_address, texts};
use crate::parse::{parse_rule, parsed};
use crate::rule::{canonical_text, opt_str, shape_name, valid_rule, RuleModel};
use crate::target::{parse_target, target_of, target_view, TargetModel};
use crate::text::{same, trim, trimmed};
use vstd::prelude::*;
use vstd::utf8::is_ascii_chars;

verus! {

/// One rule as the UI sees it: whether it parsed, what shape it is, and — when
/// a test host was supplied — whether it would send that host direct.
#[derive(Debug)]
pub struct BypassRuleReport {
    pub rule: String,
    pub canonical: Option<String>,
    pub kind: Option<String>,
    pub error_code: Option<String>,
    pub matches_target: Option<bool>,
}

/// A report with texts as their characters.
#[verifier::ext_equal]
pub struct ReportModel {
    pub rule: Seq<char>,
    pub canonical: Option<Seq<char>>,
    pub kind: Option<Seq<char>>,
    pub error_code: Option<Seq<char>>,
    pub matches_target: Option<bool>,
}

impl View for BypassRuleReport {
    type V = ReportModel;

    open spec fn view(&self) -> ReportModel {
        ReportModel {
            rule: self.rule@,
            canonical: opt_text(self.canonical),
            kind: opt_text(self.kind),
            error_code: opt_text(self.error_code),
            matches_target: self.matches_target,
        }
    }
}

impl Clone for BypassRuleReport {
    fn clone(&self) -> (r: Self)
        ensures
            r == *self,
    {
        BypassRuleReport {
            rule: self.rule.clone(),
            canonical: self.canonical.clone(),
            kind: self.kind.clone(),
            error_code: self.error_code.clone(),
            matches_target: self.matches_target,
        }
    }
}

/// The report on one rule.
pub open spec fn report_of(raw: Seq<char>, target: Option<TargetModel>) -> ReportModel {
    match parsed(raw) {
        Ok(rule) => ReportModel {
            rule: trimmed(raw),
            canonical: Some(canonical_text(rule)),
            kind: Some(shape_name(rule.kind)),
            error_code: None,
            matches_target: match target {
                Some(t) => Some(covers(rule, t.host, t.port, t.scheme)),
                None => None,
            },
        },
        Err(e) => ReportModel {
            rule: trimmed(raw),
            canonical: None,
            kind: None,
            error_code: Some(error_code(e)),
            matches_target: None,
        },
    }
}

/// The reports on a list of rules.
pub open spec fn reports_of(list: Seq<Seq<char>>, target: Option<TargetModel>) -> Seq<ReportModel> {
    Seq::new(list.len(), |i: int| report_of(list[i], target))
}

/// The request that a text writes, if there is a text.
pub open spec fn opt_target(target: Option<Seq<char>>) -> Option<TargetModel> {
    match target {
        Some(t) => target_of(t),
        None => None,
    }
}

/// A list of reports as their models.
pub open spec fn report_list(reports: Seq<BypassRuleReport>) -> Seq<ReportModel> {
    Seq::new(reports.len(), |i: int| reports[i]@)
}

/// The report on one rule.
pub fn report_rule(raw: &str, target: &Option<(String, Option<u16>, Option<String>)>) -> (r:
    BypassRuleReport)
    ensures
        r@ == report_of(raw@, target_view(*target)),
{
    match parse_rule(raw) {
        Ok(rule) => {
            let matches_target = match target {
                Some((host, port, scheme)) => {
                    let ip = read_host_address(host.as_str());
                    let scheme = match scheme {
                        Some(s) => Some(s.as_str()),
                        None => None,
                    };
                    Some(rule.matches(host.as_str(), ip, *port, scheme))
                },
                None => None,
            };
            BypassRuleReport {
                rule: trim(raw).to_owned(),
                canonical: Some(rule.canonical()),
                kind: Some(rule.kind_name().to_owned()),
                error_code: None,
                matches_target,
            }
        },
        Err(e) => BypassRuleReport {
            rule: trim(raw).to_owned(),
            canonical: None,
            kind: None,
            error_code: Some(e.code().to_owned()),
            matches_target: None,
        },
    }
}

/// Parse `rules`, and if `target` is given, report which of them would bypass
/// it. `target` may be a bare host, a `host:port`, or a full URL.
pub fn report_rules(rules: &[String], target: Option<&str>) -> (r: Vec<BypassRuleReport>)
    ensures
        report_list(r@) == reports_of(texts(rules@), opt_target(opt_str(target))),
{
    let parsed_target = match target {
        Some(t) => parse_target(t),
        None => None,
    };
    let mut reports: Vec<BypassRuleReport> = Vec::new();
    let mut i: usize = 0;
    while i < rules.len()
        invariant
            i <= rules@.len(),
            reports@.len() == i,
            forall|j: int|
                0 <= j < i ==> (#[trigger] reports@[j])@ == report_of(
                    rules@[j]@,
                    target_view(parsed_target),
                ),
        decreases rules@.len() - i,
    {
        reports.push(report_rule(rules[i].as_str(), &parsed_target));
        i += 1;
    }
    assert(report_list(reports@) =~= reports_of(texts(rules@), target_view(parsed_target)));
    reports
}

/// Backs the bypass-list editor: tells it whether each rule parses, what shape
/// it is, and — when the user types a host to try — which rules would send it
/// direct. Read-only; it never touches stored state.
pub fn check_proxy_bypass_rules(rules: Vec<String>, target: Option<String>) -> (r: Vec<
    BypassRuleReport,
>)
    ensures
        report_list(r@) == reports_of(texts(rules@), opt_target(opt_text(target))),
{
    match &target {
        Some(t) => report_rules(rules.as_slice(), Some(t.as_str())),
        None => report_rules(rules.as_slice(), None),
    }
}

/// The canonical forms of the rules of a list, each once, in the order in
/// which they first come.
pub open spec fn canonical_list(list: Seq<Seq<char>>) -> Seq<Seq<char>>
    decreases list.len(),
{
    if list.len() == 0 {
        Seq::empty()
    } else {
        let before = canonical_list(list.drop_last());
        match parsed(list.last()) {
            Ok(rule) => if before.contains(canonical_text(rule)) {
                before
            } else {
                before.push(canonical_text(rule))
            },
            Err(_) => before,
        }
    }
}

/// The first text from position `i` on that writes no rule, and why.
pub open spec fn first_bad(list: Seq<Seq<char>>, i: int) -> Option<(Seq<char>, BypassRuleError)>
    decreases list.len() - i,
{
    if i < 0 || i >= list.len() {
        None
    } else {
        match parsed(list[i]) {
            Ok(_) => first_bad(list, i + 1),
            Err(e) => Some((trimmed(list[i]), e)),
        }
    }
}

/// A text of the list writes the rule.
pub open spec fn writes(list: Seq<Seq<char>>, rule: RuleModel) -> bool {
    exists|i: int|
        0 <= i < list.len() && parsed(#[trigger] list[i]) == Ok::<_, BypassRuleError>(rule)
}

/// A list of texts in ASCII.
pub open spec fn all_ascii(list: Seq<Seq<char>>) -> bool {
    forall|i: int| 0 <= i < list.len() ==> is_ascii_chars(#[trigger] list[i])
}

/// Whether a text stands in a list.
fn holds(list: &Vec<String>, text: &str) -> (r: bool)
    ensures
        r == texts(list@).contains(text@),
{
    let mut i: usize = 0;
    while i < list.len()
        invariant
            i <= list.len(),
            forall|j: int| 0 <= j < i ==> #[trigger] texts(list@)[j] != text@,
        decreases list.len() - i,
    {
        if same(list[i].as_str(), text) {
            assert(texts(list@)[i as int] == text@);
            return true;
        }
        i += 1;
    }
    false
}

/// Reject a list outright if any rule in it is unparsable, naming the first
/// offender. Used on every write path so a bad rule can never be stored.
pub fn validate_rules(rules: &[String]) -> (r: Result<Vec<String>, (String, BypassRuleError)>)
    ensures
        match r {
            Ok(list) => first_bad(texts(rules@), 0) is None && texts(list@) == canonical_list(
                texts(rules@),
            ),
            Err((offender, error)) => first_bad(texts(rules@), 0) == Some((offender@, error)),
        },
        r is Ok ==> forall|rule: RuleModel| #[trigger]
            writes(texts(rules@), rule) ==> valid_rule(rule),
        r matches Ok(list) ==> all_ascii(texts(rules@)) ==> first_bad(texts(list@), 0) is None
            && canonical_list(texts(list@)) == texts(list@),
{
    let mut list: Vec<String> = Vec::new();
    let mut i: usize = 0;
    while i < rules.len()
        invariant
            i <= rules@.len(),
            texts(list@) == canonical_list(texts(rules@).take(i as int)),
            first_bad(texts(rules@), 0) == first_bad(texts(rules@), i as int),
            forall|j: int|
                0 <= j < i ==> (parsed(#[trigger] texts(rules@)[j]) matches Ok(rule) && valid_rule(
                    rule,
                )),
        decreases rules@.len() - i,
    {
        let raw = rules[i].as_str();
        let ghost seen = texts(rules@).take(i + 1);
        assert(seen.drop_last() =~= texts(rules@).take(i as int));
        assert(seen.last() == raw@);
        assert(texts(rules@)[i as int] == raw@);
        match parse_rule(raw) {
            Ok(rule) => {
                let value = rule.canonical();
                if !holds(&list, value.as_str()) {
                    let ghost before = list@;
                    list.push(value);
                    assert(texts(list@) =~= texts(before).push(value@));
                }
            },
            Err(e) => {
                return Err((trim(raw).to_owned(), e));
            },
        }
        i += 1;
    }
    assert(texts(rules@).take(rules@.len() as int) =~= texts(rules@));
    proof {
        if all_ascii(texts(rules@)) {
            lists_in_ascii_are_stored_well(texts(rules@), Seq::empty(), None, None);
        }
    }
    Ok(list)
}

} // verus!
