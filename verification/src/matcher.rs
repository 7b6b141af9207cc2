//! A compiled list of rules.

use crate::address::{address, normal, normalize_ip, opt_address, parse_ip, Address, IpAddr};
use crate::error::BypassRuleError;
use crate::host::{normal_host, normalize_host};
use crate::parse::{parse_rule, parsed};
use crate::rule::{opt_str, rule_covers, valid_rule, BypassRule, RuleModel};
use crate::text::{trim, trimmed};
use std::sync::Arc;
use vstd::prelude::*;

verus! {

/// The texts of a list.
pub open spec fn texts(list: Seq<String>) -> Seq<Seq<char>> {
    Seq::new(list.len(), |i: int| list[i]@)
}

/// The rules that a list writes, each with its text; what writes no rule is
/// left out.
pub open spec fn loaded(list: Seq<Seq<char>>) -> Seq<(Seq<char>, RuleModel)>
    decreases list.len(),
{
    if list.len() == 0 {
        Seq::empty()
    } else {
        let before = loaded(list.drop_last());
        match parsed(list.last()) {
            Ok(rule) => before.push((trimmed(list.last()), rule)),
            Err(_) => before,
        }
    }
}

/// The texts of a list that write no rule, each with the reason.
pub open spec fn dropped(list: Seq<Seq<char>>) -> Seq<(Seq<char>, BypassRuleError)>
    decreases list.len(),
{
    if list.len() == 0 {
        Seq::empty()
    } else {
        let before = dropped(list.drop_last());
        match parsed(list.last()) {
            Ok(_) => before,
            Err(e) => before.push((list.last(), e)),
        }
    }
}

/// Texts with reasons, the texts as their characters.
pub open spec fn reason_list(list: Seq<(String, BypassRuleError)>) -> Seq<
    (Seq<char>, BypassRuleError),
> {
    Seq::new(list.len(), |i: int| (list[i].0@, list[i].1))
}

/// The address that a host writes, in its normal form.
pub open spec fn host_address(host: Seq<char>) -> Option<Address> {
    match address(host) {
        Some(a) => Some(normal(a)),
        None => None,
    }
}

/// A request that a rule covers, where the host is normalized.
pub open spec fn covers(
    rule: RuleModel,
    host: Seq<char>,
    port: Option<u16>,
    scheme: Option<Seq<char>>,
) -> bool {
    rule_covers(rule, host, host_address(host), port, scheme)
}

/// The text of the first rule from position `i` on that covers a request.
pub open spec fn first_cover(
    rules: Seq<(Seq<char>, RuleModel)>,
    host: Seq<char>,
    port: Option<u16>,
    scheme: Option<Seq<char>>,
    i: int,
) -> Option<Seq<char>>
    decreases rules.len() - i,
{
    if i < 0 || i >= rules.len() {
        None
    } else if covers(rules[i].1, host, port, scheme) {
        Some(rules[i].0)
    } else {
        first_cover(rules, host, port, scheme, i + 1)
    }
}

/// The text of the rule that sends a request direct, if one does.
pub open spec fn direct_rule(
    rules: Seq<(Seq<char>, RuleModel)>,
    host: Seq<char>,
    port: Option<u16>,
    scheme: Option<Seq<char>>,
) -> Option<Seq<char>> {
    if normal_host(host).len() == 0 {
        None
    } else {
        first_cover(rules, normal_host(host), port, scheme, 0)
    }
}

/// The address that a host writes, in its normal form.
pub fn read_host_address(host: &str) -> (r: Option<IpAddr>)
    ensures
        opt_address(r) == host_address(host@),
{
    match parse_ip(host) {
        Some(ip) => Some(normalize_ip(ip)),
        None => None,
    }
}

/// A compiled bypass list. Cloning is cheap — workers hand one to every
/// connection task.
pub struct BypassMatcher {
    rules: Arc<Vec<(String, BypassRule)>>,
}

impl View for BypassMatcher {
    type V = Seq<(Seq<char>, RuleModel)>;

    closed spec fn view(&self) -> Seq<(Seq<char>, RuleModel)> {
        rule_list(self.rules@)
    }
}

/// A list of rules with their texts, as their models.
pub open spec fn rule_list(rules: Seq<(String, BypassRule)>) -> Seq<(Seq<char>, RuleModel)> {
    Seq::new(rules.len(), |i: int| (rules[i].0@, rules[i].1@))
}

impl BypassMatcher {
    /// Invalid rules are dropped rather than failing the launch: a browser that
    /// starts with one bad rule beats a browser that won't start. The UI
    /// rejects them at entry, so reaching this is already unusual.
    pub fn new(rules: &[String]) -> (r: Self)
        ensures
            r@ == loaded(texts(rules@)),
            forall|i: int| 0 <= i < r@.len() ==> valid_rule((#[trigger] r@[i]).1),
    {
        Self::load(rules).0
    }

    /// Compiles a list, and hands back what was dropped from it and why.
    pub fn load(rules: &[String]) -> (r: (Self, Vec<(String, BypassRuleError)>))
        ensures
            r.0@ == loaded(texts(rules@)),
            forall|i: int| 0 <= i < r.0@.len() ==> valid_rule((#[trigger] r.0@[i]).1),
            reason_list(r.1@) == dropped(texts(rules@)),
    {
        let mut list: Vec<(String, BypassRule)> = Vec::new();
        let mut bad: Vec<(String, BypassRuleError)> = Vec::new();
        let mut i: usize = 0;
        while i < rules.len()
            invariant
                i <= rules@.len(),
                rule_list(list@) == loaded(texts(rules@).take(i as int)),
                reason_list(bad@) == dropped(texts(rules@).take(i as int)),
                forall|j: int| 0 <= j < list@.len() ==> valid_rule((#[trigger] list@[j]).1@),
            decreases rules@.len() - i,
        {
            let raw = rules[i].as_str();
            let ghost seen = texts(rules@).take(i + 1);
            assert(seen.drop_last() =~= texts(rules@).take(i as int));
            assert(seen.last() == raw@);
            match parse_rule(raw) {
                Ok(rule) => {
                    list.push((trim(raw).to_owned(), rule));
                    assert(rule_list(list@) =~= loaded(seen));
                },
                Err(e) => {
                    bad.push((raw.to_owned(), e));
                    assert(reason_list(bad@) =~= dropped(seen));
                },
            }
            i += 1;
        }
        assert(texts(rules@).take(rules@.len() as int) =~= texts(rules@));
        (BypassMatcher { rules: Arc::new(list) }, bad)
    }

    /// Whether the list holds no rule.
    pub fn is_empty(&self) -> (r: bool)
        ensures
            r == (self@.len() == 0),
    {
        self.rules.len() == 0
    }

    /// The first rule that sends this request direct, if any. `port`/`scheme` are
    /// `None` when the caller genuinely cannot know them.
    pub fn matching_rule(&self, host: &str, port: Option<u16>, scheme: Option<&str>) -> (r: Option<
        &str,
    >)
        ensures
            opt_str(r) == direct_rule(self@, host@, port, opt_str(scheme)),
    {
        if self.rules.len() == 0 {
            return None;
        }
        let name = normalize_host(host);
        if name.as_str().is_empty() {
            return None;
        }
        let ip = read_host_address(name.as_str());
        let mut i: usize = 0;
        while i < self.rules.len()
            invariant
                i <= self.rules@.len(),
                name@ == normal_host(host@),
                name@.len() > 0,
                opt_address(ip) == host_address(name@),
                first_cover(self@, name@, port, opt_str(scheme), 0) == first_cover(
                    self@,
                    name@,
                    port,
                    opt_str(scheme),
                    i as int,
                ),
            decreases self.rules@.len() - i,
        {
            let entry = &self.rules[i];
            if entry.1.matches(name.as_str(), ip, port, scheme) {
                return Some(entry.0.as_str());
            }
            i += 1;
        }
        None
    }

    /// Whether some rule sends this request direct.
    pub fn should_bypass(&self, host: &str, port: Option<u16>, scheme: Option<&str>) -> (r: bool)
        ensures
            r == (direct_rule(self@, host@, port, opt_str(scheme)) is Some),
    {
        self.matching_rule(host, port, scheme).is_some()
    }
}

impl Clone for BypassMatcher {
    fn clone(&self) -> (r: Self)
        ensures
            r@ == self@,
    {
        BypassMatcher { rules: self.rules.clone() }
    }
}

impl Default for BypassMatcher {
    fn default() -> (r: Self)
        ensures
            r@ == Seq::<(Seq<char>, RuleModel)>::empty(),
    {
        BypassMatcher { rules: Arc::new(Vec::new()) }
    }
}

} // verus!
