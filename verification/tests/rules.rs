//! Rules, lists and reports as their users see them.

use proxy_bypass::{
    glob_match, parse_rule, report_rules, validate_rules, BypassMatcher, BypassRuleError,
};

fn matcher(rules: &[&str]) -> BypassMatcher {
    BypassMatcher::new(&rules.iter().map(|r| (*r).to_string()).collect::<Vec<_>>())
}

fn bypasses(rules: &[&str], host: &str) -> bool {
    matcher(rules).should_bypass(host, None, None)
}

#[test]
fn bare_domain_covers_the_apex_and_its_subdomains() {
    assert!(bypasses(&["example.com"], "example.com"));
    assert!(bypasses(&["example.com"], "www.example.com"));
    assert!(bypasses(&["example.com"], "a.b.example.com"));
}

#[test]
fn bare_domain_does_not_leak_to_lookalike_hosts() {
    // A rule that matched any of these would send an attacker-chosen host
    // direct, around the proxy.
    assert!(!bypasses(&["example.com"], "example.com.attacker.net"));
    assert!(!bypasses(&["example.com"], "notexample.com"));
    assert!(!bypasses(&["example.com"], "example-com"));
    assert!(!bypasses(&["example.com"], "myexample.community"));
}

#[test]
fn subdomain_only_forms_skip_the_apex() {
    for rule in ["*.example.com", ".example.com"] {
        assert!(bypasses(&[rule], "www.example.com"), "{rule}");
        assert!(!bypasses(&[rule], "example.com"), "{rule}");
        assert!(!bypasses(&[rule], "example.com.attacker.net"), "{rule}");
    }
}

#[test]
fn host_normalization_ignores_case_and_the_root_dot() {
    assert!(bypasses(&["Example.COM"], "WWW.example.com."));
    assert!(bypasses(&["example.com"], "WWW.EXAMPLE.COM"));
}

#[test]
fn wildcards_match_anywhere_in_the_host() {
    assert!(bypasses(&["*.corp.*"], "mail.corp.internal"));
    assert!(bypasses(
        &["staging-*.example.com"],
        "staging-7.example.com"
    ));
    assert!(!bypasses(&["staging-*.example.com"], "prod.example.com"));
    assert!(bypasses(&["10.0.0.?"], "10.0.0.7"));
    assert!(!bypasses(&["10.0.0.?"], "10.0.0.42"));
    // `?` is the glob here, not a query separator.
    assert_eq!(parse_rule("10.0.0.?").unwrap().kind_name(), "wildcard");
    // With a scheme it is a pasted URL, so the query goes.
    assert_eq!(
        parse_rule("https://example.com?q=1").unwrap().canonical(),
        "https://example.com"
    );
}

#[test]
fn ip_literals_match_exactly() {
    assert!(bypasses(&["192.168.1.5"], "192.168.1.5"));
    assert!(!bypasses(&["192.168.1.5"], "192.168.1.50"));
    assert!(bypasses(&["fd00::1"], "fd00::1"));
    assert!(bypasses(&["fd00::1"], "[fd00::1]"));
}

#[test]
fn cidr_rules_cover_their_range_only() {
    assert!(bypasses(&["10.0.0.0/8"], "10.255.1.1"));
    assert!(!bypasses(&["10.0.0.0/8"], "11.0.0.1"));
    assert!(bypasses(&["192.168.1.0/24"], "192.168.1.200"));
    assert!(!bypasses(&["192.168.1.0/24"], "192.168.2.1"));
    assert!(bypasses(&["172.16.0.0/12"], "172.31.255.254"));
    assert!(!bypasses(&["172.16.0.0/12"], "172.32.0.1"));
    assert!(bypasses(&["fd00::/8"], "fd12:3456::1"));
    assert!(!bypasses(&["fd00::/8"], "2001:db8::1"));
}

#[test]
fn a_v4_rule_still_covers_the_v4_mapped_form_of_the_same_address() {
    assert!(bypasses(&["192.0.2.1"], "::ffff:192.0.2.1"));
    assert!(bypasses(&["192.0.2.0/24"], "::ffff:192.0.2.9"));
}

#[test]
fn a_cidr_never_matches_a_hostname() {
    assert!(!bypasses(&["10.0.0.0/8"], "example.com"));
}

#[test]
fn port_narrowed_rules_need_that_port() {
    let m = matcher(&["example.com:8080"]);
    assert!(m.should_bypass("example.com", Some(8080), None));
    assert!(!m.should_bypass("example.com", Some(443), None));
    // Unknown port keeps the request on the proxy rather than guessing.
    assert!(!m.should_bypass("example.com", None, None));
}

#[test]
fn scheme_narrowed_rules_need_that_scheme() {
    let m = matcher(&["http://example.com"]);
    assert!(m.should_bypass("example.com", None, Some("http")));
    assert!(!m.should_bypass("example.com", None, Some("https")));
    assert!(!m.should_bypass("example.com", None, None));
}

#[test]
fn an_unnarrowed_rule_matches_whatever_the_port_and_scheme_are() {
    let m = matcher(&["example.com"]);
    assert!(m.should_bypass("example.com", Some(8443), Some("https")));
    assert!(m.should_bypass("example.com", None, None));
}

#[test]
fn local_covers_dotless_hosts_and_loopback() {
    assert!(bypasses(&["<local>"], "intranet"));
    assert!(bypasses(&["<local>"], "localhost"));
    assert!(bypasses(&["<local>"], "127.0.0.1"));
    assert!(!bypasses(&["<local>"], "example.com"));
    assert!(!bypasses(&["<local>"], "10.0.0.1"));
}

#[test]
fn loopback_covers_both_families_and_the_name() {
    assert!(bypasses(&["<loopback>"], "127.0.0.1"));
    assert!(bypasses(&["<loopback>"], "127.5.5.5"));
    assert!(bypasses(&["<loopback>"], "::1"));
    assert!(bypasses(&["<loopback>"], "localhost"));
    assert!(!bypasses(&["<loopback>"], "192.168.0.1"));
}

#[test]
fn legacy_regex_rules_keep_working_but_anchored() {
    // A host with regex-only characters in it is a regex.
    assert!(bypasses(&[r".*\.local"], "printer.local"));
    assert!(!bypasses(&[r".*\.local"], "printer.local.attacker.net"));
    assert!(bypasses(&[r"^10\.0\.0\.\d+$"], "10.0.0.9"));
}

#[test]
fn explicit_regex_form_is_anchored_and_case_insensitive() {
    assert!(bypasses(&["/example\\.(com|net)/"], "EXAMPLE.NET"));
    assert!(!bypasses(&["/example\\.(com|net)/"], "example.net.evil.io"));
}

#[test]
fn internationalized_domains_are_stored_as_punycode() {
    let rule = parse_rule("例え.jp").unwrap();
    assert_eq!(rule.canonical(), "xn--r8jz45g.jp");
    // The browser asks for the punycode form, which is what has to match.
    assert!(bypasses(&["例え.jp"], "www.xn--r8jz45g.jp"));
    assert!(bypasses(&[".例え.jp"], "www.xn--r8jz45g.jp"));
}

#[test]
fn a_pasted_url_is_reduced_to_its_host() {
    let m = matcher(&["https://example.com/some/path?q=1"]);
    assert!(m.should_bypass("www.example.com", Some(443), Some("https")));
    let rule = parse_rule("https://example.com/some/path?q=1").unwrap();
    assert_eq!(rule.canonical(), "https://example.com");
}

#[test]
fn canonical_form_normalizes_equivalent_spellings() {
    for (input, expected) in [
        (" Example.COM ", "example.com"),
        (".example.com", "*.example.com"),
        ("*.example.com", "*.example.com"),
        ("HTTPS://Example.com:8443", "https://example.com:8443"),
        ("10.0.0.0/8", "10.0.0.0/8"),
        ("<LOCAL>", "<local>"),
        ("[fd00::1]:443", "[fd00::1]:443"),
        ("fd00::1", "fd00::1"),
    ] {
        assert_eq!(parse_rule(input).unwrap().canonical(), expected, "{input}");
    }
}

#[test]
fn validate_rules_canonicalizes_and_dedupes() {
    let rules = vec![
        "Example.com".to_string(),
        "example.com".to_string(),
        ".corp.internal".to_string(),
    ];
    assert_eq!(
        validate_rules(&rules).unwrap(),
        vec!["example.com".to_string(), "*.corp.internal".to_string()]
    );
}

#[test]
fn validate_rules_names_the_first_bad_rule() {
    let rules = vec!["example.com".to_string(), "10.0.0.0/99".to_string()];
    let (offender, error) = validate_rules(&rules).unwrap_err();
    assert_eq!(offender, "10.0.0.0/99");
    assert_eq!(error, BypassRuleError::InvalidCidr);
}

#[test]
fn malformed_rules_are_rejected_with_a_reason() {
    for (rule, expected) in [
        ("", BypassRuleError::Empty),
        ("   ", BypassRuleError::Empty),
        ("# a comment", BypassRuleError::Empty),
        ("example.com:0", BypassRuleError::InvalidPort),
        ("example.com:99999", BypassRuleError::InvalidPort),
        ("example.com:https", BypassRuleError::InvalidPort),
        ("10.0.0.0/33", BypassRuleError::InvalidCidr),
        ("fd00::/129", BypassRuleError::InvalidCidr),
        ("ht tp://example.com", BypassRuleError::InvalidScheme),
        ("/(unclosed/", BypassRuleError::InvalidRegex),
        ("exa mple.com", BypassRuleError::InvalidHost),
        ("exam!ple.com", BypassRuleError::InvalidHost),
        ("..example.com", BypassRuleError::InvalidHost),
    ] {
        assert_eq!(parse_rule(rule).unwrap_err(), expected, "{rule:?}");
    }
}

#[test]
fn an_invalid_rule_never_disables_the_valid_ones() {
    let m = matcher(&["exam ple.com", "example.com"]);
    assert!(m.should_bypass("example.com", None, None));
    assert!(!m.should_bypass("other.com", None, None));
}

#[test]
fn an_empty_list_bypasses_nothing() {
    let m = matcher(&[]);
    assert!(m.is_empty());
    assert!(!m.should_bypass("example.com", None, None));
}

#[test]
fn matching_rule_reports_the_rule_as_the_user_typed_it() {
    let m = matcher(&["other.com", "*.example.com"]);
    assert_eq!(
        m.matching_rule("www.example.com", None, None),
        Some("*.example.com")
    );
    assert_eq!(m.matching_rule("example.com", None, None), None);
}

#[test]
fn kind_names_describe_the_parsed_shape() {
    for (rule, kind) in [
        ("example.com", "domain"),
        ("*.example.com", "subdomains"),
        ("sta*.example.com", "wildcard"),
        ("10.0.0.1", "ip"),
        ("10.0.0.0/8", "cidr"),
        ("<local>", "local"),
        ("<loopback>", "loopback"),
        ("/foo.*/", "regex"),
    ] {
        assert_eq!(parse_rule(rule).unwrap().kind_name(), kind, "{rule}");
    }
}

#[test]
fn report_rules_answers_would_this_host_go_direct() {
    let rules = vec![
        "*.example.com".to_string(),
        "10.0.0.0/8".to_string(),
        "nope!!".to_string(),
    ];

    let report = report_rules(&rules, Some("https://www.example.com/dashboard"));
    assert_eq!(report[0].matches_target, Some(true));
    assert_eq!(report[1].matches_target, Some(false));
    assert_eq!(report[2].matches_target, None);
    assert_eq!(
        report[2].error_code.as_deref(),
        Some("BYPASS_RULE_INVALID_HOST")
    );

    // No target: shape and validity only.
    let report = report_rules(&rules, None);
    assert!(report.iter().all(|r| r.matches_target.is_none()));
    assert_eq!(report[0].kind.as_deref(), Some("subdomains"));
}

#[test]
fn report_rules_applies_the_targets_port_and_scheme() {
    let rules = vec![
        "example.com:8080".to_string(),
        "https://example.com".to_string(),
    ];

    let report = report_rules(&rules, Some("example.com:8080"));
    assert_eq!(report[0].matches_target, Some(true));
    assert_eq!(report[1].matches_target, Some(false));

    // A scheme with no explicit port still implies the default port.
    let report = report_rules(&rules, Some("https://example.com"));
    assert_eq!(report[0].matches_target, Some(false));
    assert_eq!(report[1].matches_target, Some(true));
}

#[test]
fn glob_matching_handles_backtracking() {
    assert!(glob_match("*.com", "a.b.com"));
    assert!(glob_match("*a*b*", "xxaxxbxx"));
    assert!(!glob_match("*a*b*c", "xxaxxbxx"));
    assert!(glob_match("**", "anything"));
    assert!(glob_match("*", ""));
    assert!(!glob_match("?", ""));
}
