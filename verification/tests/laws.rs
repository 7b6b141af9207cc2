//! The laws of the library on concrete values.

use proxy_bypass::address::{cidr_contains, normalize_ip, parse_ip, IpAddr};
use proxy_bypass::host::normalize_host;
use proxy_bypass::target::parse_target;
use proxy_bypass::{
    glob_match, parse_rule, report_rules, validate_rules, BypassMatcher, BypassRuleError,
};

fn list(rules: &[&str]) -> Vec<String> {
    rules.iter().map(|r| r.to_string()).collect()
}

fn matcher(rules: &[&str]) -> BypassMatcher {
    BypassMatcher::new(&list(rules))
}

fn canonical(rule: &str) -> String {
    parse_rule(rule).unwrap().canonical()
}

const HOSTS: [&str; 12] = [
    "example.com",
    "www.example.com",
    "example.com.attacker.net",
    "notexample.com",
    "localhost",
    "intranet",
    "10.1.2.3",
    "::ffff:10.1.2.3",
    "192.0.2.1",
    "fd00::1",
    "::1",
    "x.corp.net",
];

#[test]
fn canonical_forms_read_back() {
    for rule in [
        "Example.com:80", "HTTPS://.example.com", "[FD00::1]:8080", "10.0.0.0/8",
        "http://fd00::/8", "*.corp.*", "http://*.corp.*:81", "/A.b/", "<LOCAL>", "<Loopback>",
        "::ffff:192.0.2.1", "https://(a|b).com", "foo\\d:80", "[a:(b|c)]:80", "https://[a:(b|c)]",
        "https://x[ab] /p", "[ (a|b)]:80", "[fd00::*]:443", "[*:x]", "* /p", "[ *]", "?::?",
        "::ffff:10.0.0.0/104", "::ffff:10.0.0.0/40", "https://192.168.1.5/admin", "*.\u{e4}.*:80",
    ] {
        let form = canonical(rule);
        let again = parse_rule(&form).unwrap();
        assert_eq!(again.canonical(), form);
        assert_eq!(again.kind_name(), parse_rule(rule).unwrap().kind_name());
        let stored = validate_rules(&list(&[rule])).unwrap();
        assert_eq!(stored, vec![form]);
        assert_eq!(validate_rules(&stored).unwrap(), stored);
    }
}

#[test]
fn a_domain_written_like_an_address_keeps_its_form() {
    let form = canonical("\u{ff11}27.0.0.1");
    assert_eq!(parse_rule("\u{ff11}27.0.0.1").unwrap().kind_name(), "domain");
    assert_eq!(parse_rule(&form).unwrap().kind_name(), "ip");
    assert_eq!(canonical(&form), form);
}

#[test]
fn regex_sources_stand_alone() {
    for body in ["foo)|(?:bar", "a)(b", ")", "a)|(?i:b"] {
        let rule = format!("/{body}/");
        assert_eq!(parse_rule(&rule).err(), Some(BypassRuleError::InvalidRegex), "{rule}");
    }
    for body in ["foo|bar", "(a)(b)", "a{2}"] {
        assert!(parse_rule(&format!("/{body}/")).is_ok());
    }
}

#[test]
fn stored_lists_are_stored_as_they_are_and_bypass_the_same() {
    let typed = [
        "Example.COM", ".example.com", "*.example.com", "10.0.0.0/8", "<LOCAL>", "X.*",
        "http://(a|b)",
    ];
    let stored = validate_rules(&list(&typed)).unwrap();
    assert_eq!(
        stored,
        list(&["example.com", "*.example.com", "10.0.0.0/8", "<local>", "x.*", "http://(a|b)"])
    );
    assert_eq!(validate_rules(&stored).unwrap(), stored);
    let before = matcher(&typed);
    let after = BypassMatcher::new(&stored);
    for host in HOSTS {
        assert_eq!(
            before.should_bypass(host, None, None),
            after.should_bypass(host, None, None),
            "{host}"
        );
    }
}

#[test]
fn spelling_means_nothing() {
    for (a, b) in [
        (" example.com\t", "example.com"),
        ("EXAMPLE.com", "example.COM"),
        (".example.com", "*.example.com"),
        ("https://.example.com:81", "https://*.example.com:81"),
        ("::ffff:192.0.2.1", "192.0.2.1"),
        ("HTTPS://Example.com/Path?q#f ", "https://example.com"),
        ("example.com/path", "example.com"),
        ("https://192.168.1.5/Admin?x", "https://192.168.1.5"),
        ("::ffff:10.0.0.0/104", "10.0.0.0/8"),
    ] {
        assert_eq!(canonical(a), canonical(b), "{a}");
    }
    assert_ne!(canonical("/A/"), canonical("/a/"));
    for (a, b) in [
        (" Example.com ", "example.com"),
        ("example.com.", "example.com"),
        ("[fd00::1]", "fd00::1"),
    ] {
        assert_eq!(normalize_host(a), normalize_host(b), "{a}");
    }
    assert_ne!(normalize_host("a ."), normalize_host("a "));
    assert_eq!(parse_target(" a:80 "), parse_target("a:80"));
}

#[test]
fn domains_are_anchored() {
    let domain = matcher(&["example.com"]);
    let below = matcher(&["*.example.com"]);
    for host in HOSTS {
        let ends = host == "example.com" || host.ends_with(".example.com");
        assert_eq!(domain.should_bypass(host, None, None), ends, "{host}");
        assert_eq!(
            below.should_bypass(host, None, None),
            ends && host != "example.com",
            "{host}"
        );
    }
}

#[test]
fn globs_are_anchored() {
    assert!(!glob_match("*.example.com", "a.example.com.attacker.net"));
    assert!(!glob_match("example.*", "notexample.com"));
    assert!(glob_match("example.com", "example.com"));
    assert!(!glob_match("example.com", "example.org"));
    for host in HOSTS {
        assert!(glob_match("*", host));
        assert_eq!(glob_match("?", host), host.chars().count() == 1);
        assert_eq!(glob_match("*.**om", host), glob_match("*.*om", host));
    }
}

#[test]
fn address_rules_cover_addresses_alone() {
    let rules = matcher(&["10.0.0.0/8", "192.0.2.1", "fd00::/8"]);
    for host in HOSTS {
        let address = parse_ip(host).is_some();
        assert!(address || !rules.should_bypass(host, None, None), "{host}");
    }
    assert_eq!(
        rules.should_bypass("10.1.2.3", None, None),
        rules.should_bypass("::ffff:10.1.2.3", None, None)
    );
}

#[test]
fn local_covers_what_loopback_covers() {
    let local = matcher(&["<local>"]);
    let loopback = matcher(&["<loopback>"]);
    for host in HOSTS {
        assert!(
            !loopback.should_bypass(host, None, None) || local.should_bypass(host, None, None),
            "{host}"
        );
    }
    assert!(local.should_bypass("intranet", None, None));
    assert!(!local.should_bypass("example.com", None, None));
}

#[test]
fn narrowed_rules_need_what_they_are_narrowed_to() {
    let narrow = matcher(&["https://example.com:444"]);
    assert!(narrow.should_bypass("example.com", Some(444), Some("HTTPS")));
    assert!(!narrow.should_bypass("example.com", None, Some("https")));
    assert!(!narrow.should_bypass("example.com", Some(443), Some("https")));
    assert!(!narrow.should_bypass("example.com", Some(444), None));
    assert!(!narrow.should_bypass("example.com", Some(444), Some("http")));
    let wide = matcher(&["example.com"]);
    assert!(wide.should_bypass("example.com", None, None));
    assert!(wide.should_bypass("example.com", Some(444), Some("ftp")));
}

#[test]
fn ranges_nest() {
    let net = IpAddr::V4([10, 1, 2, 3]);
    for prefix in 0..=32u8 {
        assert!(cidr_contains(net, prefix, net));
        for other in [[10, 1, 2, 3], [10, 1, 2, 2], [10, 0, 0, 0], [138, 1, 2, 3]] {
            let other = IpAddr::V4(other);
            if cidr_contains(net, prefix, other) {
                for shorter in 0..prefix {
                    assert!(cidr_contains(net, shorter, other));
                }
                assert!(cidr_contains(other, prefix, net));
            }
        }
    }
    assert!(cidr_contains(net, 0, IpAddr::V4([255, 0, 0, 0])));
    assert!(!cidr_contains(net, 32, IpAddr::V4([10, 1, 2, 2])));
    assert!(!cidr_contains(net, 0, IpAddr::V6([0; 8])));
    // A prefix longer than the address fixes the whole of it.
    assert!(cidr_contains(net, 104, net));
    assert!(!cidr_contains(net, 104, IpAddr::V4([10, 1, 2, 2])));
}

#[test]
fn address_texts_read_back() {
    for address in [
        IpAddr::V4([0, 0, 0, 0]),
        IpAddr::V4([255, 1, 20, 100]),
        IpAddr::V6([0; 8]),
        IpAddr::V6([0, 0, 0, 0, 0, 0, 0, 1]),
        IpAddr::V6([1, 0, 0, 2, 0, 0, 0, 3]),
        IpAddr::V6([1, 0, 2, 0, 3, 0, 4, 0]),
        IpAddr::V6([0, 0, 0, 0, 0, 0xffff, 0xc000, 0x201]),
        IpAddr::V6([0xfd00, 1, 2, 3, 4, 5, 6, 0xabcd]),
    ] {
        assert_eq!(parse_ip(&address.text()), Some(address));
        assert_eq!(normalize_ip(normalize_ip(address)), normalize_ip(address));
    }
}

#[test]
fn lists_load_in_order_without_what_is_no_rule() {
    let rules = matcher(&["bad rule", " example.com ", "# note", "*.com", "*"]);
    assert_eq!(rules.matching_rule("www.example.com", None, None), Some("example.com"));
    assert_eq!(rules.matching_rule("other.com", None, None), Some("*.com"));
    assert_eq!(rules.matching_rule("intranet", None, None), Some("*"));
    assert_eq!(matcher(&[]).matching_rule("intranet", None, None), None);
    let texts = list(&["a", "bad rule", "b", "#"]);
    let (_, dropped) = BypassMatcher::load(&texts);
    assert_eq!(dropped.len(), 2);
}

#[test]
fn reports_agree_with_lists() {
    let rules = ["example.com", "bad rule", "10.0.0.0/8", "<loopback>"];
    for host in HOSTS {
        let reports = report_rules(&list(&rules), Some(host));
        let any = reports.iter().any(|r| r.matches_target == Some(true));
        assert_eq!(any, matcher(&rules).should_bypass(host, None, None), "{host}");
        for (report, rule) in reports.iter().zip(rules) {
            if report.error_code.is_none() {
                assert_eq!(
                    report.matches_target,
                    Some(matcher(&[rule]).should_bypass(host, None, None))
                );
            }
        }
        assert!(reports.iter().any(|r| r.error_code.is_some()));
        assert!(validate_rules(&list(&rules)).is_err());
    }
}
