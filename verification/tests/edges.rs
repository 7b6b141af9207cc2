//! Edge cases, one exact value each.

use proxy_bypass::address::{cidr_contains, normalize_ip, parse_ip, prefix_eq, IpAddr};
use proxy_bypass::domain::{check_domain, to_ascii_domain};
use proxy_bypass::host::{
    bracketed, check_host, cut_host, normalize_host, split_host_port, subdomain_base,
};
use proxy_bypass::number::{read_number, read_unsigned, write_number};
use proxy_bypass::parse::{compile_regex, parse_lowered};
use proxy_bypass::target::{default_port, parse_target};
use proxy_bypass::text::{eq_ignore_ascii_case, trim, trim_end_dots};
use proxy_bypass::unicode::is_white_space;
use proxy_bypass::{
    check_proxy_bypass_rules, glob_match, parse_rule, report_rules, validate_rules, BypassMatcher,
    BypassRuleError,
};

fn list(rules: &[&str]) -> Vec<String> {
    rules.iter().map(|r| r.to_string()).collect()
}

fn bypasses(rule: &str, host: &str) -> bool {
    BypassMatcher::new(&list(&[rule])).should_bypass(host, None, None)
}

fn canonical(rule: &str) -> String {
    parse_rule(rule).unwrap().canonical()
}

fn error(rule: &str) -> BypassRuleError {
    parse_rule(rule).err().unwrap()
}

#[test]
fn each_error_has_an_input() {
    assert_eq!(error(""), BypassRuleError::Empty);
    assert_eq!(error(" \u{3000}\t"), BypassRuleError::Empty);
    assert_eq!(error("  # note"), BypassRuleError::Empty);
    assert_eq!(error("/path"), BypassRuleError::InvalidHost);
    assert_eq!(error("http://"), BypassRuleError::InvalidHost);
    assert_eq!(error(":80"), BypassRuleError::InvalidHost);
    assert_eq!(error("a..b"), BypassRuleError::InvalidHost);
    assert_eq!(error("a b"), BypassRuleError::InvalidHost);
    assert_eq!(error("[::1"), BypassRuleError::InvalidHost);
    assert_eq!(error("[::1]x"), BypassRuleError::InvalidHost);
    assert_eq!(error("a:0"), BypassRuleError::InvalidPort);
    assert_eq!(error("a:65536"), BypassRuleError::InvalidPort);
    assert_eq!(error("a:"), BypassRuleError::InvalidPort);
    assert_eq!(error("[::1]:0"), BypassRuleError::InvalidPort);
    assert_eq!(error("[::1]:x"), BypassRuleError::InvalidPort);
    assert_eq!(error("10.0.0.0/33"), BypassRuleError::InvalidCidr);
    assert_eq!(error("fd00::/129"), BypassRuleError::InvalidCidr);
    assert_eq!(error("10.0.0.0/+33"), BypassRuleError::InvalidCidr);
    assert_eq!(error("10.0.0.0/99999999999"), BypassRuleError::InvalidCidr);
    assert_eq!(error("::ffff:10.0.0.0/129"), BypassRuleError::InvalidCidr);
    assert_eq!(error("://a"), BypassRuleError::InvalidScheme);
    assert_eq!(error("ht tp://a"), BypassRuleError::InvalidScheme);
    assert_eq!(error("//"), BypassRuleError::InvalidRegex);
    assert_eq!(error("/(/"), BypassRuleError::InvalidRegex);
    assert_eq!(error("a("), BypassRuleError::InvalidRegex);
    assert_eq!(error("/foo)|(?:bar/"), BypassRuleError::InvalidRegex);
    assert_eq!(error("foo)|(bar"), BypassRuleError::InvalidRegex);
}

#[test]
fn each_error_has_its_code() {
    assert_eq!(BypassRuleError::Empty.code(), "BYPASS_RULE_EMPTY");
    assert_eq!(BypassRuleError::InvalidHost.code(), "BYPASS_RULE_INVALID_HOST");
    assert_eq!(BypassRuleError::InvalidPort.code(), "BYPASS_RULE_INVALID_PORT");
    assert_eq!(BypassRuleError::InvalidCidr.code(), "BYPASS_RULE_INVALID_CIDR");
    assert_eq!(BypassRuleError::InvalidScheme.code(), "BYPASS_RULE_INVALID_SCHEME");
    assert_eq!(BypassRuleError::InvalidRegex.code(), "BYPASS_RULE_INVALID_REGEX");
}

#[test]
fn each_shape_has_its_name() {
    let cases = [
        ("<local>", "local"),
        ("<LOOPBACK>", "loopback"),
        ("::1", "ip"),
        ("10.0.0.0/8", "cidr"),
        ("example.com", "domain"),
        (".example.com", "subdomains"),
        ("*.corp.*", "wildcard"),
        ("/x+/", "regex"),
    ];
    for (rule, name) in cases {
        assert_eq!(parse_rule(rule).unwrap().kind_name(), name, "{rule}");
    }
}

#[test]
fn canonical_forms_are_exact() {
    let cases = [
        ("  EXAMPLE.com  ", "example.com"),
        (".Example.com", "*.example.com"),
        ("*.example.com:+0443", "*.example.com:443"),
        ("HTTPS://Example.com/a?b#c", "https://example.com"),
        ("example.com/path", "example.com"),
        ("example.com#x", "example.com"),
        ("10.0.0.0/+08", "10.0.0.0/8"),
        ("http://10.0.0.0/8", "http://10.0.0.0/8"),
        ("[FD00:0:0:0:0:0:0:1]:8080", "[fd00::1]:8080"),
        ("[fd00::1]", "fd00::1"),
        ("1:0:0:2:0:0:0:3", "1:0:0:2::3"),
        ("1:0:2:3:4:5:6:7", "1:0:2:3:4:5:6:7"),
        ("::ffff:192.0.2.1", "192.0.2.1"),
        ("::ffff:c000:0201", "192.0.2.1"),
        ("::192.0.2.1", "::c000:201"),
        ("::ffff:10.0.0.0/104", "10.0.0.0/8"),
        ("::ffff:10.0.0.0/64", "10.0.0.0/32"),
        ("::ffff:10.0.0.0/96", "10.0.0.0/0"),
        ("::ffff:10.0.0.0/24", "10.0.0.0/24"),
        ("https://192.168.1.5/admin", "https://192.168.1.5"),
        ("http://192.168.1.1/", "http://192.168.1.1"),
        ("fd00::1/8x", "fd00::1"),
        ("*", "*"),
        ("10.0.0.?", "10.0.0.?"),
        ("/A+B/", "/A+B/"),
        ("A+B", "/a+b/"),
        ("http://a+b:80", "http://a+b:80"),
        ("https://(a|b).com", "https://(a|b).com"),
        ("foo\\d:80", "foo\\d:80"),
        ("[a:(b|c)]:80", "[a:(b|c)]:80"),
        ("https://[a:(b|c)]", "https://[a:(b|c)]"),
        ("https://x[ab] /p", "https://x[ab] /"),
        ("[fd00::*]:443", "[fd00::*]:443"),
        ("[fd00::*]", "fd00::*"),
        ("[*:x]", "[*:x]"),
        ("* /p", "* /"),
        ("[ *]", "[ *]"),
        ("<LOCAL>", "<local>"),
    ];
    for (rule, form) in cases {
        assert_eq!(canonical(rule), form, "{rule}");
    }
}

#[test]
fn case_is_lowered_beyond_ascii() {
    // A wildcard keeps the host that lowercasing made of it.
    assert_eq!(canonical("*.\u{c4}X.*"), "*.\u{e4}x.*");
    assert_eq!(normalize_host("\u{c4}.Example."), "\u{e4}.example");
    assert!(bypasses("*.\u{c4}x.*", "a.\u{c4}X.b"));
}

#[test]
fn domains_beyond_ascii_are_punycoded() {
    assert_eq!(to_ascii_domain("b\u{fc}cher.de").unwrap(), "xn--bcher-kva.de");
    assert_eq!(to_ascii_domain("plain.de").unwrap(), "plain.de");
    assert_eq!(canonical("B\u{dc}CHER.de"), "xn--bcher-kva.de");
    assert_eq!(canonical(".b\u{fc}cher.de:80"), "*.xn--bcher-kva.de:80");
    assert_eq!(
        to_ascii_domain("b\u{fc}cher de"),
        Err(BypassRuleError::InvalidHost)
    );
    // Digits of another width become an address, which stays a domain rule.
    assert_eq!(
        parse_rule("\u{ff11}27.0.0.1").unwrap().kind_name(),
        "domain"
    );
    assert_eq!(canonical("\u{ff11}27.0.0.1"), "127.0.0.1");
}

#[test]
fn a_domain_holds_letters_numbers_and_three_marks() {
    assert_eq!(check_host("a-b_c.d9"), Ok(()));
    assert_eq!(check_host("\u{e4}\u{663}"), Ok(()));
    assert_eq!(check_host(""), Ok(()));
    for host in [".a", "a.", "a..b", "a b", "a!", "\u{2014}"] {
        assert_eq!(check_host(host), Err(BypassRuleError::InvalidHost), "{host}");
    }
    assert_eq!(check_domain(Ok("a.b".to_string())), Ok("a.b".to_string()));
    assert_eq!(
        check_domain(Ok("a..b".to_string())),
        Err(BypassRuleError::InvalidHost)
    );
    assert_eq!(
        check_domain(Err(BypassRuleError::InvalidHost)),
        Err(BypassRuleError::InvalidHost)
    );
}

#[test]
fn regexes_are_anchored_and_ignore_case() {
    assert!(bypasses("/ex.mple\\.COM/", "EXAMPLE.com"));
    assert!(!bypasses("/example/", "example.com"));
    assert!(!bypasses("/example|other/", "otherwise"));
    assert!(bypasses("/\\D+/", "abc"));
    assert!(!bypasses("/\\D+/", "ab1"));
    // A body that closes the group around it would be anchored at one end of
    // each branch alone, so it is no rule.
    assert!(!bypasses("/foo)|(?:bar/", "foo.attacker.net"));
    assert!(!bypasses("/foo)|(?:bar/", "attacker.bar"));
    assert!(bypasses("/foo|bar/", "foo"));
    assert!(!bypasses("/foo|bar/", "foo.attacker.net"));
    assert_eq!(compile_regex("").err(), Some(BypassRuleError::InvalidRegex));
    assert!(compile_regex("a{2,3}").is_ok());
}

#[test]
fn globs_take_any_run_and_any_one_character() {
    assert!(glob_match("", ""));
    assert!(!glob_match("", "a"));
    assert!(glob_match("*", ""));
    assert!(glob_match("**", "abc"));
    assert!(glob_match("a*b*c", "a-b-b-c"));
    assert!(!glob_match("a*b*c", "a-b-b-d"));
    assert!(glob_match("?", "\u{e4}"));
    assert!(!glob_match("?", ""));
    assert!(!glob_match("?", "ab"));
    assert!(glob_match("*a", "*ba"));
    assert!(glob_match("*ab", "aab"));
    assert!(glob_match("a?c*", "abc"));
}

#[test]
fn host_and_port_are_split() {
    assert_eq!(split_host_port("a:80"), Ok(("a".to_string(), Some(80))));
    assert_eq!(split_host_port("a:+80"), Ok(("a".to_string(), Some(80))));
    assert_eq!(split_host_port("a:65535"), Ok(("a".to_string(), Some(65535))));
    assert_eq!(split_host_port("a"), Ok(("a".to_string(), None)));
    assert_eq!(split_host_port(""), Ok((String::new(), None)));
    assert_eq!(split_host_port("fd00::1"), Ok(("fd00::1".to_string(), None)));
    assert_eq!(split_host_port("[fd00::1]"), Ok(("fd00::1".to_string(), None)));
    assert_eq!(
        split_host_port("[fd00::1]:9"),
        Ok(("fd00::1".to_string(), Some(9)))
    );
    assert_eq!(split_host_port("[fd00::1"), Err(BypassRuleError::InvalidHost));
    assert_eq!(split_host_port("[a]9"), Err(BypassRuleError::InvalidHost));
    assert_eq!(split_host_port("a:-1"), Err(BypassRuleError::InvalidPort));
    assert_eq!(split_host_port("a:0"), Err(BypassRuleError::InvalidPort));
}

#[test]
fn hosts_are_normalized() {
    assert_eq!(normalize_host("  Example.COM.. "), "example.com");
    assert_eq!(normalize_host("[FD00::1]"), "fd00::1");
    assert_eq!(normalize_host("[]"), "");
    assert_eq!(normalize_host("["), "[");
    assert_eq!(normalize_host("."), "");
    assert_eq!(bracketed("::1", true), "[::1]");
    assert_eq!(bracketed("::1", false), "::1");
    assert_eq!(cut_host("a/b?c", false), "a");
    assert_eq!(cut_host("a?b", false), "a?b");
    assert_eq!(cut_host("a?b", true), "a");
    assert_eq!(subdomain_base("*.a.b"), Some("a.b"));
    assert_eq!(subdomain_base(".a.b"), Some("a.b"));
    assert_eq!(subdomain_base("*.a.*"), None);
    assert_eq!(subdomain_base("*."), None);
    assert_eq!(subdomain_base("a.b"), None);
}

#[test]
fn addresses_are_read_strictly() {
    assert_eq!(parse_ip("1.2.3.4"), Some(IpAddr::V4([1, 2, 3, 4])));
    for text in ["1.2.3", "1.2.3.4.5", "01.2.3.4", "256.1.1.1", "1.2.3.", " 1.2.3.4", "+1.2.3.4"] {
        assert_eq!(parse_ip(text), None, "{text}");
    }
    assert_eq!(parse_ip("::"), Some(IpAddr::V6([0; 8])));
    assert_eq!(parse_ip("1::"), Some(IpAddr::V6([1, 0, 0, 0, 0, 0, 0, 0])));
    assert_eq!(
        parse_ip("1:2:3:4:5:6:7:ABCD"),
        Some(IpAddr::V6([1, 2, 3, 4, 5, 6, 7, 0xabcd]))
    );
    assert_eq!(
        parse_ip("1:2:3:4:5:6:1.2.3.4"),
        Some(IpAddr::V6([1, 2, 3, 4, 5, 6, 0x102, 0x304]))
    );
    assert_eq!(
        parse_ip("1:2:3:4:5:6:7::"),
        Some(IpAddr::V6([1, 2, 3, 4, 5, 6, 7, 0]))
    );
    for text in [
        "", ":", ":::", "1::2::3", "1:2:3:4:5:6:7", "1:2:3:4:5:6:7:8:9", "1:2:3:4:5:6:7:8::",
        "12345::", "g::", "1.2.3.4::", "::1.2.3", "::1.2.3.4:5", "1:", ":1", "fe80::1%1",
    ] {
        assert_eq!(parse_ip(text), None, "{text}");
    }
}

#[test]
fn ranges_compare_leading_bits() {
    let v4 = |a, b, c, d| IpAddr::V4([a, b, c, d]);
    assert!(cidr_contains(v4(10, 0, 0, 0), 8, v4(10, 9, 9, 9)));
    assert!(!cidr_contains(v4(10, 0, 0, 0), 8, v4(11, 0, 0, 0)));
    assert!(cidr_contains(v4(172, 16, 0, 0), 12, v4(172, 31, 255, 255)));
    assert!(!cidr_contains(v4(172, 16, 0, 0), 12, v4(172, 32, 0, 0)));
    assert!(cidr_contains(v4(0, 0, 0, 0), 0, v4(9, 9, 9, 9)));
    assert!(!cidr_contains(v4(0, 0, 0, 0), 0, IpAddr::V6([0; 8])));
    assert!(cidr_contains(
        IpAddr::V6([0xfd00, 0, 0, 0, 0, 0, 0, 0]),
        9,
        IpAddr::V6([0xfd7f, 1, 2, 3, 4, 5, 6, 7])
    ));
    assert!(!cidr_contains(
        IpAddr::V6([0xfd00, 0, 0, 0, 0, 0, 0, 0]),
        9,
        IpAddr::V6([0xfd80, 0, 0, 0, 0, 0, 0, 0])
    ));
    assert!(!cidr_contains(v4(10, 0, 0, 0), 200, v4(10, 0, 0, 1)));
    assert!(cidr_contains(IpAddr::V6([1; 8]), 200, IpAddr::V6([1; 8])));
    assert!(prefix_eq(&[0b1010_0000], &[0b1011_1111], 3));
    assert!(!prefix_eq(&[0b1010_0000], &[0b1011_1111], 4));
    assert!(prefix_eq(&[], &[], 0));
}

#[test]
fn a_mapped_range_is_the_ipv4_range() {
    assert!(bypasses("::ffff:10.0.0.0/104", "10.1.2.3"));
    assert!(bypasses("::ffff:10.0.0.0/104", "::ffff:10.1.2.3"));
    assert!(!bypasses("::ffff:10.0.0.0/104", "11.1.2.3"));
    assert!(bypasses("::ffff:0.0.0.0/96", "10.1.2.3"));
    assert!(!bypasses("::ffff:0.0.0.0/97", "128.0.0.1"));
    assert!(bypasses("::ffff:10.0.0.1/128", "10.0.0.1"));
    assert!(!bypasses("::ffff:10.0.0.1/128", "10.0.0.2"));
    for prefix in 32..96 {
        let rule = format!("::ffff:10.0.0.1/{prefix}");
        assert!(bypasses(&rule, "10.0.0.1"), "{rule}");
        assert!(!bypasses(&rule, "10.0.0.2"), "{rule}");
        assert!(!bypasses(&rule, "11.0.0.2"), "{rule}");
    }
    assert!(!bypasses("::ffff:10.0.0.1/24", "11.0.0.2"));
    assert!(!bypasses("::ffff:10.0.0.1/33", "::1"));
    assert!(bypasses("::ffff:10.0.0.0/8", "10.1.2.3"));
    assert_eq!(
        normalize_ip(IpAddr::V6([0, 0, 0, 0, 0, 0xffff, 0xc000, 0x0201])),
        IpAddr::V4([192, 0, 2, 1])
    );
    assert_eq!(normalize_ip(IpAddr::V6([0; 8])), IpAddr::V6([0; 8]));
}

#[test]
fn numbers_are_read_and_written() {
    assert_eq!(read_number("00ff", 16, 0xffff), Some(255));
    assert_eq!(read_number("", 10, 9), None);
    assert_eq!(read_number("10", 10, 9), None);
    assert_eq!(read_number("a", 10, 9), None);
    assert_eq!(read_unsigned("+7", 9), Some(7));
    assert_eq!(read_unsigned("++7", 9), None);
    assert_eq!(read_unsigned("99999999999999999999", 0xffff), None);
    assert_eq!(write_number(0, 10), "0");
    assert_eq!(write_number(65535, 10), "65535");
    assert_eq!(write_number(65535, 16), "ffff");
}

#[test]
fn white_space_is_that_of_unicode() {
    for n in 0..=0x10ffffu32 {
        if let Some(c) = char::from_u32(n) {
            assert_eq!(is_white_space(c), c.is_whitespace(), "{n:x}");
        }
    }
    for text in ["", " ", " a b ", "\u{85}a\u{3000}", "a\u{200b}"] {
        assert_eq!(trim(text), text.trim());
    }
    assert_eq!(trim_end_dots("a.b.."), "a.b");
    assert_eq!(trim_end_dots("..."), "");
    assert!(eq_ignore_ascii_case("HTTPS", "https"));
    assert!(!eq_ignore_ascii_case("\u{c4}", "\u{e4}"));
    assert!(!eq_ignore_ascii_case("http", "https"));
}

#[test]
fn targets_are_split() {
    let target = |text: &str| parse_target(text);
    let full = |host: &str, port: Option<u16>, scheme: Option<&str>| {
        Some((host.to_string(), port, scheme.map(str::to_string)))
    };
    assert_eq!(target(""), None);
    assert_eq!(target("  "), None);
    assert_eq!(target("http://"), None);
    assert_eq!(target("a:0"), None);
    assert_eq!(target("Example.com."), full("example.com", None, None));
    assert_eq!(target("a:81"), full("a", Some(81), None));
    assert_eq!(target("HTTP://a/x"), full("a", Some(80), Some("http")));
    assert_eq!(target("https://a?x"), full("a", Some(443), Some("https")));
    assert_eq!(target("ws://a#x"), full("a", None, Some("ws")));
    assert_eq!(
        target("https://u:p@x@[::1]:8443/y"),
        full("::1", Some(8443), Some("https"))
    );
    assert_eq!(default_port(Some("http")), Some(80));
    assert_eq!(default_port(Some("https")), Some(443));
    assert_eq!(default_port(Some("HTTP")), None);
    assert_eq!(default_port(None), None);
}

#[test]
fn local_and_loopback_have_their_bounds() {
    assert!(bypasses("<local>", "intranet"));
    assert!(bypasses("<local>", "127.9.9.9"));
    assert!(bypasses("<local>", "a.localhost"));
    assert!(!bypasses("<local>", "fd00::1"));
    assert!(!bypasses("<local>", "a.b"));
    assert!(bypasses("<loopback>", "::1"));
    assert!(bypasses("<loopback>", "::ffff:127.0.0.1"));
    assert!(bypasses("<loopback>", "LOCALHOST."));
    assert!(!bypasses("<loopback>", "intranet"));
    assert!(!bypasses("<loopback>", "notlocalhost"));
}

#[test]
fn matchers_clone_and_default() {
    let matcher = BypassMatcher::new(&list(&["  a.com ", "bad rule", "*.b.com"]));
    let copy = matcher.clone();
    assert!(!copy.is_empty());
    assert_eq!(copy.matching_rule("x.a.com", None, None), Some("a.com"));
    assert_eq!(copy.matching_rule("x.b.com", None, None), Some("*.b.com"));
    assert_eq!(copy.matching_rule("b.com", None, None), None);
    assert_eq!(copy.matching_rule("", None, None), None);
    assert!(BypassMatcher::default().is_empty());
    assert!(!BypassMatcher::default().should_bypass("a.com", None, None));
}

#[test]
fn dropped_rules_are_handed_back() {
    let (matcher, dropped) = BypassMatcher::load(&list(&["a.com", " bad rule ", "# x", "b:0"]));
    assert_eq!(matcher.matching_rule("a.com", None, None), Some("a.com"));
    assert_eq!(
        dropped,
        vec![
            (" bad rule ".to_string(), BypassRuleError::InvalidHost),
            ("# x".to_string(), BypassRuleError::Empty),
            ("b:0".to_string(), BypassRuleError::InvalidPort),
        ]
    );
}

#[test]
fn a_number_after_the_slash_is_a_prefix_and_anything_else_a_path() {
    let kinds = [
        ("https://192.168.1.5/admin", "ip"),
        ("192.168.1.5/8/x", "ip"),
        ("192.168.1.5/8#x", "ip"),
        ("192.168.1.5/+", "ip"),
        ("192.168.1.5/8", "cidr"),
        ("http://192.168.1.5/+8", "cidr"),
    ];
    for (rule, kind) in kinds {
        assert_eq!(parse_rule(rule).unwrap().kind_name(), kind, "{rule}");
    }
    let rules = BypassMatcher::new(&list(&["https://192.168.1.5/admin"]));
    assert!(rules.should_bypass("192.168.1.5", Some(443), Some("https")));
    assert!(!rules.should_bypass("192.168.1.5", Some(80), Some("http")));
    assert!(!rules.should_bypass("192.168.1.6", Some(443), Some("https")));
}

#[test]
fn reports_are_exact() {
    let reports = check_proxy_bypass_rules(
        list(&[" .a.com ", "a:0"]),
        Some("https://x.a.com".to_string()),
    );
    assert_eq!(reports.len(), 2);
    let first = reports[0].clone();
    assert_eq!(first.rule, ".a.com");
    assert_eq!(first.canonical.as_deref(), Some("*.a.com"));
    assert_eq!(first.kind.as_deref(), Some("subdomains"));
    assert_eq!(first.error_code, None);
    assert_eq!(first.matches_target, Some(true));
    assert_eq!(reports[1].rule, "a:0");
    assert_eq!(reports[1].canonical, None);
    assert_eq!(reports[1].kind, None);
    assert_eq!(
        reports[1].error_code.as_deref(),
        Some("BYPASS_RULE_INVALID_PORT")
    );
    assert_eq!(reports[1].matches_target, None);
    assert_eq!(report_rules(&list(&["a"]), None)[0].matches_target, None);
    assert_eq!(report_rules(&list(&["a"]), Some("b"))[0].matches_target, Some(false));
}

#[test]
fn lists_are_validated() {
    assert_eq!(
        validate_rules(&list(&["A.com", ".b.com", "a.com", "*.B.com"])),
        Ok(list(&["a.com", "*.b.com"]))
    );
    assert_eq!(
        validate_rules(&list(&["a.com", " b:0 ", "("])),
        Err(("b:0".to_string(), BypassRuleError::InvalidPort))
    );
    assert_eq!(validate_rules(&[]), Ok(Vec::new()));
}

#[test]
fn lowered_text_is_read_as_it_is() {
    assert_eq!(parse_lowered("<local>").unwrap().kind_name(), "local");
    assert_eq!(parse_lowered("https://a:1").unwrap().canonical(), "https://a:1");
    assert_eq!(parse_lowered("").err(), Some(BypassRuleError::InvalidHost));
}
