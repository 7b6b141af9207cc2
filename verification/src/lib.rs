//! Proxy bypass ("exception") rules: hosts a profile connects to directly
//! instead of through its assigned proxy or VPN.
//!
//! A rule is one of:
//!
//! | Form | Matches |
//! | --- | --- |
//! | `example.com` | `example.com` and every subdomain of it |
//! | `*.example.com` / `.example.com` | subdomains only, not the apex |
//! | `*.corp.*` | glob over the whole host (`*` any run, `?` one character) |
//! | `192.168.1.5` / `fd00::1` | that exact address |
//! | `10.0.0.0/8` / `fd00::/8` | any address in the range |
//! | `example.com:8080` | the host, but only on that port |
//! | `https://example.com` | the host, but only over that scheme |
//! | `<local>` | any host name with no dot in it, plus loopback |
//! | `<loopback>` | loopback addresses and `localhost` |
//! | `/regex/` | a regular expression, anchored to the whole host |
//!
//! Every pattern is anchored: `example.com` never matches
//! `example.com.attacker.net`. That matters more here than elsewhere, because a
//! rule that matches too much sends traffic around the proxy and exposes the
//! real IP.

pub mod address;
pub mod address_laws;
pub mod ascii_laws;
pub mod cover_laws;
pub mod domain;
pub mod error;
pub mod form_laws;
pub mod glob;
pub mod glob_laws;
pub mod grammar_laws;
pub mod host;
pub mod laws;
pub mod list_laws;
pub mod matcher;
pub mod number;
pub mod parse;
pub mod pattern;
pub mod reading_laws;
pub mod report;
pub mod reread;
pub mod rule;
pub mod spelling_laws;
pub mod store_laws;
pub mod target;
pub mod target_laws;
pub mod text;
pub mod text_laws;
pub mod unicode;

pub use error::BypassRuleError;
pub use glob::glob_match;
pub use matcher::BypassMatcher;
pub use parse::parse_rule;
pub use report::{check_proxy_bypass_rules, report_rules, validate_rules, BypassRuleReport};
pub use rule::BypassRule;
