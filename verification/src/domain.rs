//! Internationalized domains.

use crate::error::BypassRuleError;
use crate::host::{check_host, domain_ok};
use crate::unicode::no_ascii_upper;
use vstd::prelude::*;
use vstd::utf8::is_ascii_chars;

verus! {

/// The characters of a text that may be missing.
pub open spec fn opt_text(s: Option<String>) -> Option<Seq<char>> {
    match s {
        Some(t) => Some(t@),
        None => None,
    }
}

/// The host that `url::Url::host_str` gives of what `url::Url::parse` makes of
/// a text; none where the text is no URL or the URL has no host.
pub uninterp spec fn url_host_of(input: Seq<char>) -> Option<Seq<char>>;

/// `url::Url::parse`, then `url::Url::host_str`: `url_host_of` names the
/// result. The host of an `http` URL is never empty, is encoded in ASCII, and
/// has its letters in lowercase.
#[verifier::external_body]
fn url_host(input: &str) -> (host: Option<String>)
    ensures
        opt_text(host) == url_host_of(input@),
        "http://"@.is_prefix_of(input@) ==> match host {
            Some(h) => h@.len() > 0 && is_ascii_chars(h@) && no_ascii_upper(h@),
            None => true,
        },
{
    match url::Url::parse(input) {
        Ok(url) => match url.host_str() {
            Some(host) => Some(host.to_string()),
            None => None,
        },
        Err(_) => None,
    }
}

/// A domain in ASCII: a domain that is not goes through a URL.
pub open spec fn ascii_domain(host: Seq<char>) -> Result<Seq<char>, BypassRuleError> {
    if is_ascii_chars(host) {
        Ok(host)
    } else {
        match url_host_of("http://"@ + host) {
            Some(h) => Ok(h),
            None => Err(BypassRuleError::InvalidHost),
        }
    }
}

/// A text or a reason, with the text as its characters.
pub open spec fn text_result(r: Result<String, BypassRuleError>) -> Result<
    Seq<char>,
    BypassRuleError,
> {
    match r {
        Ok(t) => Ok(t@),
        Err(e) => Err(e),
    }
}

/// Browsers put punycode on the wire, so `例え.jp` typed as-is would match
/// nothing. Convert an internationalized domain once, at parse time.
pub fn to_ascii_domain(host: &str) -> (r: Result<String, BypassRuleError>)
    ensures
        text_result(r) == ascii_domain(host@),
        r matches Ok(d) ==> is_ascii_chars(d@),
        r matches Ok(d) ==> host@.len() > 0 ==> d@.len() > 0,
        r matches Ok(d) ==> no_ascii_upper(host@) ==> no_ascii_upper(d@),
{
    if host.is_ascii() {
        return Ok(host.to_owned());
    }
    let mut url = "http://".to_owned();
    url.append(host);
    assert("http://"@ =~= url@.take("http://"@.len() as int));
    match url_host(url.as_str()) {
        Some(h) => Ok(h),
        None => Err(BypassRuleError::InvalidHost),
    }
}

/// A domain, once it is in ASCII, that a rule may name.
pub open spec fn checked(domain: Result<Seq<char>, BypassRuleError>) -> Result<
    Seq<char>,
    BypassRuleError,
> {
    match domain {
        Ok(d) => if domain_ok(d) {
            Ok(d)
        } else {
            Err(BypassRuleError::InvalidHost)
        },
        Err(e) => Err(e),
    }
}

/// Refuses a converted domain that no rule may name.
pub fn check_domain(domain: Result<String, BypassRuleError>) -> (r: Result<
    String,
    BypassRuleError,
>)
    ensures
        text_result(r) == checked(text_result(domain)),
        r is Ok ==> r == domain,
{
    match domain {
        Ok(d) => match check_host(d.as_str()) {
            Ok(()) => Ok(d),
            Err(e) => Err(e),
        },
        Err(e) => Err(e),
    }
}

/// The domain that a host names.
pub open spec fn named_domain(host: Seq<char>) -> Result<Seq<char>, BypassRuleError> {
    checked(ascii_domain(host))
}

} // verus!
