//! What a user types to try a list of rules on: a host, a `host:port`, or a
//! full URL.

use crate::domain::opt_text;
use crate::host::{cut_host, host_part, host_port, normal_host, normalize_host, split_host_port};
use crate::parse::{split_at_scheme, split_scheme};
use crate::rule::opt_str;
use crate::text::{chars_of, part, rfind, rfind_char, same, trim, trimmed};
use crate::unicode::{lowercased, to_lowercase};
use vstd::prelude::*;

verus! {

/// A request: a normalized host, and the port and scheme where they are known.
#[verifier::ext_equal]
pub struct TargetModel {
    pub host: Seq<char>,
    pub port: Option<u16>,
    pub scheme: Option<Seq<char>>,
}

/// The port that a scheme implies.
pub open spec fn implied_port(scheme: Option<Seq<char>>) -> Option<u16> {
    match scheme {
        Some(s) => if s == "http"@ {
            Some(80)
        } else if s == "https"@ {
            Some(443)
        } else {
            None
        },
        None => None,
    }
}

/// What follows the last `@`, or everything: credentials in a pasted URL are
/// not part of the host.
pub open spec fn after_credentials(s: Seq<char>) -> Seq<char> {
    s.skip(rfind(s, '@') + 1)
}

/// The request for a host with an optional port, over a scheme.
pub open spec fn requested(scheme: Option<Seq<char>>, s: Seq<char>) -> Option<TargetModel> {
    match host_port(s) {
        Err(_) => None,
        Ok((host, port)) => if normal_host(host).len() == 0 {
            None
        } else {
            Some(
                TargetModel {
                    host: normal_host(host),
                    port: match port {
                        Some(p) => Some(p),
                        None => implied_port(scheme),
                    },
                    scheme,
                },
            )
        },
    }
}

/// The request that a text writes.
pub open spec fn target_of(text: Seq<char>) -> Option<TargetModel> {
    let s = trimmed(text);
    if s.len() == 0 {
        None
    } else {
        match split_scheme(s) {
            Some((scheme, rest)) => requested(
                Some(lowercased(scheme)),
                after_credentials(host_part(rest, true)),
            ),
            None => requested(None, after_credentials(host_part(s, true))),
        }
    }
}

/// A host with its port and scheme, as the model of a request.
pub open spec fn target_view(t: Option<(String, Option<u16>, Option<String>)>) -> Option<
    TargetModel,
> {
    match t {
        Some((host, port, scheme)) => Some(
            TargetModel { host: host@, port, scheme: opt_text(scheme) },
        ),
        None => None,
    }
}

/// The port that a scheme implies.
pub fn default_port(scheme: Option<&str>) -> (r: Option<u16>)
    ensures
        r == implied_port(opt_str(scheme)),
{
    match scheme {
        Some(s) => if same(s, "http") {
            Some(80)
        } else if same(s, "https") {
            Some(443)
        } else {
            None
        },
        None => None,
    }
}

/// What follows the last `@`, or everything.
fn drop_credentials<'a>(s: &'a str) -> (r: &'a str)
    ensures
        r@ == after_credentials(s@),
{
    let v = chars_of(s);
    let n: usize = v.len();
    let from: usize = match rfind_char(&v, '@') {
        Some(i) => i + 1,
        None => 0,
    };
    let r = part(s, from, n);
    assert(r@ =~= s@.skip(from as int));
    r
}

/// Reads a host with an optional port, asked for over a scheme.
pub fn request_for(scheme: Option<String>, s: &str) -> (r: Option<
    (String, Option<u16>, Option<String>),
>)
    ensures
        target_view(r) == requested(opt_text(scheme), s@),
{
    match split_host_port(s) {
        Err(_) => None,
        Ok((host, port)) => {
            let host = normalize_host(host.as_str());
            if host.as_str().is_empty() {
                return None;
            }
            let implied = match &scheme {
                Some(name) => default_port(Some(name.as_str())),
                None => None,
            };
            let port = match port {
                Some(p) => Some(p),
                None => implied,
            };
            Some((host, port, scheme))
        },
    }
}

/// Split a user-typed test target into host, port and scheme.
pub fn parse_target(target: &str) -> (r: Option<(String, Option<u16>, Option<String>)>)
    ensures
        target_view(r) == target_of(target@),
{
    let t = trim(target);
    if t.is_empty() {
        return None;
    }
    match split_at_scheme(t) {
        Some((scheme, rest)) => request_for(
            Some(to_lowercase(scheme)),
            drop_credentials(cut_host(rest, true)),
        ),
        None => request_for(None, drop_credentials(cut_host(t, true))),
    }
}

} // verus!
