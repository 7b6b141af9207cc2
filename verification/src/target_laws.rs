//! Laws of targets: what a pasted URL, a host with a port or a bare host asks
//! for.

use crate::host::{host_port, normal_host};
use crate::reread::lemma_trimmed_already;
use crate::target::{after_credentials, target_of, TargetModel};
use crate::text::{lemma_rfind_before, rfind, trimmed};
use crate::text_laws::{
    blank, cuts, host_ends_at_the_first_mark, in_lowercase, lemma_lowered_to,
    scheme_ends_at_the_first_mark, schemeless, trimming_takes_all_white_space_around, uncut,
};
use crate::unicode::white_space;
use vstd::prelude::*;
use vstd::utf8::is_ascii_chars;

verus! {

/// A text that begins and ends with something other than white space.
pub open spec fn solid(s: Seq<char>) -> bool {
    s.len() > 0 && !white_space(s[0]) && !white_space(s.last())
}

/// Nothing stands behind the last `@` but what follows it.
proof fn lemma_after_credentials(u: Seq<char>, h: Seq<char>)
    requires
        !h.contains('@'),
    ensures
        after_credentials(h) == h,
        after_credentials(u + seq!['@'] + h) == h,
{
    lemma_rfind_before(h, '@', h.len() as int);
    assert(h.skip(0) =~= h);
    let s = u + seq!['@'] + h;
    let n = u.len() as int;
    lemma_rfind_before(s, '@', s.len() as int);
    let f = rfind(s, '@');
    assert(s[n] == '@');
    if f > n {
        assert(s[f] == h[f - n - 1]);
    }
    assert(s.skip(n + 1) =~= h);
}

proof fn lemma_solid_url(s: Seq<char>, h: Seq<char>)
    requires
        s.len() > 0 ==> !white_space(s[0]),
        h.len() > 0,
        !white_space(h.last()),
    ensures
        trimmed(s + "://"@ + h) == s + "://"@ + h,
        (s + "://"@ + h).len() > 0,
{
    reveal_strlit("://");
    let t = s + "://"@ + h;
    assert(t.last() == h.last());
    assert(t[0] == if s.len() > 0 { s[0] } else { "://"@[0] });
    lemma_trimmed_already(t);
}

/// The path, the query and the fragment of a URL mean nothing to what it asks
/// for, whatever stands in them.
pub proof fn target_ends_at_its_path(s: Seq<char>, h: Seq<char>, end: char, rest: Seq<char>)
    requires
        schemeless(s),
        s.len() > 0 ==> !white_space(s[0]),
        h.len() > 0,
        !white_space(h.last()),
        uncut(h, true),
        cuts(end, true),
        rest.len() > 0 ==> !white_space(rest.last()),
    ensures
        target_of(s + "://"@ + (h + seq![end] + rest)) == target_of(s + "://"@ + h),
{
    let long = h + seq![end] + rest;
    assert(long.last() == if rest.len() > 0 { rest.last() } else { end });
    lemma_solid_url(s, long);
    lemma_solid_url(s, h);
    scheme_ends_at_the_first_mark(s, long);
    scheme_ends_at_the_first_mark(s, h);
    host_ends_at_the_first_mark(h, end, rest, true);
}

/// The path, the query and the fragment mean nothing without a scheme either.
pub proof fn bare_target_ends_at_its_path(h: Seq<char>, end: char, rest: Seq<char>)
    requires
        solid(h),
        uncut(h, true),
        cuts(end, true),
        rest.len() > 0 ==> !white_space(rest.last()),
        schemeless(h + seq![end] + rest),
    ensures
        target_of(h + seq![end] + rest) == target_of(h),
{
    let long = h + seq![end] + rest;
    assert(long.last() == if rest.len() > 0 { rest.last() } else { end });
    assert(long[0] == h[0]);
    lemma_trimmed_already(long);
    lemma_trimmed_already(h);
    lemma_uncut_is_schemeless(h);
    scheme_ends_at_the_first_mark(long, Seq::empty());
    scheme_ends_at_the_first_mark(h, Seq::empty());
    host_ends_at_the_first_mark(h, end, rest, true);
}

proof fn lemma_uncut_is_schemeless(h: Seq<char>)
    requires
        uncut(h, true),
    ensures
        schemeless(h),
{
    assert forall|i: int| 0 <= i && i + 2 < h.len() implies !(#[trigger] h[i] == ':' && h[i + 1]
        == '/' && h[i + 2] == '/') by {
        assert(!cuts(h[i + 1], true));
    }
}

/// Credentials before the host mean nothing to what a URL asks for.
pub proof fn credentials_mean_nothing(s: Seq<char>, u: Seq<char>, h: Seq<char>)
    requires
        schemeless(s),
        s.len() > 0 ==> !white_space(s[0]),
        u.len() > 0 ==> !white_space(u[0]),
        solid(h),
        uncut(u, true),
        uncut(h, true),
        !h.contains('@'),
    ensures
        target_of(s + "://"@ + (u + seq!['@'] + h)) == target_of(s + "://"@ + h),
        target_of(u + seq!['@'] + h) == target_of(h),
{
    let x = u + seq!['@'] + h;
    assert(x.last() == h.last());
    assert(x[0] == if u.len() > 0 { u[0] } else { '@' });
    assert forall|i: int| 0 <= i < x.len() implies !cuts(#[trigger] x[i], true) by {
        if i < u.len() {
            assert(x[i] == u[i]);
        } else if i > u.len() {
            assert(x[i] == h[i - u.len() - 1]);
        }
    }
    lemma_solid_url(s, x);
    lemma_solid_url(s, h);
    lemma_trimmed_already(x);
    lemma_trimmed_already(h);
    lemma_uncut_is_schemeless(x);
    lemma_uncut_is_schemeless(h);
    scheme_ends_at_the_first_mark(s, x);
    scheme_ends_at_the_first_mark(s, h);
    scheme_ends_at_the_first_mark(x, Seq::empty());
    scheme_ends_at_the_first_mark(h, Seq::empty());
    host_ends_at_the_first_mark(x, '/', Seq::empty(), true);
    host_ends_at_the_first_mark(h, '/', Seq::empty(), true);
    lemma_after_credentials(u, h);
}

/// What a host with an optional port asks for over a scheme or none: the host in
/// its normal form, the scheme in lowercase, and the port that is written, or
/// else 80 for `http` and 443 for `https`. Without a host it asks for nothing.
pub open spec fn asked_for(scheme: Option<Seq<char>>, h: Seq<char>) -> Option<TargetModel> {
    match host_port(h) {
        Ok((host, port)) if normal_host(host).len() > 0 => Some(
            TargetModel {
                host: normal_host(host),
                port: if port is Some {
                    port
                } else if scheme == Some("http"@) {
                    Some(80u16)
                } else if scheme == Some("https"@) {
                    Some(443u16)
                } else {
                    None
                },
                scheme,
            },
        ),
        _ => None,
    }
}

/// A host with an optional port asks for itself, over a scheme or none.
pub proof fn target_is_what_is_asked_for(s: Seq<char>, low: Seq<char>, h: Seq<char>)
    requires
        schemeless(s),
        in_lowercase(s, low),
        s.len() > 0 ==> !white_space(s[0]),
        solid(h),
        uncut(h, true),
        !h.contains('@'),
    ensures
        target_of(s + "://"@ + h) == asked_for(Some(low), h),
        target_of(h) == asked_for(None, h),
{
    lemma_solid_url(s, h);
    lemma_trimmed_already(h);
    lemma_uncut_is_schemeless(h);
    scheme_ends_at_the_first_mark(s, h);
    scheme_ends_at_the_first_mark(h, Seq::empty());
    host_ends_at_the_first_mark(h, '/', Seq::empty(), true);
    lemma_after_credentials(Seq::empty(), h);
    if is_ascii_chars(s) {
        lemma_lowered_to(s, low);
    }
}

/// White space around a target means nothing, and white space alone asks for
/// nothing.
pub proof fn blank_target_asks_for_nothing(a: Seq<char>, t: Seq<char>, b: Seq<char>)
    requires
        blank(a),
        blank(b),
        solid(t),
    ensures
        target_of(a + t + b) == target_of(t),
        target_of(a) is None,
{
    trimming_takes_all_white_space_around(a, t, b);
    lemma_trimmed_already(t);
    trimming_takes_all_white_space_around(a, Seq::empty(), Seq::empty());
    assert(a + Seq::<char>::empty() + Seq::<char>::empty() =~= a);
}

} // verus!
