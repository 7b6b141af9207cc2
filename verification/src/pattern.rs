//! Regular expressions over whole host names.

use regex_lite::Regex;
use vstd::prelude::*;

verus! {

#[verifier::external_type_specification]
#[verifier::external_body]
pub struct ExRegex(regex_lite::Regex);

#[verifier::external_type_specification]
#[verifier::external_body]
pub struct ExRegexError(regex_lite::Error);

/// Whether `regex_lite::Regex::new` accepts a pattern on a machine with words
/// of this many bits. The compiled expression may not take more than ten
/// mebibytes, which is where the size of a word comes in.
pub uninterp spec fn regex_builds(pattern: Seq<char>, word: u32) -> bool;

/// Whether a pattern compiles.
pub open spec fn regex_compiles(pattern: Seq<char>) -> bool {
    regex_builds(pattern, usize::BITS)
}

/// The pattern that `regex_lite::Regex::new` made a regular expression from,
/// which `regex_lite::Regex::as_str` gives back.
pub uninterp spec fn regex_pattern(regex: regex_lite::Regex) -> Seq<char>;

/// Whether a regular expression with this pattern matches somewhere in a text,
/// as `regex_lite::Regex::is_match` decides it.
pub uninterp spec fn regex_finds(pattern: Seq<char>, text: Seq<char>) -> bool;

/// `regex_lite::Regex::new`: succeeds on exactly the patterns of which
/// `regex_builds` holds for the words of this machine, and the compiled
/// expression keeps its pattern. Which patterns these are is not stated.
#[verifier::external_body]
fn compile(pattern: &str) -> (compiled: Result<Regex, regex_lite::Error>)
    ensures
        compiled is Ok <==> regex_builds(pattern@, usize::BITS),
        compiled matches Ok(regex) ==> regex_pattern(regex) == pattern@,
{
    Regex::new(pattern)
}

/// `regex_lite::Regex::is_match`: the answer depends on the pattern and the
/// text alone; `regex_finds` names it. What a pattern matches is not stated.
#[verifier::external_body]
pub(crate) fn is_match(regex: &Regex, text: &str) -> (found: bool)
    ensures
        found == regex_finds(regex_pattern(*regex), text@),
{
    regex.is_match(text)
}

/// The pattern that matches a body against a whole text, whatever the case of
/// its letters. That takes a body which is an expression of its own: one that
/// closes the group, as `a)|(?:b` does, would leave an anchor on each side of
/// the alternation.
pub open spec fn anchored(body: Seq<char>) -> Seq<char> {
    "(?i)^(?:"@ + body + ")$"@
}

/// A body that compiles on its own and in its anchored form.
pub open spec fn anchors(body: Seq<char>) -> bool {
    regex_compiles(body) && regex_compiles(anchored(body))
}

/// Compiles a body so that it is anchored at both ends and ignores case. A body
/// that is no expression of its own is refused.
pub fn compile_anchored(body: &str) -> (compiled: Result<Regex, regex_lite::Error>)
    ensures
        compiled is Ok <==> anchors(body@),
        compiled matches Ok(regex) ==> regex_pattern(regex) == anchored(body@),
{
    if let Err(e) = compile(body) {
        return Err(e);
    }
    let mut pattern = "(?i)^(?:".to_owned();
    pattern.append(body);
    pattern.append(")$");
    compile(pattern.as_str())
}

} // verus!
