//! Searching, cutting and trimming text, character by character.

use crate::unicode::{
    ascii_lower_char, ascii_lowered, is_white_space, same_ignoring_ascii_case, white_space,
};
use vstd::prelude::*;

verus! {

/// `String::push` appends one character.
pub assume_specification[ String::push ](s: &mut String, c: char)
    ensures
        final(s)@ == old(s)@.push(c),
;

/// The characters of a text.
pub fn chars_of(s: &str) -> (v: Vec<char>)
    ensures
        v@ == s@,
{
    let mut v: Vec<char> = Vec::new();
    for c in it: s.chars()
        invariant
            it.seq() == s@,
            v@ == s@.take(it.index()),
    {
        v.push(c);
        assert(v@ =~= s@.take(it.index() + 1));
    }
    assert(s@.take(s@.len() as int) =~= s@);
    v
}

/// Whether two texts are the same.
pub fn same(a: &str, b: &str) -> (r: bool)
    ensures
        r == (a@ == b@),
{
    let u = chars_of(a);
    let v = chars_of(b);
    if u.len() != v.len() {
        return false;
    }
    let mut i: usize = 0;
    while i < u.len()
        invariant
            i <= u.len(),
            u.len() == v.len(),
            u@ == a@,
            v@ == b@,
            forall|j: int| 0 <= j < i ==> u@[j] == v@[j],
        decreases u.len() - i,
    {
        if u[i] != v[i] {
            return false;
        }
        i += 1;
    }
    assert(u@ =~= v@);
    true
}

/// The first position of `c` in `s` from `i` on; the length of `s` where there
/// is none.
pub open spec fn find_from(s: Seq<char>, c: char, i: int) -> int
    decreases s.len() - i,
{
    if i >= s.len() {
        s.len() as int
    } else if s[i] == c {
        i
    } else {
        find_from(s, c, i + 1)
    }
}

/// The first position of `c` in `s`, or the length of `s`.
pub open spec fn find(s: Seq<char>, c: char) -> int {
    find_from(s, c, 0)
}

/// The last position of `c` among the first `n` characters of `s`, or -1.
pub open spec fn rfind_before(s: Seq<char>, c: char, n: int) -> int
    decreases n,
{
    if n <= 0 {
        -1
    } else if s[n - 1] == c {
        n - 1
    } else {
        rfind_before(s, c, n - 1)
    }
}

/// The last position of `c` in `s`, or -1.
pub open spec fn rfind(s: Seq<char>, c: char) -> int {
    rfind_before(s, c, s.len() as int)
}

/// `pat` stands in `s` at position `i`.
pub open spec fn stands_at(s: Seq<char>, pat: Seq<char>, i: int) -> bool {
    0 <= i && i + pat.len() <= s.len() && s.subrange(i, i + pat.len()) == pat
}

/// The first position from `i` on at which `pat` stands in `s`; the length of
/// `s` where there is none.
pub open spec fn find_text_from(s: Seq<char>, pat: Seq<char>, i: int) -> int
    decreases s.len() - i,
{
    if i >= s.len() {
        s.len() as int
    } else if stands_at(s, pat, i) {
        i
    } else {
        find_text_from(s, pat, i + 1)
    }
}

/// The first position at which `pat` stands in `s`, or the length of `s`.
pub open spec fn find_text(s: Seq<char>, pat: Seq<char>) -> int {
    find_text_from(s, pat, 0)
}

/// How many of the characters of `s` from `i` on are white space, counted
/// until the first that is not.
pub open spec fn leading_space(s: Seq<char>, i: int) -> int
    decreases s.len() - i,
{
    if 0 <= i < s.len() && white_space(s[i]) {
        1 + leading_space(s, i + 1)
    } else {
        0
    }
}

/// The length of the first `n` characters of `s` without the white space at
/// their end.
pub open spec fn solid_len(s: Seq<char>, n: int) -> int
    decreases n,
{
    if 0 < n <= s.len() && white_space(s[n - 1]) {
        solid_len(s, n - 1)
    } else {
        n
    }
}

/// `s` without the white space at its two ends.
pub open spec fn trimmed(s: Seq<char>) -> Seq<char> {
    let from = leading_space(s, 0);
    let to = solid_len(s, s.len() as int);
    if from < to {
        s.subrange(from, to)
    } else {
        Seq::empty()
    }
}

/// The length of the first `n` characters of `s` without the dots at their end.
pub open spec fn undotted_len(s: Seq<char>, n: int) -> int
    decreases n,
{
    if 0 < n <= s.len() && s[n - 1] == '.' {
        undotted_len(s, n - 1)
    } else {
        n
    }
}

/// `s` without the dots at its end.
pub open spec fn undotted(s: Seq<char>) -> Seq<char> {
    s.take(undotted_len(s, s.len() as int))
}

pub proof fn lemma_find_from(s: Seq<char>, c: char, i: int)
    requires
        0 <= i <= s.len(),
    ensures
        i <= find_from(s, c, i) <= s.len(),
        find_from(s, c, i) < s.len() ==> s[find_from(s, c, i)] == c,
        forall|j: int| i <= j < find_from(s, c, i) ==> s[j] != c,
    decreases s.len() - i,
{
    if i < s.len() && s[i] != c {
        lemma_find_from(s, c, i + 1);
    }
}

pub proof fn lemma_rfind_before(s: Seq<char>, c: char, n: int)
    requires
        0 <= n <= s.len(),
    ensures
        -1 <= rfind_before(s, c, n) < n,
        rfind_before(s, c, n) >= 0 ==> s[rfind_before(s, c, n)] == c,
        forall|j: int| rfind_before(s, c, n) < j < n ==> s[j] != c,
    decreases n,
{
    if n > 0 && s[n - 1] != c {
        lemma_rfind_before(s, c, n - 1);
    }
}

pub proof fn lemma_find_text_from(s: Seq<char>, pat: Seq<char>, i: int)
    requires
        0 <= i <= s.len(),
        pat.len() > 0,
    ensures
        i <= find_text_from(s, pat, i) <= s.len(),
        find_text_from(s, pat, i) < s.len() ==> stands_at(s, pat, find_text_from(s, pat, i)),
        forall|j: int| i <= j < find_text_from(s, pat, i) ==> !stands_at(s, pat, j),
    decreases s.len() - i,
{
    if i < s.len() && !stands_at(s, pat, i) {
        lemma_find_text_from(s, pat, i + 1);
    }
}

pub proof fn lemma_leading_space(s: Seq<char>, i: int)
    requires
        0 <= i <= s.len(),
    ensures
        0 <= leading_space(s, i) <= s.len() - i,
        forall|j: int| i <= j < i + leading_space(s, i) ==> white_space(#[trigger] s[j]),
        i + leading_space(s, i) < s.len() ==> !white_space(s[i + leading_space(s, i)]),
    decreases s.len() - i,
{
    if i < s.len() && white_space(s[i]) {
        lemma_leading_space(s, i + 1);
    }
}

pub proof fn lemma_solid_len(s: Seq<char>, n: int)
    requires
        0 <= n <= s.len(),
    ensures
        0 <= solid_len(s, n) <= n,
        forall|j: int| solid_len(s, n) <= j < n ==> white_space(#[trigger] s[j]),
        solid_len(s, n) > 0 ==> !white_space(s[solid_len(s, n) - 1]),
    decreases n,
{
    if n > 0 && white_space(s[n - 1]) {
        lemma_solid_len(s, n - 1);
    }
}

pub proof fn lemma_undotted_len(s: Seq<char>, n: int)
    requires
        0 <= n <= s.len(),
    ensures
        0 <= undotted_len(s, n) <= n,
        forall|j: int| undotted_len(s, n) <= j < n ==> #[trigger] s[j] == '.',
        undotted_len(s, n) > 0 ==> s[undotted_len(s, n) - 1] != '.',
    decreases n,
{
    if n > 0 && s[n - 1] == '.' {
        lemma_undotted_len(s, n - 1);
    }
}

/// The first position of `c`, or the length.
pub fn find_char(s: &Vec<char>, c: char) -> (r: usize)
    ensures
        r == find(s@, c),
        r <= s@.len(),
{
    let mut i: usize = 0;
    while i < s.len()
        invariant
            i <= s.len(),
            find(s@, c) == find_from(s@, c, i as int),
        decreases s.len() - i,
    {
        if s[i] == c {
            return i;
        }
        i += 1;
    }
    i
}

/// The last position of `c`, if there is one.
pub fn rfind_char(s: &Vec<char>, c: char) -> (r: Option<usize>)
    ensures
        match r {
            Some(i) => i == rfind(s@, c) && i < s@.len(),
            None => rfind(s@, c) == -1,
        },
{
    let mut n: usize = s.len();
    while n > 0
        invariant
            n <= s.len(),
            rfind(s@, c) == rfind_before(s@, c, n as int),
        decreases n,
    {
        if s[n - 1] == c {
            return Some(n - 1);
        }
        n -= 1;
    }
    None
}

/// Whether `pat` stands at position `i`.
pub fn is_at(s: &Vec<char>, pat: &Vec<char>, i: usize) -> (r: bool)
    requires
        i <= s@.len(),
    ensures
        r == stands_at(s@, pat@, i as int),
{
    if pat.len() > s.len() - i {
        return false;
    }
    let mut k: usize = 0;
    while k < pat.len()
        invariant
            k <= pat.len(),
            i + pat.len() <= s.len(),
            forall|j: int| 0 <= j < k ==> s@[i + j] == pat@[j],
        decreases pat.len() - k,
    {
        if s[i + k] != pat[k] {
            assert(s@.subrange(i as int, i + pat@.len())[k as int] != pat@[k as int]);
            return false;
        }
        k += 1;
    }
    assert(s@.subrange(i as int, i + pat@.len()) =~= pat@);
    true
}

/// The first position at which `pat` stands, or the length.
pub fn find_pattern(s: &Vec<char>, pat: &Vec<char>) -> (r: usize)
    ensures
        r == find_text(s@, pat@),
        r <= s@.len(),
{
    let mut i: usize = 0;
    while i < s.len()
        invariant
            i <= s.len(),
            find_text(s@, pat@) == find_text_from(s@, pat@, i as int),
        decreases s.len() - i,
    {
        if is_at(s, pat, i) {
            return i;
        }
        i += 1;
    }
    i
}

/// Whether `c` occurs in `s`.
pub fn has_char(s: &str, c: char) -> (r: bool)
    ensures
        r == s@.contains(c),
{
    let v = chars_of(s);
    let i = find_char(&v, c);
    proof {
        lemma_find_from(s@, c, 0);
    }
    i < v.len()
}

/// Whether `s` ends with `suffix`.
pub fn ends_with(s: &str, suffix: &str) -> (r: bool)
    ensures
        r == suffix@.is_suffix_of(s@),
{
    let v = chars_of(s);
    let p = chars_of(suffix);
    if p.len() > v.len() {
        return false;
    }
    let r = is_at(&v, &p, v.len() - p.len());
    assert(r == suffix@.is_suffix_of(s@));
    r
}

/// The part of a text between two positions.
pub fn part<'a>(s: &'a str, from: usize, to: usize) -> (r: &'a str)
    requires
        from <= to <= s@.len(),
    ensures
        r@ == s@.subrange(from as int, to as int),
{
    s.substring_char(from, to)
}

/// A text without the white space at its two ends.
pub fn trim<'a>(s: &'a str) -> (r: &'a str)
    ensures
        r@ == trimmed(s@),
{
    let v = chars_of(s);
    let mut from: usize = 0;
    while from < v.len() && is_white_space(v[from])
        invariant
            from <= v.len(),
            v@ == s@,
            leading_space(s@, 0) == from + leading_space(s@, from as int),
        decreases v.len() - from,
    {
        from += 1;
    }
    let mut to: usize = v.len();
    while to > 0 && is_white_space(v[to - 1])
        invariant
            to <= v.len(),
            v@ == s@,
            solid_len(s@, s@.len() as int) == solid_len(s@, to as int),
        decreases to,
    {
        to -= 1;
    }
    if from < to {
        part(s, from, to)
    } else {
        assert(s@.subrange(0, 0) =~= Seq::<char>::empty());
        part(s, 0, 0)
    }
}

/// A text without the dots at its end.
pub fn trim_end_dots<'a>(s: &'a str) -> (r: &'a str)
    ensures
        r@ == undotted(s@),
{
    let v = chars_of(s);
    let mut to: usize = v.len();
    while to > 0 && v[to - 1] == '.'
        invariant
            to <= v.len(),
            v@ == s@,
            undotted_len(s@, s@.len() as int) == undotted_len(s@, to as int),
        decreases to,
    {
        to -= 1;
    }
    part(s, 0, to)
}

/// A character with `A` to `Z` replaced by `a` to `z`.
pub fn to_ascii_lower(c: char) -> (r: char)
    ensures
        r == ascii_lower_char(c),
{
    if 'A' <= c && c <= 'Z' {
        ((c as u8) + 32) as char
    } else {
        c
    }
}

/// Whether two texts differ at most in the case of their ASCII letters.
pub fn eq_ignore_ascii_case(a: &str, b: &str) -> (r: bool)
    ensures
        r == same_ignoring_ascii_case(a@, b@),
{
    let u = chars_of(a);
    let v = chars_of(b);
    if u.len() != v.len() {
        assert(ascii_lowered(a@).len() != ascii_lowered(b@).len());
        return false;
    }
    let mut i: usize = 0;
    while i < u.len()
        invariant
            i <= u.len(),
            u.len() == v.len(),
            u@ == a@,
            v@ == b@,
            forall|j: int|
                0 <= j < i ==> #[trigger] ascii_lowered(a@)[j] == ascii_lowered(b@)[j],
        decreases u.len() - i,
    {
        if to_ascii_lower(u[i]) != to_ascii_lower(v[i]) {
            assert(ascii_lowered(a@)[i as int] != ascii_lowered(b@)[i as int]);
            return false;
        }
        i += 1;
    }
    assert(ascii_lowered(a@) =~= ascii_lowered(b@));
    true
}

} // verus!
