//! Laws of globs: what each character of a pattern stands for, and how patterns
//! put together match values put together.

use crate::glob::{glob, glob_at};
use vstd::prelude::*;

verus! {

/// A match looks only at what is left of the pattern and of the value.
proof fn lemma_glob_shift(p: Seq<char>, v: Seq<char>, k: int, l: int, i: int, j: int)
    requires
        0 <= k <= i <= p.len(),
        0 <= l <= j <= v.len(),
    ensures
        glob_at(p, v, i, j) == glob_at(p.skip(k), v.skip(l), i - k, j - l),
    decreases p.len() - i, v.len() - j,
{
    if i < p.len() {
        assert(p.skip(k)[i - k] == p[i]);
        if p[i] == '*' {
            lemma_glob_shift(p, v, k, l, i + 1, j);
            if j < v.len() {
                lemma_glob_shift(p, v, k, l, i, j + 1);
            }
        } else if j < v.len() {
            assert(v.skip(l)[j - l] == v[j]);
            lemma_glob_shift(p, v, k, l, i + 1, j + 1);
        }
    }
}

/// Where a joined pattern matches, its first part takes a first part of the
/// value.
proof fn lemma_glob_split(a: Seq<char>, b: Seq<char>, v: Seq<char>, i: int, j: int) -> (k: int)
    requires
        0 <= i <= a.len(),
        0 <= j <= v.len(),
        glob_at(a + b, v, i, j),
    ensures
        j <= k <= v.len(),
        glob_at(a, v.take(k), i, j),
        glob_at(a + b, v, a.len() as int, k),
    decreases a.len() - i, v.len() - j,
{
    if i == a.len() {
        j
    } else {
        assert((a + b)[i] == a[i]);
        if a[i] == '*' {
            if glob_at(a + b, v, i + 1, j) {
                lemma_glob_split(a, b, v, i + 1, j)
            } else {
                lemma_glob_split(a, b, v, i, j + 1)
            }
        } else {
            let k = lemma_glob_split(a, b, v, i + 1, j + 1);
            assert(v.take(k)[j] == v[j]);
            k
        }
    }
}

proof fn lemma_glob_join(a: Seq<char>, b: Seq<char>, v: Seq<char>, k: int, i: int, j: int)
    requires
        0 <= i <= a.len(),
        0 <= j <= k <= v.len(),
        glob_at(a, v.take(k), i, j),
        glob_at(a + b, v, a.len() as int, k),
    ensures
        glob_at(a + b, v, i, j),
    decreases a.len() - i, k - j,
{
    if i < a.len() {
        assert((a + b)[i] == a[i]);
        if a[i] == '*' {
            if glob_at(a, v.take(k), i + 1, j) {
                lemma_glob_join(a, b, v, k, i + 1, j);
            } else {
                lemma_glob_join(a, b, v, k, i, j + 1);
            }
        } else {
            assert(v.take(k)[j] == v[j]);
            lemma_glob_join(a, b, v, k, i + 1, j + 1);
        }
    }
}

/// The value falls into two parts at a place, of which the one matches `a` and
/// the other `b`.
pub open spec fn matched_apart(a: Seq<char>, b: Seq<char>, v: Seq<char>, k: int) -> bool {
    0 <= k <= v.len() && glob(a, v.take(k)) && glob(b, v.skip(k))
}

/// One pattern behind another matches exactly the values that the one and the
/// other match one behind the other.
pub proof fn joined_patterns_match_joined_values(a: Seq<char>, b: Seq<char>, v: Seq<char>)
    ensures
        glob(a + b, v) <==> exists|k: int| #[trigger] matched_apart(a, b, v, k),
{
    let n = a.len() as int;
    assert((a + b).skip(n) =~= b);
    if glob(a + b, v) {
        let k = lemma_glob_split(a, b, v, 0, 0);
        lemma_glob_shift(a + b, v, n, k, n, k);
        assert(matched_apart(a, b, v, k));
    }
    if exists|k: int| #[trigger] matched_apart(a, b, v, k) {
        let k = choose|k: int| #[trigger] matched_apart(a, b, v, k);
        lemma_glob_shift(a + b, v, n, k, n, k);
        lemma_glob_join(a, b, v, k, 0, 0);
    }
}

/// The pattern without characters matches the value without characters alone.
pub proof fn empty_pattern_matches_the_empty_value(v: Seq<char>)
    ensures
        glob(Seq::<char>::empty(), v) <==> v.len() == 0,
{
}

/// What a pattern of one character matches: `*` any run, `?` any one character,
/// and any other character itself.
pub proof fn one_character_matches_what_it_stands_for(c: char, v: Seq<char>)
    ensures
        c == '*' ==> glob(seq![c], v),
        c == '?' ==> (glob(seq![c], v) <==> v.len() == 1),
        c != '*' && c != '?' ==> (glob(seq![c], v) <==> v == seq![c]),
{
    reveal_with_fuel(glob_at, 3);
    if c == '*' {
        lemma_lone_star(v, 0);
    } else {
        assert(seq![c][0] == c);
        if v.len() == 1 && v[0] == c {
            assert(v =~= seq![c]);
        }
    }
}

proof fn lemma_lone_star(v: Seq<char>, j: int)
    requires
        0 <= j <= v.len(),
    ensures
        glob_at(seq!['*'], v, 0, j),
    decreases v.len() - j,
{
    if j < v.len() {
        lemma_lone_star(v, j + 1);
    } else {
        assert(glob_at(seq!['*'], v, 1, j));
    }
}

/// A star between two patterns takes any run of characters, and the empty run
/// as well.
pub proof fn star_takes_any_run(
    a: Seq<char>,
    b: Seq<char>,
    x: Seq<char>,
    y: Seq<char>,
    z: Seq<char>,
)
    requires
        glob(a, x),
        glob(b, z),
    ensures
        glob(a + seq!['*'] + b, x + y + z),
        glob(a + seq!['*'] + b, x + z),
{
    lemma_star_run(a, b, x, y, z);
    lemma_star_run(a, b, x, Seq::empty(), z);
    assert(x + Seq::<char>::empty() + z =~= x + z);
}

proof fn lemma_star_run(a: Seq<char>, b: Seq<char>, x: Seq<char>, y: Seq<char>, z: Seq<char>)
    requires
        glob(a, x),
        glob(b, z),
    ensures
        glob(a + seq!['*'] + b, x + y + z),
{
    let m = x.len() as int;
    let n = (x + y).len() as int;
    let v = x + y + z;
    one_character_matches_what_it_stands_for('*', y);
    assert((x + y).take(m) =~= x);
    assert((x + y).skip(m) =~= y);
    assert(matched_apart(a, seq!['*'], x + y, m));
    joined_patterns_match_joined_values(a, seq!['*'], x + y);
    assert(v.take(n) =~= x + y);
    assert(v.skip(n) =~= z);
    assert(matched_apart(a + seq!['*'], b, v, n));
    joined_patterns_match_joined_values(a + seq!['*'], b, v);
}

/// What a pattern with a star matches begins with what the pattern before the
/// star matches and ends, without overlap, with what the pattern behind it does.
pub proof fn star_leaves_both_sides(a: Seq<char>, b: Seq<char>, v: Seq<char>)
    requires
        glob(a + seq!['*'] + b, v),
    ensures
        exists|i: int, j: int|
            0 <= i <= j <= v.len() && glob(a, #[trigger] v.take(i)) && glob(b, #[trigger] v.skip(j)),
{
    joined_patterns_match_joined_values(a + seq!['*'], b, v);
    let j = choose|j: int| #[trigger] matched_apart(a + seq!['*'], b, v, j);
    joined_patterns_match_joined_values(a, seq!['*'], v.take(j));
    let i = choose|i: int| #[trigger] matched_apart(a, seq!['*'], v.take(j), i);
    assert(v.take(j).take(i) =~= v.take(i));
    assert(glob(a, v.take(i)) && glob(b, v.skip(j)));
}

/// A star matches in one of two ways: it takes nothing, or it takes the first
/// character and goes on.
pub proof fn star_takes_nothing_or_one_more(b: Seq<char>, v: Seq<char>)
    ensures
        glob(seq!['*'] + b, v) <==> glob(b, v) || (v.len() > 0 && glob(seq!['*'] + b, v.skip(1))),
{
    let p = seq!['*'] + b;
    assert(p.skip(1) =~= b);
    assert(v.skip(0) =~= v);
    assert(p.skip(0) =~= p);
    lemma_glob_shift(p, v, 1, 0, 1, 0);
    if v.len() > 0 {
        lemma_glob_shift(p, v, 0, 1, 0, 1);
    }
}

} // verus!
