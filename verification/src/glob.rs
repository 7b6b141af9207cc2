//! Globs over whole host names.

use crate::text::chars_of;
use vstd::prelude::*;

verus! {

/// The pattern from position `i` on matches the value from position `j` on:
/// `*` stands for any run of characters, `?` for exactly one, and any other
/// character for itself.
pub open spec fn glob_at(p: Seq<char>, v: Seq<char>, i: int, j: int) -> bool
    decreases p.len() - i, v.len() - j,
{
    if i >= p.len() {
        j >= v.len()
    } else if p[i] == '*' {
        glob_at(p, v, i + 1, j) || (j < v.len() && glob_at(p, v, i, j + 1))
    } else {
        j < v.len() && (p[i] == '?' || p[i] == v[j]) && glob_at(p, v, i + 1, j + 1)
    }
}

/// A pattern matches a whole value.
pub open spec fn glob(p: Seq<char>, v: Seq<char>) -> bool {
    glob_at(p, v, 0, 0)
}

/// A star takes in what stands before a place from which it matches.
proof fn lemma_star_absorbs(p: Seq<char>, v: Seq<char>, i: int, j: int, k: int)
    requires
        0 <= i < p.len(),
        p[i] == '*',
        0 <= j <= k <= v.len(),
        glob_at(p, v, i, k),
    ensures
        glob_at(p, v, i, j),
    decreases k - j,
{
    if j < k {
        lemma_star_absorbs(p, v, i, j + 1, k);
    }
}

/// A part of a pattern without stars takes as many characters as it has.
proof fn lemma_starless(p: Seq<char>, v: Seq<char>, i: int, n: int, j: int)
    requires
        0 <= i,
        0 <= n,
        i + n <= p.len(),
        0 <= j <= v.len(),
        forall|m: int| i <= m < i + n ==> p[m] != '*',
        glob_at(p, v, i, j),
    ensures
        j + n <= v.len(),
        glob_at(p, v, i + n, j + n),
    decreases n,
{
    if n > 0 {
        lemma_starless(p, v, i + 1, n - 1, j + 1);
    }
}

/// Where a star matches, what follows it matches from some later place.
proof fn lemma_star_place(p: Seq<char>, v: Seq<char>, i: int, j: int) -> (k: int)
    requires
        0 <= i < p.len(),
        p[i] == '*',
        0 <= j <= v.len(),
        glob_at(p, v, i, j),
    ensures
        j <= k <= v.len(),
        glob_at(p, v, i + 1, k),
    decreases v.len() - j,
{
    if glob_at(p, v, i + 1, j) {
        j
    } else {
        lemma_star_place(p, v, i, j + 1)
    }
}

/// Past the end of the value only stars match.
proof fn lemma_only_stars(p: Seq<char>, v: Seq<char>, i: int)
    requires
        0 <= i <= p.len(),
    ensures
        glob_at(p, v, i, v.len() as int) <==> (forall|m: int| i <= m < p.len() ==> p[m] == '*'),
    decreases p.len() - i,
{
    if i < p.len() {
        lemma_only_stars(p, v, i + 1);
        if forall|m: int| i + 1 <= m < p.len() ==> p[m] == '*' {
            if p[i] == '*' {
                assert(forall|m: int| i <= m < p.len() ==> p[m] == '*');
            }
        }
    }
}

/// `*` matches any run of characters (dots included), `?` exactly one.
pub fn glob_match(pattern: &str, value: &str) -> (r: bool)
    ensures
        r == glob(pattern@, value@),
{
    let p = chars_of(pattern);
    let v = chars_of(value);
    let mut pi: usize = 0;
    let mut vi: usize = 0;
    let mut star: Option<usize> = None;
    let mut resume: usize = 0;
    while vi < v.len()
        invariant
            p@ == pattern@,
            v@ == value@,
            pi <= p.len(),
            vi <= v.len(),
            match star {
                None => resume == 0 && glob(p@, v@) == glob_at(p@, v@, pi as int, vi as int),
                Some(s) => {
                    &&& s < pi
                    &&& p@[s as int] == '*'
                    &&& resume <= vi
                    &&& vi - resume == pi - s - 1
                    &&& forall|m: int| s < m < pi ==> p@[m] != '*'
                    &&& glob(p@, v@) == glob_at(p@, v@, s as int, resume as int)
                    &&& glob_at(p@, v@, s + 1, resume as int) == glob_at(
                        p@,
                        v@,
                        pi as int,
                        vi as int,
                    )
                },
            },
        decreases
                p.len() - (match star {
                    Some(s) => s + 1,
                    None => 0,
                }),
                v.len() - resume,
                v.len() - vi,
    {
        if pi < p.len() && p[pi] == '*' {
            proof {
                if let Some(s) = star {
                    if glob_at(p@, v@, s as int, resume as int) {
                        let k = lemma_star_place(p@, v@, s as int, resume as int);
                        lemma_starless(p@, v@, s + 1, pi - s - 1, k);
                        lemma_star_absorbs(p@, v@, pi as int, vi as int, k + (pi - s - 1));
                    }
                }
            }
            star = Some(pi);
            resume = vi;
            pi += 1;
        } else if pi < p.len() && (p[pi] == '?' || p[pi] == v[vi]) {
            pi += 1;
            vi += 1;
        } else if let Some(s) = star {
            pi = s + 1;
            resume += 1;
            vi = resume;
        } else {
            return false;
        }
    }
    proof {
        lemma_only_stars(p@, v@, pi as int);
        if let Some(s) = star {
            if glob_at(p@, v@, s as int, resume as int) {
                let k = lemma_star_place(p@, v@, s as int, resume as int);
                lemma_starless(p@, v@, s + 1, pi - s - 1, k);
                assert(k == resume);
            }
        }
    }
    while pi < p.len()
        invariant
            pi <= p.len(),
            p@ == pattern@,
            v@ == value@,
            glob(p@, v@) == (forall|m: int| pi <= m < p@.len() ==> p@[m] == '*'),
        decreases p.len() - pi,
    {
        if p[pi] != '*' {
            return false;
        }
        pi += 1;
    }
    true
}

} // verus!
