//! Numerals: decimal ports, prefixes and octets, hexadecimal address groups.

use crate::text::{chars_of, part};
use vstd::prelude::*;

verus! {

/// The value of a digit; -1 of any other character.
pub open spec fn digit_value(c: char) -> int {
    if '0' <= c <= '9' {
        c as int - '0' as int
    } else if 'a' <= c <= 'f' {
        c as int - 'a' as int + 10
    } else if 'A' <= c <= 'F' {
        c as int - 'A' as int + 10
    } else {
        -1
    }
}

/// A digit of the given radix.
pub open spec fn is_digit(c: char, radix: int) -> bool {
    0 <= digit_value(c) < radix
}

/// Digits of the given radix and nothing else.
pub open spec fn all_digits(s: Seq<char>, radix: int) -> bool {
    forall|i: int| 0 <= i < s.len() ==> is_digit(#[trigger] s[i], radix)
}

/// The number that a run of digits writes.
pub open spec fn number(s: Seq<char>, radix: int) -> int
    decreases s.len(),
{
    if s.len() == 0 {
        0
    } else {
        number(s.drop_last(), radix) * radix + digit_value(s.last())
    }
}

/// The digit of a value; letters are lowercase.
pub open spec fn digit_char(d: int) -> char {
    if d < 10 {
        (('0' as int + d) as u32) as char
    } else {
        (('a' as int + d - 10) as u32) as char
    }
}

/// The shortest run of digits that writes a number.
pub open spec fn numeral(n: int, radix: int) -> Seq<char>
    decreases n,
{
    if radix < 2 || n < radix {
        seq![digit_char(n)]
    } else {
        proof {
            assert(n / radix < n) by (nonlinear_arith)
                requires
                    radix >= 2,
                    n >= radix,
            ;
        }
        numeral(n / radix, radix).push(digit_char(n % radix))
    }
}

/// A number from 0 to `max` in digits, with any number of leading zeros.
pub open spec fn plain_number(s: Seq<char>, radix: int, max: int) -> Option<int> {
    if s.len() > 0 && all_digits(s, radix) && number(s, radix) <= max {
        Some(number(s, radix))
    } else {
        None
    }
}

/// A number from 0 to `max` in decimal digits, which a plus sign may precede.
pub open spec fn unsigned(s: Seq<char>, max: int) -> Option<int> {
    if s.len() > 0 && s[0] == '+' {
        plain_number(s.skip(1), 10, max)
    } else {
        plain_number(s, 10, max)
    }
}

/// Decimal digits and nothing else, but for a plus sign that may precede them.
pub open spec fn unsigned_text(s: Seq<char>) -> bool {
    let digits = if s.len() > 0 && s[0] == '+' {
        s.skip(1)
    } else {
        s
    };
    digits.len() > 0 && all_digits(digits, 10)
}

/// More digits never write a smaller number.
pub proof fn lemma_number_grows(s: Seq<char>, radix: int, n: int)
    requires
        radix == 10 || radix == 16,
        all_digits(s, radix),
        0 <= n <= s.len(),
    ensures
        0 <= number(s.take(n), radix) <= number(s, radix),
    decreases s.len(),
{
    if n == s.len() {
        assert(s.take(n) =~= s);
        if s.len() > 0 {
            assert(s.drop_last() =~= s.take(n - 1));
            lemma_number_grows(s.drop_last(), radix, n - 1);
            assert(s.drop_last().take(n - 1) =~= s.drop_last());
            assert(is_digit(s.last(), radix));
        }
    } else {
        lemma_number_grows(s.drop_last(), radix, n);
        assert(s.drop_last().take(n) =~= s.take(n));
        assert(is_digit(s.last(), radix));
    }
}

/// What is read as a number lies in its bounds.
pub proof fn lemma_unsigned(s: Seq<char>, max: int)
    ensures
        unsigned(s, max) matches Some(n) ==> 0 <= n <= max,
{
    let t = if s.len() > 0 && s[0] == '+' {
        s.skip(1)
    } else {
        s
    };
    if all_digits(t, 10) {
        lemma_number_grows(t, 10, 0);
    }
}

/// The value of a digit of the given radix.
fn digit(c: char, radix: u32) -> (r: Option<u32>)
    requires
        radix <= 16,
    ensures
        match r {
            Some(d) => is_digit(c, radix as int) && d == digit_value(c),
            None => !is_digit(c, radix as int),
        },
{
    let d: u32 = if '0' <= c && c <= '9' {
        c as u32 - '0' as u32
    } else if 'a' <= c && c <= 'f' {
        c as u32 - 'a' as u32 + 10
    } else if 'A' <= c && c <= 'F' {
        c as u32 - 'A' as u32 + 10
    } else {
        return None;
    };
    if d < radix {
        Some(d)
    } else {
        None
    }
}

/// Reads a number from 0 to `max`.
pub fn read_number(s: &str, radix: u32, max: u32) -> (r: Option<u32>)
    requires
        radix == 10 || radix == 16,
        max <= 0xffff,
    ensures
        match r {
            Some(n) => plain_number(s@, radix as int, max as int) == Some(n as int) && n <= max,
            None => plain_number(s@, radix as int, max as int) is None,
        },
{
    let v = chars_of(s);
    if v.len() == 0 {
        return None;
    }
    let mut n: u32 = 0;
    let mut i: usize = 0;
    while i < v.len()
        invariant
            i <= v.len(),
            v@ == s@,
            radix == 10 || radix == 16,
            max <= 0xffff,
            n <= max,
            n == number(s@.take(i as int), radix as int),
            all_digits(s@.take(i as int), radix as int),
        decreases v.len() - i,
    {
        match digit(v[i], radix) {
            Some(d) => {
                assert(s@.take(i + 1).drop_last() =~= s@.take(i as int));
                assert(s@.take(i + 1).last() == s@[i as int]);
                if radix == 10 {
                    n = n * 10 + d;
                } else {
                    n = n * 16 + d;
                }
                assert(n == number(s@.take(i + 1), radix as int));
                if n > max {
                    proof {
                        if all_digits(s@, radix as int) {
                            lemma_number_grows(s@, radix as int, i + 1);
                        }
                    }
                    return None;
                }
                assert forall|j: int| 0 <= j < i + 1 implies is_digit(
                    #[trigger] s@.take(i + 1)[j],
                    radix as int,
                ) by {
                    if j < i {
                        assert(s@.take(i as int)[j] == s@[j]);
                    }
                }
            },
            None => {
                assert(!is_digit(s@[i as int], radix as int));
                return None;
            },
        }
        i += 1;
    }
    assert(s@.take(s@.len() as int) =~= s@);
    Some(n)
}

/// Reads a decimal number from 0 to `max`, which a plus sign may precede.
pub fn read_unsigned(s: &str, max: u32) -> (r: Option<u32>)
    requires
        max <= 0xffff,
    ensures
        match r {
            Some(n) => unsigned(s@, max as int) == Some(n as int) && n <= max,
            None => unsigned(s@, max as int) is None,
        },
{
    let v = chars_of(s);
    if v.len() > 0 && v[0] == '+' {
        assert(s@.skip(1) =~= s@.subrange(1, s@.len() as int));
        read_number(part(s, 1, v.len()), 10, max)
    } else {
        read_number(s, 10, max)
    }
}

/// Whether a text is decimal digits, which a plus sign may precede.
pub fn is_unsigned_text(s: &str) -> (r: bool)
    ensures
        r == unsigned_text(s@),
{
    let v = chars_of(s);
    let from: usize = if v.len() > 0 && v[0] == '+' {
        1
    } else {
        0
    };
    let ghost digits = s@.skip(from as int);
    assert(s@.skip(0) =~= s@);
    assert(unsigned_text(s@) == (digits.len() > 0 && all_digits(digits, 10)));
    let mut i: usize = from;
    while i < v.len()
        invariant
            from <= i <= v.len(),
            v@ == s@,
            digits == s@.skip(from as int),
            unsigned_text(s@) == (digits.len() > 0 && all_digits(digits, 10)),
            forall|j: int| 0 <= j < i - from ==> is_digit(#[trigger] digits[j], 10),
        decreases v.len() - i,
    {
        if !('0' <= v[i] && v[i] <= '9') {
            assert(!is_digit(digits[i - from], 10));
            return false;
        }
        i += 1;
    }
    from < v.len()
}

/// The digit of a value below 16.
fn write_digit(d: u32) -> (c: char)
    requires
        d < 16,
    ensures
        c == digit_char(d as int),
{
    if d < 10 {
        (48 + d as u8) as char
    } else {
        (87 + d as u8) as char
    }
}

/// Writes a number.
pub fn write_number(n: u32, radix: u32) -> (r: String)
    requires
        radix == 10 || radix == 16,
    ensures
        r@ == numeral(n as int, radix as int),
    decreases n,
{
    if n < radix {
        let mut r = String::new();
        r.push(write_digit(n));
        assert(r@ =~= seq![digit_char(n as int)]);
        r
    } else {
        let mut r = write_number(n / radix, radix);
        r.push(write_digit(n % radix));
        r
    }
}

/// A numeral reads back as its number. It holds digits alone, no letter in
/// upper case, and no leading zero but in the numeral of zero.
pub proof fn lemma_numeral(n: int, radix: int)
    requires
        radix == 10 || radix == 16,
        0 <= n,
    ensures
        numeral(n, radix).len() > 0,
        all_digits(numeral(n, radix), radix),
        number(numeral(n, radix), radix) == n,
        numeral(n, radix)[0] == '0' ==> n == 0,
        forall|i: int|
            0 <= i < numeral(n, radix).len() ==> {
                ||| '0' <= #[trigger] numeral(n, radix)[i] <= '9'
                ||| radix == 16 && 'a' <= numeral(n, radix)[i] <= 'f'
            },
    decreases n,
{
    let t = numeral(n, radix);
    if n < radix {
        assert(t =~= seq![digit_char(n)]);
        assert(t.drop_last() =~= Seq::<char>::empty());
        assert(t.last() == digit_char(n));
        assert(number(t.drop_last(), radix) == 0);
        assert(digit_value(digit_char(n)) == n);
    } else {
        lemma_numeral(n / radix, radix);
        let u = numeral(n / radix, radix);
        assert(t == u.push(digit_char(n % radix)));
        assert(t.drop_last() =~= u);
        assert(digit_value(digit_char(n % radix)) == n % radix);
        assert forall|i: int| 0 <= i < t.len() implies is_digit(#[trigger] t[i], radix) by {
            if i < u.len() {
                assert(t[i] == u[i]);
            }
        }
        assert forall|i: int| 0 <= i < t.len() implies ('0' <= #[trigger] t[i] <= '9') || (radix
            == 16 && 'a' <= t[i] <= 'f') by {
            if i < u.len() {
                assert(t[i] == u[i]);
            }
        }
        assert(t[0] == u[0]);
    }
}

/// Decimal digits without a needless leading zero are the numeral of their
/// number.
pub proof fn lemma_number_text(s: Seq<char>)
    requires
        s.len() > 0,
        all_digits(s, 10),
        s.len() > 1 ==> s[0] != '0',
    ensures
        numeral(number(s, 10), 10) == s,
    decreases s.len(),
{
    let t = s.drop_last();
    let d = digit_value(s.last());
    assert(is_digit(s[s.len() - 1], 10));
    assert(digit_char(d) == s.last());
    assert(t.push(s.last()) =~= s);
    if s.len() == 1 {
        assert(number(t, 10) == 0);
        assert(seq![s.last()] =~= s);
    } else {
        lemma_number_text(t);
        lemma_number_grows(t, 10, 1);
        assert(is_digit(s[0], 10));
        let first = t.take(1);
        assert(first.last() == s[0]);
        assert(number(first.drop_last(), 10) == 0);
        assert(number(first, 10) > 0);
    }
}

/// How many digits a numeral has at most.
pub proof fn lemma_numeral_len(n: int, radix: int)
    requires
        radix == 10 || radix == 16,
        0 <= n <= 0xffff,
    ensures
        radix == 10 && n <= 255 ==> numeral(n, radix).len() <= 3,
        radix == 16 ==> numeral(n, radix).len() <= 4,
{
    reveal_with_fuel(numeral, 5);
}

} // verus!
