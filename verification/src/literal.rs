//! The literals that a variable's value is tested for: decimal integers and
//! numbers in the notation of floating-point literals.

use crate::text::{all_digits, is_digit, is_digit_char};
use vstd::prelude::*;

verus! {

/// The number that a run of decimal digits denotes.
pub open spec fn decimal_value(digits: Seq<char>) -> nat
    decreases digits.len(),
{
    if digits.len() == 0 {
        0
    } else {
        decimal_value(digits.drop_last()) * 10 + (digits.last() as int - '0' as int) as nat
    }
}

/// A sign: `+` or `-`.
pub open spec fn is_sign(c: char) -> bool {
    c == '+' || c == '-'
}

/// `c` with an ASCII capital letter replaced by its small letter.
pub open spec fn to_lower(c: char) -> char {
    if 'A' <= c && c <= 'Z' {
        ((c as int) + 32) as char
    } else {
        c
    }
}

/// `u` is `word` when the case of ASCII letters is ignored. `word` is
/// written in small letters.
pub open spec fn is_word_ignoring_case(u: Seq<char>, word: Seq<char>) -> bool {
    &&& u.len() == word.len()
    &&& forall|i: int| 0 <= i < u.len() ==> to_lower(#[trigger] u[i]) == word[i]
}

/// The names of the numbers that are no decimal numbers: infinity and
/// not-a-number, in any mix of capital and small letters.
pub open spec fn is_special_number(u: Seq<char>) -> bool {
    ||| is_word_ignoring_case(u, seq!['i', 'n', 'f'])
    ||| is_word_ignoring_case(u, seq!['i', 'n', 'f', 'i', 'n', 'i', 't', 'y'])
    ||| is_word_ignoring_case(u, seq!['n', 'a', 'n'])
}

/// A mantissa: decimal digits with at most one point among them, before
/// them or after them, and at least one digit.
pub open spec fn is_mantissa(m: Seq<char>) -> bool {
    &&& forall|i: int| 0 <= i < m.len() ==> is_digit(#[trigger] m[i]) || m[i] == '.'
    &&& forall|i: int, j: int|
        0 <= i < m.len() && 0 <= j < m.len() && #[trigger] m[i] == '.' && #[trigger] m[j] == '.'
            ==> i == j
    &&& exists|i: int| 0 <= i < m.len() && is_digit(#[trigger] m[i])
}

/// An exponent: `e` or `E`, an optional sign, and at least one digit.
pub open spec fn is_exponent(e: Seq<char>) -> bool {
    &&& e.len() >= 2
    &&& (e[0] == 'e' || e[0] == 'E')
    &&& {
        let digits = if is_sign(e[1]) {
            e.skip(2)
        } else {
            e.skip(1)
        };
        digits.len() >= 1 && all_digits(digits)
    }
}

/// A decimal number without a sign: a mantissa, then an optional exponent.
pub open spec fn is_decimal_number(u: Seq<char>) -> bool {
    exists|k: int|
        0 <= k <= u.len() && #[trigger] is_mantissa(u.take(k)) && (k == u.len() || is_exponent(
            u.skip(k),
        ))
}

/// `t` without its sign, if it begins with one.
pub open spec fn unsigned(t: Seq<char>) -> Seq<char> {
    if t.len() > 0 && is_sign(t[0]) {
        t.drop_first()
    } else {
        t
    }
}

/// The texts that are read as a floating-point number: an optional sign,
/// then a decimal number or the name of a special number. This is the
/// grammar by which the standard library parses a 64-bit float from a
/// string.
pub open spec fn is_number_literal(t: Seq<char>) -> bool {
    is_special_number(unsigned(t)) || is_decimal_number(unsigned(t))
}

/// A longer run of digits denotes no smaller number.
pub proof fn lemma_decimal_value_grows(digits: Seq<char>, k: int)
    requires
        0 <= k <= digits.len(),
        all_digits(digits),
    ensures
        decimal_value(digits.take(k)) <= decimal_value(digits),
    decreases digits.len() - k,
{
    if k == digits.len() {
        assert(digits.take(k) =~= digits);
    } else {
        lemma_decimal_value_grows(digits, k + 1);
        let longer = digits.take(k + 1);
        assert(longer.drop_last() =~= digits.take(k));
        assert(is_digit(digits[k]));
        assert(longer.last() == digits[k]);
    }
}

/// Reads the first `end` characters of `chars` as a decimal integer.
///
/// The result is `None` where they are not a non-empty run of digits, and
/// where the number they denote is greater than `i64::MAX`.
pub fn parse_decimal(chars: &Vec<char>, end: usize) -> (out: Option<i64>)
    requires
        end <= chars@.len(),
    ensures
        out is Some <==> end > 0 && all_digits(chars@.take(end as int)) && decimal_value(
            chars@.take(end as int),
        ) <= i64::MAX,
        out matches Some(n) ==> n == decimal_value(chars@.take(end as int)),
{
    if end == 0 {
        return None;
    }
    let ghost digits = chars@.take(end as int);
    let mut value: i64 = 0;
    let mut i: usize = 0;
    assert(digits.take(0) =~= Seq::<char>::empty());
    while i < end
        invariant
            end <= chars@.len(),
            digits == chars@.take(end as int),
            i <= end,
            all_digits(digits.take(i as int)),
            value == decimal_value(digits.take(i as int)),
            0 <= value,
        decreases end - i,
    {
        let c = chars[i];
        if !is_digit_char(c) {
            assert(digits[i as int] == c);
            return None;
        }
        let d: i64 = (c as u32 - '0' as u32) as i64;
        let ghost next = digits.take(i + 1);
        assert(next.drop_last() =~= digits.take(i as int));
        assert(next.last() == c);
        assert(all_digits(next)) by {
            assert forall|k: int| 0 <= k < next.len() implies is_digit(#[trigger] next[k]) by {
                if k < i {
                    assert(digits.take(i as int)[k] == next[k]);
                }
            }
        }
        if value > (i64::MAX - d) / 10 {
            proof {
                assert(decimal_value(next) > i64::MAX);
                if all_digits(digits) {
                    lemma_decimal_value_grows(digits, i + 1);
                }
            }
            return None;
        }
        value = value * 10 + d;
        i += 1;
    }
    assert(digits.take(end as int) =~= digits);
    Some(value)
}

/// Whether `c`, read without regard to case, is the small letter `small`.
fn is_letter_ignoring_case(c: char, small: char) -> (out: bool)
    requires
        'a' <= small <= 'z',
    ensures
        out == (to_lower(c) == small),
{
    c == small || ('A' <= c && c <= 'Z' && c as u32 + 32 == small as u32)
}

/// Whether the characters of `chars` from `start` on are `word`, the case of
/// letters ignored.
fn is_word_from(chars: &Vec<char>, start: usize, word: &Vec<char>) -> (out: bool)
    requires
        start <= chars@.len(),
        forall|i: int| 0 <= i < word@.len() ==> 'a' <= #[trigger] word@[i] <= 'z',
    ensures
        out == is_word_ignoring_case(chars@.skip(start as int), word@),
{
    let n: usize = word.len();
    if chars.len() - start != n {
        return false;
    }
    let ghost u = chars@.skip(start as int);
    let mut i: usize = 0;
    while i < n
        invariant
            start <= chars@.len() <= usize::MAX,
            n == word@.len(),
            chars@.len() - start == n,
            u == chars@.skip(start as int),
            i <= n,
            forall|k: int| 0 <= k < word@.len() ==> 'a' <= #[trigger] word@[k] <= 'z',
            forall|k: int| 0 <= k < i ==> to_lower(#[trigger] u[k]) == word@[k],
        decreases n - i,
    {
        if !is_letter_ignoring_case(chars[start + i], word[i]) {
            assert(u[i as int] == chars@[start + i]);
            return false;
        }
        assert(u[i as int] == chars@[start + i]);
        i += 1;
    }
    true
}

/// Whether the characters of `chars` from `start` on name a special number.
fn is_special_from(chars: &Vec<char>, start: usize) -> (out: bool)
    requires
        start <= chars@.len(),
    ensures
        out == is_special_number(chars@.skip(start as int)),
{
    let inf = vec!['i', 'n', 'f'];
    let infinity = vec!['i', 'n', 'f', 'i', 'n', 'i', 't', 'y'];
    let nan = vec!['n', 'a', 'n'];
    assert(inf@ =~= seq!['i', 'n', 'f']);
    assert(infinity@ =~= seq!['i', 'n', 'f', 'i', 'n', 'i', 't', 'y']);
    assert(nan@ =~= seq!['n', 'a', 'n']);
    is_word_from(chars, start, &inf) || is_word_from(chars, start, &infinity) || is_word_from(
        chars,
        start,
        &nan,
    )
}

/// Whether the characters of `chars` from `start` on are an exponent.
fn is_exponent_from(chars: &Vec<char>, start: usize) -> (out: bool)
    requires
        start <= chars@.len(),
    ensures
        out == is_exponent(chars@.skip(start as int)),
{
    let ghost e = chars@.skip(start as int);
    if chars.len() - start < 2 {
        return false;
    }
    assert(e[0] == chars@[start as int]);
    assert(e[1] == chars@[start + 1]);
    if chars[start] != 'e' && chars[start] != 'E' {
        return false;
    }
    let first: usize = if chars[start + 1] == '+' || chars[start + 1] == '-' {
        start + 2
    } else {
        start + 1
    };
    let ghost digits = chars@.skip(first as int);
    assert(digits =~= if is_sign(e[1]) {
        e.skip(2)
    } else {
        e.skip(1)
    });
    if first == chars.len() {
        return false;
    }
    let mut i: usize = first;
    while i < chars.len()
        invariant
            first <= i <= chars@.len(),
            digits == chars@.skip(first as int),
            e == chars@.skip(start as int),
            is_exponent(e) == all_digits(digits),
            forall|k: int| 0 <= k < i - first ==> is_digit(#[trigger] digits[k]),
        decreases chars@.len() - i,
    {
        if !is_digit_char(chars[i]) {
            assert(digits[i - first] == chars@[i as int]);
            return false;
        }
        assert(digits[i - first] == chars@[i as int]);
        i += 1;
    }
    true
}

/// Whether the characters of `chars` from `start` on are a decimal number
/// without a sign.
fn is_decimal_from(chars: &Vec<char>, start: usize) -> (out: bool)
    requires
        start <= chars@.len(),
    ensures
        out == is_decimal_number(chars@.skip(start as int)),
{
    let ghost u = chars@.skip(start as int);
    let mut i: usize = start;
    let mut digits: usize = 0;
    let mut points: usize = 0;
    let ghost mut digit_at: int = 0;
    let ghost mut point_at: int = 0;
    let ghost mut other_point_at: int = 0;
    while i < chars.len() && (is_digit_char(chars[i]) || chars[i] == '.')
        invariant
            start <= i <= chars@.len(),
            u == chars@.skip(start as int),
            digits <= i - start,
            points <= i - start,
            forall|k: int| 0 <= k < i - start ==> is_digit(#[trigger] u[k]) || u[k] == '.',
            digits > 0 ==> 0 <= digit_at < i - start && is_digit(u[digit_at]),
            digits == 0 ==> forall|k: int| 0 <= k < i - start ==> !is_digit(#[trigger] u[k]),
            points == 0 ==> forall|k: int| 0 <= k < i - start ==> #[trigger] u[k] != '.',
            points >= 1 ==> 0 <= point_at < i - start && u[point_at] == '.',
            points == 1 ==> forall|k: int|
                0 <= k < i - start && #[trigger] u[k] == '.' ==> k == point_at,
            points >= 2 ==> 0 <= other_point_at < i - start && u[other_point_at] == '.'
                && other_point_at != point_at,
        decreases chars@.len() - i,
    {
        assert(u[i - start] == chars@[i as int]);
        if chars[i] == '.' {
            proof {
                if points >= 1 {
                    other_point_at = i - start;
                } else {
                    point_at = i - start;
                }
            }
            points += 1;
        } else {
            proof {
                digit_at = i - start;
            }
            digits += 1;
        }
        i += 1;
    }
    let ghost k = i - start;
    let ghost m = u.take(k);
    proof {
        assert(forall|j: int| 0 <= j < k ==> m[j] == u[j]);
        if i < chars@.len() {
            assert(u[k] == chars@[i as int]);
        }
        // any split of `u` into a mantissa and an exponent is the one at `k`
        assert forall|k2: int|
            0 <= k2 <= u.len() && #[trigger] is_mantissa(u.take(k2)) && (k2 == u.len()
                || is_exponent(u.skip(k2))) implies k2 == k by {
            if k2 < k {
                assert(u.skip(k2)[0] == u[k2]);
            }
            if k2 > k {
                assert(u.take(k2)[k] == u[k]);
            }
        }
    }
    if digits == 0 || points > 1 {
        proof {
            if digits == 0 {
                assert(!is_mantissa(m)) by {
                    if is_mantissa(m) {
                        let j = choose|j: int| 0 <= j < m.len() && is_digit(#[trigger] m[j]);
                        assert(u[j] == m[j]);
                    }
                }
            } else {
                assert(m[point_at] == '.' && m[other_point_at] == '.');
            }
        }
        return false;
    }
    proof {
        assert(is_mantissa(m)) by {
            assert(is_digit(m[digit_at]));
            assert forall|a: int, b: int|
                0 <= a < m.len() && 0 <= b < m.len() && #[trigger] m[a] == '.' && #[trigger] m[b]
                    == '.' implies a == b by {
                assert(u[a] == '.' && u[b] == '.');
            }
        }
    }
    if i == chars.len() {
        assert(k == u.len());
        return true;
    }
    assert(chars@.skip(i as int) =~= u.skip(k));
    is_exponent_from(chars, i)
}

/// Whether `chars` is written as a floating-point number.
pub fn is_number_text(chars: &Vec<char>) -> (out: bool)
    ensures
        out == is_number_literal(chars@),
{
    let start: usize = if chars.len() > 0 && (chars[0] == '+' || chars[0] == '-') {
        1
    } else {
        0
    };
    assert(chars@.skip(start as int) =~= unsigned(chars@));
    is_special_from(chars, start) || is_decimal_from(chars, start)
}

} // verus!
