//! Recognition of duration text: the strings accepted by the standard
//! library when it parses a floating-point value.
//!
//! The accepted shape, after an optional sign, is `inf`, `infinity` or
//! `nan` in any letter case, or a number: digits with an optional
//! fractional part, or a fractional part alone, either followed by an
//! optional exponent (`e` or `E`, an optional sign, then digits).

use vstd::prelude::*;
use vstd::string::*;

verus! {

pub open spec fn is_digit(c: char) -> bool {
    '0' as u32 <= c as u32 && c as u32 <= '9' as u32
}

/// First index at or after `i` that does not hold a digit, or the
/// length of the text.
pub open spec fn digits_end(s: Seq<char>, i: int) -> int
    decreases s.len() - i,
{
    if !(0 <= i < s.len()) {
        s.len() as int
    } else if is_digit(s[i]) {
        digits_end(s, i + 1)
    } else {
        i
    }
}

pub proof fn lemma_digits_end_is(s: Seq<char>, start: int, j: int)
    requires
        0 <= start <= j <= s.len(),
        forall|t: int| start <= t < j ==> is_digit(s[t]),
        j < s.len() ==> !is_digit(s[j]),
    ensures
        digits_end(s, start) == j,
    decreases j - start,
{
    if start < j {
        assert(is_digit(s[start]));
        lemma_digits_end_is(s, start + 1, j);
    }
}

/// The character, or its upper-case ASCII form, matches the given
/// lower-case letter.
pub open spec fn lower_eq(c: char, l: char) -> bool {
    c == l || c as u32 + 32 == l as u32
}

/// The text from `i` on is `inf` in any letter case.
pub open spec fn inf_from(s: Seq<char>, i: int) -> bool {
    s.len() - i == 3 && lower_eq(s[i], 'i') && lower_eq(s[i + 1], 'n') && lower_eq(s[i + 2], 'f')
}

/// The text from `i` on is `infinity` in any letter case.
pub open spec fn infinity_from(s: Seq<char>, i: int) -> bool {
    s.len() - i == 8 && lower_eq(s[i], 'i') && lower_eq(s[i + 1], 'n') && lower_eq(s[i + 2], 'f')
        && lower_eq(s[i + 3], 'i') && lower_eq(s[i + 4], 'n') && lower_eq(s[i + 5], 'i')
        && lower_eq(s[i + 6], 't') && lower_eq(s[i + 7], 'y')
}

/// The text from `i` on is `nan` in any letter case.
pub open spec fn nan_from(s: Seq<char>, i: int) -> bool {
    s.len() - i == 3 && lower_eq(s[i], 'n') && lower_eq(s[i + 1], 'a') && lower_eq(s[i + 2], 'n')
}

/// The text from `i` on is an exponent part: `e` or `E`, an optional
/// sign, then one or more digits reaching the end.
pub open spec fn exp_from(s: Seq<char>, i: int) -> bool {
    i < s.len() && (s[i] == 'e' || s[i] == 'E') && {
        let j = if i + 1 < s.len() && (s[i + 1] == '+' || s[i + 1] == '-') {
            i + 2
        } else {
            i + 1
        };
        j < s.len() && digits_end(s, j) == s.len()
    }
}

/// The text from `i` on is a number: digits with an optional
/// fractional part, or a fractional part alone, then an optional
/// exponent.
pub open spec fn number_from(s: Seq<char>, i: int) -> bool {
    let d1 = digits_end(s, i);
    if d1 > i {
        if d1 == s.len() {
            true
        } else if s[d1] == '.' {
            let d2 = digits_end(s, d1 + 1);
            d2 == s.len() || exp_from(s, d2)
        } else {
            exp_from(s, d1)
        }
    } else if i < s.len() && s[i] == '.' {
        let d2 = digits_end(s, i + 1);
        d2 > i + 1 && (d2 == s.len() || exp_from(s, d2))
    } else {
        false
    }
}

/// The text is what the standard library accepts as a floating-point
/// value: an optional sign, then `inf`, `infinity`, `nan` in any
/// letter case, or a number.
pub open spec fn spec_num_text(s: Seq<char>) -> bool {
    let i: int = if s.len() > 0 && (s[0] == '+' || s[0] == '-') {
        1
    } else {
        0
    };
    inf_from(s, i) || infinity_from(s, i) || nan_from(s, i) || number_from(s, i)
}

fn digit_at(s: &str, i: usize) -> (r: bool)
    requires
        i < s@.len(),
    ensures
        r == is_digit(s@[i as int]),
{
    let c = s.get_char(i);
    '0' <= c && c <= '9'
}

/// Scan the digit run starting at `i`.
fn scan_digits(s: &str, i: usize) -> (r: usize)
    requires
        i <= s@.len(),
    ensures
        r == digits_end(s@, i as int),
        i <= r <= s@.len(),
{
    let n: usize = s.unicode_len();
    let mut j: usize = i;
    while j < n && digit_at(s, j)
        invariant
            i <= j <= n,
            n == s@.len(),
            forall|t: int| i <= t < j ==> is_digit(s@[t]),
        decreases n - j,
    {
        j = j + 1;
    }
    proof {
        lemma_digits_end_is(s@, i as int, j as int);
    }
    j
}

fn exp_at(s: &str, i: usize) -> (r: bool)
    requires
        i <= s@.len(),
    ensures
        r == exp_from(s@, i as int),
{
    let n: usize = s.unicode_len();
    if i >= n {
        return false;
    }
    let c = s.get_char(i);
    if c != 'e' && c != 'E' {
        return false;
    }
    let j: usize = if i + 1 < n {
        let c1 = s.get_char(i + 1);
        if c1 == '+' || c1 == '-' {
            i + 2
        } else {
            i + 1
        }
    } else {
        i + 1
    };
    j < n && scan_digits(s, j) == n
}

/// Whether the standard library would accept the text as a
/// floating-point value.
pub fn is_num_text(s: &str) -> (r: bool)
    ensures
        r == spec_num_text(s@),
{
    let n: usize = s.unicode_len();
    let i: usize = if n > 0 {
        let c0 = s.get_char(0);
        if c0 == '+' || c0 == '-' {
            1
        } else {
            0
        }
    } else {
        0
    };
    if word_at(s, i, 'i', 'n', 'f') {
        return true;
    }
    if n - i == 8 && lower_at(s, i, 'i') && lower_at(s, i + 1, 'n') && lower_at(s, i + 2, 'f')
        && lower_at(s, i + 3, 'i') && lower_at(s, i + 4, 'n') && lower_at(s, i + 5, 'i')
        && lower_at(s, i + 6, 't') && lower_at(s, i + 7, 'y') {
        return true;
    }
    if word_at(s, i, 'n', 'a', 'n') {
        return true;
    }
    let d1 = scan_digits(s, i);
    if d1 > i {
        if d1 == n {
            true
        } else if s.get_char(d1) == '.' {
            let d2 = scan_digits(s, d1 + 1);
            d2 == n || exp_at(s, d2)
        } else {
            exp_at(s, d1)
        }
    } else if i < n && s.get_char(i) == '.' {
        let d2 = scan_digits(s, i + 1);
        d2 > i + 1 && (d2 == n || exp_at(s, d2))
    } else {
        false
    }
}

/// The character at `i`, lowered from upper-case ASCII if need be,
/// matches the given lower-case letter.
fn lower_at(s: &str, i: usize, l: char) -> (r: bool)
    requires
        i < s@.len(),
    ensures
        r == lower_eq(s@[i as int], l),
{
    let c = s.get_char(i);
    c == l || (c as u32) + 32 == l as u32
}

/// The text from `i` on is the given three-letter word in any case.
fn word_at(s: &str, i: usize, a: char, b: char, c: char) -> (r: bool)
    requires
        i <= s@.len(),
    ensures
        r == (s@.len() - i == 3 && lower_eq(s@[i as int], a) && lower_eq(s@[i as int + 1], b)
            && lower_eq(s@[i as int + 2], c)),
{
    let n: usize = s.unicode_len();
    n - i == 3 && lower_at(s, i, a) && lower_at(s, i + 1, b) && lower_at(s, i + 2, c)
}

} // verus!
