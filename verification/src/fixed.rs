//! Decimal numbers with a fraction, read into whole numbers of a smaller
//! unit: `"24.3"` milliseconds are 24300 microseconds.

use crate::text::{
    all_digits, decimal_value, find_char, index_of_char, is_ascii_digit, is_digit,
    lemma_decimal_value_monotonic, parse_digits, slice_of, trim, trim_of,
};
use vstd::prelude::*;

verus! {

/// `s` without a plus sign in front.
pub open spec fn unsigned_part(s: Seq<char>) -> Seq<char> {
    if s.len() > 0 && s[0] == '+' {
        s.drop_first()
    } else {
        s
    }
}

/// The digits before the decimal point of an unsigned number.
pub open spec fn whole_part(s: Seq<char>) -> Seq<char> {
    s.take(index_of_char(s, '.'))
}

/// The digits after the decimal point of an unsigned number; none where it
/// has no point.
pub open spec fn fraction_part(s: Seq<char>) -> Seq<char> {
    let k = index_of_char(s, '.');
    if 0 <= k < s.len() {
        s.skip(k + 1)
    } else {
        Seq::empty()
    }
}

/// `s` is a decimal number: an optional plus sign, then digits with at most
/// one decimal point among them, and at least one digit.
pub open spec fn is_decimal_number(s: Seq<char>) -> bool {
    let body = unsigned_part(s);
    &&& all_digits(whole_part(body))
    &&& all_digits(fraction_part(body))
    &&& whole_part(body).len() + fraction_part(body).len() > 0
}

/// The first `places` digits of a fraction, with zeros where it is shorter.
pub open spec fn padded_fraction(frac: Seq<char>, places: nat) -> Seq<char> {
    Seq::new(
        places,
        |i: int|
            if i < frac.len() {
                frac[i]
            } else {
                '0'
            },
    )
}

/// A decimal number in units of `10^-places`, rounded down: the number
/// that its digits stand for once the point is moved `places` to the right
/// and what is left behind the point is dropped.
pub open spec fn scaled_value(s: Seq<char>, places: nat) -> nat {
    let body = unsigned_part(s);
    decimal_value(whole_part(body) + padded_fraction(fraction_part(body), places))
}

proof fn lemma_all_digits_push(s: Seq<char>, c: char)
    requires
        all_digits(s),
        is_digit(c),
    ensures
        all_digits(s.push(c)),
{
    assert forall|i: int| 0 <= i < s.push(c).len() implies is_digit(#[trigger] s.push(c)[i]) by {
        if i < s.len() {
            assert(s.push(c)[i] == s[i]);
        }
    }
}

/// The number that a text of digits stands for, or the largest `u64` where
/// the number is larger than that.
pub fn saturating_value(s: &[char]) -> (r: u64)
    requires
        all_digits(s@),
    ensures
        r == if decimal_value(s@) <= u64::MAX {
            decimal_value(s@)
        } else {
            u64::MAX as nat
        },
{
    let mut acc: u64 = 0;
    let mut i: usize = 0;
    while i < s.len()
        invariant
            i <= s.len(),
            all_digits(s@),
            acc == decimal_value(s@.take(i as int)),
        decreases s.len() - i,
    {
        let c = s[i];
        assert(is_digit(s@[i as int]));
        let d = (c as u32 - 48) as u64;
        assert(s@.take(i + 1).drop_last() == s@.take(i as int));
        if acc > (u64::MAX - d) / 10 {
            proof {
                lemma_decimal_value_monotonic(s@, i + 1);
            }
            return u64::MAX;
        }
        acc = acc * 10 + d;
        i += 1;
    }
    assert(s@.take(i as int) == s@);
    acc
}

/// Whether every character of `s` is a decimal digit.
pub fn only_digits(s: &[char]) -> (r: bool)
    ensures
        r == all_digits(s@),
{
    let mut i: usize = 0;
    while i < s.len()
        invariant
            i <= s.len(),
            forall|j: int| 0 <= j < i ==> is_digit(#[trigger] s@[j]),
        decreases s.len() - i,
    {
        if !is_ascii_digit(s[i]) {
            return false;
        }
        i += 1;
    }
    true
}

/// Reads a decimal number in units of `10^-places`, rounded down. A number
/// too large for `u64` gives the largest `u64`; a text that is no decimal
/// number gives nothing.
pub fn parse_scaled(s: &[char], places: usize) -> (r: Option<u64>)
    ensures
        r is Some <==> is_decimal_number(s@),
        r matches Some(v) ==> v == if scaled_value(s@, places as nat) <= u64::MAX {
            scaled_value(s@, places as nat)
        } else {
            u64::MAX as nat
        },
{
    let start: usize = if s.len() > 0 && s[0] == '+' {
        1
    } else {
        0
    };
    let body = slice_of(s, start, s.len());
    assert(body@ == unsigned_part(s@));
    let k = find_char(body.as_slice(), 0, '.');
    assert(body@.skip(0) == body@);
    let mut digits = slice_of(body.as_slice(), 0, k);
    assert(digits@ == whole_part(body@));
    let frac = if k < body.len() {
        slice_of(body.as_slice(), k + 1, body.len())
    } else {
        Vec::new()
    };
    assert(frac@ == fraction_part(body@));
    if !only_digits(digits.as_slice()) || !only_digits(frac.as_slice()) || digits.len()
        + frac.len() == 0 {
        return None;
    }
    let ghost whole = digits@;
    let mut i: usize = 0;
    while i < places
        invariant
            i <= places,
            all_digits(frac@),
            all_digits(digits@),
            digits@ == whole + padded_fraction(frac@, i as nat),
        decreases places - i,
    {
        let c = if i < frac.len() {
            frac[i]
        } else {
            '0'
        };
        proof {
            if i < frac.len() {
                assert(is_digit(frac@[i as int]));
            }
            lemma_all_digits_push(digits@, c);
            assert(padded_fraction(frac@, (i + 1) as nat) == padded_fraction(frac@, i as nat).push(
                c,
            ));
            assert((whole + padded_fraction(frac@, i as nat)).push(c) == whole + padded_fraction(
                frac@,
                i as nat,
            ).push(c));
        }
        digits.push(c);
        i += 1;
    }
    Some(saturating_value(digits.as_slice()))
}

/// A counter as a listing gives it: the number that the text stands for
/// without the white space around it, or zero where it stands for none
/// within `u64`.
pub open spec fn counter_of(text: Seq<char>) -> u64 {
    let t = unsigned_part(trim_of(text));
    if t.len() > 0 && all_digits(t) && decimal_value(t) <= u64::MAX {
        decimal_value(t) as u64
    } else {
        0
    }
}

/// A counter as a listing gives it, or zero where the text is none.
pub fn parse_counter(text: &[char]) -> (r: u64)
    ensures
        r == counter_of(text@),
{
    let t = trim(text);
    let start: usize = if t.len() > 0 && t[0] == '+' {
        1
    } else {
        0
    };
    let body = slice_of(t.as_slice(), start, t.len());
    assert(body@ == unsigned_part(t@));
    match parse_digits(body.as_slice()) {
        Some(v) => v,
        None => 0,
    }
}

} // verus!
