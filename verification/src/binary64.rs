//! Sizes as double-precision binary numbers hold them, in whole numbers.
//!
//! A size is shown by the digits of a double-precision quotient: the size
//! is rounded to the nearest double-precision number, the quotient of that
//! by the unit is rounded to the nearest double-precision number again,
//! and only then are its decimals cut. Each rounding takes the nearest
//! number, a tie going to the even one.

use crate::display::round_half_even;
use vstd::arithmetic::power2::{lemma2_to64, lemma2_to64_rest, lemma_pow2_pos, lemma_pow2_unfold, pow2};
use vstd::prelude::*;

verus! {

/// The step between neighbouring double-precision numbers at `n`: one
/// below two to the 53rd, and twice as much with each bit beyond.
pub open spec fn double_step(n: nat) -> nat
    decreases n,
{
    if n < 0x20_0000_0000_0000 {
        1
    } else {
        2 * double_step(n / 2)
    }
}

/// The double-precision number nearest to `n`: `n` rounded to a multiple
/// of its step.
pub open spec fn as_double(n: nat) -> nat {
    round_half_even(n, double_step(n)) * double_step(n)
}

/// The power of two that brings the quotient `b / den` between two to the
/// 52nd and two to the 53rd: the largest of `p`, `p / 2`, `p / 4` and so on
/// down to one for which `b * p` is below two to the 53rd times `den`.
pub open spec fn quotient_scale(b: nat, den: nat, p: nat) -> nat
    decreases p,
{
    if p <= 1 || b * p < 0x20_0000_0000_0000 * den {
        p
    } else {
        quotient_scale(b, den, p / 2)
    }
}

/// The double-precision quotient of the size `n` by `den`, as a whole
/// number of units of which `per_one` make one: the double-precision
/// number nearest to `n` is divided by `den`, the quotient is rounded to 53
/// binary digits, and that number, times `per_one`, is rounded to a whole
/// number. Meant for quotients of one and more.
pub open spec fn double_quotient(n: nat, den: nat, per_one: nat) -> nat {
    let b = as_double(n);
    let p = quotient_scale(b, den, 0x10_0000_0000_0000);
    round_half_even(per_one * round_half_even(b * p, den), p)
}

/// The step is the one of double-precision numbers: below two to the 53rd
/// it is one, and from there on `n` lies from two to the 52nd steps up to,
/// but not at, two to the 53rd steps, so that a multiple of the step has 53
/// binary digits at most. The nearest double-precision number is a
/// multiple of the step and no more than half a step away.
pub proof fn lemma_double_step(n: nat)
    ensures
        double_step(n) >= 1,
        n < 0x20_0000_0000_0000 ==> double_step(n) == 1 && as_double(n) == n,
        n >= 0x20_0000_0000_0000 ==> 0x10_0000_0000_0000 * double_step(n) <= n
            < 0x20_0000_0000_0000 * double_step(n),
        as_double(n) % double_step(n) == 0,
        2 * as_double(n) <= 2 * n + double_step(n),
        2 * n <= 2 * as_double(n) + double_step(n),
    decreases n,
{
    if n >= 0x20_0000_0000_0000 {
        lemma_double_step(n / 2);
    }
    let s = double_step(n);
    let q = n / s;
    let r = n % s;
    assert(n == s * q + r && 0 <= r < s) by {
        vstd::arithmetic::div_mod::lemma_fundamental_div_mod(n as int, s as int);
    }
    let k = round_half_even(n, s);
    assert(k == q || k == q + 1);
    assert((k * s) % s == 0) by (nonlinear_arith)
        requires
            s >= 1,
            k >= 0,
    ;
    assert(q * s == s * q) by (nonlinear_arith);
    if 2 * r > s || (2 * r == s && q % 2 == 1) {
        assert(k == q + 1);
        assert(k * s == q * s + s) by (nonlinear_arith)
            requires
                k == q + 1,
        ;
    } else {
        assert(k == q);
    }
}

proof fn lemma_scale_from(b: nat, den: nat, e: nat)
    requires
        den > 0,
        0x10_0000_0000_0000 * den <= b * pow2(e),
        b < 0x20_0000_0000_0000 * den,
    ensures
        0x10_0000_0000_0000 * den <= b * quotient_scale(b, den, pow2(e)) < 0x20_0000_0000_0000
            * den,
    decreases e,
{
    lemma_pow2_pos(e);
    let p = pow2(e);
    if e == 0 {
        assert(pow2(0) == 1) by {
            lemma2_to64();
        }
        assert(b * 1 == b);
    } else if b * p < 0x20_0000_0000_0000 * den {
    } else {
        lemma_pow2_unfold(e);
        let h = pow2((e - 1) as nat);
        lemma_pow2_pos((e - 1) as nat);
        assert(p / 2 == h);
        assert(b * p == 2 * (b * h)) by (nonlinear_arith)
            requires
                p == 2 * h,
        ;
        lemma_scale_from(b, den, (e - 1) as nat);
    }
}

/// The scale is the one of the double-precision quotient: for a quotient
/// of one and more, and below two to the 53rd, the quotient times the scale
/// lies from two to the 52nd up to, but not at, two to the 53rd, so that
/// rounding it to a whole number leaves 53 binary digits.
pub proof fn lemma_quotient_scale(b: nat, den: nat)
    requires
        den > 0,
        den <= b < 0x20_0000_0000_0000 * den,
    ensures
        0x10_0000_0000_0000 * den <= b * quotient_scale(b, den, 0x10_0000_0000_0000)
            < 0x20_0000_0000_0000 * den,
{
    lemma2_to64_rest();
    assert(0x10_0000_0000_0000 * den <= b * 0x10_0000_0000_0000) by (nonlinear_arith)
        requires
            den <= b,
    ;
    lemma_scale_from(b, den, 52);
}

/// `num / den` rounded to the nearest whole number, a tie going to the
/// even one.
pub fn rounded_div_wide(num: u128, den: u128) -> (r: u128)
    requires
        den > 0,
    ensures
        r == round_half_even(num as nat, den as nat),
{
    let q = num / den;
    let r = num % den;
    if r > den - r || (r == den - r && q % 2 == 1) {
        assert(q < u128::MAX) by (nonlinear_arith)
            requires
                q == num / den,
                den >= 2,
                num <= u128::MAX,
        ;
        q + 1
    } else {
        q
    }
}

/// The double-precision number nearest to `n`.
pub fn to_double(n: u64) -> (b: u128)
    ensures
        b == as_double(n as nat),
        b <= n + 0x1000,
{
    let mut t: u64 = n;
    let mut step: u128 = 1;
    while t >= 0x20_0000_0000_0000
        invariant
            1 <= step <= 0x1000,
            step * t <= n,
            double_step(n as nat) == step * double_step(t as nat),
        decreases t,
    {
        assert(step < 0x800) by (nonlinear_arith)
            requires
                step * t <= n,
                t >= 0x20_0000_0000_0000,
                n <= 0xffff_ffff_ffff_ffff,
        ;
        assert((step * 2) * (t / 2) <= step * t) by (nonlinear_arith)
            requires
                step >= 1,
                t >= 0,
        ;
        assert(step * (2 * double_step((t / 2) as nat)) == (step * 2) * double_step(
            (t / 2) as nat,
        )) by (nonlinear_arith);
        t = t / 2;
        step = step * 2;
    }
    assert(step == double_step(n as nat)) by (nonlinear_arith)
        requires
            double_step(n as nat) == step * double_step(t as nat),
            double_step(t as nat) == 1,
    ;
    let q = rounded_div_wide(n as u128, step);
    assert(q * step <= n + step) by (nonlinear_arith)
        requires
            q <= (n as int) / (step as int) + 1,
            step >= 1,
            n >= 0,
    ;
    q * step
}

/// The double-precision quotient of the size `n` by `den`, as a whole
/// number of units of which `per_one` make one.
pub fn quotient_units(n: u64, den: u64, per_one: u8) -> (r: u128)
    requires
        den > 0,
    ensures
        r == double_quotient(n as nat, den as nat, per_one as nat),
{
    let b = to_double(n);
    let mut p: u128 = 0x10_0000_0000_0000;
    let limit: u128 = 0x20_0000_0000_0000 * (den as u128);
    assert(b * p <= 0x1_0000_0000_0000_1000 * 0x10_0000_0000_0000) by (nonlinear_arith)
        requires
            b <= 0x1_0000_0000_0000_1000,
            p == 0x10_0000_0000_0000,
    ;
    while p > 1 && b * p >= limit
        invariant
            1 <= p <= 0x10_0000_0000_0000,
            b <= 0x1_0000_0000_0000_1000,
            b * p <= 0x1_0000_0000_0000_1000 * 0x10_0000_0000_0000,
            limit == 0x20_0000_0000_0000 * den,
            quotient_scale(b as nat, den as nat, 0x10_0000_0000_0000) == quotient_scale(
                b as nat,
                den as nat,
                p as nat,
            ),
        decreases p,
    {
        assert(b * (p / 2) <= b * p) by (nonlinear_arith)
            requires
                b >= 0,
                p >= 0,
        ;
        p = p / 2;
    }
    let m = rounded_div_wide(b * p, den as u128);
    assert(m <= b * p + 1) by (nonlinear_arith)
        requires
            m <= (b * p) / (den as int) + 1,
            den >= 1,
            b * p >= 0,
    ;
    assert(per_one * m <= 255 * (0x1_0000_0000_0000_1000 * 0x10_0000_0000_0000 + 1))
        by (nonlinear_arith)
        requires
            per_one <= 255,
            0 <= m <= 0x1_0000_0000_0000_1000 * 0x10_0000_0000_0000 + 1,
    ;
    rounded_div_wide((per_one as u128) * m, p)
}

} // verus!
