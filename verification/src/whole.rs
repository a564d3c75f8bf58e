//! Whole numbers in single precision: arithmetic on them is exact while they have at most 24
//! binary digits.
use crate::encoding::binary32;
use crate::number::Number;
use crate::rounding::{
    lemma_nearest_exact, lemma_nearest_keeps_order, lemma_nearest_ratio, lemma_pow2_le,
    lemma_power_representable, lemma_round_even_exact,
};
use vstd::arithmetic::power2::{lemma_pow2_adds, lemma_pow2_pos, pow2};
use vstd::math::abs;
use vstd::prelude::*;

verus! {

/// The whole number `n`; zero is positive.
pub open spec fn whole(n: int) -> Number {
    Number::Finite { negative: n < 0, magnitude: abs(n) * binary32().one() }
}

/// Whole numbers below this have at most 24 binary digits.
pub open spec fn short(n: int) -> bool {
    -0x100_0000 < n < 0x100_0000
}

/// A short whole number is not rounded.
proof fn lemma_rounded_short(negative: bool, n: nat)
    requires
        short(n as int),
    ensures
        binary32().rounded(negative, n * binary32().one(), 1) == (Number::Finite {
            negative,
            magnitude: n * binary32().one(),
        }),
{
    let one = pow2(149);
    assert(pow2(24) == 0x100_0000) by {
        vstd::arithmetic::power2::lemma2_to64();
    }
    lemma_nearest_exact(n, 149, 24);
    lemma_pow2_adds(24, 149);
    lemma_pow2_le(173, 277);
    lemma_pow2_pos(149);
    assert(n * one < pow2(24) * one) by (nonlinear_arith)
        requires
            n < pow2(24),
            one > 0,
    ;
}

/// A whole number in units.
proof fn lemma_units(n: int)
    ensures
        whole(n).units() == n * binary32().one(),
{
    let one = binary32().one() as int;
    assert(-(abs(n) * one) == -abs(n) * one) by (nonlinear_arith);
}

/// A short whole number in units has its sign, and is not rounded.
proof fn lemma_rounded_units(n: int)
    requires
        short(n),
    ensures
        n > 0 <==> n * binary32().one() > 0,
        n < 0 <==> n * binary32().one() < 0,
        n != 0 ==> binary32().rounded(n < 0, abs(n * binary32().one()), 1) == whole(n),
        n == 0 ==> whole(n) == (Number::Finite { negative: false, magnitude: 0 }),
{
    let one = binary32().one() as int;
    lemma_pow2_pos(149);
    assert(n > 0 ==> n * one > 0) by (nonlinear_arith)
        requires
            one > 0,
    ;
    assert(n < 0 ==> n * one < 0) by (nonlinear_arith)
        requires
            one > 0,
    ;
    assert(-(n * one) == (-n) * one) by (nonlinear_arith);
    assert(0 * one == 0) by (nonlinear_arith);
    lemma_rounded_short(n < 0, abs(n));
}

pub proof fn lemma_integer(n: nat)
    requires
        short(n as int),
    ensures
        binary32().integer(n) == whole(n as int),
{
    lemma_rounded_short(false, n);
}

pub proof fn lemma_sum(a: int, b: int)
    requires
        short(a + b),
    ensures
        binary32().sum(whole(a), whole(b)) == whole(a + b),
{
    let one = binary32().one() as int;
    lemma_pow2_pos(149);
    lemma_units(a);
    lemma_units(b);
    let c = a + b;
    assert(a * one + b * one == c * one) by (nonlinear_arith)
        requires
            c == a + b,
    ;
    lemma_rounded_units(c);
}

/// Two to the power of 24, in units.
proof fn lemma_first_long()
    ensures
        0x100_0000 * binary32().one() == pow2(173),
{
    assert(pow2(24) == 0x100_0000) by {
        vstd::arithmetic::power2::lemma2_to64();
    }
    lemma_pow2_adds(24, 149);
}

/// A sum below the short whole numbers is rounded, but not up to minus one.
pub proof fn lemma_sum_far_below(a: int, b: int)
    requires
        a + b <= -0x100_0000,
    ensures
        !whole(-1).less(binary32().sum(whole(a), whole(b))),
{
    let one = binary32().one() as int;
    lemma_pow2_pos(149);
    lemma_units(a);
    lemma_units(b);
    lemma_units(-1);
    lemma_first_long();
    let c = a + b;
    assert(a * one + b * one == c * one) by (nonlinear_arith)
        requires
            c == a + b,
    ;
    assert(c * one <= -(0x100_0000 * one)) by (nonlinear_arith)
        requires
            c <= -0x100_0000,
            one > 0,
    ;
    lemma_power_representable(173, 24);
    lemma_nearest_keeps_order((-(c * one)) as nat, 1, 24, pow2(173));
}

/// A whole number above the short ones is rounded, but not down to a short one.
pub proof fn lemma_integer_far_above(n: nat, a: int)
    requires
        n >= 0x100_0000,
        a < 0x100_0000,
    ensures
        whole(a).less(binary32().integer(n)),
{
    let one = binary32().one() as int;
    lemma_pow2_pos(149);
    lemma_units(a);
    lemma_first_long();
    assert(n * one >= 0x100_0000 * one && a * one < 0x100_0000 * one) by (nonlinear_arith)
        requires
            n >= 0x100_0000,
            a < 0x100_0000,
            one > 0,
    ;
    lemma_power_representable(173, 24);
    lemma_nearest_keeps_order((n * one) as nat, 1, 24, pow2(173));
}

/// The sum with the opposite of a whole number.
pub proof fn lemma_difference(a: int, b: int)
    requires
        short(a - b),
    ensures
        binary32().difference(whole(a), whole(b)) == whole(a - b),
{
    let one = binary32().one() as int;
    lemma_pow2_pos(149);
    lemma_units(a);
    lemma_units(b);
    let c = a - b;
    assert(whole(b).negated().units() == -whole(b).units());
    assert(a * one - b * one == c * one) by (nonlinear_arith)
        requires
            c == a - b,
    ;
    lemma_rounded_units(c);
}

pub proof fn lemma_product(a: nat, b: nat)
    requires
        short((a * b) as int),
    ensures
        binary32().product(whole(a as int), whole(b as int)) == whole((a * b) as int),
{
    let one = binary32().one();
    lemma_pow2_pos(149);
    let n = (a * one) * (b * one);
    assert(n * 1 == ((a * b) * one) * one) by (nonlinear_arith)
        requires
            n == (a * one) * (b * one),
    ;
    lemma_nearest_ratio(n, one, (a * b) * one, 1, 24);
    lemma_rounded_short(false, a * b);
}

pub proof fn lemma_floor(n: int)
    ensures
        binary32().floor(whole(n)) == whole(n),
        binary32().floor_integer(whole(n)) == n,
{
    let one = binary32().one() as int;
    lemma_pow2_pos(149);
    lemma_units(n);
    assert(n * one == one * n + 0) by (nonlinear_arith);
    vstd::arithmetic::div_mod::lemma_fundamental_div_mod_converse(n * one, one, n, 0);
}

pub proof fn lemma_less(a: int, b: int)
    ensures
        whole(a).less(whole(b)) == (a < b),
{
    let one = binary32().one() as int;
    lemma_pow2_pos(149);
    lemma_units(a);
    lemma_units(b);
    assert((a < b) == (a * one < b * one)) by (nonlinear_arith)
        requires
            one > 0,
    ;
}

pub proof fn lemma_byte(n: u8)
    ensures
        binary32().byte(whole(n as int)) == n,
{
    lemma_pow2_pos(149);
    lemma_round_even_exact(n as nat, binary32().one());
}

} // verus!
