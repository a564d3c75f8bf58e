//! Comparison of binary floating-point values and their passage to and from integers.
use crate::arithmetic::{
    lemma_magnitude_zero, lemma_nearest_zero, lemma_small_powers, power, round, Value,
};
use crate::number::{round_even, Format};
use crate::rounding::{
    lemma_nearest_exact, lemma_pow2_le, lemma_quotient, lemma_quotient_bounds,
    lemma_round_even_ratio,
};
use vstd::arithmetic::power2::{lemma_pow2_adds, lemma_pow2_pos, lemma_pow2_unfold, pow2};
use vstd::prelude::*;

verus! {

/// `n` as a number of the format, rounded where it has too many digits.
pub fn integer(format: Format, n: u64) -> (r: Value)
    requires
        format.wf(),
    ensures
        r.wf(format),
        r@ == format.integer(n as nat),
{
    proof {
        lemma_small_powers();
        lemma_pow2_pos(format.precision as nat);
        lemma_pow2_pos(format.limit as nat);
    }
    if n == 0 {
        proof {
            assert(0 * format.one() == 0) by (nonlinear_arith);
            lemma_nearest_zero(1, format.precision as nat);
            lemma_magnitude_zero(0, 0);
        }
        Value::Finite { negative: false, significand: 0, exponent: 0 }
    } else {
        round(format, false, n as u128, format.unit as i32)
    }
}

/// A longer exponent makes a larger magnitude.
proof fn lemma_magnitude_order(ma: nat, ea: nat, mb: nat, eb: nat, p: nat)
    requires
        p >= 1,
        ma < pow2(p),
        pow2((p - 1) as nat) <= mb,
        ea < eb,
    ensures
        ma * pow2(ea) < mb * pow2(eb),
{
    let u = pow2(ea);
    lemma_pow2_pos(ea);
    lemma_pow2_unfold(p);
    lemma_pow2_unfold(ea + 1);
    lemma_pow2_le(ea + 1, eb);
    assert(ma * u < mb * pow2(eb)) by (nonlinear_arith)
        requires
            ma < 2 * pow2((p - 1) as nat),
            pow2((p - 1) as nat) <= mb,
            2 * u <= pow2(eb),
            u > 0,
    ;
}

/// Whether the magnitude of the first number is below that of the second.
fn magnitude_less(format: Format, ma: u64, ea: u32, mb: u64, eb: u32) -> (r: bool)
    requires
        format.wf(),
        (Value::Finite { negative: false, significand: ma, exponent: ea }).wf(format),
        (Value::Finite { negative: false, significand: mb, exponent: eb }).wf(format),
    ensures
        r == (ma * pow2(ea as nat) < mb * pow2(eb as nat)),
{
    let ghost p = format.precision as nat;
    if ea < eb {
        proof {
            lemma_magnitude_order(ma as nat, ea as nat, mb as nat, eb as nat, p);
        }
        true
    } else if ea > eb {
        proof {
            lemma_magnitude_order(mb as nat, eb as nat, ma as nat, ea as nat, p);
        }
        false
    } else {
        proof {
            lemma_pow2_pos(ea as nat);
            assert((ma < mb) == (ma * pow2(ea as nat) < mb * pow2(ea as nat))) by (nonlinear_arith)
                requires
                    pow2(ea as nat) > 0,
            ;
        }
        ma < mb
    }
}

/// `x < y`.
pub fn less(format: Format, x: Value, y: Value) -> (r: bool)
    requires
        format.wf(),
        x.wf(format),
        y.wf(format),
    ensures
        r == x@.less(y@),
{
    match (x, y) {
        (Value::Nan, _) => false,
        (_, Value::Nan) => false,
        (Value::Infinite { negative: a }, Value::Infinite { negative: b }) => a && !b,
        (Value::Infinite { negative: a }, Value::Finite { .. }) => a,
        (Value::Finite { .. }, Value::Infinite { negative: b }) => !b,
        (
            Value::Finite { negative: na, significand: ma, exponent: ea },
            Value::Finite { negative: nb, significand: mb, exponent: eb },
        ) => {
            proof {
                lemma_magnitude_zero(ma, ea);
                lemma_magnitude_zero(mb, eb);
            }
            if na != nb {
                na && (ma != 0 || mb != 0)
            } else if na {
                magnitude_less(format, mb, eb, ma, ea)
            } else {
                magnitude_less(format, ma, ea, mb, eb)
            }
        },
    }
}

/// A ratio to one is a ratio to a smaller power of two, once the common power is taken out.
proof fn lemma_whole_part(m: nat, exponent: nat, unit: nat)
    requires
        exponent <= unit,
    ensures
        (m * pow2(exponent)) / pow2(unit) == m / pow2((unit - exponent) as nat),
        round_even(m * pow2(exponent), pow2(unit)) == round_even(
            m,
            pow2((unit - exponent) as nat),
        ),
        ((m * pow2(exponent)) % pow2(unit) == 0) == (m % pow2((unit - exponent) as nat) == 0),
{
    let k = (unit - exponent) as nat;
    let u = pow2(exponent);
    let w = pow2(k);
    lemma_pow2_pos(unit);
    lemma_pow2_pos(exponent);
    lemma_pow2_pos(k);
    lemma_pow2_adds(k, exponent);
    assert((m * u) * w == m * pow2(unit)) by (nonlinear_arith)
        requires
            w * u == pow2(unit),
    ;
    lemma_round_even_ratio(m * u, pow2(unit), m, w);
    lemma_quotient_bounds(m, w);
    lemma_quotient_bounds(m * u, pow2(unit));
    let q = m / w;
    let r = (m % w) as nat;
    let r2 = ((m * u) % pow2(unit)) as nat;
    assert(r2 == r * u) by (nonlinear_arith)
        requires
            m == q * w + r,
            m * u == q * pow2(unit) + r2,
            w * u == pow2(unit),
    ;
    assert((r == 0) == (r * u == 0)) by (nonlinear_arith)
        requires
            u > 0,
    ;
}

/// Whole part of `m / 2^k`, and whether anything is left.
fn whole_part(m: u64, k: u32) -> (r: (u64, bool))
    requires
        m < 0x20_0000_0000_0000,
        k >= 1,
    ensures
        r.0 == m as nat / pow2(k as nat),
        r.1 == (m as nat % pow2(k as nat) != 0),
        2 * r.0 <= m,
{
    if k > 53 {
        proof {
            lemma_small_powers();
            lemma_pow2_le(53, k as nat);
            let w = pow2(k as nat);
            assert(0 * w == 0 && (0 + 1) * w == w) by (nonlinear_arith);
            lemma_quotient(m as nat, w, 0);
        }
        (0, m != 0)
    } else {
        let w = power(k);
        proof {
            lemma_pow2_pos(k as nat);
            lemma_pow2_le(1, k as nat);
            lemma_small_powers();
            lemma_quotient_bounds(m as nat, w as nat);
            assert(2 * (m as nat / w as nat) <= m) by (nonlinear_arith)
                requires
                    (m as nat / w as nat) * w <= m,
                    w >= 2,
            ;
        }
        ((m as u128 / w) as u64, m as u128 % w != 0)
    }
}

/// Euclidean division of a negated number.
proof fn lemma_floor_of_negative(n: nat, d: nat)
    requires
        d > 0,
    ensures
        (-(n as int)) / (d as int) == -((n / d) as int) - (if n % d == 0 {
            0int
        } else {
            1int
        }),
{
    lemma_quotient_bounds(n, d);
    let q = n / d;
    let r = n % d;
    if r == 0 {
        assert(-(n as int) == d * (-(q as int)) + 0) by (nonlinear_arith)
            requires
                n == q * d,
        ;
        vstd::arithmetic::div_mod::lemma_fundamental_div_mod_converse(
            -(n as int),
            d as int,
            -(q as int),
            0,
        );
    } else {
        assert(-(n as int) == d * (-(q as int) - 1) + (d - r)) by (nonlinear_arith)
            requires
                n == q * d + r,
        ;
        vstd::arithmetic::div_mod::lemma_fundamental_div_mod_converse(
            -(n as int),
            d as int,
            -(q as int) - 1,
            d - r,
        );
    }
}

/// `x` rounded down to an integer.
pub fn floor(format: Format, x: Value) -> (r: Value)
    requires
        format.wf(),
        x.wf(format),
    ensures
        r.wf(format),
        r@ == format.floor(x@),
{
    match x {
        Value::Finite { negative, significand, exponent } => {
            let ghost p = format.precision as nat;
            let ghost unit = format.unit as nat;
            let ghost n = significand as nat * pow2(exponent as nat);
            proof {
                lemma_small_powers();
                lemma_pow2_le(p, 53);
                lemma_pow2_pos(unit);
                lemma_pow2_pos(p);
                lemma_floor_of_negative(n, format.one());
            }
            if exponent >= format.unit {
                proof {
                    let k = (exponent - unit) as nat;
                    lemma_pow2_adds(k, unit);
                    let c = significand as nat * pow2(k);
                    assert(n == c * format.one()) by (nonlinear_arith)
                        requires
                            n == significand as nat * pow2(exponent as nat),
                            c == significand as nat * pow2(k),
                            pow2(k) * format.one() == pow2(exponent as nat),
                    ;
                    assert((c + 1) * format.one() == c * format.one() + format.one())
                        by (nonlinear_arith);
                    lemma_quotient(n, format.one(), c);
                }
                x
            } else {
                let (whole, rest) = whole_part(significand, format.unit - exponent);
                let i: u64 = if negative && rest {
                    whole + 1
                } else {
                    whole
                };
                proof {
                    lemma_whole_part(significand as nat, exponent as nat, unit);
                    lemma_pow2_unfold(p);
                    assert(i < pow2(p));
                }
                if i == 0 {
                    proof {
                        assert(0 * pow2(0) == 0 && 0 * format.one() == 0) by (nonlinear_arith);
                    }
                    Value::Finite { negative, significand: 0, exponent: 0 }
                } else {
                    proof {
                        lemma_nearest_exact(i as nat, unit, p);
                        lemma_pow2_adds(p, unit);
                        lemma_pow2_le(p + unit, format.limit as nat);
                        assert(i * pow2(unit) < pow2(p) * pow2(unit)) by (nonlinear_arith)
                            requires
                                i < pow2(p),
                                pow2(unit) > 0,
                        ;
                        lemma_pow2_le(53, 127);
                    }
                    round(format, negative, i as u128, format.unit as i32)
                }
            }
        },
        _ => x,
    }
}

/// The largest integer not above `x`.
pub fn floor_integer(format: Format, x: Value) -> (r: i64)
    requires
        format.wf(),
        x.wf(format),
        x is Finite,
        -0x8000_0000_0000_0000 <= format.floor_integer(x@) <= 0x7fff_ffff_ffff_ffff,
    ensures
        r == format.floor_integer(x@),
{
    match x {
        Value::Finite { negative, significand, exponent } => {
            let ghost unit = format.unit as nat;
            let ghost n = significand as nat * pow2(exponent as nat);
            proof {
                lemma_small_powers();
                lemma_pow2_le(format.precision as nat, 53);
                lemma_pow2_pos(unit);
                lemma_floor_of_negative(n, format.one());
            }
            if exponent >= format.unit {
                let k: u32 = exponent - format.unit;
                let ghost c = significand as nat * pow2(k as nat);
                proof {
                    lemma_pow2_adds(k as nat, unit);
                    assert(n == c * format.one()) by (nonlinear_arith)
                        requires
                            n == significand as nat * pow2(exponent as nat),
                            c == significand as nat * pow2(k as nat),
                            pow2(k as nat) * format.one() == pow2(exponent as nat),
                    ;
                    assert((c + 1) * format.one() == c * format.one() + format.one())
                        by (nonlinear_arith);
                    lemma_quotient(n, format.one(), c);
                    assert(format.floor_integer(x@) == if negative {
                        -(c as int)
                    } else {
                        c as int
                    });
                    // A normal significand times more than 2^63 would not fit.
                    lemma_pow2_pos((format.precision - 1) as nat);
                    lemma_pow2_pos(k as nat);
                    assert(c >= pow2(k as nat)) by (nonlinear_arith)
                        requires
                            c == significand as nat * pow2(k as nat),
                            significand >= 1,
                    ;
                    if k >= 64 {
                        lemma_pow2_le(64, k as nat);
                        vstd::arithmetic::power2::lemma2_to64();
                        assert(false);
                    }
                    assert(pow2(k as nat) <= 0x8000_0000_0000_0000);
                    assert(significand * pow2(k as nat) <= 0x8000_0000_0000_0000);
                }
                let m: u128 = significand as u128 * power(k);
                if negative {
                    (-(m as i128)) as i64
                } else {
                    m as i64
                }
            } else {
                let (whole, rest) = whole_part(significand, format.unit - exponent);
                proof {
                    lemma_whole_part(significand as nat, exponent as nat, unit);
                }
                if !negative {
                    whole as i64
                } else if rest {
                    -(whole as i64) - 1
                } else {
                    -(whole as i64)
                }
            }
        },
        _ => 0,
    }
}

/// `x` rounded to the nearest integer, ties to even, and clamped to `0..=255`.
pub fn byte(format: Format, x: Value) -> (r: u8)
    requires
        format.wf(),
        x.wf(format),
    ensures
        r == format.byte(x@),
{
    match x {
        Value::Nan => 0,
        Value::Infinite { negative } => if negative {
            0
        } else {
            255
        },
        Value::Finite { negative, significand, exponent } => {
            let ghost p = format.precision as nat;
            let ghost unit = format.unit as nat;
            let ghost n = significand as nat * pow2(exponent as nat);
            proof {
                lemma_small_powers();
                lemma_pow2_le(p, 53);
                lemma_pow2_pos(unit);
                lemma_quotient_bounds(n, format.one());
            }
            if negative {
                0
            } else if exponent >= format.unit {
                proof {
                    vstd::arithmetic::power2::lemma2_to64();
                    lemma_pow2_le(8, (p - 1) as nat);
                    lemma_pow2_le(unit, exponent as nat);
                    assert(n >= 256 * format.one()) by (nonlinear_arith)
                        requires
                            n == significand as nat * pow2(exponent as nat),
                            significand >= 256,
                            pow2(exponent as nat) >= format.one(),
                    ;
                    let q = n / format.one();
                    assert(q >= 256) by (nonlinear_arith)
                        requires
                            n < (q + 1) * format.one(),
                            n >= 256 * format.one(),
                            format.one() > 0,
                    ;
                }
                255
            } else {
                let k: u32 = format.unit - exponent;
                proof {
                    lemma_whole_part(significand as nat, exponent as nat, unit);
                    lemma_pow2_pos(k as nat);
                    lemma_quotient_bounds(significand as nat, pow2(k as nat));
                }
                if k > 54 {
                    proof {
                        lemma_pow2_le(55, k as nat);
                        lemma_pow2_unfold(55);
                        lemma_pow2_unfold(54);
                        let w = pow2(k as nat);
                        assert(0 * w == 0 && (0 + 1) * w == w) by (nonlinear_arith);
                        lemma_quotient(significand as nat, w, 0);
                    }
                    0
                } else {
                    let w = power(k);
                    let m: u128 = significand as u128;
                    let q: u128 = m / w;
                    let rest: u128 = m % w;
                    let half: u128 = w / 2;
                    proof {
                        lemma_pow2_unfold(k as nat);
                    }
                    let i: u128 = if rest > half || (rest == half && q % 2 == 1) {
                        q + 1
                    } else {
                        q
                    };
                    assert(i == round_even(significand as nat, pow2(k as nat)));
                    if i > 255 {
                        255
                    } else {
                        i as u8
                    }
                }
            }
        },
    }
}

/// `x` in a format whose units are smaller by two to the power of `k` and that has every number
/// of the first.
pub fn rescaled(from: Format, to: Format, k: u32, x: Value) -> (r: Value)
    requires
        from.wf(),
        to.wf(),
        x.wf(from),
        from.precision <= to.precision,
        from.limit + k <= to.limit,
    ensures
        r.wf(to),
        r@ == x@.rescaled(k as nat),
{
    match x {
        Value::Finite { negative, significand, exponent } => {
            let ghost p = from.precision as nat;
            let ghost p2 = to.precision as nat;
            let ghost e = (exponent + k) as nat;
            proof {
                lemma_small_powers();
                lemma_pow2_le(p, p2);
                lemma_pow2_le(p2, 53);
                lemma_pow2_le(53, 127);
                lemma_pow2_pos(p2);
                lemma_pow2_pos(e);
                lemma_pow2_adds(exponent as nat, k as nat);
                assert((significand * pow2(exponent as nat)) * pow2(k as nat) == significand
                    * pow2(e)) by (nonlinear_arith)
                    requires
                        pow2(exponent as nat) * pow2(k as nat) == pow2(e),
                ;
            }
            if significand == 0 {
                proof {
                    assert(0 * pow2(0) == 0 && 0 * pow2(e) == 0) by (nonlinear_arith);
                }
                Value::Finite { negative, significand: 0, exponent: 0 }
            } else {
                proof {
                    lemma_nearest_exact(significand as nat, e, p2);
                    lemma_pow2_adds(p, e);
                    lemma_pow2_le(p + e, to.limit as nat);
                    assert(significand * pow2(e) < pow2(p) * pow2(e)) by (nonlinear_arith)
                        requires
                            significand < pow2(p),
                            pow2(e) > 0,
                    ;
                }
                round(to, negative, significand as u128, (exponent + k) as i32)
            }
        },
        _ => x,
    }
}

} // verus!
