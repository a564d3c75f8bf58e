//! Quotients and square roots of binary floating-point values, correctly rounded.
use crate::arithmetic::{
    bit_length, lemma_magnitude_zero, lemma_nearest_zero, lemma_small_powers, power, round, Value,
};
use crate::number::{nearest, nearest_root, Format};
use crate::rounding::{
    lemma_nearest_below, lemma_nearest_ratio, lemma_nearest_root_exact, lemma_nearest_root_sticky,
    lemma_nearest_scaled, lemma_nearest_sticky, lemma_pow2_le, lemma_quotient_bounds,
    nearest_scaled,
};
use vstd::arithmetic::power2::{lemma_pow2_adds, lemma_pow2_pos, lemma_pow2_unfold, pow2};
use vstd::prelude::*;

verus! {

/// `m` shifted up to `digits` binary digits.
fn widened(m: u64, digits: u32) -> (r: (u128, u32))
    requires
        0 < m < 0x20_0000_0000_0000,
        53 <= digits <= 125,
    ensures
        digits - 53 <= r.1 < digits,
        pow2((digits - r.1 - 1) as nat) <= m < pow2((digits - r.1) as nat),
        r.0 == m * pow2(r.1 as nat),
        pow2((digits - 1) as nat) <= r.0 < pow2(digits as nat),
{
    let l = bit_length(m as u128);
    proof {
        lemma_small_powers();
        if l > 53 {
            lemma_pow2_le(53, (l - 1) as nat);
        }
    }
    let g: u32 = digits - l;
    let w = power(g);
    proof {
        lemma_pow2_pos(g as nat);
        lemma_pow2_adds(l as nat, g as nat);
        lemma_pow2_adds((l - 1) as nat, g as nat);
        assert(pow2((digits - 1) as nat) <= m * w < pow2(digits as nat)) by (nonlinear_arith)
            requires
                pow2((l - 1) as nat) <= m < pow2(l as nat),
                pow2((l - 1) as nat) * w == pow2((digits - 1) as nat),
                pow2(l as nat) * w == pow2(digits as nat),
                w > 0,
        ;
        lemma_pow2_le(digits as nat, 127);
    }
    (m as u128 * w, g)
}

/// How a quotient rounds, from the quotient of the shifted significands.
proof fn lemma_quotient_rounds(
    ma: nat,
    ea: nat,
    mb: nat,
    eb: nat,
    unit: nat,
    g: nat,
    q: nat,
    exact: bool,
    p: nat,
)
    requires
        p >= 1,
        mb > 0,
        exact ==> q * mb == ma * pow2(g),
        !exact ==> q * mb < ma * pow2(g) < (q + 1) * mb && q >= pow2(p),
    ensures
        nearest((ma * pow2(ea)) * pow2(unit), mb * pow2(eb), p) == (if exact {
            nearest_scaled(q, ea + unit - (eb + g), p)
        } else {
            nearest_scaled(2 * q + 1, ea + unit - (eb + g) - 1, p)
        }),
{
    let a = ea + unit;
    let b = eb + g;
    let n = (ma * pow2(ea)) * pow2(unit);
    let d = mb * pow2(eb);
    let pa = pow2(a);
    let pb = pow2(b);
    lemma_pow2_adds(ea, unit);
    lemma_pow2_adds(eb, g);
    lemma_pow2_pos(a);
    lemma_pow2_pos(b);
    lemma_pow2_pos(eb);
    assert(n == ma * pa) by (nonlinear_arith)
        requires
            n == (ma * pow2(ea)) * pow2(unit),
            pow2(ea) * pow2(unit) == pa,
    ;
    assert(d > 0) by (nonlinear_arith)
        requires
            d == mb * pow2(eb),
            mb > 0,
            pow2(eb) > 0,
    ;
    let s = ma * pow2(g);
    let u = pow2(eb);
    assert(n * pb == s * (pa * u)) by (nonlinear_arith)
        requires
            n == ma * pa,
            s == ma * pow2(g),
            u * pow2(g) == pb,
    ;
    assert(q * pa * d == (q * mb) * (pa * u)) by (nonlinear_arith)
        requires
            d == mb * u,
    ;
    assert((q + 1) * pa * d == ((q + 1) * mb) * (pa * u)) by (nonlinear_arith)
        requires
            d == mb * u,
    ;
    assert(pa * u > 0) by (nonlinear_arith)
        requires
            pa > 0,
            u > 0,
    ;
    if exact {
        assert(n * pb == (q * pa) * d);
        lemma_nearest_ratio(n, d, q * pa, pb, p);
        lemma_nearest_scaled(q, a, b, p);
    } else {
        assert((q * mb) * (pa * u) < s * (pa * u) < ((q + 1) * mb) * (pa * u)) by (nonlinear_arith)
            requires
                q * mb < s < (q + 1) * mb,
                pa * u > 0,
        ;
        lemma_nearest_sticky(n, d, q, a, b, p);
    }
}

/// `x / y`.
pub fn quotient(format: Format, x: Value, y: Value) -> (r: Value)
    requires
        format.wf(),
        x.wf(format),
        y.wf(format),
    ensures
        r.wf(format),
        r@ == format.quotient(x@, y@),
{
    let ghost p = format.precision as nat;
    proof {
        lemma_pow2_pos(p);
        lemma_small_powers();
        lemma_magnitude_zero(0, 0);
    }
    match (x, y) {
        (Value::Nan, _) => Value::Nan,
        (_, Value::Nan) => Value::Nan,
        (Value::Infinite { .. }, Value::Infinite { .. }) => Value::Nan,
        (
            Value::Infinite { negative: a },
            Value::Finite { negative: b, .. },
        ) => Value::Infinite { negative: a != b },
        (
            Value::Finite { negative: a, .. },
            Value::Infinite { negative: b },
        ) => Value::Finite { negative: a != b, significand: 0, exponent: 0 },
        (
            Value::Finite { negative: na, significand: ma, exponent: ea },
            Value::Finite { negative: nb, significand: mb, exponent: eb },
        ) => {
            proof {
                lemma_magnitude_zero(ma, ea);
                lemma_magnitude_zero(mb, eb);
                lemma_pow2_le(p, 53);
            }
            if mb == 0 {
                if ma == 0 {
                    Value::Nan
                } else {
                    Value::Infinite { negative: na != nb }
                }
            } else if ma == 0 {
                proof {
                    assert(0 * format.one() == 0) by (nonlinear_arith);
                    lemma_nearest_zero((mb * pow2(eb as nat)) as nat, p);
                    lemma_pow2_pos(format.limit as nat);
                }
                Value::Finite { negative: na != nb, significand: 0, exponent: 0 }
            } else {
                let (wide, g) = widened(ma, 125);
                let q: u128 = wide / mb as u128;
                let rest: u128 = wide % mb as u128;
                proof {
                    lemma_quotient_bounds(wide as nat, mb as nat);
                    lemma_pow2_adds(71, 53);
                    lemma_pow2_le(p, 71);
                    lemma_pow2_pos(71);
                    assert(q >= pow2(71)) by (nonlinear_arith)
                        requires
                            wide < (q + 1) * mb,
                            wide >= pow2(71) * pow2(53),
                            mb < pow2(53),
                    ;
                    assert(q <= wide) by (nonlinear_arith)
                        requires
                            q * mb <= wide,
                            mb >= 1,
                    ;
                    lemma_pow2_unfold(127);
                    lemma_pow2_unfold(126);
                    lemma_quotient_rounds(
                        ma as nat,
                        ea as nat,
                        mb as nat,
                        eb as nat,
                        format.unit as nat,
                        g as nat,
                        q as nat,
                        rest == 0,
                        p,
                    );
                }
                let e: i32 = ea as i32 + format.unit as i32 - (eb as i32 + g as i32);
                if rest == 0 {
                    round(format, na != nb, q, e)
                } else {
                    round(format, na != nb, 2 * q + 1, e - 1)
                }
            }
        },
    }
}

/// The largest integer whose square is not above `m`.
fn square_root(m: u128) -> (r: u128)
    requires
        m < pow2(125),
    ensures
        r * r <= m < (r + 1) * (r + 1),
        r < pow2(63),
{
    let mut r: u128 = 0;
    let mut i: u32 = 63;
    proof {
        lemma_pow2_adds(63, 63);
        lemma_pow2_le(125, 126);
        assert(0 * 0 == 0);
    }
    while i > 0
        invariant
            i <= 63,
            r * r <= m < (r + pow2(i as nat)) * (r + pow2(i as nat)),
            r + pow2(i as nat) <= pow2(63),
        decreases i,
    {
        i = i - 1;
        proof {
            lemma_pow2_unfold((i + 1) as nat);
            lemma_pow2_pos(i as nat);
            assert(pow2(63) == 0x8000_0000_0000_0000) by {
                vstd::arithmetic::power2::lemma2_to64_rest();
            }
        }
        let t: u128 = r + power(i);
        assert(t * t <= 0x8000_0000_0000_0000 * 0x8000_0000_0000_0000) by (nonlinear_arith)
            requires
                0 <= t <= 0x8000_0000_0000_0000,
        ;
        if t * t <= m {
            r = t;
        }
    }
    proof {
        lemma_small_powers();
    }
    r
}

/// How a root rounds, from the root of the shifted significand.
proof fn lemma_root_rounds(m: nat, r: nat, c: nat, p: nat)
    requires
        24 <= p <= 53,
        c >= 1,
        pow2(123) <= m,
        r * r <= m < (r + 1) * (r + 1),
        r < pow2(63),
    ensures
        0 < r,
        nearest_root(m * (pow2(c) * pow2(c)), p) == (if r * r == m {
            nearest_scaled(r, c as int, p)
        } else {
            nearest_scaled(2 * r + 1, c - 1, p)
        }),
        nearest_root(m * (pow2(c) * pow2(c)), p) <= pow2(63 + c),
{
    let u = pow2(c);
    let n = m * (u * u);
    lemma_pow2_pos(c);
    lemma_pow2_adds(61, 61);
    lemma_pow2_le(122, 123);
    let w = pow2(61);
    assert(r + 1 > w) by (nonlinear_arith)
        requires
            w * w <= m,
            m < (r + 1) * (r + 1),
    ;
    lemma_pow2_le(p, 61);
    lemma_pow2_pos(61);
    lemma_pow2_adds(63, c);
    if r * r == m {
        assert(n == (r * u) * (r * u)) by (nonlinear_arith)
            requires
                n == m * (u * u),
                r * r == m,
        ;
        lemma_nearest_root_exact(r, c, p);
        assert(r * u < pow2(63 + c) * 1) by (nonlinear_arith)
            requires
                r < pow2(63),
                pow2(63) * u == pow2(63 + c),
                u > 0,
        ;
        lemma_nearest_below(r * u, 1, p, 63 + c);
    } else {
        assert((r * u) * (r * u) < n) by (nonlinear_arith)
            requires
                n == m * (u * u),
                r * r < m,
                u > 0,
        {
            assert((r * u) * (r * u) == (r * r) * (u * u));
            assert(u * u > 0);
        }
        assert(n < ((r + 1) * u) * ((r + 1) * u)) by (nonlinear_arith)
            requires
                n == m * (u * u),
                m < (r + 1) * (r + 1),
                u > 0,
        {
            assert(((r + 1) * u) * ((r + 1) * u) == ((r + 1) * (r + 1)) * (u * u));
            assert(u * u > 0);
        }
        lemma_nearest_root_sticky(n, r, c, p);
        let v = pow2((c - 1) as nat);
        lemma_pow2_pos((c - 1) as nat);
        lemma_pow2_unfold(c);
        assert((2 * r + 1) * v < pow2(63 + c) * 1) by (nonlinear_arith)
            requires
                r < pow2(63),
                pow2(63) * u == pow2(63 + c),
                u == 2 * v,
                v > 0,
        ;
        lemma_nearest_below((2 * r + 1) * v, 1, p, 63 + c);
    }
}

/// The square root of a positive number.
fn finite_root(format: Format, significand: u64, exponent: u32) -> (r: Value)
    requires
        format.wf(),
        significand > 0,
        (Value::Finite { negative: false, significand, exponent }).wf(format),
    ensures
        r.wf(format),
        r@ == format.root((Value::Finite { negative: false, significand, exponent })@),
{
    let ghost p = format.precision as nat;
    proof {
        lemma_magnitude_zero(significand, exponent);
        lemma_small_powers();
        lemma_pow2_le(p, 53);
    }
    let wide = widened(significand, 125);
    let (m, g): (u128, u32) = if (exponent + format.unit - wide.1) % 2 == 0 {
        wide
    } else {
        proof {
            lemma_pow2_unfold(wide.1 as nat);
            lemma_pow2_unfold(124);
            let half = pow2((wide.1 - 1) as nat);
            assert(wide.0 == 2 * (significand * half)) by (nonlinear_arith)
                requires
                    wide.0 == significand * (2 * half),
            ;
        }
        (wide.0 / 2, wide.1 - 1)
    };
    let c: u32 = (exponent + format.unit - g) / 2;
    proof {
        lemma_pow2_le(123, 124);
        lemma_pow2_le(124, 125);
        // Both shifts put the last place at an even power of two.
        let a = (exponent + format.unit) as nat;
        let u = pow2(c as nat);
        assert(g + 2 * c == a);
        lemma_pow2_adds(c as nat, c as nat);
        lemma_pow2_adds(g as nat, (2 * c) as nat);
        lemma_pow2_adds(exponent as nat, format.unit as nat);
        assert((significand * pow2(exponent as nat)) * format.one() == m * (u * u))
            by (nonlinear_arith)
            requires
                pow2(exponent as nat) * format.one() == pow2(a),
                pow2(g as nat) * (u * u) == pow2(a),
                m == significand * pow2(g as nat),
        ;
    }
    let s = square_root(m);
    proof {
        lemma_root_rounds(m as nat, s as nat, c as nat, p);
        lemma_pow2_le(65, 127);
        lemma_pow2_unfold(64);
        lemma_pow2_unfold(65);
        lemma_pow2_le(63, 65);
        lemma_pow2_pos(63);
        // The root of a number in range is in range.
        assert(wide.1 + p >= 125) by {
            if wide.1 + p < 125 {
                lemma_pow2_le(p, (125 - wide.1 - 1) as nat);
            }
        }
        lemma_pow2_le((64 + c) as nat, format.limit as nat);
        lemma_pow2_unfold((64 + c) as nat);
        lemma_pow2_pos((63 + c) as nat);
    }
    if s * s == m {
        round(format, false, s, c as i32)
    } else {
        round(format, false, 2 * s + 1, c as i32 - 1)
    }
}

/// The square root of `x`.
pub fn root(format: Format, x: Value) -> (r: Value)
    requires
        format.wf(),
        x.wf(format),
    ensures
        r.wf(format),
        r@ == format.root(x@),
{
    match x {
        Value::Nan => Value::Nan,
        Value::Infinite { negative } => if negative {
            Value::Nan
        } else {
            x
        },
        Value::Finite { negative, significand, exponent } => {
            proof {
                lemma_magnitude_zero(significand, exponent);
            }
            if significand == 0 {
                x
            } else if negative {
                Value::Nan
            } else {
                finite_root(format, significand, exponent)
            }
        },
    }
}

} // verus!
