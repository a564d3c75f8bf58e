//! Arithmetic on binary floating-point values, correctly rounded.
use crate::number::{nearest, round_even, spacing, Format, Number};
use crate::rounding::{
    lemma_nearest_scaled, lemma_nearest_sticky, lemma_pow2_le, lemma_quotient, lemma_quotient_bounds,
    lemma_round_even_exact, lemma_round_even_ratio, lemma_spacing, nearest_scaled,
    strictly_between,
};
use vstd::arithmetic::power2::{lemma_pow2_adds, lemma_pow2_pos, lemma_pow2_unfold, pow2};
use vstd::bits::lemma_u128_shr_is_div;
use vstd::prelude::*;

verus! {

/// A value taken apart into sign, significand and exponent.
#[derive(Clone, Copy, Debug, PartialEq, Eq, Structural)]
pub enum Value {
    Nan,
    Infinite { negative: bool },
    /// `significand` times two to the power of `exponent` units.
    Finite { negative: bool, significand: u64, exponent: u32 },
}

impl View for Value {
    type V = Number;

    open spec fn view(&self) -> Number {
        match *self {
            Value::Nan => Number::Nan,
            Value::Infinite { negative } => Number::Infinite { negative },
            Value::Finite { negative, significand, exponent } => Number::Finite {
                negative,
                magnitude: significand as nat * pow2(exponent as nat),
            },
        }
    }
}

impl Value {
    /// The value is one of the format, and its significand is as long as its exponent demands.
    pub open spec fn wf(self, format: Format) -> bool {
        match self {
            Value::Finite { significand, exponent, .. } => {
                &&& significand < pow2(format.precision as nat)
                &&& exponent == 0 || significand >= pow2((format.precision - 1) as nat)
                &&& exponent + format.precision <= format.limit
            },
            _ => true,
        }
    }
}

impl Format {
    /// Bounds within which the integer arithmetic below does not overflow.
    pub open spec fn wf(self) -> bool {
        &&& 24 <= self.precision <= 53
        &&& 149 <= self.unit <= 1074
        &&& self.precision + self.unit <= self.limit <= 2098
    }

    /// `m` times two to the power of `e` units, rounded.
    pub open spec fn rounded_scaled(self, negative: bool, m: nat, e: int) -> Number {
        let magnitude = nearest_scaled(m, e, self.precision as nat);
        if magnitude < pow2(self.limit as nat) {
            Number::Finite { negative, magnitude }
        } else {
            Number::Infinite { negative }
        }
    }
}

proof fn lemma_one_shl(s: u128)
    requires
        s < 128,
    ensures
        (1u128 << s) == pow2(s as nat),
    decreases s,
{
    if s == 0 {
        assert((1u128 << 0u128) == 1u128) by (bit_vector);
        assert(pow2(0) == 1) by {
            lemma_pow2_unfold(1);
            vstd::arithmetic::power2::lemma2_to64();
        }
    } else {
        let t = (s - 1) as u128;
        lemma_one_shl(t);
        lemma_pow2_unfold(s as nat);
        assert((1u128 << s) == (1u128 << t) + (1u128 << t)) by (bit_vector)
            requires
                s == t + 1,
                s < 128,
        ;
    }
}

/// Two to the power of `s`.
pub(crate) fn power(s: u32) -> (r: u128)
    requires
        s <= 127,
    ensures
        r == pow2(s as nat),
{
    proof {
        lemma_one_shl(s as u128);
    }
    1u128 << (s as u128)
}

proof fn lemma_halving(m: nat, v: nat, l: nat, s: nat)
    requires
        l >= 1,
        v * pow2((l - 1) as nat) <= m < (v + 1) * pow2((l - 1) as nat),
    ensures
        (v / pow2(s)) * pow2((l + s - 1) as nat) <= m,
        m < (v / pow2(s) + 1) * pow2((l + s - 1) as nat),
{
    let c = pow2(s);
    let b = pow2((l - 1) as nat);
    lemma_pow2_pos(s);
    lemma_pow2_adds(s, (l - 1) as nat);
    lemma_quotient_bounds(v, c);
    let w = v / c;
    assert(w * (c * b) <= m) by (nonlinear_arith)
        requires
            w * c <= v,
            v * b <= m,
    ;
    assert(m < (w + 1) * (c * b)) by (nonlinear_arith)
        requires
            v < (w + 1) * c,
            m < (v + 1) * b,
    ;
}

/// Number of binary digits of `m`.
pub(crate) fn bit_length(m: u128) -> (l: u32)
    requires
        m > 0,
    ensures
        1 <= l <= 128,
        pow2((l - 1) as nat) <= m < pow2(l as nat),
{
    let mut v: u128 = m;
    let mut l: u32 = 1;
    let mut s: u128 = 64;
    proof {
        vstd::arithmetic::power2::lemma2_to64();
        lemma_pow2_adds(64, 64);
        assert(pow2(128) == 0x1_0000_0000_0000_0000 * 0x1_0000_0000_0000_0000);
        assert(v * pow2(0) == v && (v + 1) * pow2(0) == v + 1);
    }
    while s > 0
        invariant
            s == 64 || s == 32 || s == 16 || s == 8 || s == 4 || s == 2 || s == 1 || s == 0,
            v > 0,
            s > 0 ==> v < pow2((2 * s) as nat),
            s == 0 ==> v < 2,
            l >= 1,
            l + 2 * s <= 129,
            s == 0 ==> l <= 128,
            v * pow2((l - 1) as nat) <= m < (v + 1) * pow2((l - 1) as nat),
        decreases s,
    {
        proof {
            lemma_u128_shr_is_div(v, s);
            lemma_pow2_pos(s as nat);
            lemma_quotient_bounds(v as nat, pow2(s as nat));
            lemma_pow2_adds(s as nat, s as nat);
            lemma_halving(m as nat, v as nat, l as nat, s as nat);
            assert(pow2(1) == 2) by {
                vstd::arithmetic::power2::lemma2_to64();
            }
        }
        let w: u128 = v >> s;
        if w > 0 {
            proof {
                assert(w < pow2(s as nat)) by (nonlinear_arith)
                    requires
                        w * pow2(s as nat) <= v,
                        v < pow2(s as nat) * pow2(s as nat),
                        pow2(s as nat) > 0,
                ;
            }
            v = w;
            l = l + s as u32;
        } else {
            assert(v < pow2(s as nat)) by (nonlinear_arith)
                requires
                    v < (w + 1) * pow2(s as nat),
                    w == 0,
            ;
        }
        s = s / 2;
    }
    proof {
        lemma_pow2_unfold(l as nat);
    }
    l
}

/// Where rounding to `p` digits puts a number of `l` digits that is scaled by a power of two.
proof fn lemma_nearest_position(m: nat, l: nat, e: int, p: nat)
    requires
        p >= 1,
        l >= 1,
        pow2((l - 1) as nat) <= m < pow2(l),
    ensures
        ({
            let x = if e + l - p > 0 {
                (e + l - p) as nat
            } else {
                0
            };
            nearest_scaled(m, e, p) == (if x <= e {
                m * pow2((e - x) as nat)
            } else {
                round_even(m, pow2((x - e) as nat))
            }) * pow2(x)
        }),
{
    let x: nat = if e + l - p > 0 {
        (e + l - p) as nat
    } else {
        0
    };
    lemma_pow2_pos(x);
    if e >= 0 {
        let pe = pow2(e as nat);
        let n = m * pe;
        lemma_pow2_pos(e as nat);
        lemma_pow2_adds(l, e as nat);
        lemma_pow2_adds((l - 1) as nat, e as nat);
        assert(pow2((l - 1) as nat) * pe <= n < pow2(l) * pe) by (nonlinear_arith)
            requires
                n == m * pe,
                pow2((l - 1) as nat) <= m < pow2(l),
                pe > 0,
        ;
        assert(n / 1 == n);
        if x == 0 {
            lemma_pow2_le((l + e) as nat, p);
        }
        lemma_spacing(n, p, x);
        if x <= e {
            let c = m * pow2((e - x) as nat);
            lemma_pow2_adds((e - x) as nat, x);
            assert(n == c * pow2(x)) by (nonlinear_arith)
                requires
                    n == m * pe,
                    c == m * pow2((e - x) as nat),
                    pow2((e - x) as nat) * pow2(x) == pe,
            ;
            lemma_round_even_exact(c, pow2(x));
        } else {
            let s = (x - e) as nat;
            lemma_pow2_adds(s, e as nat);
            lemma_pow2_pos(s);
            assert(n * pow2(s) == m * pow2(x)) by (nonlinear_arith)
                requires
                    n == m * pe,
                    pow2(s) * pe == pow2(x),
            ;
            lemma_round_even_ratio(n, pow2(x), m, pow2(s));
        }
        assert(1 * pow2(x) == pow2(x));
    } else {
        let b = (-e) as nat;
        let d = pow2(b);
        lemma_pow2_pos(b);
        let t = m / d;
        lemma_quotient_bounds(m, d);
        // The whole part has at most p + x digits.
        lemma_pow2_adds(p + x, b);
        lemma_pow2_le(l, p + x + b);
        assert(t < pow2(p + x)) by (nonlinear_arith)
            requires
                t * d <= m,
                m < pow2(l),
                pow2(l) <= pow2(p + x + b),
                pow2(p + x) * d == pow2(p + x + b),
                d > 0,
        ;
        if x > 0 {
            let low = pow2((p + x - 1) as nat);
            lemma_pow2_adds((p + x - 1) as nat, b);
            assert(low * d == pow2((l - 1) as nat));
            assert(low <= t) by (nonlinear_arith)
                requires
                    low * d <= m,
                    m < (t + 1) * d,
                    d > 0,
            ;
        }
        lemma_spacing(t, p, x);
        lemma_pow2_adds(b, x);
    }
}

/// Rounds `m` times two to the power of `e` units.
pub(crate) fn round(format: Format, negative: bool, m: u128, e: i32) -> (r: Value)
    requires
        format.wf(),
        0 < m < pow2(127),
        -10000 <= e <= 10000,
    ensures
        r.wf(format),
        r@ == format.rounded_scaled(negative, m as nat, e as int),
{
    let l = bit_length(m);
    let p = format.precision as i32;
    let over: i32 = e + l as i32 - p;
    let x: i32 = if over > 0 { over } else { 0 };
    let ghost pn = p as nat;
    let ghost xn = x as nat;
    proof {
        lemma_nearest_position(m as nat, l as nat, e as int, pn);
        if l == 128 {
            lemma_pow2_le(127, (l - 1) as nat);
        }
        lemma_pow2_unfold(pn);
        lemma_pow2_pos(xn);
        assert(pow2(53) == 0x20_0000_0000_0000) by {
            vstd::arithmetic::power2::lemma2_to64_rest();
        }
        lemma_pow2_le(pn, 53);
        lemma_pow2_pos((pn - 1) as nat);
    }
    let mut significand: u64 = 0;
    if x <= e {
        let s: u32 = (e - x) as u32;
        proof {
            // The shifted number still has at most p digits.
            lemma_pow2_adds(l as nat, s as nat);
            lemma_pow2_adds((l - 1) as nat, s as nat);
            lemma_pow2_le((l + s) as nat, pn);
            lemma_pow2_pos(s as nat);
            lemma_pow2_le(s as nat, pn);
            assert(m * pow2(s as nat) < pow2(pn)) by (nonlinear_arith)
                requires
                    m < pow2(l as nat),
                    pow2(l as nat) * pow2(s as nat) <= pow2(pn),
                    pow2(s as nat) > 0,
            ;
            assert(x > 0 ==> m * pow2(s as nat) >= pow2((pn - 1) as nat)) by (nonlinear_arith)
                requires
                    m >= pow2((l - 1) as nat),
                    x > 0 ==> pow2((l - 1) as nat) * pow2(s as nat) == pow2((pn - 1) as nat),
                    pow2(s as nat) > 0,
            ;
        }
        significand = (m * power(s)) as u64;
    } else {
        let s: u32 = (x - e) as u32;
        if s <= l {
            let w = power(s);
            proof {
                lemma_pow2_pos(s as nat);
            }
            let q: u128 = m / w;
            let rest: u128 = m % w;
            let half: u128 = w / 2;
            proof {
                lemma_quotient_bounds(m as nat, w as nat);
                lemma_pow2_unfold(s as nat);
                lemma_pow2_adds(pn, s as nat);
                lemma_pow2_le(l as nat, pn + s as nat);
                assert(q < pow2(pn)) by (nonlinear_arith)
                    requires
                        q * w <= m,
                        m < pow2(l as nat),
                        pow2(l as nat) <= pow2(pn) * w,
                        w > 0,
                ;
                if x > 0 {
                    lemma_pow2_adds((pn - 1) as nat, s as nat);
                    assert(q >= pow2((pn - 1) as nat)) by (nonlinear_arith)
                        requires
                            m < (q + 1) * w,
                            m >= pow2((l - 1) as nat),
                            pow2((l - 1) as nat) == pow2((pn - 1) as nat) * w,
                            w > 0,
                    ;
                }
            }
            if rest > half || (rest == half && q % 2 == 1) {
                significand = q as u64 + 1;
            } else {
                significand = q as u64;
            }
            assert(significand == round_even(m as nat, pow2(s as nat)));
        } else {
            proof {
                // Less than half of the gap is left.
                lemma_pow2_unfold(s as nat);
                lemma_pow2_le(l as nat, (s - 1) as nat);
                let w = pow2(s as nat);
                assert(0 * w == 0 && (0 + 1) * w == w) by (nonlinear_arith);
                lemma_quotient(m as nat, pow2(s as nat), 0);
            }
            assert(round_even(m as nat, pow2(s as nat)) == 0);
        }
    }
    assert(nearest_scaled(m as nat, e as int, pn) == significand * pow2(xn));
    assert(significand <= pow2(pn));
    assert(x > 0 ==> significand >= pow2((pn - 1) as nat));
    let top: u64 = power(format.precision) as u64;
    let mut exponent: u32 = x as u32;
    if significand == top {
        significand = top / 2;
        exponent = exponent + 1;
        proof {
            lemma_pow2_unfold(xn + 1);
            assert(pow2(pn) * pow2(xn) == pow2((pn - 1) as nat) * pow2(xn + 1)) by (nonlinear_arith)
                requires
                    pow2(pn) == 2 * pow2((pn - 1) as nat),
                    pow2(xn + 1) == 2 * pow2(xn),
            ;
        }
    }
    let ghost xf = exponent as nat;
    assert(nearest_scaled(m as nat, e as int, pn) == significand * pow2(xf));
    proof {
        lemma_pow2_pos(xf);
        lemma_pow2_adds(pn, xf);
    }
    if exponent + format.precision <= format.limit {
        proof {
            lemma_pow2_le(pn + xf, format.limit as nat);
            assert(significand * pow2(xf) < pow2(pn + xf)) by (nonlinear_arith)
                requires
                    significand < pow2(pn),
                    pow2(pn) * pow2(xf) == pow2(pn + xf),
                    pow2(xf) > 0,
            ;
        }
        Value::Finite { negative, significand, exponent }
    } else {
        proof {
            lemma_pow2_adds((pn - 1) as nat, xf);
            lemma_pow2_le(format.limit as nat, (pn - 1 + xf) as nat);
            assert(significand * pow2(xf) >= pow2((pn - 1) as nat) * pow2(xf)) by (nonlinear_arith)
                requires
                    significand >= pow2((pn - 1) as nat),
            ;
        }
        Value::Infinite { negative }
    }
}

pub proof fn lemma_nearest_zero(d: nat, p: nat)
    requires
        d > 0,
    ensures
        nearest(0, d, p) == 0,
{
    lemma_pow2_pos(p);
    lemma_small_powers();
    assert(0 * d == 0 && (0 + 1) * d == d) by (nonlinear_arith);
    lemma_quotient(0, d, 0);
    assert(spacing(0, p) == 0);
    assert(d * pow2(0) == d) by (nonlinear_arith)
        requires
            pow2(0) == 1,
    ;
    assert(round_even(0, d) == 0);
}

/// `-x`.
pub fn negated(x: Value) -> (r: Value)
    ensures
        r@ == x@.negated(),
        forall|format: Format| x.wf(format) ==> r.wf(format),
{
    match x {
        Value::Nan => Value::Nan,
        Value::Infinite { negative } => Value::Infinite { negative: !negative },
        Value::Finite { negative, significand, exponent } => Value::Finite {
            negative: !negative,
            significand,
            exponent,
        },
    }
}

/// The few powers of two that are written as literals below.
pub proof fn lemma_small_powers()
    ensures
        pow2(0) == 1,
        pow2(1) == 2,
        pow2(18) == 0x4_0000,
        pow2(53) == 0x20_0000_0000_0000,
        pow2(127) == 0x8000_0000_0000_0000_0000_0000_0000_0000,
{
    vstd::arithmetic::power2::lemma2_to64();
    vstd::arithmetic::power2::lemma2_to64_rest();
    lemma_pow2_adds(63, 64);
}

/// Sum of two finite values whose exponents are close: computed exactly, then rounded.
fn near_sum(
    format: Format,
    na: bool,
    ma: u64,
    ea: u32,
    nb: bool,
    mb: u64,
    eb: u32,
) -> (r: Value)
    requires
        format.wf(),
        (Value::Finite { negative: na, significand: ma, exponent: ea }).wf(format),
        (Value::Finite { negative: nb, significand: mb, exponent: eb }).wf(format),
        eb <= ea <= eb + 70,
    ensures
        r.wf(format),
        r@ == format.sum(
            (Value::Finite { negative: na, significand: ma, exponent: ea })@,
            (Value::Finite { negative: nb, significand: mb, exponent: eb })@,
        ),
{
    let gap: u32 = ea - eb;
    let w = power(gap);
    let ghost u = pow2(eb as nat);
    proof {
        lemma_small_powers();
        lemma_pow2_le(format.precision as nat, 53);
        lemma_pow2_pos(eb as nat);
        lemma_pow2_pos(gap as nat);
        lemma_pow2_le(gap as nat, 70);
        lemma_pow2_adds(53, 70);
        lemma_pow2_unfold(124);
        lemma_pow2_le(53, 123);
        lemma_pow2_le(124, 127);
        lemma_pow2_adds(gap as nat, eb as nat);
        assert(ma * w < pow2(123)) by (nonlinear_arith)
            requires
                ma < pow2(53),
                w <= pow2(70),
                w > 0,
                pow2(53) * pow2(70) == pow2(123),
        ;
        assert(ma * pow2(ea as nat) == (ma * w) * u) by (nonlinear_arith)
            requires
                pow2(ea as nat) == w * u,
        ;
    }
    let a: u128 = ma as u128 * w;
    let b: u128 = mb as u128;
    let (negative, m): (bool, u128) = if na == nb {
        (na, a + b)
    } else if a >= b {
        (na, a - b)
    } else {
        (nb, b - a)
    };
    proof {
        assert((a + b) * u == a * u + b * u) by (nonlinear_arith);
        assert((a - b) * u == a * u - b * u) by (nonlinear_arith);
        assert((b - a) * u == b * u - a * u) by (nonlinear_arith);
        assert(m > 0 ==> m * u > 0) by (nonlinear_arith)
            requires
                u > 0,
        ;
        assert(m == 0 ==> m * u == 0) by (nonlinear_arith);
    }
    if m == 0 {
        proof {
            lemma_pow2_pos(format.precision as nat);
            assert(0 * pow2(0) == 0);
        }
        Value::Finite { negative: na && nb, significand: 0, exponent: 0 }
    } else {
        round(format, negative, m, eb as i32)
    }
}

/// A number below the last kept place of a larger one only tells on which side the sum lies.
proof fn lemma_far_sum(ma: nat, ea: nat, small: nat, p: nat, add: bool)
    requires
        p >= 1,
        pow2((p - 1) as nat) <= ma,
        18 <= ea,
        0 < small < pow2((ea - 18) as nat),
    ensures
        small <= ma * pow2(ea),
        add ==> nearest(ma * pow2(ea) + small, 1, p) == nearest_scaled(
            ma * 0x8_0000 + 1,
            ea - 19,
            p,
        ),
        !add ==> nearest((ma * pow2(ea) - small) as nat, 1, p) == nearest_scaled(
            (ma * 0x8_0000 - 1) as nat,
            ea - 19,
            p,
        ),
{
    let c = (ea - 18) as nat;
    let u = pow2(c);
    let a = ma * 0x4_0000;
    lemma_small_powers();
    lemma_pow2_adds(18, c);
    lemma_pow2_unfold(p);
    lemma_pow2_pos((p - 1) as nat);
    assert(ma * pow2(ea) == a * u) by (nonlinear_arith)
        requires
            a == ma * 0x4_0000,
            pow2(ea) == 0x4_0000 * u,
    ;
    assert(a * u >= u) by (nonlinear_arith)
        requires
            a >= 1,
            u > 0,
    ;
    assert((a + 1) * u == a * u + u) by (nonlinear_arith);
    assert((a - 1) * u == a * u - u) by (nonlinear_arith);
    if add {
        let n = a * u + small;
        assert(strictly_between(n, 1, a, c, 0));
        lemma_nearest_sticky(n, 1, a, c, 0, p);
    } else {
        let n = (a * u - small) as nat;
        let q = (a - 1) as nat;
        assert(strictly_between(n, 1, q, c, 0));
        lemma_nearest_sticky(n, 1, q, c, 0, p);
    }
}

/// Sum of two finite values, the second too small to reach the last kept place of the first.
fn far_sum(
    format: Format,
    na: bool,
    ma: u64,
    ea: u32,
    nb: bool,
    mb: u64,
    eb: u32,
) -> (r: Value)
    requires
        format.wf(),
        (Value::Finite { negative: na, significand: ma, exponent: ea }).wf(format),
        (Value::Finite { negative: nb, significand: mb, exponent: eb }).wf(format),
        eb + 70 < ea,
    ensures
        r.wf(format),
        r@ == format.sum(
            (Value::Finite { negative: na, significand: ma, exponent: ea })@,
            (Value::Finite { negative: nb, significand: mb, exponent: eb })@,
        ),
{
    let ghost p = format.precision as nat;
    let ghost big = ma * pow2(ea as nat);
    let ghost small = mb * pow2(eb as nat);
    proof {
        lemma_small_powers();
        lemma_pow2_le(p, 53);
        lemma_pow2_pos((p - 1) as nat);
        lemma_pow2_pos(ea as nat);
        lemma_pow2_pos(eb as nat);
        assert(big > 0) by (nonlinear_arith)
            requires
                big == ma * pow2(ea as nat),
                ma > 0,
                pow2(ea as nat) > 0,
        ;
    }
    if mb == 0 {
        proof {
            assert(small == 0) by (nonlinear_arith)
                requires
                    small == mb * pow2(eb as nat),
                    mb == 0,
            ;
        }
        round(format, na, ma as u128, ea as i32)
    } else {
        let a: u128 = ma as u128 * 0x8_0000;
        let m: u128 = if na == nb {
            a + 1
        } else {
            a - 1
        };
        proof {
            lemma_pow2_adds(53, eb as nat);
            lemma_pow2_le((53 + eb) as nat, (ea - 18) as nat);
            assert(0 < small < pow2((ea - 18) as nat)) by (nonlinear_arith)
                requires
                    0 < mb < pow2(53),
                    small == mb * pow2(eb as nat),
                    pow2(53) * pow2(eb as nat) <= pow2((ea - 18) as nat),
                    pow2(eb as nat) > 0,
            ;
            lemma_far_sum(ma as nat, ea as nat, small as nat, p, na == nb);
            lemma_pow2_adds(18, (ea - 18) as nat);
            assert(small < big) by (nonlinear_arith)
                requires
                    small < pow2((ea - 18) as nat),
                    pow2(ea as nat) == 0x4_0000 * pow2((ea - 18) as nat),
                    big == ma * pow2(ea as nat),
                    ma > 0,
            ;
        }
        round(format, na, m, ea as i32 - 19)
    }
}

/// Sum of two finite values, the first of which has the larger exponent.
fn finite_sum(
    format: Format,
    na: bool,
    ma: u64,
    ea: u32,
    nb: bool,
    mb: u64,
    eb: u32,
) -> (r: Value)
    requires
        format.wf(),
        (Value::Finite { negative: na, significand: ma, exponent: ea }).wf(format),
        (Value::Finite { negative: nb, significand: mb, exponent: eb }).wf(format),
        ea >= eb,
    ensures
        r.wf(format),
        r@ == format.sum(
            (Value::Finite { negative: na, significand: ma, exponent: ea })@,
            (Value::Finite { negative: nb, significand: mb, exponent: eb })@,
        ),
{
    if ea - eb <= 70 {
        near_sum(format, na, ma, ea, nb, mb, eb)
    } else {
        far_sum(format, na, ma, ea, nb, mb, eb)
    }
}

/// `x + y`.
pub fn sum(format: Format, x: Value, y: Value) -> (r: Value)
    requires
        format.wf(),
        x.wf(format),
        y.wf(format),
    ensures
        r.wf(format),
        r@ == format.sum(x@, y@),
{
    match (x, y) {
        (Value::Nan, _) => Value::Nan,
        (_, Value::Nan) => Value::Nan,
        (Value::Infinite { negative: a }, Value::Infinite { negative: b }) => if a == b {
            x
        } else {
            Value::Nan
        },
        (Value::Infinite { .. }, Value::Finite { .. }) => x,
        (Value::Finite { .. }, Value::Infinite { .. }) => y,
        (
            Value::Finite { negative: na, significand: ma, exponent: ea },
            Value::Finite { negative: nb, significand: mb, exponent: eb },
        ) => if ea >= eb {
            finite_sum(format, na, ma, ea, nb, mb, eb)
        } else {
            finite_sum(format, nb, mb, eb, na, ma, ea)
        },
    }
}

/// `x - y`.
pub fn difference(format: Format, x: Value, y: Value) -> (r: Value)
    requires
        format.wf(),
        x.wf(format),
        y.wf(format),
    ensures
        r.wf(format),
        r@ == format.difference(x@, y@),
{
    sum(format, x, negated(y))
}

/// `x * y`.
pub fn product(format: Format, x: Value, y: Value) -> (r: Value)
    requires
        format.wf(),
        x.wf(format),
        y.wf(format),
    ensures
        r.wf(format),
        r@ == format.product(x@, y@),
{
    let ghost p = format.precision as nat;
    proof {
        lemma_pow2_pos(p);
        lemma_small_powers();
        lemma_pow2_le(p, 53);
        lemma_pow2_pos(format.unit as nat);
    }
    match (x, y) {
        (Value::Nan, _) => Value::Nan,
        (_, Value::Nan) => Value::Nan,
        (Value::Infinite { negative: a }, Value::Infinite { negative: b }) => Value::Infinite {
            negative: a != b,
        },
        (
            Value::Infinite { negative: a },
            Value::Finite { negative: b, significand, exponent },
        ) => {
            proof {
                lemma_magnitude_zero(significand, exponent);
            }
            if significand == 0 {
                Value::Nan
            } else {
                Value::Infinite { negative: a != b }
            }
        },
        (
            Value::Finite { negative: a, significand, exponent },
            Value::Infinite { negative: b },
        ) => {
            proof {
                lemma_magnitude_zero(significand, exponent);
            }
            if significand == 0 {
                Value::Nan
            } else {
                Value::Infinite { negative: a != b }
            }
        },
        (
            Value::Finite { negative: na, significand: ma, exponent: ea },
            Value::Finite { negative: nb, significand: mb, exponent: eb },
        ) => {
            proof {
                lemma_pow2_adds(53, 53);
                lemma_pow2_le(106, 127);
                lemma_pow2_adds(ea as nat, eb as nat);
                assert(ma * mb < pow2(106)) by (nonlinear_arith)
                    requires
                        ma < pow2(53),
                        mb < pow2(53),
                        pow2(53) * pow2(53) == pow2(106),
                ;
                assert((ma * pow2(ea as nat)) * (mb * pow2(eb as nat)) == (ma * mb) * pow2(
                    (ea + eb) as nat,
                )) by (nonlinear_arith)
                    requires
                        pow2((ea + eb) as nat) == pow2(ea as nat) * pow2(eb as nat),
                ;
                lemma_nearest_scaled((ma * mb) as nat, (ea + eb) as nat, format.unit as nat, p);
                lemma_nearest_zero(format.one(), p);
            }
            let m: u128 = ma as u128 * mb as u128;
            if m == 0 {
                proof {
                    lemma_pow2_pos(format.limit as nat);
                    assert(0 * pow2((ea + eb) as nat) == 0);
                    assert(0 * pow2(0) == 0);
                }
                Value::Finite { negative: na != nb, significand: 0, exponent: 0 }
            } else {
                round(format, na != nb, m, ea as i32 + eb as i32 - format.unit as i32)
            }
        },
    }
}

pub proof fn lemma_magnitude_zero(significand: u64, exponent: u32)
    ensures
        (significand == 0) == (significand * pow2(exponent as nat) == 0),
{
    lemma_pow2_pos(exponent as nat);
    assert((significand == 0) == (significand * pow2(exponent as nat) == 0)) by (nonlinear_arith)
        requires
            pow2(exponent as nat) > 0,
    ;
}

} // verus!
