//! What the operations on numbers return, told by how their results lie among all numbers of the
//! format.
use crate::number::{nearest, round_even, Format, Number};
use crate::rounding::{
    lemma_nearest_keeps_order, lemma_power_representable,
    lemma_round_even_error, nearest_is_nearest, nearest_root_is_nearest, representable,
};
use vstd::arithmetic::power2::{lemma_pow2_pos, lemma_pow2_unfold, pow2};
use vstd::math::abs;
use vstd::prelude::*;

verus! {

/// `r` is a number of the format, and none is nearer to `n / d`; it is infinite only where `n / d`
/// is larger than half of what is too large, and then has its sign.
pub open spec fn is_nearest(format: Format, r: Number, n: int, d: nat) -> bool {
    match r {
        Number::Nan => false,
        Number::Infinite { negative } => pow2((format.limit - 1) as nat) * d < abs(n) && negative
            == (n < 0),
        Number::Finite { magnitude, .. } => {
            &&& representable(magnitude, format.precision as nat)
            &&& magnitude < pow2(format.limit as nat)
            &&& forall|m: int|
                #![trigger abs(m)]
                representable(abs(m), format.precision as nat) ==> abs(r.units() * d - n) <= abs(
                    m * d - n,
                )
        },
    }
}

proof fn lemma_rounded(format: Format, negative: bool, n: nat, d: nat)
    requires
        format.wf(),
        d > 0,
        n > 0 || !negative,
    ensures
        is_nearest(
            format,
            format.rounded(negative, n, d),
            if negative {
                -(n as int)
            } else {
                n as int
            },
            d,
        ),
{
    let p = format.precision as nat;
    let v = if negative {
        -(n as int)
    } else {
        n as int
    };
    let r = format.rounded(negative, n, d);
    let k = (format.limit - 1) as nat;
    lemma_pow2_unfold(format.limit as nat);
    lemma_pow2_pos(k);
    lemma_power_representable(k, p);
    lemma_nearest_keeps_order(n, d, p, pow2(k));
    assert(representable(0, p)) by {
        lemma_pow2_pos(p);
        assert(0 * pow2(0) == 0) by (nonlinear_arith);
    }
    nearest_is_nearest(n, d, p, 0);
    let g = nearest(n, d, p);
    assert(0 * d == 0) by (nonlinear_arith);
    assert forall|m: int| #![trigger abs(m)] representable(abs(m), p) implies abs(
        r.units() * d - v,
    ) <= abs(m * d - v) || !(r is Finite) by {
        nearest_is_nearest(n, d, p, abs(m));
        assert((-(g as int)) * d == -(g * d)) by (nonlinear_arith);
        assert((-m) * d == -(m * d)) by (nonlinear_arith);
        assert(m > 0 ==> m * d > 0) by (nonlinear_arith)
            requires
                d > 0,
        ;
        assert(m < 0 ==> m * d < 0) by (nonlinear_arith)
            requires
                d > 0,
        ;
    }
}

/// A sum is the number nearest to the exact sum.
pub proof fn sums_are_nearest(format: Format, x: Number, y: Number)
    requires
        format.wf(),
        x is Finite,
        y is Finite,
    ensures
        is_nearest(format, format.sum(x, y), x.units() + y.units(), 1),
        is_nearest(format, format.difference(x, y), x.units() - y.units(), 1),
{
    lemma_sums(format, x, y);
    lemma_sums(format, x, y.negated());
}

proof fn lemma_sums(format: Format, x: Number, y: Number)
    requires
        format.wf(),
        x is Finite,
        y is Finite,
    ensures
        is_nearest(format, format.sum(x, y), x.units() + y.units(), 1),
{
    let s = x.units() + y.units();
    if s == 0 {
        lemma_pow2_pos(format.precision as nat);
        lemma_pow2_pos(format.limit as nat);
        assert(0 * pow2(0) == 0) by (nonlinear_arith);
        assert(representable(0, format.precision as nat));
    } else {
        lemma_rounded(format, s < 0, abs(s), 1);
    }
}

/// A product is the number nearest to the exact product.
pub proof fn products_are_nearest(format: Format, x: Number, y: Number)
    requires
        format.wf(),
        x is Finite,
        y is Finite,
    ensures
        is_nearest(format, format.product(x, y), x.units() * y.units(), format.one()),
{
    let (a, b) = (x.units(), y.units());
    let (m, n) = (x->Finite_magnitude, y->Finite_magnitude);
    let negative = x->Finite_negative != y->Finite_negative;
    lemma_pow2_pos(format.unit as nat);
    assert(a * b == if negative {
        -((m * n) as int)
    } else {
        (m * n) as int
    }) by (nonlinear_arith)
        requires
            a == m || a == -(m as int),
            b == n || b == -(n as int),
            !negative ==> (a == m && b == n) || (a == -(m as int) && b == -(n as int)),
            negative ==> (a == m && b == -(n as int)) || (a == -(m as int) && b == n),
    ;
    if m * n == 0 {
        lemma_zero(format, negative, format.one());
    } else {
        lemma_rounded(format, negative, m * n, format.one());
    }
}

proof fn lemma_zero(format: Format, negative: bool, d: nat)
    requires
        format.wf(),
        d > 0,
    ensures
        is_nearest(format, format.rounded(negative, 0, d), 0, d),
{
    lemma_rounded(format, false, 0, d);
    crate::arithmetic::lemma_nearest_zero(d, format.precision as nat);
    lemma_pow2_pos(format.limit as nat);
}

/// A quotient is the number nearest to the exact quotient.
pub proof fn quotients_are_nearest(format: Format, x: Number, y: Number)
    requires
        format.wf(),
        x is Finite,
        y is Finite,
        y.units() != 0,
    ensures
        is_nearest(
            format,
            format.quotient(x, y),
            if y.units() > 0 {
                x.units() * format.one()
            } else {
                -(x.units() * format.one())
            },
            abs(y.units()),
        ),
{
    let (m, n) = (x->Finite_magnitude, y->Finite_magnitude);
    let negative = x->Finite_negative != y->Finite_negative;
    let one = format.one();
    assert((-(m as int)) * one == -(m * one)) by (nonlinear_arith);
    if m * one == 0 {
        lemma_zero(format, negative, n);
    } else {
        lemma_rounded(format, negative, m * one, n);
    }
}

/// A whole number becomes the number nearest to it.
pub proof fn integers_are_nearest(format: Format, n: nat)
    requires
        format.wf(),
    ensures
        is_nearest(format, format.integer(n), (n * format.one()) as int, 1),
{
    lemma_rounded(format, false, n * format.one(), 1);
}

/// Numbers are in the order of their values; what is not a number is in no order.
pub proof fn less_is_the_order_of_values(x: Number, y: Number)
    ensures
        x is Finite && y is Finite ==> x.less(y) == (x.units() < y.units()),
        x is Nan || y is Nan ==> !x.less(y),
        x is Finite && y is Infinite ==> x.less(y) == !y->Infinite_negative,
        x is Infinite && y is Finite ==> x.less(y) == x->Infinite_negative,
{
}

/// Rounding down gives the largest whole number that is not above.
pub proof fn floor_is_the_whole_number_below(format: Format, x: Number)
    requires
        format.wf(),
        x is Finite,
    ensures
        format.floor(x) is Finite,
        format.floor(x).units() == format.floor_integer(x) * format.one(),
        format.floor(x).units() <= x.units() < format.floor(x).units() + format.one(),
{
    let one = format.one() as int;
    lemma_pow2_pos(format.unit as nat);
    let u = x.units();
    vstd::arithmetic::div_mod::lemma_fundamental_div_mod(u, one);
    vstd::arithmetic::div_mod::lemma_mod_bound(u, one);
    let i = u / one;
    assert(one * i == i * one && (-i) * one == -(i * one)) by (nonlinear_arith);
    assert(u <= 0 ==> i <= 0) by (nonlinear_arith)
        requires
            u == one * i + u % one,
            0 <= u % one < one,
    ;
    assert(u >= 0 ==> i >= 0) by (nonlinear_arith)
        requires
            u == one * i + u % one,
            0 <= u % one < one,
    ;
}

/// A number becomes the byte nearest to it, the even one of two that are equally near; what is too
/// large becomes the largest byte, and what is negative or not a number becomes zero.
pub proof fn bytes_are_nearest(format: Format, x: Number)
    requires
        format.wf(),
    ensures
        x is Nan ==> format.byte(x) == 0,
        x is Infinite ==> format.byte(x) == if x->Infinite_negative {
            0int
        } else {
            255int
        },
        x is Finite && x.units() <= 0 ==> format.byte(x) == 0,
        x is Finite && x.units() > 0 ==> {
            let one = format.one();
            let b = format.byte(x);
            &&& 2 * x.units() <= 511 * one ==> 2 * abs(b * one - x.units()) <= one
            &&& 2 * abs(b * one - x.units()) == one ==> b % 2 == 0 || b == 255
            &&& 2 * x.units() > 511 * one ==> b == 255
        },
{
    let one = format.one();
    lemma_pow2_pos(format.unit as nat);
    if let Number::Finite { negative, magnitude } = x {
        lemma_round_even_error(magnitude, one);
        let i = round_even(magnitude, one);
        if magnitude == 0 {
            assert(i == 0) by (nonlinear_arith)
                requires
                    2 * abs(i * one - 0) <= one,
                    one > 0,
                    i >= 0,
            {
                if i >= 1 {
                    assert(i * one >= one);
                }
            }
        }
        if !negative && 2 * magnitude <= 511 * one {
            assert(i <= 256) by (nonlinear_arith)
                requires
                    2 * abs(i * one - magnitude) <= one,
                    2 * magnitude <= 511 * one,
                    one > 0,
            ;
            assert(i == 256 ==> i * one == 256 * one) by (nonlinear_arith);
        }
        if !negative && 2 * magnitude > 511 * one {
            assert(i >= 255) by (nonlinear_arith)
                requires
                    2 * abs(i * one - magnitude) <= one,
                    2 * magnitude > 511 * one,
                    one > 0,
            ;
            assert(i == 255 ==> i * one == 255 * one) by (nonlinear_arith);
        }
    }
}

/// The root of a positive number is the number nearest to the exact root: against any other number
/// `m` of the format, the exact root lies on its side of the middle. Zero is its own root, and a
/// negative number has none.
pub proof fn roots_are_nearest(format: Format, x: Number, m: nat)
    requires
        format.wf(),
        x is Finite,
        representable(m, format.precision as nat),
    ensures
        x.units() == 0 ==> format.root(x) == x,
        x.units() < 0 ==> format.root(x) is Nan,
        x.units() > 0 ==> {
            let r = format.root(x).units();
            let n = x.units() * format.one();
            &&& format.root(x) is Finite
            &&& r >= 0
            &&& m > r ==> 4 * n <= (r + m) * (r + m)
            &&& m < r ==> 4 * n >= (r + m) * (r + m)
        },
{
    let n = x->Finite_magnitude * format.one();
    nearest_root_is_nearest(n, format.precision as nat, m);
}

/// Infinities and what is not a number: sums and products go by the signs, opposite infinities have
/// no sum, and an infinity has no product with zero. An exact zero sum is positive unless both
/// parts are negative.
pub proof fn special_values(format: Format, x: Number, y: Number)
    ensures
        x is Nan || y is Nan ==> format.sum(x, y) is Nan && format.product(x, y) is Nan
            && format.quotient(x, y) is Nan,
        x is Infinite && y is Finite ==> format.sum(x, y) == x && format.sum(y, x) == x,
        x is Infinite && y is Infinite ==> if x == y {
            format.sum(x, y) == x
        } else {
            format.sum(x, y) is Nan
        },
        x is Infinite && y.is_zero() ==> format.product(x, y) is Nan && format.product(y, x) is Nan,
        x is Finite && y is Finite && x.units() + y.units() == 0 ==> format.sum(x, y) == (
        Number::Finite {
            negative: x->Finite_negative && y->Finite_negative,
            magnitude: 0,
        }),
        x.negated().negated() == x,
        x.negated().units() == -x.units(),
{
}

} // verus!
