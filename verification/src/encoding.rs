//! The interchange encodings of single and double precision.
use crate::arithmetic::Value;
use crate::number::{Format, Number};
use vstd::arithmetic::power2::{lemma_pow2_pos, lemma_pow2_unfold, pow2};
use vstd::prelude::*;

verus! {

/// Single precision.
#[verifier::allow_in_spec]
pub fn binary32() -> Format
    returns
        (Format { precision: 24, unit: 149, limit: 277 }),
{
    Format { precision: 24, unit: 149, limit: 277 }
}

/// Double precision.
#[verifier::allow_in_spec]
pub fn binary64() -> Format
    returns
        (Format { precision: 53, unit: 1074, limit: 2098 }),
{
    Format { precision: 53, unit: 1074, limit: 2098 }
}

/// A number in single precision, held as its 32 bits: sign, 8 bits of exponent, 23 of fraction.
#[derive(Clone, Copy, Debug, PartialEq, Eq, Structural)]
pub struct Binary32 {
    pub bits: u32,
}

/// A number in double precision, held as its 64 bits: sign, 11 bits of exponent, 52 of fraction.
#[derive(Clone, Copy, Debug, PartialEq, Eq, Structural)]
pub struct Binary64 {
    pub bits: u64,
}

impl View for Binary32 {
    type V = Number;

    open spec fn view(&self) -> Number {
        let negative = self.bits >= 0x8000_0000;
        let exponent = (self.bits / 0x80_0000) % 0x100;
        let fraction = self.bits % 0x80_0000;
        if exponent == 0xff {
            if fraction == 0 {
                Number::Infinite { negative }
            } else {
                Number::Nan
            }
        } else if exponent == 0 {
            Number::Finite { negative, magnitude: fraction as nat }
        } else {
            Number::Finite {
                negative,
                magnitude: (fraction + 0x80_0000) as nat * pow2((exponent - 1) as nat),
            }
        }
    }
}

impl View for Binary64 {
    type V = Number;

    open spec fn view(&self) -> Number {
        let negative = self.bits >= 0x8000_0000_0000_0000;
        let exponent = (self.bits / 0x10_0000_0000_0000) % 0x800;
        let fraction = self.bits % 0x10_0000_0000_0000;
        if exponent == 0x7ff {
            if fraction == 0 {
                Number::Infinite { negative }
            } else {
                Number::Nan
            }
        } else if exponent == 0 {
            Number::Finite { negative, magnitude: fraction as nat }
        } else {
            Number::Finite {
                negative,
                magnitude: (fraction + 0x10_0000_0000_0000) as nat * pow2((exponent - 1) as nat),
            }
        }
    }
}

proof fn lemma_precisions()
    ensures
        pow2(23) == 0x80_0000,
        pow2(24) == 0x100_0000,
        pow2(52) == 0x10_0000_0000_0000,
        pow2(53) == 0x20_0000_0000_0000,
        pow2(0) == 1,
{
    vstd::arithmetic::power2::lemma2_to64();
    vstd::arithmetic::power2::lemma2_to64_rest();
}

impl Binary32 {
    /// The number taken apart.
    pub fn value(self) -> (r: Value)
        ensures
            r.wf(binary32()),
            r@ == self@,
    {
        let negative = self.bits >= 0x8000_0000;
        let exponent: u32 = (self.bits / 0x80_0000) % 0x100;
        let fraction: u32 = self.bits % 0x80_0000;
        proof {
            lemma_precisions();
        }
        if exponent == 0xff {
            if fraction == 0 {
                Value::Infinite { negative }
            } else {
                Value::Nan
            }
        } else if exponent == 0 {
            assert(fraction * pow2(0) == fraction) by (nonlinear_arith)
                requires
                    pow2(0) == 1,
            ;
            Value::Finite { negative, significand: fraction as u64, exponent: 0 }
        } else {
            Value::Finite {
                negative,
                significand: (fraction + 0x80_0000) as u64,
                exponent: exponent - 1,
            }
        }
    }
}

impl Binary64 {
    /// The encoding of a number; of those that are not numbers, the quiet one without payload.
    pub fn from_value(x: Value) -> (r: Binary64)
        requires
            x.wf(binary64()),
        ensures
            r@ == x@,
    {
        proof {
            lemma_precisions();
        }
        match x {
            Value::Nan => Binary64 { bits: 0x7ff8_0000_0000_0000 },
            Value::Infinite { negative } => if negative {
                Binary64 { bits: 0xfff0_0000_0000_0000 }
            } else {
                Binary64 { bits: 0x7ff0_0000_0000_0000 }
            },
            Value::Finite { negative, significand, exponent } => {
                proof {
                    assert(significand * pow2(0) == significand) by (nonlinear_arith)
                        requires
                            pow2(0) == 1,
                    ;
                }
                let magnitude: u64 = exponent as u64 * 0x10_0000_0000_0000 + significand;
                if negative {
                    Binary64 { bits: 0x8000_0000_0000_0000 + magnitude }
                } else {
                    Binary64 { bits: magnitude }
                }
            },
        }
    }
}

/// The encodings of finite numbers in single precision count up: zero comes first, and the next
/// encoding is that of the next number, whose distance is the least there is up to the second binade
/// and doubles with each binade from there. The highest bit is the sign. After the finite numbers
/// come infinity and those that are not numbers.
pub proof fn binary32_counts_up(b: u32)
    requires
        b < 0x8000_0000,
    ensures
        (Binary32 { bits: 0 })@ == (Number::Finite { negative: false, magnitude: 0 }),
        ({
            let here = (Binary32 { bits: b })@;
            let next = (Binary32 { bits: (b + 1) as u32 })@;
            let opposite = (Binary32 { bits: (b + 0x8000_0000) as u32 })@;
            let step = pow2(
                (if b < 0x80_0000 {
                    0
                } else {
                    b / 0x80_0000 - 1
                }) as nat,
            );
            &&& b < 0x7f80_0000 ==> here is Finite && here.units() >= 0
            &&& b < 0x7f80_0000 - 1 ==> next.units() == here.units() + step
            &&& b == 0x7f80_0000 ==> here == (Number::Infinite { negative: false })
            &&& b > 0x7f80_0000 ==> here is Nan
            &&& opposite == here.negated()
        }),
{
    let e = (b / 0x80_0000) as nat;
    let f = b % 0x80_0000;
    if b < 0x7f80_0000 - 1 {
        let g = pow2((if b < 0x80_0000 {
            0
        } else {
            e - 1
        }) as nat);
        assert(pow2(0) == 1) by {
            lemma_precisions();
        }
        if b >= 0x80_0000 {
            lemma_pow2_unfold(e);
            assert((f + 0x80_0000 + 1) * g == (f + 0x80_0000) * g + g)
                by (nonlinear_arith);
            if f == 0x80_0000 - 1 {
                assert(0x80_0000 * (2 * g) == (2 * 0x80_0000) * g)
                    by (nonlinear_arith);
            }
        } else {
            assert(0x80_0000 * g == 0x80_0000) by (nonlinear_arith)
                requires
                    g == 1,
            ;
        }
    }
}

/// The encodings of finite numbers in double precision count up: zero comes first, and the next
/// encoding is that of the next number, whose distance is the least there is up to the second binade
/// and doubles with each binade from there. The highest bit is the sign. After the finite numbers
/// come infinity and those that are not numbers.
pub proof fn binary64_counts_up(b: u64)
    requires
        b < 0x8000_0000_0000_0000,
    ensures
        (Binary64 { bits: 0 })@ == (Number::Finite { negative: false, magnitude: 0 }),
        ({
            let here = (Binary64 { bits: b })@;
            let next = (Binary64 { bits: (b + 1) as u64 })@;
            let opposite = (Binary64 { bits: (b + 0x8000_0000_0000_0000) as u64 })@;
            let step = pow2(
                (if b < 0x10_0000_0000_0000 {
                    0
                } else {
                    b / 0x10_0000_0000_0000 - 1
                }) as nat,
            );
            &&& b < 0x7ff0_0000_0000_0000 ==> here is Finite && here.units() >= 0
            &&& b < 0x7ff0_0000_0000_0000 - 1 ==> next.units() == here.units() + step
            &&& b == 0x7ff0_0000_0000_0000 ==> here == (Number::Infinite { negative: false })
            &&& b > 0x7ff0_0000_0000_0000 ==> here is Nan
            &&& opposite == here.negated()
        }),
{
    let e = (b / 0x10_0000_0000_0000) as nat;
    let f = b % 0x10_0000_0000_0000;
    if b < 0x7ff0_0000_0000_0000 - 1 {
        let g = pow2((if b < 0x10_0000_0000_0000 {
            0
        } else {
            e - 1
        }) as nat);
        assert(pow2(0) == 1) by {
            lemma_precisions();
        }
        if b >= 0x10_0000_0000_0000 {
            lemma_pow2_unfold(e);
            assert((f + 0x10_0000_0000_0000 + 1) * g == (f + 0x10_0000_0000_0000) * g + g)
                by (nonlinear_arith);
            if f == 0x10_0000_0000_0000 - 1 {
                assert(0x10_0000_0000_0000 * (2 * g) == (2 * 0x10_0000_0000_0000) * g)
                    by (nonlinear_arith);
            }
        } else {
            assert(0x10_0000_0000_0000 * g == 0x10_0000_0000_0000) by (nonlinear_arith)
                requires
                    g == 1,
            ;
        }
    }
}

/// A number in single precision is finite where it is encoded below the infinity of its sign, and
/// zero where no bit but the sign is set.
pub proof fn binary32_is_told_by_its_bits(x: Binary32)
    ensures
        x@.is_finite() <==> x.bits < 0x7f80_0000 || 0x8000_0000 <= x.bits < 0xff80_0000,
        x@.is_zero() <==> x.bits == 0 || x.bits == 0x8000_0000,
{
    let e = (x.bits / 0x80_0000) % 0x100;
    if 0 < e < 0xff {
        lemma_pow2_pos((e - 1) as nat);
        let f = (x.bits % 0x80_0000 + 0x80_0000) as nat;
        assert(f * pow2((e - 1) as nat) > 0) by (nonlinear_arith)
            requires
                f > 0,
                pow2((e - 1) as nat) > 0,
        ;
    }
}

} // verus!
