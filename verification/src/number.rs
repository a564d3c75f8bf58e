//! Binary floating-point numbers as mathematics: what a value is, and what each operation of
//! IEEE 754 returns under rounding to nearest, ties to even.
//!
//! Every finite number of a format is a whole multiple of the format's least positive number.
//! A magnitude is counted in those units, so finite numbers are integers here and the operations
//! are stated without fractions: the exact result is a ratio of two integers, then rounded.
use vstd::arithmetic::power2::lemma_pow2_pos;
use vstd::arithmetic::power2::pow2;
use vstd::prelude::*;

verus! {

/// A value of a binary floating-point format. Zero has a sign; a not-a-number has no payload.
pub enum Number {
    Nan,
    Infinite { negative: bool },
    /// `magnitude` times the least positive number of the format.
    Finite { negative: bool, magnitude: nat },
}

/// A binary floating-point format.
#[derive(Clone, Copy)]
pub struct Format {
    /// Binary digits of a significand.
    pub precision: u32,
    /// The least positive number is two to the power of minus `unit`.
    pub unit: u32,
    /// Two to the power of `limit` units is the least magnitude that is too large.
    pub limit: u32,
}

/// The integer nearest to `n / d`, the even one of the two where it lies halfway.
pub open spec fn round_even(n: nat, d: nat) -> nat {
    let q = n / d;
    let r = n % d;
    if 2 * r < d || (2 * r == d && q % 2 == 0) {
        q
    } else {
        q + 1
    }
}

/// Exponent of the gap between neighbouring numbers of `precision` binary digits at `t`.
pub open spec fn spacing(t: nat, precision: nat) -> nat
    decreases t,
{
    proof {
        lemma_pow2_pos(precision);
    }
    if t < pow2(precision) {
        0
    } else {
        1 + spacing(t / 2, precision)
    }
}

/// The number of `precision` binary digits nearest to `n / d`, ties to even.
pub open spec fn nearest(n: nat, d: nat, precision: nat) -> nat {
    let gap = pow2(spacing(n / d, precision));
    round_even(n, d * gap) * gap
}

/// The largest integer whose square is not above `n`.
pub open spec fn floor_root(n: nat) -> nat
    decreases n,
{
    if n == 0 {
        0
    } else {
        let r = floor_root((n - 1) as nat);
        if (r + 1) * (r + 1) <= n {
            r + 1
        } else {
            r
        }
    }
}

/// The integer nearest to the square root of `n` divided by `d`, ties to even.
pub open spec fn round_root(n: nat, d: nat) -> nat {
    let h = floor_root(4 * n / (d * d));
    if h * h * (d * d) == 4 * n {
        round_even(h, 2)
    } else {
        (h + 1) / 2
    }
}

/// The number of `precision` binary digits nearest to the square root of `n`, ties to even.
pub open spec fn nearest_root(n: nat, precision: nat) -> nat {
    let gap = pow2(spacing(floor_root(n), precision));
    round_root(n, gap) * gap
}

impl Number {
    pub open spec fn is_finite(self) -> bool {
        self is Finite
    }

    /// Zero of either sign.
    pub open spec fn is_zero(self) -> bool {
        self matches Number::Finite { magnitude, .. } && magnitude == 0
    }

    /// The value of a finite number in units of its format.
    pub open spec fn units(self) -> int {
        match self {
            Number::Finite { negative, magnitude } => if negative {
                -(magnitude as int)
            } else {
                magnitude as int
            },
            _ => 0,
        }
    }

    pub open spec fn negated(self) -> Number {
        match self {
            Number::Nan => Number::Nan,
            Number::Infinite { negative } => Number::Infinite { negative: !negative },
            Number::Finite { negative, magnitude } => Number::Finite {
                negative: !negative,
                magnitude,
            },
        }
    }

    /// The same value counted in units that are smaller by two to the power of `k`.
    pub open spec fn rescaled(self, k: nat) -> Number {
        match self {
            Number::Finite { negative, magnitude } => Number::Finite {
                negative,
                magnitude: magnitude * pow2(k),
            },
            _ => self,
        }
    }

    /// `self < other`; false where either is not a number.
    pub open spec fn less(self, other: Number) -> bool {
        match (self, other) {
            (Number::Nan, _) => false,
            (_, Number::Nan) => false,
            (Number::Infinite { negative: a }, Number::Infinite { negative: b }) => a && !b,
            (Number::Infinite { negative: a }, _) => a,
            (_, Number::Infinite { negative: b }) => !b,
            _ => self.units() < other.units(),
        }
    }
}

impl Format {
    /// One, in units.
    pub open spec fn one(self) -> nat {
        pow2(self.unit as nat)
    }

    /// The number nearest to `n / d` units, with the given sign; infinite where that is too large.
    pub open spec fn rounded(self, negative: bool, n: nat, d: nat) -> Number {
        let magnitude = nearest(n, d, self.precision as nat);
        if magnitude < pow2(self.limit as nat) {
            Number::Finite { negative, magnitude }
        } else {
            Number::Infinite { negative }
        }
    }

    /// `n` as a number of the format.
    pub open spec fn integer(self, n: nat) -> Number {
        self.rounded(false, n * self.one(), 1)
    }

    /// `x + y`.
    pub open spec fn sum(self, x: Number, y: Number) -> Number {
        match (x, y) {
            (Number::Nan, _) => Number::Nan,
            (_, Number::Nan) => Number::Nan,
            (Number::Infinite { negative: a }, Number::Infinite { negative: b }) => if a == b {
                x
            } else {
                Number::Nan
            },
            (Number::Infinite { .. }, _) => x,
            (_, Number::Infinite { .. }) => y,
            (Number::Finite { negative: a, .. }, Number::Finite { negative: b, .. }) => {
                let s = x.units() + y.units();
                if s == 0 {
                    Number::Finite { negative: a && b, magnitude: 0 }
                } else if s < 0 {
                    self.rounded(true, (-s) as nat, 1)
                } else {
                    self.rounded(false, s as nat, 1)
                }
            },
        }
    }

    /// `x - y`.
    pub open spec fn difference(self, x: Number, y: Number) -> Number {
        self.sum(x, y.negated())
    }

    /// `x * y`.
    pub open spec fn product(self, x: Number, y: Number) -> Number {
        match (x, y) {
            (Number::Nan, _) => Number::Nan,
            (_, Number::Nan) => Number::Nan,
            (Number::Infinite { negative: a }, Number::Infinite { negative: b }) =>
                Number::Infinite { negative: a != b },
            (
                Number::Infinite { negative: a },
                Number::Finite { negative: b, magnitude: n },
            ) => if n == 0 {
                Number::Nan
            } else {
                Number::Infinite { negative: a != b }
            },
            (
                Number::Finite { negative: a, magnitude: m },
                Number::Infinite { negative: b },
            ) => if m == 0 {
                Number::Nan
            } else {
                Number::Infinite { negative: a != b }
            },
            (
                Number::Finite { negative: a, magnitude: m },
                Number::Finite { negative: b, magnitude: n },
            ) => self.rounded(a != b, m * n, self.one()),
        }
    }

    /// `x / y`.
    pub open spec fn quotient(self, x: Number, y: Number) -> Number {
        match (x, y) {
            (Number::Nan, _) => Number::Nan,
            (_, Number::Nan) => Number::Nan,
            (Number::Infinite { .. }, Number::Infinite { .. }) => Number::Nan,
            (
                Number::Infinite { negative: a },
                Number::Finite { negative: b, .. },
            ) => Number::Infinite { negative: a != b },
            (
                Number::Finite { negative: a, .. },
                Number::Infinite { negative: b },
            ) => Number::Finite { negative: a != b, magnitude: 0 },
            (
                Number::Finite { negative: a, magnitude: m },
                Number::Finite { negative: b, magnitude: n },
            ) => if n == 0 && m == 0 {
                Number::Nan
            } else if n == 0 {
                Number::Infinite { negative: a != b }
            } else {
                self.rounded(a != b, m * self.one(), n)
            },
        }
    }

    /// The square root of `x`.
    pub open spec fn root(self, x: Number) -> Number {
        match x {
            Number::Nan => Number::Nan,
            Number::Infinite { negative } => if negative {
                Number::Nan
            } else {
                x
            },
            Number::Finite { negative, magnitude } => if magnitude == 0 {
                x
            } else if negative {
                Number::Nan
            } else {
                Number::Finite {
                    negative: false,
                    magnitude: nearest_root(magnitude * self.one(), self.precision as nat),
                }
            },
        }
    }

    /// The largest integer not above a finite `x`.
    pub open spec fn floor_integer(self, x: Number) -> int {
        x.units() / (self.one() as int)
    }

    /// `x` rounded down to an integer.
    pub open spec fn floor(self, x: Number) -> Number {
        match x {
            Number::Finite { negative, magnitude } => {
                let i = self.floor_integer(x);
                Number::Finite {
                    negative,
                    magnitude: (if negative {
                        -i
                    } else {
                        i
                    }) as nat * self.one(),
                }
            },
            _ => x,
        }
    }

    /// `x` rounded to the nearest integer, ties to even, and clamped to `0..=255`; zero where `x`
    /// is not a number.
    pub open spec fn byte(self, x: Number) -> u8 {
        match x {
            Number::Nan => 0,
            Number::Infinite { negative } => if negative {
                0
            } else {
                255
            },
            Number::Finite { negative, magnitude } => {
                let i = round_even(magnitude, self.one());
                if negative {
                    0
                } else if i > 255 {
                    255
                } else {
                    i as u8
                }
            },
        }
    }
}

} // verus!
