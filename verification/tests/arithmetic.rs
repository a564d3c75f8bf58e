//! The library's arithmetic against that of the machine.
use arcface_hrx::arithmetic::{difference, negated, product, sum, Value};
use arcface_hrx::conversion::{byte, floor, floor_integer, integer, less, rescaled};
use arcface_hrx::division::{quotient, root};
use arcface_hrx::encoding::{binary32, binary64, Binary32, Binary64};

fn single(x: f32) -> Value {
    Binary32 { bits: x.to_bits() }.value()
}

fn double(x: f32) -> Value {
    rescaled(binary32(), binary64(), 925, single(x))
}

/// The machine's double, taken apart.
fn apart(x: f64) -> Value {
    if x.is_nan() {
        return Value::Nan;
    }
    let negative = x.is_sign_negative();
    if x.is_infinite() {
        return Value::Infinite { negative };
    }
    let bits = x.abs().to_bits();
    let exponent = (bits >> 52) as u32;
    let fraction = bits & ((1 << 52) - 1);
    if exponent == 0 {
        Value::Finite { negative, significand: fraction, exponent: 0 }
    } else {
        Value::Finite { negative, significand: fraction | 1 << 52, exponent: exponent - 1 }
    }
}

/// Encodings with every exponent, near powers of two, near ties, and scattered ones.
fn samples() -> Vec<f32> {
    let mut bits: Vec<u32> = vec![
        0, 1, 2, 3, 0x7f_ffff, 0x80_0000, 0x80_0001, 0xff_ffff, 0x3f80_0000, 0x3f7f_ffff,
        0x3f80_0001, 0x4b00_0001, 0x4b80_0000, 0x4b7f_ffff, 0x3f00_0000, 0x7f7f_ffff, 0x7f80_0000,
        0x7fc0_0000, 0x7f80_0001, 0x3300_0000, 0x3380_0000, 0x3380_0001, 0x437f_0000, 0x437f_8000,
        0x4380_0000, 0x3fc0_0000, 0x4020_0000, 0x4060_0000,
    ];
    let mut state: u32 = 0x2545_f491;
    for _ in 0..400 {
        state ^= state << 13;
        state ^= state >> 17;
        state ^= state << 5;
        bits.push(state & 0x7fff_ffff);
        // Exponents close to one, where sums cancel.
        bits.push((state & 0x07ff_ffff) + 0x3c00_0000);
    }
    let mut out = Vec::new();
    for b in bits {
        out.push(f32::from_bits(b));
        out.push(f32::from_bits(b | 0x8000_0000));
    }
    out
}

#[test]
fn single_precision_matches_the_machine() {
    let f = binary32();
    let all = samples();
    for &x in &all {
        for &y in &all {
            assert_eq!(sum(f, single(x), single(y)), single(x + y), "{x:e} + {y:e}");
            assert_eq!(difference(f, single(x), single(y)), single(x - y), "{x:e} - {y:e}");
            assert_eq!(product(f, single(x), single(y)), single(x * y), "{x:e} * {y:e}");
            assert_eq!(quotient(f, single(x), single(y)), single(x / y), "{x:e} / {y:e}");
            assert_eq!(less(f, single(x), single(y)), x < y, "{x:e} < {y:e}");
        }
        assert_eq!(root(f, single(x)), single(x.sqrt()), "root of {x:e}");
        assert_eq!(floor(f, single(x)), single(x.floor()), "floor of {x:e}");
        assert_eq!(negated(single(x)), single(-x));
        assert_eq!(byte(f, single(x)), x.round_ties_even().clamp(0., 255.) as u8, "byte of {x:e}");
        if x.abs() < 9e18 {
            assert_eq!(floor_integer(f, single(x)), x.floor() as i64, "floor of {x:e}");
        }
    }
}

#[test]
fn double_precision_matches_the_machine() {
    let f = binary64();
    let all: Vec<f32> = samples().into_iter().step_by(3).collect();
    for &x in &all {
        assert_eq!(double(x), apart(x as f64), "{x:e} in double precision");
        for &y in &all {
            let (p, q) = (x as f64 * y as f64, x as f64 / y as f64);
            let vp = product(f, double(x), double(y));
            let vq = quotient(f, double(x), double(y));
            assert_eq!(vp, apart(p), "{x:e} * {y:e}");
            assert_eq!(vq, apart(q), "{x:e} / {y:e}");
            assert_eq!(sum(f, vp, vq), apart(p + q), "{p:e} + {q:e}");
            assert_eq!(difference(f, vq, double(x)), apart(q - x as f64), "{q:e} - {x:e}");
            assert_eq!(product(f, vp, vq), apart(p * q), "{p:e} * {q:e}");
            assert_eq!(quotient(f, vq, vp), apart(q / p), "{q:e} / {p:e}");
            assert_eq!(root(f, vq), apart(q.sqrt()), "root of {q:e}");
            assert_eq!(less(f, vp, vq), p < q, "{p:e} < {q:e}");
            if !q.is_nan() {
                assert_eq!(Binary64::from_value(vq).bits, q.to_bits());
            }
        }
    }
    assert!(f64::from_bits(Binary64::from_value(Value::Nan).bits).is_nan());
}

#[test]
fn subnormal_doubles_match_the_machine() {
    let f = binary64();
    let tiny = 1e-300f64;
    let small = f32::from_bits(1);
    // Down to the least positive double and to zero, by repeated products.
    let mut x = small as f64;
    let mut v = double(small);
    for _ in 0..8 {
        let y = x * x;
        let w = product(f, v, v);
        assert_eq!(w, apart(y));
        assert_eq!(root(f, w), apart(y.sqrt()));
        assert_eq!(quotient(f, w, double(3.)), apart(y / 3.));
        x = y;
        v = w;
    }
    assert_eq!(x, 0.);
    let a = product(f, apart(tiny), apart(3e-20));
    assert_eq!(a, apart(tiny * 3e-20));
    assert_eq!(sum(f, a, a), apart(tiny * 3e-20 + tiny * 3e-20));
}

#[test]
fn integers_match_the_machine() {
    for n in [
        0u64, 1, 2, 111, 112, 255, (1 << 24) - 1, 1 << 24, (1 << 24) + 1, (1 << 24) + 2,
        (1 << 24) + 3, (1 << 25) + 2, (1 << 25) + 6, (1 << 53) + 1, u64::MAX / 3, u64::MAX,
    ] {
        assert_eq!(integer(binary32(), n), single(n as f32), "{n}");
        assert_eq!(integer(binary64(), n), apart(n as f64), "{n}");
    }
}
