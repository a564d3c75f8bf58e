//! What similarity is, in exact numbers: the dot product over the product of the lengths, up to
//! rounding that is bounded here.
use crate::encoding::{binary64, Binary32};
use crate::number::{nearest, nearest_root, Number};
use crate::rounding::{
    lemma_nearest_doubles, lemma_nearest_error, lemma_nearest_exact, lemma_nearest_ratio,
    lemma_nearest_root_error, lemma_nearest_whole_error, lemma_pow2_le,
};
use crate::similarity::{
    all_finite, all_zero, cosine, dot, lemma_component_product, lemma_dot_bound, lemma_dot_top,
    lemma_lengths_in_range, lemma_norm, lengths, widened, zero_length_is_refused,
};
use vstd::arithmetic::power2::{lemma_pow2_adds, lemma_pow2_pos, lemma_pow2_unfold, pow2};
use vstd::math::abs;
use vstd::prelude::*;

verus! {

/// The exact dot product of the first `n` components, which are counted in the least positive
/// number of single precision.
pub open spec fn exact_dot(a: Seq<Binary32>, b: Seq<Binary32>, n: nat) -> int
    decreases n,
{
    if n == 0 {
        0
    } else {
        exact_dot(a, b, (n - 1) as nat) + a[n - 1]@.units() * b[n - 1]@.units()
    }
}

/// The sum of the sizes of the products that make the dot product.
pub open spec fn exact_size(a: Seq<Binary32>, b: Seq<Binary32>, n: nat) -> int
    decreases n,
{
    if n == 0 {
        0
    } else {
        exact_size(a, b, (n - 1) as nat) + abs(a[n - 1]@.units() * b[n - 1]@.units())
    }
}

/// The magnitude of an encoded number has at most 24 binary digits.
proof fn lemma_short_magnitude(x: Binary32) -> (r: (nat, nat))
    requires
        x@ is Finite,
    ensures
        r.0 < 0x100_0000,
        x@->Finite_magnitude == r.0 * pow2(r.1),
{
    let exponent = (x.bits / 0x80_0000) % 0x100;
    let fraction = x.bits % 0x80_0000;
    if exponent == 0 {
        assert(pow2(0) == 1) by {
            vstd::arithmetic::power2::lemma2_to64();
        }
        (fraction as nat, 0)
    } else {
        ((fraction + 0x80_0000) as nat, (exponent - 1) as nat)
    }
}

/// The product of two components is exact.
proof fn lemma_exact_product(x: Binary32, y: Binary32)
    requires
        x@ is Finite,
        y@ is Finite,
    ensures
        ({
            let p = binary64().product(widened(x), widened(y));
            p is Finite && p.units() == (x@.units() * y@.units()) * pow2(776)
        }),
{
    lemma_component_product(x, y);
    let (s, i) = lemma_short_magnitude(x);
    let (t, j) = lemma_short_magnitude(y);
    let a = x@->Finite_magnitude;
    let b = y@->Finite_magnitude;
    let w = pow2(925);
    let one = pow2(1074);
    let st = s * t;
    let k = i + j + 776;
    lemma_pow2_adds(925, 925);
    lemma_pow2_adds(776, 1074);
    lemma_pow2_adds(i, j);
    lemma_pow2_adds(i + j, 776);
    lemma_pow2_pos(1074);
    let ab = a * b;
    assert(ab == st * pow2(i + j)) by (nonlinear_arith)
        requires
            ab == a * b,
            a == s * pow2(i),
            b == t * pow2(j),
            st == s * t,
            pow2(i + j) == pow2(i) * pow2(j),
    ;
    assert(ab * pow2(776) == st * pow2(k)) by (nonlinear_arith)
        requires
            ab == st * pow2(i + j),
            pow2(k) == pow2(i + j) * pow2(776),
    ;
    assert(((a * w) * (b * w)) * 1 == (ab * pow2(776)) * one) by (nonlinear_arith)
        requires
            ab == a * b,
            w * w == pow2(776) * one,
    ;
    lemma_nearest_ratio((a * w) * (b * w), one, ab * pow2(776), 1, 53);
    assert(st < 0x1_0000_0000_0000) by (nonlinear_arith)
        requires
            st == s * t,
            s < 0x100_0000,
            t < 0x100_0000,
    ;
    assert(pow2(53) == 0x20_0000_0000_0000) by {
        vstd::arithmetic::power2::lemma2_to64_rest();
    }
    lemma_nearest_exact(st, k, 53);
    let z = pow2(776);
    let (xu, yu) = (x@.units(), y@.units());
    assert((xu * yu) * z == if (xu < 0) == (yu < 0) {
        (ab * z) as int
    } else {
        -(ab * z)
    }) by (nonlinear_arith)
        requires
            ab == a * b,
            a == abs(xu),
            b == abs(yu),
    {
        if xu < 0 && yu < 0 {
            assert(xu * yu == (-xu) * (-yu));
        } else if xu < 0 {
            assert((-xu) * yu == -(xu * yu));
            assert((-(xu * yu)) * z == -((xu * yu) * z));
        } else if yu < 0 {
            assert(xu * (-yu) == -(xu * yu));
            assert((-(xu * yu)) * z == -((xu * yu) * z));
        }
    }
    if ab == 0 {
        assert(0 * z == 0) by (nonlinear_arith);
    }
    assert(a == 0 || b == 0 ==> ab == 0) by (nonlinear_arith)
        requires
            ab == a * b,
    ;
}

/// Rounding whole numbers does not depend on their scale.
proof fn lemma_nearest_shifted(n: nat, k: nat, p: nat)
    requires
        p >= 1,
    ensures
        nearest(n * pow2(k), 1, p) == nearest(n, 1, p) * pow2(k),
    decreases k,
{
    if k == 0 {
        assert(pow2(0) == 1) by {
            vstd::arithmetic::power2::lemma2_to64();
        }
    } else {
        let j = (k - 1) as nat;
        lemma_nearest_shifted(n, j, p);
        lemma_pow2_unfold(k);
        let m = n * pow2(j);
        assert(n * pow2(k) == 2 * m) by (nonlinear_arith)
            requires
                m == n * pow2(j),
                pow2(k) == 2 * pow2(j),
        ;
        lemma_nearest_doubles(m, 1, p);
        let r = nearest(n, 1, p);
        assert(r * pow2(k) == 2 * (r * pow2(j))) by (nonlinear_arith)
            requires
                pow2(k) == 2 * pow2(j),
        ;
    }
}

/// The computed dot product, as a whole number of products of components, is the exact one up to
/// rounding.
#[verifier::rlimit(40)]
proof fn lemma_dot_error(a: Seq<Binary32>, b: Seq<Binary32>, n: nat) -> (d: int)
    requires
        all_finite(a),
        all_finite(b),
        n <= a.len(),
        n <= b.len(),
        n <= 512,
    ensures
        dot(a, b, n) is Finite,
        dot(a, b, n).units() == d * pow2(776),
        0x10_0000_0000_0000 * abs(d - exact_dot(a, b, n)) <= n * exact_size(a, b, n),
        abs(exact_dot(a, b, n)) <= exact_size(a, b, n),
    decreases n,
{
    let w = pow2(776);
    lemma_dot_bound(a, b, n);
    if n == 0 {
        assert(0 * w == 0 && 0 * 0 == 0) by (nonlinear_arith);
        0
    } else {
        let k = (n - 1) as nat;
        let d0 = lemma_dot_error(a, b, k);
        let xy = a[n - 1]@.units() * b[n - 1]@.units();
        lemma_exact_product(a[n - 1], b[n - 1]);
        let s = d0 + xy;
        let m: nat = abs(s) as nat;
        lemma_pow2_pos(776);
        assert(d0 * w + xy * w == s * w) by (nonlinear_arith)
            requires
                s == d0 + xy,
        ;
        assert(abs(s * w) == m * w && (s > 0 ==> s * w > 0) && (s < 0 ==> s * w < 0) && (s == 0
            ==> s * w == 0)) by (nonlinear_arith)
            requires
                m == abs(s),
                w > 0,
        ;
        lemma_nearest_shifted(m, 776, 53);
        let r = nearest(m, 1, 53);
        let d = if s < 0 {
            -(r as int)
        } else if s == 0 {
            0
        } else {
            r as int
        };
        assert((-(r as int)) * w == -(r * w)) by (nonlinear_arith);
        assert(0 * w == 0) by (nonlinear_arith);
        assert(dot(a, b, n).units() == d * w);
        assert(pow2(53) == 0x20_0000_0000_0000) by {
            vstd::arithmetic::power2::lemma2_to64_rest();
        }
        lemma_nearest_whole_error(m, 53);
        let (e0, e1) = (exact_dot(a, b, k), exact_dot(a, b, n));
        let (s0, s1) = (exact_size(a, b, k), exact_size(a, b, n));
        assert(k * s0 <= 512 * s0 && k * s0 + s1 <= n * s1) by (nonlinear_arith)
            requires
                k == n - 1,
                n <= 512,
                0 <= s0 <= s1,
        {
            assert(k * s0 <= k * s1);
            assert(n * s1 == k * s1 + s1);
        }
        lemma_step_error(d0, e0, s0, xy, s, d, (k * s0) as int);
        d
    }
}

/// One more rounded sum.
proof fn lemma_step_error(d0: int, e0: int, s0: int, xy: int, s: int, d: int, bound: int)
    requires
        0x10_0000_0000_0000 * abs(d0 - e0) <= bound,
        bound <= 512 * s0,
        abs(e0) <= s0,
        s == d0 + xy,
        0x20_0000_0000_0000 * abs(d - s) <= abs(s),
    ensures
        0x10_0000_0000_0000 * abs(d - (e0 + xy)) <= bound + (s0 + abs(xy)),
        abs(e0 + xy) <= s0 + abs(xy),
{
    assert(abs(d0 - e0) <= s0);
    assert(abs(s) <= 2 * (s0 + abs(xy)));
}

/// The sizes of the products of an embedding with itself are the products.
proof fn lemma_square_size(a: Seq<Binary32>, n: nat)
    ensures
        exact_size(a, a, n) == exact_dot(a, a, n),
        exact_dot(a, a, n) >= 0,
    decreases n,
{
    if n > 0 {
        lemma_square_size(a, (n - 1) as nat);
        let x = a[n - 1]@.units();
        assert(x * x >= 0) by (nonlinear_arith);
    }
}

/// `d` is the dot product up to rounding: its error is less than one part in eight million million
/// of the sizes of the products.
pub open spec fn is_dot(a: Seq<Binary32>, b: Seq<Binary32>, d: int) -> bool {
    0x800_0000_0000 * abs(d - exact_dot(a, b, a.len())) <= exact_size(a, b, a.len())
}

proof fn lemma_near_product(x: int, y: int, n: int, m: int)
    requires
        0x800_0000_0000 * abs(x - n) <= n,
        0x800_0000_0000 * abs(y - m) <= m,
    ensures
        0x200_0000_0000 * abs(x * y - n * m) <= n * m,
{
    let (p, q, r) = (x * y, n * y, n * m);
    assert(0x800_0000_0000 * abs(p - q) <= q) by (nonlinear_arith)
        requires
            0x800_0000_0000 * abs(x - n) <= n,
            p == x * y,
            q == n * y,
            y >= 0,
    {
        assert(p - q == (x - n) * y);
        assert(abs(p - q) == abs(x - n) * y);
        assert((0x800_0000_0000 * abs(x - n)) * y <= n * y);
    }
    assert(0x800_0000_0000 * abs(q - r) <= r) by (nonlinear_arith)
        requires
            0x800_0000_0000 * abs(y - m) <= m,
            q == n * y,
            r == n * m,
            n >= 0,
    {
        assert(q - r == n * (y - m));
        assert(abs(q - r) == n * abs(y - m));
        assert(n * (0x800_0000_0000 * abs(y - m)) <= n * m);
    }
}

proof fn lemma_near_square(g: int, h: int)
    requires
        g >= 0,
        0x20_0000_0000_0000 * abs(g - h) <= h,
    ensures
        0x8_0000_0000_0000 * abs(g * g - h * h) <= h * h,
{
    let (p, q, r) = (g * g, g * h, h * h);
    assert(0x20_0000_0000_0000 * abs(p - q) <= q && 0x20_0000_0000_0000 * abs(q - r) <= r)
        by (nonlinear_arith)
        requires
            0x20_0000_0000_0000 * abs(g - h) <= h,
            p == g * g,
            q == g * h,
            r == h * h,
            g >= 0,
    {
        let e = abs(g - h);
        assert(p - q == (g - h) * g);
        assert(abs(p - q) == e * g);
        assert(q - r == (g - h) * h);
        assert(abs(q - r) == e * h);
        assert((0x20_0000_0000_0000 * e) * g <= h * g);
        assert((0x20_0000_0000_0000 * e) * h <= h * h);
    }
}

/// From bounds on each rounded step to one on the square of the result.
proof fn lemma_cosine_error(
    s: int,
    l: int,
    d: int,
    w: int,
    one: int,
    mm: int,
    nm: int,
)
    requires
        s >= 0,
        l > 0,
        w > 0,
        nm > 0,
        0x20_0000_0000_0000 * abs(s * l - (d * w) * one) <= (d * w) * one,
        0x8_0000_0000_0000 * abs(l * l - mm * (w * w)) <= mm * (w * w),
        0x100_0000_0000 * abs(mm - nm) <= nm,
    ensures
        0x40_0000_0000 * abs((s * s) * nm - (d * d) * (one * one)) <= (d * d) * (one * one),
{
    let ww = w * w;
    let (g, h) = (s * l, (d * w) * one);
    assert(g >= 0 && ww > 0) by (nonlinear_arith)
        requires
            g == s * l,
            s >= 0,
            l > 0,
            ww == w * w,
            w > 0,
    ;
    lemma_near_square(g, h);
    let (a, b) = (mm * ww, nm * ww);
    assert(0x100_0000_0000 * abs(a - b) <= b) by (nonlinear_arith)
        requires
            0x100_0000_0000 * abs(mm - nm) <= nm,
            a == mm * ww,
            b == nm * ww,
            ww > 0,
    {
        assert(a - b == (mm - nm) * ww);
        assert(abs(a - b) == abs(mm - nm) * ww);
        assert((0x100_0000_0000 * abs(mm - nm)) * ww <= nm * ww);
    }
    let ll = l * l;
    assert(0x80_0000_0000 * abs(ll - b) <= b);
    let ss = s * s;
    let (p, q) = (ss * ll, ss * b);
    assert(0x80_0000_0000 * abs(p - q) <= q) by (nonlinear_arith)
        requires
            0x80_0000_0000 * abs(ll - b) <= b,
            p == ss * ll,
            q == ss * b,
            ss == s * s,
    {
        assert(ss >= 0);
        assert(p - q == ss * (ll - b));
        assert(abs(p - q) == ss * abs(ll - b));
        assert(ss * (0x80_0000_0000 * abs(ll - b)) <= ss * b);
    }
    let r = h * h;
    assert(p == g * g) by (nonlinear_arith)
        requires
            p == ss * ll,
            ss == s * s,
            ll == l * l,
            g == s * l,
    ;
    assert(0x40_0000_0000 * abs(q - r) <= r);
    let (x, y) = (ss * nm, (d * d) * (one * one));
    assert(q == x * ww && r == y * ww) by (nonlinear_arith)
        requires
            q == ss * b,
            b == nm * ww,
            x == ss * nm,
            r == h * h,
            h == (d * w) * one,
            y == (d * d) * (one * one),
            ww == w * w,
    ;
    assert(0x40_0000_0000 * abs(x - y) <= y) by (nonlinear_arith)
        requires
            0x40_0000_0000 * abs(q - r) <= r,
            q == x * ww,
            r == y * ww,
            ww > 0,
    {
        let e = abs(x - y);
        assert(q - r == (x - y) * ww);
        assert(abs(q - r) == e * ww);
        assert((0x40_0000_0000 * e) * ww <= y * ww);
    }
}

/// The squared length of an embedding, as a whole number, is the exact one up to rounding.
proof fn lemma_norm_error(a: Seq<Binary32>) -> (x: nat)
    requires
        all_finite(a),
        0 < a.len() <= 512,
        !all_zero(a),
    ensures
        dot(a, a, a.len()) == (Number::Finite { negative: false, magnitude: x * pow2(776) }),
        x >= 1,
        exact_dot(a, a, a.len()) >= 1,
        0x800_0000_0000 * abs(x - exact_dot(a, a, a.len())) <= exact_dot(a, a, a.len()),
{
    let n = a.len();
    let w = pow2(776);
    lemma_norm(a, n);
    assert(a.take(n as int) =~= a);
    let d = lemma_dot_error(a, a, n);
    lemma_square_size(a, n);
    lemma_pow2_pos(776);
    assert(d >= 1) by (nonlinear_arith)
        requires
            d * w > 0,
            w > 0,
    ;
    let e = exact_dot(a, a, n);
    assert(n * e <= 512 * e) by (nonlinear_arith)
        requires
            n <= 512,
            e >= 0,
    ;
    assert(0x800_0000_0000 * abs(d - e) <= e);
    d as nat
}

/// The product of the lengths, computed from the squared ones.
#[verifier::rlimit(40)]
proof fn lemma_lengths_error(a: Seq<Binary32>, b: Seq<Binary32>) -> (r: (nat, nat))
    requires
        all_finite(a),
        all_finite(b),
        a.len() == b.len(),
        0 < a.len() <= 512,
        !all_zero(a),
        !all_zero(b),
    ensures
        lengths(a, b) == (Number::Finite { negative: false, magnitude: r.0 }),
        0 < r.0 <= pow2(1340),
        0x8_0000_0000_0000 * abs(r.0 * r.0 - r.1 * (pow2(776) * pow2(776))) <= r.1 * (pow2(776)
            * pow2(776)),
        0x100_0000_0000 * abs(
            r.1 - exact_dot(a, a, a.len()) * exact_dot(b, b, b.len()),
        ) <= exact_dot(a, a, a.len()) * exact_dot(b, b, b.len()),
{
    let n = a.len();
    let w = pow2(776);
    let one = pow2(1074);
    let x = lemma_norm_error(a);
    let y = lemma_norm_error(b);
    let (p, q) = (exact_dot(a, a, n), exact_dot(b, b, n));
    lemma_near_product(x as int, y as int, p, q);
    lemma_pow2_pos(776);
    lemma_pow2_pos(1074);
    assert(x * w > 0 && y * w > 0) by (nonlinear_arith)
        requires
            x >= 1,
            y >= 1,
            w > 0,
    ;
    lemma_lengths_in_range(a, b);
    let xy = x * y;
    let (k, ww) = (pow2(478), w * w);
    lemma_pow2_pos(478);
    let m = nearest((x * w) * (y * w), one, 53);
    assert(((x * w) * (y * w)) * 1 == (xy * k) * one) by (nonlinear_arith)
        requires
            xy == x * y,
            w * w == k * one,
    ;
    lemma_nearest_ratio((x * w) * (y * w), one, xy * k, 1, 53);
    lemma_nearest_shifted(xy, 478, 53);
    let mm = nearest(xy, 1, 53);
    assert(pow2(53) == 0x20_0000_0000_0000) by {
        vstd::arithmetic::power2::lemma2_to64_rest();
    }
    assert(pow2(51) == 0x8_0000_0000_0000) by {
        vstd::arithmetic::power2::lemma2_to64_rest();
    }
    lemma_nearest_whole_error(xy, 53);
    assert(xy >= 1) by (nonlinear_arith)
        requires
            xy == x * y,
            x >= 1,
            y >= 1,
    ;
    assert(mm >= 1);
    let t = m * one;
    assert(t == mm * ww) by (nonlinear_arith)
        requires
            t == m * one,
            m == mm * k,
            ww == k * one,
    ;
    lemma_pow2_le(53, 776);
    assert(pow2(53) * pow2(53) <= t) by (nonlinear_arith)
        requires
            t == mm * ww,
            mm >= 1,
            ww == w * w,
            w >= pow2(53),
    {
        assert(pow2(53) * pow2(53) <= w * w);
        assert(ww <= mm * ww);
    }
    lemma_nearest_root_error(t, 53);
    let l = nearest_root(t, 53);
    let ll = l * l;
    assert(0x8_0000_0000_0000 * abs(ll - t) <= t) by {
        assert(((53 - 2) as nat) == 51nat);
    }
    lemma_pow2_pos(53);
    assert(t > 0) by (nonlinear_arith)
        requires
            pow2(53) * pow2(53) <= t,
            pow2(53) > 0,
    ;
    assert(m > 0) by (nonlinear_arith)
        requires
            t == m * one,
            t > 0,
    ;
    assert(lengths(a, b) == (Number::Finite { negative: false, magnitude: l }));
    assert(0 < ll <= 2 * t);
    assert(l > 0) by (nonlinear_arith)
        requires
            ll == l * l,
            ll > 0,
    ;
    // The lengths are bounded, and so is their product.
    lemma_dot_top(a, a, n);
    lemma_dot_top(b, b, n);
    let top = pow2(1339);
    lemma_pow2_unfold(1340);
    assert(xy * ww <= top * top) by (nonlinear_arith)
        requires
            xy == x * y,
            ww == w * w,
            x * w <= top,
            y * w <= top,
    {
        assert(xy * ww == (x * w) * (y * w));
    }
    assert(t <= 2 * (top * top)) by (nonlinear_arith)
        requires
            t == mm * ww,
            mm <= 2 * xy,
            xy * ww <= top * top,
    ;
    assert(l <= 2 * top) by (nonlinear_arith)
        requires
            ll == l * l,
            ll <= 2 * t,
            t <= 2 * (top * top),
    ;
    (l, mm)
}

/// Similarity is the cosine of the angle between two embeddings: it has the sign of their dot
/// product, and its square, times the squares of both lengths, is the square of the dot product. The
/// dot product is taken up to rounding, and the squares agree up to four parts in a million million.
#[verifier::rlimit(40)]
pub proof fn similarity_is_the_cosine(a: Seq<Binary32>, b: Seq<Binary32>)
    requires
        all_finite(a),
        all_finite(b),
        a.len() == b.len(),
        0 < a.len() <= 512,
        !all_zero(a),
        !all_zero(b),
    ensures
        cosine(a, b) is Finite,
        exists|d: int|
            {
                let s = cosine(a, b).units();
                let one = pow2(1074) as int;
                let n = exact_dot(a, a, a.len());
                let m = exact_dot(b, b, b.len());
                &&& #[trigger] is_dot(a, b, d)
                &&& s > 0 <==> d > 0
                &&& s < 0 <==> d < 0
                &&& 0x40_0000_0000 * abs((s * s) * (n * m) - (d * d) * (one * one)) <= (d * d) * (
                one * one)
            },
{
    let n = a.len();
    let w = pow2(776) as int;
    let one = pow2(1074) as int;
    zero_length_is_refused(a, b);
    let d = lemma_dot_error(a, b, n);
    let size = exact_size(a, b, n);
    lemma_size_not_negative(a, b, n);
    assert(n * size <= 512 * size) by (nonlinear_arith)
        requires
            n <= 512,
            size >= 0,
    ;
    assert(is_dot(a, b, d));
    let (l, mm) = lemma_lengths_error(a, b);
    lemma_norm_error(a);
    lemma_norm_error(b);
    let (p, q) = (exact_dot(a, a, n), exact_dot(b, b, n));
    assert(p * q > 0) by (nonlinear_arith)
        requires
            p >= 1,
            q >= 1,
    ;
    lemma_pow2_pos(776);
    lemma_pow2_pos(1074);
    let c = dot(a, b, n);
    let m = c->Finite_magnitude;
    let size_d = abs(d) as int;
    assert(m == size_d * w && (d > 0 ==> d * w > 0) && (d < 0 ==> d * w < 0) && (d == 0 ==> d * w
        == 0)) by (nonlinear_arith)
        requires
            m == abs(d * w),
            size_d == abs(d),
            w > 0,
    ;
    let s = nearest(m * pow2(1074), l, 53) as int;
    let h = (size_d * w) * one;
    lemma_nearest_error(m * pow2(1074), l, 53);
    assert(pow2(53) == 0x20_0000_0000_0000) by {
        vstd::arithmetic::power2::lemma2_to64_rest();
    }
    let e = abs(s * l - h);
    assert(0x20_0000_0000_0000 * e <= h) by {
        if d == 0 {
            assert(h == 0) by (nonlinear_arith)
                requires
                    h == (size_d * w) * one,
                    size_d == 0,
            ;
            lemma_quotient_of_zero(l);
            assert(0 * l == 0) by (nonlinear_arith);
        } else {
            lemma_pow2_adds(776, 1074);
            lemma_pow2_adds(53, 1340);
            lemma_pow2_le(1393, 1850);
            assert(h >= pow2(1850)) by (nonlinear_arith)
                requires
                    h == (size_d * w) * one,
                    size_d >= 1,
                    w * one == pow2(1850),
                    w > 0,
                    one > 0,
            {
                assert(h == size_d * (w * one));
            }
            assert(0x20_0000_0000_0000 * l <= pow2(1393)) by (nonlinear_arith)
                requires
                    l <= pow2(1340),
                    0x20_0000_0000_0000 * pow2(1340) == pow2(1393),
            ;
        }
    }
    lemma_cosine_error(s, l as int, size_d, w, one, mm as int, p * q);
    assert(size_d * size_d == d * d) by (nonlinear_arith)
        requires
            size_d == abs(d),
    ;
    let r = cosine(a, b);
    assert(r->Finite_magnitude == s);
    assert(d != 0 ==> s > 0) by {
        if d != 0 {
            assert(h > 0) by (nonlinear_arith)
                requires
                    h == (size_d * w) * one,
                    size_d >= 1,
                    w > 0,
                    one > 0,
            ;
            assert(s * l > 0);
            assert(s != 0) by (nonlinear_arith)
                requires
                    s * l > 0,
            ;
        }
    }
    assert(d == 0 ==> s == 0) by {
        if d == 0 {
            lemma_quotient_of_zero(l);
            assert(0 * one == 0 && 0 * w == 0) by (nonlinear_arith);
        }
    }
    let u = r.units();
    assert(u * u == s * s) by (nonlinear_arith)
        requires
            u == s || u == -s,
    ;
}

proof fn lemma_quotient_of_zero(l: nat)
    requires
        l > 0,
    ensures
        nearest(0, l, 53) == 0,
        0 * pow2(1074) == 0,
{
    crate::arithmetic::lemma_nearest_zero(l, 53);
    assert(0 * pow2(1074) == 0) by (nonlinear_arith);
}

proof fn lemma_size_not_negative(a: Seq<Binary32>, b: Seq<Binary32>, n: nat)
    ensures
        exact_size(a, b, n) >= 0,
    decreases n,
{
    if n > 0 {
        lemma_size_not_negative(a, b, (n - 1) as nat);
    }
}

/// The step of Cauchy's inequality.
proof fn lemma_cauchy_step(s: int, n: int, m: int, x: int, y: int, p: int)
    requires
        s >= 0,
        n >= 0,
        m >= 0,
        s * s <= n * m,
        p == abs(x * y),
    ensures
        (s + p) * (s + p) <= (n + x * x) * (m + y * y),
{
    let (xx, yy, pp) = (x * x, y * y, p * p);
    assert(pp == xx * yy && xx >= 0 && yy >= 0) by (nonlinear_arith)
        requires
            p == abs(x * y),
            xx == x * x,
            yy == y * y,
            pp == p * p,
    {
        assert(p * p == (x * y) * (x * y));
    }
    let (u, v) = (n * yy, m * xx);
    let sp = s * p;
    assert(u >= 0 && v >= 0 && sp >= 0 && sp * sp <= u * v) by (nonlinear_arith)
        requires
            u == n * yy,
            v == m * xx,
            sp == s * p,
            n >= 0,
            m >= 0,
            s >= 0,
            p >= 0,
            xx >= 0,
            yy >= 0,
            pp == p * p,
            pp == xx * yy,
            s * s <= n * m,
    {
        assert(sp * sp == (s * s) * pp);
        assert((s * s) * pp <= (n * m) * pp);
        assert(u * v == (n * m) * (xx * yy));
    }
    assert(2 * sp <= u + v) by (nonlinear_arith)
        requires
            u >= 0,
            v >= 0,
            sp >= 0,
            sp * sp <= u * v,
    {
        let d = u - v;
        assert(d * d >= 0);
        assert((u + v) * (u + v) == d * d + 4 * (u * v));
        assert((u + v) * (u + v) >= (2 * sp) * (2 * sp));
    }
    assert((s + p) * (s + p) == s * s + 2 * sp + pp) by (nonlinear_arith)
        requires
            sp == s * p,
            pp == p * p,
    ;
    assert((n + xx) * (m + yy) == n * m + u + v + pp) by (nonlinear_arith)
        requires
            u == n * yy,
            v == m * xx,
            pp == xx * yy,
    ;
}

proof fn lemma_cauchy(a: Seq<Binary32>, b: Seq<Binary32>, n: nat)
    ensures
        exact_size(a, b, n) * exact_size(a, b, n) <= exact_dot(a, a, n) * exact_dot(b, b, n),
        exact_dot(a, a, n) >= 0,
        exact_dot(b, b, n) >= 0,
    decreases n,
{
    if n == 0 {
        assert(0int * 0int == 0) by (nonlinear_arith);
    } else {
        let k = (n - 1) as nat;
        lemma_cauchy(a, b, k);
        lemma_size_not_negative(a, b, k);
        lemma_square_size(a, n);
        lemma_square_size(b, n);
        let (x, y) = (a[n - 1]@.units(), b[n - 1]@.units());
        lemma_cauchy_step(
            exact_size(a, b, k),
            exact_dot(a, a, k),
            exact_dot(b, b, k),
            x,
            y,
            abs(x * y) as int,
        );
    }
}

/// The square of a similarity is that of the exact cosine, up to one part in thirty thousand
/// million, and so a similarity lies between minus one and one but for rounding. Its sign is that of
/// the exact dot product wherever this is not lost in rounding.
#[verifier::rlimit(40)]
pub proof fn similarity_is_near_the_exact_cosine(a: Seq<Binary32>, b: Seq<Binary32>)
    requires
        all_finite(a),
        all_finite(b),
        a.len() == b.len(),
        0 < a.len() <= 512,
        !all_zero(a),
        !all_zero(b),
    ensures
        ({
            let s = cosine(a, b).units();
            let one = pow2(1074) as int;
            let d = exact_dot(a, b, a.len());
            let size = exact_size(a, b, a.len());
            let nm = exact_dot(a, a, a.len()) * exact_dot(b, b, b.len());
            &&& nm > 0
            &&& d * d <= nm
            &&& 0x8_0000_0000 * abs((s * s) * nm - (d * d) * (one * one)) <= nm * (one * one)
            &&& 0x4_0000_0000 * (s * s) <= 0x4_0000_0001 * (one * one)
            &&& 0x800_0000_0000 * d > size ==> s > 0
            &&& 0x800_0000_0000 * d < -size ==> s < 0
        }),
{
    similarity_is_the_cosine(a, b);
    let n = a.len();
    let s = cosine(a, b).units();
    let one = pow2(1074) as int;
    let nm = exact_dot(a, a, n) * exact_dot(b, b, n);
    let c = choose|c: int|
        {
            &&& #[trigger] is_dot(a, b, c)
            &&& s > 0 <==> c > 0
            &&& s < 0 <==> c < 0
            &&& 0x40_0000_0000 * abs((s * s) * nm - (c * c) * (one * one)) <= (c * c) * (one * one)
        };
    let d = exact_dot(a, b, n);
    let size = exact_size(a, b, n);
    lemma_cauchy(a, b, n);
    lemma_size_not_negative(a, b, n);
    lemma_dot_error(a, b, n);
    lemma_norm_error(a);
    lemma_norm_error(b);
    assert(nm > 0) by (nonlinear_arith)
        requires
            exact_dot(a, a, n) >= 1,
            exact_dot(b, b, n) >= 1,
            nm == exact_dot(a, a, n) * exact_dot(b, b, n),
    ;
    let (cc, dd, tt) = (c * c, d * d, size * size);
    assert(cc >= 0) by (nonlinear_arith)
        requires
            cc == c * c,
    ;
    assert(dd <= tt && cc <= 2 * tt && 0x200_0000_0000 * abs(cc - dd) <= tt) by (nonlinear_arith)
        requires
            cc == c * c,
            dd == d * d,
            tt == size * size,
            size >= 0,
            abs(d) <= size,
            0x800_0000_0000 * abs(c - d) <= size,
    {
        let e = abs(c - d);
        let f = abs(c + d);
        assert(abs(c) + abs(d) <= 3 * size);
        assert(f <= 3 * size);
        assert(cc - dd == (c - d) * (c + d));
        assert(abs(cc - dd) == e * f);
        assert(e * f <= e * (3 * size));
        assert((0x800_0000_0000 * e) * size <= size * size);
        assert(d * d == abs(d) * abs(d));
        assert(abs(d) * abs(d) <= size * size);
    }
    let oo = one * one;
    lemma_pow2_pos(1074);
    assert(oo > 0) by (nonlinear_arith)
        requires
            oo == one * one,
            one > 0,
    ;
    let (p, q, r, t) = ((s * s) * nm, cc * oo, dd * oo, nm * oo);
    assert(0 <= q <= 2 * t && 0x200_0000_0000 * abs(q - r) <= t && r <= t) by (nonlinear_arith)
        requires
            q == cc * oo,
            r == dd * oo,
            t == nm * oo,
            0 <= cc <= 2 * tt,
            dd <= tt,
            tt <= nm,
            0x200_0000_0000 * abs(cc - dd) <= tt,
            oo > 0,
    {
        assert(q - r == (cc - dd) * oo);
        assert(abs(q - r) == abs(cc - dd) * oo);
        assert((0x200_0000_0000 * abs(cc - dd)) * oo <= nm * oo);
        assert(cc * oo <= (2 * nm) * oo);
        assert(dd * oo <= nm * oo);
    }
    assert(0x40_0000_0000 * abs(p - q) <= q);
    assert(0x8_0000_0000 * abs(p - r) <= t);
    assert(0x4_0000_0000 * p <= 0x4_0000_0001 * t);
    let ss = s * s;
    assert(0x4_0000_0000 * ss <= 0x4_0000_0001 * oo) by (nonlinear_arith)
        requires
            0x4_0000_0000 * p <= 0x4_0000_0001 * t,
            p == ss * nm,
            t == nm * oo,
            nm > 0,
    {
        assert((0x4_0000_0000 * ss) * nm <= (0x4_0000_0001 * oo) * nm);
    }
}

} // verus!
