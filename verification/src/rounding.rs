//! Facts about rounding to nearest, ties to even.
use crate::number::{floor_root, nearest, nearest_root, round_even, round_root, spacing};
use vstd::arithmetic::div_mod::{lemma_fundamental_div_mod, lemma_fundamental_div_mod_converse};
use vstd::arithmetic::power2::{
    lemma_pow2_adds, lemma_pow2_pos, lemma_pow2_strictly_increases, lemma_pow2_unfold, pow2,
};
use vstd::math::abs;
use vstd::prelude::*;

verus! {

/// Powers of two grow with the exponent.
pub proof fn lemma_pow2_le(a: nat, b: nat)
    requires
        a <= b,
    ensures
        pow2(a) <= pow2(b),
{
    if a < b {
        lemma_pow2_strictly_increases(a, b);
    }
}

/// `q` is the quotient of `n` by `d`.
pub proof fn lemma_quotient(n: nat, d: nat, q: nat)
    requires
        q * d <= n < (q + 1) * d,
    ensures
        n / d == q,
        n % d == n - q * d,
{
    assert(d > 0) by (nonlinear_arith)
        requires
            q * d <= n < (q + 1) * d,
    ;
    assert((q + 1) * d == q * d + d) by (nonlinear_arith);
    assert(q * d == d * q) by (nonlinear_arith);
    lemma_fundamental_div_mod_converse(n as int, d as int, q as int, n - q * d);
}

/// The quotient of `n` by `d` lies below the ratio by less than one.
pub proof fn lemma_quotient_bounds(n: nat, d: nat)
    requires
        d > 0,
    ensures
        (n / d) * d <= n < (n / d + 1) * d,
        n == (n / d) * d + n % d,
        n % d < d,
{
    lemma_fundamental_div_mod(n as int, d as int);
    let q = n / d;
    assert(d * q == q * d) by (nonlinear_arith);
    assert((q + 1) * d == q * d + d) by (nonlinear_arith);
}

/// The gap at `t` is the one of the binade that holds `t`.
pub proof fn lemma_spacing(t: nat, p: nat, k: nat)
    requires
        p >= 1,
        k == 0 || pow2((p + k - 1) as nat) <= t,
        t < pow2(p + k),
    ensures
        spacing(t, p) == k,
    decreases k,
{
    lemma_pow2_pos(p);
    if k > 0 {
        lemma_pow2_le(p, (p + k - 1) as nat);
        lemma_pow2_unfold((p + k) as nat);
        if k > 1 {
            lemma_pow2_unfold((p + k - 1) as nat);
        }
        lemma_spacing(t / 2, p, (k - 1) as nat);
    }
}

/// The binade that holds `t`, from the gap at `t`.
pub proof fn lemma_spacing_bounds(t: nat, p: nat)
    requires
        p >= 1,
    ensures
        spacing(t, p) == 0 || pow2((p + spacing(t, p) - 1) as nat) <= t,
        t < pow2(p + spacing(t, p)),
    decreases t,
{
    lemma_pow2_pos(p);
    if t >= pow2(p) {
        lemma_spacing_bounds(t / 2, p);
        let k = spacing(t / 2, p);
        lemma_pow2_unfold(p + k + 1);
        if k > 0 {
            lemma_pow2_unfold(p + k);
        }
    }
}

/// Rounding depends on the ratio alone.
pub proof fn lemma_round_even_ratio(n: nat, d: nat, n2: nat, d2: nat)
    requires
        d > 0,
        d2 > 0,
        n * d2 == n2 * d,
    ensures
        n / d == n2 / d2,
        round_even(n, d) == round_even(n2, d2),
{
    let q = n / d;
    let r = (n % d) as nat;
    lemma_quotient_bounds(n, d);
    assert(q * d2 <= n2 < (q + 1) * d2) by (nonlinear_arith)
        requires
            q * d <= n < (q + 1) * d,
            n * d2 == n2 * d,
            d > 0,
            d2 > 0,
    ;
    lemma_quotient(n2, d2, q);
    let r2 = (n2 % d2) as nat;
    assert(r * d2 == r2 * d) by (nonlinear_arith)
        requires
            n == q * d + r,
            n2 == q * d2 + r2,
            n * d2 == n2 * d,
    ;
    assert((2 * r < d) == (2 * r2 < d2)) by (nonlinear_arith)
        requires
            r * d2 == r2 * d,
            d > 0,
            d2 > 0,
    ;
    assert((2 * r == d) == (2 * r2 == d2)) by (nonlinear_arith)
        requires
            r * d2 == r2 * d,
            d > 0,
            d2 > 0,
    ;
}

/// Rounding to a number of digits depends on the ratio alone.
pub proof fn lemma_nearest_ratio(n: nat, d: nat, n2: nat, d2: nat, p: nat)
    requires
        d > 0,
        d2 > 0,
        n * d2 == n2 * d,
    ensures
        nearest(n, d, p) == nearest(n2, d2, p),
{
    lemma_round_even_ratio(n, d, n2, d2);
    let gap = pow2(spacing(n / d, p));
    lemma_pow2_pos(spacing(n / d, p));
    assert(d * gap > 0 && d2 * gap > 0 && n * (d2 * gap) == n2 * (d * gap)) by (nonlinear_arith)
        requires
            d > 0,
            d2 > 0,
            gap > 0,
            n * d2 == n2 * d,
    ;
    lemma_round_even_ratio(n, d * gap, n2, d2 * gap);
}

/// An integer rounds to itself.
pub proof fn lemma_round_even_exact(m: nat, d: nat)
    requires
        d > 0,
    ensures
        round_even(m * d, d) == m,
{
    assert((m + 1) * d == m * d + d) by (nonlinear_arith);
    lemma_quotient(m * d, d, m);
}

/// A number of at most `p` digits rounds to itself.
pub proof fn lemma_nearest_exact(m: nat, k: nat, p: nat)
    requires
        p >= 1,
        m < pow2(p),
    ensures
        nearest(m * pow2(k), 1, p) == m * pow2(k),
{
    let n = m * pow2(k);
    let j = spacing(n, p);
    lemma_spacing_bounds(n, p);
    lemma_pow2_adds(p, k);
    lemma_pow2_pos(k);
    assert(n < pow2(p + k)) by (nonlinear_arith)
        requires
            n == m * pow2(k),
            m < pow2(p),
            pow2(p) * pow2(k) == pow2(p + k),
            pow2(k) > 0,
    ;
    assert(j <= k) by {
        if j > k {
            lemma_pow2_le(p + k, (p + j - 1) as nat);
        }
    }
    lemma_pow2_adds((k - j) as nat, j);
    lemma_pow2_pos(j);
    let c = m * pow2((k - j) as nat);
    assert(n == c * pow2(j)) by (nonlinear_arith)
        requires
            n == m * pow2(k),
            c == m * pow2((k - j) as nat),
            pow2((k - j) as nat) * pow2(j) == pow2(k),
    ;
    assert(n / 1 == n);
    lemma_round_even_exact(c, pow2(j));
    assert(1 * pow2(j) == pow2(j));
}

/// Away from integers and halves, rounding follows from the number of halves below.
pub proof fn lemma_round_even_inexact(n: nat, d: nat, h: nat)
    requires
        h * d < 2 * n < (h + 1) * d,
    ensures
        round_even(n, d) == (h + 1) / 2,
{
    assert(d > 0) by (nonlinear_arith)
        requires
            h * d < 2 * n < (h + 1) * d,
    ;
    let q = h / 2;
    assert((q + 1) * d == q * d + d) by (nonlinear_arith);
    if h == 2 * q {
        assert(h * d == 2 * (q * d)) by (nonlinear_arith)
            requires
                h == 2 * q,
        ;
        assert((h + 1) * d == h * d + d) by (nonlinear_arith);
        lemma_quotient(n, d, q);
    } else {
        assert(h * d == 2 * (q * d) + d) by (nonlinear_arith)
            requires
                h == 2 * q + 1,
        ;
        assert((h + 1) * d == h * d + d) by (nonlinear_arith);
        lemma_quotient(n, d, q);
    }
}

/// `m` times two to the power of `e`, rounded to `p` digits.
pub open spec fn nearest_scaled(m: nat, e: int, p: nat) -> nat {
    if e >= 0 {
        nearest(m * pow2(e as nat), 1, p)
    } else {
        nearest(m, pow2((-e) as nat), p)
    }
}

/// A quotient of powers of two is one power of two.
pub proof fn lemma_nearest_scaled(m: nat, a: nat, b: nat, p: nat)
    ensures
        nearest(m * pow2(a), pow2(b), p) == nearest_scaled(m, a - b, p),
{
    lemma_pow2_pos(a);
    lemma_pow2_pos(b);
    if a >= b {
        let e = (a - b) as nat;
        lemma_pow2_adds(e, b);
        assert((m * pow2(a)) * 1 == (m * pow2(e)) * pow2(b)) by (nonlinear_arith)
            requires
                pow2(e) * pow2(b) == pow2(a),
        ;
        lemma_nearest_ratio(m * pow2(a), pow2(b), m * pow2(e), 1, p);
    } else {
        let e = (b - a) as nat;
        lemma_pow2_adds(e, a);
        lemma_pow2_pos(e);
        assert((m * pow2(a)) * pow2(e) == m * pow2(b)) by (nonlinear_arith)
            requires
                pow2(e) * pow2(a) == pow2(b),
        ;
        lemma_nearest_ratio(m * pow2(a), pow2(b), m, pow2(e), p);
    }
}

/// The ratio `n / d` lies strictly between `q` and `q + 1` times two to the power of `a - b`.
pub open spec fn strictly_between(n: nat, d: nat, q: nat, a: nat, b: nat) -> bool {
    q * pow2(a) * d < n * pow2(b) < (q + 1) * pow2(a) * d
}

/// Where `q` has more than `p` digits, the nearest number is the same throughout the interval
/// between `q` and `q + 1`.
pub proof fn lemma_nearest_inside(n: nat, d: nat, q: nat, a: nat, b: nat, p: nat) -> (k: nat)
    requires
        p >= 1,
        d > 0,
        q >= pow2(p),
        strictly_between(n, d, q, a, b),
    ensures
        k + b >= a + 1,
        k == 0 || q >= pow2((p + k - 1 + b - a) as nat),
        q < pow2((p + k + b - a) as nat),
        nearest(n, d, p) == ((q / pow2((k + b - 1 - a) as nat) + 1) / 2) * pow2(k),
{
    let t = n / d;
    let k = spacing(t, p);
    lemma_spacing_bounds(t, p);
    lemma_quotient_bounds(n, d);
    lemma_pow2_pos(a);
    lemma_pow2_pos(b);
    lemma_pow2_pos(p + k);
    let pa = pow2(a);
    let pb = pow2(b);
    // The ratio is below two to the power of p + k.
    let top = pow2(p + k);
    assert(n < top * d) by (nonlinear_arith)
        requires
            n < (t + 1) * d,
            t < top,
            d > 0,
    ;
    assert(q * pa < top * pb) by (nonlinear_arith)
        requires
            n < top * d,
            q * pa * d < n * pb,
            d > 0,
            pb > 0,
    ;
    lemma_pow2_adds(p + k, b);
    lemma_pow2_adds(p, a);
    assert(pow2(p + a) < pow2(p + k + b)) by (nonlinear_arith)
        requires
            q * pa < top * pb,
            top * pb == pow2(p + k + b),
            pow2(p) * pa == pow2(p + a),
            q >= pow2(p),
            pa > 0,
    ;
    assert(k + b >= a + 1) by {
        if k + b <= a {
            lemma_pow2_le(p + k + b, p + a);
        }
    }
    lemma_pow2_adds((p + k + b - a) as nat, a);
    assert(q < pow2((p + k + b - a) as nat)) by (nonlinear_arith)
        requires
            q * pa < top * pb,
            top * pb == pow2(p + k + b),
            pow2((p + k + b - a) as nat) * pa == pow2(p + k + b),
    ;
    // Where the gap is above one, the ratio is at least two to the power of p + k - 1.
    if k > 0 {
        let low = pow2((p + k - 1) as nat);
        let w = pow2((p + k - 1 + b - a) as nat);
        assert(low * d <= n) by (nonlinear_arith)
            requires
                low <= t,
                t * d <= n,
        ;
        lemma_pow2_adds((p + k - 1) as nat, b);
        lemma_pow2_adds((p + k - 1 + b - a) as nat, a);
        assert(w < q + 1) by (nonlinear_arith)
            requires
                low * d <= n,
                n * pb < (q + 1) * pa * d,
                low * pb == w * pa,
                d > 0,
                pa > 0,
                pb > 0,
        ;
    }
    // Halves of the gap are multiples of the width of the interval.
    let gap = pow2(k);
    let c = pow2((k + b - 1 - a) as nat);
    lemma_pow2_pos(k);
    lemma_pow2_pos((k + b - 1 - a) as nat);
    lemma_pow2_adds(k, b);
    lemma_pow2_adds((k + b - 1 - a) as nat, a);
    lemma_pow2_unfold(k + b);
    let h = q / c;
    lemma_quotient_bounds(q, c);
    let dd = d * gap;
    assert(gap * pb == 2 * (c * pa));
    assert(h * dd < 2 * n) by (nonlinear_arith)
        requires
            dd == d * gap,
            h * c <= q,
            q * pa * d < n * pb,
            gap * pb == 2 * (c * pa),
            d > 0,
            pa > 0,
            pb > 0,
    {
        assert(h * c * pa * d <= q * pa * d);
        assert(h * dd * pb == 2 * (h * c * pa * d));
        assert(h * dd * pb < 2 * n * pb);
    }
    assert(2 * n < (h + 1) * dd) by (nonlinear_arith)
        requires
            dd == d * gap,
            q < (h + 1) * c,
            n * pb < (q + 1) * pa * d,
            gap * pb == 2 * (c * pa),
            d > 0,
            pa > 0,
            pb > 0,
    {
        assert((q + 1) * pa * d <= (h + 1) * c * pa * d);
        assert((h + 1) * dd * pb == 2 * ((h + 1) * c * pa * d));
        assert(2 * n * pb < (h + 1) * dd * pb);
    }
    lemma_round_even_inexact(n, dd, h);
    k
}

/// An inexact ratio rounds as the middle of the interval that holds it.
pub proof fn lemma_nearest_sticky(n: nat, d: nat, q: nat, a: nat, b: nat, p: nat)
    requires
        p >= 1,
        d > 0,
        q >= pow2(p),
        strictly_between(n, d, q, a, b),
    ensures
        nearest(n, d, p) == nearest_scaled(2 * q + 1, a - b - 1, p),
{
    let n2 = (2 * q + 1) * pow2(a);
    let d2 = pow2(b + 1);
    lemma_pow2_pos(a);
    lemma_pow2_pos(b);
    lemma_pow2_unfold(b + 1);
    assert(strictly_between(n2, d2, q, a, b)) by (nonlinear_arith)
        requires
            n2 == (2 * q + 1) * pow2(a),
            d2 == 2 * pow2(b),
            pow2(a) > 0,
            pow2(b) > 0,
    {
        let pa = pow2(a);
        let pb = pow2(b);
        assert(pa * pb > 0);
        assert(q * pa * d2 == 2 * q * (pa * pb));
        assert(n2 * pb == (2 * q + 1) * (pa * pb));
        assert((q + 1) * pa * d2 == (2 * q + 2) * (pa * pb));
    }
    let k = lemma_nearest_inside(n, d, q, a, b, p);
    let k2 = lemma_nearest_inside(n2, d2, q, a, b, p);
    if k < k2 {
        lemma_pow2_le((p + k + b - a) as nat, (p + k2 - 1 + b - a) as nat);
    }
    if k2 < k {
        lemma_pow2_le((p + k2 + b - a) as nat, (p + k - 1 + b - a) as nat);
    }
    lemma_nearest_scaled(2 * q + 1, a, b + 1, p);
}

/// Rounding does not pass a power of two.
pub proof fn lemma_nearest_below(n: nat, d: nat, p: nat, j: nat)
    requires
        1 <= p <= j,
        d > 0,
        n < pow2(j) * d,
    ensures
        nearest(n, d, p) <= pow2(j),
{
    let t = n / d;
    let k = spacing(t, p);
    let gap = pow2(k);
    lemma_spacing_bounds(t, p);
    lemma_quotient_bounds(n, d);
    assert(t < pow2(j)) by (nonlinear_arith)
        requires
            t * d <= n,
            n < pow2(j) * d,
    ;
    assert(p + k <= j) by {
        if p + k > j {
            lemma_pow2_le(j, (p + k - 1) as nat);
        }
    }
    lemma_pow2_pos(k);
    lemma_pow2_pos(p);
    lemma_pow2_adds(p, k);
    lemma_pow2_le(p + k, j);
    let dd = d * gap;
    assert(dd > 0) by (nonlinear_arith)
        requires
            dd == d * gap,
            d > 0,
            gap > 0,
    ;
    let q = n / dd;
    lemma_quotient_bounds(n, dd);
    assert(q < pow2(p)) by (nonlinear_arith)
        requires
            q * dd <= n,
            n < (t + 1) * d,
            t + 1 <= pow2(p) * gap,
            dd == d * gap,
            dd > 0,
            d > 0,
    ;
    let m = round_even(n, dd);
    assert(m * gap <= pow2(p) * gap) by (nonlinear_arith)
        requires
            m <= pow2(p),
    ;
}

/// `floor_root` is the largest integer whose square is not above `n`.
pub proof fn lemma_floor_root(n: nat)
    ensures
        floor_root(n) * floor_root(n) <= n < (floor_root(n) + 1) * (floor_root(n) + 1),
    decreases n,
{
    if n > 0 {
        let r = floor_root((n - 1) as nat);
        lemma_floor_root((n - 1) as nat);
        assert((r + 1 + 1) * (r + 1 + 1) == (r + 1) * (r + 1) + 2 * r + 3) by (nonlinear_arith);
    } else {
        assert(floor_root(0) == 0);
        assert(0nat * 0nat == 0 && (0nat + 1) * (0nat + 1) == 1) by (nonlinear_arith);
    }
}

/// No other integer than `floor_root(n)` is the largest whose square is not above `n`.
pub proof fn lemma_floor_root_unique(n: nat, r: nat)
    requires
        r * r <= n < (r + 1) * (r + 1),
    ensures
        floor_root(n) == r,
{
    lemma_floor_root(n);
    let f = floor_root(n);
    assert(f < r + 1) by (nonlinear_arith)
        requires
            f * f <= n,
            n < (r + 1) * (r + 1),
    ;
    assert(r < f + 1) by (nonlinear_arith)
        requires
            r * r <= n,
            n < (f + 1) * (f + 1),
    ;
}

/// The root of a quotient, rounded down, from bounds on the root of the dividend.
proof fn lemma_floor_root_of_quotient(n: nat, d: nat, h: nat)
    requires
        d > 0,
        (h * d) * (h * d) <= n < ((h + 1) * d) * ((h + 1) * d),
    ensures
        floor_root(n / (d * d)) == h,
{
    let dd = d * d;
    assert(dd > 0) by (nonlinear_arith)
        requires
            d > 0,
            dd == d * d,
    ;
    let q = n / dd;
    lemma_quotient_bounds(n, dd);
    assert((h * d) * (h * d) == (h * h) * dd) by (nonlinear_arith)
        requires
            dd == d * d,
    ;
    assert(((h + 1) * d) * ((h + 1) * d) == ((h + 1) * (h + 1)) * dd) by (nonlinear_arith)
        requires
            dd == d * d,
    ;
    assert(h * h < q + 1) by (nonlinear_arith)
        requires
            (h * h) * dd <= n,
            n < (q + 1) * dd,
            dd > 0,
    ;
    assert(q < (h + 1) * (h + 1)) by (nonlinear_arith)
        requires
            q * dd <= n,
            n < ((h + 1) * (h + 1)) * dd,
            dd > 0,
    ;
    lemma_floor_root_unique(q, h);
}

/// The root of a square is an integer, and rounds as such.
pub proof fn lemma_nearest_root_exact(r: nat, c: nat, p: nat)
    ensures
        nearest_root((r * pow2(c)) * (r * pow2(c)), p) == nearest_scaled(r, c as int, p),
{
    let root = r * pow2(c);
    let n = root * root;
    assert((root + 1) * (root + 1) == n + 2 * root + 1) by (nonlinear_arith)
        requires
            n == root * root,
    ;
    lemma_floor_root_unique(n, root);
    assert(root / 1 == root);
    let k = spacing(root, p);
    let gap = pow2(k);
    lemma_pow2_pos(k);
    let h = (2 * root) / gap;
    lemma_quotient_bounds(2 * root, gap);
    assert((h * gap) * (h * gap) <= 4 * n) by (nonlinear_arith)
        requires
            h * gap <= 2 * root,
            n == root * root,
    ;
    assert(4 * n < ((h + 1) * gap) * ((h + 1) * gap)) by (nonlinear_arith)
        requires
            2 * root < (h + 1) * gap,
            n == root * root,
    ;
    lemma_floor_root_of_quotient(4 * n, gap, h);
    assert(h * h * (gap * gap) == (h * gap) * (h * gap)) by (nonlinear_arith);
    assert(1 * gap == gap);
    if h * gap == 2 * root {
        assert((h * gap) * (h * gap) == 4 * n) by (nonlinear_arith)
            requires
                h * gap == 2 * root,
                n == root * root,
        ;
        assert(root * 2 == h * gap);
        lemma_round_even_ratio(root, gap, h, 2);
    } else {
        assert((h * gap) * (h * gap) < 4 * n) by (nonlinear_arith)
            requires
                h * gap < 2 * root,
                n == root * root,
        ;
        lemma_round_even_inexact(root, gap, h);
    }
}

/// A root that is no integer rounds as the middle of the interval that holds it.
pub proof fn lemma_nearest_root_sticky(n: nat, r: nat, c: nat, p: nat)
    requires
        p >= 1,
        r >= pow2(p),
        (r * pow2(c)) * (r * pow2(c)) < n < ((r + 1) * pow2(c)) * ((r + 1) * pow2(c)),
    ensures
        nearest_root(n, p) == nearest_scaled(2 * r + 1, c - 1, p),
{
    let u = pow2(c);
    let low = r * u;
    let high = (r + 1) * u;
    lemma_pow2_pos(c);
    // The root rounded down lies in the same interval.
    let t = floor_root(n);
    lemma_floor_root(n);
    assert(low < t + 1) by (nonlinear_arith)
        requires
            low * low < n,
            n < (t + 1) * (t + 1),
    ;
    assert(t < high) by (nonlinear_arith)
        requires
            n < high * high,
            t * t <= n,
    ;
    // So does the middle of the interval.
    let n2 = (2 * r + 1) * u;
    let d2 = pow2(1);
    assert(pow2(0) == 1 && pow2(1) == 2) by {
        vstd::arithmetic::power2::lemma2_to64();
    }
    assert(strictly_between(n2, d2, r, c, 0)) by (nonlinear_arith)
        requires
            n2 == (2 * r + 1) * u,
            d2 == 2,
            pow2(0) == 1,
            u == pow2(c),
            u > 0,
    {
        assert(r * u * d2 == 2 * r * u);
        assert(n2 * pow2(0) == 2 * r * u + u);
        assert((r + 1) * u * d2 == 2 * r * u + 2 * u);
    }
    let k2 = lemma_nearest_inside(n2, d2, r, c, 0, p);
    lemma_nearest_scaled(2 * r + 1, c, 1, p);
    let k = spacing(t, p);
    lemma_spacing_bounds(t, p);
    assert(k == k2) by {
        if k < k2 {
            let w = pow2((p + k2 - 1 - c) as nat);
            lemma_pow2_adds((p + k2 - 1 - c) as nat, c);
            lemma_pow2_le(p + k, (p + k2 - 1) as nat);
            assert(w * u <= r * u) by (nonlinear_arith)
                requires
                    w <= r,
            ;
        }
        if k2 < k {
            let w = pow2((p + k2 - c) as nat);
            lemma_pow2_adds((p + k2 - c) as nat, c);
            lemma_pow2_le((p + k2) as nat, (p + k - 1) as nat);
            assert((r + 1) * u <= w * u) by (nonlinear_arith)
                requires
                    r + 1 <= w,
            ;
        }
    }
    let gap = pow2(k);
    let v = pow2((k - 1 - c) as nat);
    let h = r / v;
    lemma_pow2_pos(k);
    lemma_pow2_pos((k - 1 - c) as nat);
    lemma_quotient_bounds(r, v);
    lemma_pow2_adds((k - 1 - c) as nat, c);
    lemma_pow2_unfold(k);
    assert(gap == 2 * (v * u));
    assert(h * gap <= 2 * low) by (nonlinear_arith)
        requires
            gap == 2 * (v * u),
            h * v <= r,
            low == r * u,
    ;
    assert((h + 1) * gap >= 2 * high) by (nonlinear_arith)
        requires
            gap == 2 * (v * u),
            r + 1 <= (h + 1) * v,
            high == (r + 1) * u,
    ;
    assert((h * gap) * (h * gap) < 4 * n) by (nonlinear_arith)
        requires
            h * gap <= 2 * low,
            low * low < n,
    ;
    assert(4 * n < ((h + 1) * gap) * ((h + 1) * gap)) by (nonlinear_arith)
        requires
            (h + 1) * gap >= 2 * high,
            n < high * high,
    ;
    lemma_floor_root_of_quotient(4 * n, gap, h);
    assert(h * h * (gap * gap) == (h * gap) * (h * gap)) by (nonlinear_arith);
}

/// `m` is a number of at most `p` binary digits.
pub open spec fn representable(m: nat, p: nat) -> bool {
    exists|a: nat, k: nat| a < pow2(p) && m == #[trigger] (a * pow2(k))
}

/// A number of at most `p` digits is a multiple of the gap at `t`, or lies below the binade
/// of `t`.
proof fn lemma_representable_on_grid(m: nat, p: nat, t: nat) -> (c: nat)
    requires
        p >= 1,
        representable(m, p),
    ensures
        m == c * pow2(spacing(t, p)) || (spacing(t, p) > 0 && m <= pow2(
            (p + spacing(t, p) - 1) as nat,
        )),
{
    let (a, j) = choose|a: nat, j: nat| a < pow2(p) && m == #[trigger] (a * pow2(j));
    let k = spacing(t, p);
    if j >= k {
        let c = a * pow2((j - k) as nat);
        lemma_pow2_adds((j - k) as nat, k);
        assert(m == c * pow2(k)) by (nonlinear_arith)
            requires
                m == a * pow2(j),
                c == a * pow2((j - k) as nat),
                pow2((j - k) as nat) * pow2(k) == pow2(j),
        ;
        c
    } else {
        lemma_pow2_adds(p, j);
        lemma_pow2_le(p + j, (p + k - 1) as nat);
        assert(m <= pow2(p + j)) by (nonlinear_arith)
            requires
                m == a * pow2(j),
                a < pow2(p),
                pow2(p) * pow2(j) == pow2(p + j),
        ;
        0
    }
}

/// The quotient and the gap that rounding `n / d` goes by.
proof fn lemma_nearest_grid(n: nat, d: nat, p: nat)
    requires
        p >= 1,
        d > 0,
    ensures
        ({
            let t = n / d;
            let k = spacing(t, p);
            let gap = pow2(k);
            let q = n / (d * gap);
            let low = (q * gap) * d;
            &&& gap > 0
            &&& low <= n < low + gap * d
            &&& k > 0 ==> pow2((p - 1) as nat) <= q
            &&& k > 0 ==> pow2((p + k - 1) as nat) == pow2((p - 1) as nat) * gap
            &&& nearest(n, d, p) == q * gap || nearest(n, d, p) == (q + 1) * gap
            &&& nearest(n, d, p) == q * gap ==> 2 * (n - low) <= gap * d
            &&& nearest(n, d, p) == (q + 1) * gap ==> 2 * (n - low) >= gap * d && n > low
        }),
{
    let t = n / d;
    let k = spacing(t, p);
    let gap = pow2(k);
    let dd = d * gap;
    lemma_pow2_pos(k);
    assert(dd > 0) by (nonlinear_arith)
        requires
            dd == d * gap,
            d > 0,
            gap > 0,
    ;
    let q = n / dd;
    let low = (q * gap) * d;
    lemma_quotient_bounds(n, dd);
    lemma_quotient_bounds(n, d);
    lemma_spacing_bounds(t, p);
    assert(low == q * dd) by (nonlinear_arith)
        requires
            low == (q * gap) * d,
            dd == d * gap,
    ;
    assert((q + 1) * dd == q * dd + dd) by (nonlinear_arith);
    assert(gap * d == dd) by (nonlinear_arith)
        requires
            dd == d * gap,
    ;
    if k > 0 {
        let w = pow2((p - 1) as nat);
        lemma_pow2_adds((p - 1) as nat, k);
        assert(w <= q) by (nonlinear_arith)
            requires
                n < (q + 1) * dd,
                w * gap <= t,
                t * d <= n,
                dd == d * gap,
                dd > 0,
                d > 0,
        ;
    }
    assert(q * gap != (q + 1) * gap) by (nonlinear_arith)
        requires
            gap > 0,
    ;
}

/// Rounding does not pass a number of at most `p` digits: it keeps the order.
pub proof fn lemma_nearest_keeps_order(n: nat, d: nat, p: nat, m: nat)
    requires
        p >= 1,
        d > 0,
        representable(m, p),
    ensures
        n <= m * d ==> nearest(n, d, p) <= m,
        n >= m * d ==> nearest(n, d, p) >= m,
{
    let t = n / d;
    let k = spacing(t, p);
    let gap = pow2(k);
    let q = n / (d * gap);
    lemma_nearest_grid(n, d, p);
    let c = lemma_representable_on_grid(m, p, t);
    assert((q + 1) * gap == q * gap + gap) by (nonlinear_arith);
    let low = (q * gap) * d;
    if m == c * gap {
        if n <= m * d {
            assert(q <= c) by (nonlinear_arith)
                requires
                    (q * gap) * d <= n,
                    n <= (c * gap) * d,
                    gap > 0,
                    d > 0,
            ;
            if q == c {
                assert(n == low);
            } else {
                assert((q + 1) * gap <= c * gap) by (nonlinear_arith)
                    requires
                        q < c,
                ;
            }
            assert(q * gap <= c * gap) by (nonlinear_arith)
                requires
                    q <= c,
            ;
        }
        if n >= m * d {
            assert(c < q + 1) by (nonlinear_arith)
                requires
                    n < (q * gap) * d + gap * d,
                    n >= (c * gap) * d,
                    gap > 0,
                    d > 0,
            ;
            assert(c * gap <= q * gap) by (nonlinear_arith)
                requires
                    c < q + 1,
            ;
        }
    } else {
        let w = pow2((p - 1) as nat);
        assert(m <= w * gap);
        assert(w * gap <= q * gap) by (nonlinear_arith)
            requires
                w <= q,
        ;
        if n <= m * d {
            assert(m * d <= (q * gap) * d) by (nonlinear_arith)
                requires
                    m <= q * gap,
            ;
            assert(m == q * gap) by (nonlinear_arith)
                requires
                    (q * gap) * d <= n,
                    n <= m * d,
                    m <= q * gap,
                    d > 0,
            ;
            assert(n == low);
        }
    }
}

/// What `nearest` returns has at most `p` digits.
pub proof fn lemma_nearest_representable(n: nat, d: nat, p: nat)
    requires
        p >= 1,
        d > 0,
    ensures
        representable(nearest(n, d, p), p),
{
    let t = n / d;
    let k = spacing(t, p);
    let gap = pow2(k);
    let dd = d * gap;
    lemma_pow2_pos(k);
    lemma_pow2_pos(p);
    lemma_pow2_adds(p, k);
    lemma_spacing_bounds(t, p);
    lemma_quotient_bounds(n, d);
    assert(dd > 0) by (nonlinear_arith)
        requires
            dd == d * gap,
            d > 0,
            gap > 0,
    ;
    lemma_quotient_bounds(n, dd);
    let q = n / dd;
    assert(q < pow2(p)) by (nonlinear_arith)
        requires
            q * dd <= n,
            n < (t + 1) * d,
            t + 1 <= pow2(p) * gap,
            dd == d * gap,
            dd > 0,
            d > 0,
    ;
    let m = round_even(n, dd);
    if m < pow2(p) {
        assert(representable(m * gap, p));
    } else {
        // The carry: one digit more at the next gap.
        lemma_pow2_unfold(k + 1);
        lemma_pow2_unfold(p);
        let a = pow2((p - 1) as nat);
        lemma_pow2_pos((p - 1) as nat);
        assert(m * gap == a * pow2(k + 1)) by (nonlinear_arith)
            requires
                m == 2 * a,
                pow2(k + 1) == 2 * gap,
        ;
        assert(representable(a * pow2(k + 1), p));
    }
}

/// Correct rounding: no number of at most `p` digits is closer to `n / d` than `nearest`.
/// Distances are multiplied by `d`.
pub proof fn nearest_is_nearest(n: nat, d: nat, p: nat, m: nat)
    requires
        p >= 1,
        d > 0,
        representable(m, p),
    ensures
        representable(nearest(n, d, p), p),
        abs(nearest(n, d, p) * d - n) <= abs(m * d - n),
{
    lemma_nearest_representable(n, d, p);
    lemma_nearest_keeps_order(n, d, p, m);
    lemma_nearest_grid(n, d, p);
    let t = n / d;
    let gap = pow2(spacing(t, p));
    let q = n / (d * gap);
    let low = (q * gap) * d;
    let r = nearest(n, d, p);
    let c = lemma_representable_on_grid(m, p, t);
    assert(((q + 1) * gap) * d == low + gap * d) by (nonlinear_arith)
        requires
            low == (q * gap) * d,
    ;
    if n <= m * d {
        assert(r * d <= m * d) by (nonlinear_arith)
            requires
                r <= m,
        ;
        if r == q * gap && n > low {
            // The next multiple of the gap is at least as far.
            assert(m * d >= low + gap * d) by {
                if m == c * gap {
                    assert(c >= q + 1) by (nonlinear_arith)
                        requires
                            (q * gap) * d < n,
                            n <= (c * gap) * d,
                            gap > 0,
                            d > 0,
                    ;
                    assert((c * gap) * d >= ((q + 1) * gap) * d) by (nonlinear_arith)
                        requires
                            c >= q + 1,
                    ;
                } else {
                    let w = pow2((p - 1) as nat);
                    assert(m * d <= (q * gap) * d) by (nonlinear_arith)
                        requires
                            m <= w * gap,
                            w <= q,
                    ;
                }
            }
        }
    } else {
        assert(r * d >= m * d) by (nonlinear_arith)
            requires
                r >= m,
        ;
        if r == (q + 1) * gap {
            // The multiple of the gap below is at least as far.
            assert(m * d <= low) by {
                if m == c * gap {
                    assert(c <= q) by (nonlinear_arith)
                        requires
                            (c * gap) * d < n,
                            n < (q * gap) * d + gap * d,
                            gap > 0,
                            d > 0,
                    ;
                    assert((c * gap) * d <= (q * gap) * d) by (nonlinear_arith)
                        requires
                            c <= q,
                    ;
                } else {
                    let w = pow2((p - 1) as nat);
                    assert(m * d <= (q * gap) * d) by (nonlinear_arith)
                        requires
                            m <= w * gap,
                            w <= q,
                    ;
                }
            }
        }
    }
}

/// A power of two is a number of any positive number of digits.
pub proof fn lemma_power_representable(k: nat, p: nat)
    requires
        p >= 1,
    ensures
        representable(pow2(k), p),
{
    lemma_pow2_pos((p - 1) as nat);
    lemma_pow2_unfold(p);
    assert(1 < pow2(p));
    assert(1 * pow2(k) == pow2(k));
}

/// The rounded root of a number that is not below the square of a power of two is not below
/// that power.
pub proof fn lemma_nearest_root_at_least(n: nat, p: nat, j: nat)
    requires
        p >= 1,
        pow2(j) * pow2(j) <= n,
    ensures
        nearest_root(n, p) >= pow2(j),
{
    let t = floor_root(n);
    let k = spacing(t, p);
    let gap = pow2(k);
    lemma_floor_root(n);
    lemma_spacing_bounds(t, p);
    lemma_pow2_pos(k);
    lemma_pow2_pos(j);
    // A whole number of gaps, not less than the power, whose square is not above n.
    let c: nat = if j >= k {
        pow2((j - k) as nat)
    } else {
        1
    };
    assert(c * gap >= pow2(j) && (c * gap) * (c * gap) <= n) by {
        if j >= k {
            lemma_pow2_adds((j - k) as nat, k);
        } else {
            lemma_pow2_le(j, k);
            lemma_pow2_le(k, (p + k - 1) as nat);
            assert(gap * gap <= t * t) by (nonlinear_arith)
                requires
                    gap <= t,
            ;
            assert(1 * gap == gap);
        }
    }
    let h = floor_root(4 * n / (gap * gap));
    let gg = gap * gap;
    assert(gg > 0) by (nonlinear_arith)
        requires
            gg == gap * gap,
            gap > 0,
    ;
    let q = 4 * n / gg;
    lemma_quotient_bounds(4 * n, gg);
    lemma_floor_root(q);
    assert((c * gap) * (c * gap) == (c * c) * gg) by (nonlinear_arith)
        requires
            gg == gap * gap,
    ;
    assert(4 * (c * c) < q + 1) by (nonlinear_arith)
        requires
            (c * c) * gg <= n,
            4 * n < (q + 1) * gg,
            gg > 0,
    ;
    assert(2 * c < h + 1) by (nonlinear_arith)
        requires
            4 * (c * c) <= q,
            q < (h + 1) * (h + 1),
    ;
    let m = round_root(n, gap);
    assert(m >= c);
    assert(m * gap >= c * gap) by (nonlinear_arith)
        requires
            m >= c,
    ;
}

/// A number of `p` digits that is at least two to the power of `p` fills its digits.
pub proof fn lemma_normalized(x: nat, p: nat) -> (a: nat)
    requires
        p >= 1,
        representable(x, p),
        x >= pow2(p),
    ensures
        spacing(x, p) > 0,
        x == a * pow2(spacing(x, p)),
        pow2((p - 1) as nat) <= a < pow2(p),
{
    let k = spacing(x, p);
    let g = pow2(k);
    lemma_spacing_bounds(x, p);
    lemma_pow2_pos(k);
    lemma_pow2_adds(p, k);
    lemma_pow2_adds((p - 1) as nat, k);
    let c = lemma_representable_on_grid(x, p, x);
    let w = pow2((p - 1) as nat);
    let a = if x == c * g {
        c
    } else {
        w
    };
    assert(x == a * g);
    assert(w <= a) by (nonlinear_arith)
        requires
            w * g <= a * g,
            g > 0,
    ;
    assert(a < pow2(p)) by (nonlinear_arith)
        requires
            a * g < pow2(p) * g,
            g > 0,
    ;
    a
}

/// The root of a rounded square, rounded again, is the number that was squared, as long as the
/// square does not come near the least positive number.
pub proof fn lemma_root_of_rounded_square(x: nat, e: nat, p: nat)
    requires
        p >= 2,
        representable(x, p),
        x >= pow2(p),
        x * x >= pow2(p) * pow2(e),
    ensures
        nearest_root(nearest(x * x, pow2(e), p) * pow2(e), p) == x,
{
    let u = pow2(e);
    let n = x * x;
    let m = nearest(n, u, p);
    let s = m * u;
    let a = lemma_normalized(x, p);
    let k = spacing(x, p);
    let g = pow2(k);
    let w = pow2((p - 1) as nat);
    lemma_pow2_pos(e);
    lemma_pow2_pos(k);
    lemma_pow2_pos((p - 1) as nat);
    lemma_pow2_unfold(p);
    // The square is rounded by less than x * g - g * g / 4.
    let t2 = n / u;
    let k2 = spacing(t2, p);
    let gap2 = pow2(k2);
    lemma_nearest_grid(n, u, p);
    lemma_quotient_bounds(n, u);
    assert(k2 > 0) by {
        lemma_spacing_bounds(t2, p);
        assert(pow2(p) <= t2) by (nonlinear_arith)
            requires
                n < (t2 + 1) * u,
                n >= pow2(p) * u,
                u > 0,
        ;
        if k2 == 0 {
            assert(t2 < pow2(p));
        }
    }
    let q2 = n / (u * gap2);
    let step = gap2 * u;
    assert(w * step <= n) by (nonlinear_arith)
        requires
            (q2 * gap2) * u <= n,
            w <= q2,
            step == gap2 * u,
    ;
    assert(((q2 + 1) * gap2) * u == (q2 * gap2) * u + step) by (nonlinear_arith)
        requires
            step == gap2 * u,
    ;
    assert(-step <= 2 * (s - n) <= step);
    // x = a * g with a < 2 * w, so step <= x * a * g / w, and a * x / w < 2 * x - g.
    assert(w * step <= (2 * w) * (x * g) - w * (g * g)) by (nonlinear_arith)
        requires
            w * step <= n,
            n == x * x,
            x == a * g,
            w <= a <= 2 * w - 1,
            g > 0,
    {
        let gg = g * g;
        assert(n == (a * a) * gg);
        assert((2 * w) * (x * g) == (2 * w * a) * gg);
        assert(a * a <= (2 * w - 1) * a);
        assert((2 * w - 1) * a == 2 * w * a - a);
        assert(a * a <= 2 * w * a - w);
        assert((a * a) * gg <= (2 * w * a - w) * gg);
        assert((2 * w * a - w) * gg == (2 * w * a) * gg - w * gg);
    }
    let xg = x * g;
    let gg = g * g;
    assert(step <= 2 * xg - gg) by (nonlinear_arith)
        requires
            w * step <= (2 * w) * xg - w * gg,
            w > 0,
    ;
    assert(gg > 0) by (nonlinear_arith)
        requires
            gg == g * g,
            g > 0,
    ;
    // Hence the root of s is closer to x than half a gap.
    let d1 = (2 * a - 1) * g;
    let d2 = (2 * a + 1) * g;
    assert(d1 * d1 == 4 * n - 4 * xg + gg) by (nonlinear_arith)
        requires
            d1 == (2 * a - 1) * g,
            x == a * g,
            n == x * x,
            xg == x * g,
            gg == g * g,
    ;
    assert(d2 * d2 == 4 * n + 4 * xg + gg) by (nonlinear_arith)
        requires
            d2 == (2 * a + 1) * g,
            x == a * g,
            n == x * x,
            xg == x * g,
            gg == g * g,
    ;
    assert(d1 * d1 < 4 * s < d2 * d2);
    // The root of s lies in the binade of x.
    let low = w * g;
    lemma_pow2_adds((p - 1) as nat, k);
    lemma_pow2_adds(p, k);
    assert(low * low <= s) by {
        let j = (p - 1 + k) as nat;
        lemma_pow2_adds(j, j);
        assert(low * low <= n) by (nonlinear_arith)
            requires
                n == x * x,
                x == a * g,
                w <= a,
                low == w * g,
        ;
        let top = pow2(p + k);
        assert(x < top) by {
            lemma_spacing_bounds(x, p);
        }
        lemma_pow2_adds(p + k, p + k);
        lemma_pow2_adds(p, e);
        assert(pow2(p + e) < pow2((p + k) + (p + k))) by (nonlinear_arith)
            requires
                x * x >= pow2(p + e),
                x < top,
                top * top == pow2((p + k) + (p + k)),
        ;
        assert(p + e < (p + k) + (p + k)) by {
            if p + e >= (p + k) + (p + k) {
                lemma_pow2_le((p + k) + (p + k), p + e);
            }
        }
        let r = (j + j - e) as nat;
        lemma_pow2_adds(r, e);
        lemma_power_representable(r, p);
        lemma_nearest_keeps_order(n, u, p, pow2(r));
        assert(m * u >= pow2(r) * u) by (nonlinear_arith)
            requires
                m >= pow2(r),
        ;
    }
    let t = floor_root(s);
    lemma_floor_root(s);
    assert(low < t + 1) by (nonlinear_arith)
        requires
            low * low <= s,
            s < (t + 1) * (t + 1),
    ;
    let high = (2 * w) * g;
    assert(d2 <= 2 * high) by (nonlinear_arith)
        requires
            d2 == (2 * a + 1) * g,
            2 * a + 1 <= 4 * w,
            high == (2 * w) * g,
            g > 0,
    {
        assert((2 * a + 1) * g <= (4 * w) * g);
        assert((4 * w) * g == 2 * ((2 * w) * g));
    }
    assert(2 * t < d2) by (nonlinear_arith)
        requires
            t * t <= s,
            4 * s < d2 * d2,
            d2 >= 0,
    {
        assert((2 * t) * (2 * t) < d2 * d2);
    }
    lemma_spacing(t, p, k);
    // And the nearest number of that binade is x.
    lemma_round_root_close(s, g, a);
}

/// A root that is closer than half to an integer rounds to it.
proof fn lemma_round_root_close(s: nat, g: nat, a: nat)
    requires
        a >= 1,
        g > 0,
        ((2 * a - 1) * g) * ((2 * a - 1) * g) < 4 * s < ((2 * a + 1) * g) * ((2 * a + 1) * g),
    ensures
        round_root(s, g) == a,
{
    let x = (2 * a) * g;
    if x * x <= 4 * s {
        let h = 2 * a;
        lemma_floor_root_of_quotient(4 * s, g, h);
    } else {
        let h = (2 * a - 1) as nat;
        lemma_floor_root_of_quotient(4 * s, g, h);
        assert(h * h * (g * g) == (h * g) * (h * g)) by (nonlinear_arith);
    }
}

/// A larger number does not round to a smaller integer.
pub proof fn lemma_round_even_monotone(n: nat, m: nat, d: nat)
    requires
        n <= m,
        d > 0,
    ensures
        round_even(n, d) <= round_even(m, d),
{
    lemma_quotient_bounds(n, d);
    lemma_quotient_bounds(m, d);
    let q = n / d;
    let r = m / d;
    assert(q <= r) by (nonlinear_arith)
        requires
            q * d <= n,
            m < (r + 1) * d,
            n <= m,
            d > 0,
    ;
}

/// A larger number does not round to a smaller one.
pub proof fn lemma_nearest_monotone(n: nat, m: nat, d: nat, p: nat)
    requires
        n <= m,
        p >= 1,
        d > 0,
    ensures
        nearest(n, d, p) <= nearest(m, d, p),
{
    let a = nearest(n, d, p);
    let b = nearest(m, d, p);
    lemma_nearest_representable(n, d, p);
    lemma_nearest_representable(m, d, p);
    lemma_nearest_keeps_order(n, d, p, b);
    lemma_nearest_keeps_order(m, d, p, a);
    nearest_is_nearest(n, d, p, b);
    nearest_is_nearest(m, d, p, a);
    if a > b {
        assert(a * d > b * d) by (nonlinear_arith)
            requires
                a > b,
                d > 0,
        ;
    }
}

/// Twice a number that is large, or whole, rounds to twice as much.
pub proof fn lemma_nearest_doubles(n: nat, d: nat, p: nat)
    requires
        p >= 1,
        d > 0,
        d == 1 || pow2(p) * d <= 2 * n,
    ensures
        nearest(2 * n, d, p) == 2 * nearest(n, d, p),
{
    let t = n / d;
    let t2 = (2 * n) / d;
    lemma_quotient_bounds(n, d);
    lemma_quotient_bounds(2 * n, d);
    if t2 < pow2(p) {
        assert(d == 1) by {
            if d != 1 {
                assert(pow2(p) < t2 + 1) by (nonlinear_arith)
                    requires
                        pow2(p) * d <= 2 * n,
                        2 * n < (t2 + 1) * d,
                        d > 0,
                ;
            }
        }
        assert(pow2(0) == 1) by {
            vstd::arithmetic::power2::lemma2_to64();
        }
        lemma_nearest_exact(n, 0, p);
        lemma_nearest_exact(2 * n, 0, p);
    } else {
        assert(t2 / 2 == t) by {
            assert(2 * t < t2 + 1) by (nonlinear_arith)
                requires
                    t * d <= n,
                    2 * n < (t2 + 1) * d,
                    d > 0,
            ;
            assert(t2 < 2 * t + 2) by (nonlinear_arith)
                requires
                    t2 * d <= 2 * n,
                    n < (t + 1) * d,
                    d > 0,
            ;
        }
        let k = spacing(t, p);
        let gap = pow2(k);
        lemma_pow2_unfold(k + 1);
        lemma_pow2_pos(k);
        let e = d * gap;
        assert(e > 0 && d * (2 * gap) == 2 * e) by (nonlinear_arith)
            requires
                e == d * gap,
                d > 0,
                gap > 0,
        ;
        assert((2 * n) * e == n * (2 * e)) by (nonlinear_arith);
        lemma_round_even_ratio(2 * n, 2 * e, n, e);
        let q = round_even(n, e);
        assert(q * (2 * gap) == 2 * (q * gap)) by (nonlinear_arith);
    }
}

/// Four times a large number has twice the rounded root.
pub proof fn lemma_nearest_root_doubles(n: nat, p: nat)
    requires
        p >= 1,
        pow2(p) * pow2(p) <= n,
    ensures
        nearest_root(4 * n, p) == 2 * nearest_root(n, p),
{
    let r = floor_root(n);
    let r2 = floor_root(4 * n);
    lemma_floor_root(n);
    lemma_floor_root(4 * n);
    assert(2 * r < r2 + 1) by (nonlinear_arith)
        requires
            r * r <= n,
            4 * n < (r2 + 1) * (r2 + 1),
    ;
    assert(r2 < 2 * (r + 1)) by (nonlinear_arith)
        requires
            n < (r + 1) * (r + 1),
            r2 * r2 <= 4 * n,
    ;
    assert(pow2(p) < r + 1) by (nonlinear_arith)
        requires
            pow2(p) * pow2(p) <= n,
            n < (r + 1) * (r + 1),
    ;
    assert(r2 / 2 == r);
    let k = spacing(r, p);
    let gap = pow2(k);
    lemma_pow2_unfold(k + 1);
    lemma_pow2_pos(k);
    assert(spacing(r2, p) == k + 1);
    let gg = gap * gap;
    assert(gg > 0) by (nonlinear_arith)
        requires
            gg == gap * gap,
            gap > 0,
    ;
    assert((2 * gap) * (2 * gap) == 4 * gg) by (nonlinear_arith)
        requires
            gg == gap * gap,
    ;
    assert((16 * n) * gg == (4 * n) * (4 * gg)) by (nonlinear_arith);
    lemma_round_even_ratio(16 * n, 4 * gg, 4 * n, gg);
    let h = floor_root(4 * n / gg);
    assert((h * h * (4 * gg) == 16 * n) == (h * h * gg == 4 * n)) by (nonlinear_arith);
    assert(round_root(4 * n, 2 * gap) == round_root(n, gap));
    let q = round_root(n, gap);
    assert(q * (2 * gap) == 2 * (q * gap)) by (nonlinear_arith);
}

/// An integer is rounded by at most one half.
pub proof fn lemma_round_even_error(n: nat, d: nat)
    requires
        d > 0,
    ensures
        2 * abs(round_even(n, d) * d - n) <= d,
        2 * abs(round_even(n, d) * d - n) == d ==> round_even(n, d) % 2 == 0,
{
    lemma_quotient_bounds(n, d);
    let q = n / d;
    let r = (n % d) as int;
    assert((q + 1) * d == q * d + d) by (nonlinear_arith);
    assert(r == n - q * d) by {
        vstd::arithmetic::div_mod::lemma_fundamental_div_mod(n as int, d as int);
        assert(d * q == q * d) by (nonlinear_arith);
    }
}

/// A number is rounded by at most half a unit, or by at most its last binary digit's half.
pub proof fn lemma_nearest_error(n: nat, d: nat, p: nat)
    requires
        p >= 1,
        d > 0,
    ensures
        2 * abs(nearest(n, d, p) * d - n) <= d || pow2(p) * abs(nearest(n, d, p) * d - n) <= n,
{
    let t = n / d;
    let k = spacing(t, p);
    let gap = pow2(k);
    lemma_pow2_pos(k);
    lemma_spacing_bounds(t, p);
    lemma_quotient_bounds(n, d);
    let dd = d * gap;
    assert(dd > 0) by (nonlinear_arith)
        requires
            dd == d * gap,
            d > 0,
            gap > 0,
    ;
    lemma_round_even_error(n, dd);
    let q = round_even(n, dd);
    let e = abs(q * dd - n);
    assert((q * gap) * d == q * dd) by (nonlinear_arith)
        requires
            dd == d * gap,
    ;
    if k == 0 {
        assert(pow2(0) == 1) by {
            vstd::arithmetic::power2::lemma2_to64();
        }
        assert(dd == d) by (nonlinear_arith)
            requires
                dd == d * gap,
                gap == 1,
        ;
    } else {
        let half = pow2((k - 1) as nat);
        lemma_pow2_unfold(k);
        lemma_pow2_adds(p, (k - 1) as nat);
        assert(pow2(p) * e <= n) by (nonlinear_arith)
            requires
                2 * e <= dd,
                dd == d * gap,
                gap == 2 * half,
                pow2(p) * half <= t,
                t * d <= n,
        {
            assert(e <= d * half);
            assert(pow2(p) * e <= pow2(p) * (d * half));
            assert(pow2(p) * (d * half) == (pow2(p) * half) * d);
            assert((pow2(p) * half) * d <= t * d);
        }
    }
}

/// A whole number of units is rounded by at most its last binary digit's half.
pub proof fn lemma_nearest_whole_error(n: nat, p: nat)
    requires
        p >= 1,
    ensures
        pow2(p) * abs(nearest(n, 1, p) - n) <= n,
{
    lemma_nearest_error(n, 1, p);
    let e = abs(nearest(n, 1, p) * 1 - n);
    if 2 * e <= 1 {
        assert(e == 0);
        assert(pow2(p) * 0 == 0) by (nonlinear_arith);
    }
}

/// Of two numbers of `p` digits that are equally near, the one with an even last digit is taken: it
/// is an even multiple of their distance.
pub proof fn nearest_breaks_ties_to_even(n: nat, d: nat, p: nat, m: nat)
    requires
        p >= 1,
        d > 0,
        representable(m, p),
        m != nearest(n, d, p),
        abs(m * d - n) == abs(nearest(n, d, p) * d - n),
    ensures
        nearest(n, d, p) % (2 * abs(nearest(n, d, p) - m)) == 0,
{
    let r = nearest(n, d, p);
    let t = n / d;
    let k = spacing(t, p);
    let gap = pow2(k);
    let dd = d * gap;
    lemma_pow2_pos(k);
    assert(dd > 0) by (nonlinear_arith)
        requires
            dd == d * gap,
            d > 0,
            gap > 0,
    ;
    let q = round_even(n, dd);
    lemma_round_even_error(n, dd);
    assert((q * gap) * d == q * dd) by (nonlinear_arith)
        requires
            dd == d * gap,
    ;
    let e = abs(q * dd - n);
    lemma_nearest_grid(n, d, p);
    let low = n / dd;
    let c = lemma_representable_on_grid(m, p, t);
    assert((low + 1) * gap == low * gap + gap) by (nonlinear_arith);
    // Both lie at the same distance on either side, so they are at most one gap apart.
    assert(m * d != r * d) by (nonlinear_arith)
        requires
            m != r,
            d > 0,
    ;
    let apart = abs(r - m);
    assert(apart * d == 2 * e) by (nonlinear_arith)
        requires
            m * d - n == n - r * d,
            e == abs(r * d - n),
            apart == abs(r - m),
            d > 0,
    {
        assert((m - r) * d == 2 * (n - r * d));
        if m >= r {
            assert(apart * d == (m - r) * d);
        } else {
            assert(apart * d == (r - m) * d);
            assert((r - m) * d == -((m - r) * d));
        }
    }
    assert(apart <= gap) by (nonlinear_arith)
        requires
            apart * d == 2 * e,
            2 * e <= dd,
            dd == d * gap,
            d > 0,
    ;
    assert(apart == gap) by {
        if m == c * gap {
            assert(apart >= gap) by (nonlinear_arith)
                requires
                    apart == abs(q * gap - c * gap),
                    q * gap != c * gap,
                    gap > 0,
            {
                if q > c {
                    assert((q - c) * gap >= gap);
                    assert((q - c) * gap == q * gap - c * gap);
                } else {
                    assert(c > q);
                    assert((c - q) * gap >= gap);
                    assert((c - q) * gap == c * gap - q * gap);
                }
            }
        } else {
            let w = pow2((p - 1) as nat);
            assert(m <= low * gap) by (nonlinear_arith)
                requires
                    m <= w * gap,
                    w <= low,
            ;
            if r == low * gap {
                assert(m * d < r * d) by (nonlinear_arith)
                    requires
                        m < r,
                        d > 0,
                ;
            }
        }
    }
    assert(2 * e == dd) by (nonlinear_arith)
        requires
            apart * d == 2 * e,
            apart == gap,
            dd == d * gap,
    ;
    let half = q / 2;
    assert(r == half * (2 * gap)) by (nonlinear_arith)
        requires
            r == q * gap,
            q == 2 * half,
    ;
    vstd::arithmetic::div_mod::lemma_mod_multiples_basic(half as int, 2 * gap as int);
}

/// Twice a root lies within one gap of twice the rounded root.
proof fn lemma_root_brackets(n: nat, p: nat) -> (r: (nat, nat))
    requires
        p >= 1,
    ensures
        ({
            let gap = pow2(spacing(floor_root(n), p));
            let x = nearest_root(n, p);
            let k = spacing(floor_root(n), p);
            &&& gap > 0
            &&& x == round_root(n, gap) * gap
            &&& r.0 == 2 * x - gap || (x == 0 && r.0 == 0)
            &&& r.1 == 2 * x + gap
            &&& r.0 * r.0 <= 4 * n <= r.1 * r.1
            &&& k > 0 ==> pow2((p + k - 1) as nat) <= floor_root(n)
        }),
{
    let f = floor_root(n);
    lemma_floor_root(n);
    let k = spacing(f, p);
    let gap = pow2(k);
    lemma_pow2_pos(k);
    lemma_spacing_bounds(f, p);
    let gg = gap * gap;
    assert(gg > 0) by (nonlinear_arith)
        requires
            gg == gap * gap,
            gap > 0,
    ;
    let h = floor_root(4 * n / gg);
    lemma_floor_root(4 * n / gg);
    lemma_quotient_bounds(4 * n, gg);
    let t = 4 * n / gg;
    let q = round_root(n, gap);
    let r = q * gap;
    let x = h * gap;
    let y = (h + 1) * gap;
    assert(x * x <= 4 * n < y * y) by (nonlinear_arith)
        requires
            h * h <= t < (h + 1) * (h + 1),
            t * gg <= 4 * n < (t + 1) * gg,
            gg == gap * gap,
            x == h * gap,
            y == (h + 1) * gap,
    {
        assert(x * x == (h * h) * gg);
        assert(y * y == ((h + 1) * (h + 1)) * gg);
        assert((h * h) * gg <= t * gg);
        assert((t + 1) * gg <= ((h + 1) * (h + 1)) * gg);
    }
    assert(h * h * gg == x * x) by (nonlinear_arith)
        requires
            gg == gap * gap,
            x == h * gap,
    ;
    assert(h <= 2 * q <= h + 1 || (h * h * gg == 4 * n && 2 * q == h - 1));
    // Twice the root lies within one gap of twice the result.
    let lo = if q == 0 {
        0
    } else {
        (2 * q - 1) * gap
    };
    let hi = (2 * q + 1) * gap;
    assert(y == x + gap && hi == 2 * r + gap) by (nonlinear_arith)
        requires
            x == h * gap,
            y == (h + 1) * gap,
            hi == (2 * q + 1) * gap,
            r == q * gap,
    ;
    assert(lo * lo <= 4 * n <= hi * hi) by {
        assert(lo <= x) by (nonlinear_arith)
            requires
                lo == if q == 0 {
                    0
                } else {
                    (2 * q - 1) * gap
                },
                2 * q <= h + 1,
                x == h * gap,
                gap > 0,
        ;
        assert(lo * lo <= x * x) by (nonlinear_arith)
            requires
                0 <= lo <= x,
        ;
        if h <= 2 * q {
            assert(y <= hi) by (nonlinear_arith)
                requires
                    h <= 2 * q,
                    y == (h + 1) * gap,
                    hi == (2 * q + 1) * gap,
            ;
            assert(y * y <= hi * hi) by (nonlinear_arith)
                requires
                    0 <= y <= hi,
            ;
        } else {
            assert(x == hi) by (nonlinear_arith)
                requires
                    h == 2 * q + 1,
                    x == h * gap,
                    hi == (2 * q + 1) * gap,
            ;
        }
    }
    assert(q == 0 ==> r == 0) by (nonlinear_arith)
        requires
            r == q * gap,
    ;
    assert(q > 0 ==> lo == 2 * r - gap) by (nonlinear_arith)
        requires
            r == q * gap,
            q > 0 ==> lo == (2 * q - 1) * gap,
    ;
    (lo as nat, hi)
}

/// The root is rounded by at most half of its last binary digit.
pub proof fn lemma_nearest_root_error(n: nat, p: nat)
    requires
        p >= 5,
        pow2(p) * pow2(p) <= n,
    ensures
        pow2((p - 2) as nat) * abs(nearest_root(n, p) * nearest_root(n, p) - n) <= n,
{
    let f = floor_root(n);
    lemma_floor_root(n);
    let k = spacing(f, p);
    let gap = pow2(k);
    assert(pow2(p) <= f) by (nonlinear_arith)
        requires
            pow2(p) * pow2(p) <= n,
            n < (f + 1) * (f + 1),
    ;
    let (lo, hi) = lemma_root_brackets(n, p);
    let r = nearest_root(n, p);
    // The gap is small against the root.
    let w = pow2((p - 2) as nat);
    assert(w >= 8) by {
        lemma_pow2_le(3, (p - 2) as nat);
        vstd::arithmetic::power2::lemma2_to64();
    }
    lemma_pow2_unfold((p - 1) as nat);
    assert(2 * w * gap <= f) by {
        if k == 0 {
            lemma_pow2_unfold(p);
            assert(pow2(0) == 1) by {
                vstd::arithmetic::power2::lemma2_to64();
            }
        } else {
            lemma_pow2_adds((p - 1) as nat, k);
        }
    }
    assert(w * abs(r * r - n) <= n) by {
        lemma_root_error_bound(n, f, r, gap, w, lo, hi);
    }
}

/// What bounds on twice a root say of the square of the rounded root.
proof fn lemma_root_error_bound(n: nat, f: nat, r: nat, gap: nat, w: nat, lo: nat, hi: nat)
    requires
        f * f <= n < (f + 1) * (f + 1),
        2 * w * gap <= f,
        w >= 8,
        gap > 0,
        hi == 2 * r + gap,
        lo == 2 * r - gap || (r == 0 && lo == 0),
        lo * lo <= 4 * n <= hi * hi,
    ensures
        w * abs(r * r - n) <= n,
{
    let wg = w * gap;
    assert(2 * wg <= f && gap <= wg) by (nonlinear_arith)
        requires
            2 * w * gap <= f,
            wg == w * gap,
            w >= 8,
    ;
    // hi reaches twice the root, so r is not small.
    assert(2 * f <= hi) by (nonlinear_arith)
        requires
            f * f <= n,
            4 * n <= hi * hi,
    ;
    assert(r >= 1);
    assert(4 * (r * r) - 4 * n <= 4 * (r * gap)) by (nonlinear_arith)
        requires
            lo == 2 * r - gap,
            lo * lo <= 4 * n,
    {
        assert(lo * lo == 4 * (r * r) - 4 * (r * gap) + gap * gap);
        assert(gap * gap >= 0);
    }
    assert(4 * n - 4 * (r * r) <= 4 * (r * gap) + gap * gap) by (nonlinear_arith)
        requires
            hi == 2 * r + gap,
            4 * n <= hi * hi,
    {
        assert(hi * hi == 4 * (r * r) + 4 * (r * gap) + gap * gap);
    }
    assert(gap * gap <= r * gap) by (nonlinear_arith)
        requires
            gap <= r,
    ;
    let e = abs(r * r - n);
    assert(4 * e <= 5 * (r * gap));
    // lo is at most twice the root, so r is at most a little more than the root.
    assert(w * (r * gap) == r * wg) by (nonlinear_arith)
        requires
            wg == w * gap,
    ;
    assert(2 * (r * wg) <= r * f) by (nonlinear_arith)
        requires
            2 * wg <= f,
    ;
    assert(8 * (w * e) <= 5 * (r * f)) by (nonlinear_arith)
        requires
            4 * e <= 5 * (r * gap),
            w * (r * gap) == r * wg,
            2 * (r * wg) <= r * f,
    {
        assert(4 * (w * e) <= 5 * (w * (r * gap)));
    }
    assert(lo < 2 * (f + 1)) by (nonlinear_arith)
        requires
            lo * lo <= 4 * n,
            n < (f + 1) * (f + 1),
    ;
    assert(8 * gap <= wg) by (nonlinear_arith)
        requires
            wg == w * gap,
            w >= 8,
    ;
    assert(5 * r <= 8 * f);
    assert(5 * (r * f) <= 8 * (f * f)) by (nonlinear_arith)
        requires
            5 * r <= 8 * f,
    ;
}

/// A root is rounded to the nearest number of `p` digits: the root lies on the same side of the
/// middle between the result and any other such number as the result does.
pub proof fn nearest_root_is_nearest(n: nat, p: nat, m: nat)
    requires
        p >= 1,
        representable(m, p),
    ensures
        m > nearest_root(n, p) ==> 4 * n <= (nearest_root(n, p) + m) * (nearest_root(n, p) + m),
        m < nearest_root(n, p) ==> 4 * n >= (nearest_root(n, p) + m) * (nearest_root(n, p) + m),
{
    let f = floor_root(n);
    lemma_floor_root(n);
    let k = spacing(f, p);
    let gap = pow2(k);
    let (lo, hi) = lemma_root_brackets(n, p);
    let r = nearest_root(n, p);
    let q = round_root(n, gap);
    let c = lemma_representable_on_grid(m, p, f);
    let s = r + m;
    if m == c * gap {
        if m > r {
            assert(m >= r + gap) by (nonlinear_arith)
                requires
                    m == c * gap,
                    r == q * gap,
                    m > r,
                    gap > 0,
            {
                assert(c > q);
                assert(c * gap >= (q + 1) * gap);
            }
            assert(hi * hi <= s * s) by (nonlinear_arith)
                requires
                    hi <= s,
            ;
        }
        if m < r {
            assert(m + gap <= r) by (nonlinear_arith)
                requires
                    m == c * gap,
                    r == q * gap,
                    m < r,
                    gap > 0,
            {
                assert(c < q);
                assert((c + 1) * gap <= q * gap);
            }
            assert(s * s <= lo * lo) by (nonlinear_arith)
                requires
                    s <= lo,
            ;
        }
    } else {
        // The other is at most the least number of the binade, and the root is not below it.
        let least = pow2((p + k - 1) as nat);
        assert(m <= least <= f);
        assert(2 * f <= hi) by (nonlinear_arith)
            requires
                f * f <= n,
                4 * n <= hi * hi,
        ;
        let w = pow2((p - 1) as nat);
        lemma_pow2_adds((p - 1) as nat, k);
        assert(least <= r) by (nonlinear_arith)
            requires
                least == w * gap,
                2 * least <= 2 * r + gap,
                r == q * gap,
                gap > 0,
        {
            if q < w {
                assert((q + 1) * gap <= w * gap);
            }
        }
        if m < r {
            if r == least {
                assert(s * s <= 4 * n) by (nonlinear_arith)
                    requires
                        s <= 2 * f,
                        f * f <= n,
                ;
            } else {
                assert(r >= least + gap) by (nonlinear_arith)
                    requires
                        least == w * gap,
                        r == q * gap,
                        r > least,
                        gap > 0,
                {
                    assert(q > w);
                    assert(q * gap >= (w + 1) * gap);
                }
                assert(s * s <= lo * lo) by (nonlinear_arith)
                    requires
                        s <= lo,
                ;
            }
        }
    }
}

} // verus!
