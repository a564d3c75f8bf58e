//! What a crop is, in exact numbers: the place that each of its pixels comes from, and the blend of
//! the image there. Rounding changes both by no more than is said here.
use crate::alignment::{
    blended, border_is_black, coordinate, cropped, in_reach, lemma_few, lemma_pixel_offset,
    lemma_share, lemma_sum_within, lemma_weight_error, packed_rgb, sampled, weight, within,
};
use crate::arithmetic::lemma_nearest_zero;
use crate::encoding::{binary32, Binary32};
use crate::number::{nearest, round_even, Number};
use crate::rounding::{
    lemma_nearest_error, lemma_nearest_exact, lemma_nearest_keeps_order, lemma_nearest_ratio,
    lemma_nearest_whole_error, lemma_power_representable, lemma_round_even_error, representable,
};
use crate::whole::{lemma_integer, lemma_product, lemma_sum, whole};
use vstd::arithmetic::power2::{lemma_pow2_adds, lemma_pow2_pos, lemma_pow2_unfold, pow2};
use vstd::math::abs;
use vstd::prelude::*;

verus! {

/// One channel of a pixel; black outside the image.
pub open spec fn pixel(
    image: Seq<u8>,
    width: nat,
    height: nat,
    px: int,
    py: int,
    channel: int,
) -> int {
    if 0 <= px < width && 0 <= py < height {
        image[(py * width + px) * 3 + channel] as int
    } else {
        0
    }
}

/// The exact bilinear blend at the place `(u, v)`, both counted in parts of a pixel of which `unit`
/// make one. The blend is counted in parts of which `unit * unit` make one.
pub open spec fn bilinear(
    image: Seq<u8>,
    width: nat,
    height: nat,
    u: int,
    v: int,
    channel: int,
    unit: int,
) -> int {
    let (x, y) = (u / unit, v / unit);
    let (fx, fy) = (u % unit, v % unit);
    ((unit - fx) * (unit - fy)) * pixel(image, width, height, x, y, channel) + (fx * (unit - fy))
        * pixel(image, width, height, x + 1, y, channel) + ((unit - fx) * fy) * pixel(
        image,
        width,
        height,
        x,
        y + 1,
        channel,
    ) + (fx * fy) * pixel(image, width, height, x + 1, y + 1, channel)
}

/// A share of a pixel is its product with both weights, up to rounding.
proof fn lemma_share_error(p: u8, wx: Number, wy: Number, ox: int, oy: int, e: int)
    requires
        within(wx, binary32().one()),
        within(wy, binary32().one()),
        binary32().one() == 0x100_0000 * e,
        e >= 1,
        0 <= ox <= binary32().one(),
        0 <= oy <= binary32().one(),
        abs(wx->Finite_magnitude - ox) <= 2 * e,
        abs(wy->Finite_magnitude - oy) <= 2 * e,
    ensures
        ({
            let f = binary32();
            let share = f.product(f.product(f.integer(p as nat), wx), wy);
            &&& within(share, 255 * f.one())
            &&& abs(share->Finite_magnitude * f.one() - (ox * oy) * p) <= 1600 * (e * f.one())
        }),
{
    let f = binary32();
    let unit = f.one();
    let (x, y) = (wx->Finite_magnitude, wy->Finite_magnitude);
    lemma_share(p, p, wx, wy);
    lemma_integer(p as nat);
    assert(pow2(24) == 0x100_0000) by {
        vstd::arithmetic::power2::lemma2_to64();
    }
    let px = p as nat * x;
    let q1 = nearest((p as nat * unit) * x, unit, 24);
    assert(((p as nat * unit) * x) * 1 == px * unit) by (nonlinear_arith)
        requires
            px == p as nat * x,
    ;
    lemma_nearest_ratio((p as nat * unit) * x, unit, px, 1, 24);
    lemma_nearest_whole_error(px, 24);
    assert(px <= 255 * unit) by (nonlinear_arith)
        requires
            px == p as nat * x,
            x <= unit,
            p <= 255,
    ;
    assert(abs(q1 - px) <= 255 * e);
    let q2 = nearest(q1 * y, unit, 24);
    lemma_nearest_error(q1 * y, unit, 24);
    let eu = e * unit;
    assert(q1 <= 256 * unit);
    assert(q1 * y <= 256 * (unit * unit)) by (nonlinear_arith)
        requires
            q1 <= 256 * unit,
            y <= unit,
    ;
    assert(unit * unit == 0x100_0000 * eu) by (nonlinear_arith)
        requires
            unit == 0x100_0000 * e,
            eu == e * unit,
    ;
    assert(unit <= eu) by (nonlinear_arith)
        requires
            eu == e * unit,
            e >= 1,
    ;
    assert(abs(q2 * unit - q1 * y) <= 256 * eu);
    assert(abs(q1 * y - px * y) <= 255 * eu) by (nonlinear_arith)
        requires
            abs(q1 - px) <= 255 * e,
            0 <= y <= unit,
            eu == e * unit,
            e >= 1,
    {
        let d = q1 - px;
        assert(q1 * y - px * y == d * y);
        if d >= 0 {
            assert(d * y <= (255 * e) * unit);
            assert(d * y >= 0);
        } else {
            assert((-d) * y <= (255 * e) * unit);
            assert((-d) * y >= 0);
            assert((-d) * y == -(d * y));
        }
    }
    let xy = x * y;
    let oo = ox * oy;
    assert(abs(xy - oo) <= 4 * eu) by (nonlinear_arith)
        requires
            abs(x - ox) <= 2 * e,
            abs(y - oy) <= 2 * e,
            0 <= y <= unit,
            0 <= ox <= unit,
            xy == x * y,
            oo == ox * oy,
            eu == e * unit,
            e >= 1,
    {
        let a = x - ox;
        let b = y - oy;
        assert(xy - oo == a * y + ox * b);
        assert(-(2 * eu) <= a * y <= 2 * eu) by {
            if a >= 0 {
                assert(a * y <= (2 * e) * unit);
            } else {
                assert((-a) * y <= (2 * e) * unit);
            }
        }
        assert(-(2 * eu) <= ox * b <= 2 * eu) by {
            if b >= 0 {
                assert(ox * b <= unit * (2 * e));
            } else {
                assert(ox * (-b) <= unit * (2 * e));
            }
        }
    }
    assert(px * y == xy * p && abs(xy * p - oo * p) <= 1020 * eu) by (nonlinear_arith)
        requires
            px == p as nat * x,
            xy == x * y,
            abs(xy - oo) <= 4 * eu,
            p <= 255,
    {
        let d = xy - oo;
        assert(xy * p - oo * p == d * p);
        if d >= 0 {
            assert(d * p <= (4 * eu) * 255);
        } else {
            assert((-d) * p <= (4 * eu) * 255);
        }
    }
}

/// Exact weight of the nearer pixel (`step` 0) or the farther one along one axis.
spec fn exact_weight(u: int, step: int, unit: int) -> int {
    if step == 0 {
        unit - u % unit
    } else {
        u % unit
    }
}

/// The exact blend of the first pixels alone.
spec fn partly(
    image: Seq<u8>,
    width: nat,
    height: nat,
    u: int,
    v: int,
    channel: int,
    unit: int,
    taps: nat,
) -> int
    decreases taps,
{
    if taps == 0 {
        0
    } else {
        let dx = (taps - 1) % 2;
        let dy = (taps - 1) / 2;
        partly(image, width, height, u, v, channel, unit, (taps - 1) as nat) + (exact_weight(
            u,
            dx,
            unit,
        ) * exact_weight(v, dy, unit)) * pixel(
            image,
            width,
            height,
            u / unit + dx,
            v / unit + dy,
            channel,
        )
    }
}

proof fn lemma_partly(
    image: Seq<u8>,
    width: nat,
    height: nat,
    u: int,
    v: int,
    channel: int,
    unit: int,
)
    ensures
        partly(image, width, height, u, v, channel, unit, 4) == bilinear(
            image,
            width,
            height,
            u,
            v,
            channel,
            unit,
        ),
{
    reveal_with_fuel(partly, 5);
}

/// The blend of pixels is the exact one up to rounding.
#[verifier::rlimit(40)]
proof fn lemma_blend_error(
    image: Seq<u8>,
    width: nat,
    height: nat,
    cx: Number,
    cy: Number,
    channel: int,
    taps: nat,
    e: int,
)
    requires
        packed_rgb(image, width, height),
        cx is Finite,
        cy is Finite,
        0 <= channel < 3,
        taps <= 4,
        binary32().one() == 0x100_0000 * e,
        e >= 1,
    ensures
        ({
            let unit = binary32().one() as int;
            let b = blended(image, width, height, cx, cy, channel, taps);
            &&& within(b, (taps * 255) * binary32().one())
            &&& abs(
                b->Finite_magnitude * unit - partly(
                    image,
                    width,
                    height,
                    cx.units(),
                    cy.units(),
                    channel,
                    unit,
                    taps,
                ),
            ) <= 2620 * taps * (e * unit)
        }),
    decreases taps,
{
    let f = binary32();
    let unit = f.one() as int;
    let eu = e * unit;
    if taps == 0 {
        assert(0 * unit == 0) by (nonlinear_arith);
        assert(2620 * 0 * eu == 0) by (nonlinear_arith);
        assert((0 * 255) * f.one() == 0) by (nonlinear_arith);
    } else {
        let before = (taps - 1) as nat;
        lemma_blend_error(image, width, height, cx, cy, channel, before, e);
        let (u, v) = (cx.units(), cy.units());
        let dx = (taps - 1) % 2;
        let dy = (taps - 1) / 2;
        let px = f.floor_integer(cx) + dx;
        let py = f.floor_integer(cy) + dy;
        let b0 = blended(image, width, height, cx, cy, channel, before);
        let b1 = blended(image, width, height, cx, cy, channel, taps);
        let t0 = partly(image, width, height, u, v, channel, unit, before);
        let t1 = partly(image, width, height, u, v, channel, unit, taps);
        let (ox, oy) = (exact_weight(u, dx, unit), exact_weight(v, dy, unit));
        let oo = ox * oy;
        assert(2620 * taps * eu == 2620 * before * eu + 2620 * eu && eu >= 0) by (nonlinear_arith)
            requires
                before == taps - 1,
                eu == e * unit,
                e >= 1,
                unit >= 0,
        ;
        assert((before * 255) * unit <= (taps * 255) * unit) by (nonlinear_arith)
            requires
                before <= taps,
                unit >= 0,
        ;
        if 0 <= px < width && 0 <= py < height {
            lemma_pixel_offset(px, py, width as int, height as int, channel);
            let p = image[(py * width + px) * 3 + channel];
            let (wx, wy) = (weight(cx, dx), weight(cy, dy));
            lemma_weight_error(cx, dx);
            lemma_weight_error(cy, dy);
            vstd::arithmetic::div_mod::lemma_mod_bound(u, unit);
            vstd::arithmetic::div_mod::lemma_mod_bound(v, unit);
            lemma_share_error(p, wx, wy, ox, oy, e);
            let share = f.product(f.product(f.integer(p as nat), wx), wy);
            lemma_sum_within(b0, b0, share, share, before);
            lemma_added_error(b0, share, e);
            assert(t1 == t0 + oo * p);
            let (m0, m1, s) = (
                b0->Finite_magnitude as int,
                b1->Finite_magnitude as int,
                share->Finite_magnitude as int,
            );
            assert(abs(m1 - (m0 + s)) <= 1020 * e);
            assert(abs(m1 * unit - (m0 * unit + s * unit)) <= 1020 * eu) by (nonlinear_arith)
                requires
                    abs(m1 - (m0 + s)) <= 1020 * e,
                    eu == e * unit,
                    unit >= 0,
            {
                let d = m1 - (m0 + s);
                assert(d * unit == m1 * unit - (m0 * unit + s * unit));
                if d >= 0 {
                    assert(d * unit <= (1020 * e) * unit);
                } else {
                    assert((-d) * unit <= (1020 * e) * unit);
                }
            }
        } else {
            assert(oo * 0 == 0) by (nonlinear_arith);
        }
    }
}

/// One more share is added up to rounding.
proof fn lemma_added_error(a: Number, b: Number, e: int)
    requires
        within(a, 765 * binary32().one()),
        within(b, 255 * binary32().one()),
        binary32().one() == 0x100_0000 * e,
        e >= 1,
        binary32().sum(a, b) is Finite,
    ensures
        abs(
            binary32().sum(a, b)->Finite_magnitude - (a->Finite_magnitude + b->Finite_magnitude),
        ) <= 1020 * e,
{
    assert(pow2(24) == 0x100_0000) by {
        vstd::arithmetic::power2::lemma2_to64();
    }
    lemma_nearest_whole_error(a->Finite_magnitude + b->Finite_magnitude, 24);
}

/// The exact blend lies between the least and the greatest of its pixels.
proof fn lemma_bilinear_between(
    image: Seq<u8>,
    width: nat,
    height: nat,
    u: int,
    v: int,
    channel: int,
    unit: int,
    low: int,
    high: int,
)
    requires
        unit > 0,
        ({
            let (x, y) = (u / unit, v / unit);
            &&& low <= pixel(image, width, height, x, y, channel) <= high
            &&& low <= pixel(image, width, height, x + 1, y, channel) <= high
            &&& low <= pixel(image, width, height, x, y + 1, channel) <= high
            &&& low <= pixel(image, width, height, x + 1, y + 1, channel) <= high
        }),
    ensures
        low * (unit * unit) <= bilinear(image, width, height, u, v, channel, unit) <= high * (unit
            * unit),
{
    vstd::arithmetic::div_mod::lemma_mod_bound(u, unit);
    vstd::arithmetic::div_mod::lemma_mod_bound(v, unit);
    let (x, y) = (u / unit, v / unit);
    let (fx, fy) = (u % unit, v % unit);
    let (gx, gy) = (unit - fx, unit - fy);
    let (a, b, c, d) = (gx * gy, fx * gy, gx * fy, fx * fy);
    assert(a >= 0 && b >= 0 && c >= 0 && d >= 0 && a + b + c + d == unit * unit) by (nonlinear_arith)
        requires
            gx == unit - fx,
            gy == unit - fy,
            0 <= fx < unit,
            0 <= fy < unit,
            a == gx * gy,
            b == fx * gy,
            c == gx * fy,
            d == fx * fy,
    {
        assert(a + b == unit * gy);
        assert(c + d == unit * fy);
    }
    let p = pixel(image, width, height, x, y, channel);
    let q = pixel(image, width, height, x + 1, y, channel);
    let r = pixel(image, width, height, x, y + 1, channel);
    let s = pixel(image, width, height, x + 1, y + 1, channel);
    assert(low * (a + b + c + d) <= a * p + b * q + c * r + d * s <= high * (a + b + c + d))
        by (nonlinear_arith)
        requires
            a >= 0,
            b >= 0,
            c >= 0,
            d >= 0,
            low <= p <= high,
            low <= q <= high,
            low <= r <= high,
            low <= s <= high,
    {
        assert(low * a <= a * p <= high * a);
        assert(low * b <= b * q <= high * b);
        assert(low * c <= c * r <= high * c);
        assert(low * d <= d * s <= high * d);
        assert(low * (a + b + c + d) == low * a + low * b + low * c + low * d);
        assert(high * (a + b + c + d) == high * a + high * b + high * c + high * d);
    }
}

/// Whether a place is within reach of an image, in exact numbers.
proof fn lemma_reach(c: Number, extent: nat)
    requires
        c is Finite,
        extent < 0x100_0000,
    ensures
        in_reach(c, extent) <==> -pow2(149) < c.units() < extent * pow2(149),
{
    lemma_integer(extent);
    lemma_pow2_pos(149);
}

/// A sample is the bilinear blend of the four pixels around its place, black outside the image,
/// rounded to the nearest byte: it is no farther from the exact blend than one half and a
/// thousandth. Sizes from two to the power of 24 on have no encoding of their own, so the law ends
/// there.
#[verifier::rlimit(40)]
pub proof fn samples_are_bilinear(
    image: Seq<u8>,
    width: nat,
    height: nat,
    cx: Number,
    cy: Number,
    channel: int,
)
    requires
        width * height * 3 == image.len(),
        0 < width < 0x100_0000,
        0 < height < 0x100_0000,
        cx is Finite,
        cy is Finite,
        0 <= channel < 3,
    ensures
        ({
            let unit = pow2(149) as int;
            1024 * abs(
                sampled(image, width, height, cx, cy, channel) * (unit * unit) - bilinear(
                    image,
                    width,
                    height,
                    cx.units(),
                    cy.units(),
                    channel,
                    unit,
                ),
            ) <= 513 * (unit * unit)
        }),
{
    let f = binary32();
    let unit = f.one() as int;
    let e = pow2(125) as int;
    lemma_pow2_pos(149);
    lemma_pow2_pos(125);
    lemma_pow2_adds(24, 125);
    assert(pow2(24) == 0x100_0000) by {
        vstd::arithmetic::power2::lemma2_to64();
    }
    lemma_reach(cx, width);
    lemma_reach(cy, height);
    let (u, v) = (cx.units(), cy.units());
    let exact = bilinear(image, width, height, u, v, channel, unit);
    let uu = unit * unit;
    let eu = e * unit;
    assert(uu == 0x100_0000 * eu && uu > 0 && eu > 0) by (nonlinear_arith)
        requires
            uu == unit * unit,
            eu == e * unit,
            unit == 0x100_0000 * e,
            e > 0,
    ;
    if in_reach(cx, width) && in_reach(cy, height) {
        let b = blended(image, width, height, cx, cy, channel, 4);
        lemma_blend_error(image, width, height, cx, cy, channel, 4, e);
        lemma_partly(image, width, height, u, v, channel, unit);
        lemma_bilinear_between(image, width, height, u, v, channel, unit, 0, 255);
        let m = b->Finite_magnitude;
        assert(2620 * 4nat * eu == 10480 * eu);
        assert(abs(m * unit - exact) <= 10480 * eu);
        lemma_round_even_error(m, f.one());
        let i = round_even(m, f.one()) as int;
        assert(m * unit <= 255 * uu + 10480 * eu);
        assert(4 * m <= 1021 * unit) by (nonlinear_arith)
            requires
                m * unit <= 255 * uu + 10480 * eu,
                uu == unit * unit,
                uu == 0x100_0000 * eu,
                unit > 0,
        ;
        assert(i < 256) by (nonlinear_arith)
            requires
                2 * abs(i * unit - m) <= unit,
                4 * m <= 1021 * unit,
                unit > 0,
        ;
        assert(2 * abs(i * uu - m * unit) <= uu) by (nonlinear_arith)
            requires
                2 * abs(i * unit - m) <= unit,
                uu == unit * unit,
                unit > 0,
        {
            let d = i * unit - m;
            assert(d * unit == i * uu - m * unit);
            if d >= 0 {
                assert((2 * d) * unit <= unit * unit);
            } else {
                assert((2 * (-d)) * unit <= unit * unit);
            }
        }
        assert(sampled(image, width, height, cx, cy, channel) == i);
    } else {
        lemma_blank(image, width, height, u, v, channel, unit);
        assert(0 * uu == 0) by (nonlinear_arith);
    }
}

/// The exact blend is black from one pixel outside the image on.
proof fn lemma_blank(
    image: Seq<u8>,
    width: nat,
    height: nat,
    u: int,
    v: int,
    channel: int,
    unit: int,
)
    requires
        unit > 0,
        u <= -unit || u >= width * unit || v <= -unit || v >= height * unit,
    ensures
        bilinear(image, width, height, u, v, channel, unit) == 0,
{
    lemma_outside(u, width as int, unit);
    lemma_outside(v, height as int, unit);
    let (x, y) = (u / unit, v / unit);
    let (fx, fy) = (u % unit, v % unit);
    let p = pixel(image, width, height, x, y, channel);
    let q = pixel(image, width, height, x + 1, y, channel);
    let r = pixel(image, width, height, x, y + 1, channel);
    let s = pixel(image, width, height, x + 1, y + 1, channel);
    assert(((unit - fx) * (unit - fy)) * p == 0 && (fx * (unit - fy)) * q == 0 && ((unit - fx) * fy)
        * r == 0 && (fx * fy) * s == 0) by (nonlinear_arith)
        requires
            p == 0,
            q == 0 || fx == 0,
            r == 0 || fy == 0,
            s == 0 || fx == 0 || fy == 0,
    ;
}

/// A place outside has no pixel at its floor, and none after it unless it is one pixel outside.
proof fn lemma_outside(u: int, extent: int, unit: int)
    requires
        unit > 0,
        extent >= 0,
    ensures
        u <= -unit ==> u / unit < 0 && (u / unit + 1 < 0 || u % unit == 0),
        u >= extent * unit ==> u / unit >= extent,
{
    vstd::arithmetic::div_mod::lemma_fundamental_div_mod(u, unit);
    vstd::arithmetic::div_mod::lemma_mod_bound(u, unit);
    let q = u / unit;
    let r = u % unit;
    if u <= -unit {
        assert(q < 0 && (q + 1 < 0 || r == 0)) by (nonlinear_arith)
            requires
                u == unit * q + r,
                0 <= r < unit,
                u <= -unit,
        {
            if q >= 0 {
                assert(unit * q >= 0);
            }
            if q == -1 {
                assert(unit * q == -unit);
            }
        }
    }
    if u >= extent * unit {
        assert(q >= extent) by (nonlinear_arith)
            requires
                u == unit * q + r,
                0 <= r < unit,
                u >= extent * unit,
        ;
    }
}

/// A sample lies between the least and the greatest of the four pixels around its place. In
/// particular an image of one colour has that colour at every place inside it.
pub proof fn samples_lie_between_their_pixels(
    image: Seq<u8>,
    width: nat,
    height: nat,
    cx: Number,
    cy: Number,
    channel: int,
    low: int,
    high: int,
)
    requires
        width * height * 3 == image.len(),
        0 < width < 0x100_0000,
        0 < height < 0x100_0000,
        cx is Finite,
        cy is Finite,
        0 <= channel < 3,
        ({
            let (x, y) = (cx.units() / pow2(149) as int, cy.units() / pow2(149) as int);
            &&& low <= pixel(image, width, height, x, y, channel) <= high
            &&& low <= pixel(image, width, height, x + 1, y, channel) <= high
            &&& low <= pixel(image, width, height, x, y + 1, channel) <= high
            &&& low <= pixel(image, width, height, x + 1, y + 1, channel) <= high
        }),
    ensures
        low <= sampled(image, width, height, cx, cy, channel) <= high,
{
    let unit = pow2(149) as int;
    lemma_pow2_pos(149);
    let uu = unit * unit;
    assert(uu > 0) by (nonlinear_arith)
        requires
            uu == unit * unit,
            unit > 0,
    ;
    samples_are_bilinear(image, width, height, cx, cy, channel);
    lemma_bilinear_between(
        image,
        width,
        height,
        cx.units(),
        cy.units(),
        channel,
        unit,
        low,
        high,
    );
    let s = sampled(image, width, height, cx, cy, channel) as int;
    let exact = bilinear(image, width, height, cx.units(), cy.units(), channel, unit);
    assert(low <= s <= high) by (nonlinear_arith)
        requires
            1024 * abs(s * uu - exact) <= 513 * uu,
            low * uu <= exact <= high * uu,
            uu > 0,
    ;
}

/// The exact place that one row of a transform sends the pixel `(x, y)` of the crop to.
pub open spec fn exact_place(row: [Binary32; 3], x: nat, y: nat) -> int {
    row@[0]@.units() * x + row@[1]@.units() * y + row@[2]@.units()
}

/// The sum of the sizes of what an exact place is made of.
pub open spec fn place_size(row: [Binary32; 3], x: nat, y: nat) -> nat {
    abs(row@[0]@.units()) * x + abs(row@[1]@.units()) * y + abs(row@[2]@.units())
}

/// The place `u` is the exact one up to a two-millionth of what it is made of.
pub open spec fn is_place(row: [Binary32; 3], x: nat, y: nat, u: int) -> bool {
    0x20_0000 * abs(u - exact_place(row, x, y)) <= place_size(row, x, y)
}

pub open spec fn all_numbers(row: [Binary32; 3]) -> bool {
    row@[0]@ is Finite && row@[1]@ is Finite && row@[2]@ is Finite
}

/// A sum is exact up to rounding.
proof fn lemma_sum_error(a: Number, b: Number)
    requires
        a is Finite,
        b is Finite,
        abs(a.units() + b.units()) <= pow2(276),
    ensures
        ({
            let s = binary32().sum(a, b);
            &&& s is Finite
            &&& 0x100_0000 * abs(s.units() - (a.units() + b.units())) <= abs(
                a.units() + b.units(),
            )
        }),
{
    assert(pow2(24) == 0x100_0000) by {
        vstd::arithmetic::power2::lemma2_to64();
    }
    let n = abs(a.units() + b.units());
    lemma_nearest_whole_error(n, 24);
    lemma_power_representable(276, 24);
    lemma_nearest_keeps_order(n, 1, 24, pow2(276));
    lemma_pow2_unfold(277);
    lemma_pow2_pos(276);
}

/// A product with a small whole number is exact up to rounding.
proof fn lemma_multiple_error(a: Number, x: nat)
    requires
        a is Finite,
        x < 0x100_0000,
        abs(a.units()) * x <= pow2(276),
    ensures
        ({
            let p = binary32().product(a, binary32().integer(x));
            &&& p is Finite
            &&& 0x100_0000 * abs(p.units() - a.units() * x) <= abs(a.units()) * x
        }),
{
    assert(pow2(24) == 0x100_0000) by {
        vstd::arithmetic::power2::lemma2_to64();
    }
    let f = binary32();
    let unit = f.one();
    let m = a->Finite_magnitude;
    lemma_integer(x);
    lemma_pow2_pos(149);
    let n = m * x;
    assert((m * (x * unit)) * 1 == n * unit) by (nonlinear_arith)
        requires
            n == m * x,
    ;
    lemma_nearest_ratio(m * (x * unit), unit, n, 1, 24);
    lemma_nearest_whole_error(n, 24);
    lemma_power_representable(276, 24);
    lemma_nearest_keeps_order(n, 1, 24, pow2(276));
    lemma_pow2_unfold(277);
    lemma_pow2_pos(276);
    assert((-(m as int)) * x == -(m * x)) by (nonlinear_arith);
}

/// What the rounded products and their sum say of the rounded place.
proof fn lemma_place_error(p: Number, q: Number, c: Number, m: int, n: int)
    requires
        p is Finite,
        q is Finite,
        c is Finite,
        0x100_0000 * abs(p.units() - m) <= abs(m),
        0x100_0000 * abs(q.units() - n) <= abs(n),
        abs(m) + abs(n) + abs(c.units()) <= pow2(275),
    ensures
        ({
            let r = binary32().sum(binary32().sum(p, q), c);
            &&& r is Finite
            &&& 0x20_0000 * abs(r.units() - (m + n + c.units())) <= abs(m) + abs(n) + abs(
                c.units(),
            )
        }),
{
    lemma_pow2_unfold(276);
    lemma_first_sum(m, n, p.units(), q.units());
    lemma_sum_error(p, q);
    let s = binary32().sum(p, q);
    lemma_second_sum(m, n, p.units(), q.units(), s.units());
    lemma_sum_error(s, c);
    let r = binary32().sum(s, c);
    lemma_third_sum(m, n, c.units(), s.units(), r.units());
}

/// A pixel of the crop comes from the place that the transform sends it to, up to rounding.
pub proof fn places_are_affine(row: [Binary32; 3], x: nat, y: nat)
    requires
        all_numbers(row),
        x < 112,
        y < 112,
        place_size(row, x, y) <= pow2(275),
    ensures
        coordinate(row, x, y) is Finite,
        is_place(row, x, y, coordinate(row, x, y).units()),
{
    let f = binary32();
    let (a, b, c) = (row@[0]@, row@[1]@, row@[2]@);
    let (m, n) = (a.units() * x, b.units() * y);
    assert(abs(m) == abs(a.units()) * x && abs(n) == abs(b.units()) * y) by (nonlinear_arith)
        requires
            m == a.units() * x,
            n == b.units() * y,
    ;
    lemma_pow2_unfold(276);
    lemma_multiple_error(a, x);
    lemma_multiple_error(b, y);
    lemma_place_error(f.product(a, f.integer(x)), f.product(b, f.integer(y)), c, m, n);
}

proof fn lemma_third_sum(m: int, n: int, t: int, s: int, r: int)
    requires
        0x100_0000 * abs(s - (m + n)) <= 3 * (abs(m) + abs(n)),
        abs(s) <= 2 * (abs(m) + abs(n)),
        0x100_0000 * abs(r - (s + t)) <= abs(s + t),
    ensures
        0x20_0000 * abs(r - (m + n + t)) <= abs(m) + abs(n) + abs(t),
{
}

proof fn lemma_first_sum(m: int, n: int, p: int, q: int)
    requires
        0x100_0000 * abs(p - m) <= abs(m),
        0x100_0000 * abs(q - n) <= abs(n),
    ensures
        abs(p + q) <= 2 * (abs(m) + abs(n)),
        0x100_0000 * abs((p + q) - (m + n)) <= abs(m) + abs(n),
{
}

proof fn lemma_second_sum(m: int, n: int, p: int, q: int, s: int)
    requires
        0x100_0000 * abs((p + q) - (m + n)) <= abs(m) + abs(n),
        0x100_0000 * abs(s - (p + q)) <= abs(p + q),
        abs(p + q) <= 2 * (abs(m) + abs(n)),
    ensures
        0x100_0000 * abs(s - (m + n)) <= 3 * (abs(m) + abs(n)),
        abs(s) <= 2 * (abs(m) + abs(n)),
{
}

/// The byte of a crop for one channel of one pixel.
proof fn lemma_crop_byte(
    image: Seq<u8>,
    width: nat,
    height: nat,
    inverse: [[Binary32; 3]; 2],
    x: nat,
    y: nat,
    channel: int,
)
    requires
        x < 112,
        y < 112,
        0 <= channel < 3,
    ensures
        cropped(image, width, height, inverse).len() == 37632,
        cropped(image, width, height, inverse)[(y * 112 + x) * 3 + channel] == sampled(
            image,
            width,
            height,
            coordinate(inverse@[0], x, y),
            coordinate(inverse@[1], x, y),
            channel,
        ),
{
    let i = (y * 112 + x) * 3 + channel;
    assert(i / 3 == y * 112 + x && i % 3 == channel);
    assert((i / 3) % 112 == x && (i / 3) / 112 == y);
    assert(0 <= i < 37632);
}

/// Each byte of a crop is the bilinear blend of the image at the place that the transform sends its
/// pixel to, black outside the image, rounded to the nearest byte: up to the rounding of the place,
/// and to one half and a thousandth of a byte.
#[verifier::rlimit(40)]
pub proof fn crops_are_bilinear(
    image: Seq<u8>,
    width: nat,
    height: nat,
    inverse: [[Binary32; 3]; 2],
    x: nat,
    y: nat,
    channel: int,
)
    requires
        width * height * 3 == image.len(),
        0 < width < 0x100_0000,
        0 < height < 0x100_0000,
        x < 112,
        y < 112,
        0 <= channel < 3,
        all_numbers(inverse@[0]),
        all_numbers(inverse@[1]),
        place_size(inverse@[0], x, y) <= pow2(275),
        place_size(inverse@[1], x, y) <= pow2(275),
    ensures
        cropped(image, width, height, inverse).len() == 37632,
        exists|u: int, v: int|
            {
                let unit = pow2(149) as int;
                let byte = cropped(image, width, height, inverse)[(y * 112 + x) * 3 + channel];
                &&& #[trigger] is_place(inverse@[0], x, y, u)
                &&& #[trigger] is_place(inverse@[1], x, y, v)
                &&& 1024 * abs(
                    byte * (unit * unit) - bilinear(
                        image,
                        width,
                        height,
                        u,
                        v,
                        channel,
                        unit,
                    ),
                ) <= 513 * (unit * unit)
            },
{
    places_are_affine(inverse@[0], x, y);
    places_are_affine(inverse@[1], x, y);
    let (cx, cy) = (coordinate(inverse@[0], x, y), coordinate(inverse@[1], x, y));
    samples_are_bilinear(image, width, height, cx, cy, channel);
    lemma_crop_byte(image, width, height, inverse, x, y, channel);
    assert(is_place(inverse@[0], x, y, cx.units()) && is_place(inverse@[1], x, y, cy.units()));
}

/// A crop by a transform that is not made of numbers alone is black.
pub proof fn crops_without_a_place_are_black(
    image: Seq<u8>,
    width: nat,
    height: nat,
    inverse: [[Binary32; 3]; 2],
    i: int,
)
    requires
        !all_numbers(inverse@[0]) || !all_numbers(inverse@[1]),
        0 <= i < 37632,
    ensures
        cropped(image, width, height, inverse)[i] == 0,
{
    let x = ((i / 3) % 112) as nat;
    let y = ((i / 3) / 112) as nat;
    lemma_integer(x);
    lemma_integer(y);
    let (cx, cy) = (coordinate(inverse@[0], x, y), coordinate(inverse@[1], x, y));
    assert(!cx.is_finite() || !cy.is_finite());
    border_is_black(image, width, height, cx, cy, i % 3);
}

/// A few times a power of two is not rounded.
proof fn lemma_few_exact(n: nat, k: nat)
    requires
        n < 0x100_0000,
    ensures
        nearest(n * pow2(k), 1, 24) == n * pow2(k),
        representable(n * pow2(k), 24),
{
    assert(pow2(24) == 0x100_0000) by {
        vstd::arithmetic::power2::lemma2_to64();
    }
    lemma_nearest_exact(n, k, 24);
    assert(n < pow2(24) && n * pow2(k) == n * pow2(k));
}

/// The powers of two that places in 256ths of a pixel go by.
proof fn lemma_parts()
    ensures
        pow2(149) == 256 * pow2(141),
        pow2(149) == 0x1_0000 * pow2(133),
        pow2(141) == 256 * pow2(133),
        pow2(141) * pow2(141) == pow2(133) * pow2(149),
        pow2(133) > 0,
{
    lemma_pow2_adds(8, 141);
    lemma_pow2_adds(16, 133);
    lemma_pow2_adds(8, 133);
    lemma_pow2_adds(141, 141);
    lemma_pow2_adds(133, 149);
    lemma_pow2_pos(133);
    vstd::arithmetic::power2::lemma2_to64();
}

/// A share with weights in 256ths is exact.
proof fn lemma_exact_share(p: u8, wx: Number, wy: Number, a: nat, b: nat)
    requires
        a <= 256,
        b <= 256,
        wx == (Number::Finite { negative: false, magnitude: a * pow2(141) }),
        wy == (Number::Finite { negative: false, magnitude: b * pow2(141) }),
    ensures
        binary32().product(binary32().product(binary32().integer(p as nat), wx), wy) == (
        Number::Finite { negative: false, magnitude: (p as nat * (a * b)) * pow2(133) }),
        p as nat * (a * b) <= 255 * (a * b),
        a * b <= 0x1_0000,
{
    let f = binary32();
    let unit = f.one();
    let (k, j) = (pow2(141), pow2(133));
    lemma_parts();
    lemma_integer(p as nat);
    let pa = p as nat * a;
    let ab = a * b;
    let pab = p as nat * ab;
    assert(pa <= 65280 && ab <= 0x1_0000 && pab <= 255 * ab && pab < 0x100_0000)
        by (nonlinear_arith)
        requires
            pa == p as nat * a,
            ab == a * b,
            pab == p as nat * ab,
            p <= 255,
            a <= 256,
            b <= 256,
    ;
    assert(((p as nat * unit) * (a * k)) * 1 == (pa * k) * unit) by (nonlinear_arith)
        requires
            pa == p as nat * a,
    ;
    lemma_nearest_ratio((p as nat * unit) * (a * k), unit, pa * k, 1, 24);
    lemma_few_exact(pa, 141);
    lemma_few(65280);
    lemma_pow2_pos(141);
    assert(pa * k <= 65280 * unit && pab * j <= 65280 * unit) by (nonlinear_arith)
        requires
            pa <= 65280,
            pab < 0x100_0000,
            unit == 256 * k,
            unit == 0x1_0000 * j,
    ;
    assert(((pa * k) * (b * k)) * 1 == (pab * j) * unit) by (nonlinear_arith)
        requires
            pa == p as nat * a,
            pab == p as nat * ab,
            ab == a * b,
            k * k == j * unit,
    ;
    lemma_nearest_ratio((pa * k) * (b * k), unit, pab * j, 1, 24);
    lemma_few_exact(pab, 133);
    assert((p as nat * unit) == p as nat * unit);
    assert(f.product(f.integer(p as nat), wx) == (Number::Finite {
        negative: false,
        magnitude: pa * k,
    }));
}

/// Weight of the nearer or the farther pixel, in 256ths.
spec fn part(i: int, step: int) -> int {
    if step == 0 {
        256 - i
    } else {
        i
    }
}

/// The sum of the weights of the first pixels.
spec fn area(i: int, j: int, taps: nat) -> int
    decreases taps,
{
    if taps == 0 {
        0
    } else {
        area(i, j, (taps - 1) as nat) + part(i, (taps - 1) % 2) * part(j, (taps - 1) / 2)
    }
}

proof fn lemma_area(i: int, j: int, taps: nat)
    requires
        0 <= i < 256,
        0 <= j < 256,
        taps <= 4,
    ensures
        0 <= area(i, j, taps) <= 0x1_0000,
{
    reveal_with_fuel(area, 5);
    let (a, b, c, d) = ((256 - i) * (256 - j), i * (256 - j), (256 - i) * j, i * j);
    assert(a >= 0 && b >= 0 && c >= 0 && d >= 0 && a + b + c + d == 0x1_0000) by (nonlinear_arith)
        requires
            0 <= i < 256,
            0 <= j < 256,
            a == (256 - i) * (256 - j),
            b == i * (256 - j),
            c == (256 - i) * j,
            d == i * j,
    ;
}

/// At places in whole 256ths of a pixel nothing is rounded but the byte.
#[verifier::rlimit(40)]
proof fn lemma_exact_blend(
    image: Seq<u8>,
    width: nat,
    height: nat,
    cx: Number,
    cy: Number,
    channel: int,
    taps: nat,
    i: int,
    j: int,
) -> (t: nat)
    requires
        packed_rgb(image, width, height),
        cx is Finite,
        cy is Finite,
        0 <= channel < 3,
        taps <= 4,
        0 <= i < 256,
        0 <= j < 256,
        cx.units() % (pow2(149) as int) == i * pow2(141),
        cy.units() % (pow2(149) as int) == j * pow2(141),
    ensures
        blended(image, width, height, cx, cy, channel, taps) == (Number::Finite {
            negative: false,
            magnitude: t * pow2(133),
        }),
        t * (pow2(141) * pow2(141)) == partly(
            image,
            width,
            height,
            cx.units(),
            cy.units(),
            channel,
            pow2(149) as int,
            taps,
        ),
        t <= 255 * area(i, j, taps),
    decreases taps,
{
    let f = binary32();
    let unit = pow2(149) as int;
    let (k, g) = (pow2(141), pow2(133));
    let kk = k * k;
    lemma_parts();
    lemma_area(i, j, taps);
    if taps == 0 {
        assert(0 * g == 0 && 0 * kk == 0) by (nonlinear_arith);
        0
    } else {
        let before = (taps - 1) as nat;
        lemma_area(i, j, before);
        let t = lemma_exact_blend(image, width, height, cx, cy, channel, before, i, j);
        let (u, v) = (cx.units(), cy.units());
        let dx = (taps - 1) % 2;
        let dy = (taps - 1) / 2;
        let px = f.floor_integer(cx) + dx;
        let py = f.floor_integer(cy) + dy;
        let (a, b) = (part(i, dx) as nat, part(j, dy) as nat);
        assert(area(i, j, taps) == area(i, j, before) + a * b);
        assert(a * b >= 0) by (nonlinear_arith);
        assert(exact_weight(u, dx, unit) == a * k && exact_weight(v, dy, unit) == b * k) by {
            assert((256 - i) * k == 256 * k - i * k && (256 - j) * k == 256 * k - j * k)
                by (nonlinear_arith);
        }
        let oo = (a * k) * (b * k);
        if 0 <= px < width && 0 <= py < height {
            lemma_pixel_offset(px, py, width as int, height as int, channel);
            let p = image[(py * width + px) * 3 + channel];
            lemma_part_weight(cx, dx, i);
            lemma_part_weight(cy, dy, j);
            lemma_exact_share(p, weight(cx, dx), weight(cy, dy), a, b);
            let pab = p as nat * (a * b);
            let n = t + pab;
            assert(n * g == t * g + pab * g) by (nonlinear_arith)
                requires
                    n == t + pab,
            ;
            assert(n <= 255 * area(i, j, taps));
            lemma_few_exact(n, 133);
            lemma_few(65280);
            assert(n * g <= 65280 * unit) by (nonlinear_arith)
                requires
                    n < 0x100_0000,
                    unit == 0x1_0000 * g,
            ;
            lemma_nearest_zero(1, 24);
            assert(n * kk == t * kk + oo * p) by (nonlinear_arith)
                requires
                    n == t + pab,
                    pab == p as nat * (a * b),
                    oo == (a * k) * (b * k),
                    kk == k * k,
            ;
            n
        } else {
            assert(oo * 0 == 0) by (nonlinear_arith);
            t
        }
    }
}

/// The weights at a place in 256ths.
proof fn lemma_part_weight(c: Number, step: int, i: int)
    requires
        c is Finite,
        0 <= i < 256,
        0 <= step < 2,
        c.units() % (pow2(149) as int) == i * pow2(141),
    ensures
        weight(c, step) == (Number::Finite {
            negative: false,
            magnitude: part(i, step) as nat * pow2(141),
        }),
{
    lemma_parts();
    lemma_weight_error(c, step);
    lemma_few_exact(i as nat, 141);
    lemma_few_exact((256 - i) as nat, 141);
    let k = pow2(141);
    assert((256 - i) * k == 256 * k - i * k) by (nonlinear_arith);
}

/// At places in whole 256ths of a pixel a sample is the byte nearest to the exact blend, and the
/// even one of two that are equally near.
#[verifier::rlimit(40)]
pub proof fn samples_at_256ths_are_exact(
    image: Seq<u8>,
    width: nat,
    height: nat,
    cx: Number,
    cy: Number,
    channel: int,
)
    requires
        width * height * 3 == image.len(),
        0 < width < 0x100_0000,
        0 < height < 0x100_0000,
        cx is Finite,
        cy is Finite,
        0 <= channel < 3,
        cx.units() % (pow2(141) as int) == 0,
        cy.units() % (pow2(141) as int) == 0,
    ensures
        ({
            let unit = pow2(149) as int;
            let s = sampled(image, width, height, cx, cy, channel);
            let exact = bilinear(
                image,
                width,
                height,
                cx.units(),
                cy.units(),
                channel,
                unit,
            );
            &&& 2 * abs(s * (unit * unit) - exact) <= unit * unit
            &&& 2 * abs(s * (unit * unit) - exact) == unit * unit ==> s % 2 == 0
        }),
{
    let unit = pow2(149) as int;
    let uu = unit * unit;
    let (k, g) = (pow2(141), pow2(133));
    lemma_parts();
    lemma_pow2_pos(149);
    lemma_pow2_pos(141);
    let (u, v) = (cx.units(), cy.units());
    let i = lemma_part_of(u);
    let j = lemma_part_of(v);
    assert(uu > 0) by (nonlinear_arith)
        requires
            uu == unit * unit,
            unit > 0,
    ;
    lemma_reach(cx, width);
    lemma_reach(cy, height);
    let exact = bilinear(image, width, height, u, v, channel, unit);
    if in_reach(cx, width) && in_reach(cy, height) {
        let t = lemma_exact_blend(image, width, height, cx, cy, channel, 4, i, j);
        lemma_partly(image, width, height, u, v, channel, unit);
        lemma_area(i, j, 4);
        let m = t * g;
        lemma_round_even_error(m, pow2(149));
        let b = round_even(m, pow2(149)) as int;
        assert(m <= 255 * unit) by (nonlinear_arith)
            requires
                m == t * g,
                t <= 255 * 0x1_0000,
                unit == 0x1_0000 * g,
        ;
        assert(b <= 255) by (nonlinear_arith)
            requires
                2 * abs(b * unit - m) <= unit,
                m <= 255 * unit,
                unit > 0,
        ;
        assert(exact == m * unit) by (nonlinear_arith)
            requires
                exact == t * (k * k),
                k * k == g * unit,
                m == t * g,
        ;
        let d = b * unit - m;
        assert(b * uu - exact == d * unit) by (nonlinear_arith)
            requires
                exact == m * unit,
                uu == unit * unit,
                d == b * unit - m,
        ;
        assert(2 * abs(d * unit) <= uu && (2 * abs(d * unit) == uu ==> 2 * abs(d) == unit))
            by (nonlinear_arith)
            requires
                2 * abs(d) <= unit,
                uu == unit * unit,
                unit > 0,
        {
            assert(abs(d * unit) == abs(d) * unit);
            assert((2 * abs(d)) * unit <= unit * unit);
            if 2 * abs(d) < unit {
                assert((2 * abs(d)) * unit < unit * unit);
            }
        }
        assert(sampled(image, width, height, cx, cy, channel) == b);
    } else {
        lemma_blank(image, width, height, u, v, channel, unit);
        assert(0 * uu == 0) by (nonlinear_arith);
    }
}

/// The fraction of a place in 256ths.
proof fn lemma_part_of(u: int) -> (i: int)
    requires
        u % (pow2(141) as int) == 0,
    ensures
        0 <= i < 256,
        u % (pow2(149) as int) == i * pow2(141),
{
    let k = pow2(141) as int;
    let unit = pow2(149) as int;
    lemma_parts();
    lemma_pow2_pos(141);
    vstd::arithmetic::div_mod::lemma_fundamental_div_mod(u, k);
    let n = u / k;
    let (q, i) = (n / 256, n % 256);
    assert(u == unit * q + i * k && 0 <= i * k < unit) by (nonlinear_arith)
        requires
            u == k * n,
            n == 256 * q + i,
            unit == 256 * k,
            0 <= i < 256,
            k > 0,
    ;
    assert(unit * q == q * unit) by (nonlinear_arith);
    vstd::arithmetic::div_mod::lemma_fundamental_div_mod_converse(u, unit, q, i * k);
    i
}

/// The row of a transform that moves one axis by `d`, in units.
pub open spec fn moves(row: [Binary32; 3], axis: int, d: int) -> bool {
    &&& row@[axis]@ == whole(1)
    &&& row@[1 - axis]@ == whole(0)
    &&& row@[2]@ is Finite
    &&& row@[2]@.units() == d
}

#[verifier::rlimit(40)]
proof fn lemma_moved(row: [Binary32; 3], axis: int, d: int, x: nat, y: nat, at: nat)
    requires
        axis == 0 || axis == 1,
        moves(row, axis, d),
        x < 112,
        y < 112,
        at == if axis == 0 {
            x
        } else {
            y
        },
        d % (pow2(141) as int) == 0,
        abs(at * pow2(149) + d) < 0x1_0000 * pow2(149),
    ensures
        coordinate(row, x, y) is Finite,
        coordinate(row, x, y).units() == at * pow2(149) + d,
        (at * pow2(149) + d) % (pow2(141) as int) == 0,
{
    let (unit, k) = (pow2(149) as int, pow2(141) as int);
    lemma_parts();
    lemma_pow2_pos(141);
    lemma_integer(x);
    lemma_integer(y);
    lemma_product(1, x);
    lemma_product(0, y);
    lemma_product(0, x);
    lemma_product(1, y);
    assert(1 * x == x && 0 * x == 0 && 1 * y == y && 0 * y == 0) by (nonlinear_arith);
    lemma_sum(x as int, 0);
    lemma_sum(0, y as int);
    let s = at * unit + d;
    vstd::arithmetic::div_mod::lemma_fundamental_div_mod(d, k);
    let n = 256 * at + d / k;
    assert(s == n * k) by (nonlinear_arith)
        requires
            s == at * unit + d,
            unit == 256 * k,
            d == k * (d / k) + 0,
            n == 256 * at + d / k,
    ;
    vstd::arithmetic::div_mod::lemma_mod_multiples_basic(n, k);
    let m: nat = abs(n) as nat;
    assert(abs(s) == m * k && m < 0x100_0000) by (nonlinear_arith)
        requires
            s == n * k,
            m == abs(n),
            abs(s) < 0x1_0000 * (256 * k),
            k > 0,
    ;
    lemma_few_exact(m, 141);
    lemma_few(0x1_0000);
}

/// A crop by a transform that moves both axes by whole 256ths of a pixel is exact: each byte is the
/// one nearest to the exact blend at the moved pixel, and the even one of two that are equally near.
#[verifier::rlimit(40)]
pub proof fn crops_by_256ths_are_exact(
    image: Seq<u8>,
    width: nat,
    height: nat,
    inverse: [[Binary32; 3]; 2],
    dx: int,
    dy: int,
    x: nat,
    y: nat,
    channel: int,
)
    requires
        width * height * 3 == image.len(),
        0 < width < 0x100_0000,
        0 < height < 0x100_0000,
        moves(inverse@[0], 0, dx),
        moves(inverse@[1], 1, dy),
        dx % (pow2(141) as int) == 0,
        dy % (pow2(141) as int) == 0,
        x < 112,
        y < 112,
        0 <= channel < 3,
        abs(x * pow2(149) + dx) < 0x1_0000 * pow2(149),
        abs(y * pow2(149) + dy) < 0x1_0000 * pow2(149),
    ensures
        ({
            let unit = pow2(149) as int;
            let s = cropped(image, width, height, inverse)[(y * 112 + x) * 3 + channel];
            let exact = bilinear(
                image,
                width,
                height,
                x * unit + dx,
                y * unit + dy,
                channel,
                unit,
            );
            &&& 2 * abs(s * (unit * unit) - exact) <= unit * unit
            &&& 2 * abs(s * (unit * unit) - exact) == unit * unit ==> s % 2 == 0
        }),
{
    lemma_moved(inverse@[0], 0, dx, x, y, x);
    lemma_moved(inverse@[1], 1, dy, x, y, y);
    let (cx, cy) = (coordinate(inverse@[0], x, y), coordinate(inverse@[1], x, y));
    samples_at_256ths_are_exact(image, width, height, cx, cy, channel);
    lemma_crop_byte(image, width, height, inverse, x, y, channel);
}

} // verus!
