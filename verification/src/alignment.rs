//! Five-point face alignment: bilinear sampling of an aligned crop, with black borders.
use crate::arithmetic::{difference, lemma_nearest_zero, lemma_small_powers, product, sum, Value};
use crate::conversion::{byte, floor, floor_integer, integer, less};
use crate::encoding::{binary32, Binary32};
use crate::number::{nearest, Number};
use crate::rounding::{
    lemma_nearest_below, lemma_nearest_keeps_order, lemma_nearest_monotone,
    lemma_nearest_whole_error, lemma_pow2_le, lemma_round_even_monotone, representable,
};
use crate::whole::{
    lemma_byte, lemma_difference, lemma_floor, lemma_integer, lemma_integer_far_above, lemma_less,
    lemma_product, lemma_sum, lemma_sum_far_below, whole,
};
use crate::SIZE;
use vstd::arithmetic::power2::{lemma_pow2_adds, lemma_pow2_pos, lemma_pow2_unfold, pow2};
use vstd::math::abs;
use vstd::prelude::*;

verus! {

/// Where the five landmarks of a face lie in an aligned crop, as single-precision encodings of
/// `x` and `y`: both eyes, the nose, both corners of the mouth.
pub const TEMPLATE: [[u32; 2]; 5] = [
    [0x4219_2dac, 0x424e_c903],
    [0x4293_1048, 0x424e_016f],
    [0x4260_19ce, 0x428f_7924],
    [0x4226_327c, 0x42b8_bb23],
    [0x428d_75b5, 0x42b8_6880],
];

/// Why there is no crop.
#[derive(Debug, PartialEq, Eq)]
pub enum CropError<E> {
    /// The image is empty, or its length is not that of a packed RGB image of its size.
    ImageSize,
    /// The landmarks have no usable transform into the crop.
    Geometry(E),
}

/// The image holds three bytes for each of its pixels, and at least one pixel.
pub open spec fn packed_rgb(image: Seq<u8>, width: nat, height: nat) -> bool {
    width > 0 && height > 0 && width * height * 3 == image.len()
}

pub open spec fn zero() -> Number {
    Number::Finite { negative: false, magnitude: 0 }
}

pub open spec fn one() -> Number {
    Number::Finite { negative: false, magnitude: binary32().one() }
}

/// Image coordinate that the pixel `(x, y)` of the crop is sampled at, by one row of the
/// transform from crop to image: `row[0] * x + row[1] * y + row[2]`.
pub open spec fn coordinate(row: [Binary32; 3], x: nat, y: nat) -> Number {
    let f = binary32();
    f.sum(
        f.sum(f.product(row@[0]@, f.integer(x)), f.product(row@[1]@, f.integer(y))),
        row@[2]@,
    )
}

/// Whether any of the four pixels around a coordinate can lie inside the image.
pub open spec fn in_reach(c: Number, extent: nat) -> bool {
    one().negated().less(c) && c.less(binary32().integer(extent))
}

/// Weight of the nearer pixel (`step` 0) or the farther one (`step` 1) along one axis.
pub open spec fn weight(c: Number, step: int) -> Number {
    let f = binary32();
    let fraction = f.difference(c, f.floor(c));
    if step == 0 {
        f.difference(one(), fraction)
    } else {
        fraction
    }
}

/// Weighted sum of one channel over the first `taps` of the four pixels around `(cx, cy)`, in
/// the order of rows; pixels outside the image are left out.
pub open spec fn blended(
    image: Seq<u8>,
    width: nat,
    height: nat,
    cx: Number,
    cy: Number,
    channel: int,
    taps: nat,
) -> Number
    decreases taps,
{
    if taps == 0 {
        zero()
    } else {
        let f = binary32();
        let before = blended(image, width, height, cx, cy, channel, (taps - 1) as nat);
        let dx = (taps - 1) % 2;
        let dy = (taps - 1) / 2;
        let px = f.floor_integer(cx) + dx;
        let py = f.floor_integer(cy) + dy;
        if 0 <= px < width && 0 <= py < height {
            let pixel = f.integer(image[(py * width + px) * 3 + channel] as nat);
            f.sum(before, f.product(f.product(pixel, weight(cx, dx)), weight(cy, dy)))
        } else {
            before
        }
    }
}

/// One channel of the image at `(cx, cy)`: black out of reach of the image, else the bilinear
/// blend, rounded to the nearest integer with ties to even.
pub open spec fn sampled(
    image: Seq<u8>,
    width: nat,
    height: nat,
    cx: Number,
    cy: Number,
    channel: int,
) -> u8 {
    if in_reach(cx, width) && in_reach(cy, height) {
        binary32().byte(blended(image, width, height, cx, cy, channel, 4))
    } else {
        0
    }
}

/// One channel of the pixel `(x, y)` of the crop.
pub open spec fn crop_channel(
    image: Seq<u8>,
    width: nat,
    height: nat,
    inverse: [[Binary32; 3]; 2],
    x: nat,
    y: nat,
    channel: int,
) -> u8 {
    sampled(
        image,
        width,
        height,
        coordinate(inverse@[0], x, y),
        coordinate(inverse@[1], x, y),
        channel,
    )
}

/// The packed RGB crop.
pub open spec fn cropped(
    image: Seq<u8>,
    width: nat,
    height: nat,
    inverse: [[Binary32; 3]; 2],
) -> Seq<u8> {
    Seq::new(
        (SIZE * SIZE * 3) as nat,
        |i: int|
            crop_channel(
                image,
                width,
                height,
                inverse,
                ((i / 3) % (SIZE as int)) as nat,
                ((i / 3) / (SIZE as int)) as nat,
                i % 3,
            ),
    )
}

/// A coordinate in reach of the image has a floor that fits a machine integer.
proof fn lemma_in_reach_floor(c: Number, extent: nat)
    requires
        in_reach(c, extent),
        extent < 0x8000_0000_0000_0000,
    ensures
        c is Finite,
        -1 <= binary32().floor_integer(c) < 0x8000_0000_0000_0000,
{
    let f = binary32();
    let unit = f.one() as int;
    lemma_pow2_pos(149);
    lemma_pow2_adds(63, 149);
    assert(pow2(63) == 0x8000_0000_0000_0000) by {
        vstd::arithmetic::power2::lemma2_to64_rest();
    }
    assert(extent * f.one() < pow2(212) * 1) by (nonlinear_arith)
        requires
            extent < pow2(63),
            pow2(63) * f.one() == pow2(212),
            f.one() > 0,
    ;
    lemma_nearest_below(extent * f.one(), 1, 24, 212);
    lemma_pow2_le(213, 277);
    lemma_pow2_unfold(213);
    lemma_pow2_pos(212);
    let u = c.units();
    assert(-unit < u < pow2(63) * unit);
    vstd::arithmetic::div_mod::lemma_fundamental_div_mod(u, unit);
    vstd::arithmetic::div_mod::lemma_mod_bound(u, unit);
    let q = u / unit;
    assert(-1 <= q) by (nonlinear_arith)
        requires
            u == unit * q + u % unit,
            0 <= u % unit < unit,
            -unit < u,
    ;
    assert(q < pow2(63)) by (nonlinear_arith)
        requires
            u == unit * q + u % unit,
            0 <= u % unit < unit,
            u < pow2(63) * unit,
    ;
}

/// Image coordinate that the pixel `(x, y)` of the crop is sampled at.
fn coordinate_of(row: &[Binary32; 3], x: usize, y: usize) -> (r: Value)
    ensures
        r.wf(binary32()),
        r@ == coordinate(*row, x as nat, y as nat),
{
    let f = binary32();
    let ax = product(f, row[0].value(), integer(f, x as u64));
    let by = product(f, row[1].value(), integer(f, y as u64));
    sum(f, sum(f, ax, by), row[2].value())
}

/// One.
fn unit_value() -> (r: Value)
    ensures
        r.wf(binary32()),
        r@ == one(),
{
    proof {
        vstd::arithmetic::power2::lemma2_to64();
        lemma_pow2_adds(23, 126);
    }
    Value::Finite { negative: false, significand: 0x80_0000, exponent: 126 }
}

/// Whether any of the four pixels around a coordinate can lie inside the image.
fn is_in_reach(c: Value, extent: usize) -> (r: bool)
    requires
        c.wf(binary32()),
    ensures
        r == in_reach(c@, extent as nat),
{
    let f = binary32();
    less(f, crate::arithmetic::negated(unit_value()), c) && less(f, c, integer(f, extent as u64))
}

/// Weights of the nearer and the farther pixel along one axis.
fn weights(c: Value) -> (r: [Value; 2])
    requires
        c.wf(binary32()),
    ensures
        r@[0].wf(binary32()),
        r@[1].wf(binary32()),
        r@[0]@ == weight(c@, 0),
        r@[1]@ == weight(c@, 1),
{
    let f = binary32();
    let fraction = difference(f, c, floor(f, c));
    [difference(f, unit_value(), fraction), fraction]
}

/// The bytes of a pixel inside the image are inside the image's data.
pub proof fn lemma_pixel_offset(px: int, py: int, width: int, height: int, channel: int)
    requires
        0 <= px < width,
        0 <= py < height,
        0 <= channel < 3,
    ensures
        0 <= py * width <= py * width + px < width * height,
        0 <= (py * width + px) * 3 + channel < width * height * 3,
{
    assert(0 <= py * width) by (nonlinear_arith)
        requires
            0 <= py,
            0 < width,
    ;
    assert(py * width + width <= width * height) by (nonlinear_arith)
        requires
            py + 1 <= height,
            0 < width,
    ;
}

/// One channel of the image at `(cx, cy)`, within reach of the image.
fn blend(
    image: &[u8],
    width: usize,
    height: usize,
    cx: Value,
    cy: Value,
    channel: usize,
) -> (r: u8)
    requires
        packed_rgb(image@, width as nat, height as nat),
        width < 0x8000_0000_0000_0000,
        height < 0x8000_0000_0000_0000,
        cx.wf(binary32()),
        cy.wf(binary32()),
        in_reach(cx@, width as nat),
        in_reach(cy@, height as nat),
        channel < 3,
    ensures
        r == binary32().byte(
            blended(image@, width as nat, height as nat, cx@, cy@, channel as int, 4),
        ),
{
    let f = binary32();
    proof {
        lemma_in_reach_floor(cx@, width as nat);
        lemma_in_reach_floor(cy@, height as nat);
        lemma_small_powers();
        lemma_pow2_pos(24);
    }
    let sx: i128 = floor_integer(f, cx) as i128;
    let sy: i128 = floor_integer(f, cy) as i128;
    let wx = weights(cx);
    let wy = weights(cy);
    let mut value = Value::Finite { negative: false, significand: 0, exponent: 0 };
    assert(0 * pow2(0) == 0);
    let mut tap: usize = 0;
    while tap < 4
        invariant
            packed_rgb(image@, width as nat, height as nat),
            f == binary32(),
            tap <= 4,
            channel < 3,
            sx == f.floor_integer(cx@),
            sy == f.floor_integer(cy@),
            -1 <= sx < 0x8000_0000_0000_0000,
            -1 <= sy < 0x8000_0000_0000_0000,
            wx@[0].wf(f) && wx@[1].wf(f) && wy@[0].wf(f) && wy@[1].wf(f),
            wx@[0]@ == weight(cx@, 0) && wx@[1]@ == weight(cx@, 1),
            wy@[0]@ == weight(cy@, 0) && wy@[1]@ == weight(cy@, 1),
            value.wf(f),
            value@ == blended(
                image@,
                width as nat,
                height as nat,
                cx@,
                cy@,
                channel as int,
                tap as nat,
            ),
        decreases 4 - tap,
    {
        let dx: usize = tap % 2;
        let dy: usize = tap / 2;
        let px: i128 = sx + dx as i128;
        let py: i128 = sy + dy as i128;
        if px >= 0 && py >= 0 && px < width as i128 && py < height as i128 {
            proof {
                lemma_pixel_offset(
                    px as int,
                    py as int,
                    width as int,
                    height as int,
                    channel as int,
                );
                assert(image@.len() == image.len());
                assert(0 <= py * width + px <= (py * width + px) * 3 + channel <= usize::MAX);
            }
            let offset: usize = (py as usize * width + px as usize) * 3 + channel;
            let pixel = integer(f, image[offset] as u64);
            value = sum(f, value, product(f, product(f, pixel, wx[dx]), wy[dy]));
        }
        tap = tap + 1;
    }
    byte(f, value)
}

/// Warps a packed RGB image into a packed RGB crop of `SIZE` by `SIZE` pixels. `inverse` maps the
/// crop into the image, or says why the landmarks give no such map.
pub fn crop<E>(
    image: &[u8],
    width: usize,
    height: usize,
    inverse: Result<[[Binary32; 3]; 2], E>,
) -> (r: Result<Vec<u8>, CropError<E>>)
    ensures
        r matches Err(CropError::ImageSize) <==> width == 0 || height == 0 || image@.len() != 3 * (
        width * height),
        !packed_rgb(image@, width as nat, height as nat) ==> r == Err::<Vec<u8>, CropError<E>>(
            CropError::ImageSize,
        ),
        packed_rgb(image@, width as nat, height as nat) ==> match inverse {
            Err(e) => r == Err::<Vec<u8>, CropError<E>>(CropError::Geometry(e)),
            Ok(m) => r matches Ok(out) && out@ == cropped(
                image@,
                width as nat,
                height as nat,
                m,
            ),
        },
{
    if !is_packed_rgb(image, width, height) {
        return Err(CropError::ImageSize);
    }
    let m = match inverse {
        Ok(m) => m,
        Err(e) => {
            return Err(CropError::Geometry(e));
        },
    };
    proof {
        let n = width * height;
        assert(width <= n && height <= n) by (nonlinear_arith)
            requires
                width > 0,
                height > 0,
                n == width * height,
        ;
        assert(image@.len() == image.len());
    }
    let mut out: Vec<u8> = Vec::new();
    let ghost all = cropped(image@, width as nat, height as nat, m);
    let mut i: usize = 0;
    while i < SIZE * SIZE
        invariant
            packed_rgb(image@, width as nat, height as nat),
            width < 0x8000_0000_0000_0000,
            height < 0x8000_0000_0000_0000,
            i <= SIZE * SIZE,
            all == cropped(image@, width as nat, height as nat, m),
            out@.len() == 3 * i,
            forall|j: int| 0 <= j < out@.len() ==> out@[j] == all[j],
        decreases SIZE * SIZE - i,
    {
        let x: usize = i % SIZE;
        let y: usize = i / SIZE;
        let cx = coordinate_of(&m[0], x, y);
        let cy = coordinate_of(&m[1], x, y);
        if is_in_reach(cx, width) && is_in_reach(cy, height) {
            out.push(blend(image, width, height, cx, cy, 0));
            out.push(blend(image, width, height, cx, cy, 1));
            out.push(blend(image, width, height, cx, cy, 2));
        } else {
            out.push(0);
            out.push(0);
            out.push(0);
        }
        assert((3 * i) / 3 == i && (3 * i + 1) / 3 == i && (3 * i + 2) / 3 == i);
        i = i + 1;
    }
    assert(out@ =~= all);
    Ok(out)
}

/// Whether the image holds three bytes for each of its pixels, and at least one pixel.
pub fn is_packed_rgb(image: &[u8], width: usize, height: usize) -> (r: bool)
    ensures
        r == packed_rgb(image@, width as nat, height as nat),
        r == (width > 0 && height > 0 && image@.len() == 3 * (width * height)),
{
    if width == 0 || height == 0 {
        return false;
    }
    match width.checked_mul(height) {
        None => {
            assert(image@.len() == image.len());
            false
        },
        Some(pixels) => match pixels.checked_mul(3) {
            None => {
                assert(image@.len() == image.len());
                false
            },
            Some(bytes) => bytes == image.len(),
        },
    }
}

/// The transform moves the crop by whole pixels: the pixel `(x, y)` of the crop is sampled at
/// `(x + dx, y + dy)`.
pub open spec fn is_shift(inverse: [[Binary32; 3]; 2], dx: int, dy: int) -> bool {
    &&& inverse@[0]@[0]@ == whole(1)
    &&& inverse@[0]@[1]@ == whole(0)
    &&& inverse@[0]@[2]@ == whole(dx)
    &&& inverse@[1]@[0]@ == whole(0)
    &&& inverse@[1]@[1]@ == whole(1)
    &&& inverse@[1]@[2]@ == whole(dy)
}

/// A whole coordinate gives all weight to its own pixel.
proof fn lemma_whole_weights(n: int)
    ensures
        weight(whole(n), 0) == whole(1),
        weight(whole(n), 1) == whole(0),
{
    lemma_floor(n);
    lemma_difference(n, n);
    lemma_difference(1, 0);
    assert(1 * binary32().one() == binary32().one()) by (nonlinear_arith);
    assert(one() == whole(1));
}

/// One more tap, whose weight is zero or one along each axis.
proof fn lemma_whole_tap(before: u8, pixel: u8, wx: nat, wy: nat)
    requires
        wx * wy == 0 || (before == 0 && wx == 1 && wy == 1),
        wx <= 1,
        wy <= 1,
    ensures
        ({
            let f = binary32();
            f.sum(
                whole(before as int),
                f.product(f.product(f.integer(pixel as nat), whole(wx as int)), whole(wy as int)),
            ) == if wx * wy == 0 {
                whole(before as int)
            } else {
                whole(pixel as int)
            }
        }),
{
    let p = pixel as nat;
    let a = p * wx;
    let b = a * wy;
    assert(a == 0 || a == p) by (nonlinear_arith)
        requires
            a == p * wx,
            wx <= 1,
    ;
    assert(b == 0 || b == a) by (nonlinear_arith)
        requires
            b == a * wy,
            wy <= 1,
    ;
    assert(wx * wy == 0 ==> b == 0) by (nonlinear_arith)
        requires
            b == (p * wx) * wy,
    ;
    assert(wx == 1 && wy == 1 ==> b == p) by (nonlinear_arith)
        requires
            b == (p * wx) * wy,
    ;
    assert(wx == 1 && wy == 1 ==> wx * wy == 1) by (nonlinear_arith);
    lemma_integer(p);
    lemma_product(p, wx);
    lemma_product(a, wy);
    lemma_sum(before as int, b as int);
}

/// Whether a coordinate that was moved by whole pixels is within reach of the image.
proof fn lemma_shifted(row: [Binary32; 3], x: nat, y: nat, at: nat, d: int, extent: nat)
    requires
        x < SIZE,
        y < SIZE,
        row@[2]@ == whole(d),
        (row@[0]@ == whole(1) && row@[1]@ == whole(0) && at == x) || (row@[0]@ == whole(0)
            && row@[1]@ == whole(1) && at == y),
        at + d < 0x100_0000,
    ensures
        in_reach(coordinate(row, x, y), extent) == (0 <= at + d < extent),
        0 <= at + d ==> coordinate(row, x, y) == whole(at + d),
{
    let f = binary32();
    let p = at + d;
    lemma_integer(x);
    lemma_integer(y);
    lemma_product(1, x);
    lemma_product(0, y);
    lemma_product(0, x);
    lemma_product(1, y);
    assert(1 * x == x && 0 * x == 0 && 1 * y == y && 0 * y == 0) by (nonlinear_arith);
    lemma_sum(x as int, 0);
    lemma_sum(0, y as int);
    assert(1 * f.one() == f.one()) by (nonlinear_arith);
    assert(one().negated() == whole(-1));
    if p <= -0x100_0000 {
        lemma_sum_far_below(at as int, d);
    } else {
        lemma_sum(at as int, d);
        lemma_less(-1, p);
        if extent < 0x100_0000 {
            lemma_integer(extent);
            lemma_less(p, extent as int);
        } else {
            lemma_integer_far_above(extent, p);
        }
    }
}

/// A transform by whole pixels copies pixels: each pixel of the crop is the pixel of the image
/// that it is moved to, or black where that lies outside the image. From two to the power of 24 on
/// not every whole coordinate has an encoding, so the law ends there.
pub proof fn shift_copies_pixels(
    image: Seq<u8>,
    width: nat,
    height: nat,
    inverse: [[Binary32; 3]; 2],
    dx: int,
    dy: int,
    x: nat,
    y: nat,
    channel: int,
)
    requires
        packed_rgb(image, width, height),
        is_shift(inverse, dx, dy),
        x + dx < 0x100_0000,
        y + dy < 0x100_0000,
        x < SIZE,
        y < SIZE,
        0 <= channel < 3,
    ensures
        crop_channel(image, width, height, inverse, x, y, channel) == (if 0 <= x + dx < width && 0
            <= y + dy < height {
            image[((y + dy) * width + (x + dx)) * 3 + channel]
        } else {
            0
        }),
{
    let f = binary32();
    let px = x + dx;
    let py = y + dy;
    lemma_shifted(inverse@[0], x, y, x, dx, width);
    lemma_shifted(inverse@[1], x, y, y, dy, height);
    if 0 <= px < width && 0 <= py < height {
        let cx = whole(px);
        let cy = whole(py);
        lemma_floor(px);
        lemma_floor(py);
        lemma_whole_weights(px);
        lemma_whole_weights(py);
        let v = image[(py * width + px) * 3 + channel];
        assert(0 * f.one() == 0) by (nonlinear_arith);
        assert(zero() == whole(0));
        assert(1nat * 1nat == 1 && 0nat * 1nat == 0 && 1nat * 0nat == 0 && 0nat * 0nat == 0)
            by (nonlinear_arith);
        assert(blended(image, width, height, cx, cy, channel, 0) == whole(0));
        let b1 = blended(image, width, height, cx, cy, channel, 1);
        let b2 = blended(image, width, height, cx, cy, channel, 2);
        let b3 = blended(image, width, height, cx, cy, channel, 3);
        let b4 = blended(image, width, height, cx, cy, channel, 4);
        lemma_whole_tap(0, v, 1, 1);
        assert(b1 == whole(v as int));
        lemma_whole_tap(v, image[(py * width + (px + 1)) * 3 + channel], 0, 1);
        assert(b2 == whole(v as int));
        lemma_whole_tap(v, image[((py + 1) * width + px) * 3 + channel], 1, 0);
        assert(b3 == whole(v as int));
        lemma_whole_tap(v, image[((py + 1) * width + (px + 1)) * 3 + channel], 0, 0);
        assert(b4 == whole(v as int));
        lemma_byte(v);
    }
}

/// A transform that moves nothing gives back an image that already has the size of a crop.
pub proof fn identity_keeps_the_image(image: Seq<u8>, inverse: [[Binary32; 3]; 2])
    requires
        packed_rgb(image, SIZE as nat, SIZE as nat),
        is_shift(inverse, 0, 0),
    ensures
        cropped(image, SIZE as nat, SIZE as nat, inverse) == image,
{
    let all = cropped(image, SIZE as nat, SIZE as nat, inverse);
    assert(image.len() == 37632) by (nonlinear_arith)
        requires
            packed_rgb(image, 112, 112),
    ;
    assert forall|i: int| 0 <= i < 37632 implies all[i] == image[i] by {
        let x = ((i / 3) % 112) as nat;
        let y = ((i / 3) / 112) as nat;
        assert(y < 112 && y * 112 + x == i / 3);
        shift_copies_pixels(image, SIZE as nat, SIZE as nat, inverse, 0, 0, x, y, i % 3);
    }
    assert(all =~= image);
}

/// Samples with no pixel of the image around them are black, and so are those whose place is
/// infinite or not a number.
pub proof fn border_is_black(
    image: Seq<u8>,
    width: nat,
    height: nat,
    cx: Number,
    cy: Number,
    channel: int,
)
    requires
        ({
            let sx = binary32().floor_integer(cx);
            let sy = binary32().floor_integer(cy);
            ||| !cx.is_finite()
            ||| !cy.is_finite()
            ||| sx + 1 < 0
            ||| sx >= width
            ||| sy + 1 < 0
            ||| sy >= height
        }),
    ensures
        sampled(image, width, height, cx, cy, channel) == 0,
{
    reveal_with_fuel(blended, 5);
    lemma_byte(0);
    assert(0 * binary32().one() == 0) by (nonlinear_arith);
    assert(zero() == whole(0));
}

/// The number is not negative, and at most `limit` units.
pub open spec fn within(x: Number, limit: nat) -> bool {
    x matches Number::Finite { negative, magnitude } && !negative && magnitude <= limit
}

/// A few times one has an encoding.
pub proof fn lemma_few(k: nat)
    requires
        k < 0x100_0000,
    ensures
        representable(k * binary32().one(), 24),
        k * binary32().one() < pow2(277),
{
    assert(pow2(24) == 0x100_0000) by {
        vstd::arithmetic::power2::lemma2_to64();
    }
    lemma_pow2_adds(24, 149);
    lemma_pow2_le(173, 277);
    lemma_pow2_pos(149);
    assert(k * pow2(149) < pow2(24) * pow2(149)) by (nonlinear_arith)
        requires
            k < pow2(24),
            pow2(149) > 0,
    ;
}

/// Weights lie between zero and one.
proof fn lemma_weight(c: Number, step: int)
    requires
        c is Finite,
    ensures
        within(weight(c, step), binary32().one()),
{
    lemma_weight_error(c, step);
}

/// Weights lie between zero and one, and are the distances from the pixels up to rounding.
pub proof fn lemma_weight_error(c: Number, step: int)
    requires
        c is Finite,
    ensures
        within(weight(c, step), binary32().one()),
        ({
            let unit = binary32().one() as int;
            let fraction = c.units() % unit;
            0x100_0000 * abs(
                weight(c, step)->Finite_magnitude - (if step == 0 {
                    unit - fraction
                } else {
                    fraction
                }),
            ) <= 2 * unit
        }),
        ({
            let unit = binary32().one() as int;
            let fraction = c.units() % unit;
            representable(fraction as nat, 24) && representable((unit - fraction) as nat, 24)
                ==> weight(c, step)->Finite_magnitude == if step == 0 {
                unit - fraction
            } else {
                fraction
            }
        }),
{
    let f = binary32();
    let unit = f.one() as int;
    lemma_pow2_pos(149);
    lemma_few(1);
    assert(1 * f.one() == f.one()) by (nonlinear_arith);
    let u = c.units();
    let i = u / unit;
    vstd::arithmetic::div_mod::lemma_fundamental_div_mod(u, unit);
    vstd::arithmetic::div_mod::lemma_mod_bound(u, unit);
    let s = u - i * unit;
    assert(s == u % unit) by (nonlinear_arith)
        requires
            u == unit * i + u % unit,
            s == u - i * unit,
    ;
    assert(u < 0 ==> i < 0) by (nonlinear_arith)
        requires
            i * unit <= u,
            unit > 0,
    ;
    assert(u >= 0 ==> i >= 0) by (nonlinear_arith)
        requires
            u < i * unit + unit,
            unit > 0,
    ;
    assert((-i) * unit == -(i * unit)) by (nonlinear_arith);
    assert(0 * unit == 0) by (nonlinear_arith);
    assert(f.floor(c).negated().units() == -(i * unit));
    let fraction = f.difference(c, f.floor(c));
    lemma_nearest_keeps_order(s as nat, 1, 24, f.one());
    assert(within(fraction, f.one()));
    let rest = (unit - fraction->Finite_magnitude) as nat;
    lemma_nearest_keeps_order(rest, 1, 24, f.one());
    assert(pow2(24) == 0x100_0000) by {
        vstd::arithmetic::power2::lemma2_to64();
    }
    lemma_nearest_whole_error(s as nat, 24);
    lemma_nearest_whole_error(rest, 24);
    if representable(s as nat, 24) && representable((unit - s) as nat, 24) {
        lemma_nearest_keeps_order(s as nat, 1, 24, s as nat);
        lemma_nearest_keeps_order(rest, 1, 24, rest);
    }
    lemma_nearest_zero(1, 24);
}

/// A brighter pixel, with weights between zero and one, has no smaller share.
pub proof fn lemma_share(p: u8, q: u8, wx: Number, wy: Number)
    requires
        p <= q,
        within(wx, binary32().one()),
        within(wy, binary32().one()),
    ensures
        ({
            let f = binary32();
            let a = f.product(f.product(f.integer(p as nat), wx), wy);
            let b = f.product(f.product(f.integer(q as nat), wx), wy);
            &&& within(b, 255 * f.one())
            &&& within(a, b->Finite_magnitude)
        }),
{
    let f = binary32();
    lemma_integer(p as nat);
    lemma_integer(q as nat);
    let one = f.one();
    assert(p * one <= q * one <= 255 * one) by (nonlinear_arith)
        requires
            p <= q <= 255,
    ;
    lemma_scaled((p * one) as nat, (q * one) as nat, wx->Finite_magnitude);
    lemma_scaled(
        nearest((p * one) as nat * wx->Finite_magnitude, one, 24),
        nearest((q * one) as nat * wx->Finite_magnitude, one, 24),
        wy->Finite_magnitude,
    );
}

/// Products with a weight keep their order, and do not grow.
proof fn lemma_scaled(m: nat, n: nat, w: nat)
    requires
        m <= n <= 255 * binary32().one(),
        w <= binary32().one(),
    ensures
        nearest(m * w, binary32().one(), 24) <= nearest(n * w, binary32().one(), 24) <= 255
            * binary32().one() < pow2(277),
{
    let one = binary32().one();
    let top = 255 * one;
    lemma_pow2_pos(149);
    lemma_few(255);
    assert(m * w <= n * w <= top * one) by (nonlinear_arith)
        requires
            m <= n <= top,
            w <= one,
    ;
    lemma_nearest_monotone(m * w, n * w, one, 24);
    lemma_nearest_keeps_order(n * w, one, 24, top);
}

/// Sums with one more share keep their order, and grow by no more than one pixel.
pub proof fn lemma_sum_within(a: Number, b: Number, p: Number, q: Number, shares: nat)
    requires
        shares < 4,
        within(b, (shares * 255) * binary32().one()),
        within(a, b->Finite_magnitude),
        within(q, 255 * binary32().one()),
        within(p, q->Finite_magnitude),
    ensures
        ({
            let f = binary32();
            &&& within(f.sum(b, q), ((shares + 1) * 255) * f.one())
            &&& within(f.sum(a, p), f.sum(b, q)->Finite_magnitude)
        }),
{
    let one = binary32().one();
    let m = a->Finite_magnitude + p->Finite_magnitude;
    let n = b->Finite_magnitude + q->Finite_magnitude;
    let top = ((shares + 1) * 255) * one;
    assert((shares * 255) * one + 255 * one == top) by (nonlinear_arith)
        requires
            top == ((shares + 1) * 255) * one,
    ;
    lemma_few((shares + 1) * 255);
    lemma_nearest_monotone(m, n, 1, 24);
    lemma_nearest_keeps_order(n, 1, 24, top);
    lemma_nearest_zero(1, 24);
}

/// No byte of one channel is brighter in `dark` than in `bright`.
pub open spec fn no_brighter(dark: Seq<u8>, bright: Seq<u8>, channel: int) -> bool {
    &&& dark.len() == bright.len()
    &&& forall|i: int|
        0 <= i < dark.len() && i % 3 == channel ==> #[trigger] dark[i] <= bright[i]
}

#[verifier::rlimit(40)]
proof fn lemma_blended_monotone(
    dark: Seq<u8>,
    bright: Seq<u8>,
    width: nat,
    height: nat,
    cx: Number,
    cy: Number,
    channel: int,
    taps: nat,
)
    requires
        packed_rgb(dark, width, height),
        no_brighter(dark, bright, channel),
        cx is Finite,
        cy is Finite,
        0 <= channel < 3,
        taps <= 4,
    ensures
        ({
            let a = blended(dark, width, height, cx, cy, channel, taps);
            let b = blended(bright, width, height, cx, cy, channel, taps);
            &&& within(b, (taps * 255) * binary32().one())
            &&& within(a, b->Finite_magnitude)
        }),
    decreases taps,
{
    let f = binary32();
    let one = f.one();
    if taps == 0 {
        assert(0 * one == 0) by (nonlinear_arith);
    } else {
        let before = (taps - 1) as nat;
        lemma_blended_monotone(dark, bright, width, height, cx, cy, channel, before);
        assert((before * 255) * one <= (taps * 255) * one) by (nonlinear_arith)
            requires
                before <= taps,
        ;
        let dx = (taps - 1) % 2;
        let dy = (taps - 1) / 2;
        let px = f.floor_integer(cx) + dx;
        let py = f.floor_integer(cy) + dy;
        if 0 <= px < width && 0 <= py < height {
            lemma_pixel_offset(px, py, width as int, height as int, channel);
            let i = (py * width + px) * 3 + channel;
            assert(i % 3 == channel);
            let wx = weight(cx, dx);
            let wy = weight(cy, dy);
            lemma_weight(cx, dx);
            lemma_weight(cy, dy);
            lemma_share(dark[i], bright[i], wx, wy);
            lemma_sum_within(
                blended(dark, width, height, cx, cy, channel, before),
                blended(bright, width, height, cx, cy, channel, before),
                f.product(f.product(f.integer(dark[i] as nat), wx), wy),
                f.product(f.product(f.integer(bright[i] as nat), wx), wy),
                before,
            );
        }
    }
}

/// A crop is no darker where the image is no darker: no channel of any pixel of the crop falls when
/// the same channel of no pixel of the image does.
pub proof fn crop_keeps_brightness_order(
    dark: Seq<u8>,
    bright: Seq<u8>,
    width: nat,
    height: nat,
    inverse: [[Binary32; 3]; 2],
    x: nat,
    y: nat,
    channel: int,
)
    requires
        packed_rgb(dark, width, height),
        no_brighter(dark, bright, channel),
        0 <= channel < 3,
    ensures
        crop_channel(dark, width, height, inverse, x, y, channel) <= crop_channel(
            bright,
            width,
            height,
            inverse,
            x,
            y,
            channel,
        ),
{
    let cx = coordinate(inverse@[0], x, y);
    let cy = coordinate(inverse@[1], x, y);
    if in_reach(cx, width) && in_reach(cy, height) {
        if !cx.is_finite() || !cy.is_finite() {
            border_is_black(dark, width, height, cx, cy, channel);
        } else {
            lemma_blended_monotone(dark, bright, width, height, cx, cy, channel, 4);
            lemma_pow2_pos(149);
            let a = blended(dark, width, height, cx, cy, channel, 4)->Finite_magnitude;
            let b = blended(bright, width, height, cx, cy, channel, 4)->Finite_magnitude;
            lemma_round_even_monotone(a, b, binary32().one());
        }
    }
}

} // verus!
