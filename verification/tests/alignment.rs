//! Crops against the machine's own arithmetic and against a double-precision reference.
use arcface_hrx::alignment::{crop, is_packed_rgb, CropError, TEMPLATE};
use arcface_hrx::encoding::Binary32;
use arcface_hrx::similarity;

type Points = [[f32; 2]; 5];

fn template() -> Points {
    TEMPLATE.map(|p| p.map(f32::from_bits))
}

/// The similarity transform that takes the points closest to the template. It stands in for the
/// fit of a device runtime, which is not part of the library.
fn transform(points: &Points) -> Result<[[f64; 3]; 2], String> {
    let target = template();
    let mean = |p: &Points, axis: usize| p.iter().map(|q| q[axis] as f64).sum::<f64>() / 5.;
    let (mx, my) = (mean(points, 0), mean(points, 1));
    let (tx, ty) = (mean(&target, 0), mean(&target, 1));
    let (mut a, mut b, mut norm) = (0f64, 0f64, 0f64);
    for (p, q) in points.iter().zip(&target) {
        let (px, py) = (p[0] as f64 - mx, p[1] as f64 - my);
        let (qx, qy) = (q[0] as f64 - tx, q[1] as f64 - ty);
        a += px * qx + py * qy;
        b += px * qy - py * qx;
        norm += px * px + py * py;
    }
    if !(norm as f32).is_finite() || norm <= 0. || (a == 0. && b == 0.) {
        return Err("degenerate landmarks".into());
    }
    let (a, b) = (a / norm, b / norm);
    Ok([[a, -b, tx - a * mx + b * my], [b, a, ty - b * mx - a * my]])
}

fn invert(t: [[f64; 3]; 2]) -> [[f64; 3]; 2] {
    let [[a, b, tx], [c, d, ty]] = t;
    let det = a * d - b * c;
    let [ia, ib, ic, id] = [d / det, -b / det, -c / det, a / det];
    [[ia, ib, -(ia * tx + ib * ty)], [ic, id, -(ic * tx + id * ty)]]
}

fn single(m: [[f64; 3]; 2]) -> [[f32; 3]; 2] {
    m.map(|row| row.map(|v| v as f32))
}

fn bits(m: [[f32; 3]; 2]) -> [[Binary32; 3]; 2] {
    m.map(|row| row.map(|v| Binary32 { bits: v.to_bits() }))
}

/// The library's crop for landmarks.
fn crop_points(
    image: &[u8],
    width: usize,
    height: usize,
    points: &Points,
) -> Result<Vec<u8>, CropError<String>> {
    crop(image, width, height, transform(points).map(|t| bits(single(invert(t)))))
}

/// Bilinear sampling in the machine's single precision.
fn machine_crop(image: &[u8], width: usize, height: usize, inverse: [[f32; 3]; 2]) -> Vec<u8> {
    let [[a, b, tx], [c, d, ty]] = inverse;
    let mut out = vec![0; 112 * 112 * 3];
    for y in 0..112 {
        for x in 0..112 {
            let xx = a * x as f32 + b * y as f32 + tx;
            let yy = c * x as f32 + d * y as f32 + ty;
            if !(xx > -1. && yy > -1. && xx < width as f32 && yy < height as f32) {
                continue;
            }
            let sx = xx.floor() as i64;
            let sy = yy.floor() as i64;
            let fx = xx - xx.floor();
            let fy = yy - yy.floor();
            for ch in 0..3 {
                let mut value = 0f32;
                for dy in 0..2 {
                    for dx in 0..2 {
                        let px = sx + dx;
                        let py = sy + dy;
                        if px >= 0 && py >= 0 && (px as usize) < width && (py as usize) < height {
                            value += image[(py as usize * width + px as usize) * 3 + ch] as f32
                                * if dx == 0 { 1. - fx } else { fx }
                                * if dy == 0 { 1. - fy } else { fy };
                        }
                    }
                }
                out[(y * 112 + x) * 3 + ch] = value.round_ties_even().clamp(0., 255.) as u8;
            }
        }
    }
    out
}

/// Bilinear sampling in double precision.
fn reference_crop(image: &[u8], width: usize, height: usize, points: &Points) -> Vec<u8> {
    let [[a, b, tx], [c, d, ty]] = invert(transform(points).unwrap());
    let mut out = Vec::new();
    for y in 0..112 {
        for x in 0..112 {
            let xx = a * x as f64 + b * y as f64 + tx;
            let yy = c * x as f64 + d * y as f64 + ty;
            for ch in 0..3 {
                let mut value = 0f64;
                for dy in 0..2 {
                    for dx in 0..2 {
                        let (px, py) = (xx.floor() + dx as f64, yy.floor() + dy as f64);
                        if px >= 0. && py >= 0. && px < width as f64 && py < height as f64 {
                            let w = (1. - (xx - px).abs()) * (1. - (yy - py).abs());
                            let i = (py as usize * width + px as usize) * 3 + ch;
                            value += image[i] as f64 * w;
                        }
                    }
                }
                out.push(value.round_ties_even().clamp(0., 255.) as u8);
            }
        }
    }
    out
}

fn compare_alignment_crops(label: &str, rgb: &[u8], width: usize, height: usize, points: &Points) {
    let got = crop_points(rgb, width, height, points).unwrap();
    let inverse = single(invert(transform(points).unwrap()));
    assert!(got == machine_crop(rgb, width, height, inverse), "{label}: machine arithmetic");
    let reference = reference_crop(rgb, width, height, points);
    let max = got.iter().zip(&reference).map(|(a, b)| a.abs_diff(*b)).max().unwrap();
    assert!(max <= 1, "{label}: max channel delta {max}");
}

#[test]
fn fp32_alignment_crop_parity() {
    for (label, width, height, scale, angle, tx, ty) in [
        ("identity", 112, 112, 1., 0., 0., 0.),
        ("fractional", 256, 256, 1., 0., 0.375, 0.125),
        ("rotation", 256, 256, 1.5, 0.7, 100., 5.),
        ("top-left border", 112, 112, 1., 0., -40.25, -30.75),
        ("bottom-right border", 112, 112, 1., 0., 40.25, 30.75),
        ("outside", 112, 112, 1., 0., -300., -300.),
        ("large x", 8192, 256, 1.5, 0.2, 8000., 0.),
        ("large y", 256, 8192, 1.5, -0.2, 0., 8000.),
        ("small face", 112, 112, 0.0001, 0.3, 50., 50.),
    ] {
        let angle: f32 = angle;
        let (sin, cos) = angle.sin_cos();
        let points = template().map(|[x, y]| {
            [scale * (cos * x - sin * y) + tx, scale * (sin * x + cos * y) + ty]
        });
        let rgb: Vec<u8> =
            (0..width * height * 3).map(|i| ((i * 37 + i / 379) % 256) as u8).collect();
        compare_alignment_crops(label, &rgb, width, height, &points);
    }
    let near_collinear = [[20., 20.], [40., 20.], [60., 20.], [80., 20.], [100., 20.00001]];
    let rgb: Vec<u8> = (0..112 * 112 * 3).map(|i| (i % 256) as u8).collect();
    compare_alignment_crops("near collinear", &rgb, 112, 112, &near_collinear);
    // Unrepresentable/overflowing or collapsed geometry must fail, not emit NaNs.
    for points in [
        [[f32::INFINITY; 2]; 5],
        [[f32::MAX; 2]; 5],
        [[8192.; 2]; 5],
        template().map(|[x, y]| [x * 1e30, y * 1e30]),
    ] {
        // The fit refuses these here; the library hands its refusal on.
        let refused = crop_points(&rgb, 112, 112, &points);
        assert!(refused.is_err());
        assert_eq!(refused, Err(CropError::Geometry("degenerate landmarks".into())));
    }
}

#[test]
fn input_and_alignment_validation() {
    // What is asserted of the fit checks only that it can stand in; the rest reaches the library.
    assert!(transform(&[[0.; 2]; 5]).is_err());
    assert!(transform(&[[f32::NAN; 2]; 5]).is_err());
    assert!(crop_points(&[], 112, 112, &template()).is_err());
    let filled = |v: f32| [Binary32 { bits: v.to_bits() }; 512];
    assert!(similarity(&filled(0.), &filled(1.)).is_err());
    let one = f64::from_bits(similarity(&filled(1.), &filled(1.)).unwrap().bits);
    assert!((one - 1.).abs() < 1e-12);
    let t = transform(&template()).unwrap();
    for (row, want) in t.iter().zip([[1., 0., 0.], [0., 1., 0.]]) {
        for (v, w) in row.iter().zip(want) {
            assert!((v - w).abs() < 1e-4);
        }
    }
}

#[test]
fn template_holds_the_landmarks() {
    let want: Points = [
        [38.2946, 51.6963],
        [73.5318, 51.5014],
        [56.0252, 71.7366],
        [41.5493, 92.3655],
        [70.7299, 92.2041],
    ];
    assert_eq!(template(), want);
}

const IDENTITY: [[f32; 3]; 2] = [[1., 0., 0.], [0., 1., 0.]];

#[test]
fn image_size_comes_before_geometry() {
    let image = vec![7u8; 2 * 3 * 3];
    let bad: Result<[[Binary32; 3]; 2], u8> = Err(42);
    assert_eq!(crop(&image, 2, 3, bad), Err(CropError::Geometry(42)));
    for (width, height) in
        [(0, 3), (2, 0), (2, 2), (3, 3), (usize::MAX, usize::MAX), (usize::MAX / 2, 2)]
    {
        let bad: Result<[[Binary32; 3]; 2], u8> = Err(42);
        assert_eq!(crop(&image, width, height, bad), Err(CropError::ImageSize));
        let good: Result<_, u8> = Ok(bits(IDENTITY));
        assert_eq!(crop(&image, width, height, good), Err(CropError::ImageSize));
    }
    let empty: Result<_, u8> = Ok(bits(IDENTITY));
    assert_eq!(crop(&[], 0, 0, empty), Err(CropError::ImageSize));
}

#[test]
fn whole_shifts_copy_pixels() {
    let rgb: Vec<u8> = (0..112 * 112 * 3).map(|i| ((i * 31 + i / 7) % 256) as u8).collect();
    let same: Result<_, u8> = Ok(bits(IDENTITY));
    assert_eq!(crop(&rgb, 112, 112, same).unwrap(), rgb);
    for (dx, dy) in [(5i64, -3i64), (-111, 111), (200, 0), (-1, -1)] {
        let moved: Result<_, u8> = Ok(bits([[1., 0., dx as f32], [0., 1., dy as f32]]));
        let out = crop(&rgb, 112, 112, moved).unwrap();
        for y in 0..112i64 {
            for x in 0..112i64 {
                for c in 0..3 {
                    let (px, py) = (x + dx, y + dy);
                    let want = if (0..112).contains(&px) && (0..112).contains(&py) {
                        rgb[((py * 112 + px) * 3 + c) as usize]
                    } else {
                        0
                    };
                    assert_eq!(out[((y * 112 + x) * 3 + c) as usize], want);
                }
            }
        }
    }
}

#[test]
fn borders_are_black_and_ties_go_to_even() {
    // Half a pixel outside: each border pixel keeps half its value, ties to even.
    let image = [5u8, 6, 7];
    let at = |x: f32, y: f32| {
        let m: Result<_, u8> = Ok(bits([[0., 0., x], [0., 0., y]]));
        let out = crop(&image, 1, 1, m).unwrap();
        assert_eq!(out.len(), 112 * 112 * 3);
        [out[0], out[1], out[2]]
    };
    assert_eq!(at(0., 0.), [5, 6, 7]);
    assert_eq!(at(-0.5, 0.), [2, 3, 4]);
    assert_eq!(at(0., 0.5), [2, 3, 4]);
    assert_eq!(at(-0.5, -0.5), [1, 2, 2]);
    for outside in [-1., 1., 2., f32::NAN, f32::INFINITY, f32::NEG_INFINITY, f32::MAX] {
        assert_eq!(at(outside, 0.), [0, 0, 0]);
        assert_eq!(at(0., outside), [0, 0, 0]);
    }
}

#[test]
fn scattered_transforms_match_the_machine() {
    let (width, height) = (61, 45);
    let rgb: Vec<u8> = (0..width * height * 3).map(|i| ((i * 91 + i / 5) % 256) as u8).collect();
    let mut state: u32 = 0x9e37_79b9;
    let mut next = || {
        state ^= state << 13;
        state ^= state >> 17;
        state ^= state << 5;
        state as f32 / u32::MAX as f32 - 0.5
    };
    for _ in 0..40 {
        let m = [
            [next() * 2., next() * 2., next() * 60. + 20.],
            [next() * 2., next() * 2., next() * 60. + 20.],
        ];
        let got: Result<Vec<u8>, CropError<u8>> = crop(&rgb, width, height, Ok(bits(m)));
        assert!(got.unwrap() == machine_crop(&rgb, width, height, m), "{m:?}");
    }
}

#[test]
fn packed_images_have_three_bytes_for_each_pixel() {
    assert!(is_packed_rgb(&[0; 18], 2, 3));
    assert!(!is_packed_rgb(&[0; 17], 2, 3));
    assert!(!is_packed_rgb(&[], 0, 3));
    assert!(!is_packed_rgb(&[], 1 << 32, 1 << 32));
}

#[test]
fn brighter_images_give_no_darker_crops() {
    let (width, height) = (61, 45);
    let dark: Vec<u8> = (0..width * height * 3).map(|i| ((i * 91 + i / 5) % 200) as u8).collect();
    let bright: Vec<u8> = dark.iter().enumerate().map(|(i, v)| v + (i % 7 * 9) as u8).collect();
    let m = bits([[0.31, -0.17, 20.3], [0.19, 0.42, -3.6]]);
    let low: Result<Vec<u8>, CropError<u8>> = crop(&dark, width, height, Ok(m));
    let high: Result<Vec<u8>, CropError<u8>> = crop(&bright, width, height, Ok(m));
    let (low, high) = (low.unwrap(), high.unwrap());
    assert!(low.iter().zip(&high).all(|(a, b)| a <= b));
    assert!(low != high);
}
