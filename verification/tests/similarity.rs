//! Similarity against the machine's own arithmetic.
use arcface_hrx::encoding::Binary32;
use arcface_hrx::{similarity, Error};

fn encoded(v: &[f32; 512]) -> [Binary32; 512] {
    v.map(|x| Binary32 { bits: x.to_bits() })
}

fn machine(a: &[f32; 512], b: &[f32; 512]) -> f64 {
    let dot = a.iter().zip(b).map(|(a, b)| *a as f64 * *b as f64).sum::<f64>();
    let norm = |a: &[f32]| a.iter().map(|a| (*a as f64).powi(2)).sum::<f64>();
    dot / (norm(a) * norm(b)).sqrt()
}

fn scattered(seed: u32, scale: f32) -> [f32; 512] {
    let mut state = seed;
    std::array::from_fn(|_| {
        state ^= state << 13;
        state ^= state >> 17;
        state ^= state << 5;
        (state as f32 / u32::MAX as f32 - 0.4) * scale
    })
}

#[test]
fn cosine_matches_the_machine() {
    let vectors = [
        scattered(1, 1.),
        scattered(2, 3e-20),
        scattered(3, 2e19),
        scattered(4, 1e38),
        scattered(5, 1e-42),
        [1.; 512],
        [-1.; 512],
        [f32::MAX; 512],
        std::array::from_fn(|i| if i == 300 { f32::from_bits(1) } else { 0. }),
        std::array::from_fn(|i| if i == 7 { -3.5 } else { -0. }),
    ];
    for a in &vectors {
        for b in &vectors {
            let got = similarity(&encoded(a), &encoded(b)).unwrap();
            assert_eq!(got.bits, machine(a, b).to_bits());
            // The order of the two does not matter.
            assert_eq!(similarity(&encoded(b), &encoded(a)).unwrap(), got);
        }
        // Every embedding is exactly like itself.
        assert_eq!(f64::from_bits(similarity(&encoded(a), &encoded(a)).unwrap().bits), 1.);
    }
}

#[test]
fn unusable_embeddings_are_refused() {
    let good = scattered(9, 1.);
    for bad in [f32::NAN, f32::INFINITY, f32::NEG_INFINITY] {
        for place in [0, 255, 511] {
            let mut v = good;
            v[place] = bad;
            assert_eq!(similarity(&encoded(&v), &encoded(&good)), Err(Error::NonFinite));
            assert_eq!(similarity(&encoded(&good), &encoded(&v)), Err(Error::NonFinite));
            assert_eq!(similarity(&encoded(&[0.; 512]), &encoded(&v)), Err(Error::NonFinite));
        }
    }
    let mut zeros = [0f32; 512];
    zeros[3] = -0.;
    assert_eq!(similarity(&encoded(&zeros), &encoded(&good)), Err(Error::ZeroEmbedding));
    assert_eq!(similarity(&encoded(&good), &encoded(&zeros)), Err(Error::ZeroEmbedding));
    assert_eq!(similarity(&encoded(&zeros), &encoded(&zeros)), Err(Error::ZeroEmbedding));
}

#[test]
fn opposites_and_doubles() {
    let a = scattered(11, 1.);
    for b in [scattered(12, 1.), scattered(13, 4e-30), a] {
        let plain = similarity(&encoded(&a), &encoded(&b)).unwrap();
        let opposite = similarity(&encoded(&a.map(|x| -x)), &encoded(&b)).unwrap();
        assert_eq!(f64::from_bits(opposite.bits), -f64::from_bits(plain.bits));
        let double = similarity(&encoded(&a.map(|x| 2. * x)), &encoded(&b)).unwrap();
        assert_eq!(double, plain);
    }
}
