use huex::color::Rgb8;
use huex::rng::Rng;
use huex::sample::sample_pixels;

/// A model of the xorshift generator, written out independently of the library.
struct ModelRng(u64);

impl ModelRng {
    fn new(seed: u64) -> Self {
        Self(seed.max(1))
    }

    fn next_u64(&mut self) -> u64 {
        let mut value = self.0;
        value ^= value >> 12;
        value ^= value << 25;
        value ^= value >> 27;
        self.0 = value;
        value.wrapping_mul(2_685_821_657_736_338_717)
    }

    fn index(&mut self, upper_bound: usize) -> usize {
        if upper_bound <= 1 {
            return 0;
        }
        (self.next_u64() as usize) % upper_bound
    }
}

fn model_sample(pixels: &[Rgb8], sample_limit: usize, seed: u64) -> Vec<Rgb8> {
    if pixels.is_empty() {
        return Vec::new();
    }
    if sample_limit == 0 || sample_limit >= pixels.len() {
        return pixels.to_vec();
    }
    let mut rng = ModelRng::new(seed);
    let mut reservoir = pixels[..sample_limit].to_vec();
    for (index, pixel) in pixels.iter().enumerate().skip(sample_limit) {
        let slot = rng.index(index + 1);
        if slot < sample_limit {
            reservoir[slot] = *pixel;
        }
    }
    reservoir
}

fn gradient(n: usize) -> Vec<Rgb8> {
    (0..n)
        .map(|i| Rgb8 {
            r: (i % 256) as u8,
            g: ((i / 256) % 256) as u8,
            b: ((i * 7) % 256) as u8,
        })
        .collect()
}

#[test]
fn rng_matches_model_generator() {
    for seed in [0u64, 1, 42, 7_777, u64::MAX] {
        let mut rng = Rng::new(seed);
        let mut model = ModelRng::new(seed);
        for _ in 0..200 {
            assert_eq!(rng.next_u64(), model.next_u64());
        }
        for bound in [0usize, 1, 2, 3, 10, 1000] {
            assert_eq!(rng.index(bound), model.index(bound));
        }
    }
}

#[test]
fn rng_zero_seed_behaves_like_one() {
    let mut zero = Rng::new(0);
    let mut one = Rng::new(1);
    for _ in 0..10 {
        assert_eq!(zero.next_u64(), one.next_u64());
    }
}

#[test]
fn rng_first_output_from_seed_one() {
    let mut rng = Rng::new(1);
    // 1 -> 1 ^ (1 << 25) = 33554433 -> 33554433 ^ (33554433 >> 27) = 33554433
    let expected = 33_554_433u64.wrapping_mul(2_685_821_657_736_338_717);
    assert_eq!(rng.next_u64(), expected);
}

#[test]
fn rng_index_stays_below_bound() {
    let mut rng = Rng::new(42);
    for bound in 2..300usize {
        assert!(rng.index(bound) < bound);
    }
    assert_eq!(rng.index(0), 0);
    assert_eq!(rng.index(1), 0);
}

#[test]
fn sample_matches_model_reservoir() {
    for n in [1usize, 2, 5, 17, 100, 1000] {
        let pixels = gradient(n);
        for limit in [0usize, 1, 2, 3, 10, 99, 100, 1000, 5000] {
            for seed in [0u64, 1, 42, 123_456_789] {
                assert_eq!(
                    sample_pixels(&pixels, limit, seed),
                    model_sample(&pixels, limit, seed)
                );
            }
        }
    }
}

#[test]
fn sample_of_no_pixels_is_empty() {
    assert!(sample_pixels(&[], 10, 42).is_empty());
    assert!(sample_pixels(&[], 0, 42).is_empty());
}

#[test]
fn sample_limit_zero_keeps_every_pixel() {
    let pixels = gradient(50);
    assert_eq!(sample_pixels(&pixels, 0, 42), pixels);
    assert_eq!(sample_pixels(&pixels, 50, 42), pixels);
    assert_eq!(sample_pixels(&pixels, 51, 42), pixels);
}

#[test]
fn sample_takes_distinct_input_pixels() {
    let pixels = gradient(1000);
    let sample = sample_pixels(&pixels, 64, 9);
    assert_eq!(sample.len(), 64);
    let mut positions: Vec<usize> = sample
        .iter()
        .map(|p| pixels.iter().position(|q| q == p).unwrap())
        .collect();
    positions.sort();
    positions.dedup();
    assert_eq!(positions.len(), 64);
}

#[test]
fn sample_is_deterministic_per_seed() {
    let pixels = gradient(500);
    assert_eq!(sample_pixels(&pixels, 20, 5), sample_pixels(&pixels, 20, 5));
    assert_ne!(sample_pixels(&pixels, 20, 5), sample_pixels(&pixels, 20, 6));
}

#[test]
fn rng_never_yields_zero_from_a_nonzero_state() {
    for seed in [0u64, 1, 2, 42, u64::MAX, 0x8000_0000_0000_0000] {
        let mut rng = Rng::new(seed);
        for _ in 0..10_000 {
            assert_ne!(rng.next_u64(), 0);
        }
    }
}
