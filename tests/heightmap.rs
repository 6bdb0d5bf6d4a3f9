use bracket_noise::prelude::{FastNoise, FractalType, NoiseType};
use mapgen::heightmap::RandomMapGen;

fn noise_for(seed: u64) -> FastNoise {
    let mut noise = FastNoise::seeded(seed);
    noise.set_noise_type(NoiseType::PerlinFractal);
    noise.set_fractal_type(FractalType::FBM);
    noise.set_fractal_octaves(5);
    noise.set_fractal_gain(0.6);
    noise.set_fractal_lacunarity(2.0);
    noise.set_frequency(1.0);
    noise
}

fn sample_all(size: usize, batch: usize, seed: u64) -> Vec<(i32, i32, f32)> {
    let mut gen = RandomMapGen::new(size, batch, seed);
    let noise = noise_for(gen.seed());
    let ratio = gen.square_size() as f32 * noise.get_frequency();
    let mut out = vec![];
    loop {
        let batch = gen.get_next();
        if batch.is_empty() {
            break;
        }
        for (x, y) in batch {
            out.push((x, y, noise.get_noise(x as f32 / ratio, y as f32 / ratio)));
        }
    }
    out
}

#[test]
fn drain_four_by_four_covers_grid_and_repeats() {
    let first = sample_all(4, 16, 42);
    assert_eq!(first.len(), 16);
    for y in 0..4 {
        for x in 0..4 {
            assert_eq!(first.iter().filter(|t| t.0 == x && t.1 == y).count(), 1);
        }
    }
    let second = sample_all(4, 16, 42);
    assert_eq!(first.len(), second.len());
    for (a, b) in first.iter().zip(second.iter()) {
        assert_eq!(a.0, b.0);
        assert_eq!(a.1, b.1);
        assert_eq!(a.2.to_bits(), b.2.to_bits());
    }
}

#[test]
fn batches_follow_row_major_order() {
    let mut gen = RandomMapGen::new(3, 4, 1);
    assert_eq!(gen.remaining_len(), 9);
    assert_eq!(gen.get_next(), vec![(0, 0), (1, 0), (2, 0), (0, 1)]);
    assert_eq!(gen.get_next_n(2), vec![(1, 1), (2, 1)]);
    assert_eq!(gen.get_next_n(100), vec![(0, 2), (1, 2), (2, 2)]);
    assert!(gen.get_next().is_empty());
    assert!(gen.finish().is_empty());
}

#[test]
fn finish_returns_everything_left() {
    let mut gen = RandomMapGen::new(2, 1, 9);
    assert_eq!(gen.get_next(), vec![(0, 0)]);
    assert_eq!(gen.finish(), vec![(1, 0), (0, 1), (1, 1)]);
    assert_eq!(gen.remaining_len(), 0);
}

#[test]
fn one_cell_map() {
    let mut gen = RandomMapGen::new(1, 10, 3);
    assert_eq!(gen.get_next(), vec![(0, 0)]);
    assert!(gen.get_next().is_empty());
}

#[test]
fn different_seeds_give_different_heights() {
    let a = sample_all(8, 10, 1);
    let b = sample_all(8, 10, 2);
    assert!(a.iter().zip(b.iter()).any(|(p, q)| p.2.to_bits() != q.2.to_bits()));
}
