use life_sim::generate::{Generator, RawData, Random};
use life_sim::life::{Config, ConfigError, ConstructionError, Life};

fn config(width: u32, height: u32) -> Config {
    Config::new(width, height).unwrap()
}

/// A straightforward sequential implementation of the same toroidal rule,
/// used as an independent reference.
fn naive_step(grid: &[u32], w: usize, h: usize) -> Vec<u32> {
    let mut out = vec![0u32; w * h];
    for y in 0..h {
        for x in 0..w {
            let xl = (x + w - 1) % w;
            let xr = (x + 1) % w;
            let yu = (y + h - 1) % h;
            let yd = (y + 1) % h;
            let n = grid[yu * w + xl]
                + grid[yu * w + x]
                + grid[yu * w + xr]
                + grid[y * w + xl]
                + grid[y * w + xr]
                + grid[yd * w + xl]
                + grid[yd * w + x]
                + grid[yd * w + xr];
            let alive = grid[y * w + x] == 1;
            out[y * w + x] = if alive {
                if n == 2 || n == 3 {
                    1
                } else {
                    0
                }
            } else if n == 3 {
                1
            } else {
                0
            };
        }
    }
    out
}

#[test]
fn config_rejects_zero_dimensions() {
    assert_eq!(Config::new(0, 10), Err(ConfigError::ZeroDimension));
    assert_eq!(Config::new(10, 0), Err(ConfigError::ZeroDimension));
    assert_eq!(Config::new(0, 0), Err(ConfigError::ZeroDimension));
}

#[test]
fn config_rejects_untileable_dimensions() {
    assert_eq!(Config::new(7, 10), Err(ConfigError::TileIndivisible));
    assert_eq!(Config::new(10, 12), Err(ConfigError::TileIndivisible));
}

#[test]
fn config_accepts_tileable_dimensions() {
    let c = config(15, 10);
    assert_eq!(c.width, 15);
    assert_eq!(c.height, 10);
}

#[test]
fn construction_rejects_size_mismatch() {
    let c = config(10, 10);
    let r = Life::new(c, vec![0u32; 99]);
    assert!(matches!(r, Err(ConstructionError::SizeMismatch)));
    let r = Life::new(c, vec![0u32; 101]);
    assert!(matches!(r, Err(ConstructionError::SizeMismatch)));
}

#[test]
fn construction_accepts_exact_size() {
    let c = config(10, 10);
    let seed = vec![0u32; 100];
    let engine = Life::new(c, seed.clone()).unwrap();
    assert_eq!(engine.read_current(), seed);
}

#[test]
fn dead_grid_stays_dead() {
    let c = config(10, 10);
    let mut engine = Life::new(c, vec![0u32; 100]).unwrap();
    for _ in 0..3 {
        engine.step();
        assert_eq!(engine.read_current(), vec![0u32; 100]);
    }
}

#[test]
fn block_is_a_still_life() {
    let c = config(10, 10);
    let block = RawData {
        positions: vec![(0, 0), (1, 0), (0, 1), (1, 1)],
        x_offset: 3,
        y_offset: 3,
    };
    let seed = block.generate(&c).unwrap();
    let mut engine = Life::new(c, seed.clone()).unwrap();
    engine.step();
    assert_eq!(engine.read_current(), seed);
    engine.step();
    assert_eq!(engine.read_current(), seed);
}

#[test]
fn blinker_returns_after_exactly_two_steps() {
    let c = config(10, 10);
    let blinker = RawData {
        positions: vec![(0, 0), (1, 0), (2, 0)],
        x_offset: 3,
        y_offset: 4,
    };
    let seed = blinker.generate(&c).unwrap();
    let mut engine = Life::new(c, seed.clone()).unwrap();
    engine.step();
    let mid = engine.read_current();
    assert_ne!(mid, seed);
    // The intermediate phase is the vertical bar through the centre cell.
    let mut vertical = vec![0u32; 100];
    for y in 3..6 {
        vertical[y * 10 + 4] = 1;
    }
    assert_eq!(mid, vertical);
    engine.step();
    assert_eq!(engine.read_current(), seed);
}

#[test]
fn readback_matches_sequential_reference() {
    let c = config(15, 10);
    let seeds = [1u64, 7, 42, 1234, 99999];
    for &s in seeds.iter() {
        let gen = Random {
            numerator: 1,
            denominator: 3,
            seed: Some(s),
        };
        let start = gen.generate(&c).unwrap();
        let mut expected = start.clone();
        let mut engine = Life::new(c, start).unwrap();
        for _ in 0..5 {
            engine.step();
            expected = naive_step(&expected, 15, 10);
            assert_eq!(engine.read_current(), expected);
        }
    }
}

#[test]
fn glider_travels_diagonally() {
    // A glider on a toroidal grid reappears one cell down and right after
    // four steps.
    let c = config(20, 20);
    let glider = RawData {
        positions: vec![(1, 0), (2, 1), (0, 2), (1, 2), (2, 2)],
        x_offset: 5,
        y_offset: 5,
    };
    let start = glider.generate(&c).unwrap();
    let mut engine = Life::new(c, start).unwrap();
    for _ in 0..4 {
        engine.step();
    }
    let shifted = RawData {
        positions: vec![(1, 0), (2, 1), (0, 2), (1, 2), (2, 2)],
        x_offset: 6,
        y_offset: 6,
    };
    assert_eq!(engine.read_current(), shifted.generate(&c).unwrap());
}
