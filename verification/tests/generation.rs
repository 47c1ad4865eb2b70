use life_sim::generate::{glider_gun, Generator, GeneratorError, Plaintext, RawData, Random};
use life_sim::life::Config;

fn config(width: u32, height: u32) -> Config {
    Config::new(width, height).unwrap()
}

#[test]
fn raw_coordinates_are_exactly_the_live_cells() {
    let c = config(10, 5);
    let gen = RawData {
        positions: vec![(0, 0), (2, 1), (7, 2)],
        x_offset: 1,
        y_offset: 1,
    };
    let grid = gen.generate(&c).unwrap();
    assert_eq!(grid.len(), 50);
    let mut expected = vec![0u32; 50];
    expected[1 * 10 + 1] = 1;
    expected[2 * 10 + 3] = 1;
    expected[3 * 10 + 8] = 1;
    assert_eq!(grid, expected);
}

#[test]
fn raw_coordinates_out_of_bounds_is_an_error() {
    let c = config(10, 5);
    let gen = RawData {
        positions: vec![(0, 0), (9, 0)],
        x_offset: 1,
        y_offset: 0,
    };
    assert_eq!(gen.generate(&c), Err(GeneratorError::OutOfBounds));
    let gen = RawData {
        positions: vec![(0, 4)],
        x_offset: 0,
        y_offset: 1,
    };
    assert_eq!(gen.generate(&c), Err(GeneratorError::OutOfBounds));
}

#[test]
fn random_zero_density_is_all_dead() {
    let c = config(20, 10);
    let gen = Random {
        numerator: 0,
        denominator: 1,
        seed: None,
    };
    assert_eq!(gen.generate(&c).unwrap(), vec![0u32; 200]);
}

#[test]
fn random_full_density_is_all_live() {
    let c = config(20, 10);
    let gen = Random {
        numerator: 1,
        denominator: 1,
        seed: None,
    };
    assert_eq!(gen.generate(&c).unwrap(), vec![1u32; 200]);
}

#[test]
fn random_with_fixed_seed_is_deterministic() {
    let c = config(25, 20);
    let make = || Random {
        numerator: 1,
        denominator: 2,
        seed: Some(0xfeed),
    };
    let a = make().generate(&c).unwrap();
    let b = make().generate(&c).unwrap();
    assert_eq!(a, b);
    assert_eq!(a.len(), 500);
}

#[test]
fn random_half_density_has_plausible_live_count() {
    let c = config(100, 100);
    let gen = Random {
        numerator: 1,
        denominator: 2,
        seed: Some(7),
    };
    let grid = gen.generate(&c).unwrap();
    let live: u32 = grid.iter().sum();
    // 10000 cells at p = 1/2: five hundred cells of slack is ten standard
    // deviations.
    assert!(live > 4500 && live < 5500, "live count {}", live);
}

#[test]
fn plaintext_reads_rows_and_columns() {
    let c = config(10, 5);
    let gen = Plaintext {
        source: b".O\nO.".to_vec(),
        x_offset: 2,
        y_offset: 1,
    };
    let grid = gen.generate(&c).unwrap();
    let mut expected = vec![0u32; 50];
    expected[1 * 10 + 3] = 1;
    expected[2 * 10 + 2] = 1;
    assert_eq!(grid, expected);
}

#[test]
fn plaintext_skips_comment_lines() {
    let c = config(10, 5);
    let gen = Plaintext {
        source: b"!a comment\nO\n!another\nO".to_vec(),
        x_offset: 0,
        y_offset: 0,
    };
    let grid = gen.generate(&c).unwrap();
    let mut expected = vec![0u32; 50];
    expected[0] = 1;
    expected[10] = 1;
    assert_eq!(grid, expected);
}

#[test]
fn plaintext_handles_crlf_line_endings() {
    let c = config(10, 5);
    let gen = Plaintext {
        source: b"O.\r\n.O\r\n".to_vec(),
        x_offset: 0,
        y_offset: 0,
    };
    let grid = gen.generate(&c).unwrap();
    let mut expected = vec![0u32; 50];
    expected[0] = 1;
    expected[11] = 1;
    assert_eq!(grid, expected);
}

#[test]
fn plaintext_short_lines_leave_cells_dead() {
    let c = config(10, 5);
    let gen = Plaintext {
        source: b"O\nOOO".to_vec(),
        x_offset: 0,
        y_offset: 0,
    };
    let grid = gen.generate(&c).unwrap();
    let mut expected = vec![0u32; 50];
    expected[0] = 1;
    expected[10] = 1;
    expected[11] = 1;
    expected[12] = 1;
    assert_eq!(grid, expected);
}

#[test]
fn plaintext_empty_line_counts_as_a_row() {
    let c = config(10, 5);
    let gen = Plaintext {
        source: b"O\n\nO".to_vec(),
        x_offset: 0,
        y_offset: 0,
    };
    let grid = gen.generate(&c).unwrap();
    let mut expected = vec![0u32; 50];
    expected[0] = 1;
    expected[20] = 1;
    assert_eq!(grid, expected);
}

#[test]
fn plaintext_rejects_bad_characters() {
    let c = config(10, 5);
    let gen = Plaintext {
        source: b"O.X".to_vec(),
        x_offset: 0,
        y_offset: 0,
    };
    assert_eq!(gen.generate(&c), Err(GeneratorError::BadCharacter));
}

#[test]
fn plaintext_rejects_out_of_bounds_cells() {
    let c = config(10, 5);
    // The row fits, but the offset pushes its last column past the edge.
    let gen = Plaintext {
        source: b"OOO".to_vec(),
        x_offset: 8,
        y_offset: 0,
    };
    assert_eq!(gen.generate(&c), Err(GeneratorError::OutOfBounds));
    // A dead cell out of bounds is rejected too, not silently clipped.
    let gen = Plaintext {
        source: b"..".to_vec(),
        x_offset: 9,
        y_offset: 0,
    };
    assert_eq!(gen.generate(&c), Err(GeneratorError::OutOfBounds));
}

#[test]
fn plaintext_bad_character_reported_before_bounds() {
    let c = config(10, 5);
    // The bad character sits at the same cell the bounds check would
    // reject: the character error wins.
    let gen = Plaintext {
        source: b"X".to_vec(),
        x_offset: 9,
        y_offset: 4,
    };
    assert_eq!(gen.generate(&c), Err(GeneratorError::BadCharacter));
}

#[test]
fn glider_gun_descriptor_is_the_known_pattern() {
    let gun = glider_gun();
    assert_eq!(gun.x_offset, 10);
    assert_eq!(gun.y_offset, 10);
    assert_eq!(gun.positions.len(), 36);
    assert!(gun.positions.contains(&(24, 0)));
    assert!(gun.positions.contains(&(13, 8)));
}

#[test]
fn glider_gun_generates_thirty_six_live_cells() {
    let c = config(50, 50);
    let grid = glider_gun().generate(&c).unwrap();
    assert_eq!(grid.len(), 2500);
    let live: u32 = grid.iter().sum();
    assert_eq!(live, 36);
    // Spot-check one translated coordinate.
    assert_eq!(grid[(0 + 10) * 50 + (24 + 10)], 1);
}
