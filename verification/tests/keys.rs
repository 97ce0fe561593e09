use game_of_life::cell::{cell_key, key_cell, Point};

fn sample_coords() -> Vec<i64> {
    vec![
        0,
        1,
        -1,
        2,
        -2,
        3,
        -3,
        17,
        -17,
        1000,
        -1000,
        123456789,
        -123456789,
        i64::from(i32::MAX),
        i64::from(i32::MIN),
        1 << 40,
        -(1 << 40),
        i64::MAX,
        i64::MIN,
        i64::MAX - 1,
        i64::MIN + 1,
    ]
}

#[test]
fn pairing_has_no_collisions_on_a_sample() {
    let coords = sample_coords();
    let mut pairs: Vec<(i64, i64)> = Vec::new();
    for &x in &coords {
        for &y in &coords {
            pairs.push((x, y));
        }
    }
    let keys: Vec<u128> = pairs.iter().map(|&(x, y)| cell_key(Point::new(x, y))).collect();
    for i in 0..keys.len() {
        for j in (i + 1)..keys.len() {
            assert_ne!(keys[i], keys[j], "collision between {:?} and {:?}", pairs[i], pairs[j]);
        }
    }
}

#[test]
fn key_round_trips_to_the_same_cell() {
    let coords = sample_coords();
    for &x in &coords {
        for &y in &coords {
            let p = Point::new(x, y);
            assert_eq!(key_cell(cell_key(p)), p);
        }
    }
}

#[test]
fn key_formula_exact_values() {
    // Each coordinate, shifted by 2^63, is one base-2^64 digit.
    assert_eq!(cell_key(Point::new(0, 0)), 0x8000_0000_0000_0000_8000_0000_0000_0000u128);
    assert_eq!(cell_key(Point::new(0, 1)), 0x8000_0000_0000_0000_8000_0000_0000_0001u128);
    assert_eq!(cell_key(Point::new(1, 0)), 0x8000_0000_0000_0001_8000_0000_0000_0000u128);
    assert_eq!(cell_key(Point::new(-1, -1)), 0x7fff_ffff_ffff_ffff_7fff_ffff_ffff_ffffu128);
    assert_eq!(cell_key(Point::new(i64::MIN, i64::MIN)), 0u128);
    assert_eq!(cell_key(Point::new(i64::MAX, i64::MAX)), u128::MAX);
}
