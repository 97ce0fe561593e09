use game_of_life::cell::Point;
use game_of_life::grid::GameMatrix;
use game_of_life::transform::{floor_div, zoom_in, zoom_out, MAX_FOV, MIN_FOV};

#[test]
fn floor_div_rounds_toward_negative_infinity() {
    assert_eq!(floor_div(7, 2), 3);
    assert_eq!(floor_div(-7, 2), -4);
    assert_eq!(floor_div(-8, 2), -4);
    assert_eq!(floor_div(8, 2), 4);
    assert_eq!(floor_div(0, 5), 0);
    assert_eq!(floor_div(-1, 36), -1);
    assert_eq!(floor_div(35, 36), 0);
    assert_eq!(floor_div(-36, 36), -1);
    assert_eq!(floor_div(i64::MIN, 1), i64::MIN);
    assert_eq!(floor_div(i64::MIN, 2), -(1i64 << 62));
}

#[test]
fn pixel_to_cell_exact_values() {
    // Width 700, fov 20: cells are 35 pixels wide plus a gridline, and the
    // origin corner sits at (350, 350).
    let center = Point::new(0, 0);
    let r = GameMatrix::pixel_to_cell_coord(Point::new(0, 0), center, 20, 700, 700);
    assert_eq!(r, Point::new(-10, -10));
    let r = GameMatrix::pixel_to_cell_coord(Point::new(350, 350), center, 20, 700, 700);
    assert_eq!(r, Point::new(0, 0));
    let r = GameMatrix::pixel_to_cell_coord(Point::new(385, 349), center, 20, 700, 700);
    assert_eq!(r, Point::new(0, -1));
    let r = GameMatrix::pixel_to_cell_coord(Point::new(386, 350), center, 20, 700, 700);
    assert_eq!(r, Point::new(1, 0));
}

#[test]
fn cell_to_pixel_exact_values() {
    let center = Point::new(0, 0);
    let r = GameMatrix::cell_to_pixel_coord(Point::new(2, 3), center, 20, 700, 700);
    assert_eq!(r, Point::new(2 * 36 + 350, 3 * 36 + 350));
    let r = GameMatrix::cell_to_pixel_coord(Point::new(0, 0), center, 20, 700, 700);
    assert_eq!(r, Point::new(350, 350));
    let r = GameMatrix::cell_to_pixel_coord(Point::new(-1, -1), center, 20, 700, 700);
    assert_eq!(r, Point::new(314, 314));
}

#[test]
fn panning_shifts_the_origin() {
    let center = Point::new(30, -40);
    let r = GameMatrix::cell_to_pixel_coord(Point::new(0, 0), center, 20, 700, 700);
    assert_eq!(r, Point::new(320, 390));
}

#[test]
fn cell_of_pixel_of_round_trips() {
    for fov in [1u32, 3, 20, 99, 100] {
        for x in -6i64..=6 {
            for y in -6i64..=6 {
                let cell = Point::new(x * 7, y * 11);
                let center = Point::new(13, -29);
                let px = GameMatrix::cell_to_pixel_coord(cell, center, fov, 700, 500);
                let back = GameMatrix::pixel_to_cell_coord(px, center, fov, 700, 500);
                assert_eq!(back, cell);
            }
        }
    }
}

#[test]
fn zoom_steps_are_clamped() {
    assert_eq!(zoom_in(MIN_FOV), MIN_FOV);
    assert_eq!(zoom_in(2), 1);
    assert_eq!(zoom_in(50), 49);
    assert_eq!(zoom_out(MAX_FOV), MAX_FOV);
    assert_eq!(zoom_out(99), 100);
    assert_eq!(zoom_out(20), 21);
}
