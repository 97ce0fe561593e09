//! The pure viewport transform between screen pixels and grid cells.
//!
//! A viewport is described by its pixel width and height, a pan centre in
//! pixel units, and a zoom value `fov`: how many cell widths fit across the
//! viewport's width. Each cell occupies a square of `width / fov` pixels
//! plus a one-pixel gridline, and the cell grid's origin corner sits at
//! half the viewport minus the pan centre. Screen-to-cell mapping divides
//! rounding toward negative infinity, so that negative screen coordinates
//! fall in the correct negative cell.

use vstd::prelude::*;

use crate::cell::Point;
use crate::grid::GameMatrix;

verus! {

/// Smallest accepted zoom: one cell across the viewport width.
pub const MIN_FOV: u32 = 1;

/// Largest accepted zoom: one hundred cells across the viewport width.
pub const MAX_FOV: u32 = 100;

/// Bound on screen and pan-centre coordinates accepted by the executable
/// transform, so that their differences stay representable.
pub const SCREEN_LIMIT: i64 = 0x1000_0000_0000_0000;

/// Bound on cell indices accepted by the executable cell-to-pixel mapping,
/// so that the pixel position stays representable.
pub const CELL_LIMIT: i64 = 0x400_0000;

/// Pixel side length of one cell: the viewport width over the number of
/// cells visible across it, rounded down.
pub open spec fn side_len_spec(width: int, fov: int) -> int {
    width / fov
}

/// Pixel position of the cell grid's origin corner on one axis: half the
/// viewport extent minus the pan centre.
pub open spec fn offset_spec(extent: int, center: int) -> int {
    extent / 2 - center
}

/// The cell index whose square (side plus one gridline pixel) covers screen
/// coordinate `scr` on one axis; division rounds toward negative infinity.
pub open spec fn cell_of_spec(scr: int, offset: int, side: int) -> int {
    (scr - offset) / (side + 1)
}

/// The screen coordinate of the corner of cell index `cell` on one axis.
pub open spec fn pixel_of_spec(cell: int, offset: int, side: int) -> int {
    cell * (side + 1) + offset
}

/// Floor division: the largest integer at most `n / d`, also for negative
/// `n`, unlike the truncating machine division.
pub fn floor_div(n: i64, d: i64) -> (q: i64)
    requires
        d > 0,
    ensures
        q == n as int / d as int,
{
    if n >= 0 {
        let q0 = (n as u64) / (d as u64);
        q0 as i64
    } else {
        let m: u128 = (-(n as i128)) as u128;
        let du: u128 = d as u128;
        let q0: u128 = m / du;
        let r0: u128 = m % du;
        let qi: i128 = if r0 == 0 {
            -(q0 as i128)
        } else {
            -(q0 as i128) - 1
        };
        proof {
            let ni = n as int;
            let di = d as int;
            let mi = m as int;
            let q0i = q0 as int;
            let r0i = r0 as int;
            assert(mi == -ni);
            vstd::arithmetic::div_mod::lemma_fundamental_div_mod(mi, di);
            assert(mi == di * q0i + r0i && 0 <= r0i < di);
            assert(di * (-q0i) == -(di * q0i) && di * (-q0i - 1) == -(di * q0i) - di && (-q0i) * di
                == di * (-q0i) && (-q0i - 1) * di == di * (-q0i - 1)) by (nonlinear_arith);
            assert(q0i <= mi) by (nonlinear_arith)
                requires
                    di * q0i + r0i == mi,
                    di >= 1,
                    q0i >= 0,
                    r0i >= 0,
            ;
            if r0 == 0 {
                assert(ni == di * (-q0i) + 0);
                vstd::arithmetic::div_mod::lemma_fundamental_div_mod_converse(ni, di, -q0i, 0);
            } else {
                assert(di >= 2);
                assert(2 * q0i <= mi) by (nonlinear_arith)
                    requires
                        di * q0i + r0i == mi,
                        di >= 2,
                        q0i >= 0,
                        r0i >= 0,
                ;
                assert(ni == di * (-q0i - 1) + (di - r0i));
                vstd::arithmetic::div_mod::lemma_fundamental_div_mod_converse(
                    ni,
                    di,
                    -q0i - 1,
                    di - r0i,
                );
            }
        }
        qi as i64
    }
}

impl GameMatrix {

/// The cell under the screen point `scr`, for a viewport of `width` by
/// `height` pixels panned to `center` and zoomed to `fov` cells across.
pub fn pixel_to_cell_coord(
    scr: Point<i64>,
    center: Point<i64>,
    fov: u32,
    width: u32,
    height: u32,
) -> (r: Point<i64>)
    requires
        MIN_FOV <= fov,
        fov <= width,
        -SCREEN_LIMIT <= scr.x <= SCREEN_LIMIT,
        -SCREEN_LIMIT <= scr.y <= SCREEN_LIMIT,
        -SCREEN_LIMIT <= center.x <= SCREEN_LIMIT,
        -SCREEN_LIMIT <= center.y <= SCREEN_LIMIT,
    ensures
        r@.0 == cell_of_spec(
            scr@.0,
            offset_spec(width as int, center@.0),
            side_len_spec(width as int, fov as int),
        ),
        r@.1 == cell_of_spec(
            scr@.1,
            offset_spec(height as int, center@.1),
            side_len_spec(width as int, fov as int),
        ),
{
    let len: u32 = width / fov;
    let off_x: i64 = (width / 2) as i64 - center.x;
    let off_y: i64 = (height / 2) as i64 - center.y;
    let d: i64 = len as i64 + 1;
    let x = floor_div(scr.x - off_x, d);
    let y = floor_div(scr.y - off_y, d);
    Point::new(x, y)
}

/// The screen position of cell `cell`'s corner, for a viewport of `width`
/// by `height` pixels panned to `center` and zoomed to `fov` cells across.
pub fn cell_to_pixel_coord(
    cell: Point<i64>,
    center: Point<i64>,
    fov: u32,
    width: u32,
    height: u32,
) -> (r: Point<i64>)
    requires
        MIN_FOV <= fov,
        fov <= width,
        -CELL_LIMIT <= cell.x <= CELL_LIMIT,
        -CELL_LIMIT <= cell.y <= CELL_LIMIT,
        -SCREEN_LIMIT <= center.x <= SCREEN_LIMIT,
        -SCREEN_LIMIT <= center.y <= SCREEN_LIMIT,
    ensures
        r@.0 == pixel_of_spec(
            cell@.0,
            offset_spec(width as int, center@.0),
            side_len_spec(width as int, fov as int),
        ),
        r@.1 == pixel_of_spec(
            cell@.1,
            offset_spec(height as int, center@.1),
            side_len_spec(width as int, fov as int),
        ),
{
    let len: u32 = width / fov;
    let off_x: i64 = (width / 2) as i64 - center.x;
    let off_y: i64 = (height / 2) as i64 - center.y;
    let d: i128 = len as i128 + 1;
    proof {
        assert((cell.x as i128) * d <= CELL_LIMIT * 0x1_0000_0001 && (cell.x as i128) * d
            >= -CELL_LIMIT * 0x1_0000_0001 && (cell.y as i128) * d <= CELL_LIMIT * 0x1_0000_0001
            && (cell.y as i128) * d >= -CELL_LIMIT * 0x1_0000_0001) by (nonlinear_arith)
            requires
                -CELL_LIMIT <= cell.x <= CELL_LIMIT,
                -CELL_LIMIT <= cell.y <= CELL_LIMIT,
                0 < d <= 0x1_0000_0001,
        ;
    }
    let px = (cell.x as i128) * d + (off_x as i128);
    let py = (cell.y as i128) * d + (off_y as i128);
    Point::new(px as i64, py as i64)
}

}

/// Decrease `fov` by one — fewer, larger cells — unless already at the
/// smallest accepted zoom.
pub fn zoom_in(fov: u32) -> (r: u32)
    ensures
        r == if fov > MIN_FOV {
            (fov - 1) as u32
        } else {
            fov
        },
{
    if fov > MIN_FOV {
        fov - 1
    } else {
        fov
    }
}

/// Increase `fov` by one — more, smaller cells — unless already at the
/// largest accepted zoom.
pub fn zoom_out(fov: u32) -> (r: u32)
    ensures
        r == if fov < MAX_FOV {
            (fov + 1) as u32
        } else {
            fov
        },
{
    if fov < MAX_FOV {
        fov + 1
    } else {
        fov
    }
}

/// One axis of the coordinate round trip: mapping a cell index to its
/// screen corner and back lands on the same cell, for any positive pitch.
pub proof fn lemma_round_trip_axis(cell: int, offset: int, side: int)
    requires
        side >= 0,
    ensures
        cell_of_spec(pixel_of_spec(cell, offset, side), offset, side) == cell,
{
    let d = side + 1;
    assert(cell * d + offset - offset == cell * d);
    vstd::arithmetic::div_mod::lemma_fundamental_div_mod_converse(cell * d, d, cell, 0);
}

/// The coordinate round trip on whole points: for every integer cell and
/// every valid zoom, the cell of its own pixel corner is the cell itself.
pub proof fn lemma_round_trip(cell: (int, int), center: (int, int), fov: int, width: int, height: int)
    requires
        1 <= fov <= width,
    ensures
        ({
            let side = side_len_spec(width, fov);
            let px = pixel_of_spec(cell.0, offset_spec(width, center.0), side);
            let py = pixel_of_spec(cell.1, offset_spec(height, center.1), side);
            cell_of_spec(px, offset_spec(width, center.0), side) == cell.0 && cell_of_spec(
                py,
                offset_spec(height, center.1),
                side,
            ) == cell.1
        }),
{
    let side = side_len_spec(width, fov);
    assert(side >= 0) by (nonlinear_arith)
        requires
            1 <= fov <= width,
            side == width / fov,
    ;
    lemma_round_trip_axis(cell.0, offset_spec(width, center.0), side);
    lemma_round_trip_axis(cell.1, offset_spec(height, center.1), side);
}

} // verus!
