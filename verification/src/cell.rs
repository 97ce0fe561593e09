//! Grid cell coordinates and the injective pairing that keys them.
//!
//! A cell is addressed by a pair of signed integers. The live-cell store
//! keys cells by a single integer obtained from a bijective pairing of the
//! two coordinates (each coordinate becomes a base-2^64 digit), so that no
//! two distinct cells ever share a key.

use vstd::prelude::*;

verus! {

/// An ordered pair of coordinates; the grid uses `Point<i64>`.
#[derive(Clone, Copy, Debug, PartialEq, Eq, Structural)]
pub struct Point<T> {
    pub x: T,
    pub y: T,
}

impl<T> Point<T> {
    pub fn new(x: T, y: T) -> (p: Point<T>)
        ensures
            p == (Point { x, y }),
    {
        Point { x, y }
    }
}

impl View for Point<i64> {
    type V = (int, int);

    open spec fn view(&self) -> (int, int) {
        (self.x as int, self.y as int)
    }
}

/// Offset added to a coordinate to shift the `i64` range into `[0, 2^64)`.
pub const COORD_OFFSET: u128 = 0x8000_0000_0000_0000;

/// Weight of the x digit in the pairing: one more than the largest shifted
/// coordinate.
pub const COORD_RADIX: u128 = 0x1_0000_0000_0000_0000;

/// The pairing of a coordinate pair into one integer: the two coordinates,
/// shifted to be non-negative, read as the digits of a base-2^64 numeral.
pub open spec fn pack_spec(c: (int, int)) -> int {
    (c.0 + COORD_OFFSET) * COORD_RADIX + (c.1 + COORD_OFFSET)
}

/// The inverse of `pack_spec`: the two base-2^64 digits, shifted back.
pub open spec fn unpack_spec(k: int) -> (int, int) {
    (k / (COORD_RADIX as int) - COORD_OFFSET, k % (COORD_RADIX as int) - COORD_OFFSET)
}

/// Both coordinates of `c` are representable as `i64`.
pub open spec fn coord_in_range(c: (int, int)) -> bool {
    &&& i64::MIN <= c.0 <= i64::MAX
    &&& i64::MIN <= c.1 <= i64::MAX
}

/// The pairing as a `u128` key, for cells whose coordinates fit in `i64`.
pub open spec fn key_of(c: (int, int)) -> u128 {
    pack_spec(c) as u128
}

/// The key under which the store files `p`: the pairing of its coordinates.
pub fn cell_key(p: Point<i64>) -> (k: u128)
    ensures
        k == pack_spec(p@),
        k == key_of(p@),
{
    let sx: u128 = (p.x as i128 + (COORD_OFFSET as i128)) as u128;
    let sy: u128 = (p.y as i128 + (COORD_OFFSET as i128)) as u128;
    sx * COORD_RADIX + sy
}

/// The cell that `cell_key` files under `k`; every `u128` is the key of
/// exactly one cell.
pub fn key_cell(k: u128) -> (p: Point<i64>)
    ensures
        p@ == unpack_spec(k as int),
{
    proof {
        lemma_key_digits(k as int);
    }
    let hi: u128 = k / COORD_RADIX;
    let lo: u128 = k % COORD_RADIX;
    let x: i64 = (hi as i128 - (COORD_OFFSET as i128)) as i64;
    let y: i64 = (lo as i128 - (COORD_OFFSET as i128)) as i64;
    Point { x, y }
}

/// The digits extracted from any `u128` key lie in `[0, 2^64)`.
proof fn lemma_key_digits(k: int)
    requires
        0 <= k < (COORD_RADIX as int) * (COORD_RADIX as int),
    ensures
        0 <= k / (COORD_RADIX as int) < (COORD_RADIX as int),
        0 <= k % (COORD_RADIX as int) < (COORD_RADIX as int),
{
    let m = (COORD_RADIX as int);
    assert(0 <= k / m < m && 0 <= k % m < m) by (nonlinear_arith)
        requires
            0 <= k < m * m,
            m > 0,
    ;
}

/// Unpacking a packed coordinate pair gives the pair back: the pairing is a
/// bijection between `i64` coordinate pairs and `u128` keys.
pub proof fn lemma_unpack_pack(c: (int, int))
    requires
        coord_in_range(c),
    ensures
        unpack_spec(pack_spec(c)) == c,
{
    let m = (COORD_RADIX as int);
    let a = c.0 + COORD_OFFSET;
    let b = c.1 + COORD_OFFSET;
    vstd::arithmetic::div_mod::lemma_fundamental_div_mod_converse(a * m + b, m, a, b);
}

/// No two distinct cells share a key.
pub proof fn lemma_pack_injective(c1: (int, int), c2: (int, int))
    requires
        coord_in_range(c1),
        coord_in_range(c2),
        pack_spec(c1) == pack_spec(c2),
    ensures
        c1 == c2,
{
    lemma_unpack_pack(c1);
    lemma_unpack_pack(c2);
}

/// For an in-range cell, the `u128` key carries exactly the pairing, and
/// unpacking the key gives the cell back.
pub broadcast proof fn lemma_key_of(c: (int, int))
    requires
        coord_in_range(c),
    ensures
        (#[trigger] key_of(c)) as int == pack_spec(c),
        unpack_spec(key_of(c) as int) == c,
{
    let m = (COORD_RADIX as int);
    assert(0 <= pack_spec(c) < m * m) by (nonlinear_arith)
        requires
            0 <= c.0 + COORD_OFFSET < m,
            0 <= c.1 + COORD_OFFSET < m,
            m > 0,
            pack_spec(c) == (c.0 + COORD_OFFSET) * m + (c.1 + COORD_OFFSET),
    ;
    lemma_unpack_pack(c);
}

/// Every `u128` key unpacks to an in-range cell whose key it is: keys and
/// cells are in bijection.
pub broadcast proof fn lemma_unpack_key(k: u128)
    ensures
        coord_in_range(#[trigger] unpack_spec(k as int)),
        key_of(unpack_spec(k as int)) == k,
{
    let m = (COORD_RADIX as int);
    lemma_key_digits(k as int);
    vstd::arithmetic::div_mod::lemma_fundamental_div_mod(k as int, m);
    let c = unpack_spec(k as int);
    assert(pack_spec(c) == k as int);
}

} // verus!
