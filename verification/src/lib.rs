//! A sparse engine for Conway's Game of Life on a two-dimensional signed
//! integer grid.
//!
//! The crate has three independent parts: the live-cell store and its
//! generation rule ([`grid`]), the pure screen/cell coordinate transform
//! ([`transform`]), and the small mode machine that a host uses to gate
//! editing and ticking ([`state`]). Cells are addressed by [`cell::Point`]
//! coordinates; the store keys them by an injective pairing of the two
//! coordinates into one integer ([`cell::cell_key`]).

pub mod cell;
pub mod grid;
pub mod state;
pub mod transform;
