//! Tiles and move directions.
use vstd::prelude::*;

verus! {

/// A numbered tile.  `val` is a power of two, at least 2.  `id` is assigned
/// at spawn from a monotonically increasing counter; it is kept through
/// slides, and a merge keeps the destination tile's identifier.
#[derive(Clone, Copy, PartialEq, Eq, Structural, Debug)]
pub struct Tile {
    pub val: u32,
    pub id: usize,
}

/// The four directions a move can take.
#[derive(Clone, Copy, PartialEq, Eq, Structural, Debug)]
pub enum Direction {
    Up,
    Down,
    Left,
    Right,
}

/// `v` is a power of two.
pub open spec fn is_pow2(v: int) -> bool
    decreases v,
{
    if v <= 0 {
        false
    } else if v == 1 {
        true
    } else {
        v % 2 == 0 && is_pow2(v / 2)
    }
}

/// A value a tile may hold: a power of two, at least 2.
pub open spec fn is_tile_val(v: u32) -> bool {
    v >= 2 && is_pow2(v as int)
}

} // verus!
