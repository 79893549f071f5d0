//! Tile identifiers and the tile record handed over by preprocessing.

use vstd::prelude::*;

use crate::preprocessor::Pattern;

verus! {

/// A unique identifier for a tile: a dense, 0-based index.
pub type TileId = usize;

/// A list of `T` indexable by `TileId`.
pub type IdMap<T> = Vec<T>;

/// A tile: a pattern cut from the source image plus bookkeeping.
pub struct Tile {
    pub id: TileId,
    pub pattern: Pattern,
    pub frequency: u32,
}

} // verus!
