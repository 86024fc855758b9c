use vstd::prelude::*;

verus! {

/// One cell of the dungeon grid.
///
/// `blocked` and `block_sight` are fixed during generation; `explored`
/// starts out false and only ever moves from false to true afterwards.
#[derive(Clone, Copy, Debug, PartialEq, Eq, Structural)]
pub struct Tile {
    pub blocked: bool,
    pub block_sight: bool,
    pub explored: bool,
}

impl Tile {
    /// An open floor tile: passable, transparent, not yet seen.
    pub open spec fn spec_empty() -> Tile {
        Tile { blocked: false, block_sight: false, explored: false }
    }

    /// A solid wall tile: impassable, opaque, not yet seen.
    pub open spec fn spec_wall() -> Tile {
        Tile { blocked: true, block_sight: true, explored: false }
    }

    pub fn empty() -> (t: Tile)
        ensures
            t == Tile::spec_empty(),
    {
        Tile { blocked: false, block_sight: false, explored: false }
    }

    pub fn wall() -> (t: Tile)
        ensures
            t == Tile::spec_wall(),
    {
        Tile { blocked: true, block_sight: true, explored: false }
    }
}

/// The ways a library call can fail.
#[derive(Clone, Copy, Debug, PartialEq, Eq, Structural)]
pub enum MapError {
    /// A coordinate lay outside the grid.
    OutOfBounds,
    /// Dimensions or room size bounds that generation cannot work with.
    InvalidConfiguration,
}

} // verus!
