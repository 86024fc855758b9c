//! A procedurally generated dungeon grid with per-tile visibility and
//! exploration state for a single observer.
//!
//! The library builds a rectangular tile grid, places non-overlapping
//! rectangular rooms by rejection sampling, connects consecutive rooms with
//! L-shaped corridors, and then, tick by tick, computes which tiles an
//! observer currently sees and remembers every tile that has ever been seen.

pub mod tile;
pub mod rect;
pub mod grid;
pub mod rng;
pub mod path;
pub mod mapgen;
pub mod fov;
pub mod explore;
