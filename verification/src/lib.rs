//! Logical core of a Minesweeper-style puzzle.
//!
//! The crate generates a rectangular grid of mined and safe cells with
//! per-cell adjacency counts, keeps track of which cells are still covered,
//! and resolves reveal requests, including the cascading auto-reveal of
//! connected empty regions.  Rendering, input plumbing and scheduling are
//! left to the surrounding application; the core exchanges plain values
//! with it (coordinates, tiles, and opaque cover handles).

pub mod board;
pub mod bounds;
pub mod components;
pub mod coordinates;
pub mod events;
pub mod rng;
pub mod tile;
pub mod tile_map;
pub mod uncover;
