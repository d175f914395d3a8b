//! Marker values the renderer attaches to cells it draws.
//!
//! The core reports each revealed cell's kind; these two plain components
//! carry that kind in a renderer-friendly shape.

use vstd::prelude::*;

verus! {

/// Marks a mined cell.
#[derive(Debug, Copy, Clone, Ord, PartialOrd, Eq, PartialEq, Hash, Structural)]
pub struct Bomb;

/// Marks a safe cell that borders at least one bomb.
#[derive(Debug, Copy, Clone, Ord, PartialOrd, Eq, PartialEq, Hash, Structural)]
pub struct BombNeighbor {
    /// Number of neighbor bombs.
    pub count: u8,
}

} // verus!
