//! The content of a single board cell.

use vstd::prelude::*;

verus! {

/// What one cell of the generated grid holds.  Exactly one variant applies:
/// a cell is never both mined and counted.
#[derive(Debug, Copy, Clone, Eq, PartialEq, Hash, Structural)]
pub enum Tile {
    /// No bomb here and no bomb on any Moore neighbor.
    Empty,
    /// No bomb here; the payload is the number of mined Moore neighbors,
    /// always in `1..=8`.
    BombNeighbor(u8),
    /// The cell itself is mined.
    Bomb,
}

impl Tile {
    /// True when the cell is mined.
    pub open spec fn spec_is_bomb(self) -> bool {
        self is Bomb
    }

    /// True when the cell is mined.
    pub fn is_bomb(&self) -> (r: bool)
        ensures
            r == self.spec_is_bomb(),
    {
        match self {
            Tile::Bomb => true,
            _ => false,
        }
    }

    /// True when the cell is safe and borders no bomb.
    pub fn is_empty(&self) -> (r: bool)
        ensures
            r == (*self is Empty),
    {
        match self {
            Tile::Empty => true,
            _ => false,
        }
    }

    /// One character of the textual debug rendering: `'*'` for a bomb,
    /// a digit for a counted cell, a space for an empty one.
    pub open spec fn spec_console_char(self) -> char {
        match self {
            Tile::Empty => ' ',
            Tile::Bomb => '*',
            Tile::BombNeighbor(n) => (('0' as u8) + n) as char,
        }
    }

    /// The character the debug rendering uses for this tile.
    pub fn console_char(&self) -> (r: char)
        requires
            *self matches Tile::BombNeighbor(n) ==> 1 <= n <= 8,
        ensures
            r == self.spec_console_char(),
    {
        match self {
            Tile::Empty => ' ',
            Tile::Bomb => '*',
            Tile::BombNeighbor(n) => (('0' as u8) + n) as char,
        }
    }
}

} // verus!
