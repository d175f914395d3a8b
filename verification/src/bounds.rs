//! The board's bounding rectangle in pointer space.

use vstd::prelude::*;

verus! {

/// A point of the world space the board lives in: integer units, origin at
/// the window center, Y growing upwards.
#[derive(Debug, Copy, Clone, Eq, PartialEq, Hash, Structural)]
pub struct Point2 {
    pub x: i64,
    pub y: i64,
}

/// A rectangle size in world units.
#[derive(Debug, Copy, Clone, Eq, PartialEq, Hash, Structural)]
pub struct Extent2 {
    pub width: u64,
    pub height: u64,
}

/// An axis-aligned rectangle: bottom-left corner plus size.
#[derive(Debug, Copy, Clone, Eq, PartialEq, Hash, Structural)]
pub struct Bounds2 {
    pub position: Point2,
    pub size: Extent2,
}

impl Bounds2 {
    /// The point `(x, y)` lies inside the rectangle; all four edges count as
    /// inside.
    pub open spec fn spec_in_bounds(self, x: int, y: int) -> bool {
        &&& self.position.x <= x <= self.position.x + self.size.width
        &&& self.position.y <= y <= self.position.y + self.size.height
    }

    /// Containment test for a world-space point.
    pub fn in_bounds(&self, x: i64, y: i64) -> (r: bool)
        ensures
            r == self.spec_in_bounds(x as int, y as int),
    {
        let px = self.position.x as i128;
        let py = self.position.y as i128;
        px <= x as i128 && x as i128 <= px + self.size.width as i128 && py <= y as i128
            && y as i128 <= py + self.size.height as i128
    }
}

} // verus!
