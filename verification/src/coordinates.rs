//! Grid coordinates and the Moore (8-cell) neighborhood.

use vstd::prelude::*;

verus! {

/// A cell position on the board: column `x`, row `y`, both zero based.
/// The origin is the bottom-left corner of the board.
#[derive(Debug, Copy, Clone, Eq, PartialEq, Hash, Structural)]
pub struct Coordinates {
    pub x: u16,
    pub y: u16,
}

/// True when `c` lies on a grid of `width` columns and `height` rows.
pub open spec fn in_grid(width: int, height: int, c: Coordinates) -> bool {
    c.x < width && c.y < height
}

/// True when `b` is one of the up-to-8 Moore neighbors of `a`
/// (horizontally, vertically or diagonally adjacent, and distinct).
pub open spec fn adjacent(a: Coordinates, b: Coordinates) -> bool {
    &&& a != b
    &&& -1 <= b.x - a.x <= 1
    &&& -1 <= b.y - a.y <= 1
}

/// Column offset of the `k`-th Moore neighbor, in row-major scan order.
pub open spec fn moore_dx(k: int) -> int {
    if k == 0 || k == 3 || k == 5 {
        -1
    } else if k == 1 || k == 6 {
        0
    } else {
        1
    }
}

/// Row offset of the `k`-th Moore neighbor, in row-major scan order.
pub open spec fn moore_dy(k: int) -> int {
    if k <= 2 {
        -1
    } else if k <= 4 {
        0
    } else {
        1
    }
}

/// Row-major position of `c` on a grid of `w` columns: distinct cells of one
/// grid have distinct indices.
pub open spec fn cell_index(w: int, c: Coordinates) -> int {
    c.y as int * w + c.x as int
}

/// `b` is the `k`-th Moore neighbor of `a`.
pub open spec fn neighbor_at(a: Coordinates, b: Coordinates, k: int) -> bool {
    b.x == a.x + moore_dx(k) && b.y == a.y + moore_dy(k)
}

/// Adjacency is exactly "being one of the 8 Moore offsets": the offset
/// enumeration misses no adjacent cell and contains no other.
pub proof fn lemma_adjacent_iff_offset(a: Coordinates, b: Coordinates)
    ensures
        adjacent(a, b) <==> exists|k: int| 0 <= k < 8 && neighbor_at(a, b, k),
{
    if adjacent(a, b) {
        let dx = b.x - a.x;
        let dy = b.y - a.y;
        if dy == -1 {
            if dx == -1 {
                assert(neighbor_at(a, b, 0));
            } else if dx == 0 {
                assert(neighbor_at(a, b, 1));
            } else {
                assert(neighbor_at(a, b, 2));
            }
        } else if dy == 0 {
            if dx == -1 {
                assert(neighbor_at(a, b, 3));
            } else {
                assert(neighbor_at(a, b, 4));
            }
        } else {
            if dx == -1 {
                assert(neighbor_at(a, b, 5));
            } else if dx == 0 {
                assert(neighbor_at(a, b, 6));
            } else {
                assert(neighbor_at(a, b, 7));
            }
        }
    }
}

impl Coordinates {
    /// Builds a coordinate pair.
    pub fn new(x: u16, y: u16) -> (r: Coordinates)
        ensures
            r.x == x && r.y == y,
    {
        Coordinates { x, y }
    }

    /// The `k`-th Moore neighbor of `self`, or `None` when that offset
    /// leaves the `width`-by-`height` grid.
    pub fn neighbor(&self, k: usize, width: u16, height: u16) -> (r: Option<Coordinates>)
        requires
            k < 8,
        ensures
            match r {
                Some(c) => neighbor_at(*self, c, k as int) && in_grid(
                    width as int,
                    height as int,
                    c,
                ),
                None => forall|c: Coordinates|
                    neighbor_at(*self, c, k as int) ==> !in_grid(width as int, height as int, c),
            },
    {
        let dx: i32 = if k == 0 || k == 3 || k == 5 {
            -1
        } else if k == 1 || k == 6 {
            0
        } else {
            1
        };
        let dy: i32 = if k <= 2 {
            -1
        } else if k <= 4 {
            0
        } else {
            1
        };
        let nx: i32 = self.x as i32 + dx;
        let ny: i32 = self.y as i32 + dy;
        if 0 <= nx && nx < width as i32 && 0 <= ny && ny < height as i32 {
            Some(Coordinates { x: nx as u16, y: ny as u16 })
        } else {
            None
        }
    }
}

} // verus!
