//! Runtime board state: the generated grid, its bounding rectangle, and the
//! map from covered cells to the renderer's cover handles.

use std::collections::HashMap;
use vstd::prelude::*;

use crate::bounds::{Bounds2, Extent2, Point2};
use crate::coordinates::{adjacent, cell_index, in_grid, neighbor_at, Coordinates};
use crate::coordinates::lemma_adjacent_iff_offset;
use crate::rng::Lcg;
use crate::tile_map::TileMap;

verus! {

broadcast use vstd::std_specs::hash::group_hash_axioms;

/// An opaque, equality-comparable reference to whatever visual resource
/// represents one hidden cell.  The renderer supplies and disposes of it;
/// the core never interprets it.
#[derive(Debug, Copy, Clone, Eq, PartialEq, Hash, Structural)]
pub struct CoverHandle {
    pub id: u64,
}

/// The key under which a cell's cover handle is stored: column and row
/// packed into one integer, so distinct cells get distinct keys.
pub open spec fn coord_key(c: Coordinates) -> u64 {
    (c.x as int * 0x10000 + c.y as int) as u64
}

/// Distinct coordinates have distinct cover keys.
pub proof fn lemma_coord_key_injective(a: Coordinates, b: Coordinates)
    requires
        coord_key(a) == coord_key(b),
    ensures
        a == b,
{
    assert(a.x as int * 0x10000 + a.y as int == b.x as int * 0x10000 + b.y as int);
}

/// Distinct cells of one grid have distinct row-major indices.
pub proof fn lemma_cell_index_injective(w: int, a: Coordinates, b: Coordinates)
    requires
        w > 0,
        (a.x as int) < w,
        (b.x as int) < w,
        cell_index(w, a) == cell_index(w, b),
    ensures
        a == b,
{
    assert(a.y as int == b.y as int && a.x as int == b.x as int) by (nonlinear_arith)
        requires
            w > 0,
            0 <= (a.x as int) && (a.x as int) < w,
            0 <= (b.x as int) && (b.x as int) < w,
            a.y as int * w + a.x as int == b.y as int * w + b.x as int,
    ;
}

/// A grid cell's row-major index lies below the cell count.
pub proof fn lemma_cell_index_bound(w: int, h: int, c: Coordinates)
    requires
        in_grid(w, h, c),
    ensures
        0 <= cell_index(w, c) && cell_index(w, c) < h * w,
{
    assert(0 <= c.y as int * w + c.x as int && (c.y as int * w + c.x as int) < h * w)
        by (nonlinear_arith)
        requires
            0 <= (c.x as int) && (c.x as int) < w,
            0 <= (c.y as int) && (c.y as int) < h,
    ;
}

/// The horizontal world coordinate of a pointer at window position `px`,
/// for a window `window_width` wide: the window's top-left origin moves to
/// the center.
pub open spec fn world_x(px: int, window_width: int) -> int {
    px - window_width / 2
}

/// The vertical world coordinate of a pointer at window position `py`, for
/// a window `window_height` tall: the Y axis flips so it grows upwards from
/// the center.
pub open spec fn world_y(py: int, window_height: int) -> int {
    window_height / 2 - py
}

/// The mutable runtime state of one game: the immutable tile grid, the
/// board's rectangle in world space, the cell size used for pointer
/// translation, and one cover handle per still-hidden cell.
pub struct Board {
    pub tile_map: TileMap,
    pub bounds: Bounds2,
    pub tile_size: u32,
    pub covered_tiles: HashMap<u64, CoverHandle>,
}

impl Board {
    /// The cell at `c` is still covered.
    pub open spec fn is_covered_spec(self, c: Coordinates) -> bool {
        self.covered_tiles@.contains_key(coord_key(c))
    }

    /// The cover handle stored for the cell at `c`.
    pub open spec fn cover_of(self, c: Coordinates) -> CoverHandle {
        self.covered_tiles@[coord_key(c)]
    }

    /// Well-formed board: a well-formed grid, a positive cell size, a
    /// rectangle of exactly `width x height` cells, and cover entries only
    /// for grid cells.
    pub open spec fn wf(self) -> bool {
        &&& self.tile_map.wf()
        &&& self.tile_size > 0
        &&& self.bounds.size.width == self.tile_map.width as int * self.tile_size as int
        &&& self.bounds.size.height == self.tile_map.height as int * self.tile_size as int
        &&& forall|c: Coordinates|
            #[trigger] self.is_covered_spec(c) ==> in_grid(
                self.tile_map.width as int,
                self.tile_map.height as int,
                c,
            )
    }

    /// Builds the board state for a finished grid: every cell starts
    /// covered, the cell with row-major index `i` under the handle
    /// `handles[i]`.
    pub fn new(tile_map: TileMap, position: Point2, tile_size: u32, handles: &Vec<CoverHandle>)
        -> (r: Board)
        requires
            tile_map.wf(),
            tile_size > 0,
            handles@.len() == tile_map.width as int * tile_map.height as int,
        ensures
            r.wf(),
            r.tile_map == tile_map,
            r.tile_size == tile_size,
            r.bounds.position == position,
            forall|c: Coordinates|
                #[trigger] r.is_covered_spec(c) <==> in_grid(
                    tile_map.width as int,
                    tile_map.height as int,
                    c,
                ),
            forall|c: Coordinates|
                in_grid(tile_map.width as int, tile_map.height as int, c)
                    ==> #[trigger] r.cover_of(c) == handles@[cell_index(
                    tile_map.width as int,
                    c,
                )],
    {
        let width = tile_map.width();
        let height = tile_map.height();
        let ghost w = width as int;
        let ghost h = height as int;
        proof {
            assert(width as int * tile_size as int <= 0xFFFF * 0xFFFFFFFF
                && height as int * tile_size as int <= 0xFFFF * 0xFFFFFFFF) by (nonlinear_arith)
                requires
                    width as int <= 0xFFFF,
                    height as int <= 0xFFFF,
                    tile_size as int <= 0xFFFFFFFF,
            ;
        }
        let size = Extent2 {
            width: width as u64 * tile_size as u64,
            height: height as u64 * tile_size as u64,
        };
        let mut covered: HashMap<u64, CoverHandle> = HashMap::new();
        let mut n: usize = 0;
        let mut y: u16 = 0;
        #[verifier::loop_isolation(false)]
        while y < height
            invariant
                y <= height,
                n as int == y as int * w,
                forall|c: Coordinates|
                    #[trigger] covered@.contains_key(coord_key(c)) <==> (in_grid(w, h, c)
                        && cell_index(w, c) < n as int),
                forall|c: Coordinates|
                    in_grid(w, h, c) && cell_index(w, c) < n as int ==> #[trigger] covered@[
                    coord_key(c)] == handles@[cell_index(w, c)],
            decreases height - y,
        {
            let mut x: u16 = 0;
            #[verifier::loop_isolation(false)]
            while x < width
                invariant
                    y < height,
                    x <= width,
                    n as int == y as int * w + x as int,
                    forall|c: Coordinates|
                        #[trigger] covered@.contains_key(coord_key(c)) <==> (in_grid(w, h, c)
                            && cell_index(w, c) < n as int),
                    forall|c: Coordinates|
                        in_grid(w, h, c) && cell_index(w, c) < n as int ==> #[trigger] covered@[
                        coord_key(c)] == handles@[cell_index(w, c)],
                decreases width - x,
            {
                let cell = Coordinates { x, y };
                proof {
                    assert(cell_index(w, cell) == n as int);
                    assert(cell_index(w, cell) < w * h && w * h <= 0xFFFF * 0xFFFF)
                        by (nonlinear_arith)
                        requires
                            cell_index(w, cell) == cell.y as int * w + cell.x as int,
                            0 <= (cell.x as int) && (cell.x as int) < w,
                            0 <= (cell.y as int) && (cell.y as int) < h,
                            w <= 0xFFFF,
                            h <= 0xFFFF,
                    ;
                }
                let key: u64 = cell.x as u64 * 0x10000 + cell.y as u64;
                let ghost pre = covered@;
                covered.insert(key, handles[n]);
                proof {
                    assert(key == coord_key(cell));
                    assert forall|c: Coordinates| #[trigger]
                        covered@.contains_key(coord_key(c)) <==> (in_grid(w, h, c)
                            && cell_index(w, c) < n as int + 1) by {
                        if c != cell {
                            if coord_key(c) == coord_key(cell) {
                                lemma_coord_key_injective(c, cell);
                            }
                            if in_grid(w, h, c) && cell_index(w, c) == n as int {
                                lemma_cell_index_injective(w, c, cell);
                            }
                        }
                    }
                    assert forall|c: Coordinates|
                        in_grid(w, h, c) && cell_index(w, c) < n as int + 1 implies #[trigger]
                    covered@[coord_key(c)] == handles@[cell_index(w, c)] by {
                        if c == cell {
                            assert(covered@[coord_key(cell)] == handles@[n as int]);
                        } else {
                            if coord_key(c) == coord_key(cell) {
                                lemma_coord_key_injective(c, cell);
                            }
                            assert(covered@[coord_key(c)] == pre[coord_key(c)]);
                            if cell_index(w, c) == n as int {
                                lemma_cell_index_injective(w, c, cell);
                            }
                        }
                    }
                }
                n = n + 1;
                x = x + 1;
            }
            proof {
                assert((y as int + 1) * w == y as int * w + w) by (nonlinear_arith);
            }
            y = y + 1;
        }
        proof {
            assert forall|c: Coordinates| in_grid(w, h, c) implies cell_index(w, c)
                < n as int by {
                lemma_cell_index_bound(w, h, c);
            }
        }
        Board { tile_map, bounds: Bounds2 { position, size }, tile_size, covered_tiles: covered }
    }

    /// Translates a pointer position (top-left window origin, Y growing
    /// down) to the board cell under it: `None` when the pointer is outside
    /// the board's rectangle or past the last cell.
    pub fn mouse_position(&self, window_width: u32, window_height: u32, px: i64, py: i64) -> (r:
        Option<Coordinates>)
        requires
            self.wf(),
        ensures
            ({
                let wx = world_x(px as int, window_width as int);
                let wy = world_y(py as int, window_height as int);
                let cx = (wx - self.bounds.position.x) / self.tile_size as int;
                let cy = (wy - self.bounds.position.y) / self.tile_size as int;
                match r {
                    Some(c) => self.bounds.spec_in_bounds(wx, wy) && in_grid(
                        self.tile_map.width as int,
                        self.tile_map.height as int,
                        c,
                    ) && c.x as int == cx && c.y as int == cy,
                    None => !self.bounds.spec_in_bounds(wx, wy) || cx
                        >= self.tile_map.width as int || cy >= self.tile_map.height as int,
                }
            }),
    {
        let wx: i128 = px as i128 - (window_width / 2) as i128;
        let wy: i128 = (window_height / 2) as i128 - py as i128;
        let bx = self.bounds.position.x as i128;
        let by = self.bounds.position.y as i128;
        if !(bx <= wx && wx <= bx + self.bounds.size.width as i128 && by <= wy && wy <= by
            + self.bounds.size.height as i128) {
            return None;
        }
        let dx: u64 = (wx - bx) as u64;
        let dy: u64 = (wy - by) as u64;
        let cx: u64 = dx / self.tile_size as u64;
        let cy: u64 = dy / self.tile_size as u64;
        if cx < self.tile_map.width() as u64 && cy < self.tile_map.height() as u64 {
            Some(Coordinates { x: cx as u16, y: cy as u16 })
        } else {
            None
        }
    }

    /// The cell at `c` is still covered.
    pub fn is_covered(&self, c: &Coordinates) -> (r: bool)
        ensures
            r == self.is_covered_spec(*c),
    {
        let key: u64 = c.x as u64 * 0x10000 + c.y as u64;
        proof {
            assert(key == coord_key(*c));
        }
        self.covered_tiles.contains_key(&key)
    }

    /// The cover handle of `c`, when the cell is still covered.  Read-only.
    pub fn tile_to_uncover(&self, coords: &Coordinates) -> (r: Option<CoverHandle>)
        ensures
            r == if self.is_covered_spec(*coords) {
                Some(self.cover_of(*coords))
            } else {
                None::<CoverHandle>
            },
    {
        let key: u64 = coords.x as u64 * 0x10000 + coords.y as u64;
        proof {
            assert(key == coord_key(*coords));
        }
        match self.covered_tiles.get(&key) {
            Some(h) => Some(*h),
            None => None,
        }
    }

    /// Uncovers the cell at `coords`: removes and returns its cover handle.
    /// `None` when the cell is already uncovered or off the grid — the call
    /// is then a no-op.  This is the only operation that mutates the board,
    /// and removal is the one authoritative signal that a cell is revealed.
    pub fn try_uncover_tile(&mut self, coords: &Coordinates) -> (r: Option<CoverHandle>)
        ensures
            final(self).tile_map == old(self).tile_map,
            final(self).bounds == old(self).bounds,
            final(self).tile_size == old(self).tile_size,
            final(self).covered_tiles@ == old(self).covered_tiles@.remove(coord_key(*coords)),
            r == if old(self).is_covered_spec(*coords) {
                Some(old(self).cover_of(*coords))
            } else {
                None::<CoverHandle>
            },
            old(self).wf() ==> final(self).wf(),
    {
        let key: u64 = coords.x as u64 * 0x10000 + coords.y as u64;
        proof {
            assert(key == coord_key(*coords));
        }
        let r = self.covered_tiles.remove(&key);
        proof {
            if old(self).wf() {
                assert forall|c: Coordinates| #[trigger] self.is_covered_spec(c) implies in_grid(
                    self.tile_map.width as int,
                    self.tile_map.height as int,
                    c,
                ) by {
                    assert(old(self).is_covered_spec(c));
                }
            }
        }
        r
    }

    /// The still-covered cells among the up-to-8 Moore neighbors of `coord`,
    /// in row-major neighbor-scan order, each exactly once.
    pub fn adjacent_covered_tiles(&self, coord: Coordinates) -> (r: Vec<Coordinates>)
        ensures
            r@.len() <= 8,
            r@.no_duplicates(),
            forall|c: Coordinates|
                #[trigger] r@.contains(c) <==> (in_grid(
                    self.tile_map.width as int,
                    self.tile_map.height as int,
                    c,
                ) && adjacent(coord, c) && self.is_covered_spec(c)),
    {
        let ghost w = self.tile_map.width as int;
        let ghost h = self.tile_map.height as int;
        let mut r: Vec<Coordinates> = Vec::new();
        let mut k: usize = 0;
        #[verifier::loop_isolation(false)]
        while k < 8
            invariant
                k <= 8,
                r@.len() <= k,
                r@.no_duplicates(),
                forall|c: Coordinates|
                    #[trigger] r@.contains(c) <==> (exists|j: int|
                        0 <= j < k as int && neighbor_at(coord, c, j) && in_grid(w, h, c)
                            && self.is_covered_spec(c)),
            decreases 8 - k,
        {
            match coord.neighbor(k, self.tile_map.width(), self.tile_map.height()) {
                Some(nb) => {
                    if self.is_covered(&nb) {
                        proof {
                            if r@.contains(nb) {
                                let j = choose|j: int|
                                    0 <= j < k as int && neighbor_at(coord, nb, j) && in_grid(
                                        w,
                                        h,
                                        nb,
                                    ) && self.is_covered_spec(nb);
                                assert(nb.x as int == coord.x as int + crate::coordinates::moore_dx(
                                    j,
                                ));
                                assert(false);
                            }
                            assert forall|c: Coordinates| #[trigger]
                                r@.push(nb).contains(c) <==> (exists|j: int|
                                    0 <= j < k as int + 1 && neighbor_at(coord, c, j) && in_grid(
                                        w,
                                        h,
                                        c,
                                    ) && self.is_covered_spec(c)) by {
                                if r@.push(nb).contains(c) {
                                    if c == nb {
                                        assert(neighbor_at(coord, c, k as int));
                                    } else {
                                        assert(r@.contains(c));
                                    }
                                } else {
                                    if exists|j: int|
                                        0 <= j < k as int + 1 && neighbor_at(coord, c, j)
                                            && in_grid(w, h, c) && self.is_covered_spec(c) {
                                        let j = choose|j: int|
                                            0 <= j < k as int + 1 && neighbor_at(coord, c, j)
                                                && in_grid(w, h, c) && self.is_covered_spec(c);
                                        if j < k as int {
                                            assert(r@.contains(c));
                                            assert(r@.push(nb).contains(c)) by {
                                                let a = choose|a: int|
                                                    0 <= a < r@.len() && r@[a] == c;
                                                assert(r@.push(nb)[a] == c);
                                            }
                                        } else {
                                            assert(c == nb) by {
                                                assert(neighbor_at(coord, c, k as int));
                                                assert(neighbor_at(coord, nb, k as int));
                                            }
                                            assert(r@.push(nb)[r@.len() as int] == nb);
                                        }
                                        assert(false);
                                    }
                                }
                            }
                        }
                        r.push(nb);
                    } else {
                        proof {
                            assert forall|c: Coordinates| #[trigger]
                                r@.contains(c) <==> (exists|j: int|
                                    0 <= j < k as int + 1 && neighbor_at(coord, c, j) && in_grid(
                                        w,
                                        h,
                                        c,
                                    ) && self.is_covered_spec(c)) by {
                                if !r@.contains(c) {
                                    if exists|j: int|
                                        0 <= j < k as int + 1 && neighbor_at(coord, c, j)
                                            && in_grid(w, h, c) && self.is_covered_spec(c) {
                                        let j = choose|j: int|
                                            0 <= j < k as int + 1 && neighbor_at(coord, c, j)
                                                && in_grid(w, h, c) && self.is_covered_spec(c);
                                        if j == k as int {
                                            assert(c == nb) by {
                                                assert(neighbor_at(coord, nb, k as int));
                                            }
                                            assert(false);
                                        }
                                    }
                                }
                            }
                        }
                    }
                },
                None => {
                    proof {
                        assert forall|c: Coordinates| #[trigger]
                            r@.contains(c) <==> (exists|j: int|
                                0 <= j < k as int + 1 && neighbor_at(coord, c, j) && in_grid(
                                    w,
                                    h,
                                    c,
                                ) && self.is_covered_spec(c)) by {
                            if !r@.contains(c) {
                                if exists|j: int|
                                    0 <= j < k as int + 1 && neighbor_at(coord, c, j) && in_grid(
                                        w,
                                        h,
                                        c,
                                    ) && self.is_covered_spec(c) {
                                    let j = choose|j: int|
                                        0 <= j < k as int + 1 && neighbor_at(coord, c, j)
                                            && in_grid(w, h, c) && self.is_covered_spec(c);
                                    assert(j == k as int);
                                    assert(false);
                                }
                            }
                        }
                    }
                },
            }
            k = k + 1;
        }
        proof {
            assert forall|c: Coordinates| #[trigger]
                r@.contains(c) <==> (in_grid(w, h, c) && adjacent(coord, c)
                    && self.is_covered_spec(c)) by {
                lemma_adjacent_iff_offset(coord, c);
            }
        }
        r
    }
}

/// How the cell size is chosen: a fixed value, or fitted to the window
/// within `[min, max]`.
#[derive(Debug, Copy, Clone, Eq, PartialEq, Hash, Structural)]
pub enum TileSize {
    Fixed(u32),
    Adaptive { min: u32, max: u32 },
}

/// Where the board sits in world space: centered with an offset, or at an
/// explicit bottom-left position.
#[derive(Debug, Copy, Clone, Eq, PartialEq, Hash, Structural)]
pub enum BoardPosition {
    Centered { offset: Point2 },
    Custom(Point2),
}

/// The configuration consumed once at setup.
#[derive(Debug, Copy, Clone)]
pub struct BoardOptions {
    /// Grid size: (columns, rows).
    pub map_size: (u16, u16),
    /// Requested bomb count; clamped during generation.
    pub bomb_count: u16,
    /// Board placement policy.
    pub position: BoardPosition,
    /// Cell sizing policy.
    pub tile_size: TileSize,
    /// Padding between rendered tiles, in world units; rendering only.
    pub tile_padding: u32,
    /// Whether the first reveal is kept free of bombs.
    pub safe_start: bool,
}

impl BoardOptions {
    /// The default configuration.
    pub open spec fn spec_default() -> BoardOptions {
        BoardOptions {
            map_size: (15, 15),
            bomb_count: 30,
            position: BoardPosition::Centered { offset: Point2 { x: 0, y: 0 } },
            tile_size: TileSize::Adaptive { min: 10, max: 50 },
            tile_padding: 0,
            safe_start: false,
        }
    }

    /// The options describe a board that can be built.
    pub open spec fn wf(self) -> bool {
        &&& self.map_size.0 > 0
        &&& self.map_size.1 > 0
        &&& match self.tile_size {
            TileSize::Fixed(v) => v > 0,
            TileSize::Adaptive { min, max } => min > 0 && min <= max,
        }
        &&& match self.position {
            BoardPosition::Centered { offset } => -0x1000_0000_0000_0000 <= offset.x
                <= 0x1000_0000_0000_0000 && -0x1000_0000_0000_0000 <= offset.y
                <= 0x1000_0000_0000_0000,
            BoardPosition::Custom(_) => true,
        }
    }
}

impl Default for BoardOptions {
    /// A 15-by-15 grid with 30 bombs, centered, adaptive cell size, no
    /// safe start.
    fn default() -> (r: BoardOptions)
        ensures
            r == BoardOptions::spec_default(),
    {
        BoardOptions {
            map_size: (15, 15),
            bomb_count: 30,
            position: BoardPosition::Centered { offset: Point2 { x: 0, y: 0 } },
            tile_size: TileSize::Adaptive { min: 10, max: 50 },
            tile_padding: 0,
            safe_start: false,
        }
    }
}

impl Board {
    /// The cell size the options pick for the given window.
    pub open spec fn spec_chosen_tile_size(
        options: BoardOptions,
        window_width: int,
        window_height: int,
    ) -> int {
        match options.tile_size {
            TileSize::Fixed(v) => v as int,
            TileSize::Adaptive { min, max } => spec_adaptive_tile_size(
                window_width,
                window_height,
                min as int,
                max as int,
                options.map_size.0 as int,
                options.map_size.1 as int,
            ),
        }
    }

    /// The bottom-left world position the options pick for a board of the
    /// given size.
    pub open spec fn spec_chosen_position(options: BoardOptions, ts: int) -> Point2 {
        match options.position {
            BoardPosition::Custom(p) => p,
            BoardPosition::Centered { offset } => Point2 {
                x: (offset.x - (options.map_size.0 as int * ts) / 2) as i64,
                y: (offset.y - (options.map_size.1 as int * ts) / 2) as i64,
            },
        }
    }

    /// Builds the whole game state from the configuration: generates the
    /// grid (honoring `safe_cell` when the safe-start flag is set), picks
    /// the cell size and the board position, and covers every cell with its
    /// handle.
    pub fn from_options(
        options: &BoardOptions,
        safe_cell: Option<Coordinates>,
        window_width: u32,
        window_height: u32,
        handles: &Vec<CoverHandle>,
        rng: &mut Lcg,
    ) -> (r: Board)
        requires
            options.wf(),
            handles@.len() == options.map_size.0 as int * options.map_size.1 as int,
        ensures
            r.wf(),
            r.tile_map.generation_ok(
                options.map_size.0,
                options.map_size.1,
                options.bomb_count,
                if options.safe_start {
                    safe_cell
                } else {
                    None
                },
            ),
            r.tile_size as int == Self::spec_chosen_tile_size(
                *options,
                window_width as int,
                window_height as int,
            ),
            r.bounds.position == Self::spec_chosen_position(*options, r.tile_size as int),
            forall|c: Coordinates|
                #[trigger] r.is_covered_spec(c) <==> in_grid(
                    options.map_size.0 as int,
                    options.map_size.1 as int,
                    c,
                ),
            forall|c: Coordinates|
                in_grid(options.map_size.0 as int, options.map_size.1 as int, c)
                    ==> #[trigger] r.cover_of(c) == handles@[cell_index(
                    options.map_size.0 as int,
                    c,
                )],
    {
        let width = options.map_size.0;
        let height = options.map_size.1;
        let effective: Option<Coordinates> = if options.safe_start {
            safe_cell
        } else {
            None
        };
        let tile_map = TileMap::generate(width, height, options.bomb_count, effective, rng);
        let tile_size: u32 = match options.tile_size {
            TileSize::Fixed(v) => v,
            TileSize::Adaptive { min, max } => adaptive_tile_size(
                window_width,
                window_height,
                min,
                max,
                width,
                height,
            ),
        };
        let position: Point2 = match options.position {
            BoardPosition::Custom(p) => p,
            BoardPosition::Centered { offset } => {
                proof {
                    assert(width as int * tile_size as int <= 0xFFFF * 0xFFFFFFFF
                        && height as int * tile_size as int <= 0xFFFF * 0xFFFFFFFF)
                        by (nonlinear_arith)
                        requires
                            width as int <= 0xFFFF,
                            height as int <= 0xFFFF,
                            tile_size as int <= 0xFFFFFFFF,
                    ;
                }
                let half_w: i64 = (width as i64 * tile_size as i64) / 2;
                let half_h: i64 = (height as i64 * tile_size as i64) / 2;
                Point2 { x: offset.x - half_w, y: offset.y - half_h }
            },
        };
        Board::new(tile_map, position, tile_size, handles)
    }
}

/// The cell size that fits the grid into the window, clamped to
/// `[min, max]`.
pub open spec fn spec_adaptive_tile_size(
    window_width: int,
    window_height: int,
    min: int,
    max: int,
    w: int,
    h: int,
) -> int {
    let fit_w = window_width / w;
    let fit_h = window_height / h;
    let fit = if fit_w <= fit_h {
        fit_w
    } else {
        fit_h
    };
    if fit < min {
        min
    } else if fit > max {
        max
    } else {
        fit
    }
}

/// Computes the cell size that lets a `width`-by-`height` grid fill the
/// window, clamped to `[min, max]`.
pub fn adaptive_tile_size(
    window_width: u32,
    window_height: u32,
    min: u32,
    max: u32,
    width: u16,
    height: u16,
) -> (r: u32)
    requires
        width > 0,
        height > 0,
        min <= max,
    ensures
        r as int == spec_adaptive_tile_size(
            window_width as int,
            window_height as int,
            min as int,
            max as int,
            width as int,
            height as int,
        ),
{
    let fit_w: u32 = window_width / width as u32;
    let fit_h: u32 = window_height / height as u32;
    let fit: u32 = if fit_w <= fit_h {
        fit_w
    } else {
        fit_h
    };
    if fit < min {
        min
    } else if fit > max {
        max
    } else {
        fit
    }
}

} // verus!
