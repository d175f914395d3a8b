//! The generated tile grid: bomb placement and neighbor counts.

use vstd::prelude::*;

use crate::coordinates::{adjacent, cell_index, in_grid, Coordinates};
use crate::rng::Lcg;
use crate::tile::Tile;

verus! {

/// Row `y` of a `w`-column grid, left to right.
pub open spec fn row_cells(w: int, y: int) -> Seq<Coordinates> {
    Seq::new(w as nat, |x: int| Coordinates { x: x as u16, y: y as u16 })
}

/// The cells of the first `h` rows of a `w`-column grid, row-major.
pub open spec fn cells_upto(w: int, h: int) -> Seq<Coordinates>
    decreases h,
{
    if h <= 0 {
        Seq::empty()
    } else {
        cells_upto(w, h - 1) + row_cells(w, h - 1)
    }
}

/// Every cell of a `w`-by-`h` grid, row-major.
pub open spec fn all_cells(w: int, h: int) -> Seq<Coordinates> {
    cells_upto(w, h)
}

/// The safe-start exclusion zone: the chosen cell together with its Moore
/// neighbors.
pub open spec fn in_safe_zone(s: Coordinates, c: Coordinates) -> bool {
    c == s || adjacent(s, c)
}

/// Cells that may take a bomb when the zone around `s` is excluded.
pub open spec fn zone_free_pred(s: Coordinates) -> spec_fn(Coordinates) -> bool {
    |c: Coordinates| !in_safe_zone(s, c)
}

/// The grid cells outside the exclusion zone of `s`, row-major.
pub open spec fn free_cells(w: int, h: int, s: Coordinates) -> Seq<Coordinates> {
    all_cells(w, h).filter(zone_free_pred(s))
}

/// The predicate that keeps every cell.
pub open spec fn any_cell_pred() -> spec_fn(Coordinates) -> bool {
    |c: Coordinates| true
}

/// What the generator draws bombs from: every cell, or, with a safe-start
/// cell, only the cells outside its exclusion zone.
pub open spec fn keep_pred(s: Option<Coordinates>) -> spec_fn(Coordinates) -> bool {
    match s {
        Some(sc) => zone_free_pred(sc),
        None => any_cell_pred(),
    }
}

/// The candidate cells for bomb placement, row-major.
pub open spec fn candidate_cells(w: int, h: int, s: Option<Coordinates>) -> Seq<Coordinates> {
    all_cells(w, h).filter(keep_pred(s))
}

/// Filtering with the keep-everything predicate changes nothing.
proof fn lemma_filter_any(s: Seq<Coordinates>)
    ensures
        s.filter(any_cell_pred()) == s,
    decreases s.len(),
{
    reveal(Seq::filter);
    if s.len() > 0 {
        lemma_filter_any(s.drop_last());
        assert(s.filter(any_cell_pred()) =~= s);
    } else {
        assert(s.filter(any_cell_pred()) =~= s);
    }
}

/// A `w`-by-`h` grid has `w * h` cells.
proof fn lemma_cells_upto_len(w: int, h: int)
    requires
        w >= 0,
        h >= 0,
    ensures
        cells_upto(w, h).len() == w * h,
    decreases h,
{
    if h > 0 {
        lemma_cells_upto_len(w, h - 1);
        assert(w * (h - 1) + w == w * h) by (nonlinear_arith);
    } else {
        assert(w * h == 0) by (nonlinear_arith)
            requires
                h == 0,
        ;
    }
}

/// The bomb count actually placed for a request of `requested` bombs:
/// clamped so that at least one cell stays safe.
pub open spec fn clamped_bombs(w: int, h: int, requested: int) -> int {
    if requested <= w * h - 1 {
        requested
    } else {
        w * h - 1
    }
}

/// `g` is a rectangle of `h` rows, each `w` tiles wide.
pub open spec fn grid_shaped(g: Seq<Seq<Tile>>, w: int, h: int) -> bool {
    g.len() == h && (forall|y: int| 0 <= y < h ==> (#[trigger] g[y]).len() == w)
}

/// 1 when `(x, y)` lies on the grid and holds a bomb, else 0.
pub open spec fn bomb_at(g: Seq<Seq<Tile>>, x: int, y: int) -> int {
    if 0 <= y < g.len() && 0 <= x < g[y].len() && g[y][x] is Bomb {
        1
    } else {
        0
    }
}

/// Number of bombs among the Moore neighbors of `(x, y)`.  Positions past a
/// grid edge contribute nothing, so edge and corner cells count fewer
/// candidates.
pub open spec fn bombs_near(g: Seq<Seq<Tile>>, x: int, y: int) -> int {
    bomb_at(g, x - 1, y - 1) + bomb_at(g, x, y - 1) + bomb_at(g, x + 1, y - 1) + bomb_at(
        g,
        x - 1,
        y,
    ) + bomb_at(g, x + 1, y) + bomb_at(g, x - 1, y + 1) + bomb_at(g, x, y + 1) + bomb_at(
        g,
        x + 1,
        y + 1,
    )
}

/// The tile a safe cell with `n` mined neighbors must hold.
pub open spec fn expected_tile(n: int) -> Tile {
    if n == 0 {
        Tile::Empty
    } else {
        Tile::BombNeighbor(n as u8)
    }
}

/// A non-bomb cell at `(x, y)` is labeled exactly by its neighbor count:
/// `Empty` when no neighbor is mined, else `BombNeighbor` with the count.
pub open spec fn tile_label_ok(g: Seq<Seq<Tile>>, x: int, y: int) -> bool {
    !(g[y][x] is Bomb) ==> g[y][x] == expected_tile(bombs_near(g, x, y))
}

/// Every non-bomb cell of the grid carries the correct neighbor count.
pub open spec fn counts_correct(g: Seq<Seq<Tile>>) -> bool {
    forall|x: int, y: int|
        0 <= y < g.len() && 0 <= x < g[y].len() ==> #[trigger] tile_label_ok(g, x, y)
}

/// Bombs among the first `n` tiles of one row.
pub open spec fn row_bombs_to(row: Seq<Tile>, n: int) -> int
    decreases n,
{
    if n <= 0 {
        0
    } else {
        row_bombs_to(row, n - 1) + (if row[n - 1] is Bomb {
            1int
        } else {
            0int
        })
    }
}

/// Bombs in one row.
pub open spec fn row_bombs(row: Seq<Tile>) -> int {
    row_bombs_to(row, row.len() as int)
}

/// Bombs in the first `n` rows.
pub open spec fn grid_bombs_to(g: Seq<Seq<Tile>>, n: int) -> int
    decreases n,
{
    if n <= 0 {
        0
    } else {
        grid_bombs_to(g, n - 1) + row_bombs(g[n - 1])
    }
}

/// Total number of mined cells: the sum of the per-cell bomb indicators.
pub open spec fn total_bombs(g: Seq<Seq<Tile>>) -> int {
    grid_bombs_to(g, g.len() as int)
}

/// A row whose first `n` tiles are all safe contributes no bombs.
proof fn lemma_row_bombs_all_safe(row: Seq<Tile>, n: int)
    requires
        forall|i: int| 0 <= i < n ==> !((#[trigger] row[i]) is Bomb),
    ensures
        row_bombs_to(row, n) == 0,
    decreases n,
{
    if n > 0 {
        lemma_row_bombs_all_safe(row, n - 1);
    }
}

/// A grid of safe tiles holds no bombs.
proof fn lemma_grid_bombs_all_safe(g: Seq<Seq<Tile>>, n: int)
    requires
        forall|y: int, x: int|
            0 <= y < n && 0 <= x < g[y].len() ==> !((#[trigger] g[y][x]) is Bomb),
    ensures
        grid_bombs_to(g, n) == 0,
    decreases n,
{
    if n > 0 {
        lemma_grid_bombs_all_safe(g, n - 1);
        lemma_row_bombs_all_safe(g[n - 1], g[n - 1].len() as int);
    }
}

/// The grid `g` with the tile at column `x`, row `y` replaced by `t`.
pub open spec fn set_cell(g: Seq<Seq<Tile>>, x: int, y: int, t: Tile) -> Seq<Seq<Tile>> {
    g.update(y, g[y].update(x, t))
}

/// Replacing the tile at index `x` of a row changes the row's bomb sum by
/// the difference of the two bomb indicators, and only when `x` is below
/// the summation bound.
proof fn lemma_row_bombs_update(row: Seq<Tile>, x: int, t: Tile, n: int)
    requires
        0 <= x < row.len(),
        n <= row.len(),
    ensures
        row_bombs_to(row.update(x, t), n) == row_bombs_to(row, n) + if x < n {
            (if t is Bomb {
                1int
            } else {
                0int
            }) - (if row[x] is Bomb {
                1int
            } else {
                0int
            })
        } else {
            0int
        },
    decreases n,
{
    if n > 0 {
        lemma_row_bombs_update(row, x, t, n - 1);
    }
}

/// Replacing row `y` of a grid changes the grid's bomb sum by the
/// difference of the two row sums, and only when `y` is below the
/// summation bound.
proof fn lemma_grid_bombs_update(g: Seq<Seq<Tile>>, y: int, newrow: Seq<Tile>, n: int)
    requires
        0 <= y < g.len(),
        n <= g.len(),
    ensures
        grid_bombs_to(g.update(y, newrow), n) == grid_bombs_to(g, n) + if y < n {
            row_bombs(newrow) - row_bombs(g[y])
        } else {
            0int
        },
    decreases n,
{
    if n > 0 {
        lemma_grid_bombs_update(g, y, newrow, n - 1);
    }
}

/// Replacing one tile changes the grid's total bomb count by the difference
/// of the two bomb indicators.
proof fn lemma_total_bombs_set(g: Seq<Seq<Tile>>, x: int, y: int, t: Tile)
    requires
        0 <= y < g.len(),
        0 <= x < g[y].len(),
    ensures
        total_bombs(set_cell(g, x, y, t)) == total_bombs(g) + (if t is Bomb {
            1int
        } else {
            0int
        }) - (if g[y][x] is Bomb {
            1int
        } else {
            0int
        }),
{
    let newrow = g[y].update(x, t);
    lemma_row_bombs_update(g[y], x, t, g[y].len() as int);
    lemma_grid_bombs_update(g, y, newrow, g.len() as int);
}

/// Two rows whose tiles agree on being bombs have equal bomb sums.
proof fn lemma_row_bombs_congruent(r1: Seq<Tile>, r2: Seq<Tile>, n: int)
    requires
        r1.len() == r2.len(),
        n <= r1.len(),
        forall|i: int| 0 <= i < r1.len() ==> ((#[trigger] r1[i]) is Bomb <==> r2[i] is Bomb),
    ensures
        row_bombs_to(r1, n) == row_bombs_to(r2, n),
    decreases n,
{
    if n > 0 {
        lemma_row_bombs_congruent(r1, r2, n - 1);
    }
}

/// Two grids of the same shape whose cells agree on being bombs have equal
/// total bomb counts.
proof fn lemma_grid_bombs_congruent(g1: Seq<Seq<Tile>>, g2: Seq<Seq<Tile>>, n: int)
    requires
        g1.len() == g2.len(),
        forall|y: int| 0 <= y < g1.len() ==> (#[trigger] g1[y]).len() == g2[y].len(),
        forall|y: int, x: int|
            0 <= y < g1.len() && 0 <= x < g1[y].len() ==> ((#[trigger] g1[y][x]) is Bomb
                <==> g2[y][x] is Bomb),
        n <= g1.len(),
    ensures
        grid_bombs_to(g1, n) == grid_bombs_to(g2, n),
    decreases n,
{
    if n > 0 {
        lemma_grid_bombs_congruent(g1, g2, n - 1);
        lemma_row_bombs_congruent(g1[n - 1], g2[n - 1], g1[n - 1].len() as int);
    }
}

/// Neighbor-bomb counts depend only on which cells are bombs: two grids of
/// the same shape that agree on bombness give every position the same count.
proof fn lemma_bombs_near_congruent(g1: Seq<Seq<Tile>>, g2: Seq<Seq<Tile>>, x: int, y: int)
    requires
        g1.len() == g2.len(),
        forall|j: int| 0 <= j < g1.len() ==> (#[trigger] g1[j]).len() == g2[j].len(),
        forall|j: int, i: int|
            0 <= j < g1.len() && 0 <= i < g1[j].len() ==> ((#[trigger] g1[j][i]) is Bomb
                <==> g2[j][i] is Bomb),
    ensures
        bombs_near(g1, x, y) == bombs_near(g2, x, y),
{
    assert(bomb_at(g1, x - 1, y - 1) == bomb_at(g2, x - 1, y - 1));
    assert(bomb_at(g1, x, y - 1) == bomb_at(g2, x, y - 1));
    assert(bomb_at(g1, x + 1, y - 1) == bomb_at(g2, x + 1, y - 1));
    assert(bomb_at(g1, x - 1, y) == bomb_at(g2, x - 1, y));
    assert(bomb_at(g1, x + 1, y) == bomb_at(g2, x + 1, y));
    assert(bomb_at(g1, x - 1, y + 1) == bomb_at(g2, x - 1, y + 1));
    assert(bomb_at(g1, x, y + 1) == bomb_at(g2, x, y + 1));
    assert(bomb_at(g1, x + 1, y + 1) == bomb_at(g2, x + 1, y + 1));
}

/// Enumerates the grid cells row-major, keeping only those that satisfy the
/// runtime test `keep`, which must agree with the spec predicate `pred`.
/// The result is exactly `all_cells(w, h).filter(pred)`, without duplicates.
#[verifier::loop_isolation(false)]
fn filtered_cells_vec(width: u16, height: u16, s: Option<Coordinates>) -> (r: Vec<Coordinates>)
    requires
        width > 0,
        height > 0,
    ensures
        r@ == candidate_cells(width as int, height as int, s),
        r@.no_duplicates(),
        forall|i: int|
            0 <= i < r@.len() ==> in_grid(width as int, height as int, #[trigger] r@[i]),
        forall|i: int|
            0 <= i < r@.len() ==> (s matches Some(sc) ==> !in_safe_zone(sc, #[trigger] r@[i])),
    {
        let ghost w = width as int;
        let ghost h = height as int;
        let ghost pred = keep_pred(s);
        let mut r: Vec<Coordinates> = Vec::new();
        let mut y: u16 = 0;
        proof {
            reveal(Seq::filter);
            assert(cells_upto(w, 0) =~= Seq::<Coordinates>::empty());
            assert(cells_upto(w, 0).filter(pred) =~= Seq::<Coordinates>::empty());
        }
        while y < height
            invariant
                y <= height,
                r@ == cells_upto(w, y as int).filter(pred),
                r@.no_duplicates(),
                forall|i: int| 0 <= i < r@.len() ==> in_grid(w, h, #[trigger] r@[i]),
                forall|i: int|
                    0 <= i < r@.len() ==> (s matches Some(sc) ==> !in_safe_zone(
                        sc,
                        #[trigger] r@[i],
                    )),
                forall|i: int|
                    0 <= i < r@.len() ==> #[trigger] cell_index(w, r@[i]) < y as int * w,
            decreases height - y,
        {
            let mut x: u16 = 0;
            proof {
                reveal(Seq::filter);
                assert(row_cells(w, y as int).take(0) =~= Seq::<Coordinates>::empty());
                assert(Seq::<Coordinates>::empty().filter(pred) =~= Seq::<Coordinates>::empty());
                assert(r@ =~= cells_upto(w, y as int).filter(pred) + row_cells(w, y as int).take(
                    0,
                ).filter(pred));
            }
            while x < width
                invariant
                    y < height,
                    x <= width,
                    r@ == cells_upto(w, y as int).filter(pred) + row_cells(w, y as int).take(
                        x as int,
                    ).filter(pred),
                    r@.no_duplicates(),
                    forall|i: int| 0 <= i < r@.len() ==> in_grid(w, h, #[trigger] r@[i]),
                    forall|i: int|
                        0 <= i < r@.len() ==> (s matches Some(sc) ==> !in_safe_zone(
                            sc,
                            #[trigger] r@[i],
                        )),
                    forall|i: int|
                        0 <= i < r@.len() ==> #[trigger] cell_index(w, r@[i]) < y as int * w
                            + x as int,
                decreases width - x,
            {
                let cell = Coordinates { x, y };
                let keep: bool = match s {
                    Some(sc) => {
                        let dx_ok = sc.x as u32 + 1 >= x as u32 && x as u32 + 1 >= sc.x as u32;
                        let dy_ok = sc.y as u32 + 1 >= y as u32 && y as u32 + 1 >= sc.y as u32;
                        !(dx_ok && dy_ok)
                    },
                    None => true,
                };
                proof {
                    reveal(Seq::filter);
                    assert(keep == pred(cell));
                    let prefix = row_cells(w, y as int).take(x as int);
                    let prefix1 = row_cells(w, y as int).take(x as int + 1);
                    assert(prefix1 =~= prefix.push(cell));
                    assert(prefix1.drop_last() =~= prefix);
                    assert(prefix1.last() == cell);
                    assert(prefix1.filter(pred) == if pred(cell) {
                        prefix.filter(pred).push(cell)
                    } else {
                        prefix.filter(pred)
                    });
                    if keep {
                        assert(cell_index(w, cell) == y as int * w + x as int);
                    }
                }
                if keep {
                    r.push(cell);
                }
                x = x + 1;
            }
            proof {
                assert(row_cells(w, y as int).take(w) =~= row_cells(w, y as int));
                assert(cells_upto(w, y as int + 1) == cells_upto(w, y as int) + row_cells(
                    w,
                    y as int,
                ));
                Seq::<Coordinates>::filter_distributes_over_add(
                    cells_upto(w, y as int),
                    row_cells(w, y as int),
                    pred,
                );
                assert((y as int + 1) * w == y as int * w + w) by (nonlinear_arith);
            }
            y = y + 1;
        }
        r
    }

/// Takes `n` pairwise distinct elements out of `pool`, each position drawn
/// from the generator.  Every chosen element comes from the original pool.
fn pick_random(pool: &mut Vec<Coordinates>, n: u16, rng: &mut Lcg) -> (chosen: Vec<Coordinates>)
    requires
        old(pool)@.no_duplicates(),
        n as int <= old(pool)@.len(),
    ensures
        chosen@.len() == n as int,
        chosen@.no_duplicates(),
        forall|i: int| 0 <= i < n as int ==> old(pool)@.contains(#[trigger] chosen@[i]),
{
    let mut chosen: Vec<Coordinates> = Vec::new();
    let mut k: u16 = 0;
    while k < n
        invariant
            k <= n,
            n as int - k as int <= pool@.len(),
            pool@.no_duplicates(),
            chosen@.len() == k as int,
            chosen@.no_duplicates(),
            forall|i: int| 0 <= i < k as int ==> old(pool)@.contains(#[trigger] chosen@[i]),
            forall|i: int| 0 <= i < pool@.len() ==> old(pool)@.contains(#[trigger] pool@[i]),
            forall|i: int| 0 <= i < k as int ==> !pool@.contains(#[trigger] chosen@[i]),
        decreases n - k,
    {
        let j = rng.below_index(pool.len());
        let ghost p0 = pool@;
        let e = pool.swap_remove(j);
        proof {
            let p1 = pool@;
            assert(forall|a: int|
                0 <= a < p1.len() ==> #[trigger] p1[a] == (if a == j as int {
                    p0[p0.len() - 1]
                } else {
                    p0[a]
                }));
            assert forall|a: int, b: int|
                0 <= a < p1.len() && 0 <= b < p1.len() && a != b implies p1[a] != p1[b] by {
                if a == j as int {
                    assert(p1[a] == p0[p0.len() - 1] && p1[b] == p0[b] && b != p0.len() - 1);
                } else if b == j as int {
                    assert(p1[b] == p0[p0.len() - 1] && p1[a] == p0[a] && a != p0.len() - 1);
                }
            }
            assert forall|a: int| 0 <= a < p1.len() implies old(pool)@.contains(
                #[trigger] p1[a],
            ) by {
                if a == j as int {
                    assert(p0.contains(p0[p0.len() - 1]));
                } else {
                    assert(p0.contains(p0[a]));
                }
            }
            assert(!p1.contains(e)) by {
                if p1.contains(e) {
                    let a = choose|a: int| 0 <= a < p1.len() && p1[a] == e;
                    if a == j as int {
                        assert(p0[p0.len() - 1] == p0[j as int] && j as int != p0.len() - 1);
                    }
                }
            }
            assert(p0.contains(e));
            assert(!chosen@.contains(e)) by {
                if chosen@.contains(e) {
                    let a = choose|a: int| 0 <= a < chosen@.len() && chosen@[a] == e;
                    assert(!p0.contains(chosen@[a]));
                }
            }
            assert forall|a: int, b: int|
                0 <= a < chosen@.len() + 1 && 0 <= b < chosen@.len() + 1 && a != b implies
                chosen@.push(e)[a] != chosen@.push(e)[b] by {
                if a == chosen@.len() {
                    assert(chosen@.push(e)[a] == e && chosen@.push(e)[b] == chosen@[b]);
                    assert(chosen@.contains(chosen@[b]));
                } else if b == chosen@.len() {
                    assert(chosen@.push(e)[b] == e && chosen@.push(e)[a] == chosen@[a]);
                    assert(chosen@.contains(chosen@[a]));
                }
            }
            assert forall|a: int| 0 <= a < chosen@.len() implies !pool@.contains(
                #[trigger] chosen@[a],
            ) by {
                if pool@.contains(chosen@[a]) {
                    let b = choose|b: int| 0 <= b < p1.len() && p1[b] == chosen@[a];
                    assert(p0.contains(p1[b]));
                }
            }
        }
        chosen.push(e);
        k = k + 1;
    }
    chosen
}

/// The rectangular grid of tiles, built once by the generator and read-only
/// afterwards.  `bomb_count` is the number of mined cells; at least one cell
/// is always safe.
pub struct TileMap {
    pub width: u16,
    pub height: u16,
    pub bomb_count: u16,
    pub map: Vec<Vec<Tile>>,
}

impl TileMap {
    /// The grid as a sequence of rows of tiles.
    pub open spec fn grid(self) -> Seq<Seq<Tile>> {
        self.map@.map_values(|r: Vec<Tile>| r@)
    }

    /// The tile stored at `c`.
    pub open spec fn spec_tile(self, c: Coordinates) -> Tile {
        self.grid()[c.y as int][c.x as int]
    }

    /// `c` lies on this grid and holds a bomb.
    pub open spec fn spec_is_bomb(self, c: Coordinates) -> bool {
        in_grid(self.width as int, self.height as int, c) && self.spec_tile(c) is Bomb
    }

    /// The grid has its stated dimensions, both positive.
    pub open spec fn shaped(self) -> bool {
        &&& self.width > 0
        &&& self.height > 0
        &&& grid_shaped(self.grid(), self.width as int, self.height as int)
    }

    /// Well-formed grid: correct shape, the bomb counter matches the mined
    /// cells, at least one cell is safe, and every non-bomb cell carries the
    /// exact count of bombs among its existing Moore neighbors.
    pub open spec fn wf(self) -> bool {
        &&& self.shaped()
        &&& self.bomb_count as int == total_bombs(self.grid())
        &&& self.bomb_count as int <= self.width as int * self.height as int - 1
        &&& counts_correct(self.grid())
    }

    /// A freshly built grid: well formed, no bombs, every tile `Empty`.
    pub open spec fn is_blank(self) -> bool {
        &&& self.shaped()
        &&& self.bomb_count == 0
        &&& forall|x: int, y: int|
            0 <= y < self.height && 0 <= x < self.width ==> (#[trigger] self.grid()[y][x])
                is Empty
    }

    /// Number of columns.
    pub fn width(&self) -> (r: u16)
        ensures
            r == self.width,
    {
        self.width
    }

    /// Number of rows.
    pub fn height(&self) -> (r: u16)
        ensures
            r == self.height,
    {
        self.height
    }

    /// Number of mined cells.
    pub fn bomb_count(&self) -> (r: u16)
        ensures
            r == self.bomb_count,
    {
        self.bomb_count
    }

    /// Builds a grid of the given dimensions with every tile `Empty`.
    pub fn empty(width: u16, height: u16) -> (r: TileMap)
        requires
            width > 0,
            height > 0,
        ensures
            r.width == width,
            r.height == height,
            r.is_blank(),
            r.wf(),
    {
        let mut map: Vec<Vec<Tile>> = Vec::new();
        let mut y: u16 = 0;
        while y < height
            invariant
                y <= height,
                map@.len() == y as int,
                forall|j: int|
                    0 <= j < y as int ==> (#[trigger] map@[j])@.len() == width as int,
                forall|j: int, i: int|
                    0 <= j < y as int && 0 <= i < width as int ==> (#[trigger] map@[j]@[i])
                        is Empty,
            decreases height - y,
        {
            let mut row: Vec<Tile> = Vec::new();
            let mut x: u16 = 0;
            while x < width
                invariant
                    x <= width,
                    row@.len() == x as int,
                    forall|i: int| 0 <= i < x as int ==> (#[trigger] row@[i]) is Empty,
                decreases width - x,
            {
                row.push(Tile::Empty);
                x = x + 1;
            }
            map.push(row);
            y = y + 1;
        }
        let r = TileMap { width, height, bomb_count: 0, map };
        proof {
            assert(width as int * height as int >= 1) by (nonlinear_arith)
                requires
                    width >= 1,
                    height >= 1,
            ;
            assert forall|x: int, y: int|
                0 <= y < r.grid().len() && 0 <= x < r.grid()[y].len() implies #[trigger]
            tile_label_ok(r.grid(), x, y) by {
                assert(bombs_near(r.grid(), x, y) == 0);
            }
            lemma_grid_bombs_all_safe(r.grid(), r.grid().len() as int);
        }
        r
    }

    /// The tile at `c`.
    pub fn tile_at(&self, c: Coordinates) -> (r: Tile)
        requires
            self.shaped(),
            in_grid(self.width as int, self.height as int, c),
        ensures
            r == self.spec_tile(c),
    {
        self.map[c.y as usize][c.x as usize]
    }

    /// Whether the cell at `c` is mined; positions off the grid count as
    /// safe.
    pub fn is_bomb_at(&self, c: Coordinates) -> (r: bool)
        requires
            self.shaped(),
        ensures
            r == self.spec_is_bomb(c),
    {
        if c.x < self.width && c.y < self.height {
            proof {
                assert(self.grid()[c.y as int] == self.map@[c.y as int]@);
            }
            self.map[c.y as usize][c.x as usize].is_bomb()
        } else {
            false
        }
    }

    /// The bomb indicator of position `(x, y)`: 1 for a mined grid cell,
    /// 0 for a safe cell or a position past an edge.
    fn bomb_ind(&self, x: i32, y: i32) -> (r: u8)
        requires
            self.shaped(),
        ensures
            r as int == bomb_at(self.grid(), x as int, y as int),
    {
        if 0 <= x && x < self.width as i32 && 0 <= y && y < self.height as i32 {
            proof {
                assert(self.grid()[y as int] == self.map@[y as int]@);
            }
            if self.map[y as usize][x as usize].is_bomb() {
                1
            } else {
                0
            }
        } else {
            0
        }
    }

    /// Counts the bombs among the up-to-8 Moore neighbors of `c`.
    pub fn bomb_count_at(&self, c: Coordinates) -> (r: u8)
        requires
            self.shaped(),
            in_grid(self.width as int, self.height as int, c),
        ensures
            r as int == bombs_near(self.grid(), c.x as int, c.y as int),
            r <= 8,
    {
        let x = c.x as i32;
        let y = c.y as i32;
        self.bomb_ind(x - 1, y - 1) + self.bomb_ind(x, y - 1) + self.bomb_ind(x + 1, y - 1)
            + self.bomb_ind(x - 1, y) + self.bomb_ind(x + 1, y) + self.bomb_ind(x - 1, y + 1)
            + self.bomb_ind(x, y + 1) + self.bomb_ind(x + 1, y + 1)
    }

    /// Replaces the tile at `c`; dimensions and the bomb counter field are
    /// untouched.
    fn set_tile(&mut self, c: Coordinates, t: Tile)
        requires
            old(self).shaped(),
            in_grid(old(self).width as int, old(self).height as int, c),
        ensures
            final(self).shaped(),
            final(self).width == old(self).width,
            final(self).height == old(self).height,
            final(self).bomb_count == old(self).bomb_count,
            final(self).grid() == set_cell(old(self).grid(), c.x as int, c.y as int, t),
    {
        let y = c.y as usize;
        proof {
            assert(old(self).grid()[c.y as int] == old(self).map@[c.y as int]@);
        }
        let mut row = self.map.remove(y);
        row.set(c.x as usize, t);
        self.map.insert(y, row);
        proof {
            assert(self.grid() =~~= set_cell(old(self).grid(), c.x as int, c.y as int, t));
        }
    }

    /// Turns the listed cells of a blank grid into bombs and records their
    /// number.  Exactly the listed cells are mined afterwards; every other
    /// cell is still `Empty`.
    fn place_bombs(&mut self, positions: &Vec<Coordinates>)
        requires
            old(self).is_blank(),
            positions@.no_duplicates(),
            forall|i: int|
                0 <= i < positions@.len() ==> in_grid(
                    old(self).width as int,
                    old(self).height as int,
                    #[trigger] positions@[i],
                ),
            positions@.len() <= u16::MAX,
        ensures
            final(self).shaped(),
            final(self).width == old(self).width,
            final(self).height == old(self).height,
            final(self).bomb_count as int == positions@.len(),
            total_bombs(final(self).grid()) == positions@.len(),
            forall|c: Coordinates|
                in_grid(final(self).width as int, final(self).height as int, c) ==> ((
                #[trigger] final(self).grid()[c.y as int][c.x as int]) is Bomb
                    <==> positions@.contains(c)),
            forall|c: Coordinates|
                in_grid(final(self).width as int, final(self).height as int, c)
                    && !positions@.contains(c)
                    ==> (#[trigger] final(self).grid()[c.y as int][c.x as int]) is Empty,
    {
        let ghost w = self.width as int;
        let ghost h = self.height as int;
        proof {
            lemma_grid_bombs_all_safe(self.grid(), self.grid().len() as int);
        }
        let mut i: usize = 0;
        while i < positions.len()
            invariant
                i <= positions@.len(),
                positions@.len() <= u16::MAX,
                positions@.no_duplicates(),
                forall|j: int|
                    0 <= j < positions@.len() ==> in_grid(w, h, #[trigger] positions@[j]),
                self.shaped(),
                self.width as int == w,
                self.height as int == h,
                self.bomb_count == 0,
                total_bombs(self.grid()) == i as int,
                forall|c: Coordinates|
                    in_grid(w, h, c) ==> ((#[trigger] self.grid()[c.y as int][c.x as int])
                        is Bomb <==> positions@.take(i as int).contains(c)),
                forall|c: Coordinates|
                    in_grid(w, h, c) && !positions@.take(i as int).contains(c) ==> (
                    #[trigger] self.grid()[c.y as int][c.x as int]) is Empty,
            decreases positions@.len() - i,
        {
            let c = positions[i];
            let ghost pre = self.grid();
            proof {
                assert(positions@.take(i as int + 1) =~= positions@.take(i as int).push(c));
                if positions@.take(i as int).contains(c) {
                    let j = choose|j: int|
                        0 <= j < i as int && positions@.take(i as int)[j] == c;
                    assert(positions@[j] == positions@[i as int]);
                    assert(false);
                }
                lemma_total_bombs_set(pre, c.x as int, c.y as int, Tile::Bomb);
            }
            self.set_tile(c, Tile::Bomb);
            proof {
                assert forall|d: Coordinates| in_grid(w, h, d) implies ((#[trigger] self.grid()[d.y as int][d.x as int]) is Bomb <==> positions@.take(
                    i as int + 1,
                ).contains(d)) by {
                    if d == c {
                        assert(positions@.take(i as int + 1)[i as int] == c);
                    } else {
                        assert(self.grid()[d.y as int][d.x as int] == pre[d.y as int][d.x as int]);
                    }
                }
                assert forall|d: Coordinates|
                    in_grid(w, h, d) && !positions@.take(i as int + 1).contains(d) implies (
                #[trigger] self.grid()[d.y as int][d.x as int]) is Empty by {
                    assert(!positions@.take(i as int).contains(d));
                    assert(d != c);
                    assert(self.grid()[d.y as int][d.x as int] == pre[d.y as int][d.x as int]);
                }
            }
            i = i + 1;
        }
        proof {
            assert(positions@.take(positions@.len() as int) =~= positions@);
        }
        self.bomb_count = positions.len() as u16;
    }

    /// Writes the neighbor count of every safe cell: `Empty` when no Moore
    /// neighbor is mined, else `BombNeighbor` with the exact count.  Which
    /// cells are bombs, and hence the total bomb count, is unchanged.
    fn assign_counts(&mut self)
        requires
            old(self).shaped(),
        ensures
            final(self).shaped(),
            final(self).width == old(self).width,
            final(self).height == old(self).height,
            final(self).bomb_count == old(self).bomb_count,
            counts_correct(final(self).grid()),
            forall|y: int, x: int|
                0 <= y < final(self).height as int && 0 <= x < final(self).width as int ==> ((
                #[trigger] final(self).grid()[y][x]) is Bomb <==> old(self).grid()[y][x] is Bomb),
            total_bombs(final(self).grid()) == total_bombs(old(self).grid()),
    {
        let ghost g0 = self.grid();
        let ghost w = self.width as int;
        let ghost h = self.height as int;
        let width = self.width;
        let height = self.height;
        let mut y: u16 = 0;
        while y < height
            invariant
                y <= height,
                self.shaped(),
                self.width == width,
                self.height == height,
                self.bomb_count == old(self).bomb_count,
                w == width as int,
                h == height as int,
                g0 == old(self).grid(),
                grid_shaped(g0, w, h),
                forall|j: int, i: int|
                    0 <= j < h && 0 <= i < w ==> ((#[trigger] self.grid()[j][i]) is Bomb
                        <==> g0[j][i] is Bomb),
                forall|j: int, i: int|
                    0 <= j < y as int && 0 <= i < w ==> #[trigger] tile_label_ok(
                        self.grid(),
                        i,
                        j,
                    ),
            decreases height - y,
        {
            let mut x: u16 = 0;
            while x < width
                invariant
                    y < height,
                    x <= width,
                    self.shaped(),
                    self.width == width,
                    self.height == height,
                    self.bomb_count == old(self).bomb_count,
                    w == width as int,
                    h == height as int,
                    g0 == old(self).grid(),
                    grid_shaped(g0, w, h),
                    forall|j: int, i: int|
                        0 <= j < h && 0 <= i < w ==> ((#[trigger] self.grid()[j][i]) is Bomb
                            <==> g0[j][i] is Bomb),
                    forall|j: int, i: int|
                        0 <= j < h && 0 <= i < w && (j < y as int || (j == y as int && i
                            < x as int)) ==> #[trigger] tile_label_ok(self.grid(), i, j),
                decreases width - x,
            {
                let c = Coordinates { x, y };
                let ghost pre = self.grid();
                let tile = self.tile_at(c);
                if !tile.is_bomb() {
                    let cnt = self.bomb_count_at(c);
                    let label = if cnt == 0 {
                        Tile::Empty
                    } else {
                        Tile::BombNeighbor(cnt)
                    };
                    proof {
                        assert(label == expected_tile(bombs_near(pre, x as int, y as int)));
                    }
                    self.set_tile(c, label);
                    proof {
                        lemma_bombs_near_congruent(pre, self.grid(), x as int, y as int);
                        assert(tile_label_ok(self.grid(), x as int, y as int));
                        assert forall|j: int, i: int|
                            0 <= j < h && 0 <= i < w && (j < y as int || (j == y as int && i
                                <= x as int)) implies #[trigger] tile_label_ok(
                            self.grid(),
                            i,
                            j,
                        ) by {
                            if !(j == y as int && i == x as int) {
                                assert(tile_label_ok(pre, i, j));
                                lemma_bombs_near_congruent(pre, self.grid(), i, j);
                                assert(self.grid()[j][i] == pre[j][i]);
                            }
                        }
                    }
                }
                x = x + 1;
            }
            y = y + 1;
        }
        proof {
            lemma_grid_bombs_congruent(self.grid(), g0, h);
        }
    }

    /// Builds the grid that has a bomb exactly at each of the given distinct
    /// cells and the correct neighbor count on every safe cell.
    pub fn from_bomb_positions(width: u16, height: u16, positions: Vec<Coordinates>) -> (r:
        TileMap)
        requires
            width > 0,
            height > 0,
            positions@.no_duplicates(),
            forall|i: int|
                0 <= i < positions@.len() ==> in_grid(
                    width as int,
                    height as int,
                    #[trigger] positions@[i],
                ),
            positions@.len() <= width as int * height as int - 1,
            positions@.len() <= u16::MAX,
        ensures
            r.wf(),
            r.width == width,
            r.height == height,
            r.bomb_count as int == positions@.len(),
            forall|c: Coordinates| #[trigger] r.spec_is_bomb(c) <==> positions@.contains(c),
    {
        let mut tm = TileMap::empty(width, height);
        tm.place_bombs(&positions);
        tm.assign_counts();
        proof {
            assert forall|c: Coordinates| #[trigger] tm.spec_is_bomb(c) <==> positions@.contains(
                c,
            ) by {
                if positions@.contains(c) {
                    let j = choose|j: int| 0 <= j < positions@.len() && positions@[j] == c;
                    assert(in_grid(width as int, height as int, positions@[j]));
                }
            }
        }
        tm
    }

    /// What `generate` promises: a well-formed grid of the requested size
    /// whose bomb count is the clamped request, and — when a safe-start cell
    /// is given and enough cells lie outside its exclusion zone — no bomb on
    /// that cell or any of its existing neighbors.
    pub open spec fn generation_ok(
        self,
        width: u16,
        height: u16,
        requested: u16,
        safe_cell: Option<Coordinates>,
    ) -> bool {
        let w = width as int;
        let h = height as int;
        &&& self.wf()
        &&& self.width == width
        &&& self.height == height
        &&& self.bomb_count as int == clamped_bombs(w, h, requested as int)
        &&& match safe_cell {
            Some(s) => free_cells(w, h, s).len() >= clamped_bombs(w, h, requested as int)
                ==> forall|c: Coordinates| in_safe_zone(s, c) ==> !self.spec_is_bomb(c),
            None => true,
        }
    }

    /// Builds a full grid: places the clamped number of bombs on distinct
    /// cells drawn from the generator, excluding the safe-start cell and its
    /// neighbors whenever enough cells remain outside that zone, then writes
    /// every neighbor count.
    pub fn generate(
        width: u16,
        height: u16,
        bomb_count: u16,
        safe_cell: Option<Coordinates>,
        rng: &mut Lcg,
    ) -> (r: TileMap)
        requires
            width > 0,
            height > 0,
        ensures
            r.generation_ok(width, height, bomb_count, safe_cell),
    {
        let ghost w = width as int;
        let ghost h = height as int;
        proof {
            assert(1 <= width as int * height as int <= 0xFFFF * 0xFFFF) by (nonlinear_arith)
                requires
                    1 <= width <= 0xFFFF,
                    1 <= height <= 0xFFFF,
            ;
        }
        let cells: u32 = width as u32 * height as u32;
        let max_bombs: u32 = cells - 1;
        let clamped: u16 = if bomb_count as u32 <= max_bombs {
            bomb_count
        } else {
            max_bombs as u16
        };
        proof {
            assert(clamped as int == clamped_bombs(w, h, bomb_count as int));
        }
        let mut pool: Vec<Coordinates>;
        let mut excluded: bool = false;
        match safe_cell {
            Some(s) => {
                let free = filtered_cells_vec(width, height, Some(s));
                if free.len() >= clamped as usize {
                    pool = free;
                    excluded = true;
                } else {
                    pool = filtered_cells_vec(width, height, None);
                    proof {
                        assert(free_cells(w, h, s).len() < clamped as int);
                    }
                }
            },
            None => {
                pool = filtered_cells_vec(width, height, None);
            },
        }
        proof {
            if !excluded {
                lemma_filter_any(all_cells(w, h));
                lemma_cells_upto_len(w, h);
                assert(pool@.len() == w * h);
            }
        }
        let ghost pool0 = pool@;
        let chosen = pick_random(&mut pool, clamped, rng);
        let ghost chosenv = chosen@;
        proof {
            assert forall|i: int| 0 <= i < chosenv.len() implies in_grid(
                w,
                h,
                #[trigger] chosenv[i],
            ) by {
                let j = choose|j: int| 0 <= j < pool0.len() && pool0[j] == chosenv[i];
            }
        }
        let r = TileMap::from_bomb_positions(width, height, chosen);
        proof {
            if safe_cell is Some && excluded {
                let s = safe_cell->0;
                assert forall|c: Coordinates| in_safe_zone(s, c) implies !r.spec_is_bomb(c) by {
                    if r.spec_is_bomb(c) {
                        let j = choose|j: int| 0 <= j < chosenv.len() && chosenv[j] == c;
                        assert(pool0.contains(chosenv[j]));
                        let i = choose|i: int| 0 <= i < pool0.len() && pool0[i] == c;
                        assert(!in_safe_zone(s, pool0[i]));
                    }
                }
            }
        }
        r
    }

    /// Places the clamped number of bombs on a blank grid and assigns every
    /// neighbor count; the grid keeps its dimensions.
    pub fn set_bombs(&mut self, bomb_count: u16, safe_cell: Option<Coordinates>, rng: &mut Lcg)
        requires
            old(self).is_blank(),
        ensures
            final(self).generation_ok(
                old(self).width,
                old(self).height,
                bomb_count,
                safe_cell,
            ),
    {
        let tm = TileMap::generate(self.width, self.height, bomb_count, safe_cell, rng);
        *self = tm;
    }
}

} // verus!
