//! The reveal engine: resolves one reveal request into the full cascade of
//! newly visible cells.
//!
//! A worklist starts with the requested cell and is processed to completion.
//! Revealing an `Empty` cell queues its still-covered neighbors, so a
//! connected empty region opens in one call, together with exactly the
//! numbered and bomb cells on its border; numbered cells are a frontier and
//! expand no further.  Each cell moves from covered to revealed at most
//! once, and a second request for the same cell is a no-op.

use vstd::prelude::*;

use crate::board::{coord_key, lemma_coord_key_injective, Board, CoverHandle};
use crate::coordinates::{adjacent, in_grid, Coordinates};
use crate::events::TileTriggerEvent;
use crate::tile::Tile;

verus! {

broadcast use vstd::std_specs::hash::group_hash_axioms;

/// One newly uncovered cell: where it is, what it shows, and the cover
/// handle the renderer must now dispose of.  A `Bomb` tile here is the
/// loss signal.
#[derive(Debug, Copy, Clone, Eq, PartialEq, Hash, Structural)]
pub struct RevealedCell {
    pub coordinates: Coordinates,
    pub tile: Tile,
    pub handle: CoverHandle,
}

/// Some entry of `r` uncovers the cell at `c`.
pub open spec fn reveals_coord(r: Seq<RevealedCell>, c: Coordinates) -> bool {
    exists|i: int| 0 <= i < r.len() && (#[trigger] r[i]).coordinates == c
}

/// Every reported cell was covered on `pre`, lies on its grid, and carries
/// that cell's tile and cover handle.
pub open spec fn entries_ok(pre: Board, r: Seq<RevealedCell>) -> bool {
    forall|i: int|
        0 <= i < r.len() ==> {
            let rc = #[trigger] r[i];
            &&& pre.is_covered_spec(rc.coordinates)
            &&& in_grid(pre.tile_map.width as int, pre.tile_map.height as int, rc.coordinates)
            &&& rc.tile == pre.tile_map.spec_tile(rc.coordinates)
            &&& rc.handle == pre.cover_of(rc.coordinates)
        }
}

/// No cell is reported twice.
pub open spec fn entries_distinct(r: Seq<RevealedCell>) -> bool {
    forall|i: int, j: int|
        0 <= i < j < r.len() ==> (#[trigger] r[i]).coordinates != (#[trigger] r[j]).coordinates
}

/// A cell is covered on `board` exactly when it was covered on `pre` and is
/// not reported in `r`; the handles of still-covered cells are untouched.
pub open spec fn covered_shrunk_by(pre: Board, board: Board, r: Seq<RevealedCell>) -> bool {
    &&& forall|c: Coordinates|
        #[trigger] board.is_covered_spec(c) <==> (pre.is_covered_spec(c) && !reveals_coord(r, c))
    &&& forall|c: Coordinates|
        #[trigger] board.is_covered_spec(c) ==> board.cover_of(c) == pre.cover_of(c)
}

/// Every reported cell after the first borders an earlier reported `Empty`
/// cell: the cascade never jumps past the numbered frontier.
pub open spec fn frontier_sound(r: Seq<RevealedCell>) -> bool {
    forall|i: int|
        0 < i < r.len() ==> exists|j: int|
            0 <= j < i && (#[trigger] r[j]).tile is Empty && adjacent(
                r[j].coordinates,
                (#[trigger] r[i]).coordinates,
            )
}

/// Every queued cell was covered at the start and borders a reported
/// `Empty` cell.
pub open spec fn worklist_ok(pre: Board, r: Seq<RevealedCell>, wl: Seq<Coordinates>) -> bool {
    forall|k: int|
        0 <= k < wl.len() ==> pre.is_covered_spec(#[trigger] wl[k]) && exists|j: int|
            0 <= j < r.len() && (#[trigger] r[j]).tile is Empty && adjacent(
                r[j].coordinates,
                wl[k],
            )
}

/// Every covered neighbor of a reported `Empty` cell is reported or still
/// queued.
pub open spec fn expansion_pending(
    pre: Board,
    r: Seq<RevealedCell>,
    wl: Seq<Coordinates>,
) -> bool {
    forall|i: int, c: Coordinates|
        #![trigger (r[i]).tile, pre.is_covered_spec(c)]
        0 <= i < r.len() && r[i].tile is Empty && pre.is_covered_spec(c) && adjacent(
            r[i].coordinates,
            c,
        ) ==> reveals_coord(r, c) || wl.contains(c)
}

/// The cascade loop's invariant, over the board at the start of the request
/// (`pre`), the current board, the cells reported so far and the worklist.
pub open spec fn cascade_inv(
    pre: Board,
    seed: Coordinates,
    board: Board,
    r: Seq<RevealedCell>,
    wl: Seq<Coordinates>,
) -> bool {
    &&& pre.wf()
    &&& board.tile_map == pre.tile_map
    &&& board.bounds == pre.bounds
    &&& board.tile_size == pre.tile_size
    &&& r.len() >= 1
    &&& r[0].coordinates == seed
    &&& entries_ok(pre, r)
    &&& entries_distinct(r)
    &&& covered_shrunk_by(pre, board, r)
    &&& frontier_sound(r)
    &&& worklist_ok(pre, r, wl)
    &&& expansion_pending(pre, r, wl)
}

/// Everything one reveal request changes, stated over the board before
/// (`pre`) and after (`post`) the request and the reported cascade `r`:
///
/// - the grid, the rectangle and the cell size are untouched;
/// - every reported cell was covered, lies on the grid, and carries its own
///   tile and cover handle; no cell is reported twice;
/// - a cell stays covered exactly when it was covered and is not reported —
///   so revealing is one-way, and revealing the same cell again is a no-op;
/// - a covered seed is reported first; an uncovered or off-grid seed makes
///   the request a no-op with an empty report;
/// - every reported cell after the seed borders an earlier reported `Empty`
///   cell, so the cascade never crosses the numbered frontier;
/// - every covered neighbor of a reported `Empty` cell is reported too, so
///   the whole connected empty region opens, with its full border.
pub open spec fn uncover_spec(
    pre: Board,
    seed: Coordinates,
    r: Seq<RevealedCell>,
    post: Board,
) -> bool {
    &&& post.tile_map == pre.tile_map
    &&& post.bounds == pre.bounds
    &&& post.tile_size == pre.tile_size
    &&& entries_ok(pre, r)
    &&& entries_distinct(r)
    &&& covered_shrunk_by(pre, post, r)
    &&& (pre.is_covered_spec(seed) ==> r.len() > 0 && r[0].coordinates == seed)
    &&& (!pre.is_covered_spec(seed) ==> r.len() == 0)
    &&& frontier_sound(r)
    &&& expansion_pending(pre, r, Seq::<Coordinates>::empty())
}

/// Taking an already-uncovered cell off the worklist keeps the cascade
/// invariant: that cell was revealed earlier, so nothing is lost.
proof fn lemma_step_skip(
    pre: Board,
    seed: Coordinates,
    cov0: Board,
    board: Board,
    r: Seq<RevealedCell>,
    wl0: Seq<Coordinates>,
)
    requires
        cascade_inv(pre, seed, cov0, r, wl0),
        wl0.len() > 0,
        !cov0.is_covered_spec(wl0.last()),
        board.tile_map == cov0.tile_map,
        board.bounds == cov0.bounds,
        board.tile_size == cov0.tile_size,
        board.covered_tiles@ == cov0.covered_tiles@.remove(coord_key(wl0.last())),
    ensures
        cascade_inv(pre, seed, board, r, wl0.drop_last()),
{
    let c = wl0.last();
    assert forall|d: Coordinates| #[trigger]
        board.is_covered_spec(d) <==> cov0.is_covered_spec(d) by {
        if coord_key(d) == coord_key(c) {
            lemma_coord_key_injective(d, c);
        }
    }
    assert forall|d: Coordinates| #[trigger] board.is_covered_spec(d) implies board.cover_of(d)
        == pre.cover_of(d) by {
        if coord_key(d) == coord_key(c) {
            lemma_coord_key_injective(d, c);
        }
        assert(cov0.cover_of(d) == pre.cover_of(d));
    }
    assert(reveals_coord(r, c)) by {
        assert(pre.is_covered_spec(c));
    }
    let wl = wl0.drop_last();
    assert forall|k: int| 0 <= k < wl.len() implies pre.is_covered_spec(#[trigger] wl[k])
        && exists|j: int|
        0 <= j < r.len() && (#[trigger] r[j]).tile is Empty && adjacent(
            r[j].coordinates,
            wl[k],
        ) by {
        assert(wl[k] == wl0[k]);
    }
    assert forall|i: int, d: Coordinates|
        #![trigger (r[i]).tile, pre.is_covered_spec(d)]
        0 <= i < r.len() && r[i].tile is Empty && pre.is_covered_spec(d) && adjacent(
            r[i].coordinates,
            d,
        ) implies reveals_coord(r, d) || wl.contains(d) by {
        if !reveals_coord(r, d) {
            assert(wl0.contains(d));
            let k = choose|k: int| 0 <= k < wl0.len() && wl0[k] == d;
            if k < wl0.len() - 1 {
                assert(wl[k] == d);
            } else {
                assert(d == c);
                assert(false);
            }
        }
    }
}

/// Appending one entry extends the set of reported cells by exactly its
/// cell.
proof fn lemma_reveals_push(r: Seq<RevealedCell>, rc: RevealedCell)
    ensures
        forall|d: Coordinates|
            #[trigger] reveals_coord(r.push(rc), d) <==> (reveals_coord(r, d) || d
                == rc.coordinates),
{
    let r1 = r.push(rc);
    assert forall|d: Coordinates| #[trigger]
        reveals_coord(r1, d) <==> (reveals_coord(r, d) || d == rc.coordinates) by {
        if reveals_coord(r1, d) {
            let i = choose|i: int| 0 <= i < r1.len() && (#[trigger] r1[i]).coordinates == d;
            if i < r.len() {
                assert(r[i].coordinates == d);
            }
        } else {
            if reveals_coord(r, d) {
                let i = choose|i: int| 0 <= i < r.len() && (#[trigger] r[i]).coordinates == d;
                assert(r1[i].coordinates == d);
                assert(false);
            }
            if d == rc.coordinates {
                assert(r1[r.len() as int].coordinates == d);
                assert(false);
            }
        }
    }
}

/// A correct new entry keeps every reported entry correct.
proof fn lemma_entries_push(pre: Board, r: Seq<RevealedCell>, rc: RevealedCell)
    requires
        entries_ok(pre, r),
        pre.is_covered_spec(rc.coordinates),
        in_grid(pre.tile_map.width as int, pre.tile_map.height as int, rc.coordinates),
        rc.tile == pre.tile_map.spec_tile(rc.coordinates),
        rc.handle == pre.cover_of(rc.coordinates),
    ensures
        entries_ok(pre, r.push(rc)),
{
    let r1 = r.push(rc);
    assert forall|i: int| 0 <= i < r1.len() implies {
        let e = #[trigger] r1[i];
        &&& pre.is_covered_spec(e.coordinates)
        &&& in_grid(pre.tile_map.width as int, pre.tile_map.height as int, e.coordinates)
        &&& e.tile == pre.tile_map.spec_tile(e.coordinates)
        &&& e.handle == pre.cover_of(e.coordinates)
    } by {
        if i < r.len() {
            assert(r1[i] == r[i]);
        } else {
            assert(r1[i] == rc);
        }
    }
}

/// A cell not yet reported keeps the report free of repetitions.
proof fn lemma_distinct_push(r: Seq<RevealedCell>, rc: RevealedCell)
    requires
        entries_distinct(r),
        !reveals_coord(r, rc.coordinates),
    ensures
        entries_distinct(r.push(rc)),
{
    let r1 = r.push(rc);
    assert forall|i: int, j: int| 0 <= i < j < r1.len() implies (#[trigger] r1[i]).coordinates
        != (#[trigger] r1[j]).coordinates by {
        if j < r.len() {
            assert(r1[i] == r[i] && r1[j] == r[j]);
        } else {
            assert(r1[j] == rc && r1[i] == r[i]);
            if r[i].coordinates == rc.coordinates {
                assert(reveals_coord(r, rc.coordinates));
            }
        }
    }
}

/// Removing the reported cell's cover entry keeps the covered set exactly
/// "covered at the start and not reported".
proof fn lemma_covered_push(pre: Board, cov0: Board, board: Board, r: Seq<RevealedCell>, rc: RevealedCell)
    requires
        covered_shrunk_by(pre, cov0, r),
        cov0.is_covered_spec(rc.coordinates),
        board.covered_tiles@ == cov0.covered_tiles@.remove(coord_key(rc.coordinates)),
    ensures
        covered_shrunk_by(pre, board, r.push(rc)),
{
    lemma_reveals_push(r, rc);
    let c = rc.coordinates;
    assert forall|d: Coordinates| #[trigger]
        board.is_covered_spec(d) <==> (pre.is_covered_spec(d) && !reveals_coord(
            r.push(rc),
            d,
        )) by {
        if coord_key(d) == coord_key(c) {
            lemma_coord_key_injective(d, c);
        }
        assert(cov0.is_covered_spec(d) <==> (pre.is_covered_spec(d) && !reveals_coord(r, d)));
        assert(reveals_coord(r.push(rc), d) <==> (reveals_coord(r, d) || d == c));
    }
    assert forall|d: Coordinates| #[trigger] board.is_covered_spec(d) implies board.cover_of(d)
        == pre.cover_of(d) by {
        if coord_key(d) == coord_key(c) {
            lemma_coord_key_injective(d, c);
        }
        assert(cov0.is_covered_spec(d) && cov0.cover_of(d) == pre.cover_of(d));
    }
}

/// A new entry adjacent to an earlier reported `Empty` cell keeps the
/// cascade inside the frontier.
proof fn lemma_frontier_push(r: Seq<RevealedCell>, rc: RevealedCell)
    requires
        frontier_sound(r),
        exists|j: int|
            0 <= j < r.len() && (#[trigger] r[j]).tile is Empty && adjacent(
                r[j].coordinates,
                rc.coordinates,
            ),
    ensures
        frontier_sound(r.push(rc)),
{
    let r1 = r.push(rc);
    assert forall|i: int| 0 < i < r1.len() implies exists|j: int|
        0 <= j < i && (#[trigger] r1[j]).tile is Empty && adjacent(
            r1[j].coordinates,
            (#[trigger] r1[i]).coordinates,
        ) by {
        if i < r.len() {
            let j = choose|j: int|
                0 <= j < i && (#[trigger] r[j]).tile is Empty && adjacent(
                    r[j].coordinates,
                    r[i].coordinates,
                );
            assert(r1[j].tile is Empty && adjacent(r1[j].coordinates, r1[i].coordinates));
        } else {
            let j = choose|j: int|
                0 <= j < r.len() && (#[trigger] r[j]).tile is Empty && adjacent(
                    r[j].coordinates,
                    rc.coordinates,
                );
            assert(r1[j].tile is Empty && adjacent(r1[j].coordinates, r1[i].coordinates));
        }
    }
}

/// The worklist after one step — the popped cell gone, the new neighbors
/// appended — still holds only cells that were covered at the start and
/// border a reported `Empty` cell.
proof fn lemma_worklist_push(
    pre: Board,
    r: Seq<RevealedCell>,
    rc: RevealedCell,
    wl0: Seq<Coordinates>,
    nbs: Seq<Coordinates>,
)
    requires
        worklist_ok(pre, r, wl0),
        wl0.len() > 0,
        nbs.len() > 0 ==> rc.tile is Empty,
        forall|k: int|
            0 <= k < nbs.len() ==> pre.is_covered_spec(#[trigger] nbs[k]) && adjacent(
                rc.coordinates,
                nbs[k],
            ),
    ensures
        worklist_ok(pre, r.push(rc), wl0.drop_last() + nbs),
{
    let r1 = r.push(rc);
    let wl = wl0.drop_last() + nbs;
    assert forall|k: int| 0 <= k < wl.len() implies pre.is_covered_spec(#[trigger] wl[k])
        && exists|j: int|
        0 <= j < r1.len() && (#[trigger] r1[j]).tile is Empty && adjacent(
            r1[j].coordinates,
            wl[k],
        ) by {
        if k < wl0.len() - 1 {
            assert(wl[k] == wl0[k]);
            let j = choose|j: int|
                0 <= j < r.len() && (#[trigger] r[j]).tile is Empty && adjacent(
                    r[j].coordinates,
                    wl0[k],
                );
            assert(r1[j].tile is Empty && adjacent(r1[j].coordinates, wl[k]));
        } else {
            assert(wl[k] == nbs[k - (wl0.len() - 1)]);
            assert(r1[r.len() as int].tile is Empty && adjacent(
                r1[r.len() as int].coordinates,
                wl[k],
            ));
        }
    }
}

/// After one step, every covered neighbor of a reported `Empty` cell is
/// still reported or queued: the popped cell is now reported, and the new
/// cell's covered neighbors were just queued.
#[verifier::rlimit(100)]
proof fn lemma_expansion_push(
    pre: Board,
    board: Board,
    r: Seq<RevealedCell>,
    rc: RevealedCell,
    wl0: Seq<Coordinates>,
    nbs: Seq<Coordinates>,
)
    requires
        expansion_pending(pre, r, wl0),
        wl0.len() > 0,
        rc.coordinates == wl0.last(),
        covered_shrunk_by(pre, board, r.push(rc)),
        forall|c: Coordinates|
            #[trigger] pre.is_covered_spec(c) ==> in_grid(
                pre.tile_map.width as int,
                pre.tile_map.height as int,
                c,
            ),
        rc.tile is Empty ==> forall|d: Coordinates|
            #[trigger] nbs.contains(d) <==> (in_grid(
                pre.tile_map.width as int,
                pre.tile_map.height as int,
                d,
            ) && adjacent(rc.coordinates, d) && board.is_covered_spec(d)),
        !(rc.tile is Empty) ==> nbs == Seq::<Coordinates>::empty(),
    ensures
        expansion_pending(pre, r.push(rc), wl0.drop_last() + nbs),
{
    lemma_reveals_push(r, rc);
    let r1 = r.push(rc);
    let wl = wl0.drop_last() + nbs;
    let c = rc.coordinates;
    assert forall|i: int, d: Coordinates|
        #![trigger (r1[i]).tile, pre.is_covered_spec(d)]
        0 <= i < r1.len() && r1[i].tile is Empty && pre.is_covered_spec(d) && adjacent(
            r1[i].coordinates,
            d,
        ) implies reveals_coord(r1, d) || wl.contains(d) by {
        if !reveals_coord(r1, d) {
            assert(!reveals_coord(r, d) && d != c);
            if i < r.len() {
                assert(r1[i] == r[i]);
                assert(reveals_coord(r, d) || wl0.contains(d));
                let k = choose|k: int| 0 <= k < wl0.len() && wl0[k] == d;
                assert(k < wl0.len() - 1);
                assert(wl[k] == d);
                assert(wl.contains(d));
            } else {
                assert(r1[i] == rc);
                if board.is_covered_spec(d) {
                    assert(nbs.contains(d));
                    let k = choose|k: int| 0 <= k < nbs.len() && nbs[k] == d;
                    assert(wl[wl0.len() - 1 + k] == d);
                    assert(wl.contains(d));
                } else {
                    assert(reveals_coord(r1, d));
                }
            }
        }
    }
}

/// Resolves one reveal request: uncovers the requested cell and cascades
/// through the connected empty region, reporting every cell that became
/// visible, the seed first.
pub fn uncover_tiles(board: &mut Board, trigger: &TileTriggerEvent) -> (r: Vec<RevealedCell>)
    requires
        old(board).wf(),
    ensures
        final(board).wf(),
        uncover_spec(*old(board), trigger.coordinates, r@, *final(board)),
{
    let seed = trigger.coordinates;
    let ghost pre = *old(board);
    let mut revealed: Vec<RevealedCell> = Vec::new();
    let first = board.try_uncover_tile(&seed);
    proof {
        assert forall|c: Coordinates| #[trigger]
            board.is_covered_spec(c) <==> (pre.is_covered_spec(c) && c != seed) by {
            if coord_key(c) == coord_key(seed) {
                lemma_coord_key_injective(c, seed);
            }
        }
    }
    let handle = match first {
        None => {
            proof {
                assert forall|c: Coordinates| #[trigger]
                    board.is_covered_spec(c) <==> (pre.is_covered_spec(c) && !reveals_coord(
                        revealed@,
                        c,
                    )) by {
                    if c == seed {
                        assert(!pre.is_covered_spec(seed));
                    }
                }
            }
            return revealed;
        },
        Some(handle) => handle,
    };
    let tile = board.tile_map.tile_at(seed);
    revealed.push(RevealedCell { coordinates: seed, tile, handle });
    let mut worklist: Vec<Coordinates> = Vec::new();
    if tile.is_empty() {
        let mut nbs = board.adjacent_covered_tiles(seed);
        let ghost nbs0 = nbs@;
        worklist.append(&mut nbs);
        proof {
            assert(worklist@ =~= nbs0);
            assert(revealed@[0].tile is Empty);
            assert forall|k: int| 0 <= k < worklist@.len() implies pre.is_covered_spec(
                #[trigger] worklist@[k],
            ) && exists|j: int|
                0 <= j < revealed@.len() && (#[trigger] revealed@[j]).tile is Empty && adjacent(
                    revealed@[j].coordinates,
                    worklist@[k],
                ) by {
                assert(nbs0.contains(nbs0[k]));
                assert(board.is_covered_spec(worklist@[k]));
                assert(adjacent(revealed@[0].coordinates, worklist@[k]));
            }
        }
    }
    proof {
        assert(revealed@[0].coordinates == seed);
        assert(reveals_coord(revealed@, seed)) by {
            assert(revealed@[0].coordinates == seed);
        }
        assert forall|c: Coordinates| #[trigger]
            board.is_covered_spec(c) <==> (pre.is_covered_spec(c) && !reveals_coord(
                revealed@,
                c,
            )) by {
            if reveals_coord(revealed@, c) {
                let i = choose|i: int|
                    0 <= i < revealed@.len() && (#[trigger] revealed@[i]).coordinates == c;
                assert(c == seed);
            }
        }
        assert(cascade_inv(pre, seed, *board, revealed@, worklist@));
    }
    while worklist.len() > 0
        invariant
            cascade_inv(pre, seed, *board, revealed@, worklist@),
        decreases board.covered_tiles@.len() * 9 + worklist@.len(),
    {
        let ghost wl0 = worklist@;
        let ghost rev0 = revealed@;
        let ghost cov0 = *board;
        let c = worklist.pop().unwrap();
        proof {
            assert(c == wl0.last());
            assert(worklist@ =~= wl0.drop_last());
        }
        let got = board.try_uncover_tile(&c);
        match got {
            None => {
                proof {
                    lemma_step_skip(pre, seed, cov0, *board, rev0, wl0);
                    assert(board.covered_tiles@ =~= cov0.covered_tiles@);
                }
            },
            Some(handle) => {
                proof {
                    assert(cov0.is_covered_spec(c));
                    assert(pre.is_covered_spec(c) && !reveals_coord(rev0, c));
                    assert(in_grid(pre.tile_map.width as int, pre.tile_map.height as int, c));
                    assert(handle == pre.cover_of(c)) by {
                        assert(cov0.cover_of(c) == pre.cover_of(c));
                    }
                }
                let tile = board.tile_map.tile_at(c);
                let rc = RevealedCell { coordinates: c, tile, handle };
                revealed.push(rc);
                let ghost nbs0 = Seq::<Coordinates>::empty();
                if tile.is_empty() {
                    let mut nbs = board.adjacent_covered_tiles(c);
                    proof {
                        nbs0 = nbs@;
                        assert(nbs0.len() <= 8);
                    }
                    worklist.append(&mut nbs);
                } else {
                    proof {
                        assert(worklist@ =~= wl0.drop_last() + nbs0);
                    }
                }
                proof {
                    assert(worklist@ == wl0.drop_last() + nbs0);
                    assert(revealed@ == rev0.push(rc));
                    lemma_entries_push(pre, rev0, rc);
                    lemma_distinct_push(rev0, rc);
                    lemma_covered_push(pre, cov0, *board, rev0, rc);
                    lemma_frontier_push(rev0, rc);
                    assert forall|k: int| 0 <= k < nbs0.len() implies pre.is_covered_spec(
                        #[trigger] nbs0[k],
                    ) && adjacent(c, nbs0[k]) by {
                        assert(nbs0.contains(nbs0[k]));
                        assert(board.is_covered_spec(nbs0[k]));
                        lemma_reveals_push(rev0, rc);
                    }
                    lemma_worklist_push(pre, rev0, rc, wl0, nbs0);
                    assert forall|d: Coordinates| #[trigger] pre.is_covered_spec(d) implies
                        in_grid(pre.tile_map.width as int, pre.tile_map.height as int, d) by {}
                    lemma_expansion_push(pre, *board, rev0, rc, wl0, nbs0);
                    assert(cov0.covered_tiles@.contains_key(coord_key(c)));
                    assert(board.covered_tiles@.len() + 1 == cov0.covered_tiles@.len());
                    assert(cascade_inv(pre, seed, *board, revealed@, worklist@));
                }
            },
        }
    }
    proof {
        assert forall|i: int, d: Coordinates|
            #![trigger (revealed@[i]).tile, pre.is_covered_spec(d)]
            0 <= i < revealed@.len() && revealed@[i].tile is Empty && pre.is_covered_spec(d)
                && adjacent(revealed@[i].coordinates, d) implies reveals_coord(
            revealed@,
            d,
        ) by {
            assert(reveals_coord(revealed@, d) || worklist@.contains(d));
        }
        assert forall|c: Coordinates| #[trigger] board.is_covered_spec(c) implies in_grid(
            board.tile_map.width as int,
            board.tile_map.height as int,
            c,
        ) by {
            assert(pre.is_covered_spec(c));
        }
    }
    revealed
}

/// Law: revealing a cell is one-way and idempotent.  After one request for
/// `seed` has been resolved, resolving a second request for the same seed
/// reveals nothing and leaves the covered set exactly as it was.
pub proof fn lemma_uncover_idempotent(
    b0: Board,
    b1: Board,
    b2: Board,
    seed: Coordinates,
    r1: Seq<RevealedCell>,
    r2: Seq<RevealedCell>,
)
    requires
        uncover_spec(b0, seed, r1, b1),
        uncover_spec(b1, seed, r2, b2),
    ensures
        r2.len() == 0,
        forall|c: Coordinates| b2.is_covered_spec(c) <==> b1.is_covered_spec(c),
{
    if b0.is_covered_spec(seed) {
        assert(r1[0].coordinates == seed);
        assert(reveals_coord(r1, seed));
    }
    assert(!b1.is_covered_spec(seed));
    assert forall|c: Coordinates| b2.is_covered_spec(c) <==> b1.is_covered_spec(c) by {
        assert(!reveals_coord(r2, c));
    }
}

} // verus!
