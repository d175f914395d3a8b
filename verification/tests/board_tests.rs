use minesweeper_core::board::{
    adaptive_tile_size, Board, BoardOptions, BoardPosition, CoverHandle, TileSize,
};
use minesweeper_core::bounds::Point2;
use minesweeper_core::components::{Bomb, BombNeighbor};
use minesweeper_core::coordinates::Coordinates;
use minesweeper_core::events::TileTriggerEvent;
use minesweeper_core::rng::Lcg;
use minesweeper_core::tile::Tile;
use minesweeper_core::tile_map::TileMap;
use minesweeper_core::uncover::{uncover_tiles, RevealedCell};

fn handles(n: u64) -> Vec<CoverHandle> {
    let mut v = Vec::new();
    let mut i: u64 = 0;
    while i < n {
        v.push(CoverHandle { id: i });
        i += 1;
    }
    v
}

fn coord(x: u16, y: u16) -> Coordinates {
    Coordinates { x, y }
}

fn count_bombs(tm: &TileMap) -> u32 {
    let mut n: u32 = 0;
    for y in 0..tm.height() {
        for x in 0..tm.width() {
            if tm.is_bomb_at(coord(x, y)) {
                n += 1;
            }
        }
    }
    n
}

fn corner_bomb_board() -> Board {
    let tm = TileMap::from_bomb_positions(3, 3, vec![coord(2, 2)]);
    Board::new(tm, Point2 { x: 0, y: 0 }, 16, &handles(9))
}

fn reveal_at(board: &mut Board, x: u16, y: u16) -> Vec<RevealedCell> {
    let trigger = TileTriggerEvent { coordinates: coord(x, y) };
    uncover_tiles(board, &trigger)
}

#[test]
fn bomb_total_matches_request() {
    let mut rng = Lcg::new(42);
    let tm = TileMap::generate(9, 9, 10, None, &mut rng);
    assert_eq!(tm.bomb_count(), 10);
    assert_eq!(count_bombs(&tm), 10);
}

#[test]
fn bomb_count_is_clamped() {
    let mut rng = Lcg::new(7);
    let tm = TileMap::generate(3, 3, 100, None, &mut rng);
    assert_eq!(tm.bomb_count(), 8);
    assert_eq!(count_bombs(&tm), 8);
}

#[test]
fn zero_bombs_gives_all_empty() {
    let mut rng = Lcg::new(1);
    let tm = TileMap::generate(4, 3, 0, None, &mut rng);
    assert_eq!(tm.bomb_count(), 0);
    for y in 0..3 {
        for x in 0..4 {
            assert_eq!(tm.tile_at(coord(x, y)), Tile::Empty);
        }
    }
}

#[test]
fn neighbor_counts_are_exact() {
    let mut rng = Lcg::new(123456789);
    let tm = TileMap::generate(8, 8, 12, None, &mut rng);
    for y in 0..8u16 {
        for x in 0..8u16 {
            let c = coord(x, y);
            let mut expected: u8 = 0;
            for dy in -1i32..=1 {
                for dx in -1i32..=1 {
                    if dx == 0 && dy == 0 {
                        continue;
                    }
                    let nx = x as i32 + dx;
                    let ny = y as i32 + dy;
                    if nx >= 0 && nx < 8 && ny >= 0 && ny < 8 {
                        if tm.is_bomb_at(coord(nx as u16, ny as u16)) {
                            expected += 1;
                        }
                    }
                }
            }
            assert_eq!(tm.bomb_count_at(c), expected);
            match tm.tile_at(c) {
                Tile::Bomb => {}
                Tile::Empty => assert_eq!(expected, 0),
                Tile::BombNeighbor(n) => {
                    assert_eq!(n, expected);
                    assert!(n >= 1 && n <= 8);
                }
            }
        }
    }
}

#[test]
fn safe_zone_holds_no_bombs() {
    let mut rng = Lcg::new(99);
    let s = coord(4, 4);
    let tm = TileMap::generate(9, 9, 10, Some(s), &mut rng);
    assert_eq!(tm.bomb_count(), 10);
    for dy in -1i32..=1 {
        for dx in -1i32..=1 {
            let c = coord((4 + dx) as u16, (4 + dy) as u16);
            assert!(!tm.is_bomb_at(c));
        }
    }
}

#[test]
fn explicit_positions_become_bombs() {
    let bombs = vec![coord(0, 0), coord(2, 1)];
    let tm = TileMap::from_bomb_positions(4, 2, bombs);
    assert_eq!(tm.bomb_count(), 2);
    assert!(tm.is_bomb_at(coord(0, 0)));
    assert!(tm.is_bomb_at(coord(2, 1)));
    assert!(!tm.is_bomb_at(coord(1, 0)));
    assert_eq!(tm.tile_at(coord(1, 0)), Tile::BombNeighbor(2));
    assert_eq!(tm.tile_at(coord(3, 0)), Tile::BombNeighbor(1));
}

#[test]
fn empty_row_cascades_fully() {
    let tm = TileMap::from_bomb_positions(5, 1, vec![]);
    let mut board = Board::new(tm, Point2 { x: 0, y: 0 }, 16, &handles(5));
    let revealed = reveal_at(&mut board, 2, 0);
    assert_eq!(revealed.len(), 5);
    assert_eq!(revealed[0].coordinates, coord(2, 0));
    for x in 0..5u16 {
        assert!(revealed.iter().any(|rc| rc.coordinates == coord(x, 0)));
        assert!(!board.is_covered(&coord(x, 0)));
    }
    for rc in &revealed {
        assert_eq!(rc.tile, Tile::Empty);
    }
}

#[test]
fn corner_bomb_cascade_stops_at_frontier() {
    let mut board = corner_bomb_board();
    let revealed = reveal_at(&mut board, 0, 0);
    assert_eq!(revealed.len(), 8);
    assert_eq!(revealed[0].coordinates, coord(0, 0));
    assert!(!revealed.iter().any(|rc| rc.coordinates == coord(2, 2)));
    assert!(board.is_covered(&coord(2, 2)));
    for rc in &revealed {
        let c = rc.coordinates;
        if c == coord(1, 1) || c == coord(2, 1) || c == coord(1, 2) {
            assert_eq!(rc.tile, Tile::BombNeighbor(1));
        } else {
            assert_eq!(rc.tile, Tile::Empty);
        }
        assert!(!board.is_covered(&c));
    }
}

#[test]
fn revealing_again_is_a_no_op() {
    let mut board = corner_bomb_board();
    let first = reveal_at(&mut board, 0, 0);
    assert_eq!(first.len(), 8);
    let second = reveal_at(&mut board, 0, 0);
    assert_eq!(second.len(), 0);
    let third = reveal_at(&mut board, 1, 1);
    assert_eq!(third.len(), 0);
}

#[test]
fn try_uncover_removes_exactly_once() {
    let mut board = corner_bomb_board();
    let c = coord(1, 1);
    assert!(board.is_covered(&c));
    let first = board.try_uncover_tile(&c);
    assert!(first.is_some());
    assert!(!board.is_covered(&c));
    let second = board.try_uncover_tile(&c);
    assert!(second.is_none());
}

#[test]
fn revealing_a_bomb_reports_the_loss() {
    let mut board = corner_bomb_board();
    let revealed = reveal_at(&mut board, 2, 2);
    assert_eq!(revealed.len(), 1);
    assert_eq!(revealed[0].coordinates, coord(2, 2));
    assert_eq!(revealed[0].tile, Tile::Bomb);
    assert!(board.is_covered(&coord(0, 0)));
}

#[test]
fn revealing_a_numbered_cell_does_not_expand() {
    let mut board = corner_bomb_board();
    let revealed = reveal_at(&mut board, 1, 1);
    assert_eq!(revealed.len(), 1);
    assert_eq!(revealed[0].tile, Tile::BombNeighbor(1));
    assert!(board.is_covered(&coord(0, 0)));
    assert!(board.is_covered(&coord(2, 2)));
}

#[test]
fn cover_handles_follow_row_major_order() {
    let tm = TileMap::from_bomb_positions(5, 1, vec![]);
    let board = Board::new(tm, Point2 { x: 0, y: 0 }, 16, &handles(5));
    let got = board.tile_to_uncover(&coord(3, 0));
    assert_eq!(got, Some(CoverHandle { id: 3 }));
    assert_eq!(board.tile_to_uncover(&coord(9, 0)), None);
}

#[test]
fn pointer_at_board_center_maps_to_center_cell() {
    let tm = TileMap::from_bomb_positions(10, 10, vec![]);
    let board = Board::new(tm, Point2 { x: -160, y: -160 }, 32, &handles(100));
    let got = board.mouse_position(700, 800, 350, 400);
    assert_eq!(got, Some(coord(5, 5)));
}

#[test]
fn pointer_outside_bounds_maps_to_none() {
    let tm = TileMap::from_bomb_positions(10, 10, vec![]);
    let board = Board::new(tm, Point2 { x: -160, y: -160 }, 32, &handles(100));
    assert_eq!(board.mouse_position(700, 800, 0, 400), None);
    assert_eq!(board.mouse_position(700, 800, 350, 0), None);
    assert_eq!(board.mouse_position(700, 800, 699, 400), None);
    assert_eq!(board.mouse_position(700, 800, 350, 799), None);
}

#[test]
fn pointer_in_bottom_left_cell() {
    let tm = TileMap::from_bomb_positions(10, 10, vec![]);
    let board = Board::new(tm, Point2 { x: -160, y: -160 }, 32, &handles(100));
    let got = board.mouse_position(700, 800, 350 - 159, 400 + 159);
    assert_eq!(got, Some(coord(0, 0)));
}

#[test]
fn adaptive_tile_size_fits_and_clamps() {
    assert_eq!(adaptive_tile_size(700, 800, 10, 50, 20, 20), 35);
    assert_eq!(adaptive_tile_size(100, 100, 10, 50, 20, 20), 10);
    assert_eq!(adaptive_tile_size(100000, 100000, 10, 50, 10, 10), 50);
}

#[test]
fn board_from_default_options() {
    let options = BoardOptions::default();
    assert_eq!(options.map_size, (15, 15));
    assert_eq!(options.bomb_count, 30);
    assert!(!options.safe_start);
    let mut rng = Lcg::new(5);
    let board = Board::from_options(&options, None, 700, 800, &handles(225), &mut rng);
    assert_eq!(board.tile_map.width(), 15);
    assert_eq!(board.tile_map.height(), 15);
    assert_eq!(board.tile_map.bomb_count(), 30);
    assert_eq!(board.tile_size, 46);
    assert_eq!(board.bounds.position, Point2 { x: -345, y: -345 });
    assert_eq!(board.bounds.size.width, 15 * 46);
    for y in 0..15u16 {
        for x in 0..15u16 {
            assert!(board.is_covered(&coord(x, y)));
        }
    }
}

#[test]
fn safe_start_option_protects_the_seed() {
    let options = BoardOptions {
        map_size: (9, 9),
        bomb_count: 10,
        position: BoardPosition::Custom(Point2 { x: 0, y: 0 }),
        tile_size: TileSize::Fixed(2),
        tile_padding: 0,
        safe_start: true,
    };
    let mut rng = Lcg::new(77);
    let board = Board::from_options(&options, Some(coord(4, 4)), 100, 100, &handles(81), &mut rng);
    assert_eq!(board.tile_size, 2);
    for dy in -1i32..=1 {
        for dx in -1i32..=1 {
            let c = coord((4 + dx) as u16, (4 + dy) as u16);
            assert!(!board.tile_map.is_bomb_at(c));
        }
    }
    let mut b = board;
    let revealed = reveal_at(&mut b, 4, 4);
    assert!(!revealed.iter().any(|rc| matches!(rc.tile, Tile::Bomb)));
}

#[test]
fn adjacent_covered_tiles_lists_covered_neighbors() {
    let mut board = corner_bomb_board();
    let all = board.adjacent_covered_tiles(coord(1, 1));
    assert_eq!(all.len(), 8);
    let _ = board.try_uncover_tile(&coord(0, 0));
    let fewer = board.adjacent_covered_tiles(coord(1, 1));
    assert_eq!(fewer.len(), 7);
    assert!(!fewer.iter().any(|c| *c == coord(0, 0)));
    let corner = board.adjacent_covered_tiles(coord(2, 2));
    assert_eq!(corner.len(), 3);
}

#[test]
fn tile_kinds_and_console_chars() {
    assert!(Tile::Bomb.is_bomb());
    assert!(!Tile::Empty.is_bomb());
    assert!(Tile::Empty.is_empty());
    assert!(!Tile::BombNeighbor(3).is_empty());
    assert_eq!(Tile::Bomb.console_char(), '*');
    assert_eq!(Tile::Empty.console_char(), ' ');
    assert_eq!(Tile::BombNeighbor(3).console_char(), '3');
}

#[test]
fn component_markers_carry_their_count() {
    let b = Bomb;
    assert_eq!(b, Bomb);
    let n = BombNeighbor { count: 2 };
    assert_eq!(n.count, 2);
}

#[test]
fn generator_draws_below_the_bound() {
    let mut rng = Lcg::new(0);
    for _ in 0..100 {
        assert!(rng.below(10) < 10);
        assert!(rng.below_index(3) < 3);
    }
}
