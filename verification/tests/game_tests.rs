use rust_2048::game::Game;
use rust_2048::grid::Grid;
use rust_2048::tile::{Direction, Tile};

fn grid_from(vals: [[u32; 4]; 4]) -> Grid {
    let mut g = Grid::new();
    let mut id: usize = 0;
    for r in 0..4 {
        for c in 0..4 {
            if vals[r][c] != 0 {
                g.set_cell(r, c, Some(Tile { val: vals[r][c], id }));
                id += 1;
            }
        }
    }
    g
}

fn tile_count(g: &Grid) -> usize {
    let mut n = 0;
    for r in 0..4 {
        for c in 0..4 {
            if g.get(r, c).is_some() {
                n += 1;
            }
        }
    }
    n
}

fn game_from(vals: [[u32; 4]; 4]) -> Game {
    let grid = grid_from(vals);
    let next_id = tile_count(&grid);
    Game { grid, score: 0, game_over: false, next_id }
}

#[test]
fn new_game_has_two_tiles_and_zero_score() {
    let game = Game::new();
    assert_eq!(game.score, 0);
    assert!(!game.game_over);
    assert_eq!(game.next_id, 2);
    assert_eq!(tile_count(&game.grid), 2);
    for r in 0..4 {
        for c in 0..4 {
            if let Some(t) = game.grid.get(r, c) {
                assert!(t.val == 2 || t.val == 4);
            }
        }
    }
}

#[test]
fn spawn_fills_an_empty_cell() {
    // one empty cell at (2, 1); the spawn has nowhere else to go
    let mut vals = [[2u32, 4, 2, 4], [4, 2, 4, 2], [2, 0, 2, 4], [4, 2, 4, 2]];
    let mut game = game_from(vals);
    let old_next = game.next_id;
    game.spawn_tile();
    let t = game.grid.get(2, 1).expect("spawn must fill the empty cell");
    assert!(t.val == 2 || t.val == 4);
    assert_eq!(t.id, old_next);
    assert_eq!(game.next_id, old_next + 1);
    // every other cell is exactly as before
    vals[2][1] = t.val;
    for r in 0..4 {
        for c in 0..4 {
            assert_eq!(game.grid.get(r, c).map(|x| x.val).unwrap_or(0), vals[r][c]);
        }
    }
}

#[test]
fn spawn_on_full_board_changes_nothing() {
    let vals = [[2u32, 4, 2, 4], [4, 2, 4, 2], [2, 4, 2, 4], [4, 2, 4, 2]];
    let mut game = game_from(vals);
    let old_next = game.next_id;
    game.spawn_tile();
    assert_eq!(game.next_id, old_next);
    for r in 0..4 {
        for c in 0..4 {
            assert_eq!(game.grid.get(r, c).map(|x| x.val).unwrap_or(0), vals[r][c]);
        }
    }
}

#[test]
fn spawned_values_are_always_two_or_four() {
    for _ in 0..50 {
        let game = Game::new();
        for r in 0..4 {
            for c in 0..4 {
                if let Some(t) = game.grid.get(r, c) {
                    assert!(t.val == 2 || t.val == 4);
                }
            }
        }
    }
}

#[test]
fn repeated_spawns_never_hit_an_occupied_cell() {
    let mut game = Game { grid: Grid::new(), score: 0, game_over: false, next_id: 0 };
    for n in 1..=16 {
        game.spawn_tile();
        assert_eq!(tile_count(&game.grid), n);
        assert_eq!(game.next_id, n);
    }
    // the board is now full: one more spawn is a silent no-op
    game.spawn_tile();
    assert_eq!(tile_count(&game.grid), 16);
    assert_eq!(game.next_id, 16);
}

#[test]
fn step_without_change_spawns_nothing() {
    // every row is packed left with no adjacent equal pair
    let vals = [[2u32, 4, 2, 4], [4, 2, 4, 2], [2, 4, 2, 4], [4, 2, 4, 2]];
    let mut game = game_from(vals);
    let moved = game.step(Direction::Left);
    assert!(!moved);
    assert_eq!(game.score, 0);
    assert!(!game.game_over);
    assert_eq!(tile_count(&game.grid), 16);
}

#[test]
fn step_applies_move_and_spawns() {
    let mut game = game_from([[2, 2, 4, 0], [0; 4], [0; 4], [0; 4]]);
    let moved = game.step(Direction::Left);
    assert!(moved);
    assert_eq!(game.score, 4);
    // merged row plus exactly one spawned tile
    assert_eq!(game.grid.get(0, 0).unwrap().val, 4);
    assert_eq!(game.grid.get(0, 1).unwrap().val, 4);
    assert_eq!(tile_count(&game.grid), 3);
    assert!(!game.game_over);
}

#[test]
fn board_filling_up_ends_the_game_for_good() {
    // checkerboard with a single gap; the move slides one tile, the
    // spawn fills the last hole, and the simplified terminal check fires
    let vals = [[0u32, 4, 2, 4], [4, 2, 4, 2], [2, 4, 2, 4], [4, 2, 4, 2]];
    let mut game = game_from(vals);
    let moved = game.step(Direction::Left);
    assert!(moved);
    assert!(game.game_over);
    assert_eq!(tile_count(&game.grid), 16);
    let frozen: Vec<u32> = (0..16).map(|i| game.grid.get(i / 4, i % 4).map(|t| t.val).unwrap_or(0)).collect();
    // once over, every further command is ignored
    for d in [Direction::Left, Direction::Right, Direction::Up, Direction::Down] {
        let again = game.step(d);
        assert!(!again);
        assert!(game.game_over);
    }
    let after: Vec<u32> = (0..16).map(|i| game.grid.get(i / 4, i % 4).map(|t| t.val).unwrap_or(0)).collect();
    assert_eq!(frozen, after);
    assert_eq!(game.score, 0);
}

#[test]
fn score_never_decreases() {
    let mut game = Game::new();
    let mut last = game.score;
    let dirs = [Direction::Left, Direction::Up, Direction::Right, Direction::Down];
    for i in 0..40 {
        game.step(dirs[i % 4]);
        assert!(game.score >= last);
        last = game.score;
    }
}
