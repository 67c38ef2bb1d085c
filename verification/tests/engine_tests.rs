use rust_2048::engine::apply_move;
use rust_2048::grid::Grid;
use rust_2048::tile::{Direction, Tile};

fn grid_from(vals: [[u32; 4]; 4]) -> Grid {
    let mut g = Grid::new();
    let mut id: usize = 0;
    for r in 0..4 {
        for c in 0..4 {
            if vals[r][c] != 0 {
                g.set_cell(r, c, Some(Tile { val: vals[r][c], id }));
                id += 1;
            }
        }
    }
    g
}

fn values_of(g: &Grid) -> [[u32; 4]; 4] {
    let mut out = [[0u32; 4]; 4];
    for r in 0..4 {
        for c in 0..4 {
            if let Some(t) = g.get(r, c) {
                out[r][c] = t.val;
            }
        }
    }
    out
}

fn row_grid(row: [u32; 4]) -> Grid {
    grid_from([row, [0; 4], [0; 4], [0; 4]])
}

#[test]
fn merge_pair_and_slide_left() {
    let mut g = row_grid([2, 2, 4, 0]);
    let mut score: u32 = 10;
    let moved = apply_move(&mut g, &mut score, Direction::Left);
    assert!(moved);
    assert_eq!(score, 14);
    assert_eq!(values_of(&g)[0], [4, 4, 0, 0]);
}

#[test]
fn no_adjacent_equal_left_is_noop() {
    let mut g = row_grid([2, 4, 2, 0]);
    let mut score: u32 = 7;
    let moved = apply_move(&mut g, &mut score, Direction::Left);
    assert!(!moved);
    assert_eq!(score, 7);
    assert_eq!(values_of(&g)[0], [2, 4, 2, 0]);
}

#[test]
fn pure_slide_left() {
    let mut g = row_grid([0, 0, 0, 2]);
    let mut score: u32 = 3;
    let moved = apply_move(&mut g, &mut score, Direction::Left);
    assert!(moved);
    assert_eq!(score, 3);
    assert_eq!(values_of(&g)[0], [2, 0, 0, 0]);
}

#[test]
fn four_equal_merge_pairwise_left() {
    let mut g = row_grid([2, 2, 2, 2]);
    let mut score: u32 = 0;
    let moved = apply_move(&mut g, &mut score, Direction::Left);
    assert!(moved);
    assert_eq!(score, 8);
    assert_eq!(values_of(&g)[0], [4, 4, 0, 0]);
}

#[test]
fn triple_merges_only_once() {
    let mut g = row_grid([2, 2, 2, 0]);
    let mut score: u32 = 0;
    let moved = apply_move(&mut g, &mut score, Direction::Left);
    assert!(moved);
    assert_eq!(score, 4);
    assert_eq!(values_of(&g)[0], [4, 2, 0, 0]);
}

#[test]
fn merge_right() {
    let mut g = row_grid([0, 4, 2, 2]);
    let mut score: u32 = 0;
    let moved = apply_move(&mut g, &mut score, Direction::Right);
    assert!(moved);
    assert_eq!(score, 4);
    assert_eq!(values_of(&g)[0], [0, 0, 4, 4]);
}

#[test]
fn merge_up() {
    let mut g = grid_from([[2, 0, 0, 0], [2, 0, 0, 0], [4, 0, 0, 0], [0, 0, 0, 0]]);
    let mut score: u32 = 0;
    let moved = apply_move(&mut g, &mut score, Direction::Up);
    assert!(moved);
    assert_eq!(score, 4);
    let v = values_of(&g);
    assert_eq!([v[0][0], v[1][0], v[2][0], v[3][0]], [4, 4, 0, 0]);
}

#[test]
fn merge_down() {
    let mut g = grid_from([[0, 0, 0, 4], [0, 0, 0, 2], [0, 0, 0, 2], [0, 0, 0, 0]]);
    let mut score: u32 = 0;
    let moved = apply_move(&mut g, &mut score, Direction::Down);
    assert!(moved);
    assert_eq!(score, 4);
    let v = values_of(&g);
    assert_eq!([v[0][3], v[1][3], v[2][3], v[3][3]], [0, 0, 4, 4]);
}

#[test]
fn wall_press_is_noop() {
    let mut g = row_grid([2, 0, 0, 0]);
    let mut score: u32 = 0;
    let moved = apply_move(&mut g, &mut score, Direction::Left);
    assert!(!moved);
    assert_eq!(score, 0);
    assert_eq!(values_of(&g)[0], [2, 0, 0, 0]);
}

#[test]
fn noop_move_stays_noop() {
    let mut g = row_grid([2, 4, 2, 0]);
    let mut score: u32 = 0;
    let first = apply_move(&mut g, &mut score, Direction::Left);
    assert!(!first);
    let second = apply_move(&mut g, &mut score, Direction::Left);
    assert!(!second);
    assert_eq!(score, 0);
    assert_eq!(values_of(&g)[0], [2, 4, 2, 0]);
}

#[test]
fn board_value_is_conserved() {
    let vals = [[2, 4, 4, 2], [0, 2, 2, 0], [8, 0, 8, 4], [2, 2, 4, 4]];
    for d in [Direction::Left, Direction::Right, Direction::Up, Direction::Down] {
        let mut g = grid_from(vals);
        let before = g.total_value();
        let mut score: u32 = 0;
        apply_move(&mut g, &mut score, d);
        assert_eq!(g.total_value(), before);
    }
}

#[test]
fn merge_keeps_destination_identifier() {
    let mut g = Grid::new();
    g.set_cell(0, 0, Some(Tile { val: 2, id: 5 }));
    g.set_cell(0, 1, Some(Tile { val: 2, id: 9 }));
    let mut score: u32 = 0;
    let moved = apply_move(&mut g, &mut score, Direction::Left);
    assert!(moved);
    assert_eq!(g.get(0, 0), Some(Tile { val: 4, id: 5 }));
    assert_eq!(g.get(0, 1), None);
}

#[test]
fn slide_keeps_identifier() {
    let mut g = Grid::new();
    g.set_cell(0, 3, Some(Tile { val: 8, id: 42 }));
    let mut score: u32 = 0;
    let moved = apply_move(&mut g, &mut score, Direction::Left);
    assert!(moved);
    assert_eq!(g.get(0, 0), Some(Tile { val: 8, id: 42 }));
}
