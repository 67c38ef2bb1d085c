use rust_2048::engine::apply_move;
use rust_2048::grid::Grid;
use rust_2048::stepper::move_frames;
use rust_2048::tile::{Direction, Tile};

fn row_grid(row: [u32; 4]) -> Grid {
    let mut g = Grid::new();
    for c in 0..4 {
        if row[c] != 0 {
            g.set_cell(0, c, Some(Tile { val: row[c], id: c }));
        }
    }
    g
}

fn top_row(g: &Grid) -> [u32; 4] {
    let mut out = [0u32; 4];
    for c in 0..4 {
        if let Some(t) = g.get(0, c) {
            out[c] = t.val;
        }
    }
    out
}

#[test]
fn slide_emits_one_frame_per_step() {
    let g = row_grid([0, 0, 0, 2]);
    let frames = move_frames(&g, Direction::Left);
    assert_eq!(frames.len(), 3);
    assert_eq!(top_row(&frames[0]), [0, 0, 2, 0]);
    assert_eq!(top_row(&frames[1]), [0, 2, 0, 0]);
    assert_eq!(top_row(&frames[2]), [2, 0, 0, 0]);
}

#[test]
fn merge_frame_then_compaction_frames() {
    let g = row_grid([2, 2, 4, 0]);
    let frames = move_frames(&g, Direction::Left);
    assert_eq!(frames.len(), 2);
    assert_eq!(top_row(&frames[0]), [4, 0, 4, 0]);
    assert_eq!(top_row(&frames[1]), [4, 4, 0, 0]);
}

#[test]
fn no_change_means_no_frames() {
    let g = row_grid([2, 4, 2, 0]);
    let frames = move_frames(&g, Direction::Left);
    assert!(frames.is_empty());
}

#[test]
fn frames_end_in_the_engine_result() {
    for row in [[2u32, 2, 2, 2], [0, 2, 2, 4], [4, 0, 4, 8], [0, 0, 2, 2]] {
        for d in [Direction::Left, Direction::Right] {
            let frames = move_frames(&row_grid(row), d);
            let mut settled = row_grid(row);
            let mut score: u32 = 0;
            let moved = apply_move(&mut settled, &mut score, d);
            assert_eq!(frames.is_empty(), !moved);
            if let Some(last) = frames.last() {
                for r in 0..4 {
                    for c in 0..4 {
                        assert_eq!(last.get(r, c), settled.get(r, c));
                    }
                }
            }
        }
    }
}
