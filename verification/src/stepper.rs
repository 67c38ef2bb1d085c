//! The animation stepper: one move, decomposed into the ordered sequence
//! of intermediate board snapshots a renderer shows frame by frame.
//!
//! The sequence holds one snapshot per slide step that changed at least
//! one cell, then — only if any merge occurred — the merge result,
//! followed by one snapshot per compaction step that changed a cell.  It
//! replays exactly the engine's passes, so its last snapshot is the board
//! the move settles on.
use vstd::prelude::*;
use crate::tile::{Tile, Direction};
use crate::grid::{Grid, grid_total, grid_wf};
use crate::engine::{
    slide_step, slide_step_spec, slide_iter, merge_pass, slid_grid,
    merge_grid, move_merged, move_grid_spec, move_moved_spec, lemma_slide_iter_props,
    lemma_slide_iter_unchanged, lemma_merge_scan_props, lemma_merge_scan_no_merge,
    lemma_slide_step_props,
};

verus! {

/// The snapshots of up to `n` slide steps: one board per step that
/// changed something, stopping at the first step that changed nothing.
pub open spec fn slide_frames(g: Seq<Option<Tile>>, d: Direction, n: nat) -> Seq<
    Seq<Option<Tile>>,
>
    decreases n,
{
    if n == 0 {
        Seq::empty()
    } else {
        let s = slide_step_spec(g, d);
        if s == g {
            Seq::empty()
        } else {
            seq![s] + slide_frames(s, d, (n - 1) as nat)
        }
    }
}

/// The full snapshot sequence of one move: the slide snapshots, then,
/// only if a merge occurred, the merge result and the compaction
/// snapshots.
pub open spec fn move_frames_spec(g: Seq<Option<Tile>>, d: Direction) -> Seq<Seq<Option<Tile>>> {
    if move_merged(g, d) {
        slide_frames(g, d, 4) + seq![merge_grid(g, d)] + slide_frames(merge_grid(g, d), d, 4)
    } else {
        slide_frames(g, d, 4)
    }
}

/// The slide snapshots are empty exactly when the iterated slide changed
/// nothing, and otherwise end in the iterated slide's result.
pub proof fn lemma_slide_frames_last(g: Seq<Option<Tile>>, d: Direction, n: nat)
    ensures
        slide_frames(g, d, n).len() == 0 ==> slide_iter(g, d, n).0 == g && !slide_iter(g, d, n).1,
        slide_frames(g, d, n).len() > 0 ==> slide_frames(g, d, n).last() == slide_iter(g, d, n).0
            && slide_iter(g, d, n).1,
    decreases n,
{
    if n > 0 {
        let s = slide_step_spec(g, d);
        if s != g {
            lemma_slide_frames_last(s, d, (n - 1) as nat);
            let rest = slide_frames(s, d, (n - 1) as nat);
            assert(slide_frames(g, d, n) == seq![s] + rest);
            if rest.len() == 0 {
                assert((seq![s] + rest).last() == s);
            } else {
                assert((seq![s] + rest).last() == rest.last());
            }
        }
    }
}

/// The snapshot sequence of a move is empty exactly when the move changes
/// nothing, and otherwise its last snapshot is the board the move settles
/// on: the stepper and the engine never diverge.
pub proof fn lemma_frames_match_move(g: Seq<Option<Tile>>, d: Direction)
    requires
        grid_wf(g),
    ensures
        move_frames_spec(g, d).len() == 0 <==> !move_moved_spec(g, d),
        move_frames_spec(g, d).len() > 0 ==> move_frames_spec(g, d).last() == move_grid_spec(g, d),
        move_frames_spec(g, d).len() == 0 ==> move_grid_spec(g, d) == g,
{
    lemma_slide_frames_last(g, d, 4);
    lemma_slide_iter_unchanged(g, d, 4);
    lemma_merge_scan_no_merge(slid_grid(g, d), d, 16);
    let f1 = slide_frames(g, d, 4);
    if move_merged(g, d) {
        let mg = merge_grid(g, d);
        lemma_slide_frames_last(mg, d, 4);
        lemma_slide_iter_unchanged(mg, d, 4);
        let f2 = slide_frames(mg, d, 4);
        let all = f1 + seq![mg] + f2;
        assert(all.len() > 0);
        if f2.len() == 0 {
            assert(all.last() == mg);
        } else {
            assert(all.last() == f2.last());
        }
    } else {
        if f1.len() > 0 {
            assert(f1.last() == slide_iter(g, d, 4).0);
        }
    }
}

/// Run the bounded slide repetition on `cur`, pushing one snapshot of the
/// board after each step that changed something.
fn push_slide_frames(cur: &mut Grid, frames: &mut Vec<Grid>, d: Direction)
    requires
        old(cur).wf(),
        forall|t: int| 0 <= t < old(frames)@.len() ==> (#[trigger] old(frames)@[t]).wf(),
    ensures
        final(cur)@ == slide_iter(old(cur)@, d, 4).0,
        final(cur).wf(),
        final(frames)@.map_values(|fr: Grid| fr@) == old(frames)@.map_values(|fr: Grid| fr@)
            + slide_frames(old(cur)@, d, 4),
        forall|t: int| 0 <= t < final(frames)@.len() ==> (#[trigger] final(frames)@[t]).wf(),
{
    let mut n: usize = 4;
    let mut going = true;
    while going && n > 0
        invariant
            cur.wf(),
            n <= 4,
            slide_iter(old(cur)@, d, 4).0 == slide_iter(cur@, d, n as nat).0,
            slide_frames(old(cur)@, d, 4) == (frames@.map_values(|fr: Grid| fr@)).skip(
                old(frames)@.len() as int,
            ) + slide_frames(cur@, d, n as nat),
            frames@.len() >= old(frames)@.len(),
            forall|t: int| 0 <= t < old(frames)@.len() ==> frames@[t] == old(frames)@[t],
            forall|t: int| 0 <= t < frames@.len() ==> (#[trigger] frames@[t]).wf(),
            !going ==> slide_step_spec(cur@, d) == cur@,
        decreases n + if going {
            1int
        } else {
            0int
        },
    {
        let res = slide_step(cur, d);
        if res.1 {
            proof {
                lemma_slide_step_props(cur@, d, 0);
            }
            let ghost prev_map = (frames@.map_values(|fr: Grid| fr@)).skip(
                old(frames)@.len() as int,
            );
            let ghost prev_cur = cur@;
            let stepped = res.0;
            *cur = stepped;
            let snap = cur.snapshot();
            frames.push(snap);
            n -= 1;
            proof {
                assert((frames@.map_values(|fr: Grid| fr@)).skip(old(frames)@.len() as int) =~= (
                prev_map + seq![cur@]));
                assert(slide_frames(prev_cur, d, (n + 1) as nat) == seq![cur@] + slide_frames(
                    cur@,
                    d,
                    n as nat,
                ));
                assert(prev_map + (seq![cur@] + slide_frames(cur@, d, n as nat)) =~= (prev_map
                    + seq![cur@]) + slide_frames(cur@, d, n as nat));
            }
        } else {
            going = false;
        }
    }
    proof {
        lemma_slide_iter_props(old(cur)@, d, 4, 0);
        assert(slide_frames(cur@, d, n as nat) =~= Seq::<Seq<Option<Tile>>>::empty());
        assert(slide_frames(old(cur)@, d, 4) =~= (frames@.map_values(|fr: Grid| fr@)).skip(
            old(frames)@.len() as int,
        ));
        assert(frames@.map_values(|fr: Grid| fr@) =~= old(frames)@.map_values(|fr: Grid| fr@)
            + slide_frames(old(cur)@, d, 4));
    }
}

/// The ordered snapshot sequence one move produces, for frame-by-frame
/// rendering.  The sequence is empty exactly when the move would report
/// no change; otherwise its last snapshot is the exact board
/// `apply_move` settles on.  The board handed in is not changed.
pub fn move_frames(grid: &Grid, d: Direction) -> (frames: Vec<Grid>)
    requires
        grid.wf(),
        2 * grid_total(grid@) <= u32::MAX as int,
    ensures
        frames@.map_values(|fr: Grid| fr@) == move_frames_spec(grid@, d),
        forall|t: int| 0 <= t < frames@.len() ==> (#[trigger] frames@[t]).wf(),
        frames@.len() == 0 <==> !move_moved_spec(grid@, d),
        frames@.len() > 0 ==> frames@[frames@.len() - 1]@ == move_grid_spec(grid@, d),
{
    let mut frames: Vec<Grid> = Vec::new();
    let mut cur = grid.snapshot();
    proof {
        assert(frames@.map_values(|fr: Grid| fr@) =~= Seq::<Seq<Option<Tile>>>::empty());
    }
    push_slide_frames(&mut cur, &mut frames, d);
    proof {
        lemma_slide_iter_props(grid@, d, 4, 0);
    }
    let mp = merge_pass(&mut cur, d);
    proof {
        lemma_merge_scan_props(slid_grid(grid@, d), d, 16, 0);
        lemma_merge_scan_no_merge(slid_grid(grid@, d), d, 16);
    }
    if mp.1 {
        let ghost before = frames@.map_values(|fr: Grid| fr@);
        let snap = cur.snapshot();
        frames.push(snap);
        proof {
            assert(frames@.map_values(|fr: Grid| fr@) =~= before + seq![merge_grid(grid@, d)]);
        }
        let ghost mid = frames@.map_values(|fr: Grid| fr@);
        push_slide_frames(&mut cur, &mut frames, d);
        proof {
            assert(frames@.map_values(|fr: Grid| fr@) =~= (slide_frames(grid@, d, 4) + seq![
                merge_grid(grid@, d)
            ]) + slide_frames(merge_grid(grid@, d), d, 4));
            assert(move_frames_spec(grid@, d) =~= frames@.map_values(|fr: Grid| fr@));
        }
    }
    proof {
        lemma_frames_match_move(grid@, d);
        if frames@.len() > 0 {
            assert(frames@[frames@.len() - 1]@ == frames@.map_values(|fr: Grid| fr@).last());
        }
    }
    frames
}

} // verus!
