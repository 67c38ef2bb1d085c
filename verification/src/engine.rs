//! The move engine: sliding, merging, and the combined directional move.
//!
//! A move runs in three passes, exactly as the animation shows them: a
//! bounded repetition of single-step slides, one merge pass in
//! nearest-the-target-edge-first order, and, only after a merge, the same
//! bounded slide repetition again to close the gaps.
use vstd::prelude::*;
use crate::tile::{Tile, Direction, is_tile_val, is_pow2};
use crate::grid::{
    Grid, at, in_bounds, cell_val, total_prefix, grid_total, masked_prefix, masked_total,
    vals_ok, ids_below, distinct_ids, grid_wf, lemma_total_prefix_nonneg, lemma_total_update,
    lemma_total_cell_bound, lemma_masked_le_total, lemma_masked_update, lemma_masked_update_grid,
};

verus! {

/// Row component of the unit vector of travel.
pub open spec fn row_delta(d: Direction) -> int {
    match d {
        Direction::Up => -1,
        Direction::Down => 1,
        _ => 0,
    }
}

/// Column component of the unit vector of travel.
pub open spec fn col_delta(d: Direction) -> int {
    match d {
        Direction::Left => -1,
        Direction::Right => 1,
        _ => 0,
    }
}

/// The tile at (r, c) takes a single step: the cell holds a tile and the
/// adjacent cell in the direction of travel is on the board and empty.
pub open spec fn moves_out(g: Seq<Option<Tile>>, d: Direction, r: int, c: int) -> bool {
    &&& in_bounds(r, c)
    &&& g[at(r, c)] is Some
    &&& in_bounds(r + row_delta(d), c + col_delta(d))
    &&& g[at(r + row_delta(d), c + col_delta(d))] is None
}

/// `moves_out` at flat index `i`.
pub open spec fn moves_out_at(g: Seq<Option<Tile>>, d: Direction, i: int) -> bool {
    moves_out(g, d, i / 4, i % 4)
}

/// One cell of the board after a single simultaneous slide step: a tile
/// whose destination is empty leaves its cell; an empty cell receives the
/// tile, if any, whose step ends there; every other cell is unchanged.
pub open spec fn slide_cell(g: Seq<Option<Tile>>, d: Direction, i: int) -> Option<Tile> {
    let r = i / 4;
    let c = i % 4;
    let sr = r - row_delta(d);
    let sc = c - col_delta(d);
    if moves_out(g, d, r, c) {
        Option::None
    } else if moves_out(g, d, sr, sc) {
        g[at(sr, sc)]
    } else {
        g[i]
    }
}

/// The board after one simultaneous slide step.
pub open spec fn slide_step_spec(g: Seq<Option<Tile>>, d: Direction) -> Seq<Option<Tile>> {
    Seq::new(16, |i: int| slide_cell(g, d, i))
}

/// One cell of the board after the slide step has been carried out for the
/// first `k` cells only, in flat order.
pub open spec fn slide_partial_cell(g: Seq<Option<Tile>>, d: Direction, i: int, k: int) -> Option<
    Tile,
> {
    let r = i / 4;
    let c = i % 4;
    let sr = r - row_delta(d);
    let sc = c - col_delta(d);
    if i < k && moves_out(g, d, r, c) {
        Option::None
    } else if moves_out(g, d, sr, sc) && at(sr, sc) < k {
        g[at(sr, sc)]
    } else {
        g[i]
    }
}

/// The board after the slide step has been carried out for the first `k`
/// cells only.
pub open spec fn slide_partial(g: Seq<Option<Tile>>, d: Direction, k: int) -> Seq<Option<Tile>> {
    Seq::new(16, |i: int| slide_partial_cell(g, d, i, k))
}

/// For a cell on the board, the flat index recovers row and column.
pub proof fn lemma_at_coords(r: int, c: int)
    requires
        in_bounds(r, c),
    ensures
        at(r, c) / 4 == r,
        at(r, c) % 4 == c,
        0 <= at(r, c) < 16,
{
    assert(at(r, c) / 4 == r && at(r, c) % 4 == c) by (nonlinear_arith)
        requires
            0 <= r < 4,
            0 <= c < 4,
    ;
}

pub proof fn lemma_slide_partial_zero(g: Seq<Option<Tile>>, d: Direction)
    requires
        g.len() == 16,
    ensures
        slide_partial(g, d, 0) == g,
{
    assert(slide_partial(g, d, 0) =~= g);
}

/// Carrying out the slide for one more cell either moves that cell's tile
/// one step, or changes nothing.
pub proof fn lemma_slide_partial_step(g: Seq<Option<Tile>>, d: Direction, k: int)
    requires
        g.len() == 16,
        0 <= k < 16,
    ensures
        ({
            let r = k / 4;
            let c = k % 4;
            let dest = at(r + row_delta(d), c + col_delta(d));
            if moves_out(g, d, r, c) {
                &&& slide_partial(g, d, k + 1) == slide_partial(g, d, k).update(dest, g[k]).update(
                    k,
                    Option::None,
                )
                &&& slide_partial(g, d, k)[dest] is None
                &&& slide_partial(g, d, k)[k] == g[k]
                &&& 0 <= dest < 16
                &&& dest != k
            } else {
                slide_partial(g, d, k + 1) == slide_partial(g, d, k)
            }
        }),
{
    let r = k / 4;
    let c = k % 4;
    let dr = row_delta(d);
    let dc = col_delta(d);
    assert(at(r, c) == k);
    if moves_out(g, d, r, c) {
        let dest = at(r + dr, c + dc);
        lemma_at_coords(r + dr, c + dc);
        assert(dest != k);
        assert(slide_partial(g, d, k)[dest] is None) by {
            assert(!moves_out(g, d, dest / 4, dest % 4));
            assert(at(dest / 4 - dr, dest % 4 - dc) == k);
        }
        assert(slide_partial(g, d, k)[k] == g[k]) by {
            assert(!(moves_out(g, d, r - dr, c - dc) && at(r - dr, c - dc) < k));
        }
        let lhs = slide_partial(g, d, k + 1);
        let rhs = slide_partial(g, d, k).update(dest, g[k]).update(k, Option::None);
        assert forall|j: int| 0 <= j < 16 implies lhs[j] == rhs[j] by {
            assert(j == 4 * (j / 4) + j % 4);
            if j == k {
            } else if j == dest {
                assert(at(dest / 4 - dr, dest % 4 - dc) == k);
            } else {
                assert(at(j / 4 - dr, j % 4 - dc) == j - 4 * dr - dc);
                assert(j - 4 * dr - dc != k || !in_bounds(j / 4 - dr, j % 4 - dc) || !moves_out(
                    g,
                    d,
                    j / 4 - dr,
                    j % 4 - dc,
                )) by {
                    if j - 4 * dr - dc == k && in_bounds(j / 4 - dr, j % 4 - dc) {
                        lemma_at_coords(j / 4 - dr, j % 4 - dc);
                        assert(j / 4 - dr == r && j % 4 - dc == c);
                        assert(j == dest);
                    }
                }
            }
        }
        assert(lhs =~= rhs);
    } else {
        assert forall|j: int| 0 <= j < 16 implies slide_partial(g, d, k + 1)[j] == slide_partial(
            g,
            d,
            k,
        )[j] by {
            assert(j == 4 * (j / 4) + j % 4);
            if at(j / 4 - dr, j % 4 - dc) == k && in_bounds(j / 4 - dr, j % 4 - dc) {
                lemma_at_coords(j / 4 - dr, j % 4 - dc);
                assert(j / 4 - dr == r && j % 4 - dc == c);
            }
        }
        assert(slide_partial(g, d, k + 1) =~= slide_partial(g, d, k));
    }
}

pub proof fn lemma_slide_partial_full(g: Seq<Option<Tile>>, d: Direction)
    requires
        g.len() == 16,
    ensures
        slide_partial(g, d, 16) == slide_step_spec(g, d),
{
    assert forall|j: int| 0 <= j < 16 implies slide_partial(g, d, 16)[j] == slide_step_spec(
        g,
        d,
    )[j] by {
        let sr = j / 4 - row_delta(d);
        let sc = j % 4 - col_delta(d);
        if moves_out(g, d, sr, sc) {
            lemma_at_coords(sr, sc);
        }
    }
    assert(slide_partial(g, d, 16) =~= slide_step_spec(g, d));
}

/// A partial slide never changes the board total.
pub proof fn lemma_slide_partial_total(g: Seq<Option<Tile>>, d: Direction, k: int)
    requires
        g.len() == 16,
        0 <= k <= 16,
    ensures
        slide_partial(g, d, k).len() == 16,
        grid_total(slide_partial(g, d, k)) == grid_total(g),
    decreases k,
{
    if k == 0 {
        lemma_slide_partial_zero(g, d);
    } else {
        lemma_slide_partial_total(g, d, k - 1);
        lemma_slide_partial_step(g, d, k - 1);
        let r = (k - 1) / 4;
        let c = (k - 1) % 4;
        if moves_out(g, d, r, c) {
            let p = slide_partial(g, d, k - 1);
            let dest = at(r + row_delta(d), c + col_delta(d));
            lemma_total_update(p, dest, g[k - 1], 16);
            lemma_total_update(p.update(dest, g[k - 1]), k - 1, Option::None, 16);
            assert(at(r, c) == k - 1);
            assert(p.update(dest, g[k - 1])[k - 1] == p[k - 1]);
        }
    }
}

/// A single slide step keeps the board total, its size, the legality of
/// its values, every bound on its identifiers, and their distinctness:
/// each tile of the new board is one tile of the old board, moved from
/// its own cell.
pub proof fn lemma_slide_step_props(g: Seq<Option<Tile>>, d: Direction, b: int)
    requires
        g.len() == 16,
    ensures
        slide_step_spec(g, d).len() == 16,
        grid_total(slide_step_spec(g, d)) == grid_total(g),
        vals_ok(g) ==> vals_ok(slide_step_spec(g, d)),
        ids_below(g, b) ==> ids_below(slide_step_spec(g, d), b),
        distinct_ids(g) ==> distinct_ids(slide_step_spec(g, d)),
{
    lemma_slide_partial_total(g, d, 16);
    lemma_slide_partial_full(g, d);
    let s = slide_step_spec(g, d);
    let dr = row_delta(d);
    let dc = col_delta(d);
    assert forall|i: int| 0 <= i < 16 && s[i] is Some implies (vals_ok(g) ==> is_tile_val(
        s[i]->0.val,
    )) && (ids_below(g, b) ==> s[i]->0.id < b) by {
        let sr = i / 4 - dr;
        let sc = i % 4 - dc;
        if moves_out(g, d, sr, sc) && !moves_out(g, d, i / 4, i % 4) {
            lemma_at_coords(sr, sc);
        }
        assert(i == 4 * (i / 4) + i % 4);
    }
    if distinct_ids(g) {
        assert forall|i: int, j: int|
            0 <= i < 16 && 0 <= j < 16 && i != j && s[i] is Some && s[j] is Some implies s[i]->0.id
            != s[j]->0.id by {
            assert(i == 4 * (i / 4) + i % 4);
            assert(j == 4 * (j / 4) + j % 4);
            let si = if moves_out(g, d, i / 4 - dr, i % 4 - dc) {
                at(i / 4 - dr, i % 4 - dc)
            } else {
                i
            };
            let sj = if moves_out(g, d, j / 4 - dr, j % 4 - dc) {
                at(j / 4 - dr, j % 4 - dc)
            } else {
                j
            };
            if moves_out(g, d, i / 4 - dr, i % 4 - dc) {
                lemma_at_coords(i / 4 - dr, i % 4 - dc);
                assert(si == i - 4 * dr - dc);
            }
            if moves_out(g, d, j / 4 - dr, j % 4 - dc) {
                lemma_at_coords(j / 4 - dr, j % 4 - dc);
                assert(sj == j - 4 * dr - dc);
            }
            assert(s[i] == g[si] && s[j] == g[sj]);
            assert(si != sj) by {
                if si == i && sj == j - 4 * dr - dc && sj == i {
                    lemma_at_coords(j / 4 - dr, j % 4 - dc);
                    assert(moves_out(g, d, i / 4, i % 4));
                }
                if sj == j && si == i - 4 * dr - dc && si == j {
                    lemma_at_coords(i / 4 - dr, i % 4 - dc);
                    assert(moves_out(g, d, j / 4, j % 4));
                }
            }
            assert(0 <= si < 16 && 0 <= sj < 16);
            assert(g[si]->0.id != g[sj]->0.id);
        }
    }
}

/// The board after up to `n` slide steps, stopping as soon as a step
/// changes nothing, and whether any step changed the board.
pub open spec fn slide_iter(g: Seq<Option<Tile>>, d: Direction, n: nat) -> (Seq<Option<Tile>>, bool)
    decreases n,
{
    if n == 0 {
        (g, false)
    } else {
        let s = slide_step_spec(g, d);
        if s == g {
            (g, false)
        } else {
            (slide_iter(s, d, (n - 1) as nat).0, true)
        }
    }
}

/// If no step changed the board, the iterated slide left it as it was.
pub proof fn lemma_slide_iter_unchanged(g: Seq<Option<Tile>>, d: Direction, n: nat)
    ensures
        !slide_iter(g, d, n).1 ==> slide_iter(g, d, n).0 == g,
{
}

/// The iterated slide keeps the board total, its size, the legality of its
/// values, and every bound on its identifiers.
pub proof fn lemma_slide_iter_props(g: Seq<Option<Tile>>, d: Direction, n: nat, b: int)
    requires
        g.len() == 16,
    ensures
        slide_iter(g, d, n).0.len() == 16,
        grid_total(slide_iter(g, d, n).0) == grid_total(g),
        vals_ok(g) ==> vals_ok(slide_iter(g, d, n).0),
        ids_below(g, b) ==> ids_below(slide_iter(g, d, n).0, b),
        distinct_ids(g) ==> distinct_ids(slide_iter(g, d, n).0),
    decreases n,
{
    if n > 0 {
        let s = slide_step_spec(g, d);
        lemma_slide_step_props(g, d, b);
        if s != g {
            lemma_slide_iter_props(s, d, (n - 1) as nat, b);
        }
    }
}

/// Row component of the unit vector of travel.
pub fn row_delta_e(d: Direction) -> (x: i32)
    ensures
        x as int == row_delta(d),
{
    match d {
        Direction::Up => -1,
        Direction::Down => 1,
        _ => 0,
    }
}

/// Column component of the unit vector of travel.
pub fn col_delta_e(d: Direction) -> (x: i32)
    ensures
        x as int == col_delta(d),
{
    match d {
        Direction::Left => -1,
        Direction::Right => 1,
        _ => 0,
    }
}

/// One simultaneous slide step: every tile whose destination cell is empty
/// moves one cell toward the target edge.  Returns the new board and
/// whether anything moved.
pub fn slide_step(g: &Grid, d: Direction) -> (res: (Grid, bool))
    requires
        g.wf(),
    ensures
        res.0@ == slide_step_spec(g@, d),
        res.1 == (slide_step_spec(g@, d) != g@),
        res.0.wf(),
{
    let mut cur = g.snapshot();
    let mut changed = false;
    let dr = row_delta_e(d);
    let dc = col_delta_e(d);
    let mut k: usize = 0;
    proof {
        lemma_slide_partial_zero(g@, d);
    }
    while k < 16
        invariant
            g.wf(),
            cur@.len() == 16,
            dr as int == row_delta(d),
            dc as int == col_delta(d),
            k <= 16,
            cur@ == slide_partial(g@, d, k as int),
            changed == exists|j: int| 0 <= j < k as int && moves_out_at(g@, d, j),
        decreases 16 - k,
    {
        let srco = g.cells[k];
        let r32 = (k / 4) as i32;
        let c32 = (k % 4) as i32;
        let nr = r32 + dr;
        let nc = c32 + dc;
        proof {
            lemma_slide_partial_step(g@, d, k as int);
            assert(at(k as int / 4, k as int % 4) == k as int);
        }
        if 0 <= nr && nr < 4 && 0 <= nc && nc < 4 {
            let di: usize = (nr * 4 + nc) as usize;
            proof {
                assert(di as int == at(k as int / 4 + row_delta(d), k as int % 4 + col_delta(d)));
            }
            if srco.is_some() && g.cells[di].is_none() {
                cur.cells[di] = srco;
                cur.cells[k] = None;
                changed = true;
                proof {
                    assert(moves_out_at(g@, d, k as int));
                    assert(cur@ == slide_partial(g@, d, k as int + 1));
                }
            } else {
                proof {
                    assert(!moves_out_at(g@, d, k as int));
                }
            }
        } else {
            proof {
                assert(!moves_out_at(g@, d, k as int));
            }
        }
        k += 1;
    }
    proof {
        lemma_slide_partial_full(g@, d);
        lemma_slide_step_props(g@, d, 0);
        if changed {
            let j = choose|j: int| 0 <= j < 16 && moves_out_at(g@, d, j);
            assert(j == 4 * (j / 4) + j % 4);
            assert(slide_step_spec(g@, d)[j] is None);
            assert(g@[j] is Some);
            assert(slide_step_spec(g@, d) != g@);
        } else {
            assert forall|i: int| 0 <= i < 16 implies slide_step_spec(g@, d)[i] == g@[i] by {
                if moves_out(g@, d, i / 4, i % 4) {
                    assert(moves_out_at(g@, d, i));
                }
                let sr = i / 4 - row_delta(d);
                let sc = i % 4 - col_delta(d);
                if moves_out(g@, d, sr, sc) {
                    lemma_at_coords(sr, sc);
                    assert(moves_out_at(g@, d, at(sr, sc)));
                }
            }
            assert(slide_step_spec(g@, d) =~= g@);
        }
    }
    (cur, changed)
}

/// Repeat single slide steps, at most four times, stopping as soon as a
/// step changes nothing.  Returns whether any step changed the board.
pub fn slide_passes(grid: &mut Grid, d: Direction) -> (changed: bool)
    requires
        old(grid).wf(),
    ensures
        final(grid)@ == slide_iter(old(grid)@, d, 4).0,
        changed == slide_iter(old(grid)@, d, 4).1,
        final(grid).wf(),
        grid_total(final(grid)@) == grid_total(old(grid)@),
{
    let mut n: usize = 4;
    let mut going = true;
    let mut changed = false;
    while going && n > 0
        invariant
            grid.wf(),
            n <= 4,
            slide_iter(old(grid)@, d, 4).0 == slide_iter(grid@, d, n as nat).0,
            slide_iter(old(grid)@, d, 4).1 == (changed || slide_iter(grid@, d, n as nat).1),
            !going ==> slide_step_spec(grid@, d) == grid@,
        decreases n + if going {
            1int
        } else {
            0int
        },
    {
        let res = slide_step(grid, d);
        if res.1 {
            proof {
                lemma_slide_step_props(grid@, d, 0);
            }
            let stepped = res.0;
            *grid = stepped;
            changed = true;
            n -= 1;
        } else {
            going = false;
        }
    }
    proof {
        lemma_slide_iter_props(old(grid)@, d, 4, 0);
    }
    changed
}

/// Row of the cell visited at position `t` of the merge scan.  Cells
/// nearest the target edge are visited first.
pub open spec fn order_r(d: Direction, t: int) -> int {
    match d {
        Direction::Down => 3 - t / 4,
        _ => t / 4,
    }
}

/// Column of the cell visited at position `t` of the merge scan.
pub open spec fn order_c(d: Direction, t: int) -> int {
    match d {
        Direction::Right => 3 - t % 4,
        _ => t % 4,
    }
}

/// Flat index of the cell visited at position `t` of the merge scan.
pub open spec fn order_cell(d: Direction, t: int) -> int {
    at(order_r(d, t), order_c(d, t))
}

/// Position of flat index `j` in the merge scan's visiting order.
pub open spec fn ord_pos(d: Direction, j: int) -> int {
    match d {
        Direction::Down => 4 * (3 - j / 4) + j % 4,
        Direction::Right => 4 * (j / 4) + (3 - j % 4),
        _ => j,
    }
}

/// The merge scan's visiting order covers the board, and `ord_pos` is its
/// inverse.
pub proof fn lemma_order(d: Direction, t: int)
    requires
        0 <= t < 16,
    ensures
        in_bounds(order_r(d, t), order_c(d, t)),
        0 <= order_cell(d, t) < 16,
        ord_pos(d, order_cell(d, t)) == t,
{
    lemma_at_coords(order_r(d, t), order_c(d, t));
}

/// The merge destination of the cell at scan position `t` is visited
/// earlier in the scan.
pub proof fn lemma_ord_pos_dest(d: Direction, t: int)
    requires
        0 <= t < 16,
    ensures
        ({
            let r = order_r(d, t);
            let c = order_c(d, t);
            in_bounds(r + row_delta(d), c + col_delta(d)) ==> 0 <= ord_pos(
                d,
                at(r + row_delta(d), c + col_delta(d)),
            ) < t
        }),
{
    let r = order_r(d, t);
    let c = order_c(d, t);
    if in_bounds(r + row_delta(d), c + col_delta(d)) {
        lemma_at_coords(r + row_delta(d), c + col_delta(d));
    }
}

/// The doubled value a merge writes.
pub open spec fn dbl(v: u32) -> u32 {
    (2 * v) as u32
}

/// The merge pass after its first `k` scan positions: the board so far,
/// the mask of cells that already received a merge this move, the score
/// gained so far, and whether any merge has happened.  The source tile is
/// read from the board `g` the pass started from; the target tile and the
/// mask are read from the board as merged so far.
pub open spec fn merge_scan(g: Seq<Option<Tile>>, d: Direction, k: nat) -> (
    Seq<Option<Tile>>,
    Seq<bool>,
    int,
    bool,
)
    decreases k,
{
    if k == 0 {
        (g, Seq::new(16, |i: int| false), 0, false)
    } else {
        let prev = merge_scan(g, d, (k - 1) as nat);
        let n = prev.0;
        let m = prev.1;
        let i = order_cell(d, k - 1);
        let tr = order_r(d, k - 1) + row_delta(d);
        let tc = order_c(d, k - 1) + col_delta(d);
        if g[i] is Some && in_bounds(tr, tc) && n[at(tr, tc)] is Some && n[at(
            tr,
            tc,
        )]->0.val == g[i]->0.val && !m[at(tr, tc)] && !m[i] {
            let dest = at(tr, tc);
            let nv = dbl(g[i]->0.val);
            (
                n.update(dest, Option::Some(Tile { val: nv, id: n[dest]->0.id })).update(
                    i,
                    Option::None,
                ),
                m.update(dest, true),
                prev.2 + nv,
                true,
            )
        } else {
            prev
        }
    }
}

/// A masked sum over a mask with no set bit is zero.
pub proof fn lemma_masked_all_false(g: Seq<Option<Tile>>, m: Seq<bool>, n: int)
    requires
        forall|j: int| 0 <= j < n ==> !m[j],
    ensures
        masked_prefix(g, m, n) == 0,
    decreases n,
{
    if n > 0 {
        lemma_masked_all_false(g, m, n - 1);
    }
}

/// If the merge pass reports no merge, it changed nothing.
pub proof fn lemma_merge_scan_no_merge(g: Seq<Option<Tile>>, d: Direction, k: nat)
    ensures
        !merge_scan(g, d, k).3 ==> merge_scan(g, d, k).0 == g && merge_scan(g, d, k).2 == 0
            && merge_scan(g, d, k).1 == Seq::new(16, |i: int| false),
    decreases k,
{
    if k > 0 {
        lemma_merge_scan_no_merge(g, d, (k - 1) as nat);
    }
}

/// What the merge pass guarantees after its first `k` scan positions: the
/// board total is conserved, the score gained equals the sum of the values
/// of the tiles created by merges, a cell receives at most one merge and is
/// then exactly the doubled original tile of that cell with its identifier
/// kept, unvisited cells are untouched, and value legality and identifier
/// bounds carry over.
pub proof fn lemma_merge_scan_props(g: Seq<Option<Tile>>, d: Direction, k: nat, b: int)
    requires
        g.len() == 16,
        2 * grid_total(g) <= u32::MAX as int,
        k <= 16,
    ensures
        ({
            let res = merge_scan(g, d, k);
            &&& res.0.len() == 16
            &&& res.1.len() == 16
            &&& grid_total(res.0) == grid_total(g)
            &&& res.2 == masked_total(res.0, res.1)
            &&& 0 <= res.2 <= grid_total(g)
            &&& (forall|j: int|
                0 <= j < 16 && !(#[trigger] res.1[j]) ==> res.0[j] == g[j] || res.0[j] is None)
            &&& (forall|j: int|
                0 <= j < 16 && #[trigger] res.1[j] ==> g[j] is Some && res.0[j] == Option::Some(
                    Tile { val: dbl(g[j]->0.val), id: g[j]->0.id },
                ) && cell_val(res.0[j]) == 2 * cell_val(g[j]))
            &&& (forall|j: int|
                0 <= j < 16 && ord_pos(d, j) >= k ==> #[trigger] res.0[j] == g[j] && !res.1[j])
            &&& (vals_ok(g) ==> vals_ok(res.0))
            &&& (ids_below(g, b) ==> ids_below(res.0, b))
            &&& (distinct_ids(g) ==> distinct_ids(res.0))
        }),
    decreases k,
{
    lemma_total_prefix_nonneg(g, 16);
    if k == 0 {
        lemma_masked_all_false(g, Seq::new(16, |i: int| false), 16);
    } else {
        lemma_merge_scan_props(g, d, (k - 1) as nat, b);
        let prev = merge_scan(g, d, (k - 1) as nat);
        let n = prev.0;
        let m = prev.1;
        let i = order_cell(d, k - 1);
        let tr = order_r(d, k - 1) + row_delta(d);
        let tc = order_c(d, k - 1) + col_delta(d);
        lemma_order(d, k - 1);
        assert(ord_pos(d, i) == k - 1);
        assert(n[i] == g[i] && !m[i]);
        if g[i] is Some && in_bounds(tr, tc) && n[at(tr, tc)] is Some && n[at(
            tr,
            tc,
        )]->0.val == g[i]->0.val && !m[at(tr, tc)] && !m[i] {
            let dest = at(tr, tc);
            lemma_at_coords(tr, tc);
            lemma_ord_pos_dest(d, k - 1);
            assert(dest == i + 4 * row_delta(d) + col_delta(d));
            assert(dest != i);
            assert(n[dest] == g[dest]);
            let v = g[i]->0.val;
            lemma_total_cell_bound(n, 16, dest);
            assert(cell_val(n[dest]) <= grid_total(n));
            assert(2 * (v as int) <= u32::MAX as int);
            assert(dbl(v) as int == 2 * (v as int));
            let nt = Option::Some(Tile { val: dbl(v), id: n[dest]->0.id });
            let n2 = n.update(dest, nt).update(i, Option::None);
            let m2 = m.update(dest, true);
            lemma_total_update(n, dest, nt, 16);
            lemma_total_update(n.update(dest, nt), i, Option::None, 16);
            assert(n.update(dest, nt)[i] == n[i]);
            assert(grid_total(n2) == grid_total(g));
            lemma_masked_update(n, m, dest, nt, true, 16);
            lemma_masked_update_grid(n.update(dest, nt), m2, i, Option::None, 16);
            assert(!m2[i]);
            assert(masked_total(n2, m2) == masked_total(n, m) + cell_val(nt));
            lemma_masked_le_total(n2, m2, 16);
            let res = merge_scan(g, d, k);
            assert(res.0 == n2 && res.1 == m2 && res.2 == prev.2 + dbl(v) && res.3);
            assert forall|j: int| 0 <= j < 16 && #[trigger] res.1[j] implies g[j] is Some
                && res.0[j] == Option::Some(Tile { val: dbl(g[j]->0.val), id: g[j]->0.id })
                && cell_val(res.0[j]) == 2 * cell_val(g[j]) by {
                if j == dest {
                    assert(g[dest]->0.val == v);
                } else {
                    assert(m[j]);
                    assert(res.0[j] == n[j]);
                }
            }
            assert forall|j: int| 0 <= j < 16 && ord_pos(d, j) >= k implies #[trigger] res.0[j]
                == g[j] && !res.1[j] by {
                assert(ord_pos(d, dest) < k - 1 + 1);
                assert(j != i && j != dest);
            }
            if vals_ok(g) {
                assert(vals_ok(n));
                assert forall|jj: int| 0 <= jj < 16 && res.0[jj] is Some implies is_tile_val(
                    res.0[jj]->0.val,
                ) by {
                    if jj == dest {
                        assert(is_tile_val(v));
                        assert(is_pow2(2 * (v as int)));
                    }
                }
            }
            if ids_below(g, b) {
                assert(ids_below(n, b));
                assert forall|jj: int| 0 <= jj < 16 && res.0[jj] is Some implies res.0[jj]->0.id
                    < b by {}
            }
            if distinct_ids(g) {
                assert(distinct_ids(n));
                assert forall|p: int, q: int|
                    0 <= p < 16 && 0 <= q < 16 && p != q && res.0[p] is Some && res.0[q]
                    is Some implies res.0[p]->0.id != res.0[q]->0.id by {
                    assert(p != i && q != i);
                    assert(n[p] is Some && n[q] is Some);
                    assert(res.0[p]->0.id == n[p]->0.id && res.0[q]->0.id == n[q]->0.id);
                }
            }
        }
    }
}

/// The merge pass: visit every cell nearest-the-target-edge first; when a
/// cell's tile has an equal-valued neighbour in the direction of travel and
/// neither cell has merged this move, combine them at the neighbour (value
/// doubled, the destination tile's identifier kept), clear the source, and
/// add the doubled value to the score delta.  Returns the score delta and
/// whether any merge happened.
#[verifier::rlimit(100)]
pub fn merge_pass(grid: &mut Grid, d: Direction) -> (res: (u32, bool))
    requires
        old(grid).wf(),
        2 * grid_total(old(grid)@) <= u32::MAX as int,
    ensures
        final(grid)@ == merge_scan(old(grid)@, d, 16).0,
        res.0 as int == merge_scan(old(grid)@, d, 16).2,
        res.1 == merge_scan(old(grid)@, d, 16).3,
        final(grid).wf(),
{
    let orig = grid.snapshot();
    let mut mask: Vec<bool> = Vec::new();
    let mut j: usize = 0;
    while j < 16
        invariant
            j <= 16,
            mask@.len() == j as int,
            forall|t: int| 0 <= t < j as int ==> !mask@[t],
        decreases 16 - j,
    {
        mask.push(false);
        j += 1;
    }
    proof {
        assert(mask@ =~= Seq::new(16, |i: int| false));
    }
    let mut delta: u32 = 0;
    let mut merged = false;
    let dr = row_delta_e(d);
    let dc = col_delta_e(d);
    let mut k: usize = 0;
    while k < 16
        invariant
            orig@ == old(grid)@,
            orig.wf(),
            grid@.len() == 16,
            mask@.len() == 16,
            2 * grid_total(orig@) <= u32::MAX as int,
            dr as int == row_delta(d),
            dc as int == col_delta(d),
            k <= 16,
            grid@ == merge_scan(orig@, d, k as nat).0,
            mask@ == merge_scan(orig@, d, k as nat).1,
            delta as int == merge_scan(orig@, d, k as nat).2,
            merged == merge_scan(orig@, d, k as nat).3,
        decreases 16 - k,
    {
        let r: usize = match d {
            Direction::Down => 3 - k / 4,
            _ => k / 4,
        };
        let c: usize = match d {
            Direction::Right => 3 - k % 4,
            _ => k % 4,
        };
        proof {
            lemma_order(d, k as int);
            assert(r as int == order_r(d, k as int));
            assert(c as int == order_c(d, k as int));
        }
        let i: usize = r * 4 + c;
        let nr = r as i32 + dr;
        let nc = c as i32 + dc;
        if 0 <= nr && nr < 4 && 0 <= nc && nc < 4 {
            let di: usize = (nr * 4 + nc) as usize;
            proof {
                assert(di as int == at(
                    order_r(d, k as int) + row_delta(d),
                    order_c(d, k as int) + col_delta(d),
                ));
            }
            let srco = orig.cells[i];
            let dsto = grid.cells[di];
            if srco.is_some() && dsto.is_some() && dsto.unwrap().val == srco.unwrap().val
                && !mask[di] && !mask[i] {
                let tg = dsto.unwrap();
                proof {
                    lemma_merge_scan_props(orig@, d, k as nat, 0);
                    lemma_total_cell_bound(grid@, 16, di as int);
                    assert(2 * (tg.val as int) <= u32::MAX as int);
                    lemma_merge_scan_props(orig@, d, (k + 1) as nat, 0);
                    lemma_total_prefix_nonneg(orig@, 16);
                }
                let nv = tg.val * 2;
                grid.cells[di] = Some(Tile { val: nv, id: tg.id });
                grid.cells[i] = None;
                mask[di] = true;
                delta = delta + nv;
                merged = true;
            } else {
                proof {
                    assert(merge_scan(orig@, d, (k + 1) as nat) == merge_scan(orig@, d, k as nat));
                }
            }
        } else {
            proof {
                assert(!in_bounds(
                    order_r(d, k as int) + row_delta(d),
                    order_c(d, k as int) + col_delta(d),
                ));
                assert(merge_scan(orig@, d, (k + 1) as nat) == merge_scan(orig@, d, k as nat));
            }
        }
        k += 1;
    }
    proof {
        lemma_merge_scan_props(orig@, d, 16, 0);
    }
    (delta, merged)
}

/// The board after the initial slide repetition of a move.
pub open spec fn slid_grid(g: Seq<Option<Tile>>, d: Direction) -> Seq<Option<Tile>> {
    slide_iter(g, d, 4).0
}

/// Whether the initial slide repetition changed the board.
pub open spec fn slid_changed(g: Seq<Option<Tile>>, d: Direction) -> bool {
    slide_iter(g, d, 4).1
}

/// The board after the merge pass of a move.
pub open spec fn merge_grid(g: Seq<Option<Tile>>, d: Direction) -> Seq<Option<Tile>> {
    merge_scan(slid_grid(g, d), d, 16).0
}

/// The mask of cells that received a merge during a move.
pub open spec fn merge_mask(g: Seq<Option<Tile>>, d: Direction) -> Seq<bool> {
    merge_scan(slid_grid(g, d), d, 16).1
}

/// The score gained by a move.
pub open spec fn move_delta_spec(g: Seq<Option<Tile>>, d: Direction) -> int {
    merge_scan(slid_grid(g, d), d, 16).2
}

/// Whether the merge pass of a move merged anything.
pub open spec fn move_merged(g: Seq<Option<Tile>>, d: Direction) -> bool {
    merge_scan(slid_grid(g, d), d, 16).3
}

/// The board a move leaves behind: slide, merge, and, only after a merge,
/// slide again to close the gaps.
pub open spec fn move_grid_spec(g: Seq<Option<Tile>>, d: Direction) -> Seq<Option<Tile>> {
    if move_merged(g, d) {
        slide_iter(merge_grid(g, d), d, 4).0
    } else {
        merge_grid(g, d)
    }
}

/// Whether a move changed anything: some slide step moved a tile, or some
/// merge happened.
pub open spec fn move_moved_spec(g: Seq<Option<Tile>>, d: Direction) -> bool {
    slid_changed(g, d) || move_merged(g, d)
}

/// One full directional move over board and score: slide, merge, close the
/// gaps, and add the merge gains to the score.  Reports whether anything
/// changed; when nothing did, board and score are exactly as before.
pub fn apply_move(grid: &mut Grid, score: &mut u32, d: Direction) -> (moved: bool)
    requires
        old(grid).wf(),
        *old(score) + 2 * grid_total(old(grid)@) <= u32::MAX as int,
    ensures
        final(grid)@ == move_grid_spec(old(grid)@, d),
        final(grid).wf(),
        *final(score) == *old(score) + move_delta_spec(old(grid)@, d),
        moved == move_moved_spec(old(grid)@, d),
        0 <= move_delta_spec(old(grid)@, d) <= grid_total(old(grid)@),
        grid_total(final(grid)@) == grid_total(old(grid)@),
        *old(score) <= *final(score),
        !moved ==> final(grid)@ == old(grid)@ && *final(score) == *old(score),
        forall|b: int| #![auto] ids_below(old(grid)@, b) ==> ids_below(final(grid)@, b),
        distinct_ids(old(grid)@) ==> distinct_ids(final(grid)@),
{
    let ghost g0 = old(grid)@;
    let slid = slide_passes(grid, d);
    proof {
        lemma_slide_iter_props(g0, d, 4, 0);
        lemma_slide_iter_unchanged(g0, d, 4);
    }
    let mp = merge_pass(grid, d);
    let delta = mp.0;
    let merged = mp.1;
    proof {
        lemma_merge_scan_props(slid_grid(g0, d), d, 16, 0);
        lemma_merge_scan_no_merge(slid_grid(g0, d), d, 16);
    }
    if merged {
        let _c = slide_passes(grid, d);
        proof {
            lemma_slide_iter_props(merge_grid(g0, d), d, 4, 0);
        }
    }
    *score = *score + delta;
    proof {
        assert forall|b: int| ids_below(g0, b) implies ids_below(final(grid)@, b) by {
            lemma_slide_iter_props(g0, d, 4, b);
            lemma_merge_scan_props(slid_grid(g0, d), d, 16, b);
            if move_merged(g0, d) {
                lemma_slide_iter_props(merge_grid(g0, d), d, 4, b);
            }
        }
    }
    slid || merged
}

/// A move that reports no change is idempotent: it leaves the board and
/// the score delta untouched, and repeating it reports no change again
/// with the same outcome.
pub proof fn lemma_noop_move_idempotent(g: Seq<Option<Tile>>, d: Direction)
    requires
        grid_wf(g),
        !move_moved_spec(g, d),
    ensures
        move_grid_spec(g, d) == g,
        move_delta_spec(g, d) == 0,
        !move_moved_spec(move_grid_spec(g, d), d),
        move_grid_spec(move_grid_spec(g, d), d) == move_grid_spec(g, d),
        move_delta_spec(move_grid_spec(g, d), d) == 0,
{
    lemma_slide_iter_unchanged(g, d, 4);
    lemma_merge_scan_no_merge(slid_grid(g, d), d, 16);
}

/// Conservation: a move never creates or destroys board value.  The board
/// total after slide, merge and compaction equals the total before the
/// move, and the score gained equals exactly the sum of the values of the
/// tiles created by merges.
pub proof fn lemma_move_conserves_total(g: Seq<Option<Tile>>, d: Direction)
    requires
        grid_wf(g),
        2 * grid_total(g) <= u32::MAX as int,
    ensures
        grid_total(move_grid_spec(g, d)) == grid_total(g),
        move_delta_spec(g, d) == masked_total(merge_grid(g, d), merge_mask(g, d)),
        0 <= move_delta_spec(g, d) <= grid_total(g),
{
    lemma_slide_iter_props(g, d, 4, 0);
    lemma_merge_scan_props(slid_grid(g, d), d, 16, 0);
    if move_merged(g, d) {
        lemma_slide_iter_props(merge_grid(g, d), d, 4, 0);
    }
}

/// A cell can receive at most one merge per move: every cell the merge
/// pass marks holds exactly the doubled tile that stood there after the
/// slide, with its identifier kept, and every unmarked cell is either
/// untouched or was emptied as a merge source.  No tile more than doubles
/// in one move.
pub proof fn lemma_merge_at_most_once(g: Seq<Option<Tile>>, d: Direction)
    requires
        grid_wf(g),
        2 * grid_total(g) <= u32::MAX as int,
    ensures
        forall|j: int|
            0 <= j < 16 && #[trigger] merge_mask(g, d)[j] ==> slid_grid(g, d)[j] is Some
                && merge_grid(g, d)[j] == Option::Some(
                Tile { val: dbl(slid_grid(g, d)[j]->0.val), id: slid_grid(g, d)[j]->0.id },
            ) && cell_val(merge_grid(g, d)[j]) == 2 * cell_val(slid_grid(g, d)[j]),
        forall|j: int|
            0 <= j < 16 && !(#[trigger] merge_mask(g, d)[j]) ==> merge_grid(g, d)[j] == slid_grid(
                g,
                d,
            )[j] || merge_grid(g, d)[j] is None,
        move_delta_spec(g, d) == masked_total(merge_grid(g, d), merge_mask(g, d)),
{
    lemma_slide_iter_props(g, d, 4, 0);
    lemma_merge_scan_props(slid_grid(g, d), d, 16, 0);
}

} // verus!
