//! The game state and its controller: spawning, one turn per accepted
//! command, and the one-way terminal flag.
use vstd::prelude::*;
use crate::tile::{Tile, Direction, is_tile_val, is_pow2};
use crate::grid::{Grid, at, in_bounds, grid_total, grid_full, ids_below, distinct_ids, empty_grid};
use crate::engine::{apply_move, move_grid_spec, move_delta_spec, move_moved_spec};
use crate::rng::random_below;

verus! {

/// The whole game: board, score, terminal flag, and the next tile
/// identifier to hand out.
pub struct Game {
    pub grid: Grid,
    pub score: u32,
    pub game_over: bool,
    pub next_id: usize,
}

impl Game {
    /// A well-formed game: well-formed board whose tile identifiers are
    /// pairwise distinct and all lie below the next one to hand out.
    pub open spec fn wf(&self) -> bool {
        self.grid.wf() && ids_below(self.grid@, self.next_id as int) && distinct_ids(self.grid@)
    }

    /// A fresh game: empty board, score zero, not over, and two tiles
    /// with identifiers 0 and 1 spawned into two distinct random cells.
    pub fn new() -> (game: Game)
        ensures
            game.wf(),
            game.score == 0,
            !game.game_over,
            game.next_id == 2,
            exists|i: int, j: int, v0: u32, v1: u32|
                #![auto]
                0 <= i < 16 && 0 <= j < 16 && i != j && (v0 == 2 || v0 == 4) && (v1 == 2 || v1 == 4)
                    && game.grid@ == empty_grid().update(
                    i,
                    Option::Some(Tile { val: v0, id: 0 }),
                ).update(j, Option::Some(Tile { val: v1, id: 1 })),
    {
        let mut game = Game { grid: Grid::new(), score: 0, game_over: false, next_id: 0 };
        proof {
            assert(empty_grid()[0] is None);
        }
        game.spawn_tile();
        let ghost g1 = game.grid@;
        proof {
            let (i0, v0) = choose|i: int, v: u32|
                #![auto]
                0 <= i < 16 && empty_grid()[i] is None && (v == 2 || v == 4) && g1
                    == empty_grid().update(i, Option::Some(Tile { val: v, id: 0 }));
            let w = if i0 == 0 {
                1int
            } else {
                0int
            };
            assert(g1[w] is None);
        }
        game.spawn_tile();
        proof {
            let (i0, v0) = choose|i: int, v: u32|
                #![auto]
                0 <= i < 16 && empty_grid()[i] is None && (v == 2 || v == 4) && g1
                    == empty_grid().update(i, Option::Some(Tile { val: v, id: 0 }));
            let (j1, v1) = choose|j: int, v: u32|
                #![auto]
                0 <= j < 16 && g1[j] is None && (v == 2 || v == 4) && game.grid@ == g1.update(
                    j,
                    Option::Some(Tile { val: v, id: 1 }),
                );
            assert(g1[i0] is Some);
            assert(j1 != i0);
            assert(0 <= i0 < 16 && 0 <= j1 < 16 && i0 != j1 && (v0 == 2 || v0 == 4) && (v1 == 2
                || v1 == 4) && game.grid@ == empty_grid().update(
                i0,
                Option::Some(Tile { val: v0, id: 0 }),
            ).update(j1, Option::Some(Tile { val: v1, id: 1 })));
        }
        game
    }

    /// Spawn one tile: pick an empty cell uniformly at random, give it
    /// value 2 with probability 9/10 and 4 otherwise, and advance the
    /// identifier counter.  A full board is left untouched, and so is a
    /// finished game.
    pub fn spawn_tile(&mut self)
        requires
            old(self).wf(),
            old(self).next_id < usize::MAX,
        ensures
            final(self).wf(),
            final(self).score == old(self).score,
            final(self).game_over == old(self).game_over,
            old(self).game_over ==> final(self).grid@ == old(self).grid@ && final(self).next_id
                == old(self).next_id,
            !old(self).game_over && grid_full(old(self).grid@) ==> final(self).grid@ == old(self).grid@ && final(self).next_id == old(self).next_id,
            !old(self).game_over && !grid_full(old(self).grid@) ==> final(self).next_id == old(self).next_id + 1 && exists|i: int, v: u32|
                #![auto]
                0 <= i < 16 && old(self).grid@[i] is None && (v == 2 || v == 4) && final(self).grid@ == old(self).grid@.update(
                    i,
                    Option::Some(Tile { val: v, id: old(self).next_id }),
                ),
    {
        if self.game_over {
            return ;
        }
        let empties = self.grid.empty_cells();
        if empties.len() == 0 {
            proof {
                assert forall|i: int| 0 <= i < 16 implies self.grid@[i] is Some by {
                    let r = i / 4;
                    let c = i % 4;
                    assert(at(r, c) == i);
                    assert(in_bounds(r, c));
                    if self.grid@[at(r, c)] is None {
                        assert(exists|k: int|
                            0 <= k < empties@.len() && empties@[k] == ((r as usize, c as usize)));
                    }
                }
            }
            return ;
        }
        let k = random_below(empties.len());
        let rc = empties[k];
        let v: u32 = if random_below(10) == 0 {
            4
        } else {
            2
        };
        let id = self.next_id;
        let ghost g0 = self.grid@;
        self.grid.set_cell(rc.0, rc.1, Some(Tile { val: v, id }));
        self.next_id = id + 1;
        proof {
            assert(is_pow2(1int));
            assert(is_pow2(2int));
            assert(is_pow2(4int));
            let i = at(rc.0 as int, rc.1 as int);
            assert(0 <= i < 16 && g0[i] is None && (v == 2 || v == 4) && self.grid@ == g0.update(
                i,
                Option::Some(Tile { val: v, id: old(self).next_id }),
            ));
            assert(self.wf()) by {
                assert forall|j: int| 0 <= j < 16 && self.grid@[j] is Some implies is_tile_val(
                    self.grid@[j]->0.val,
                ) && self.grid@[j]->0.id < self.next_id as int by {}
                assert forall|p: int, q: int|
                    0 <= p < 16 && 0 <= q < 16 && p != q && self.grid@[p] is Some && self.grid@[q]
                    is Some implies self.grid@[p]->0.id != self.grid@[q]->0.id by {
                    if p != i && q != i {
                        assert(g0[p] is Some && g0[q] is Some);
                    }
                }
            }
        }
    }

    /// One turn of the game loop: a finished game ignores the command;
    /// otherwise apply the move, and only when it changed something spawn
    /// one tile and, if the board is then completely full, finish the
    /// game for good.
    pub fn step(&mut self, d: Direction) -> (moved: bool)
        requires
            old(self).wf(),
            old(self).next_id < usize::MAX,
            old(self).score + 2 * grid_total(old(self).grid@) <= u32::MAX as int,
        ensures
            final(self).wf(),
            old(self).score <= final(self).score,
            old(self).game_over ==> final(self).game_over,
            old(self).game_over ==> !moved && final(self).grid@ == old(self).grid@ && final(self).score == old(self).score && final(self).next_id == old(self).next_id,
            !old(self).game_over ==> moved == move_moved_spec(old(self).grid@, d) && final(self).score == old(self).score + move_delta_spec(old(self).grid@, d),
            !moved ==> final(self).grid@ == old(self).grid@ && final(self).score == old(self).score
                && final(self).game_over == old(self).game_over && final(self).next_id == old(self).next_id,
            !old(self).game_over && moved ==> ({
                let mg = move_grid_spec(old(self).grid@, d);
                &&& (grid_full(mg) ==> final(self).grid@ == mg && final(self).next_id == old(self).next_id)
                &&& (!grid_full(mg) ==> final(self).next_id == old(self).next_id + 1 && exists|
                    i: int,
                    v: u32,
                |
                    #![auto]
                    0 <= i < 16 && mg[i] is None && (v == 2 || v == 4) && final(self).grid@
                        == mg.update(i, Option::Some(Tile { val: v, id: old(self).next_id })))
                &&& final(self).game_over == grid_full(final(self).grid@)
            }),
    {
        if self.game_over {
            return false;
        }
        let moved = apply_move(&mut self.grid, &mut self.score, d);
        if moved {
            self.spawn_tile();
            if self.grid.is_full() {
                self.game_over = true;
            }
        }
        moved
    }
}

} // verus!
