//! The 4x4 board: a fixed store of optional tiles, addressed by row and
//! column, together with the spec-level sums that the engine's contracts
//! are stated over.
use vstd::prelude::*;
use crate::tile::{Tile, is_tile_val};

verus! {

/// Flat index of cell (r, c) on the 4x4 board.
pub open spec fn at(r: int, c: int) -> int {
    r * 4 + c
}

/// (r, c) lies on the board.
pub open spec fn in_bounds(r: int, c: int) -> bool {
    0 <= r < 4 && 0 <= c < 4
}

/// Value a cell contributes to the board total; an empty cell contributes 0.
pub open spec fn cell_val(cl: Option<Tile>) -> int {
    match cl {
        Option::Some(t) => t.val as int,
        Option::None => 0,
    }
}

/// Sum of tile values over the first `n` cells.
pub open spec fn total_prefix(g: Seq<Option<Tile>>, n: int) -> int
    decreases n,
{
    if n <= 0 {
        0
    } else {
        total_prefix(g, n - 1) + cell_val(g[n - 1])
    }
}

/// Sum of all tile values on the board.
pub open spec fn grid_total(g: Seq<Option<Tile>>) -> int {
    total_prefix(g, 16)
}

/// Sum of tile values over the first `n` cells whose mask bit is set.
pub open spec fn masked_prefix(g: Seq<Option<Tile>>, m: Seq<bool>, n: int) -> int
    decreases n,
{
    if n <= 0 {
        0
    } else {
        masked_prefix(g, m, n - 1) + if m[n - 1] {
            cell_val(g[n - 1])
        } else {
            0
        }
    }
}

/// Sum of tile values over all cells whose mask bit is set.
pub open spec fn masked_total(g: Seq<Option<Tile>>, m: Seq<bool>) -> int {
    masked_prefix(g, m, 16)
}

/// Every tile on the board holds a legal value.
pub open spec fn vals_ok(g: Seq<Option<Tile>>) -> bool {
    forall|i: int| 0 <= i < 16 && g[i] is Some ==> is_tile_val(g[i]->0.val)
}

/// Every tile identifier on the board is below `b`.
pub open spec fn ids_below(g: Seq<Option<Tile>>, b: int) -> bool {
    forall|i: int| 0 <= i < 16 && g[i] is Some ==> g[i]->0.id < b
}

/// No two tiles on the board share an identifier.
pub open spec fn distinct_ids(g: Seq<Option<Tile>>) -> bool {
    forall|i: int, j: int|
        0 <= i < 16 && 0 <= j < 16 && i != j && g[i] is Some && g[j] is Some ==> g[i]->0.id
            != g[j]->0.id
}

/// A well-formed board: 16 cells, all values legal.
pub open spec fn grid_wf(g: Seq<Option<Tile>>) -> bool {
    g.len() == 16 && vals_ok(g)
}

/// The board has no empty cell.
pub open spec fn grid_full(g: Seq<Option<Tile>>) -> bool {
    forall|i: int| 0 <= i < 16 ==> g[i] is Some
}

/// The board with every cell empty.
pub open spec fn empty_grid() -> Seq<Option<Tile>> {
    Seq::new(16, |i: int| Option::<Tile>::None)
}

pub proof fn lemma_total_prefix_nonneg(g: Seq<Option<Tile>>, n: int)
    ensures
        total_prefix(g, n) >= 0,
    decreases n,
{
    if n > 0 {
        lemma_total_prefix_nonneg(g, n - 1);
    }
}

/// Changing cell `j` shifts a prefix sum by the change in that one cell,
/// when the prefix covers it.
pub proof fn lemma_total_update(g: Seq<Option<Tile>>, j: int, x: Option<Tile>, n: int)
    requires
        0 <= j < g.len(),
        n <= g.len(),
    ensures
        total_prefix(g.update(j, x), n) == total_prefix(g, n) + if j < n {
            cell_val(x) - cell_val(g[j])
        } else {
            0
        },
    decreases n,
{
    if n > 0 {
        lemma_total_update(g, j, x, n - 1);
    }
}

/// A single cell's value is at most any prefix sum that covers it.
pub proof fn lemma_total_cell_bound(g: Seq<Option<Tile>>, n: int, j: int)
    requires
        0 <= j < n,
    ensures
        cell_val(g[j]) <= total_prefix(g, n),
    decreases n,
{
    lemma_total_prefix_nonneg(g, n - 1);
    if j < n - 1 {
        lemma_total_cell_bound(g, n - 1, j);
    }
}

/// The masked sum never exceeds the full sum.
pub proof fn lemma_masked_le_total(g: Seq<Option<Tile>>, m: Seq<bool>, n: int)
    ensures
        0 <= masked_prefix(g, m, n) <= total_prefix(g, n),
    decreases n,
{
    if n > 0 {
        lemma_masked_le_total(g, m, n - 1);
    }
}

/// Changing cell `j` of the board and bit `j` of the mask together shifts
/// the masked sum by the change in that one cell's masked contribution.
pub proof fn lemma_masked_update(
    g: Seq<Option<Tile>>,
    m: Seq<bool>,
    j: int,
    x: Option<Tile>,
    b: bool,
    n: int,
)
    requires
        0 <= j < g.len(),
        0 <= j < m.len(),
        n <= g.len(),
        n <= m.len(),
    ensures
        masked_prefix(g.update(j, x), m.update(j, b), n) == masked_prefix(g, m, n) + if j < n {
            (if b {
                cell_val(x)
            } else {
                0
            }) - (if m[j] {
                cell_val(g[j])
            } else {
                0
            })
        } else {
            0
        },
    decreases n,
{
    if n > 0 {
        lemma_masked_update(g, m, j, x, b, n - 1);
    }
}

/// Changing cell `j` of the board alone shifts the masked sum by the change
/// in that cell, when its mask bit is set.
pub proof fn lemma_masked_update_grid(
    g: Seq<Option<Tile>>,
    m: Seq<bool>,
    j: int,
    x: Option<Tile>,
    n: int,
)
    requires
        0 <= j < g.len(),
        n <= g.len(),
    ensures
        masked_prefix(g.update(j, x), m, n) == masked_prefix(g, m, n) + if j < n && m[j] {
            cell_val(x) - cell_val(g[j])
        } else {
            0
        },
    decreases n,
{
    if n > 0 {
        lemma_masked_update_grid(g, m, j, x, n - 1);
    }
}

/// The 4x4 board.  A cell is either empty or holds exactly one tile;
/// callers keep the well-formedness `wf` across mutations.
pub struct Grid {
    pub cells: Vec<Option<Tile>>,
}

impl View for Grid {
    type V = Seq<Option<Tile>>;

    open spec fn view(&self) -> Seq<Option<Tile>> {
        self.cells@
    }
}

impl Grid {
    pub open spec fn wf(&self) -> bool {
        grid_wf(self@)
    }

    /// A board with every cell empty.
    pub fn new() -> (g: Grid)
        ensures
            g@ == empty_grid(),
            g.wf(),
    {
        let mut cells: Vec<Option<Tile>> = Vec::new();
        let mut i: usize = 0;
        while i < 16
            invariant
                i <= 16,
                cells@.len() == i as int,
                forall|j: int| 0 <= j < i as int ==> cells@[j] is None,
            decreases 16 - i,
        {
            cells.push(Option::None);
            i += 1;
        }
        let g = Grid { cells };
        proof {
            assert(g@ =~= empty_grid());
        }
        g
    }

    /// The tile at (r, c), if any.
    pub fn get(&self, r: usize, c: usize) -> (cl: Option<Tile>)
        requires
            self@.len() == 16,
            r < 4,
            c < 4,
        ensures
            cl == self@[at(r as int, c as int)],
    {
        self.cells[r * 4 + c]
    }

    /// Put `cl` into cell (r, c), replacing what was there.
    pub fn set_cell(&mut self, r: usize, c: usize, cl: Option<Tile>)
        requires
            old(self).wf(),
            r < 4,
            c < 4,
        ensures
            final(self)@ == old(self)@.update(at(r as int, c as int), cl),
            (cl is Some ==> is_tile_val(cl->0.val)) ==> final(self).wf(),
    {
        let i: usize = r * 4 + c;
        self.cells[i] = cl;
    }

    /// An identical copy of the board.
    pub fn snapshot(&self) -> (g: Grid)
        ensures
            g@ == self@,
    {
        let mut cells: Vec<Option<Tile>> = Vec::new();
        let mut i: usize = 0;
        while i < self.cells.len()
            invariant
                i <= self.cells.len(),
                cells@.len() == i as int,
                forall|j: int| 0 <= j < i as int ==> cells@[j] == self@[j],
            decreases self.cells.len() - i,
        {
            cells.push(self.cells[i]);
            i += 1;
        }
        let g = Grid { cells };
        proof {
            assert(g@ =~= self@);
        }
        g
    }

    /// Whether every cell holds a tile.
    pub fn is_full(&self) -> (b: bool)
        requires
            self.wf(),
        ensures
            b == grid_full(self@),
    {
        let mut i: usize = 0;
        let mut full = true;
        while i < 16
            invariant
                self.wf(),
                i <= 16,
                full == (forall|j: int| 0 <= j < i as int ==> self@[j] is Some),
            decreases 16 - i,
        {
            if self.cells[i].is_none() {
                full = false;
            }
            i += 1;
        }
        full
    }

    /// All empty cells, as (row, column) pairs in row-major order.
    pub fn empty_cells(&self) -> (res: Vec<(usize, usize)>)
        requires
            self.wf(),
        ensures
            forall|k: int|
                0 <= k < res@.len() ==> res@[k].0 < 4 && res@[k].1 < 4 && self@[at(
                    res@[k].0 as int,
                    res@[k].1 as int,
                )] is None,
            forall|r: int, c: int|
                in_bounds(r, c) && self@[at(r, c)] is None ==> exists|k: int|
                    0 <= k < res@.len() && res@[k] == ((r as usize, c as usize)),
            forall|k1: int, k2: int|
                0 <= k1 < k2 < res@.len() ==> at(res@[k1].0 as int, res@[k1].1 as int) < at(
                    res@[k2].0 as int,
                    res@[k2].1 as int,
                ),
    {
        let mut res: Vec<(usize, usize)> = Vec::new();
        let mut i: usize = 0;
        while i < 16
            invariant
                self.wf(),
                i <= 16,
                forall|k: int|
                    0 <= k < res@.len() ==> res@[k].0 < 4 && res@[k].1 < 4 && self@[at(
                        res@[k].0 as int,
                        res@[k].1 as int,
                    )] is None,
                forall|k: int|
                    0 <= k < res@.len() ==> at(res@[k].0 as int, res@[k].1 as int) < i as int,
                forall|k1: int, k2: int|
                    0 <= k1 < k2 < res@.len() ==> at(res@[k1].0 as int, res@[k1].1 as int) < at(
                        res@[k2].0 as int,
                        res@[k2].1 as int,
                    ),
                forall|j: int|
                    0 <= j < i as int && self@[j] is None ==> exists|k: int|
                        0 <= k < res@.len() && res@[k] == (((j / 4) as usize, (j % 4) as usize)),
            decreases 16 - i,
        {
            if self.cells[i].is_none() {
                let r: usize = i / 4;
                let c: usize = i % 4;
                let ghost prev = res@;
                res.push((r, c));
                proof {
                    assert(at(r as int, c as int) == i as int);
                    assert(res@[prev.len() as int] == ((r, c)));
                    assert(forall|j: int|
                        0 <= j < i as int && self@[j] is None ==> exists|k: int|
                            0 <= k < res@.len() && res@[k] == (((j / 4) as usize, (
                            j % 4) as usize))) by {
                        assert(forall|k: int| 0 <= k < prev.len() ==> res@[k] == prev[k]);
                    }
                }
            }
            i += 1;
        }
        proof {
            assert(forall|r: int, c: int|
                in_bounds(r, c) && self@[at(r, c)] is None ==> exists|k: int|
                    0 <= k < res@.len() && res@[k] == ((r as usize, c as usize))) by {
                assert forall|r: int, c: int|
                    in_bounds(r, c) && self@[at(r, c)] is None implies exists|k: int|
                    0 <= k < res@.len() && res@[k] == ((r as usize, c as usize)) by {
                    let j = at(r, c);
                    assert(0 <= j < 16);
                    assert(j / 4 == r && j % 4 == c) by (nonlinear_arith)
                        requires
                            j == r * 4 + c,
                            0 <= r < 4,
                            0 <= c < 4,
                    ;
                }
            }
        }
        res
    }

    /// The sum of all tile values on the board.
    pub fn total_value(&self) -> (t: u64)
        requires
            self@.len() == 16,
        ensures
            t as int == grid_total(self@),
    {
        let mut t: u64 = 0;
        let mut i: usize = 0;
        while i < 16
            invariant
                self@.len() == 16,
                i <= 16,
                t as int == total_prefix(self@, i as int),
                t <= i as int * 0xffff_ffffu64,
            decreases 16 - i,
        {
            match self.cells[i] {
                Option::Some(tl) => {
                    t = t + tl.val as u64;
                },
                Option::None => {},
            }
            i += 1;
        }
        t
    }
}

} // verus!
