//! The move planner: for a frozen grid, at most one candidate move per grain.

use crate::grid::{Cell, CellMove, Simulation};
use crate::random::coin_flip;
use vstd::arithmetic::div_mod::{lemma_fundamental_div_mod, lemma_fundamental_div_mod_converse};
use vstd::prelude::*;

verus! {

impl Simulation {
    /// Column `x` of row `y` is on the grid and holds nothing.
    pub open spec fn is_free(&self, x: int, y: int) -> bool {
        self.in_bounds(x, y) && self.grid@[self.index_of(x, y)] == Cell::Empty
    }

    /// A grain sits at column `x` of row `y`, above the floor, with the cell
    /// below it taken and both diagonal cells below it free: the one case in
    /// which a coin decides.
    pub open spec fn is_torn(&self, x: int, y: int) -> bool {
        &&& self.in_bounds(x, y)
        &&& self.grid@[self.index_of(x, y)] == Cell::Sand
        &&& y + 1 < self.height
        &&& !self.is_free(x, y + 1)
        &&& self.is_free(x - 1, y + 1)
        &&& self.is_free(x + 1, y + 1)
    }

    /// The index of the cell that the grain at column `x` of row `y` asks for,
    /// if it asks for one: straight down where that is free, else the free
    /// diagonal, and with both diagonals free the left one on `coin`, the right
    /// one otherwise. Anything but a grain, and a grain on the floor, asks for
    /// nothing.
    pub open spec fn target(&self, x: int, y: int, coin: bool) -> Option<int> {
        if !self.in_bounds(x, y) || self.grid@[self.index_of(x, y)] != Cell::Sand || y
            == self.height - 1 {
            None
        } else if self.is_free(x, y + 1) {
            Some(self.index_of(x, y + 1))
        } else if self.is_free(x - 1, y + 1) && self.is_free(x + 1, y + 1) {
            if coin {
                Some(self.index_of(x - 1, y + 1))
            } else {
                Some(self.index_of(x + 1, y + 1))
            }
        } else if self.is_free(x - 1, y + 1) {
            Some(self.index_of(x - 1, y + 1))
        } else if self.is_free(x + 1, y + 1) {
            Some(self.index_of(x + 1, y + 1))
        } else {
            None
        }
    }

    /// The candidate move of the cell at column `x` of row `y` under `coin`.
    pub open spec fn candidate(&self, x: int, y: int, coin: bool) -> Option<CellMove> {
        match self.target(x, y, coin) {
            Some(d) => Some(
                CellMove { destination: d as usize, source: self.index_of(x, y) as usize },
            ),
            None => None,
        }
    }

    /// The column of the cell with index `i`.
    pub open spec fn col_of(&self, i: int) -> int {
        i % (self.width as int)
    }

    /// The row of the cell with index `i`.
    pub open spec fn row_of(&self, i: int) -> int {
        i / (self.width as int)
    }

    /// `m` is what its source cell asks for under one of the two coins.
    pub open spec fn is_candidate(&self, m: CellMove) -> bool {
        let x = self.col_of(m.source as int);
        let y = self.row_of(m.source as int);
        self.candidate(x, y, true) == Some(m) || self.candidate(x, y, false) == Some(m)
    }

    /// The cell with index `i` asks for a move, whatever the coin.
    pub open spec fn has_candidate(&self, i: int) -> bool {
        self.target(self.col_of(i), self.row_of(i), true).is_some()
    }

    /// `moves` is a plan of row `y`: one candidate for every cell of the row
    /// that asks for one and nothing else, in scan order, which runs left to
    /// right in even rows and right to left in odd ones.
    pub open spec fn is_row_plan(&self, y: int, moves: Seq<CellMove>) -> bool {
        &&& forall|k: int|
            0 <= k < moves.len() ==> self.is_candidate(#[trigger] moves[k]) && self.row_of(
                moves[k].source as int,
            ) == y
        &&& forall|k: int, l: int|
            0 <= k < l < moves.len() ==> if y % 2 == 0 {
                (#[trigger] moves[k]).source < (#[trigger] moves[l]).source
            } else {
                moves[k].source > moves[l].source
            }
        &&& forall|i: int|
            0 <= i < self.area() && self.row_of(i) == y && #[trigger] self.has_candidate(i)
                ==> exists|k: int| 0 <= k < moves.len() && (#[trigger] moves[k]).source == i
    }

    /// `moves` is a plan of the whole grid: one candidate for every cell that
    /// asks for one and nothing else, in any order.
    pub open spec fn is_plan(&self, moves: Seq<CellMove>) -> bool {
        &&& forall|k: int| 0 <= k < moves.len() ==> self.is_candidate(#[trigger] moves[k])
        &&& forall|k: int, l: int|
            0 <= k < l < moves.len() ==> (#[trigger] moves[k]).source != (
            #[trigger] moves[l]).source
        &&& forall|i: int|
            0 <= i < self.area() && #[trigger] self.has_candidate(i) ==> exists|k: int|
                0 <= k < moves.len() && (#[trigger] moves[k]).source == i
    }

    /// Column and row recover a cell from its index and back.
    pub proof fn lemma_col_row(&self, x: int, y: int)
        requires
            self.wf(),
            self.in_bounds(x, y),
        ensures
            self.col_of(self.index_of(x, y)) == x,
            self.row_of(self.index_of(x, y)) == y,
    {
        assert(self.index_of(x, y) == y * self.width + x);
        lemma_fundamental_div_mod_converse(self.index_of(x, y), self.width as int, y, x);
    }

    /// Every index below the cell count is the index of its column and row,
    /// which are in bounds.
    pub proof fn lemma_index_split(&self, i: int)
        requires
            self.wf(),
            0 <= i < self.area(),
        ensures
            self.in_bounds(self.col_of(i), self.row_of(i)),
            self.index_of(self.col_of(i), self.row_of(i)) == i,
    {
        let w = self.width as int;
        let h = self.height as int;
        lemma_fundamental_div_mod(i, w);
        assert(w * (i / w) == (i / w) * w) by (nonlinear_arith);
        assert(0 <= i / w) by (nonlinear_arith)
            requires
                0 <= i,
                0 < w,
        ;
        assert(i / w < h) by (nonlinear_arith)
            requires
                0 <= i < w * h,
                0 < w,
        ;
    }

    /// The three cells under a cell above the floor: their indices lie next to
    /// each other, one row's width further on, and those in range are cells.
    pub proof fn lemma_below(&self, x: int, y: int)
        requires
            self.wf(),
            self.in_bounds(x, y),
            y + 1 < self.height,
        ensures
            self.index_of(x, y + 1) == self.index_of(x, y) + self.width,
            self.index_of(x - 1, y + 1) == self.index_of(x, y) + self.width - 1,
            self.index_of(x + 1, y + 1) == self.index_of(x, y) + self.width + 1,
            0 < self.index_of(x, y) + self.width < self.area() <= usize::MAX,
            x + 1 < self.width ==> self.index_of(x, y) + self.width + 1 < self.area(),
    {
        self.lemma_cell_index(x, y);
        self.lemma_cell_index(x, y + 1);
        if x + 1 < self.width {
            self.lemma_cell_index(x + 1, y + 1);
        }
    }

    /// A candidate starts at a grain, ends at a free cell of the row below,
    /// and both ends are cells of the grid.
    pub proof fn lemma_candidate_ends(&self, m: CellMove)
        requires
            self.wf(),
            self.is_candidate(m),
        ensures
            m.source < self.area(),
            m.destination < self.area(),
            self.grid@[m.source as int] == Cell::Sand,
            self.grid@[m.destination as int] == Cell::Empty,
            self.row_of(m.destination as int) == self.row_of(m.source as int) + 1,
            m.source + self.width - 1 <= m.destination <= m.source + self.width + 1,
    {
        let x = self.col_of(m.source as int);
        let y = self.row_of(m.source as int);
        let coin = self.candidate(x, y, true) == Some(m);
        assert(self.candidate(x, y, coin) == Some(m));
        let d = self.target(x, y, coin).unwrap();
        self.lemma_cell_index(x, y);
        if d == self.index_of(x, y + 1) {
            self.lemma_cell_index(x, y + 1);
            self.lemma_col_row(x, y + 1);
        } else if d == self.index_of(x - 1, y + 1) {
            self.lemma_cell_index(x - 1, y + 1);
            self.lemma_col_row(x - 1, y + 1);
        } else {
            self.lemma_cell_index(x + 1, y + 1);
            self.lemma_col_row(x + 1, y + 1);
        }
    }

    /// The candidate move of the cell at column `x` of row `y`, with `coin`
    /// deciding between two free diagonals.
    pub fn plan_cell(&self, x: usize, y: usize, coin: bool) -> (planned: Option<CellMove>)
        requires
            self.wf(),
        ensures
            planned == self.candidate(x as int, y as int, coin),
    {
        if x >= self.width || y >= self.height {
            return None;
        }
        proof {
            self.lemma_cell_index(x as int, y as int);
        }
        let index: usize = x + y * self.width;
        if self.grid[index] != Cell::Sand || y == self.height - 1 {
            return None;
        }
        proof {
            self.lemma_below(x as int, y as int);
        }
        let below: usize = index + self.width;
        let can_go_below_left = x > 0 && self.is_empty(below - 1);
        let can_go_below_right = x + 1 < self.width && self.is_empty(below + 1);
        if self.is_empty(below) {
            Some(CellMove { destination: below, source: index })
        } else if can_go_below_left && can_go_below_right {
            let destination: usize = if coin {
                below - 1
            } else {
                below + 1
            };
            Some(CellMove { destination, source: index })
        } else if can_go_below_left {
            Some(CellMove { destination: below - 1, source: index })
        } else if can_go_below_right {
            Some(CellMove { destination: below + 1, source: index })
        } else {
            None
        }
    }

    /// Whether a coin decides where the grain at column `x` of row `y` goes.
    pub fn needs_coin(&self, x: usize, y: usize) -> (torn: bool)
        requires
            self.wf(),
        ensures
            torn == self.is_torn(x as int, y as int),
    {
        if x >= self.width || y >= self.height {
            return false;
        }
        proof {
            self.lemma_cell_index(x as int, y as int);
        }
        let index: usize = x + y * self.width;
        if self.grid[index] != Cell::Sand || y == self.height - 1 {
            return false;
        }
        proof {
            self.lemma_below(x as int, y as int);
        }
        let below: usize = index + self.width;
        !self.is_empty(below) && x > 0 && self.is_empty(below - 1) && x + 1 < self.width
            && self.is_empty(below + 1)
    }

    /// The candidate move of the cell at column `x` of row `y`; where two
    /// diagonals are free, a coin is tossed for it.
    pub fn update_pixel(&self, x: usize, y: usize) -> (planned: Option<CellMove>)
        requires
            self.wf(),
        ensures
            planned == self.candidate(x as int, y as int, true) || planned == self.candidate(
                x as int,
                y as int,
                false,
            ),
            !self.is_torn(x as int, y as int) ==> planned == self.candidate(
                x as int,
                y as int,
                true,
            ),
    {
        let coin = self.needs_coin(x, y) && coin_flip();
        self.plan_cell(x, y, coin)
    }

    /// The part of a row plan that the scan has reached: `moves` holds a
    /// candidate for each asking cell of row `y` in the columns from `lo` up to
    /// but not including `hi`, and for no other cell.
    pub open spec fn covers_columns(&self, y: int, lo: int, hi: int, moves: Seq<CellMove>) -> bool {
        &&& forall|k: int|
            0 <= k < moves.len() ==> {
                &&& self.is_candidate(#[trigger] moves[k])
                &&& self.row_of(moves[k].source as int) == y
                &&& lo <= self.col_of(moves[k].source as int) < hi
            }
        &&& forall|i: int|
            0 <= i < self.area() && self.row_of(i) == y && lo <= self.col_of(i) < hi
                && #[trigger] self.has_candidate(i) ==> exists|k: int|
                0 <= k < moves.len() && (#[trigger] moves[k]).source == i
    }

    /// Scanning one more column, `x`, extends a partial row plan by the move
    /// planned there, if there is one.
    proof fn lemma_scan_step(
        &self,
        y: int,
        lo: int,
        hi: int,
        x: int,
        before: Seq<CellMove>,
        planned: Option<CellMove>,
    )
        requires
            self.wf(),
            self.in_bounds(x, y),
            self.covers_columns(y, lo, hi, before),
            lo <= hi,
            x == hi || x == lo - 1,
            planned == self.candidate(x, y, true) || planned == self.candidate(x, y, false),
        ensures
            self.covers_columns(
                y,
                if x == hi {
                    lo
                } else {
                    x
                },
                if x == hi {
                    hi + 1
                } else {
                    hi
                },
                match planned {
                    Some(m) => before.push(m),
                    None => before,
                },
            ),
            planned matches Some(m) ==> m.source == self.index_of(x, y),
    {
        let after = match planned {
            Some(m) => before.push(m),
            None => before,
        };
        let lo2 = if x == hi {
            lo
        } else {
            x
        };
        let hi2 = if x == hi {
            hi + 1
        } else {
            hi
        };
        self.lemma_col_row(x, y);
        self.lemma_cell_index(x, y);
        assert forall|k: int| 0 <= k < after.len() implies {
            &&& self.is_candidate(#[trigger] after[k])
            &&& self.row_of(after[k].source as int) == y
            &&& lo2 <= self.col_of(after[k].source as int) < hi2
        } by {
            if k < before.len() {
                assert(after[k] == before[k]);
            } else {
                let m = planned.unwrap();
                assert(after[k] == m);
                assert(m.source as int == self.index_of(x, y));
            }
        }
        assert forall|i: int|
            0 <= i < self.area() && self.row_of(i) == y && lo2 <= self.col_of(i) < hi2
                && #[trigger] self.has_candidate(i) implies exists|k: int|
            0 <= k < after.len() && (#[trigger] after[k]).source == i by {
            if self.col_of(i) == x {
                self.lemma_index_split(i);
                assert(planned.is_some());
                assert(after[before.len() as int].source == i);
            } else {
                let k = choose|k: int| 0 <= k < before.len() && (#[trigger] before[k]).source == i;
                assert(after[k] == before[k]);
            }
        }
    }

    /// The candidate moves of row `y`, scanned left to right where `y` is even
    /// and right to left where it is odd.
    pub fn plan_row(&self, y: usize) -> (moves: Vec<CellMove>)
        requires
            self.wf(),
            y < self.height,
        ensures
            self.is_row_plan(y as int, moves@),
    {
        let mut moves: Vec<CellMove> = Vec::new();
        let left_to_right = y % 2 == 0;
        if left_to_right {
            let mut x: usize = 0;
            while x < self.width
                invariant
                    self.wf(),
                    y < self.height,
                    y % 2 == 0,
                    x <= self.width,
                    self.covers_columns(y as int, 0, x as int, moves@),
                    forall|k: int, l: int|
                        0 <= k < l < moves@.len() ==> (#[trigger] moves@[k]).source < (
                        #[trigger] moves@[l]).source,
                decreases self.width - x,
            {
                let planned = self.update_pixel(x, y);
                proof {
                    self.lemma_scan_step(y as int, 0, x as int, x as int, moves@, planned);
                    assert forall|k: int| 0 <= k < moves@.len() implies (
                    #[trigger] moves@[k]).source < self.index_of(x as int, y as int) by {
                        self.lemma_candidate_ends(moves@[k]);
                        self.lemma_index_split(moves@[k].source as int);
                    }
                }
                if let Some(cell_move) = planned {
                    moves.push(cell_move);
                }
                x += 1;
            }
        } else {
            let mut x: usize = self.width;
            while x > 0
                invariant
                    self.wf(),
                    y < self.height,
                    y % 2 == 1,
                    x <= self.width,
                    self.covers_columns(y as int, x as int, self.width as int, moves@),
                    forall|k: int, l: int|
                        0 <= k < l < moves@.len() ==> (#[trigger] moves@[k]).source > (
                        #[trigger] moves@[l]).source,
                decreases x,
            {
                x -= 1;
                let planned = self.update_pixel(x, y);
                proof {
                    self.lemma_scan_step(
                        y as int,
                        x + 1,
                        self.width as int,
                        x as int,
                        moves@,
                        planned,
                    );
                    assert forall|k: int| 0 <= k < moves@.len() implies (
                    #[trigger] moves@[k]).source > self.index_of(x as int, y as int) by {
                        self.lemma_candidate_ends(moves@[k]);
                        self.lemma_index_split(moves@[k].source as int);
                    }
                }
                if let Some(cell_move) = planned {
                    moves.push(cell_move);
                }
            }
        }
        proof {
            assert forall|i: int|
                0 <= i < self.area() && self.row_of(i) == y && #[trigger] self.has_candidate(
                    i,
                ) implies exists|k: int|
                0 <= k < moves@.len() && (#[trigger] moves@[k]).source == i by {
                self.lemma_index_split(i);
            }
        }
        moves
    }
}

} // verus!
