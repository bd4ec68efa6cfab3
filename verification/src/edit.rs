//! The edit interface: painting a square of cells, clipped to the grid.

use crate::grid::{Cell, Simulation};
use vstd::prelude::*;

verus! {

/// Column `x` of row `y` lies in the square around the centre that reaches
/// `extend` cells up and to the left of it and `extend - 1` cells down and to
/// the right.
pub open spec fn in_box(center_x: int, center_y: int, extend: int, x: int, y: int) -> bool {
    &&& center_x - extend <= x < center_x + extend
    &&& center_y - extend <= y < center_y + extend
}

/// `v` brought into the range from 0 to `limit`.
pub open spec fn clipped(v: int, limit: int) -> int {
    if v < 0 {
        0
    } else if v > limit {
        limit
    } else {
        v
    }
}

/// Brings a coordinate into the range from 0 to `limit`.
fn clip(v: i64, limit: usize) -> (r: usize)
    ensures
        r == clipped(v as int, limit as int),
{
    if v <= 0 {
        0
    } else if v as u64 >= limit as u64 {
        limit
    } else {
        v as usize
    }
}

impl Simulation {
    /// The cells after painting: those in the square hold `cell`, the others
    /// what they held.
    pub open spec fn painted(
        &self,
        center_x: int,
        center_y: int,
        extend: int,
        cell: Cell,
    ) -> Seq<Cell> {
        Seq::new(
            self.grid@.len(),
            |i: int|
                if in_box(center_x, center_y, extend, self.col_of(i), self.row_of(i)) {
                    cell
                } else {
                    self.grid@[i]
                },
        )
    }

    /// The cells while the square is being painted row by row: the rows of
    /// the square above `y` are done, and of row `y` the columns left of `x`.
    pub open spec fn painted_upto(
        &self,
        center_x: int,
        center_y: int,
        extend: int,
        cell: Cell,
        x: int,
        y: int,
    ) -> Seq<Cell> {
        Seq::new(
            self.grid@.len(),
            |i: int|
                if in_box(center_x, center_y, extend, self.col_of(i), self.row_of(i)) && (
                self.row_of(i) < y || (self.row_of(i) == y && self.col_of(i) < x)) {
                    cell
                } else {
                    self.grid@[i]
                },
        )
    }

    /// Sets every cell of the square around (`center_x`, `center_y`) to
    /// `cell`. The part of the square that lies off the grid is skipped; a
    /// square with `extend` at or below zero holds no cell.
    pub fn set_box(&mut self, center_x: i32, center_y: i32, extend: i32, cell: Cell)
        requires
            old(self).wf(),
        ensures
            final(self).wf(),
            final(self).width == old(self).width,
            final(self).height == old(self).height,
            final(self).grid@ == old(self).painted(
                center_x as int,
                center_y as int,
                extend as int,
                cell,
            ),
    {
        let x_lo: usize = clip(center_x as i64 - extend as i64, self.width);
        let x_hi: usize = clip(center_x as i64 + extend as i64, self.width);
        let y_lo: usize = clip(center_y as i64 - extend as i64, self.height);
        let y_hi: usize = clip(center_y as i64 + extend as i64, self.height);
        let ghost cx = center_x as int;
        let ghost cy = center_y as int;
        let ghost ext = extend as int;
        let ghost start = *old(self);
        assert(self.grid@ =~= start.painted_upto(cx, cy, ext, cell, 0, y_lo as int)) by {
            assert forall|i: int| 0 <= i < start.area() implies !(in_box(
                cx,
                cy,
                ext,
                start.col_of(i),
                start.row_of(i),
            ) && start.row_of(i) < y_lo) by {
                start.lemma_index_split(i);
            }
        }
        let mut y: usize = y_lo;
        while y < y_hi
            invariant
                start.wf(),
                self.width == start.width,
                self.height == start.height,
                x_lo == clipped(cx - ext, start.width as int),
                x_hi == clipped(cx + ext, start.width as int),
                y_lo == clipped(cy - ext, start.height as int),
                y_hi == clipped(cy + ext, start.height as int),
                y_lo <= y,
                y <= y_hi || y_hi < y_lo,
                self.grid@ == start.painted_upto(cx, cy, ext, cell, 0, y as int),
            decreases y_hi - y,
        {
            let mut x: usize = x_lo;
            assert(self.grid@ =~= start.painted_upto(cx, cy, ext, cell, x_lo as int, y as int)) by {
                assert forall|i: int| 0 <= i < start.area() implies !(in_box(
                    cx,
                    cy,
                    ext,
                    start.col_of(i),
                    start.row_of(i),
                ) && start.col_of(i) < x_lo) by {
                    start.lemma_index_split(i);
                }
            }
            while x < x_hi
                invariant
                    start.wf(),
                    self.width == start.width,
                    self.height == start.height,
                    x_lo == clipped(cx - ext, start.width as int),
                    x_hi == clipped(cx + ext, start.width as int),
                    y_lo <= y < y_hi,
                    y_lo == clipped(cy - ext, start.height as int),
                    y_hi == clipped(cy + ext, start.height as int),
                    x_lo <= x,
                    x <= x_hi || x_hi < x_lo,
                    self.grid@ == start.painted_upto(cx, cy, ext, cell, x as int, y as int),
                decreases x_hi - x,
            {
                proof {
                    start.lemma_cell_index(x as int, y as int);
                    start.lemma_col_row(x as int, y as int);
                }
                let index: usize = x + y * self.width;
                self.grid[index] = cell;
                x += 1;
                assert(self.grid@ =~= start.painted_upto(cx, cy, ext, cell, x as int, y as int)) by {
                    assert forall|i: int| 0 <= i < start.area() implies (i == index
                        <==> start.col_of(i) == x - 1 && start.row_of(i) == y) by {
                        start.lemma_index_split(i);
                    }
                }
            }
            y += 1;
            assert(self.grid@ =~= start.painted_upto(cx, cy, ext, cell, 0, y as int)) by {
                assert forall|i: int| 0 <= i < start.area() implies !(in_box(
                    cx,
                    cy,
                    ext,
                    start.col_of(i),
                    start.row_of(i),
                ) && start.row_of(i) == y - 1 && start.col_of(i) >= x) by {
                    start.lemma_index_split(i);
                }
            }
        }
        assert(self.grid@ =~= start.painted(cx, cy, ext, cell)) by {
            assert forall|i: int| 0 <= i < start.area() implies !(in_box(
                cx,
                cy,
                ext,
                start.col_of(i),
                start.row_of(i),
            ) && start.row_of(i) >= y) by {
                start.lemma_index_split(i);
            }
        }
    }
}

} // verus!
