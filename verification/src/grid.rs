//! The grid store: cells, dimensions and bounds-checked access.

use vstd::prelude::*;

verus! {

/// What one grid location holds.
#[derive(Clone, Copy, PartialEq, Eq, Structural, Debug)]
pub enum Cell {
    /// Nothing: the vacancy a grain may move into.
    Empty,
    /// A grain, the only kind that moves.
    Sand,
    /// An obstacle that never moves.
    Stone,
}

/// A proposed relocation of one grain by one row; both ends are cell indices.
#[derive(Clone, Copy, PartialEq, Eq, Structural, Debug)]
pub struct CellMove {
    pub destination: usize,
    pub source: usize,
}

/// A `width` by `height` grid of cells in row-major order: the cell in column
/// `x` of row `y` is `grid[x + y * width]`, and row `height - 1` is the floor.
pub struct Simulation {
    pub width: usize,
    pub height: usize,
    pub grid: Vec<Cell>,
}

/// `x + y * width` stays below `width * height` for a column and a row in range.
pub proof fn lemma_index_in_range(width: int, height: int, x: int, y: int)
    requires
        0 <= x < width,
        0 <= y < height,
    ensures
        0 <= y * width,
        x + y * width < width * height,
        (y + 1) * width == y * width + width,
        (y + 1) * width <= width * height,
{
    assert(0 <= y * width) by (nonlinear_arith)
        requires
            0 <= y,
            0 <= width,
    ;
    assert((y + 1) * width == y * width + width) by (nonlinear_arith);
    assert((y + 1) * width <= height * width) by (nonlinear_arith)
        requires
            y + 1 <= height,
            0 <= width,
    ;
    assert(height * width == width * height) by (nonlinear_arith);
}

impl Simulation {
    /// On a well-formed grid the index of a cell in bounds is below the cell
    /// count, which fits the machine.
    pub proof fn lemma_cell_index(&self, x: int, y: int)
        requires
            self.wf(),
            self.in_bounds(x, y),
        ensures
            0 <= y * self.width <= self.index_of(x, y) < self.area() <= usize::MAX,
            self.area() == self.grid@.len(),
            self.index_of(x, y + 1) == self.index_of(x, y) + self.width,
            y + 1 < self.height ==> self.index_of(x, y) + self.width < self.area(),
    {
        lemma_index_in_range(self.width as int, self.height as int, x, y);
        assert(self.grid@.len() == self.grid.len());
        if y + 1 < self.height {
            lemma_index_in_range(self.width as int, self.height as int, x, y + 1);
        }
    }

    /// The number of cells.
    pub open spec fn area(&self) -> int {
        self.width * self.height
    }

    /// The dimensions are positive and the cell array covers them exactly.
    pub open spec fn wf(&self) -> bool {
        &&& self.width > 0
        &&& self.height > 0
        &&& self.grid@.len() == self.area()
    }

    /// Column `x` of row `y` lies on the grid.
    pub open spec fn in_bounds(&self, x: int, y: int) -> bool {
        0 <= x < self.width && 0 <= y < self.height
    }

    /// The row-major index of column `x` in row `y`.
    pub open spec fn index_of(&self, x: int, y: int) -> int {
        x + y * self.width
    }

    /// What a read of column `x`, row `y` yields: off the grid, `Empty`.
    pub open spec fn cell_at(&self, x: int, y: int) -> Cell {
        if self.in_bounds(x, y) {
            self.grid@[self.index_of(x, y)]
        } else {
            Cell::Empty
        }
    }

    /// How many grains the grid holds.
    pub open spec fn sand_count(&self) -> nat {
        self.grid@.to_multiset().count(Cell::Sand)
    }

    /// An all-`Empty` grid of the given size.
    pub fn new(width: usize, height: usize) -> (sim: Self)
        requires
            width > 0,
            height > 0,
            width * height <= usize::MAX,
        ensures
            sim.wf(),
            sim.width == width,
            sim.height == height,
            forall|i: int| 0 <= i < sim.area() ==> sim.grid@[i] == Cell::Empty,
    {
        let grid = vec![Cell::Empty; width * height];
        Simulation { width, height, grid }
    }

    /// An all-`Empty` grid of the given size, or `None` where a dimension is
    /// zero or the cell count does not fit the machine.
    pub fn try_new(width: usize, height: usize) -> (made: Option<Self>)
        ensures
            made.is_some() <==> width > 0 && height > 0 && width * height <= usize::MAX,
            made matches Some(sim) ==> {
                &&& sim.wf()
                &&& sim.width == width
                &&& sim.height == height
                &&& forall|i: int| 0 <= i < sim.area() ==> sim.grid@[i] == Cell::Empty
            },
    {
        if width == 0 || height == 0 {
            return None;
        }
        match width.checked_mul(height) {
            Some(_) => Some(Simulation::new(width, height)),
            None => None,
        }
    }

    /// The grid's width in cells.
    pub fn width(&self) -> (w: usize)
        ensures
            w == self.width,
    {
        self.width
    }

    /// The grid's height in cells.
    pub fn height(&self) -> (h: usize)
        ensures
            h == self.height,
    {
        self.height
    }

    /// Reads column `x` of row `y`; a read off the grid yields `Empty`.
    pub fn get(&self, x: usize, y: usize) -> (cell: Cell)
        requires
            self.wf(),
        ensures
            cell == self.cell_at(x as int, y as int),
    {
        if x < self.width && y < self.height {
            proof {
                self.lemma_cell_index(x as int, y as int);
            }
            self.grid[x + y * self.width]
        } else {
            Cell::Empty
        }
    }

    /// Writes `cell` to column `x` of row `y` and returns `true`; off the grid
    /// the write is rejected: nothing changes and the result is `false`.
    pub fn set(&mut self, x: usize, y: usize, cell: Cell) -> (written: bool)
        requires
            old(self).wf(),
        ensures
            final(self).wf(),
            final(self).width == old(self).width,
            final(self).height == old(self).height,
            written == old(self).in_bounds(x as int, y as int),
            written ==> final(self).grid@ == old(self).grid@.update(
                old(self).index_of(x as int, y as int),
                cell,
            ),
            !written ==> final(self).grid@ == old(self).grid@,
    {
        if x < self.width && y < self.height {
            proof {
                self.lemma_cell_index(x as int, y as int);
            }
            let i: usize = x + y * self.width;
            self.grid[i] = cell;
            true
        } else {
            false
        }
    }

    /// Whether the cell at `index` is free; an index past the last cell counts
    /// as free.
    pub fn is_empty(&self, index: usize) -> (free: bool)
        ensures
            free == (index >= self.grid@.len() || self.grid@[index as int] == Cell::Empty),
    {
        if index >= self.grid.len() {
            return true;
        }
        self.grid[index] == Cell::Empty
    }
}

} // verus!
