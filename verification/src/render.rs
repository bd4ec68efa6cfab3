//! The renderer adapter: one packed colour per cell.

use crate::grid::{Cell, Simulation};
use vstd::prelude::*;

verus! {

/// The colour of a grain: white.
pub const SAND_COLOR: u32 = 0xFFFFFFFF;

/// The colour of stone: a middle grey.
pub const STONE_COLOR: u32 = 0x999999FF;

/// The colour of a free cell: black.
pub const EMPTY_COLOR: u32 = 0;

impl Cell {
    /// The packed colour that stands for this kind of cell.
    pub open spec fn color_of(self) -> u32 {
        match self {
            Cell::Sand => SAND_COLOR,
            Cell::Stone => STONE_COLOR,
            Cell::Empty => EMPTY_COLOR,
        }
    }

    /// The packed colour that stands for this kind of cell.
    pub fn color(self) -> (packed: u32)
        ensures
            packed == self.color_of(),
    {
        match self {
            Cell::Sand => SAND_COLOR,
            Cell::Stone => STONE_COLOR,
            Cell::Empty => EMPTY_COLOR,
        }
    }
}

impl Simulation {
    /// Writes the colour of every cell to `buffer`, in the order of the
    /// cells; the buffer is brought to the size of the grid first. The grid
    /// is only read.
    pub fn draw_to_buffer(&self, buffer: &mut Vec<u32>)
        requires
            self.wf(),
        ensures
            final(buffer)@.len() == self.area(),
            forall|i: int|
                0 <= i < self.area() ==> #[trigger] final(buffer)@[i] == self.grid@[i].color_of(),
    {
        proof {
            self.lemma_cell_index(0, 0);
        }
        buffer.resize(self.width * self.height, 0);
        let mut i: usize = 0;
        while i < self.grid.len()
            invariant
                self.wf(),
                i <= self.grid@.len(),
                buffer@.len() == self.grid@.len(),
                forall|j: int| 0 <= j < i ==> #[trigger] buffer@[j] == self.grid@[j].color_of(),
            decreases self.grid@.len() - i,
        {
            buffer[i] = self.grid[i].color();
            i += 1;
        }
    }
}

} // verus!
