//! The plain engine: sand only, one thread, no chance. Every grain falls by
//! the same fixed rule, and grains that fall to the same cell become one.

use crate::grid::lemma_index_in_range;
use vstd::arithmetic::div_mod::lemma_fundamental_div_mod_converse;
use vstd::prelude::*;

verus! {

/// What one grid location holds.
#[derive(Clone, Copy, PartialEq, Eq, Structural, Debug)]
pub enum PixelState {
    /// Nothing.
    Empty,
    /// A grain.
    Sand,
}

/// A `width` by `height` grid in row-major order, the last row being the
/// floor.
pub struct Simulation {
    pub width: usize,
    pub height: usize,
    pub grid: Vec<PixelState>,
}

impl PixelState {
    /// The packed colour of this kind of cell: white for a grain, else black.
    pub open spec fn color_of(self) -> u32 {
        match self {
            PixelState::Sand => 0xFFFFFFFF,
            PixelState::Empty => 0,
        }
    }
}

impl Simulation {
    /// The number of cells.
    pub open spec fn area(&self) -> int {
        self.width * self.height
    }

    /// The cell array covers the dimensions exactly.
    pub open spec fn wf(&self) -> bool {
        self.grid@.len() == self.area()
    }

    /// The index of the cell on which a grain at index `i` comes to rest in
    /// one frame: the cell below where that is free, else the cell below and
    /// to the left, else the one below and to the right, and its own cell
    /// where none of them is free or the grain is on the floor.
    pub open spec fn lands(&self, i: int) -> int {
        let w = self.width as int;
        let x = i % w;
        let below = i + w;
        if below >= self.grid@.len() {
            i
        } else if self.grid@[below] == PixelState::Empty {
            below
        } else if x > 0 && self.grid@[below - 1] == PixelState::Empty {
            below - 1
        } else if x + 1 < w && self.grid@[below + 1] == PixelState::Empty {
            below + 1
        } else {
            i
        }
    }

    /// One of the grains with an index below `upto` comes to rest on cell `c`.
    pub open spec fn is_reached(&self, upto: int, c: int) -> bool {
        exists|i: int|
            0 <= i < upto && #[trigger] self.grid@[i] == PixelState::Sand && self.lands(i) == c
    }

    /// The cells one frame later: a grain wherever one comes to rest.
    pub open spec fn settled(&self) -> Seq<PixelState> {
        Seq::new(
            self.grid@.len(),
            |c: int|
                if self.is_reached(self.grid@.len() as int, c) {
                    PixelState::Sand
                } else {
                    PixelState::Empty
                },
        )
    }

    /// An all-`Empty` grid of the given size.
    pub fn new(width: usize, height: usize) -> (sim: Self)
        requires
            width * height <= usize::MAX,
        ensures
            sim.wf(),
            sim.width == width,
            sim.height == height,
            forall|i: int| 0 <= i < sim.area() ==> sim.grid@[i] == PixelState::Empty,
    {
        Simulation { width, height, grid: vec![PixelState::Empty; width * height] }
    }

    /// Advances the grid by one frame: every grain moves to the cell it
    /// comes to rest on, as the grid stood before the call.
    pub fn update(&mut self)
        requires
            old(self).wf(),
        ensures
            final(self).wf(),
            final(self).width == old(self).width,
            final(self).height == old(self).height,
            final(self).grid@ == old(self).settled(),
    {
        proof {
            assert(self.grid@.len() == self.grid.len());
        }
        let mut updated_grid = vec![PixelState::Empty; self.width * self.height];
        let ghost w = self.width as int;
        let ghost h = self.height as int;
        let mut y: usize = 0;
        while y < self.height
            invariant
                self.wf(),
                *self == *old(self),
                w == self.width,
                h == self.height,
                y <= self.height,
                updated_grid@.len() == self.grid@.len(),
                forall|c: int|
                    0 <= c < updated_grid@.len() ==> (#[trigger] updated_grid@[c]
                        == PixelState::Sand <==> self.is_reached(y * w, c)),
            decreases self.height - y,
        {
            let mut x: usize = 0;
            while x < self.width
                invariant
                    self.wf(),
                    *self == *old(self),
                    w == self.width,
                    h == self.height,
                    y < self.height,
                    x <= self.width,
                    updated_grid@.len() == self.grid@.len(),
                    forall|c: int|
                        0 <= c < updated_grid@.len() ==> (#[trigger] updated_grid@[c]
                            == PixelState::Sand <==> self.is_reached(x + y * w, c)),
                decreases self.width - x,
            {
                proof {
                    lemma_index_in_range(w, h, x as int, y as int);
                    assert(self.grid@.len() == self.grid.len());
                    lemma_fundamental_div_mod_converse(x + y * w, w, y as int, x as int);
                    if y + 1 < h {
                        lemma_index_in_range(w, h, x as int, y + 1);
                    } else {
                        assert(h * w == w * h) by (nonlinear_arith);
                    }
                }
                let index: usize = x + y * self.width;
                let ghost before = updated_grid@;
                let ghost goal = index as int;
                if self.grid[index] == PixelState::Sand {
                    let mut rest: usize = index;
                    if y != self.height - 1 {
                        let below: usize = index + self.width;
                        if self.grid[below] == PixelState::Empty {
                            rest = below;
                        } else if x > 0 && self.grid[below - 1] == PixelState::Empty {
                            rest = below - 1;
                        } else if x + 1 < self.width && self.grid[below + 1] == PixelState::Empty {
                            rest = below + 1;
                        }
                    }
                    assert(rest == self.lands(index as int));
                    updated_grid[rest] = PixelState::Sand;
                }
                x += 1;
                proof {
                    assert forall|c: int| 0 <= c < updated_grid@.len() implies (
                    #[trigger] updated_grid@[c] == PixelState::Sand <==> self.is_reached(
                        x + y * w,
                        c,
                    )) by {
                        if self.is_reached(goal, c) {
                            let i = choose|i: int|
                                0 <= i < goal && #[trigger] self.grid@[i] == PixelState::Sand
                                    && self.lands(i) == c;
                            assert(0 <= i < goal + 1);
                        }
                        if self.is_reached(goal + 1, c) && !self.is_reached(goal, c) {
                            let i = choose|i: int|
                                0 <= i < goal + 1 && #[trigger] self.grid@[i] == PixelState::Sand
                                    && self.lands(i) == c;
                            assert(i == goal);
                        }
                    }
                }
            }
            proof {
                assert((y + 1) * w == w + y * w) by (nonlinear_arith);
            }
            y += 1;
        }
        proof {
            assert(h * w == w * h) by (nonlinear_arith);
            assert(updated_grid@ =~= self.settled());
        }
        self.grid = updated_grid;
    }

    /// Writes the colour of every cell to `buffer`, in the order of the
    /// cells; the buffer is brought to the size of the grid first.
    pub fn draw_to_buffer(&self, buffer: &mut Vec<u32>)
        requires
            self.wf(),
        ensures
            final(buffer)@.len() == self.area(),
            forall|i: int|
                0 <= i < self.area() ==> #[trigger] final(buffer)@[i] == self.grid@[i].color_of(),
    {
        proof {
            assert(self.grid@.len() == self.grid.len());
        }
        buffer.resize(self.width * self.height, 0);
        let mut i: usize = 0;
        while i < self.grid.len()
            invariant
                self.wf(),
                i <= self.grid@.len(),
                buffer@.len() == self.grid@.len(),
                forall|j: int| 0 <= j < i ==> #[trigger] buffer@[j] == self.grid@[j].color_of(),
            decreases self.grid@.len() - i,
        {
            buffer[i] = match self.grid[i] {
                PixelState::Sand => 0xFFFFFFFF,
                PixelState::Empty => 0,
            };
            i += 1;
        }
    }
}

} // verus!
