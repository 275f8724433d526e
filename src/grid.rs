use vstd::prelude::*;

verus! {

/// The state of one cell of the world.
#[derive(Clone, Copy, Debug, PartialEq, Eq, Structural)]
pub enum Cell {
    Empty,
    Material,
}

/// An index outside the world's rows or columns.
#[derive(Clone, Copy, Debug, PartialEq, Eq, Structural)]
pub struct OutOfBounds {
    pub row: usize,
    pub col: usize,
}

/// Position of the cell at `(row, col)` in a row-major buffer of rows of `width` cells.
pub open spec fn cell_index(width: int, row: int, col: int) -> int {
    row * width + col
}

/// A rectangular grid of cells, stored row by row.
pub struct World {
    pub grid: Vec<Cell>,
    pub width: usize,
    pub height: usize,
}

impl World {
    /// The buffer holds exactly one cell per row and column.
    pub open spec fn wf(&self) -> bool {
        &&& self.grid@.len() == self.width * self.height
        &&& self.width * self.height <= usize::MAX
    }

    /// The cell at `(row, col)`, for an index inside the world.
    pub open spec fn at(&self, row: int, col: int) -> Cell {
        self.grid@[cell_index(self.width as int, row, col)]
    }

    pub open spec fn in_bounds(&self, row: int, col: int) -> bool {
        0 <= row < self.height && 0 <= col < self.width
    }

    /// An empty world of `width` columns and `height` rows.
    pub fn new(width: usize, height: usize) -> (w: World)
        requires
            width * height <= usize::MAX,
        ensures
            w.wf(),
            w.width == width,
            w.height == height,
            forall|i: int| 0 <= i < w.grid@.len() ==> w.grid@[i] == Cell::Empty,
    {
        World { grid: vec![Cell::Empty; width * height], width, height }
    }

    /// The cell at `(row, col)`, or `OutOfBounds` when the index lies outside the world.
    pub fn get(&self, row: usize, col: usize) -> (r: Result<Cell, OutOfBounds>)
        requires
            self.wf(),
        ensures
            self.in_bounds(row as int, col as int) ==> r == Ok::<Cell, OutOfBounds>(
                self.at(row as int, col as int),
            ),
            !self.in_bounds(row as int, col as int) ==> r == Err::<Cell, OutOfBounds>(
                (OutOfBounds { row, col }),
            ),
    {
        if row < self.height && col < self.width {
            proof {
                lemma_index_in_range(self.width as int, self.height as int, row as int, col as int);
            }
            Ok(self.grid[row * self.width + col])
        } else {
            Err(OutOfBounds { row, col })
        }
    }

    /// Overwrites the cell at `(row, col)`; an index outside the world changes nothing.
    pub fn set(&mut self, row: usize, col: usize, state: Cell) -> (r: Result<(), OutOfBounds>)
        requires
            old(self).wf(),
        ensures
            final(self).wf(),
            final(self).width == old(self).width,
            final(self).height == old(self).height,
            old(self).in_bounds(row as int, col as int) ==> r == Ok::<(), OutOfBounds>(())
                && final(self).grid@ == old(self).grid@.update(
                cell_index(old(self).width as int, row as int, col as int),
                state,
            ),
            !old(self).in_bounds(row as int, col as int) ==> r == Err::<(), OutOfBounds>(
                (OutOfBounds { row, col }),
            ) && final(self).grid@ == old(self).grid@,
    {
        if row < self.height && col < self.width {
            proof {
                lemma_index_in_range(self.width as int, self.height as int, row as int, col as int);
            }
            self.grid.set(row * self.width + col, state);
            Ok(())
        } else {
            Err(OutOfBounds { row, col })
        }
    }
}

/// An index inside the rectangle lies inside the buffer.
pub proof fn lemma_index_in_range(width: int, height: int, row: int, col: int)
    requires
        0 <= row < height,
        0 <= col < width,
    ensures
        0 <= row * width,
        row * width + col < width * height,
        (row + 1) * width <= width * height,
        row * width + width == (row + 1) * width,
{
    assert(row * width + col < width * height) by (nonlinear_arith)
        requires
            0 <= row < height,
            0 <= col < width,
    ;
    assert((row + 1) * width <= width * height) by (nonlinear_arith)
        requires
            0 <= row < height,
            0 <= col < width,
    ;
    assert(0 <= row * width) by (nonlinear_arith)
        requires
            0 <= row,
            0 <= col < width,
    ;
    assert(row * width + width == (row + 1) * width) by (nonlinear_arith);
}

} // verus!
