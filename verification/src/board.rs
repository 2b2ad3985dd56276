use vstd::prelude::*;

use crate::tile::{Pos, TileState};

verus! {

/// Flat index of cell `(x, y)` on a board `w` cells wide.
pub open spec fn tile_index(x: int, y: int, w: int) -> int {
    x + y * w
}

/// On a `w` by `h` board the flat index of an in-bounds cell lies in `[0, w*h)`.
pub proof fn lemma_tile_index_bounds(x: int, y: int, w: int, h: int)
    requires
        0 <= x < w,
        0 <= y < h,
    ensures
        0 <= tile_index(x, y, w) < w * h,
{
    assert(0 <= x + y * w < w * h) by (nonlinear_arith)
        requires
            0 <= x < w,
            0 <= y < h,
    ;
}

/// Two distinct in-bounds cells have distinct flat indices.
pub proof fn lemma_tile_index_injective(x1: int, y1: int, x2: int, y2: int, w: int)
    requires
        0 <= x1 < w,
        0 <= x2 < w,
        0 <= y1,
        0 <= y2,
        tile_index(x1, y1, w) == tile_index(x2, y2, w),
    ensures
        x1 == x2 && y1 == y2,
{
    assert(x1 == x2 && y1 == y2) by (nonlinear_arith)
        requires
            0 <= x1 < w,
            0 <= x2 < w,
            0 <= y1,
            0 <= y2,
            x1 + y1 * w == x2 + y2 * w,
    ;
}

/// A flat index below `w * h` splits into in-bounds coordinates by division.
pub proof fn lemma_cell_coords(cell: int, w: int, h: int)
    requires
        1 <= w,
        0 <= cell < w * h,
    ensures
        0 <= cell % w < w,
        0 <= cell / w < h,
        tile_index(cell % w, cell / w, w) == cell,
{
    assert(0 <= cell % w < w && 0 <= cell / w < h && cell % w + (cell / w) * w == cell)
        by (nonlinear_arith)
        requires
            1 <= w,
            0 <= cell < w * h,
    ;
}

/// A fixed-size grid of tiles, stored row by row as a flat vector.
pub struct Board {
    width: usize,
    height: usize,
    cells: Vec<TileState>,
}

impl View for Board {
    type V = Seq<TileState>;

    closed spec fn view(&self) -> Seq<TileState> {
        self.cells@
    }
}

impl Board {
    pub closed spec fn spec_width(&self) -> usize {
        self.width
    }

    pub closed spec fn spec_height(&self) -> usize {
        self.height
    }

    /// The board holds exactly one tile per cell of its `width` by `height` grid.
    pub open spec fn wf(&self) -> bool {
        &&& 1 <= self.spec_width()
        &&& 1 <= self.spec_height()
        &&& self@.len() == self.spec_width() * self.spec_height()
    }

    pub open spec fn in_bounds(&self, p: Pos) -> bool {
        p.x < self.spec_width() && p.y < self.spec_height()
    }

    /// Flat index of an in-bounds position.
    pub open spec fn pos_index(&self, p: Pos) -> int {
        tile_index(p.x as int, p.y as int, self.spec_width() as int)
    }

    /// A fresh board of the given size, every cell Empty.
    pub fn new(width: usize, height: usize) -> (b: Board)
        requires
            1 <= width,
            1 <= height,
            width * height <= usize::MAX,
        ensures
            b.wf(),
            b.spec_width() == width,
            b.spec_height() == height,
            forall|j: int| 0 <= j < b@.len() ==> b@[j] == TileState::Empty,
    {
        let n = width * height;
        let mut cells: Vec<TileState> = Vec::new();
        let mut i: usize = 0;
        while i < n
            invariant
                i <= n,
                cells@.len() == i,
                forall|j: int| 0 <= j < i ==> cells@[j] == TileState::Empty,
            decreases n - i,
        {
            cells.push(TileState::Empty);
            i = i + 1;
        }
        Board { width, height, cells }
    }

    /// The number of cells, `width * height`.
    pub fn area(&self) -> (n: usize)
        ensures
            n == self@.len(),
    {
        self.cells.len()
    }

    pub fn width(&self) -> (w: usize)
        ensures
            w == self.spec_width(),
    {
        self.width
    }

    pub fn height(&self) -> (h: usize)
        ensures
            h == self.spec_height(),
    {
        self.height
    }

    /// The tile at `(x, y)`. Coordinates are unchecked at this layer: callers
    /// establish bounds before indexing.
    pub fn get(&self, x: usize, y: usize) -> (t: TileState)
        requires
            self.wf(),
            x < self.spec_width(),
            y < self.spec_height(),
        ensures
            t == self@[tile_index(x as int, y as int, self.spec_width() as int)],
    {
        let n = self.cells.len();
        proof {
            lemma_tile_index_bounds(
                x as int,
                y as int,
                self.spec_width() as int,
                self.spec_height() as int,
            );
            assert(x + y * self.spec_width() < n);
        }
        self.cells[x + y * self.width]
    }

    /// Overwrite the tile at `(x, y)`.
    pub fn set(&mut self, x: usize, y: usize, t: TileState)
        requires
            old(self).wf(),
            x < old(self).spec_width(),
            y < old(self).spec_height(),
        ensures
            final(self).wf(),
            final(self).spec_width() == old(self).spec_width(),
            final(self).spec_height() == old(self).spec_height(),
            final(self)@ == old(self)@.update(
                tile_index(x as int, y as int, old(self).spec_width() as int),
                t,
            ),
    {
        let n = self.cells.len();
        proof {
            lemma_tile_index_bounds(
                x as int,
                y as int,
                self.spec_width() as int,
                self.spec_height() as int,
            );
            assert(x + y * self.spec_width() < n);
        }
        let i = x + y * self.width;
        self.cells.set(i, t);
    }
}

} // verus!
