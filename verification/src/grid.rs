//! The cave grid: a bounded two-dimensional occupancy map.
//!
//! The executable [`Grid`] owns a flat row-major backing store together with
//! its width and height; every access is bounds-checked by contract.  Its
//! mathematical model is [`GridModel`], a sequence of cells with ghost
//! dimensions, on which all contracts are stated.

use vstd::prelude::*;

verus! {

/// What a single grid cell holds.
#[derive(Clone, Copy, PartialEq, Eq, Debug, Structural)]
pub enum Cell {
    /// Nothing; a grain may pass through.
    Empty,
    /// Rock laid down at construction time; never changes afterwards.
    Rock,
    /// The marker of the sand source.  Informational only, not an obstacle.
    Source,
    /// Sand that has come to rest; never changes afterwards.
    Sand,
}

/// Mathematical model of a grid: a row-major cell sequence plus dimensions.
pub ghost struct GridModel {
    pub cells: Seq<Cell>,
    pub width: int,
    pub height: int,
}

impl GridModel {
    /// A well-formed grid is non-degenerate, addressable on this machine,
    /// and its store matches its dimensions.
    pub open spec fn wf(self) -> bool {
        &&& self.width >= 1
        &&& self.height >= 1
        &&& self.width <= usize::MAX
        &&& self.height <= usize::MAX
        &&& self.cells.len() == self.width * self.height
    }

    pub open spec fn in_bounds(self, r: int, c: int) -> bool {
        0 <= r < self.height && 0 <= c < self.width
    }

    /// The cell at row `r`, column `c`.
    pub open spec fn cell(self, r: int, c: int) -> Cell {
        self.cells[r * self.width + c]
    }

    /// The same grid with the cell at row `r`, column `c` replaced by `v`.
    pub open spec fn put(self, r: int, c: int, v: Cell) -> GridModel {
        GridModel { cells: self.cells.update(r * self.width + c, v), ..self }
    }
}

/// Row-major indices of in-bounds coordinates lie within the store.
proof fn lemma_row_major(r: int, c: int, w: int, h: int)
    requires
        0 <= r < h,
        0 <= c < w,
    ensures
        0 <= r * w + c < h * w,
        h * w == w * h,
    {
    assert(r * w + c < h * w) by (nonlinear_arith)
        requires 0 <= r < h && 0 <= c < w;
    assert(0 <= r * w + c) by (nonlinear_arith)
        requires 0 <= r && 0 <= c && 0 <= w;
    assert(h * w == w * h) by (nonlinear_arith);
}

/// Row-major indexing is injective on in-bounds coordinates.
proof fn lemma_row_major_injective(r1: int, c1: int, r2: int, c2: int, w: int)
    requires
        0 <= r1,
        0 <= r2,
        0 <= c1 < w,
        0 <= c2 < w,
        r1 * w + c1 == r2 * w + c2,
    ensures
        r1 == r2 && c1 == c2,
{
    assert(r1 == r2 && c1 == c2) by (nonlinear_arith)
        requires
            0 <= r1 && 0 <= r2 && 0 <= c1 < w && 0 <= c2 < w && r1 * w + c1 == r2 * w + c2;
}

/// `put` changes exactly the addressed cell and keeps the grid well formed.
pub proof fn lemma_put_cell(g: GridModel, r: int, c: int, v: Cell)
    requires
        g.wf(),
        g.in_bounds(r, c),
    ensures
        g.put(r, c, v).wf(),
        g.put(r, c, v).width == g.width,
        g.put(r, c, v).height == g.height,
        g.put(r, c, v).cell(r, c) == v,
        forall|rr: int, cc: int|
            g.in_bounds(rr, cc) && !(rr == r && cc == c) ==> g.put(r, c, v).cell(rr, cc) == g.cell(
                rr,
                cc,
            ),
{
    lemma_row_major(r, c, g.width, g.height);
    assert forall|rr: int, cc: int|
        g.in_bounds(rr, cc) && !(rr == r && cc == c) implies g.put(r, c, v).cell(rr, cc) == g.cell(
        rr,
        cc,
    ) by {
        lemma_row_major(rr, cc, g.width, g.height);
        if rr * g.width + cc == r * g.width + c {
            lemma_row_major_injective(rr, cc, r, c, g.width);
        }
    }
}

/// Writing the same value twice at the same place is the same as writing it once.
///
/// Settling is a write-once operation: committing `Sand` into an already
/// settled cell leaves the grid exactly as it was.
pub proof fn lemma_put_idempotent(g: GridModel, r: int, c: int, v: Cell)
    requires
        g.wf(),
        g.in_bounds(r, c),
    ensures
        g.put(r, c, v).put(r, c, v) == g.put(r, c, v),
{
    lemma_row_major(r, c, g.width, g.height);
    assert(g.put(r, c, v).put(r, c, v).cells =~= g.put(r, c, v).cells);
}

/// A bounded cave grid with a flat row-major backing store.
pub struct Grid {
    cells: Vec<Cell>,
    width: usize,
    height: usize,
}

impl View for Grid {
    type V = GridModel;

    closed spec fn view(&self) -> GridModel {
        GridModel { cells: self.cells@, width: self.width as int, height: self.height as int }
    }
}

impl Grid {
    /// A fresh grid of the given dimensions with every cell empty.
    pub fn new(height: usize, width: usize) -> (g: Grid)
        requires
            1 <= height,
            1 <= width,
            height * width <= usize::MAX,
        ensures
            g@.wf(),
            g@.height == height,
            g@.width == width,
            forall|r: int, c: int| g@.in_bounds(r, c) ==> g@.cell(r, c) == Cell::Empty,
    {
        let mut cells: Vec<Cell> = Vec::new();
        let mut r: usize = 0;
        while r < height
            invariant
                r <= height,
                height * width <= usize::MAX,
                cells@.len() == r * width,
                forall|i: int| 0 <= i < cells@.len() ==> cells@[i] == Cell::Empty,
            decreases height - r,
        {
            proof {
                assert(r * width <= height * width) by (nonlinear_arith)
                    requires 0 <= r <= height && 0 <= width;
            }
            let mut c: usize = 0;
            while c < width
                invariant
                    c <= width,
                    r < height,
                    height * width <= usize::MAX,
                    cells@.len() == r * width + c,
                    forall|i: int| 0 <= i < cells@.len() ==> cells@[i] == Cell::Empty,
                decreases width - c,
            {
                cells.push(Cell::Empty);
                c = c + 1;
            }
            r = r + 1;
            proof {
                assert((r - 1) * width + width == r * width) by (nonlinear_arith);
            }
        }
        proof {
            assert(height * width == width * height) by (nonlinear_arith);
        }
        let g = Grid { cells, width, height };
        proof {
            assert forall|rr: int, cc: int| g@.in_bounds(rr, cc) implies g@.cell(rr, cc)
                == Cell::Empty by {
                lemma_row_major(rr, cc, width as int, height as int);
            }
        }
        g
    }

    pub fn height(&self) -> (h: usize)
        ensures
            h == self@.height,
    {
        self.height
    }

    pub fn width(&self) -> (w: usize)
        ensures
            w == self@.width,
    {
        self.width
    }

    /// The cell at row `r`, column `c`.
    pub fn at(&self, r: usize, c: usize) -> (v: Cell)
        requires
            self@.wf(),
            r < self@.height,
            c < self@.width,
        ensures
            v == self@.cell(r as int, c as int),
    {
        let n = self.cells.len();
        proof {
            lemma_row_major(r as int, c as int, self.width as int, self.height as int);
        }
        self.cells[r * self.width + c]
    }

    /// Overwrite the cell at row `r`, column `c` with `v`.
    pub fn put(&mut self, r: usize, c: usize, v: Cell)
        requires
            old(self)@.wf(),
            r < old(self)@.height,
            c < old(self)@.width,
        ensures
            final(self)@ == old(self)@.put(r as int, c as int, v),
    {
        let n = self.cells.len();
        proof {
            lemma_row_major(r as int, c as int, self.width as int, self.height as int);
        }
        let idx: usize = r * self.width + c;
        self.cells[idx] = v;
    }
}

} // verus!
