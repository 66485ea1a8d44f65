use vstd::prelude::*;

use crate::color::Color;

verus! {

/// Row-major cell index of position (x, y) on an n-sided grid.
pub open spec fn cell_index(n: nat, x: int, y: int) -> int {
    x * n + y
}

pub proof fn lemma_cell_index_bound(n: nat, x: int, y: int)
    requires
        0 <= x < n,
        0 <= y < n,
    ensures
        0 <= cell_index(n, x, y) < n * n,
{
    assert(x * n + y < n * n) by (nonlinear_arith)
        requires
            0 <= x < n,
            0 <= y < n,
    ;
    assert(x * n >= 0) by (nonlinear_arith)
        requires
            0 <= x,
            0 <= n,
    ;
}

/// The n x n grid of cells being colored.  A cell is Empty (None) until
/// the pass reaches its position, then permanently Filled (Some):
/// `fill` demands an Empty cell, so a stored color can never change.
pub struct Canvas {
    n: usize,
    cells: Vec<Option<Color>>,
}

impl View for Canvas {
    type V = Seq<Option<Color>>;

    closed spec fn view(&self) -> Seq<Option<Color>> {
        self.cells@
    }
}

impl Canvas {
    /// The grid side length n.
    pub closed spec fn side(&self) -> nat {
        self.n as nat
    }

    /// Well-formed: exactly n * n addressable cells, and that many fits
    /// the machine's index range.
    pub open spec fn wf(&self) -> bool {
        self@.len() == self.side() * self.side() && self.side() * self.side() <= usize::MAX
    }

    /// A fully Empty n x n canvas.
    pub fn new(n: usize) -> (c: Canvas)
        requires
            n * n <= usize::MAX,
        ensures
            c.wf(),
            c.side() == n,
            c@ =~= Seq::new((n * n) as nat, |i: int| None::<Color>),
    {
        proof {
            assert(n * n >= 0) by (nonlinear_arith);
        }
        let total = n * n;
        let mut cells: Vec<Option<Color>> = Vec::new();
        while cells.len() < total
            invariant
                cells@.len() <= total,
                forall|i: int| 0 <= i < cells@.len() ==> cells@[i] is None,
            decreases total - cells@.len(),
        {
            cells.push(None);
        }
        Canvas { n, cells }
    }

    pub fn side_len(&self) -> (n: usize)
        ensures
            n == self.side(),
    {
        self.n
    }

    /// Read the cell at (x, y).
    pub fn get(&self, x: usize, y: usize) -> (c: Option<Color>)
        requires
            self.wf(),
            x < self.side(),
            y < self.side(),
        ensures
            c == self@[cell_index(self.side(), x as int, y as int)],
    {
        let len = self.cells.len();
        proof {
            lemma_cell_index_bound(self.side(), x as int, y as int);
            assert(x * self.side() + y < len);
        }
        self.cells[x * self.n + y]
    }

    /// Commit a color at (x, y), permanently: only an Empty cell can be
    /// filled, and every other cell is left as it was.
    pub fn fill(&mut self, x: usize, y: usize, c: Color)
        requires
            old(self).wf(),
            x < old(self).side(),
            y < old(self).side(),
            old(self)@[cell_index(old(self).side(), x as int, y as int)] is None,
        ensures
            final(self).wf(),
            final(self).side() == old(self).side(),
            final(self)@ == old(self)@.update(
                cell_index(old(self).side(), x as int, y as int),
                Some(c),
            ),
    {
        let len = self.cells.len();
        proof {
            lemma_cell_index_bound(old(self).side(), x as int, y as int);
            assert(x * old(self).side() + y < len);
        }
        let idx = x * self.n + y;
        self.cells[idx] = Some(c);
    }

    /// Extract the finished grid, row-major: Some exactly when no cell
    /// is still Empty, with every stored color passed through unchanged.
    pub fn try_pixels(&self) -> (r: Option<Vec<Color>>)
        requires
            self.wf(),
        ensures
            match r {
                Some(px) => px@.len() == self@.len() && forall|i: int|
                    0 <= i < self@.len() ==> self@[i] == Some(#[trigger] px@[i]),
                None => exists|i: int| 0 <= i < self@.len() && self@[i] is None,
            },
    {
        let total = self.cells.len();
        let mut px: Vec<Color> = Vec::new();
        let mut i: usize = 0;
        while i < total
            invariant
                total == self@.len(),
                i <= total,
                px@.len() == i,
                self.wf(),
                forall|j: int| 0 <= j < i ==> self@[j] == Some(#[trigger] px@[j]),
            decreases total - i,
        {
            match self.cells[i] {
                Some(c) => px.push(c),
                None => {
                    return None;
                },
            }
            i = i + 1;
        }
        Some(px)
    }
}

} // verus!
