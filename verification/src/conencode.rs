use vstd::prelude::*;

use crate::grids::{Coord, Crd};

verus! {

/// A grid of values of `size.0` columns and `size.1` rows, stored row after row.
pub struct Matrix<T> {
    pub size: Crd,
    pub data: Vec<T>,
}

impl<T> Matrix<T> {
    /// The grid's sides are not negative and it holds one value per cell.
    pub open spec fn wf(&self) -> bool {
        self.size.0 >= 0 && self.size.1 >= 0 && self.data@.len() == self.size.0 * self.size.1
    }

    /// The value of the cell in column `x` of row `y`.
    pub open spec fn cell(&self, x: int, y: int) -> T {
        self.data@[y * self.size.0 + x]
    }
}

impl<T: Copy> Matrix<T> {
    /// A grid of `size` with `fill` in every cell.
    pub fn new(size: Crd, fill: T) -> (r: Self)
        requires
            size.0 >= 0 && size.1 >= 0,
            size.0 * size.1 <= usize::MAX,
        ensures
            r.wf(),
            r.size == size,
            forall|k: int| 0 <= k < r.data@.len() ==> r.data@[k] == fill,
    {
        let n = (size.0 as usize) * (size.1 as usize);
        let mut data: Vec<T> = Vec::new();
        let mut k: usize = 0;
        while k < n
            invariant
                k <= n,
                data@.len() == k,
                forall|j: int| 0 <= j < k ==> data@[j] == fill,
            decreases n - k,
        {
            data.push(fill);
            k = k + 1;
        }
        Matrix { size, data }
    }

    /// The value of the cell in column `x` of row `y`.
    pub fn get(&self, p: Crd) -> (r: T)
        requires
            self.wf(),
            0 <= p.0 < self.size.0,
            0 <= p.1 < self.size.1,
        ensures
            r == self.cell(p.0 as int, p.1 as int),
    {
        let len = self.data.len();
        proof {
            lemma_cell_in(self.size.0 as int, self.size.1 as int, p.0 as int, p.1 as int);
        }
        let row = (p.1 as usize) * (self.size.0 as usize);
        self.data[row + (p.0 as usize)]
    }

    /// A copy of the grid.
    pub fn copy(&self) -> (r: Self)
        ensures
            r.size == self.size,
            r.data@ == self.data@,
    {
        let mut data: Vec<T> = Vec::new();
        let mut k: usize = 0;
        while k < self.data.len()
            invariant
                k <= self.data@.len(),
                data@ == self.data@.subrange(0, k as int),
            decreases self.data@.len() - k,
        {
            data.push(self.data[k]);
            k = k + 1;
            proof {
                assert(data@ =~= self.data@.subrange(0, k as int));
            }
        }
        proof {
            assert(self.data@.subrange(0, k as int) =~= self.data@);
        }
        Matrix { size: self.size, data }
    }
}

/// The cell `(x, y)` of a `w` by `h` grid is stored inside it.
proof fn lemma_cell_in(w: int, h: int, x: int, y: int)
    requires
        0 <= x < w,
        0 <= y < h,
    ensures
        0 <= y * w,
        0 <= y * w + x < w * h,
{
    assert(0 <= y * w) by (nonlinear_arith)
        requires
            0 <= y,
            0 <= x < w,
    ;
    assert(0 <= y * w + x < w * h) by (nonlinear_arith)
        requires
            0 <= x < w,
            0 <= y < h,
    {
        assert(y * w + x < y * w + w);
        assert(y * w + w == (y + 1) * w);
        assert((y + 1) * w <= h * w);
    }
}

/// Turns a grid of characters into what a terminal is sent to show it.
pub trait ConEncoder {
    /// The characters that draw `grids` from scratch.
    fn flush(&mut self, grids: &Matrix<char>) -> Vec<char>
        requires
            grids.wf(),
    ;

    /// The characters that bring the screen from the last grid to `grids`.
    fn update(&mut self, grids: &Matrix<char>) -> Vec<char>
        requires
            grids.wf(),
    ;

    /// The characters that ring the terminal's bell.
    fn bell(&mut self) -> Vec<char>;
}

/// A network virtual terminal: it draws a whole page each time.
pub struct NVTer {
    pub last_graph: Matrix<char>,
}

/// The characters of row `y` of the grid.
pub open spec fn row_chars(g: Matrix<char>, y: int) -> Seq<char> {
    Seq::new(g.size.0 as nat, |x: int| g.cell(x, y))
}

/// The first `n` rows of the grid, each ended by a carriage return and a line feed.
pub open spec fn painted_rows(g: Matrix<char>, n: int) -> Seq<char>
    decreases n,
{
    if n <= 0 {
        Seq::empty()
    } else {
        painted_rows(g, n - 1) + row_chars(g, n - 1) + seq!['\r', '\n']
    }
}

/// A new page (carriage return, line feed, form feed), then every row of the grid.
pub open spec fn painting(g: Matrix<char>) -> Seq<char> {
    seq!['\r', '\n', '\x0C'] + painted_rows(g, g.size.1 as int)
}

impl NVTer {
    /// A terminal that has drawn nothing yet.
    pub fn new() -> (r: Self)
        ensures
            r.last_graph.wf(),
            r.last_graph.size == Coord(0isize, 0isize),
    {
        NVTer { last_graph: Matrix::new(Coord(0, 0), ' ') }
    }

    /// The characters that draw the grid on a new page.
    pub fn repaint(grids: &Matrix<char>) -> (r: Vec<char>)
        requires
            grids.wf(),
        ensures
            r@ == painting(*grids),
    {
        let mut out: Vec<char> = Vec::new();
        out.push('\r');
        out.push('\n');
        out.push('\x0C');
        proof {
            assert(out@ =~= seq!['\r', '\n', '\x0C'] + painted_rows(*grids, 0));
        }
        let mut j: isize = 0;
        while j < grids.size.1
            invariant
                grids.wf(),
                0 <= j <= grids.size.1,
                out@ == seq!['\r', '\n', '\x0C'] + painted_rows(*grids, j as int),
            decreases grids.size.1 - j,
        {
            let ghost before = out@;
            let mut i: isize = 0;
            while i < grids.size.0
                invariant
                    grids.wf(),
                    0 <= j < grids.size.1,
                    0 <= i <= grids.size.0,
                    out@ == before + row_chars(*grids, j as int).take(i as int),
                decreases grids.size.0 - i,
            {
                out.push(grids.get(Coord(i, j)));
                proof {
                    assert(row_chars(*grids, j as int).take(i + 1) =~= row_chars(*grids, j as int).take(i as int).push(
                        grids.cell(i as int, j as int),
                    ));
                }
                i = i + 1;
            }
            out.push('\r');
            out.push('\n');
            proof {
                assert(row_chars(*grids, j as int).take(i as int) =~= row_chars(*grids, j as int));
                assert(out@ =~= seq!['\r', '\n', '\x0C'] + painted_rows(*grids, j + 1));
            }
            j = j + 1;
        }
        out
    }
}

impl ConEncoder for NVTer {
    /// Keeps the grid and draws it on a new page.
    fn flush(&mut self, grids: &Matrix<char>) -> (r: Vec<char>)
        ensures
            r@ == painting(*grids),
            final(self).last_graph.size == grids.size,
            final(self).last_graph.data@ == grids.data@,
    {
        self.last_graph = grids.copy();
        Self::repaint(grids)
    }

    /// Draws the whole grid again, as `flush` does.
    fn update(&mut self, grids: &Matrix<char>) -> (r: Vec<char>)
        ensures
            r@ == painting(*grids),
            final(self).last_graph.size == grids.size,
            final(self).last_graph.data@ == grids.data@,
    {
        self.flush(grids)
    }

    /// The bell character.
    fn bell(&mut self) -> (r: Vec<char>)
        ensures
            r@ == seq!['\x07'],
            final(self).last_graph == old(self).last_graph,
    {
        vec!['\x07']
    }
}

} // verus!
