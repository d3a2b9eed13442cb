use vstd::prelude::*;

verus! {

/// A dense two-dimensional array stored row by row: cell `(i, j)` is `cells[i * cols + j]`.
pub struct Grid<T> {
    pub rows: usize,
    pub cols: usize,
    pub cells: Vec<T>,
}

/// `i * n + j` addresses a cell of an `m x n` grid when `i < m` and `j < n`.
pub proof fn lemma_cell_index(m: int, n: int, i: int, j: int)
    requires
        0 <= i < m,
        0 <= j < n,
    ensures
        0 <= i * n + j < m * n,
        0 <= i * n <= i * n + j,
{
    assert(0 <= i * n + j < m * n) by (nonlinear_arith)
        requires
            0 <= i < m,
            0 <= j < n,
    ;
    assert(0 <= i * n) by (nonlinear_arith)
        requires
            0 <= i,
            0 <= n,
    ;
}

impl<T: Copy> Grid<T> {
    /// The cell vector holds exactly `rows * cols` entries.
    pub open spec fn wf(&self) -> bool {
        self.cells.len() == self.rows * self.cols
    }

    /// The value at row `i`, column `j`.
    pub open spec fn at(&self, i: int, j: int) -> T {
        self.cells@[i * self.cols + j]
    }

    /// A `rows x cols` grid with every cell set to `v`.
    pub fn filled(rows: usize, cols: usize, v: T) -> (r: Self)
        requires
            rows * cols <= usize::MAX,
        ensures
            r.wf(),
            r.rows == rows,
            r.cols == cols,
            r.cells@ == Seq::new((rows * cols) as nat, |k: int| v),
    {
        let total = rows * cols;
        let mut cells: Vec<T> = Vec::with_capacity(total);
        let mut k: usize = 0;
        while k < total
            invariant
                k <= total,
                cells@ == Seq::new(k as nat, |x: int| v),
            decreases total - k,
        {
            cells.push(v);
            k = k + 1;
            assert(cells@ =~= Seq::new(k as nat, |x: int| v));
        }
        Grid { rows, cols, cells }
    }

    /// Builds a grid from its cells in row order; `None` unless there are `rows * cols` of them.
    pub fn from_cells(rows: usize, cols: usize, cells: Vec<T>) -> (r: Option<Self>)
        ensures
            r is Some <==> cells.len() == rows * cols,
            r matches Some(g) ==> g.wf() && g.rows == rows && g.cols == cols && g.cells@ == cells@,
    {
        match rows.checked_mul(cols) {
            Some(t) => {
                if t == cells.len() {
                    Some(Grid { rows, cols, cells })
                } else {
                    None
                }
            },
            None => None,
        }
    }

    /// The value at row `i`, column `j`.
    pub fn get(&self, i: usize, j: usize) -> (r: T)
        requires
            self.wf(),
            i < self.rows,
            j < self.cols,
        ensures
            r == self.at(i as int, j as int),
    {
        proof {
            lemma_cell_index(self.rows as int, self.cols as int, i as int, j as int);
        }
        self.cells[i * self.cols + j]
    }

    /// Writes `v` at row `i`, column `j`.
    pub fn set(&mut self, i: usize, j: usize, v: T)
        requires
            old(self).wf(),
            i < old(self).rows,
            j < old(self).cols,
        ensures
            final(self).wf(),
            final(self).rows == old(self).rows,
            final(self).cols == old(self).cols,
            final(self).cells@ == old(self).cells@.update(i * old(self).cols + j, v),
    {
        proof {
            lemma_cell_index(self.rows as int, self.cols as int, i as int, j as int);
        }
        let k = i * self.cols + j;
        self.cells.set(k, v);
    }
}

} // verus!
