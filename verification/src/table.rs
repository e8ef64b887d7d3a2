//! A rectangular table of cells, kept in one contiguous vector in row-major
//! order and seen by its contracts as a sequence of equally long rows.

use vstd::prelude::*;

verus! {

/// Row-major position of cell (`row`, `col`) in a table `cols` wide.
pub open spec fn flat_index(cols: int, row: int, col: int) -> int {
    row * cols + col
}

/// A cell inside the table lies inside the vector.
pub proof fn lemma_flat_index_bound(rows: int, cols: int, row: int, col: int)
    requires
        0 <= row < rows,
        0 <= col < cols,
    ensures
        0 <= flat_index(cols, row, col) < rows * cols,
        flat_index(cols, row, col) + (cols - col) <= rows * cols,
{
    assert(row * cols >= 0) by (nonlinear_arith)
        requires
            0 <= row,
            0 <= cols,
    ;
    assert((row + 1) * cols <= rows * cols) by (nonlinear_arith)
        requires
            row + 1 <= rows,
            0 <= cols,
    ;
    assert((row + 1) * cols == row * cols + cols) by (nonlinear_arith);
}

/// Two different cells never share a place in the vector.
pub proof fn lemma_flat_index_injective(cols: int, r1: int, c1: int, r2: int, c2: int)
    requires
        0 <= c1 < cols,
        0 <= c2 < cols,
        flat_index(cols, r1, c1) == flat_index(cols, r2, c2),
    ensures
        r1 == r2,
        c1 == c2,
{
    if r1 < r2 {
        assert((r1 + 1) * cols <= r2 * cols) by (nonlinear_arith)
            requires
                r1 + 1 <= r2,
                0 <= cols,
        ;
        assert((r1 + 1) * cols == r1 * cols + cols) by (nonlinear_arith);
    } else if r2 < r1 {
        assert((r2 + 1) * cols <= r1 * cols) by (nonlinear_arith)
            requires
                r2 + 1 <= r1,
                0 <= cols,
        ;
        assert((r2 + 1) * cols == r2 * cols + cols) by (nonlinear_arith);
    }
}

/// A table of `rows` by `cols` cells.
pub struct Table<T> {
    rows: usize,
    cols: usize,
    cells: Vec<T>,
}

impl<T: Copy> View for Table<T> {
    type V = Seq<Seq<T>>;

    /// The rows of the table, top to bottom, each a sequence of its cells from
    /// left to right.
    closed spec fn view(&self) -> Seq<Seq<T>> {
        Seq::new(
            self.rows as nat,
            |r: int| Seq::new(self.cols as nat, |c: int| self.cells@[flat_index(self.cols as int, r, c)]),
        )
    }
}

impl<T: Copy> Table<T> {
    /// Number of rows.
    pub closed spec fn spec_rows(&self) -> nat {
        self.rows as nat
    }

    /// Number of cells in each row.
    pub closed spec fn spec_cols(&self) -> nat {
        self.cols as nat
    }

    /// The vector holds exactly the cells of the table.
    pub closed spec fn inv(&self) -> bool {
        self.cells@.len() == self.rows * self.cols
    }

    /// The table is well formed: its view has `spec_rows()` rows of
    /// `spec_cols()` cells each.
    pub open spec fn wf(&self) -> bool {
        &&& self.inv()
        &&& self@.len() == self.spec_rows()
        &&& forall|r: int| 0 <= r < self.spec_rows() ==> (#[trigger] self@[r]).len() == self.spec_cols()
    }

    /// A table of the shape of `shape` with `value` in every cell.
    pub fn filled_like<U: Copy>(shape: &Table<U>, value: T) -> (table: Table<T>)
        requires
            shape.wf(),
        ensures
            table.wf(),
            table.spec_rows() == shape.spec_rows(),
            table.spec_cols() == shape.spec_cols(),
            forall|r: int, c: int|
                0 <= r < table.spec_rows() && 0 <= c < table.spec_cols() ==> #[trigger] table@[r][c]
                    == value,
    {
        let n: usize = shape.cells.len();
        let mut cells: Vec<T> = Vec::new();
        while cells.len() < n
            invariant
                cells.len() <= n,
                forall|i: int| 0 <= i < cells.len() ==> cells@[i] == value,
            decreases n - cells.len(),
        {
            cells.push(value);
        }
        let table = Table { rows: shape.rows, cols: shape.cols, cells };
        proof {
            assert forall|r: int, c: int|
                0 <= r < table.spec_rows() && 0 <= c < table.spec_cols() implies #[trigger] table@[r][c]
                == value by {
                lemma_flat_index_bound(table.rows as int, table.cols as int, r, c);
            }
        }
        table
    }

    /// A table holding the given rows, which must all have the length of the
    /// first.
    pub fn from_rows(rows: &Vec<Vec<T>>) -> (table: Table<T>)
        requires
            forall|r: int| 0 <= r < rows@.len() ==> (#[trigger] rows@[r])@.len() == rows@[0]@.len(),
        ensures
            table.wf(),
            table.spec_rows() == rows@.len(),
            rows@.len() > 0 ==> table.spec_cols() == rows@[0]@.len(),
            forall|r: int| 0 <= r < rows@.len() ==> #[trigger] table@[r] == rows@[r]@,
    {
        let height: usize = rows.len();
        let width: usize = if height == 0 {
            0
        } else {
            rows[0].len()
        };
        let mut cells: Vec<T> = Vec::new();
        let mut r: usize = 0;
        while r < height
            invariant
                r <= height,
                height == rows@.len(),
                forall|k: int| 0 <= k < rows@.len() ==> (#[trigger] rows@[k])@.len() == width,
                cells@.len() == r * width,
                forall|k: int, c: int|
                    0 <= k < r && 0 <= c < width ==> cells@[#[trigger] flat_index(width as int, k, c)]
                        == rows@[k]@[c],
            decreases height - r,
        {
            let row = &rows[r];
            let mut c: usize = 0;
            while c < width
                invariant
                    c <= width,
                    r < height,
                    row@.len() == width,
                    row@ == rows@[r as int]@,
                    cells@.len() == r * width + c,
                    forall|k: int, j: int|
                        0 <= k < r && 0 <= j < width ==> cells@[#[trigger] flat_index(
                            width as int,
                            k,
                            j,
                        )] == rows@[k]@[j],
                    forall|j: int|
                        0 <= j < c ==> cells@[#[trigger] flat_index(width as int, r as int, j)]
                            == row@[j],
                decreases width - c,
            {
                proof {
                    assert forall|k: int, j: int| 0 <= k < r && 0 <= j < width implies flat_index(
                        width as int,
                        k,
                        j,
                    ) < cells@.len() by {
                        lemma_flat_index_bound(r as int, width as int, k, j);
                    }
                }
                cells.push(row[c]);
                c += 1;
            }
            proof {
                assert((r + 1) * width == r * width + width) by (nonlinear_arith);
            }
            r += 1;
        }
        let table = Table { rows: height, cols: width, cells };
        proof {
            assert forall|k: int| 0 <= k < rows@.len() implies #[trigger] table@[k] == rows@[k]@ by {
                assert(table@[k] =~= rows@[k]@);
            }
        }
        table
    }

    /// Number of rows.
    pub fn rows(&self) -> (n: usize)
        ensures
            n == self.spec_rows(),
    {
        self.rows
    }

    /// Number of cells in each row.
    pub fn cols(&self) -> (n: usize)
        ensures
            n == self.spec_cols(),
    {
        self.cols
    }

    /// Number of cells.
    pub fn cell_count(&self) -> (n: usize)
        requires
            self.wf(),
        ensures
            n == self.spec_rows() * self.spec_cols(),
    {
        self.cells.len()
    }

    /// The cell at (`row`, `col`).
    pub fn get(&self, row: usize, col: usize) -> (value: T)
        requires
            self.wf(),
            row < self.spec_rows(),
            col < self.spec_cols(),
        ensures
            value == self@[row as int][col as int],
    {
        let n: usize = self.cells.len();
        proof {
            lemma_flat_index_bound(self.rows as int, self.cols as int, row as int, col as int);
            assert(row * self.cols >= 0) by (nonlinear_arith);
            assert(n == self.rows * self.cols);
        }
        self.cells[row * self.cols + col]
    }

    /// Overwrites the cell at (`row`, `col`) and leaves every other cell as it
    /// was.
    pub fn set(&mut self, row: usize, col: usize, value: T)
        requires
            old(self).wf(),
            row < old(self).spec_rows(),
            col < old(self).spec_cols(),
        ensures
            final(self).wf(),
            final(self).spec_rows() == old(self).spec_rows(),
            final(self).spec_cols() == old(self).spec_cols(),
            final(self)@ == old(self)@.update(row as int, old(self)@[row as int].update(col as int, value)),
    {
        let n: usize = self.cells.len();
        proof {
            lemma_flat_index_bound(self.rows as int, self.cols as int, row as int, col as int);
            assert(row * self.cols >= 0) by (nonlinear_arith);
            assert(n == self.rows * self.cols);
        }
        let i: usize = row * self.cols + col;
        self.cells.set(i, value);
        proof {
            let cols = self.cols as int;
            let want = old(self)@.update(row as int, old(self)@[row as int].update(col as int, value));
            assert(self@.len() == want.len());
            assert forall|r: int| 0 <= r < self.rows implies #[trigger] self@[r] =~= want[r] by {
                assert forall|c: int| 0 <= c < cols implies self@[r][c] == want[r][c] by {
                    lemma_flat_index_bound(self.rows as int, cols, r, c);
                    if flat_index(cols, r, c) == flat_index(cols, row as int, col as int) {
                        lemma_flat_index_injective(cols, r, c, row as int, col as int);
                    }
                }
            }
            assert(self@ =~= want);
        }
    }
}

} // verus!
