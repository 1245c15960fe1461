use vstd::prelude::*;

verus! {

/// What can be wrong with a matrix operation.
#[derive(Clone, Copy, Debug, PartialEq, Eq, Structural)]
pub enum MatrixError {
    /// The matrix has no inverse: its determinant is (almost) zero.
    NonInvertibleMatrix,
    /// The dimensions of the operands do not fit together.
    MismatchedMatrixShape,
}

/// A `rows` x `columns` matrix whose cells are stored row by row.
#[derive(Clone, Debug, PartialEq)]
pub struct Matrix<T> {
    rows: usize,
    columns: usize,
    cells: Vec<T>,
}

/// The position of row `r`, column `c` among cells stored row by row.
pub open spec fn flat(r: int, c: int, columns: int) -> int {
    r * columns + c
}

proof fn lemma_index_in_range(r: int, c: int, rows: int, columns: int)
    requires
        0 <= r < rows,
        0 <= c < columns,
    ensures
        0 <= r * columns + c < rows * columns,
        r * columns + c + 1 <= rows * columns,
{
    assert(r * columns + c < rows * columns) by (nonlinear_arith)
        requires 0 <= r < rows, 0 <= c < columns;
    assert(0 <= r * columns) by (nonlinear_arith)
        requires 0 <= r, 0 <= columns;
}

impl<T: Copy> Matrix<T> {
    pub closed spec fn spec_rows(&self) -> usize {
        self.rows
    }

    pub closed spec fn spec_columns(&self) -> usize {
        self.columns
    }

    /// The cells, row by row.
    pub closed spec fn cells(&self) -> Seq<T> {
        self.cells@
    }

    /// The cells fill the rows, and their count fits in memory.
    pub closed spec fn wf(&self) -> bool {
        &&& self.cells@.len() == self.rows * self.columns
        &&& self.rows * self.columns <= usize::MAX
    }

    /// The cell in row `r`, column `c`.
    pub open spec fn entry(&self, r: int, c: int) -> T {
        self.cells()[r * self.spec_columns() + c]
    }

    /// What a well-formed matrix's cells are.
    pub proof fn lemma_well_formed(&self)
        requires
            self.wf(),
        ensures
            self.cells().len() == self.spec_rows() * self.spec_columns(),
            self.spec_rows() * self.spec_columns() <= usize::MAX,
    {
    }

    /// A matrix whose every cell is `v`.
    pub fn filled(rows: usize, columns: usize, v: T) -> (m: Matrix<T>)
        requires
            rows * columns <= usize::MAX,
        ensures
            m.wf(),
            m.spec_rows() == rows,
            m.spec_columns() == columns,
            forall|r: int, c: int| 0 <= r < rows && 0 <= c < columns ==> m.entry(r, c) == v,
    {
        let n: usize = rows * columns;
        let mut cells: Vec<T> = Vec::new();
        let mut k: usize = 0;
        while k < n
            invariant
                k <= n,
                cells.len() == k,
                forall|i: int| 0 <= i < k ==> cells@[i] == v,
            decreases n - k,
        {
            cells.push(v);
            k = k + 1;
        }
        let m = Matrix { rows, columns, cells };
        proof {
            assert forall|r: int, c: int| 0 <= r < rows && 0 <= c < columns implies m.entry(r, c) == v by {
                lemma_index_in_range(r, c, rows as int, columns as int);
            }
        }
        m
    }

    /// The matrix with the given cells, row by row; fails when there are not
    /// exactly `rows * columns` of them.
    pub fn new(rows: usize, columns: usize, cell_values: &Vec<T>) -> (r: Result<Matrix<T>, MatrixError>)
        ensures
            match r {
                Ok(m) => m.wf() && m.spec_rows() == rows && m.spec_columns() == columns && m.cells()
                    == cell_values@,
                Err(e) => e == MatrixError::MismatchedMatrixShape,
            },
            r is Ok <==> rows * columns == cell_values.len(),
    {
        match rows.checked_mul(columns) {
            Some(n) => {
                if n != cell_values.len() {
                    return Err(MatrixError::MismatchedMatrixShape);
                }
            },
            None => {
                assert(rows * columns > usize::MAX);
                return Err(MatrixError::MismatchedMatrixShape);
            },
        }
        let mut cells: Vec<T> = Vec::new();
        let mut k: usize = 0;
        while k < cell_values.len()
            invariant
                k <= cell_values.len(),
                cells@ == cell_values@.subrange(0, k as int),
            decreases cell_values.len() - k,
        {
            cells.push(cell_values[k]);
            k = k + 1;
            assert(cells@ =~= cell_values@.subrange(0, k as int));
        }
        assert(cell_values@.subrange(0, k as int) =~= cell_values@);
        Ok(Matrix { rows, columns, cells })
    }

    pub fn rows(&self) -> (r: usize)
        ensures
            r == self.spec_rows(),
    {
        self.rows
    }

    pub fn columns(&self) -> (r: usize)
        ensures
            r == self.spec_columns(),
    {
        self.columns
    }

    /// The cell in row `r`, column `c`.
    pub fn at(&self, r: usize, c: usize) -> (v: T)
        requires
            self.wf(),
            r < self.spec_rows(),
            c < self.spec_columns(),
        ensures
            v == self.entry(r as int, c as int),
    {
        proof {
            lemma_index_in_range(r as int, c as int, self.rows as int, self.columns as int);
        }
        self.cells[r * self.columns + c]
    }

    /// Sets the cell in row `r`, column `c` to `v`.
    pub fn set(&mut self, r: usize, c: usize, v: T)
        requires
            old(self).wf(),
            r < old(self).spec_rows(),
            c < old(self).spec_columns(),
        ensures
            final(self).wf(),
            final(self).spec_rows() == old(self).spec_rows(),
            final(self).spec_columns() == old(self).spec_columns(),
            final(self).cells() == old(self).cells().update(r * old(self).spec_columns() + c, v),
            final(self).entry(r as int, c as int) == v,
            forall|i: int, j: int|
                0 <= i < old(self).spec_rows() && 0 <= j < old(self).spec_columns() && (i != r || j != c)
                    ==> final(self).entry(i, j) == old(self).entry(i, j),
    {
        proof {
            lemma_index_in_range(r as int, c as int, self.rows as int, self.columns as int);
        }
        let k = r * self.columns + c;
        self.cells.set(k, v);
        proof {
            let cols = self.columns as int;
            assert forall|i: int, j: int|
                0 <= i < self.rows && 0 <= j < cols && (i != r || j != c) implies self.entry(i, j)
                    == old(self).entry(i, j) by {
                lemma_index_in_range(i, j, self.rows as int, cols);
                if i * cols + j == r * cols + c {
                    if i < r {
                        assert(i * cols + j < r * cols + c) by (nonlinear_arith)
                            requires i < r, 0 <= j < cols, 0 <= c;
                    } else if i > r {
                        assert(i * cols + j > r * cols + c) by (nonlinear_arith)
                            requires i > r, 0 <= c < cols, 0 <= j;
                    }
                }
            }
        }
    }

    /// The transpose: rows become columns.
    pub fn transpose(&self) -> (m: Matrix<T>)
        requires
            self.wf(),
        ensures
            m.wf(),
            m.spec_rows() == self.spec_columns(),
            m.spec_columns() == self.spec_rows(),
            forall|r: int, c: int|
                0 <= r < m.spec_rows() && 0 <= c < m.spec_columns() ==> m.entry(r, c) == self.entry(c, r),
    {
        let rows = self.columns;
        let columns = self.rows;
        let mut cells: Vec<T> = Vec::new();
        let mut r: usize = 0;
        proof {
            assert(rows * columns == self.rows * self.columns) by (nonlinear_arith)
                requires rows == self.columns, columns == self.rows;
        }
        while r < rows
            invariant
                self.wf(),
                rows == self.columns,
                columns == self.rows,
                rows * columns <= usize::MAX,
                r <= rows,
                cells.len() == r * columns,
                forall|i: int, j: int|
                    0 <= i < r && 0 <= j < columns ==> cells@[#[trigger] flat(i, j, columns as int)] == self.entry(j, i),
            decreases rows - r,
        {
            let mut c: usize = 0;
            while c < columns
                invariant
                    self.wf(),
                    rows == self.columns,
                    columns == self.rows,
                    rows * columns <= usize::MAX,
                    r < rows,
                    c <= columns,
                    cells.len() == r * columns + c,
                    forall|i: int, j: int|
                        0 <= i < r && 0 <= j < columns ==> cells@[#[trigger] flat(i, j, columns as int)] == self.entry(j, i),
                    forall|j: int| 0 <= j < c ==> cells@[#[trigger] flat(r as int, j, columns as int)] == self.entry(j, r as int),
                decreases columns - c,
            {
                let v = self.at(c, r);
                let ghost before = cells@;
                cells.push(v);
                proof {
                    assert forall|i: int, j: int| 0 <= i < r && 0 <= j < columns implies cells@[#[trigger] flat(
                        i,
                        j,
                        columns as int,
                    )] == self.entry(j, i) by {
                        lemma_index_in_range(i, j, r as int, columns as int);
                        assert(cells@[flat(i, j, columns as int)] == before[flat(i, j, columns as int)]);
                    }
                    assert forall|j: int| 0 <= j < c + 1 implies cells@[#[trigger] flat(r as int, j, columns as int)]
                        == self.entry(j, r as int) by {
                        if j < c {
                            assert(cells@[flat(r as int, j, columns as int)] == before[flat(r as int, j, columns as int)]);
                        }
                    }
                }
                c = c + 1;
            }
            proof {
                assert((r + 1) * columns == r * columns + columns) by (nonlinear_arith);
            }
            r = r + 1;
        }
        let m = Matrix { rows, columns, cells };
        proof {
            assert forall|i: int, j: int| 0 <= i < rows && 0 <= j < columns implies m.entry(i, j) == self.entry(
                j,
                i,
            ) by {
                assert(m.entry(i, j) == cells@[flat(i, j, columns as int)]);
            }
        }
        m
    }

    /// The matrix without row `row` and column `column`.
    pub fn submatrix(&self, row: usize, column: usize) -> (m: Matrix<T>)
        requires
            self.wf(),
            row < self.spec_rows(),
            column < self.spec_columns(),
        ensures
            m.wf(),
            m.spec_rows() == self.spec_rows() - 1,
            m.spec_columns() == self.spec_columns() - 1,
            forall|r: int, c: int|
                0 <= r < m.spec_rows() && 0 <= c < m.spec_columns() ==> m.entry(r, c) == self.entry(
                    if r < row { r } else { r + 1 },
                    if c < column { c } else { c + 1 },
                ),
    {
        let rows: usize = self.rows - 1;
        let columns: usize = self.columns - 1;
        proof {
            assert(rows * columns <= self.rows * self.columns) by (nonlinear_arith)
                requires rows == self.rows - 1, columns == self.columns - 1, rows >= 0, columns >= 0;
        }
        let mut cells: Vec<T> = Vec::new();
        let mut r: usize = 0;
        while r < rows
            invariant
                self.wf(),
                rows == self.rows - 1,
                columns == self.columns - 1,
                row < self.rows,
                column < self.columns,
                rows * columns <= usize::MAX,
                r <= rows,
                cells.len() == r * columns,
                forall|i: int, j: int|
                    0 <= i < r && 0 <= j < columns ==> cells@[#[trigger] flat(i, j, columns as int)] == self.entry(
                        if i < row { i } else { i + 1 },
                        if j < column { j } else { j + 1 },
                    ),
            decreases rows - r,
        {
            let from_r: usize = if r < row { r } else { r + 1 };
            let mut c: usize = 0;
            while c < columns
                invariant
                    self.wf(),
                    rows == self.rows - 1,
                    columns == self.columns - 1,
                    row < self.rows,
                    column < self.columns,
                    rows * columns <= usize::MAX,
                    r < rows,
                    from_r == (if r < row { r as int } else { r + 1 }),
                    c <= columns,
                    cells.len() == r * columns + c,
                    forall|i: int, j: int|
                        0 <= i < r && 0 <= j < columns ==> cells@[#[trigger] flat(i, j, columns as int)] == self.entry(
                            if i < row { i } else { i + 1 },
                            if j < column { j } else { j + 1 },
                        ),
                    forall|j: int|
                        0 <= j < c ==> cells@[#[trigger] flat(r as int, j, columns as int)] == self.entry(
                            from_r as int,
                            if j < column { j } else { j + 1 },
                        ),
                decreases columns - c,
            {
                let from_c: usize = if c < column { c } else { c + 1 };
                let v = self.at(from_r, from_c);
                let ghost before = cells@;
                cells.push(v);
                proof {
                    assert forall|i: int, j: int| 0 <= i < r && 0 <= j < columns implies cells@[#[trigger] flat(
                        i,
                        j,
                        columns as int,
                    )] == self.entry(if i < row { i } else { i + 1 }, if j < column { j } else { j + 1 }) by {
                        lemma_index_in_range(i, j, r as int, columns as int);
                        assert(cells@[flat(i, j, columns as int)] == before[flat(i, j, columns as int)]);
                    }
                    assert forall|j: int| 0 <= j < c + 1 implies cells@[#[trigger] flat(r as int, j, columns as int)]
                        == self.entry(from_r as int, if j < column { j } else { j + 1 }) by {
                        if j < c {
                            assert(cells@[flat(r as int, j, columns as int)] == before[flat(r as int, j, columns as int)]);
                        }
                    }
                }
                c = c + 1;
            }
            proof {
                assert((r + 1) * columns == r * columns + columns) by (nonlinear_arith);
            }
            r = r + 1;
        }
        let m = Matrix { rows, columns, cells };
        proof {
            assert forall|i: int, j: int| 0 <= i < rows && 0 <= j < columns implies m.entry(i, j) == self.entry(
                if i < row { i } else { i + 1 },
                if j < column { j } else { j + 1 },
            ) by {
                assert(m.entry(i, j) == cells@[flat(i, j, columns as int)]);
            }
        }
        m
    }
}

} // verus!
