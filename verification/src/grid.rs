//! The mathematical model of a matrix: a shape and its cells by rows.
use crate::binary64::Binary64;
use crate::scaled::CompensatedSum;
use vstd::prelude::*;

verus! {

/// A rectangle of numbers, row by row.
#[verifier::ext_equal]
pub struct Grid {
    pub rows: nat,
    pub cols: nat,
    pub cells: Seq<Binary64>,
}

impl Grid {
    /// There is one cell for each position.
    pub open spec fn wf(self) -> bool {
        self.cells.len() == self.rows * self.cols
    }

    /// The cell at a row and a column.
    pub open spec fn at(self, row: int, col: int) -> Binary64 {
        self.cells[row * self.cols + col]
    }

    /// The grid whose cell at each row and column is given by `f`.
    pub open spec fn filled(rows: nat, cols: nat, f: spec_fn(int, int) -> Binary64) -> Grid {
        Grid {
            rows,
            cols,
            cells: Seq::new(rows * cols, |k: int| f(k / (cols as int), k % (cols as int))),
        }
    }

    pub open spec fn zeros(rows: nat, cols: nat) -> Grid {
        Grid { rows, cols, cells: Seq::new(rows * cols, |k: int| Binary64::zero_value()) }
    }

    pub open spec fn identity(size: nat) -> Grid {
        Self::filled(
            size,
            size,
            |i: int, j: int|
                if i == j {
                    Binary64::one()
                } else {
                    Binary64::zero_value()
                },
        )
    }

    /// The grid with rows and columns exchanged.
    pub open spec fn transposed(self) -> Grid {
        Self::filled(self.cols, self.rows, |i: int, j: int| self.at(j, i))
    }

    /// The grid with one cell replaced.
    pub open spec fn with(self, row: int, col: int, value: Binary64) -> Grid {
        Grid { cells: self.cells.update(row * self.cols + col, value), ..self }
    }

    pub open spec fn row(self, i: int) -> Seq<Binary64> {
        Seq::new(self.cols, |j: int| self.at(i, j))
    }

    pub open spec fn column(self, j: int) -> Seq<Binary64> {
        Seq::new(self.rows, |i: int| self.at(i, j))
    }

    pub open spec fn finite(self) -> bool {
        all_finite(self.cells)
    }

    pub open spec fn shape(self) -> (nat, nat) {
        (self.rows, self.cols)
    }

    /// Cell by cell sum.
    pub open spec fn plus(self, rhs: Grid) -> Grid {
        Grid {
            cells: Seq::new(self.cells.len(), |k: int| self.cells[k] + rhs.cells[k]),
            ..self
        }
    }

    /// Cell by cell difference.
    pub open spec fn minus(self, rhs: Grid) -> Grid {
        Grid {
            cells: Seq::new(self.cells.len(), |k: int| self.cells[k] - rhs.cells[k]),
            ..self
        }
    }

    /// Every cell times one number.
    pub open spec fn scaled_by(self, scalar: Binary64) -> Grid {
        Grid { cells: Seq::new(self.cells.len(), |k: int| self.cells[k] * scalar), ..self }
    }

    /// Every cell over one number.
    pub open spec fn divided_by(self, scalar: Binary64) -> Grid {
        Grid { cells: Seq::new(self.cells.len(), |k: int| self.cells[k] / scalar), ..self }
    }

    /// Matrix product; each cell is a compensated dot product.
    pub open spec fn times(self, rhs: Grid) -> Grid {
        Self::filled(
            self.rows,
            rhs.cols,
            |i: int, j: int| dot(self.row(i), rhs.column(j)),
        )
    }
}

pub open spec fn all_finite(values: Seq<Binary64>) -> bool {
    forall|k: int| 0 <= k < values.len() ==> (#[trigger] values[k]).finite()
}

/// The products of two sequences, term by term.
pub open spec fn products(a: Seq<Binary64>, b: Seq<Binary64>) -> Seq<Binary64> {
    Seq::new(a.len(), |k: int| a[k] * b[k])
}

/// Compensated dot product.
pub open spec fn dot(a: Seq<Binary64>, b: Seq<Binary64>) -> Binary64 {
    CompensatedSum::of(products(a, b)).result()
}

/// Every term over one number.
pub open spec fn over(values: Seq<Binary64>, scale: Binary64) -> Seq<Binary64> {
    Seq::new(values.len(), |k: int| values[k] / scale)
}

/// Euclidean length, accumulated from the first term to the last.
pub open spec fn length(values: Seq<Binary64>) -> Binary64
    decreases values.len(),
{
    if values.len() == 0 {
        Binary64::zero_value()
    } else {
        length(values.drop_last()).hypotenuse(values.last())
    }
}

/// The largest magnitude, zero where there is none.
pub open spec fn largest(values: Seq<Binary64>) -> Binary64
    decreases values.len(),
{
    if values.len() == 0 {
        Binary64::zero_value()
    } else {
        largest(values.drop_last()).larger(values.last().magnitude())
    }
}

/// A position within a shape has its own index.
pub proof fn lemma_index(row: int, col: int, rows: int, cols: int)
    requires
        0 <= row < rows,
        0 <= col < cols,
    ensures
        0 <= row * cols + col < rows * cols,
        (row * cols + col) / cols == row,
        (row * cols + col) % cols == col,
{
    assert(0 <= row * cols && row * cols + cols <= rows * cols) by (nonlinear_arith)
        requires
            0 <= row < rows,
            0 < cols,
    ;
    assert(row * cols + col == cols * row + col) by (nonlinear_arith);
    vstd::arithmetic::div_mod::lemma_fundamental_div_mod_converse(
        row * cols + col,
        cols,
        row,
        col,
    );
}

/// An index within a shape has its own position.
pub proof fn lemma_position(k: int, rows: int, cols: int)
    requires
        0 <= k < rows * cols,
        0 <= rows,
        0 <= cols,
    ensures
        0 <= k / cols < rows,
        0 <= k % cols < cols,
        (k / cols) * cols + k % cols == k,
{
    assert(cols > 0) by (nonlinear_arith)
        requires
            0 <= k < rows * cols,
            0 <= cols,
            0 <= rows,
    ;
    vstd::arithmetic::div_mod::lemma_fundamental_div_mod(k, cols);
    vstd::arithmetic::div_mod::lemma_mod_bound(k, cols);
    let q = k / cols;
    assert(cols * q == q * cols) by (nonlinear_arith);
    assert(0 <= q < rows) by (nonlinear_arith)
        requires
            0 <= k < rows * cols,
            k < q * cols + cols,
            q * cols <= k,
            cols > 0,
    ;
}

/// Grids of one shape that agree at every position are equal.
pub proof fn lemma_grids_equal(a: Grid, b: Grid)
    requires
        a.wf(),
        b.wf(),
        a.rows == b.rows,
        a.cols == b.cols,
        forall|i: int, j: int|
            0 <= i < a.rows && 0 <= j < a.cols ==> #[trigger] a.at(i, j) == b.at(i, j),
    ensures
        a == b,
{
    assert forall|k: int| 0 <= k < a.cells.len() implies a.cells[k] == b.cells[k] by {
        lemma_position(k, a.rows as int, a.cols as int);
        let i = k / (a.cols as int);
        let j = k % (a.cols as int);
        assert(a.at(i, j) == b.at(i, j));
    }
    assert(a.cells =~= b.cells);
}

/// A filled grid holds what it was filled with.
pub proof fn lemma_filled(rows: nat, cols: nat, f: spec_fn(int, int) -> Binary64, i: int, j: int)
    requires
        0 <= i < rows,
        0 <= j < cols,
    ensures
        Grid::filled(rows, cols, f).at(i, j) == f(i, j),
{
    lemma_index(i, j, rows as int, cols as int);
}

/// Replacing a cell leaves the other cells as they are.
pub proof fn lemma_with(g: Grid, row: int, col: int, value: Binary64)
    requires
        g.wf(),
        0 <= row < g.rows,
        0 <= col < g.cols,
    ensures
        g.with(row, col, value).wf(),
        forall|i: int, j: int|
            0 <= i < g.rows && 0 <= j < g.cols ==> #[trigger] g.with(row, col, value).at(i, j)
                == if i == row && j == col {
                value
            } else {
                g.at(i, j)
            },
{
    lemma_index(row, col, g.rows as int, g.cols as int);
    assert forall|i: int, j: int| 0 <= i < g.rows && 0 <= j < g.cols implies #[trigger] g.with(
        row,
        col,
        value,
    ).at(i, j) == if i == row && j == col {
        value
    } else {
        g.at(i, j)
    } by {
        lemma_index(i, j, g.rows as int, g.cols as int);
    }
}

/// Exchanging rows and columns twice gives the grid back.
pub proof fn law_transposed_twice(g: Grid)
    requires
        g.wf(),
    ensures
        g.transposed().transposed() == g,
{
    let t = g.transposed();
    let u = t.transposed();
    assert forall|i: int, j: int| 0 <= i < g.rows && 0 <= j < g.cols implies #[trigger] u.at(i, j)
        == g.at(i, j) by {
        lemma_filled(g.rows, g.cols, |i: int, j: int| t.at(j, i), i, j);
        lemma_filled(g.cols, g.rows, |i: int, j: int| g.at(j, i), j, i);
    }
    lemma_grids_equal(u, g);
}

/// Sums of grids do not depend on the order of the terms.
pub proof fn law_plus_commutes(a: Grid, b: Grid)
    requires
        a.shape() == b.shape(),
        a.wf(),
        b.wf(),
    ensures
        a.plus(b) == b.plus(a),
{
    assert forall|k: int| 0 <= k < a.cells.len() implies #[trigger] a.plus(b).cells[k] == b.plus(
        a,
    ).cells[k] by {
        Binary64::law_sum_commutes(a.cells[k], b.cells[k]);
    }
    assert(a.plus(b).cells =~= b.plus(a).cells);
}

} // verus!
