//! Dense matrices with checked shapes and finite arithmetic.
//!
//! Arithmetic writes into buffers of the exact result shape that the caller
//! provides, refuses operands that are not finite, and reports results that
//! are not.
use crate::binary64::{Binary64, ONE};
use crate::grid;
use crate::grid::Grid;
use crate::scaled::CompensatedSum;
use crate::text;
use crate::text::Notation;
use vstd::prelude::*;
use vstd::string::*;

verus! {

/// The operand in which a value that is not finite was found.
#[derive(Debug, Clone, Copy, PartialEq, Eq, Structural)]
pub enum MatrixOperand {
    /// Left-hand matrix of elementwise or multiplicative arithmetic.
    LeftHandSide,
    /// Coefficient matrix of a linear solve.
    CoefficientMatrix,
    /// Right-hand side of arithmetic or of a linear solve.
    RightHandSide,
}

/// Recoverable failure of a matrix operation.
#[allow(inconsistent_fields)]
#[derive(Debug, PartialEq, Eq)]
pub enum MatrixError {
    /// Two operands do not have the shapes that an operation needs.
    DimensionMismatch { operation: &'static str, left: (usize, usize), right: (usize, usize) },
    /// An output buffer does not have the exact result shape.
    OutputShapeMismatch {
        operation: &'static str,
        expected: (usize, usize),
        actual: (usize, usize),
    },
    /// A workspace was made for another coefficient shape.
    WorkspaceShapeMismatch {
        operation: &'static str,
        expected: (usize, usize),
        actual: (usize, usize),
    },
    /// A flat buffer does not hold one element for each position.
    InvalidDataLength { rows: usize, cols: usize, expected: usize, actual: usize },
    /// The sum of two dimensions does not fit a machine word.
    DimensionSumOverflow { operation: &'static str, left: usize, right: usize },
    /// An operand holds a value that is not finite.
    NonFiniteInput { operation: &'static str, operand: MatrixOperand },
    /// A scalar operand is not finite.
    NonFiniteScalar { operation: &'static str },
    /// A factorization met a value that is not finite.
    NonFiniteFactor { operation: &'static str },
    /// Finite operands gave a result that is not finite.
    NonFiniteResult { operation: &'static str },
    /// An iterative factorization used up its sweeps.
    FactorizationDidNotConverge { operation: &'static str, sweeps: usize },
}

impl MatrixOperand {
    /// The operand's name.
    pub open spec fn text(self) -> Seq<char> {
        match self {
            MatrixOperand::LeftHandSide => "left-hand side"@,
            MatrixOperand::CoefficientMatrix => "coefficient matrix"@,
            MatrixOperand::RightHandSide => "right-hand side"@,
        }
    }

    /// The operand's name.
    pub fn name(&self) -> (r: &'static str)
        ensures
            r@ == self.text(),
    {
        match self {
            MatrixOperand::LeftHandSide => "left-hand side",
            MatrixOperand::CoefficientMatrix => "coefficient matrix",
            MatrixOperand::RightHandSide => "right-hand side",
        }
    }
}

impl MatrixError {
    /// The error in words.
    pub open spec fn text(self) -> Seq<char> {
        match self {
            MatrixError::DimensionMismatch { operation, left, right } => {
                "Matrix dimension mismatch for "@ + operation@ + ": left is "@ + text::shape(left)
                    + ", right is "@ + text::shape(right)
            },
            MatrixError::OutputShapeMismatch { operation, expected, actual } => {
                "Output shape mismatch for "@ + operation@ + ": expected "@ + text::shape(expected)
                    + ", got "@ + text::shape(actual)
            },
            MatrixError::WorkspaceShapeMismatch { operation, expected, actual } => {
                "Workspace shape mismatch for "@ + operation@ + ": expected "@ + text::shape(
                    expected,
                ) + ", got "@ + text::shape(actual)
            },
            MatrixError::InvalidDataLength { rows, cols, expected, actual } => {
                "Matrix data length mismatch for shape "@ + text::shape((rows, cols))
                    + ": expected "@ + text::decimal(expected as nat) + ", got "@ + text::decimal(
                    actual as nat,
                )
            },
            MatrixError::DimensionSumOverflow { operation, left, right } => {
                "Matrix dimension sum overflow for "@ + operation@ + ": "@ + text::decimal(
                    left as nat,
                ) + " + "@ + text::decimal(right as nat)
            },
            MatrixError::NonFiniteInput { operation, operand } => {
                "Non-finite "@ + operand.text() + " supplied to "@ + operation@
            },
            MatrixError::NonFiniteScalar { operation } => {
                "Non-finite scalar supplied to "@ + operation@
            },
            MatrixError::NonFiniteFactor { operation } => {
                "Non-finite factor encountered during "@ + operation@
            },
            MatrixError::NonFiniteResult { operation } => {
                "Non-finite result produced during "@ + operation@
            },
            MatrixError::FactorizationDidNotConverge { operation, sweeps } => {
                "Factorization "@ + operation@ + " did not converge after "@ + text::decimal(
                    sweeps as nat,
                ) + " sweeps"@
            },
        }
    }

    /// The error in words.
    pub fn message(&self) -> (r: String)
        ensures
            r@ == self.text(),
    {
        match self {
            MatrixError::DimensionMismatch { operation, left, right } => {
                let mut out = "Matrix dimension mismatch for ".to_owned();
                out.append(operation);
                out.append(": left is ");
                text::append_shape(&mut out, *left);
                out.append(", right is ");
                text::append_shape(&mut out, *right);
                out
            },
            MatrixError::OutputShapeMismatch { operation, expected, actual } => {
                let mut out = "Output shape mismatch for ".to_owned();
                out.append(operation);
                out.append(": expected ");
                text::append_shape(&mut out, *expected);
                out.append(", got ");
                text::append_shape(&mut out, *actual);
                out
            },
            MatrixError::WorkspaceShapeMismatch { operation, expected, actual } => {
                let mut out = "Workspace shape mismatch for ".to_owned();
                out.append(operation);
                out.append(": expected ");
                text::append_shape(&mut out, *expected);
                out.append(", got ");
                text::append_shape(&mut out, *actual);
                out
            },
            MatrixError::InvalidDataLength { rows, cols, expected, actual } => {
                let mut out = "Matrix data length mismatch for shape ".to_owned();
                text::append_shape(&mut out, (*rows, *cols));
                out.append(": expected ");
                text::append_decimal(&mut out, *expected);
                out.append(", got ");
                text::append_decimal(&mut out, *actual);
                out
            },
            MatrixError::DimensionSumOverflow { operation, left, right } => {
                let mut out = "Matrix dimension sum overflow for ".to_owned();
                out.append(operation);
                out.append(": ");
                text::append_decimal(&mut out, *left);
                out.append(" + ");
                text::append_decimal(&mut out, *right);
                out
            },
            MatrixError::NonFiniteInput { operation, operand } => {
                let mut out = "Non-finite ".to_owned();
                out.append(operand.name());
                out.append(" supplied to ");
                out.append(operation);
                out
            },
            MatrixError::NonFiniteScalar { operation } => {
                let mut out = "Non-finite scalar supplied to ".to_owned();
                out.append(operation);
                out
            },
            MatrixError::NonFiniteFactor { operation } => {
                let mut out = "Non-finite factor encountered during ".to_owned();
                out.append(operation);
                out
            },
            MatrixError::NonFiniteResult { operation } => {
                let mut out = "Non-finite result produced during ".to_owned();
                out.append(operation);
                out
            },
            MatrixError::FactorizationDidNotConverge { operation, sweeps } => {
                let mut out = "Factorization ".to_owned();
                out.append(operation);
                out.append(" did not converge after ");
                text::append_decimal(&mut out, *sweeps);
                out.append(" sweeps");
                out
            },
        }
    }
}

impl Clone for MatrixError {
    fn clone(&self) -> (r: MatrixError)
        ensures
            r == *self,
    {
        match self {
            MatrixError::DimensionMismatch { operation, left, right } => {
                MatrixError::DimensionMismatch { operation, left: *left, right: *right }
            },
            MatrixError::OutputShapeMismatch { operation, expected, actual } => {
                MatrixError::OutputShapeMismatch {
                    operation,
                    expected: *expected,
                    actual: *actual,
                }
            },
            MatrixError::WorkspaceShapeMismatch { operation, expected, actual } => {
                MatrixError::WorkspaceShapeMismatch {
                    operation,
                    expected: *expected,
                    actual: *actual,
                }
            },
            MatrixError::InvalidDataLength { rows, cols, expected, actual } => {
                MatrixError::InvalidDataLength {
                    rows: *rows,
                    cols: *cols,
                    expected: *expected,
                    actual: *actual,
                }
            },
            MatrixError::DimensionSumOverflow { operation, left, right } => {
                MatrixError::DimensionSumOverflow { operation, left: *left, right: *right }
            },
            MatrixError::NonFiniteInput { operation, operand } => {
                MatrixError::NonFiniteInput { operation, operand: *operand }
            },
            MatrixError::NonFiniteScalar { operation } => MatrixError::NonFiniteScalar {
                operation,
            },
            MatrixError::NonFiniteFactor { operation } => MatrixError::NonFiniteFactor {
                operation,
            },
            MatrixError::NonFiniteResult { operation } => MatrixError::NonFiniteResult {
                operation,
            },
            MatrixError::FactorizationDidNotConverge { operation, sweeps } => {
                MatrixError::FactorizationDidNotConverge { operation, sweeps: *sweeps }
            },
        }
    }
}

/// Dense matrix, stored row by row.
#[derive(Debug, PartialEq)]
pub struct Matrix {
    data: Vec<Binary64>,
    rows: usize,
    cols: usize,
}

impl View for Matrix {
    type V = Grid;

    closed spec fn view(&self) -> Grid {
        Grid { rows: self.rows as nat, cols: self.cols as nat, cells: self.data@ }
    }
}

/// Progress of a norm: stopped at a value that is not finite, or the largest
/// magnitude so far and the sum of squares relative to it.
pub enum NormState {
    Stopped(Binary64),
    Running(Binary64, Binary64),
}

/// The norm's progress after one more element.
pub open spec fn norm_step(state: NormState, value: Binary64) -> NormState {
    let magnitude = value.magnitude();
    match state {
        NormState::Stopped(result) => NormState::Stopped(result),
        NormState::Running(scale, sum) => if magnitude.nan() {
            NormState::Stopped(Binary64::not_a_number())
        } else if magnitude.infinite() {
            NormState::Stopped(Binary64::infinity())
        } else if magnitude.zero() {
            state
        } else if scale < magnitude {
            let ratio = scale / magnitude;
            NormState::Running(magnitude, Binary64::one() + sum * ratio * ratio)
        } else {
            let ratio = magnitude / scale;
            NormState::Running(scale, sum + ratio * ratio)
        },
    }
}

/// The norm's progress after all the elements.
pub open spec fn norm_state(values: Seq<Binary64>) -> NormState
    decreases values.len(),
{
    if values.len() == 0 {
        NormState::Running(Binary64::zero_value(), Binary64::one())
    } else {
        norm_step(norm_state(values.drop_last()), values.last())
    }
}

/// Euclidean norm by scaled squares.
pub open spec fn norm_of(values: Seq<Binary64>) -> Binary64 {
    match norm_state(values) {
        NormState::Stopped(result) => result,
        NormState::Running(scale, sum) => if scale.zero() {
            Binary64::zero_value()
        } else {
            scale * sum.square_root()
        },
    }
}

/// A stopped norm stays stopped.
proof fn lemma_norm_stopped(values: Seq<Binary64>, k: int, result: Binary64)
    requires
        0 <= k <= values.len(),
        norm_state(values.take(k)) == NormState::Stopped(result),
    ensures
        norm_state(values) == NormState::Stopped(result),
    decreases values.len() - k,
{
    if k < values.len() {
        let next = values.take(k + 1);
        assert(next.drop_last() =~= values.take(k));
        assert(norm_state(next) == NormState::Stopped(result));
        lemma_norm_stopped(values, k + 1, result);
    } else {
        assert(values.take(k) =~= values);
    }
}

proof fn lemma_norm_running(values: Seq<Binary64>)
    ensures
        match norm_state(values) {
            NormState::Stopped(result) => !result.finite(),
            NormState::Running(_, _) => grid::all_finite(values),
        },
    decreases values.len(),
{
    if values.len() > 0 {
        let head = values.drop_last();
        lemma_norm_running(head);
        if norm_state(values) is Running {
            assert forall|k: int| 0 <= k < values.len() implies (#[trigger] values[k]).finite() by {
                if k < head.len() {
                    assert(head[k].finite());
                }
            }
        }
    }
}

/// A norm is finite only where every number is.
pub proof fn law_norm_finite(values: Seq<Binary64>)
    requires
        norm_of(values).finite(),
    ensures
        grid::all_finite(values),
{
    lemma_norm_running(values);
}

/// The scale of a norm in progress is zero where all numbers so far are, and
/// the sum of squares stays within bounds.
proof fn lemma_norm_bounds(values: Seq<Binary64>)
    requires
        grid::all_finite(values),
    ensures
        norm_state(values) matches NormState::Running(scale, sum) && {
            &&& scale.finite()
            &&& !scale.negative()
            &&& scale.zero() <==> (forall|k: int|
                0 <= k < values.len() ==> (#[trigger] values[k]).zero())
            &&& !sum.negative()
            &&& ONE <= sum.pattern() <= Binary64::saturated()
        },
    decreases values.len(),
{
    if values.len() > 0 {
        let head = values.drop_last();
        assert forall|k: int| 0 <= k < head.len() implies (#[trigger] head[k]).finite() by {
            assert(head[k] == values[k]);
        }
        lemma_norm_bounds(head);
        let last = values[values.len() - 1];
        assert(last.finite());
        let magnitude = last.magnitude();
        if let NormState::Running(scale, sum) = norm_state(head) {
            let flat = forall|k: int| 0 <= k < values.len() ==> (#[trigger] values[k]).zero();
            assert(flat <==> last.zero() && scale.zero()) by {
                if scale.zero() && last.zero() {
                    assert forall|k: int| 0 <= k < values.len() implies (
                    #[trigger] values[k]).zero() by {
                        if k < head.len() {
                            assert(head[k].zero());
                        }
                    }
                }
                if flat {
                    assert forall|k: int| 0 <= k < head.len() implies (
                    #[trigger] head[k]).zero() by {
                        assert(values[k].zero());
                    }
                }
            }
            if magnitude.zero() {
            } else if scale < magnitude {
                let ratio = scale / magnitude;
                Binary64::lemma_over_larger(scale, magnitude);
                Binary64::lemma_times_unit(sum, ratio);
                Binary64::lemma_times_unit(sum * ratio, ratio);
                let rest = sum * ratio * ratio;
                Binary64::law_sum_commutes(Binary64::one(), rest);
                Binary64::lemma_plus_unit(rest, Binary64::one());
                Binary64::lemma_one_plus(rest);
            } else {
                let ratio = magnitude / scale;
                Binary64::lemma_over_larger(magnitude, scale);
                Binary64::lemma_times_unit(ratio, ratio);
                Binary64::lemma_plus_unit(sum, ratio * ratio);
            }
        }
    }
}

/// Of finite numbers the norm is a number without a negative sign, and it is
/// zero exactly where all of them are.
pub proof fn law_norm_zero(values: Seq<Binary64>)
    requires
        grid::all_finite(values),
    ensures
        !norm_of(values).nan(),
        !norm_of(values).negative(),
        norm_of(values).zero() <==> (forall|k: int|
            0 <= k < values.len() ==> (#[trigger] values[k]).zero()),
{
    lemma_norm_bounds(values);
    if let NormState::Running(scale, sum) = norm_state(values) {
        Binary64::lemma_root_of_large(sum);
        Binary64::lemma_times_large(scale, sum.square_root());
    }
}

/// Numbers that differ at most where neither is a number have one norm.
pub proof fn lemma_norm_alike(a: Seq<Binary64>, b: Seq<Binary64>)
    requires
        a.len() == b.len(),
        forall|k: int| 0 <= k < a.len() ==> #[trigger] a[k] == b[k] || (a[k].nan() && b[k].nan()),
    ensures
        norm_of(a) == norm_of(b),
        norm_state(a) == norm_state(b),
    decreases a.len(),
{
    if a.len() > 0 {
        let x = a.drop_last();
        let y = b.drop_last();
        assert forall|k: int| 0 <= k < x.len() implies #[trigger] x[k] == y[k] || (x[k].nan()
            && y[k].nan()) by {
            assert(x[k] == a[k]);
        }
        lemma_norm_alike(x, y);
        assert(a[a.len() - 1] == b[b.len() - 1] || (a.last().nan() && b.last().nan()));
    }
}

/// What a checked operation leaves behind: all cells of `target` where they are
/// finite, else an error and the cells before the first that is not.
pub open spec fn stores(
    operation: &'static str,
    before: Grid,
    target: Grid,
    result: Result<(), MatrixError>,
    after: Grid,
) -> bool {
    match result {
        Ok(_) => target.finite() && after == target,
        Err(error) => {
            &&& error == (MatrixError::NonFiniteResult { operation })
            &&& exists|k: int|
                0 <= k < target.cells.len() && !(#[trigger] target.cells[k]).finite()
                    && grid::all_finite(target.cells.take(k)) && after == (Grid {
                    cells: target.cells.take(k) + before.cells.skip(k),
                    ..before
                })
        },
    }
}

impl Matrix {
    /// A matrix of zeros.
    pub fn new(rows: usize, cols: usize) -> (m: Matrix)
        requires
            rows * cols <= usize::MAX,
        ensures
            m@ == Grid::zeros(rows as nat, cols as nat),
            m@.wf(),
    {
        let count: usize = rows * cols;
        let mut data: Vec<Binary64> = Vec::with_capacity(count);
        let mut i: usize = 0;
        while i < count
            invariant
                i <= count,
                data@ =~= Seq::new(i as nat, |k: int| Binary64::zero_value()),
            decreases count - i,
        {
            data.push(Binary64::zero_value());
            i = i + 1;
        }
        Matrix { data, rows, cols }
    }

    /// A matrix over the elements of a buffer, row by row.
    pub fn from_vec(data: Vec<Binary64>, rows: usize, cols: usize) -> (r: Result<
        Matrix,
        MatrixError,
    >)
        requires
            rows * cols <= usize::MAX,
        ensures
            match r {
                Ok(m) => data@.len() == rows * cols && m@ == (Grid {
                    rows: rows as nat,
                    cols: cols as nat,
                    cells: data@,
                }) && m@.wf(),
                Err(error) => data@.len() != rows * cols && error
                    == (MatrixError::InvalidDataLength {
                    rows,
                    cols,
                    expected: (rows * cols) as usize,
                    actual: data@.len() as usize,
                }),
            },
    {
        let expected: usize = rows * cols;
        let actual: usize = data.len();
        if actual != expected {
            return Err(MatrixError::InvalidDataLength { rows, cols, expected, actual });
        }
        Ok(Matrix { data, rows, cols })
    }

    /// A square identity matrix.
    pub fn identity(size: usize) -> (m: Matrix)
        requires
            size * size <= usize::MAX,
        ensures
            m@ == Grid::identity(size as nat),
            m@.wf(),
    {
        let mut m = Matrix::new(size, size);
        m.set_diagonal(size);
        m
    }

    /// Set every element to zero.
    pub(crate) fn clear(&mut self)
        requires
            old(self)@.wf(),
        ensures
            final(self)@ == Grid::zeros(old(self)@.rows, old(self)@.cols),
            final(self)@.wf(),
    {
        let mut i: usize = 0;
        let ghost count = self.data@.len();
        while i < self.data.len()
            invariant
                i <= count,
                self.data@.len() == count,
                self.rows == old(self).rows,
                self.cols == old(self).cols,
                count == self.rows * self.cols,
                forall|k: int| 0 <= k < i ==> #[trigger] self.data@[k] == Binary64::zero_value(),
            decreases count - i,
        {
            self.data.set(i, Binary64::zero_value());
            i = i + 1;
        }
        assert(self@ =~= Grid::zeros(old(self)@.rows, old(self)@.cols));
    }

    /// Overwrite a square matrix with the identity.
    pub(crate) fn reset_identity(&mut self)
        requires
            old(self)@.wf(),
            old(self)@.rows == old(self)@.cols,
        ensures
            final(self)@ == Grid::identity(old(self)@.rows),
            final(self)@.wf(),
    {
        self.clear();
        let size: usize = self.rows;
        self.set_diagonal(size);
    }

    /// Set the diagonal of a square matrix of zeros to one.
    fn set_diagonal(&mut self, size: usize)
        requires
            old(self)@ == Grid::zeros(size as nat, size as nat),
        ensures
            final(self)@ == Grid::identity(size as nat),
            final(self)@.wf(),
    {
        let mut i: usize = 0;
        proof {
            assert forall|r: int, c: int| 0 <= r < size && 0 <= c < size implies #[trigger] self@.at(
                r,
                c,
            ) == Binary64::zero_value() by {
                grid::lemma_index(r, c, size as int, size as int);
            }
        }
        while i < size
            invariant
                i <= size,
                self@.wf(),
                self@.rows == size,
                self@.cols == size,
                forall|r: int, c: int|
                    0 <= r < size && 0 <= c < size ==> #[trigger] self@.at(r, c) == if r == c && r < i {
                        Binary64::one()
                    } else {
                        Binary64::zero_value()
                    },
            decreases size - i,
        {
            self.set(i, i, Binary64::one());
            i = i + 1;
        }
        proof {
            let target = Grid::identity(size as nat);
            assert forall|r: int, c: int| 0 <= r < size && 0 <= c < size implies #[trigger] self@.at(
                r,
                c,
            ) == target.at(r, c) by {
                grid::lemma_index(r, c, size as int, size as int);
            }
            grid::lemma_grids_equal(self@, target);
        }
    }

    /// Number of rows.
    pub fn rows(&self) -> (r: usize)
        ensures
            r == self@.rows,
    {
        self.rows
    }

    /// Number of columns.
    pub fn cols(&self) -> (r: usize)
        ensures
            r == self@.cols,
    {
        self.cols
    }

    /// Number of stored elements.
    fn count(&self) -> (r: usize)
        ensures
            r == self@.cells.len(),
    {
        self.data.len()
    }

    /// Index of a position in the stored elements.
    fn offset(&self, row: usize, col: usize) -> (k: usize)
        requires
            self@.wf(),
            row < self@.rows,
            col < self@.cols,
        ensures
            k == row * self@.cols + col,
            k < self@.cells.len(),
    {
        proof {
            grid::lemma_index(row as int, col as int, self.rows as int, self.cols as int);
            assert(row * self.cols >= 0) by (nonlinear_arith);
            assert(self.data@.len() == self.data.len());
        }
        let _count: usize = self.data.len();
        row * self.cols + col
    }

    /// The elements, row by row.
    pub fn elements(&self) -> (r: &[Binary64])
        ensures
            r@ == self@.cells,
    {
        self.data.as_slice()
    }

    /// The element at a position.
    pub fn get(&self, row: usize, col: usize) -> (value: Binary64)
        requires
            self@.wf(),
            row < self@.rows,
            col < self@.cols,
        ensures
            value == self@.at(row as int, col as int),
    {
        let k: usize = self.offset(row, col);
        self.data[k]
    }

    /// Replace the element at a position.
    pub fn set(&mut self, row: usize, col: usize, value: Binary64)
        requires
            old(self)@.wf(),
            row < old(self)@.rows,
            col < old(self)@.cols,
        ensures
            final(self)@ == old(self)@.with(row as int, col as int, value),
            final(self)@.wf(),
            forall|i: int, j: int|
                0 <= i < old(self)@.rows && 0 <= j < old(self)@.cols ==> #[trigger] final(self)@.at(
                    i,
                    j,
                ) == if i == row && j == col {
                    value
                } else {
                    old(self)@.at(i, j)
                },
    {
        proof {
            grid::lemma_with(self@, row as int, col as int, value);
        }
        let k: usize = self.offset(row, col);
        self.data.set(k, value);
        assert(self@ =~= old(self)@.with(row as int, col as int, value));
    }
}

/// A shape as machine words.
pub open spec fn shape_of(g: Grid) -> (usize, usize) {
    (g.rows as usize, g.cols as usize)
}

/// The error for an output buffer of another shape.
pub open spec fn shape_refusal(
    operation: &'static str,
    expected: (usize, usize),
    output: Grid,
) -> Option<MatrixError> {
    if shape_of(output) != expected {
        Some(MatrixError::OutputShapeMismatch { operation, expected, actual: shape_of(output) })
    } else {
        None
    }
}

/// The error for operands of elementwise arithmetic, the first that applies.
pub open spec fn elementwise_refusal(
    operation: &'static str,
    left: Grid,
    right: Grid,
    output: Grid,
) -> Option<MatrixError> {
    if left.shape() != right.shape() {
        Some(
            MatrixError::DimensionMismatch {
                operation,
                left: shape_of(left),
                right: shape_of(right),
            },
        )
    } else if shape_refusal(operation, shape_of(left), output) is Some {
        shape_refusal(operation, shape_of(left), output)
    } else if !left.finite() {
        Some(MatrixError::NonFiniteInput { operation, operand: MatrixOperand::LeftHandSide })
    } else if !right.finite() {
        Some(MatrixError::NonFiniteInput { operation, operand: MatrixOperand::RightHandSide })
    } else {
        None
    }
}

/// The error for operands of a matrix product, the first that applies.
pub open spec fn product_refusal(
    operation: &'static str,
    left: Grid,
    right: Grid,
    output: Grid,
) -> Option<MatrixError> {
    let expected = (left.rows as usize, right.cols as usize);
    if left.cols != right.rows {
        Some(
            MatrixError::DimensionMismatch {
                operation,
                left: shape_of(left),
                right: shape_of(right),
            },
        )
    } else if shape_refusal(operation, expected, output) is Some {
        shape_refusal(operation, expected, output)
    } else if !left.finite() {
        Some(MatrixError::NonFiniteInput { operation, operand: MatrixOperand::LeftHandSide })
    } else if !right.finite() {
        Some(MatrixError::NonFiniteInput { operation, operand: MatrixOperand::RightHandSide })
    } else {
        None
    }
}

/// The error for operands of a scalar multiple, the first that applies.
pub open spec fn scale_refusal(
    operation: &'static str,
    matrix: Grid,
    scalar: Binary64,
    output: Grid,
) -> Option<MatrixError> {
    if shape_refusal(operation, shape_of(matrix), output) is Some {
        shape_refusal(operation, shape_of(matrix), output)
    } else if !matrix.finite() {
        Some(MatrixError::NonFiniteInput { operation, operand: MatrixOperand::LeftHandSide })
    } else if !scalar.finite() {
        Some(MatrixError::NonFiniteScalar { operation })
    } else {
        None
    }
}

impl Clone for Matrix {
    fn clone(&self) -> (r: Matrix)
        ensures
            r@ == self@,
    {
        let mut data: Vec<Binary64> = Vec::with_capacity(self.data.len());
        let mut i: usize = 0;
        while i < self.data.len()
            invariant
                i <= self.data.len(),
                data@ =~= self.data@.take(i as int),
            decreases self.data.len() - i,
        {
            data.push(self.data[i]);
            i = i + 1;
        }
        assert(data@ =~= self.data@);
        Matrix { data, rows: self.rows, cols: self.cols }
    }
}

impl Matrix {
    /// Every element is finite.
    pub fn all_finite(&self) -> (r: bool)
        ensures
            r == self@.finite(),
    {
        let mut i: usize = 0;
        while i < self.data.len()
            invariant
                i <= self.data.len(),
                forall|k: int| 0 <= k < i ==> (#[trigger] self.data@[k]).finite(),
            decreases self.data.len() - i,
        {
            if !self.data[i].is_finite() {
                return false;
            }
            i = i + 1;
        }
        true
    }

    pub(crate) fn require_output_shape(
        output: &Matrix,
        expected: (usize, usize),
        operation: &'static str,
    ) -> (r: Result<(), MatrixError>)
        ensures
            match shape_refusal(operation, expected, output@) {
                Some(error) => r == Err::<(), MatrixError>(error),
                None => r is Ok,
            },
            r is Ok ==> output@.rows == expected.0 && output@.cols == expected.1,
    {
        if output.rows != expected.0 || output.cols != expected.1 {
            return Err(
                MatrixError::OutputShapeMismatch {
                    operation,
                    expected,
                    actual: (output.rows, output.cols),
                },
            );
        }
        Ok(())
    }

    fn require_finite_input(input: &Matrix, operation: &'static str, operand: MatrixOperand) -> (r:
        Result<(), MatrixError>)
        ensures
            r == if input@.finite() {
                Ok::<(), MatrixError>(())
            } else {
                Err(MatrixError::NonFiniteInput { operation, operand })
            },
    {
        if !input.all_finite() {
            return Err(MatrixError::NonFiniteInput { operation, operand });
        }
        Ok(())
    }

    /// Largest magnitude of an element, zero where there is none.
    pub(crate) fn largest_magnitude(&self) -> (r: Binary64)
        ensures
            r == grid::largest(self@.cells),
    {
        let mut r = Binary64::zero_value();
        let mut i: usize = 0;
        assert(self.data@.take(0) =~= Seq::empty());
        while i < self.data.len()
            invariant
                i <= self.data.len(),
                r == grid::largest(self.data@.take(i as int)),
            decreases self.data.len() - i,
        {
            proof {
                let next = self.data@.take(i + 1);
                assert(next.drop_last() =~= self.data@.take(i as int));
                assert(next.last() == self.data@[i as int]);
            }
            r = r.max(self.data[i].abs());
            i = i + 1;
        }
        assert(self.data@.take(i as int) =~= self.data@);
        r
    }

    /// Copy the transpose into a buffer of its shape.
    pub fn transpose_into(&self, output: &mut Matrix) -> (r: Result<(), MatrixError>)
        requires
            self@.wf(),
            old(output)@.wf(),
        ensures
            match shape_refusal(
                "transpose",
                (self@.cols as usize, self@.rows as usize),
                old(output)@,
            ) {
                Some(error) => r == Err::<(), MatrixError>(error) && final(output)@ == old(
                    output,
                )@,
                None => r is Ok && final(output)@ == self@.transposed(),
            },
            final(output)@.wf(),
    {
        match Self::require_output_shape(output, (self.cols, self.rows), "transpose") {
            Err(error) => {
                return Err(error);
            },
            Ok(_) => {},
        }
        let ghost target = self@.transposed();
        assert(self.rows * self.cols == self.cols * self.rows) by (nonlinear_arith);
        if output.count() == 0 {
            assert(output@ =~= target);
            return Ok(());
        }
        let mut i: usize = 0;
        while i < self.rows
            invariant
                i <= self.rows,
                self@.wf(),
                output@.wf(),
                output@.rows == self@.cols,
                output@.cols == self@.rows,
                forall|r: int, c: int|
                    0 <= r < output@.rows && 0 <= c < i ==> #[trigger] output@.at(r, c) == self@.at(
                        c,
                        r,
                    ),
            decreases self.rows - i,
        {
            let mut j: usize = 0;
            while j < self.cols
                invariant
                    i < self.rows,
                    j <= self.cols,
                    self@.wf(),
                    output@.wf(),
                    output@.rows == self@.cols,
                    output@.cols == self@.rows,
                    forall|r: int, c: int|
                        0 <= r < output@.rows && 0 <= c < output@.cols && (c < i || (c == i && r
                            < j)) ==> #[trigger] output@.at(r, c) == self@.at(c, r),
                decreases self.cols - j,
            {
                let value = self.get(i, j);
                output.set(j, i, value);
                j = j + 1;
            }
            i = i + 1;
        }
        proof {
            assert forall|r: int, c: int|
                0 <= r < output@.rows && 0 <= c < output@.cols implies #[trigger] output@.at(r, c)
                == target.at(r, c) by {
                grid::lemma_index(r, c, target.rows as int, target.cols as int);
            }
            grid::lemma_grids_equal(output@, target);
        }
        Ok(())
    }

    /// Frobenius norm, free of avoidable overflow and underflow. A NaN element
    /// gives NaN and an infinite one infinity, whichever comes first.
    pub fn norm(&self) -> (r: Binary64)
        ensures
            r == norm_of(self@.cells),
    {
        let mut scale = Binary64::zero_value();
        let mut sum = Binary64::one();
        let mut i: usize = 0;
        assert(self.data@.take(0) =~= Seq::empty());
        while i < self.data.len()
            invariant
                i <= self.data.len(),
                norm_state(self.data@.take(i as int)) == NormState::Running(scale, sum),
            decreases self.data.len() - i,
        {
            let magnitude = self.data[i].abs();
            proof {
                let next = self.data@.take(i + 1);
                assert(next.drop_last() =~= self.data@.take(i as int));
                assert(next.last() == self.data@[i as int]);
            }
            if magnitude.is_nan() {
                proof {
                    lemma_norm_stopped(self.data@, i + 1, Binary64::not_a_number());
                }
                return Binary64::from_bits(crate::binary64::NAN);
            }
            if magnitude.is_infinite() {
                proof {
                    lemma_norm_stopped(self.data@, i + 1, Binary64::infinity());
                }
                return Binary64::infinity();
            }
            if magnitude.magnitude_bits() != 0 {
                if scale.less(magnitude) {
                    let ratio = scale / magnitude;
                    sum = Binary64::one() + sum * ratio * ratio;
                    scale = magnitude;
                } else {
                    let ratio = magnitude / scale;
                    sum = sum + ratio * ratio;
                }
            }
            i = i + 1;
        }
        assert(self.data@.take(i as int) =~= self.data@);
        if scale.magnitude_bits() == 0 {
            Binary64::zero_value()
        } else {
            scale * sum.sqrt()
        }
    }

    /// Add two matrices into a buffer of their shape.
    #[verifier::loop_isolation(false)]
    pub fn add_into(&self, rhs: &Matrix, output: &mut Matrix) -> (r: Result<(), MatrixError>)
        requires
            self@.wf(),
            rhs@.wf(),
            old(output)@.wf(),
        ensures
            match elementwise_refusal("add", self@, rhs@, old(output)@) {
                Some(error) => r == Err::<(), MatrixError>(error) && final(output)@ == old(
                    output,
                )@,
                None => stores("add", old(output)@, self@.plus(rhs@), r, final(output)@),
            },
            final(output)@.wf(),
            final(output)@.shape() == old(output)@.shape(),
    {
        if self.rows != rhs.rows || self.cols != rhs.cols {
            return Err(
                MatrixError::DimensionMismatch {
                    operation: "add",
                    left: (self.rows, self.cols),
                    right: (rhs.rows, rhs.cols),
                },
            );
        }
        match Self::require_output_shape(output, (self.rows, self.cols), "add") {
            Err(error) => {
                return Err(error);
            },
            Ok(_) => {},
        }
        match Self::require_finite_input(self, "add", MatrixOperand::LeftHandSide) {
            Err(error) => {
                return Err(error);
            },
            Ok(_) => {},
        }
        match Self::require_finite_input(rhs, "add", MatrixOperand::RightHandSide) {
            Err(error) => {
                return Err(error);
            },
            Ok(_) => {},
        }
        let ghost target = self@.plus(rhs@);
        let ghost before = output@;
        let mut i: usize = 0;
        while i < self.data.len()
            invariant
                i <= self.data.len(),
                self@.wf(),
                rhs.data@.len() == self.data@.len(),
                before.cells.len() == self.data@.len(),
                target == self@.plus(rhs@),
                output@.rows == before.rows,
                output@.cols == before.cols,
                output@.cells =~= target.cells.take(i as int) + before.cells.skip(i as int),
                grid::all_finite(target.cells.take(i as int)),
            decreases self.data.len() - i,
        {
            let value = self.data[i] + rhs.data[i];
            assert(target.cells[i as int] == value);
            if !value.is_finite() {
                return Err(MatrixError::NonFiniteResult { operation: "add" });
            }
            output.data.set(i, value);
            assert forall|k: int| 0 <= k < i + 1 implies (#[trigger] target.cells.take(
                i + 1,
            )[k]).finite() by {
                if k < i {
                    assert(target.cells.take(i as int)[k] == target.cells[k]);
                }
            }
            i = i + 1;
        }
        assert(target.cells.take(i as int) =~= target.cells);
        assert(output@ =~= target);
        Ok(())
    }

    /// Subtract two matrices into a buffer of their shape.
    #[verifier::loop_isolation(false)]
    pub fn sub_into(&self, rhs: &Matrix, output: &mut Matrix) -> (r: Result<(), MatrixError>)
        requires
            self@.wf(),
            rhs@.wf(),
            old(output)@.wf(),
        ensures
            match elementwise_refusal("sub", self@, rhs@, old(output)@) {
                Some(error) => r == Err::<(), MatrixError>(error) && final(output)@ == old(
                    output,
                )@,
                None => stores("sub", old(output)@, self@.minus(rhs@), r, final(output)@),
            },
            final(output)@.wf(),
            final(output)@.shape() == old(output)@.shape(),
    {
        if self.rows != rhs.rows || self.cols != rhs.cols {
            return Err(
                MatrixError::DimensionMismatch {
                    operation: "sub",
                    left: (self.rows, self.cols),
                    right: (rhs.rows, rhs.cols),
                },
            );
        }
        match Self::require_output_shape(output, (self.rows, self.cols), "sub") {
            Err(error) => {
                return Err(error);
            },
            Ok(_) => {},
        }
        match Self::require_finite_input(self, "sub", MatrixOperand::LeftHandSide) {
            Err(error) => {
                return Err(error);
            },
            Ok(_) => {},
        }
        match Self::require_finite_input(rhs, "sub", MatrixOperand::RightHandSide) {
            Err(error) => {
                return Err(error);
            },
            Ok(_) => {},
        }
        let ghost target = self@.minus(rhs@);
        let ghost before = output@;
        let mut i: usize = 0;
        while i < self.data.len()
            invariant
                i <= self.data.len(),
                self@.wf(),
                rhs.data@.len() == self.data@.len(),
                before.cells.len() == self.data@.len(),
                target == self@.minus(rhs@),
                output@.rows == before.rows,
                output@.cols == before.cols,
                output@.cells =~= target.cells.take(i as int) + before.cells.skip(i as int),
                grid::all_finite(target.cells.take(i as int)),
            decreases self.data.len() - i,
        {
            let value = self.data[i] - rhs.data[i];
            assert(target.cells[i as int] == value);
            if !value.is_finite() {
                return Err(MatrixError::NonFiniteResult { operation: "sub" });
            }
            output.data.set(i, value);
            assert forall|k: int| 0 <= k < i + 1 implies (#[trigger] target.cells.take(
                i + 1,
            )[k]).finite() by {
                if k < i {
                    assert(target.cells.take(i as int)[k] == target.cells[k]);
                }
            }
            i = i + 1;
        }
        assert(target.cells.take(i as int) =~= target.cells);
        assert(output@ =~= target);
        Ok(())
    }

    /// Multiply every element by a scalar into a buffer of the same shape.
    #[verifier::loop_isolation(false)]
    pub fn scale_into(&self, scalar: Binary64, output: &mut Matrix) -> (r: Result<(), MatrixError>)
        requires
            self@.wf(),
            old(output)@.wf(),
        ensures
            match scale_refusal("scale", self@, scalar, old(output)@) {
                Some(error) => r == Err::<(), MatrixError>(error) && final(output)@ == old(
                    output,
                )@,
                None => stores(
                    "scale",
                    old(output)@,
                    self@.scaled_by(scalar),
                    r,
                    final(output)@,
                ),
            },
            final(output)@.wf(),
            final(output)@.shape() == old(output)@.shape(),
    {
        match Self::require_output_shape(output, (self.rows, self.cols), "scale") {
            Err(error) => {
                return Err(error);
            },
            Ok(_) => {},
        }
        match Self::require_finite_input(self, "scale", MatrixOperand::LeftHandSide) {
            Err(error) => {
                return Err(error);
            },
            Ok(_) => {},
        }
        if !scalar.is_finite() {
            return Err(MatrixError::NonFiniteScalar { operation: "scale" });
        }
        let ghost target = self@.scaled_by(scalar);
        let ghost before = output@;
        let mut i: usize = 0;
        while i < self.data.len()
            invariant
                i <= self.data.len(),
                self@.wf(),
                before.cells.len() == self.data@.len(),
                target == self@.scaled_by(scalar),
                output@.rows == before.rows,
                output@.cols == before.cols,
                output@.cells =~= target.cells.take(i as int) + before.cells.skip(i as int),
                grid::all_finite(target.cells.take(i as int)),
            decreases self.data.len() - i,
        {
            let value = self.data[i] * scalar;
            assert(target.cells[i as int] == value);
            if !value.is_finite() {
                return Err(MatrixError::NonFiniteResult { operation: "scale" });
            }
            output.data.set(i, value);
            assert forall|k: int| 0 <= k < i + 1 implies (#[trigger] target.cells.take(
                i + 1,
            )[k]).finite() by {
                if k < i {
                    assert(target.cells.take(i as int)[k] == target.cells[k]);
                }
            }
            i = i + 1;
        }
        assert(target.cells.take(i as int) =~= target.cells);
        assert(output@ =~= target);
        Ok(())
    }
}

impl Matrix {
    /// Compensated dot product of a row of one matrix and a column of another.
    fn row_times_column(&self, i: usize, rhs: &Matrix, j: usize) -> (r: Binary64)
        requires
            self@.wf(),
            rhs@.wf(),
            self@.cols == rhs@.rows,
            i < self@.rows,
            j < rhs@.cols,
        ensures
            r == grid::dot(self@.row(i as int), rhs@.column(j as int)),
    {
        let ghost terms = grid::products(self@.row(i as int), rhs@.column(j as int));
        let mut sum = CompensatedSum::default();
        let mut k: usize = 0;
        assert(terms.take(0) =~= Seq::empty());
        while k < self.cols
            invariant
                k <= self.cols,
                self@.wf(),
                rhs@.wf(),
                self@.cols == rhs@.rows,
                i < self@.rows,
                j < rhs@.cols,
                terms == grid::products(self@.row(i as int), rhs@.column(j as int)),
                sum == CompensatedSum::of(terms.take(k as int)),
            decreases self.cols - k,
        {
            let value = self.get(i, k) * rhs.get(k, j);
            proof {
                let next = terms.take(k + 1);
                assert(next.drop_last() =~= terms.take(k as int));
                assert(next.last() == value);
            }
            sum.add(value);
            k = k + 1;
        }
        assert(terms.take(k as int) =~= terms);
        sum.total()
    }

    /// Multiply two matrices into a buffer of the product's shape.
    #[verifier::loop_isolation(false)]
    #[verifier::rlimit(40)]
    pub fn mul_into(&self, rhs: &Matrix, output: &mut Matrix) -> (r: Result<(), MatrixError>)
        requires
            self@.wf(),
            rhs@.wf(),
            old(output)@.wf(),
        ensures
            match product_refusal("mul", self@, rhs@, old(output)@) {
                Some(error) => r == Err::<(), MatrixError>(error) && final(output)@ == old(
                    output,
                )@,
                None => stores("mul", old(output)@, self@.times(rhs@), r, final(output)@),
            },
            final(output)@.wf(),
            final(output)@.shape() == old(output)@.shape(),
    {
        if self.cols != rhs.rows {
            return Err(
                MatrixError::DimensionMismatch {
                    operation: "mul",
                    left: (self.rows, self.cols),
                    right: (rhs.rows, rhs.cols),
                },
            );
        }
        match Self::require_output_shape(output, (self.rows, rhs.cols), "mul") {
            Err(error) => {
                return Err(error);
            },
            Ok(_) => {},
        }
        match Self::require_finite_input(self, "mul", MatrixOperand::LeftHandSide) {
            Err(error) => {
                return Err(error);
            },
            Ok(_) => {},
        }
        match Self::require_finite_input(rhs, "mul", MatrixOperand::RightHandSide) {
            Err(error) => {
                return Err(error);
            },
            Ok(_) => {},
        }
        let ghost target = self@.times(rhs@);
        let ghost before = output@;
        if output.count() == 0 {
            assert(output@ =~= target);
            return Ok(());
        }
        let mut i: usize = 0;
        assert(output@.cells =~= target.cells.take(0) + before.cells.skip(0));
        while i < self.rows
            invariant
                i <= self.rows,
                output@.rows == before.rows,
                output@.cols == before.cols,
                i * rhs.cols <= target.cells.len(),
                output@.cells =~= target.cells.take(i * rhs.cols) + before.cells.skip(
                    i * rhs.cols,
                ),
                grid::all_finite(target.cells.take(i * rhs.cols)),
            decreases self.rows - i,
        {
            let mut j: usize = 0;
            proof {
                assert((i + 1) * rhs.cols == i * rhs.cols + rhs.cols) by (nonlinear_arith);
                assert((i + 1) * rhs.cols <= self.rows * rhs.cols) by (nonlinear_arith)
                    requires
                        i + 1 <= self.rows,
                ;
            }
            while j < rhs.cols
                invariant
                    i < self.rows,
                    j <= rhs.cols,
                    output@.rows == before.rows,
                    output@.cols == before.cols,
                    output@.cells =~= target.cells.take(i * rhs.cols + j) + before.cells.skip(
                        i * rhs.cols + j,
                    ),
                    grid::all_finite(target.cells.take(i * rhs.cols + j)),
                decreases rhs.cols - j,
            {
                let ghost k = i * rhs.cols + j;
                let value = self.row_times_column(i, rhs, j);
                proof {
                    grid::lemma_filled(
                        self@.rows,
                        rhs@.cols,
                        |r: int, c: int| grid::dot(self@.row(r), rhs@.column(c)),
                        i as int,
                        j as int,
                    );
                    assert(target.cells[k] == value);
                }
                if !value.is_finite() {
                    return Err(MatrixError::NonFiniteResult { operation: "mul" });
                }
                output.set(i, j, value);
                assert forall|n: int| 0 <= n < k + 1 implies (#[trigger] target.cells.take(
                    k + 1,
                )[n]).finite() by {
                    if n < k {
                        assert(target.cells.take(k)[n] == target.cells[n]);
                    }
                }
                j = j + 1;
            }
            i = i + 1;
        }
        assert(target.cells.take(target.cells.len() as int) =~= target.cells);
        assert(output@ =~= target);
        Ok(())
    }
}

impl core::ops::Index<(usize, usize)> for Matrix {
    type Output = Binary64;

    fn index(&self, position: (usize, usize)) -> (r: &Binary64)
        ensures
            *r == self@.at(position.0 as int, position.1 as int),
    {
        let k: usize = self.offset(position.0, position.1);
        &self.data[k]
    }
}

impl vstd::std_specs::core::IndexSpecImpl<(usize, usize)> for Matrix {
    open spec fn index_req(&self, position: &(usize, usize)) -> bool {
        self@.wf() && position.0 < self@.rows && position.1 < self@.cols
    }
}

/// The start of a row's text, up to and with its first `end` cells.
pub open spec fn row_start(cells: Seq<String>, cols: nat, row: int, end: int) -> Seq<char>
    decreases end,
{
    if end <= 0 {
        "["@
    } else {
        row_start(cells, cols, row, end - 1) + if end > 1 {
            ", "@
        } else {
            ""@
        } + cells[row * cols + (end - 1)]@
    }
}

/// The text of the first `end` rows, one line for each.
pub open spec fn rows_text(cells: Seq<String>, cols: nat, end: int) -> Seq<char>
    decreases end,
{
    if end <= 0 {
        ""@
    } else {
        rows_text(cells, cols, end - 1) + row_start(cells, cols, end - 1, cols as int) + "]\n"@
    }
}

impl Matrix {
    /// `text` is a text of the grid: its shape where it has no cells, else a line
    /// for each row with its cells in fixed notation.
    pub open spec fn is_text<N: Notation>(notation: N, g: Grid, text: Seq<char>) -> bool {
        if g.rows == 0 || g.cols == 0 {
            text == "Matrix("@ + text::decimal(g.rows) + "x"@ + text::decimal(g.cols) + ")"@
        } else {
            exists|cells: Seq<String>| #[trigger]
                cells.len() == g.cells.len() && (forall|k: int|
                    0 <= k < cells.len() ==> text::is_fixed(
                        notation,
                        g.cells[k],
                        #[trigger] cells[k],
                    )) && text == rows_text(cells, g.cols, g.rows as int)
        }
    }

    /// The matrix in words.
    #[verifier::rlimit(40)]
    pub fn text<N: Notation>(&self, notation: &N) -> (r: String)
        requires
            self@.wf(),
        ensures
            Self::is_text(*notation, self@, r@),
    {
        let rows: usize = self.rows();
        let cols: usize = self.cols();
        if rows == 0 || cols == 0 {
            let mut out = "Matrix(".to_owned();
            text::append_decimal(&mut out, rows);
            out.append("x");
            text::append_decimal(&mut out, cols);
            out.append(")");
            return out;
        }
        let mut cells: Vec<String> = Vec::new();
        let mut out = "".to_owned();
        let mut i: usize = 0;
        proof {
            assert(0 * cols == 0) by (nonlinear_arith);
        }
        while i < rows
            invariant
                i <= rows,
                cols > 0,
                self@.wf(),
                self@.shape() == (rows as nat, cols as nat),
                cells@.len() == i * cols,
                forall|k: int|
                    0 <= k < cells@.len() ==> text::is_fixed(
                        *notation,
                        self@.cells[k],
                        #[trigger] cells@[k],
                    ),
                out@ == rows_text(cells@, cols as nat, i as int),
            decreases rows - i,
        {
            let ghost before = out@;
            let ghost filled = cells@;
            let mut j: usize = 0;
            out.append("[");
            proof {
                assert(out@ =~= before + row_start(cells@, cols as nat, i as int, 0));
            }
            while j < cols
                invariant
                    i < rows,
                    j <= cols,
                    self@.wf(),
                    self@.shape() == (rows as nat, cols as nat),
                    cells@.len() == i * cols + j,
                    filled.len() == i * cols,
                    cells@.take(i * cols) == filled,
                    forall|k: int|
                        0 <= k < cells@.len() ==> text::is_fixed(
                            *notation,
                            self@.cells[k],
                            #[trigger] cells@[k],
                        ),
                    out@ == before + row_start(cells@, cols as nat, i as int, j as int),
                decreases cols - j,
            {
                let ghost previous = cells@;
                proof {
                    grid::lemma_index(i as int, j as int, rows as int, cols as int);
                    assert(0 <= i * cols) by (nonlinear_arith);
                }
                if j > 0 {
                    out.append(", ");
                }
                let value = self.get(i, j);
                let cell = notation.fixed(value);
                assert(text::is_fixed(*notation, value, cell));
                out.append(cell.as_str());
                cells.push(cell);
                proof {
                    assert(cells@.take(previous.len() as int) =~= previous);
                    lemma_row_start(previous, cells@, cols as nat, i as int, j as int);
                    assert(cells@.take(i * cols) =~= previous.take(i * cols));
                    assert(cells@[i * cols + j] == cell);
                    let head = row_start(cells@, cols as nat, i as int, j as int);
                    let separator = if j > 0 {
                        ", "@
                    } else {
                        ""@
                    };
                    reveal_strlit("");
                    assert(out@ =~= before + (head + separator + cell@));
                }
                j = j + 1;
            }
            out.append("]\n");
            proof {
                assert((i + 1) * cols == i * cols + cols) by (nonlinear_arith);
                lemma_rows_text(filled, cells@, cols as nat, i as int);
                assert(out@ =~= rows_text(cells@, cols as nat, i + 1));
            }
            i = i + 1;
        }
        assert(cells@.len() == self@.cells.len());
        out
    }
}

/// A row's text depends on the cells up to its end.
proof fn lemma_row_start(a: Seq<String>, b: Seq<String>, cols: nat, row: int, end: int)
    requires
        0 <= end <= cols,
        0 <= row,
        row * cols + end <= a.len(),
        a.len() <= b.len(),
        b.take(a.len() as int) == a,
    ensures
        row_start(a, cols, row, end) == row_start(b, cols, row, end),
    decreases end,
{
    if end > 0 {
        lemma_row_start(a, b, cols, row, end - 1);
        assert(0 <= row * cols) by (nonlinear_arith)
            requires
                0 <= row,
                0 <= cols,
        ;
        assert(b.take(a.len() as int)[row * cols + (end - 1)] == b[row * cols + (end - 1)]);
    }
}

/// The text of some rows depends on their cells alone.
proof fn lemma_rows_text(a: Seq<String>, b: Seq<String>, cols: nat, end: int)
    requires
        0 <= end,
        end * cols <= a.len(),
        a.len() <= b.len(),
        b.take(a.len() as int) == a,
    ensures
        rows_text(a, cols, end) == rows_text(b, cols, end),
    decreases end,
{
    if end > 0 {
        assert(end * cols == (end - 1) * cols + cols) by (nonlinear_arith);
        lemma_rows_text(a, b, cols, end - 1);
        lemma_row_start(a, b, cols, end - 1, cols as int);
    }
}

} // verus!
