//! First-order measures of the residual norm at one point.
use crate::binary64::Binary64;
use crate::grid;
use crate::grid::Grid;
use crate::matrix;
use crate::matrix::Matrix;
use crate::scaled::CompensatedSum;
use vstd::prelude::*;

verus! {

/// Gradient of the least-squares objective, and how far it is from stationary.
#[derive(Debug, Clone, Copy)]
pub struct ResidualGradientMeasure {
    /// Norm of the gradient.
    pub absolute_norm: Binary64,
    /// Largest magnitude of a cosine between the residuals and a Jacobian
    /// column; none where the residuals are zero.
    pub relative_norm: Option<Binary64>,
}

impl ResidualGradientMeasure {
    /// The point is stationary within a tolerance.
    pub open spec fn stationary(self, tolerance: Binary64) -> bool {
        self.relative_norm matches Some(norm) && norm < tolerance
    }

    /// The point is stationary within a tolerance.
    pub fn is_stationary(self, tolerance: Binary64) -> (r: bool)
        ensures
            r == self.stationary(tolerance),
    {
        match self.relative_norm {
            Some(norm) => norm.less(tolerance),
            None => false,
        }
    }
}

/// Dot product of a column and the residuals, each over its largest magnitude.
pub open spec fn scaled_dot(column: Seq<Binary64>, residuals: Seq<Binary64>) -> Binary64 {
    grid::dot(
        grid::over(column, grid::largest(column)),
        grid::over(residuals, grid::largest(residuals)),
    )
}

/// Magnitude of the cosine between a column and the residuals.
pub open spec fn cosine(column: Seq<Binary64>, residuals: Seq<Binary64>) -> Binary64 {
    (scaled_dot(column, residuals).magnitude() / grid::length(
        grid::over(column, grid::largest(column)),
    ) / grid::length(grid::over(residuals, grid::largest(residuals)))).smaller(Binary64::one())
}

/// Component of the gradient along a column; the smaller scale is multiplied
/// in first.
pub open spec fn component(column: Seq<Binary64>, residuals: Seq<Binary64>) -> Binary64 {
    let column_scale = grid::largest(column);
    let residual_scale = grid::largest(residuals);
    if column_scale < residual_scale {
        (scaled_dot(column, residuals) * column_scale) * residual_scale
    } else {
        (scaled_dot(column, residuals) * residual_scale) * column_scale
    }
}

/// Norm of the gradient and largest cosine over the columns before `end`; zero
/// columns are passed over.
pub open spec fn gradient_over(jacobian: Grid, residuals: Seq<Binary64>, end: int) -> (
    Binary64,
    Binary64,
)
    decreases end,
{
    if end <= 0 {
        (Binary64::zero_value(), Binary64::zero_value())
    } else {
        let head = gradient_over(jacobian, residuals, end - 1);
        let column = jacobian.column(end - 1);
        if grid::largest(column).zero() {
            head
        } else {
            (
                head.0.hypotenuse(component(column, residuals)),
                head.1.larger(cosine(column, residuals)),
            )
        }
    }
}

/// The measures of a Jacobian and residuals.
pub open spec fn gradient_measure(
    jacobian: Grid,
    residuals: Seq<Binary64>,
) -> ResidualGradientMeasure {
    if grid::largest(residuals).zero() {
        ResidualGradientMeasure { absolute_norm: Binary64::zero_value(), relative_norm: None }
    } else {
        let (absolute, cosine) = gradient_over(jacobian, residuals, jacobian.cols as int);
        ResidualGradientMeasure { absolute_norm: absolute, relative_norm: Some(cosine) }
    }
}

/// Largest magnitude in a column.
fn column_scale(m: &Matrix, j: usize) -> (r: Binary64)
    requires
        m@.wf(),
        j < m@.cols,
    ensures
        r == grid::largest(m@.column(j as int)),
{
    let ghost column = m@.column(j as int);
    let mut r = Binary64::zero_value();
    let mut i: usize = 0;
    assert(column.take(0) =~= Seq::empty());
    while i < m.rows()
        invariant
            i <= m@.rows,
            m@.wf(),
            j < m@.cols,
            column == m@.column(j as int),
            r == grid::largest(column.take(i as int)),
        decreases m@.rows - i,
    {
        let value = m.get(i, j);
        proof {
            let next = column.take(i + 1);
            assert(next.drop_last() =~= column.take(i as int));
            assert(next.last() == value);
        }
        r = r.max(value.abs());
        i = i + 1;
    }
    assert(column.take(i as int) =~= column);
    r
}

/// Length of a column over a scale.
fn scaled_column_length(m: &Matrix, j: usize, scale: Binary64) -> (r: Binary64)
    requires
        m@.wf(),
        j < m@.cols,
    ensures
        r == grid::length(grid::over(m@.column(j as int), scale)),
{
    let ghost values = grid::over(m@.column(j as int), scale);
    let mut r = Binary64::zero_value();
    let mut i: usize = 0;
    assert(values.take(0) =~= Seq::empty());
    while i < m.rows()
        invariant
            i <= m@.rows,
            m@.wf(),
            j < m@.cols,
            values == grid::over(m@.column(j as int), scale),
            r == grid::length(values.take(i as int)),
        decreases m@.rows - i,
    {
        let value = m.get(i, j) / scale;
        proof {
            let next = values.take(i + 1);
            assert(next.drop_last() =~= values.take(i as int));
            assert(next.last() == value);
        }
        r = r.hypot(value);
        i = i + 1;
    }
    assert(values.take(i as int) =~= values);
    r
}

/// Compensated dot product of a column and the residuals, each over its scale.
fn scaled_column_dot(
    m: &Matrix,
    j: usize,
    column_scale: Binary64,
    residuals: &Matrix,
    residual_scale: Binary64,
) -> (r: Binary64)
    requires
        m@.wf(),
        residuals@.wf(),
        j < m@.cols,
        residuals@.cols == 1,
        residuals@.rows == m@.rows,
    ensures
        r == grid::dot(
            grid::over(m@.column(j as int), column_scale),
            grid::over(residuals@.column(0), residual_scale),
        ),
{
    let ghost terms = grid::products(
        grid::over(m@.column(j as int), column_scale),
        grid::over(residuals@.column(0), residual_scale),
    );
    let mut sum = CompensatedSum::default();
    let mut i: usize = 0;
    assert(terms.take(0) =~= Seq::empty());
    while i < m.rows()
        invariant
            i <= m@.rows,
            m@.wf(),
            residuals@.wf(),
            j < m@.cols,
            residuals@.cols == 1,
            residuals@.rows == m@.rows,
            terms == grid::products(
                grid::over(m@.column(j as int), column_scale),
                grid::over(residuals@.column(0), residual_scale),
            ),
            sum == CompensatedSum::of(terms.take(i as int)),
        decreases m@.rows - i,
    {
        let value = (m.get(i, j) / column_scale) * (residuals.get(i, 0) / residual_scale);
        proof {
            let next = terms.take(i + 1);
            assert(next.drop_last() =~= terms.take(i as int));
            assert(next.last() == value);
        }
        sum.add(value);
        i = i + 1;
    }
    assert(terms.take(i as int) =~= terms);
    sum.total()
}

/// Gradient norm and largest residual cosine.
pub fn residual_gradient_measure(jacobian: &Matrix, residuals: &Matrix) -> (r:
    ResidualGradientMeasure)
    requires
        jacobian@.wf(),
        residuals@.wf(),
        residuals@.cols == 1,
        residuals@.rows == jacobian@.rows,
    ensures
        r == gradient_measure(jacobian@, residuals@.column(0)),
{
    let ghost column0 = residuals@.column(0);
    let residual_scale = column_scale(residuals, 0);
    if residual_scale.magnitude_bits() == 0 {
        return ResidualGradientMeasure {
            absolute_norm: Binary64::zero_value(),
            relative_norm: None,
        };
    }
    let residual_length = scaled_column_length(residuals, 0, residual_scale);
    let mut absolute_norm = Binary64::zero_value();
    let mut maximum_cosine = Binary64::zero_value();
    let mut j: usize = 0;
    while j < jacobian.cols()
        invariant
            j <= jacobian@.cols,
            jacobian@.wf(),
            residuals@.wf(),
            residuals@.cols == 1,
            residuals@.rows == jacobian@.rows,
            column0 == residuals@.column(0),
            residual_scale == grid::largest(column0),
            residual_length == grid::length(grid::over(column0, residual_scale)),
            (absolute_norm, maximum_cosine) == gradient_over(jacobian@, column0, j as int),
        decreases jacobian@.cols - j,
    {
        let scale = column_scale(jacobian, j);
        if scale.magnitude_bits() != 0 {
            let column_length = scaled_column_length(jacobian, j, scale);
            let dot = scaled_column_dot(jacobian, j, scale, residuals, residual_scale);
            let cosine = (dot.abs() / column_length / residual_length).min(Binary64::one());
            maximum_cosine = maximum_cosine.max(cosine);
            let component = if scale.less(residual_scale) {
                (dot * scale) * residual_scale
            } else {
                (dot * residual_scale) * scale
            };
            absolute_norm = absolute_norm.hypot(component);
        }
        j = j + 1;
    }
    ResidualGradientMeasure { absolute_norm, relative_norm: Some(maximum_cosine) }
}

/// Terms of the residual norm's slope: unit residuals times velocities.
pub open spec fn slope_terms(
    residuals: Seq<Binary64>,
    velocity: Seq<Binary64>,
) -> Seq<Binary64> {
    grid::products(grid::over(residuals, matrix::norm_of(residuals)), velocity)
}

/// Slope of the residual norm along a direction, or why there is none.
pub open spec fn slope(jacobian: Grid, residuals: Grid, direction: Grid) -> Result<
    Binary64,
    &'static str,
> {
    let velocity = jacobian.times(direction);
    let norm = matrix::norm_of(residuals.cells);
    let terms = slope_terms(residuals.cells, velocity.cells);
    let total = CompensatedSum::of(terms).result();
    if !jacobian.finite() || !direction.finite() || !velocity.finite() {
        Err("Line-search directional derivative produced NaN or infinity")
    } else if !norm.finite() || norm <= Binary64::zero_value() {
        Err("Line-search residual norm was zero or non-finite")
    } else if !grid::all_finite(terms) {
        Err("Line-search residual-norm slope overflowed")
    } else if !total.finite() {
        Err("Line-search residual-norm slope accumulation overflowed")
    } else {
        Ok(total)
    }
}

/// Slope of the residual norm along a direction, or why there is none.
pub fn residual_norm_directional_derivative(
    jacobian: &Matrix,
    residuals: &Matrix,
    direction: &Matrix,
) -> (r: Result<Binary64, &'static str>)
    requires
        jacobian@.wf(),
        residuals@.wf(),
        direction@.wf(),
        residuals@.shape() == (jacobian@.rows, 1nat),
        direction@.shape() == (jacobian@.cols, 1nat),
    ensures
        r == slope(jacobian@, residuals@, direction@),
{
    let rows: usize = jacobian.rows();
    let mut velocity = Matrix::new(rows, 1);
    let ghost target = jacobian@.times(direction@);
    let ghost norm_spec = matrix::norm_of(residuals@.cells);
    let ghost terms = slope_terms(residuals@.cells, target.cells);
    match jacobian.mul_into(direction, &mut velocity) {
        Err(_) => {
            return Err("Line-search directional derivative produced NaN or infinity");
        },
        Ok(_) => {},
    }
    let norm = residuals.norm();
    if !norm.is_finite() || norm.at_most(Binary64::zero_value()) {
        return Err("Line-search residual norm was zero or non-finite");
    }
    let mut sum = CompensatedSum::default();
    let mut i: usize = 0;
    proof {
        assert(rows * 1 == rows) by (nonlinear_arith);
        assert(terms.take(0) =~= Seq::empty());
    }
    while i < rows
        invariant
            i <= rows,
            rows == jacobian@.rows,
            residuals@.wf(),
            velocity@.wf(),
            residuals@.shape() == (rows as nat, 1nat),
            velocity@.shape() == (rows as nat, 1nat),
            velocity@ == target,
            target == jacobian@.times(direction@),
            jacobian@.finite(),
            direction@.finite(),
            target.finite(),
            norm == matrix::norm_of(residuals@.cells),
            norm.finite(),
            !(norm <= Binary64::zero_value()),
            terms == slope_terms(residuals@.cells, target.cells),
            terms.len() == rows,
            sum == CompensatedSum::of(terms.take(i as int)),
            forall|k: int| 0 <= k < i ==> (#[trigger] terms[k]).finite(),
        decreases rows - i,
    {
        proof {
            assert(i * 1 + 0 == i) by (nonlinear_arith);
        }
        let product = (residuals.get(i, 0) / norm) * velocity.get(i, 0);
        assert(terms[i as int] == product);
        if !product.is_finite() {
            return Err("Line-search residual-norm slope overflowed");
        }
        proof {
            let next = terms.take(i + 1);
            assert(next.drop_last() =~= terms.take(i as int));
            assert(next.last() == product);
        }
        sum.add(product);
        i = i + 1;
    }
    assert(terms.take(i as int) =~= terms);
    let total = sum.total();
    if !total.is_finite() {
        return Err("Line-search residual-norm slope accumulation overflowed");
    }
    Ok(total)
}

} // verus!
