//! Matrices and least squares.
use constraint_solver::{
    Binary64, LeastSquaresInfo, LeastSquaresWorkspace, Matrix, MatrixError, MatrixOperand, Notation,
};

/// The number that a primitive stands for.
fn num(x: f64) -> Binary64 {
    Binary64::from_bits(x.to_bits())
}

/// The primitive for a number.
trait Primitive {
    fn f64(self) -> f64;
}

impl Primitive for Binary64 {
    fn f64(self) -> f64 {
        f64::from_bits(self.bits)
    }
}

/// Decimal texts of the platform.
struct Host;

impl Notation for Host {
    fn plain(&self, x: Binary64) -> String {
        format!("{}", x.f64())
    }

    fn fixed(&self, x: Binary64) -> String {
        format!("{:8.4}", x.f64())
    }

    fn scientific(&self, x: Binary64) -> String {
        format!("{:.2e}", x.f64())
    }
}

fn from_vec(data: Vec<f64>, rows: usize, cols: usize) -> Result<Matrix, MatrixError> {
    Matrix::from_vec(data.into_iter().map(num).collect(), rows, cols)
}

struct TestRng {
    state: u64,
}

impl TestRng {
    fn new(seed: u64) -> Self {
        Self { state: seed }
    }

    fn next_u32(&mut self) -> u32 {
        self.state = self.state.wrapping_mul(6364136223846793005).wrapping_add(1);
        (self.state >> 32) as u32
    }

    fn next_f64(&mut self) -> f64 {
        let v = self.next_u32() as f64 / u32::MAX as f64;
        2.0 * v - 1.0
    }
}

fn random_matrix(rows: usize, cols: usize, rng: &mut TestRng) -> Matrix {
    let mut m = Matrix::new(rows, cols);
    for i in 0..rows {
        for j in 0..cols {
            m.set(i, j, num(rng.next_f64()));
        }
    }
    m
}

/// Owned test view pairing a caller output buffer with returned diagnostics.
struct TestLeastSquaresSolution {
    solution: Matrix,
    /// Rank and condition metadata returned independently from storage.
    info: LeastSquaresInfo,
}

/// Run the canonical least-squares API with freshly constructed test storage.
fn solve_default(coefficients: &Matrix, rhs: &Matrix) -> TestLeastSquaresSolution {
    let mut solution = Matrix::new(coefficients.cols(), 1);
    let mut workspace = LeastSquaresWorkspace::new(coefficients.rows(), coefficients.cols());
    let info = coefficients
        .solve_least_squares_into(rhs, &mut solution, &mut workspace)
        .expect("least-squares solve failed");
    TestLeastSquaresSolution { solution, info }
}

/// Return the structured failure from one checked least-squares invocation.
fn solve_error(coefficients: &Matrix, rhs: &Matrix) -> MatrixError {
    let mut solution = Matrix::new(coefficients.cols(), 1);
    let mut workspace = LeastSquaresWorkspace::new(coefficients.rows(), coefficients.cols());
    coefficients
        .solve_least_squares_into(rhs, &mut solution, &mut workspace)
        .expect_err("least-squares fixture must fail")
}

/// Report retained projection geometry and residual slope from the same
/// singular subspace used to construct the pseudoinverse solution.
#[test]
fn least_squares_reports_retained_projection_and_residual_slope() {
    let coefficients = from_vec(vec![1.0, 0.0, 0.0, 0.0], 2, 2)
        .expect("the rank-one fixture has four entries");
    let rhs =
        from_vec(vec![3.0, 4.0], 2, 1).expect("the right-hand side has two entries");
    let result = solve_default(&coefficients, &rhs);

    assert_eq!(result.info.rank, 1);
    assert!((result.info.retained_rhs_projection_fraction.f64() - 0.6).abs() < 1e-12);
    assert!((result.info.residual_norm_slope.f64() + 1.8).abs() < 1e-12);

    let wide_coefficients = from_vec(vec![1.0, 0.0, 0.0, 0.0, 0.0, 0.0], 2, 3)
        .expect("the wide rank-one fixture has six entries");
    let wide_result = solve_default(&wide_coefficients, &rhs);
    assert_eq!(wide_result.info.rank, 1);
    assert!((wide_result.info.retained_rhs_projection_fraction.f64() - 0.6).abs() < 1e-12);
    assert!((wide_result.info.residual_norm_slope.f64() + 1.8).abs() < 1e-12);

    let angled_coefficients = from_vec(vec![1.0, 3.0_f64.sqrt()], 2, 1)
        .expect("the angled single-column fixture has two entries");
    let angled_rhs = from_vec(vec![2.0, 0.0], 2, 1)
        .expect("the angled right-hand side has two entries");
    let angled_result = solve_default(&angled_coefficients, &angled_rhs);
    assert!((angled_result.info.retained_rhs_projection_fraction.f64() - 0.5).abs() < 1e-12);
    assert!((angled_result.info.residual_norm_slope.f64() + 0.5).abs() < 1e-12);

    let zero_rhs = Matrix::new(2, 1);
    let zero_result = solve_default(&coefficients, &zero_rhs);
    assert_eq!(zero_result.info.retained_rhs_projection_fraction.f64(), 0.0);
    assert_eq!(zero_result.info.residual_norm_slope.f64(), 0.0);
    assert!(zero_result.info.residual_norm_slope.f64().is_sign_negative());

    let narrow_coefficients = from_vec(vec![1.0, 0.0], 2, 1)
        .expect("the single-column fixture has two entries");
    let wide_scale_rhs = from_vec(vec![1e100, 1e300], 2, 1)
        .expect("the wide-scale right-hand side has two entries");
    let wide_scale_result = solve_default(&narrow_coefficients, &wide_scale_rhs);
    let fraction_relative_error =
        (wide_scale_result.info.retained_rhs_projection_fraction.f64() / 1e-200 - 1.0).abs();
    let relative_error = (wide_scale_result.info.residual_norm_slope.f64() / -1e-100 - 1.0).abs();
    assert!(
        fraction_relative_error < 1e-12,
        "projection-fraction relative error: {fraction_relative_error:e}"
    );
    assert!(relative_error < 1e-12, "relative error: {relative_error:e}");

    let underflow_scale_rhs = from_vec(vec![1e-300, 1.0], 2, 1)
        .expect("the underflow-scale right-hand side has two entries");
    let underflow_scale_result = solve_default(&narrow_coefficients, &underflow_scale_rhs);
    assert!(underflow_scale_result.info.retained_rhs_projection_fraction.f64() > 0.0);
    assert_eq!(underflow_scale_result.info.residual_norm_slope.f64(), 0.0);
    assert!(
        underflow_scale_result
            .info
            .residual_norm_slope.f64()
            .is_sign_negative()
    );

    let least_positive = f64::from_bits(1);
    let saturation_coefficients = from_vec(vec![1.0, 0.0, 0.0, 0.0, 0.0, 0.0], 6, 1)
        .expect("the six-row single-column fixture has six entries");
    let saturation_rhs = from_vec(vec![least_positive, 1.0, 1.0, 1.0, 1.0, 1.0], 6, 1)
        .expect("the fraction-saturation right-hand side has six entries");
    let saturation_result = solve_default(&saturation_coefficients, &saturation_rhs);
    assert_eq!(
        saturation_result.info.retained_rhs_projection_fraction.f64(),
        least_positive
    );
    assert_eq!(saturation_result.info.residual_norm_slope.f64(), 0.0);
}

#[test]
fn test_matrix_creation() {
    let m = Matrix::new(2, 3);
    assert_eq!(m.rows(), 2);
    assert_eq!(m.cols(), 3);
    assert_eq!(m[(0, 0)].f64(), 0.0);
}

/// Verify that the norm retains finite magnitudes that a direct sum of
/// squares would overflow or underflow before taking the square root.
#[test]
fn test_norm_is_stable_across_extreme_finite_scales() {
    let large = from_vec(vec![1e200, 1e200], 2, 1).unwrap();
    let large_expected = 2.0_f64.sqrt() * 1e200;
    let large_relative_error = (large.norm().f64() - large_expected).abs() / large_expected;
    assert!(large.norm().f64().is_finite());
    assert!(large_relative_error < 1e-15);

    let small = from_vec(vec![1e-200, 1e-200], 2, 1).unwrap();
    let small_expected = 2.0_f64.sqrt() * 1e-200;
    let small_relative_error = (small.norm().f64() - small_expected).abs() / small_expected;
    assert!(small.norm().f64() > 0.0);
    assert!(small_relative_error < 1e-15);
}

/// Confirm that non-finite matrix entries remain observable through the
/// norm API instead of being accidentally converted to a finite value.
#[test]
fn test_norm_propagates_non_finite_components() {
    let with_nan = from_vec(vec![1.0, f64::NAN], 2, 1).unwrap();
    let with_infinity = from_vec(vec![1.0, f64::INFINITY], 2, 1).unwrap();

    assert!(with_nan.norm().f64().is_nan());
    assert_eq!(with_infinity.norm().f64(), f64::INFINITY);
}

/// Cover finite-state detection for empty, ordinary, NaN, and infinite
/// matrices.
#[test]
fn test_all_finite_identifies_invalid_components() {
    let empty = Matrix::new(0, 0);
    let finite = from_vec(vec![-1.0, 0.0, 2.5], 3, 1).unwrap();
    let with_nan = from_vec(vec![0.0, f64::NAN], 2, 1).unwrap();
    let with_infinity = from_vec(vec![f64::NEG_INFINITY], 1, 1).unwrap();

    assert!(empty.all_finite());
    assert!(finite.all_finite());
    assert!(!with_nan.all_finite());
    assert!(!with_infinity.all_finite());
}

/// Ensure the checked factorization API rejects invalid operands through
/// its error channel rather than returning a solution containing NaN.
#[test]
fn test_least_squares_rejects_non_finite_inputs() {
    let identity = Matrix::identity(2);
    let nan_rhs = from_vec(vec![f64::NAN, 1.0], 2, 1).unwrap();

    assert_eq!(
        solve_error(&identity, &nan_rhs),
        MatrixError::NonFiniteInput {
            operation: "solve_least_squares",
            operand: MatrixOperand::RightHandSide,
        }
    );

    let nan_coefficient = from_vec(vec![1.0, f64::NAN, 0.0, 1.0], 2, 2).unwrap();
    let finite_rhs = from_vec(vec![1.0, 1.0], 2, 1).unwrap();
    assert_eq!(
        solve_error(&nan_coefficient, &finite_rhs),
        MatrixError::NonFiniteInput {
            operation: "solve_least_squares",
            operand: MatrixOperand::CoefficientMatrix,
        }
    );
}

/// Confirm that arithmetic overflow from otherwise finite solve operands is
/// reported explicitly instead of escaping inside an `Ok(Matrix)` value.
#[test]
fn test_least_squares_rejects_non_finite_results() {
    let tiny_coefficient = from_vec(vec![1e-308], 1, 1).unwrap();
    let huge_rhs = from_vec(vec![f64::MAX], 1, 1).unwrap();

    assert_eq!(
        solve_error(&tiny_coefficient, &huge_rhs),
        MatrixError::NonFiniteResult {
            operation: "solve_least_squares",
        }
    );
}

/// Reuse the complete factorization, projection, and output storage across
/// independent right-hand sides without retaining stale numerical state.
#[test]
fn test_least_squares_into_reuses_all_allocations() {
    let coefficients = from_vec(vec![2.0, 0.0, 0.0, 4.0], 2, 2).unwrap();
    let first_rhs = from_vec(vec![2.0, 8.0], 2, 1).unwrap();
    let second_rhs = from_vec(vec![-4.0, 4.0], 2, 1).unwrap();
    let mut solution = Matrix::new(2, 1);
    let mut workspace = LeastSquaresWorkspace::new(2, 2);
    let addresses = (
        solution.elements().as_ptr(),
        workspace.buffers().0.as_ptr(),
        workspace.buffers().1.as_ptr(),
        workspace.buffers().2.as_ptr(),
        workspace.buffers().3.as_ptr(),
    );

    let first_info = coefficients
        .solve_least_squares_into(&first_rhs, &mut solution, &mut workspace)
        .unwrap();
    assert_eq!(solution, from_vec(vec![1.0, 2.0], 2, 1).unwrap());
    assert_eq!(first_info.rank, 2);

    let second_info = coefficients
        .solve_least_squares_into(&second_rhs, &mut solution, &mut workspace)
        .unwrap();
    assert_eq!(solution, from_vec(vec![-2.0, 1.0], 2, 1).unwrap());
    assert_eq!(second_info.rank, 2);
    assert_eq!(
        addresses,
        (
            solution.elements().as_ptr(),
            workspace.buffers().0.as_ptr(),
            workspace.buffers().1.as_ptr(),
            workspace.buffers().2.as_ptr(),
            workspace.buffers().3.as_ptr(),
        )
    );
}

/// Reject output and workspace mismatches with their exact expected and
/// actual shapes before factorization touches reusable scratch storage.
#[test]
fn test_least_squares_into_rejects_mismatched_caller_storage() {
    let coefficients = Matrix::identity(2);
    let rhs = Matrix::new(2, 1);
    let mut wrong_solution = Matrix::new(1, 1);
    let mut matching_workspace = LeastSquaresWorkspace::new(2, 2);
    assert_eq!(
        coefficients
            .solve_least_squares_into(&rhs, &mut wrong_solution, &mut matching_workspace,)
            .unwrap_err(),
        MatrixError::OutputShapeMismatch {
            operation: "solve_least_squares",
            expected: (2, 1),
            actual: (1, 1),
        }
    );

    let mut solution = Matrix::new(2, 1);
    let mut wrong_workspace = LeastSquaresWorkspace::new(3, 2);
    assert_eq!(
        coefficients
            .solve_least_squares_into(&rhs, &mut solution, &mut wrong_workspace)
            .unwrap_err(),
        MatrixError::WorkspaceShapeMismatch {
            operation: "solve_least_squares",
            expected: (2, 2),
            actual: (3, 2),
        }
    );
}

#[test]
fn test_identity() {
    let m = Matrix::identity(3);
    assert_eq!(m[(0, 0)].f64(), 1.0);
    assert_eq!(m[(1, 1)].f64(), 1.0);
    assert_eq!(m[(2, 2)].f64(), 1.0);
    assert_eq!(m[(0, 1)].f64(), 0.0);
}

#[test]
fn test_transpose() {
    let mut m = Matrix::new(2, 3);
    m.set(0, 0, num(1.0));
    m.set(0, 1, num(2.0));
    m.set(0, 2, num(3.0));
    m.set(1, 0, num(4.0));
    m.set(1, 1, num(5.0));
    m.set(1, 2, num(6.0));

    let mut transposed = Matrix::new(3, 2);
    let allocation = transposed.elements().as_ptr();
    m.transpose_into(&mut transposed).unwrap();
    assert_eq!(transposed.elements().as_ptr(), allocation);
    assert_eq!(transposed.rows(), 3);
    assert_eq!(transposed.cols(), 2);
    assert_eq!(transposed[(0, 0)].f64(), 1.0);
    assert_eq!(transposed[(1, 0)].f64(), 2.0);
    assert_eq!(transposed[(2, 0)].f64(), 3.0);
    assert_eq!(transposed[(0, 1)].f64(), 4.0);
}

/// Complete zero-storage operations from physical cardinality rather than
/// iterating over enormous logical dimensions that contain no coordinates.
#[test]
fn test_zero_storage_transpose_and_multiplication_return_immediately() {
    let huge_empty = from_vec(Vec::new(), usize::MAX, 0)
        .expect("a zero-column matrix requires no storage");
    let empty_right =
        from_vec(Vec::new(), 0, 0).expect("a zero-by-zero matrix is valid");

    let mut transposed = from_vec(Vec::new(), 0, usize::MAX).unwrap();
    huge_empty.transpose_into(&mut transposed).unwrap();
    assert_eq!(transposed.rows(), 0);
    assert_eq!(transposed.cols(), usize::MAX);
    assert_eq!(transposed.norm().f64(), 0.0);

    let mut product = from_vec(Vec::new(), usize::MAX, 0).unwrap();
    huge_empty
        .mul_into(&empty_right, &mut product)
        .expect("a product with zero output columns is already complete");
    assert_eq!(product.rows(), usize::MAX);
    assert_eq!(product.cols(), 0);
    assert_eq!(product.norm().f64(), 0.0);
}

/// Format every empty shape in constant work while retaining both logical
/// dimensions in the rendered value.
#[test]
fn test_display_is_bounded_and_shape_explicit_for_empty_matrices() {
    let empty_shapes = [
        (0, 0, "Matrix(0x0)".to_string()),
        (0, 3, "Matrix(0x3)".to_string()),
        (3, 0, "Matrix(3x0)".to_string()),
        (usize::MAX, 0, format!("Matrix({}x0)", usize::MAX)),
        (0, usize::MAX, format!("Matrix(0x{})", usize::MAX)),
    ];
    for (rows, cols, expected) in empty_shapes {
        let matrix = from_vec(Vec::new(), rows, cols)
            .expect("a zero-axis shape requires no element storage");
        assert_eq!(matrix.text(&Host), expected);
    }

    let populated = from_vec(vec![1.0, -2.0], 1, 2)
        .expect("two values exactly fill a one-by-two matrix");
    assert_eq!(populated.text(&Host), "[  1.0000,  -2.0000]\n");
}

#[test]
fn test_matrix_multiplication() {
    let mut a = Matrix::new(2, 3);
    a.set(0, 0, num(1.0));
    a.set(0, 1, num(2.0));
    a.set(0, 2, num(3.0));
    a.set(1, 0, num(4.0));
    a.set(1, 1, num(5.0));
    a.set(1, 2, num(6.0));

    let mut b = Matrix::new(3, 2);
    b.set(0, 0, num(7.0));
    b.set(0, 1, num(8.0));
    b.set(1, 0, num(9.0));
    b.set(1, 1, num(10.0));
    b.set(2, 0, num(11.0));
    b.set(2, 1, num(12.0));

    let mut product = Matrix::new(2, 2);
    let allocation = product.elements().as_ptr();
    a.mul_into(&b, &mut product).unwrap();
    assert_eq!(product.elements().as_ptr(), allocation);
    assert_eq!(product.rows(), 2);
    assert_eq!(product.cols(), 2);
    assert_eq!(product[(0, 0)].f64(), 58.0);
    assert_eq!(product[(0, 1)].f64(), 64.0);
    assert_eq!(product[(1, 0)].f64(), 139.0);
    assert_eq!(product[(1, 1)].f64(), 154.0);
}

#[test]
fn test_add_into_dimension_mismatch() {
    let a = Matrix::new(2, 2);
    let b = Matrix::new(2, 3);
    let mut output = Matrix::new(2, 2);

    let err = a
        .add_into(&b, &mut output)
        .expect_err("expected dimension mismatch");
    assert_eq!(
        err,
        MatrixError::DimensionMismatch {
            operation: "add",
            left: (2, 2),
            right: (2, 3),
        }
    );
}

#[test]
fn test_sub_into_dimension_mismatch() {
    let a = Matrix::new(3, 2);
    let b = Matrix::new(2, 2);
    let mut output = Matrix::new(3, 2);

    let err = a
        .sub_into(&b, &mut output)
        .expect_err("expected dimension mismatch");
    assert_eq!(
        err,
        MatrixError::DimensionMismatch {
            operation: "sub",
            left: (3, 2),
            right: (2, 2),
        }
    );
}

/// Exercise successful explicit elementwise arithmetic instead of covering
/// only the recoverable shape-error branches.
#[test]
fn test_add_subtract_and_scale_into_reuse_output_storage() {
    let left = from_vec(vec![1.0, -2.0, 3.5, 4.0], 2, 2)
        .expect("left fixture has four elements");
    let right = from_vec(vec![0.5, 2.0, -1.5, 6.0], 2, 2)
        .expect("right fixture has four elements");

    let mut output = Matrix::new(2, 2);
    let allocation = output.elements().as_ptr();
    left.add_into(&right, &mut output)
        .expect("matching shapes must add");

    assert_eq!(
        output,
        from_vec(vec![1.5, 0.0, 2.0, 10.0], 2, 2).unwrap()
    );
    left.sub_into(&right, &mut output)
        .expect("matching shapes must subtract");
    assert_eq!(
        output,
        from_vec(vec![0.5, -4.0, 5.0, -2.0], 2, 2).unwrap()
    );
    left.scale_into(num(2.0), &mut output)
        .expect("finite products must be written");
    assert_eq!(
        output,
        from_vec(vec![2.0, -4.0, 7.0, 8.0], 2, 2).unwrap()
    );
    assert_eq!(output.elements().as_ptr(), allocation);
}

#[test]
fn test_mul_into_dimension_mismatch() {
    let a = Matrix::new(2, 3);
    let b = Matrix::new(2, 2);
    let mut output = Matrix::new(2, 2);

    let error = a
        .mul_into(&b, &mut output)
        .expect_err("expected dimension mismatch");
    assert_eq!(
        error,
        MatrixError::DimensionMismatch {
            operation: "mul",
            left: (2, 3),
            right: (2, 2),
        }
    );
}

/// Reject every invalid public arithmetic buffer shape before performing a
/// write, including the independently derived multiplication and transpose
/// shapes.
#[test]
fn test_into_operations_reject_output_shape_mismatches_without_writing() {
    let left = Matrix::new(2, 2);
    let right = Matrix::new(2, 2);
    let mut wrong = from_vec(vec![7.0, 7.0], 2, 1).unwrap();

    for (operation, error) in [
        ("add", left.add_into(&right, &mut wrong).unwrap_err()),
        ("sub", left.sub_into(&right, &mut wrong).unwrap_err()),
        ("mul", left.mul_into(&right, &mut wrong).unwrap_err()),
        ("scale", left.scale_into(num(2.0), &mut wrong).unwrap_err()),
        ("transpose", left.transpose_into(&mut wrong).unwrap_err()),
    ] {
        assert_eq!(
            error,
            MatrixError::OutputShapeMismatch {
                operation,
                expected: (2, 2),
                actual: (2, 1),
            }
        );
        assert_eq!(wrong, from_vec(vec![7.0, 7.0], 2, 1).unwrap());
    }
}

#[test]
fn test_arithmetic_rejects_non_finite_operands_before_writing_output() {
    for invalid in [f64::NAN, f64::INFINITY, f64::NEG_INFINITY] {
        let invalid_matrix = from_vec(vec![invalid], 1, 1).unwrap();
        let finite_matrix = from_vec(vec![1.0], 1, 1).unwrap();
        let zero_matrix = from_vec(vec![0.0], 1, 1).unwrap();
        let mut output = from_vec(vec![42.0], 1, 1).unwrap();

        assert_eq!(
            invalid_matrix
                .mul_into(&zero_matrix, &mut output)
                .unwrap_err(),
            MatrixError::NonFiniteInput {
                operation: "mul",
                operand: MatrixOperand::LeftHandSide,
            }
        );
        assert_eq!(output[(0, 0)].f64(), 42.0);

        assert_eq!(
            finite_matrix
                .mul_into(&invalid_matrix, &mut output)
                .unwrap_err(),
            MatrixError::NonFiniteInput {
                operation: "mul",
                operand: MatrixOperand::RightHandSide,
            }
        );
        assert_eq!(output[(0, 0)].f64(), 42.0);

        assert_eq!(
            invalid_matrix
                .add_into(&finite_matrix, &mut output)
                .unwrap_err(),
            MatrixError::NonFiniteInput {
                operation: "add",
                operand: MatrixOperand::LeftHandSide,
            }
        );
        assert_eq!(output[(0, 0)].f64(), 42.0);

        assert_eq!(
            finite_matrix
                .sub_into(&invalid_matrix, &mut output)
                .unwrap_err(),
            MatrixError::NonFiniteInput {
                operation: "sub",
                operand: MatrixOperand::RightHandSide,
            }
        );
        assert_eq!(output[(0, 0)].f64(), 42.0);

        assert_eq!(
            invalid_matrix.scale_into(num(1.0), &mut output).unwrap_err(),
            MatrixError::NonFiniteInput {
                operation: "scale",
                operand: MatrixOperand::LeftHandSide,
            }
        );
        assert_eq!(output[(0, 0)].f64(), 42.0);
    }
}

/// Distinguish invalid inputs from finite arithmetic whose completed `f64`
/// result lies outside the representable range.
#[test]
fn test_arithmetic_reports_non_finite_completed_results() {
    let maximum = from_vec(vec![f64::MAX], 1, 1).unwrap();
    let negative_maximum = from_vec(vec![-f64::MAX], 1, 1).unwrap();
    let two = from_vec(vec![2.0], 1, 1).unwrap();
    let mut output = Matrix::new(1, 1);

    assert_eq!(
        maximum.add_into(&maximum, &mut output).unwrap_err(),
        MatrixError::NonFiniteResult { operation: "add" }
    );
    assert_eq!(
        maximum
            .sub_into(&negative_maximum, &mut output)
            .unwrap_err(),
        MatrixError::NonFiniteResult { operation: "sub" }
    );
    assert_eq!(
        maximum.mul_into(&two, &mut output).unwrap_err(),
        MatrixError::NonFiniteResult { operation: "mul" }
    );
    assert_eq!(
        maximum.scale_into(num(2.0), &mut output).unwrap_err(),
        MatrixError::NonFiniteResult { operation: "scale" }
    );
    assert_eq!(
        maximum.scale_into(num(f64::NAN), &mut output).unwrap_err(),
        MatrixError::NonFiniteScalar { operation: "scale" }
    );

    let cancelling_left = from_vec(vec![f64::MAX, f64::MAX], 1, 2).unwrap();
    let cancelling_right = from_vec(vec![2.0, -2.0], 2, 1).unwrap();
    assert_eq!(
        cancelling_left
            .mul_into(&cancelling_right, &mut output)
            .unwrap_err(),
        MatrixError::NonFiniteResult { operation: "mul" }
    );
}

/// Transposition is a bitwise data movement operation rather than
/// arithmetic, so it deliberately preserves non-finite diagnostic values.
#[test]
fn test_transpose_into_preserves_ieee_special_values() {
    let input = from_vec(vec![f64::NAN, f64::INFINITY], 1, 2).unwrap();
    let mut output = Matrix::new(2, 1);

    input.transpose_into(&mut output).unwrap();

    assert!(output[(0, 0)].f64().is_nan());
    assert_eq!(output[(1, 0)].f64(), f64::INFINITY);
}

/// Preserve a finite least-squares solution when same-sign projection terms
/// overflow in source order before later terms cancel them.
#[test]
fn test_solve_least_squares_scales_large_cancelling_projection() {
    let coefficients = from_vec(vec![1.0, 1.0, 1.0, -1.0, -1.0, -1.0], 6, 1)
        .expect("the coefficient fixture has six rows");
    let right_hand_side = from_vec(
        vec![f64::MAX, f64::MAX, f64::MAX, f64::MAX, f64::MAX, 0.0],
        6,
        1,
    )
    .expect("the right-hand-side fixture has six rows");

    let result = solve_default(&coefficients, &right_hand_side);
    let expected = f64::MAX / 6.0;
    let relative_error = (result.solution[(0, 0)].f64() / expected - 1.0).abs();

    assert_eq!(result.info.rank, 1);
    assert!(relative_error < 1e-15, "relative error: {relative_error}");
}

/// Reject reconstruction whose ordinary component-order partial total
/// exceeds `f64` before a later singular direction could cancel it.
#[test]
fn test_solve_least_squares_rejects_cancelling_singular_reconstruction_overflow() {
    let coefficients = from_vec(
        vec![
            -7.565e-309,
            6.027e-309,
            2.538e-309,
            -7.022e-309,
            -5.405e-309,
            -8.092e-309,
            -4.089e-309,
            -9.221e-309,
            9.708e-309,
        ],
        3,
        3,
    )
    .expect("the coefficient fixture is square");
    let right_hand_side = from_vec(vec![-1.3260, -1.6941, 2.1713], 3, 1)
        .expect("the right-hand-side fixture has three rows");

    assert_eq!(
        solve_error(&coefficients, &right_hand_side),
        MatrixError::NonFiniteResult {
            operation: "solve_least_squares",
        }
    );
}

#[test]
fn test_solve_least_squares_underdetermined_min_norm() {
    let a = from_vec(vec![1.0, 1.0], 1, 2).unwrap();
    let b = from_vec(vec![1.0], 1, 1).unwrap();

    let result = solve_default(&a, &b);
    assert!((result.solution[(0, 0)].f64() - 0.5).abs() < 1e-12);
    assert!((result.solution[(1, 0)].f64() - 0.5).abs() < 1e-12);
}

/// Keep a clearly retained tall direction across two representable unit
/// scales far from the numerical-rank cutoff.
#[test]
fn test_solve_least_squares_tall_rank_matches_away_from_cutoff() {
    let tiny = from_vec(vec![1e-15, 2e-15], 2, 1).unwrap();
    let tiny_b = from_vec(vec![1e-15, 2e-15], 2, 1).unwrap();
    let tiny_result = solve_default(&tiny, &tiny_b);

    let unit = from_vec(vec![1.0, 2.0], 2, 1).unwrap();
    let unit_b = from_vec(vec![1.0, 2.0], 2, 1).unwrap();
    let unit_result = solve_default(&unit, &unit_b);

    assert_eq!(tiny_result.info.rank, 1);
    assert_eq!(tiny_result.info.rank, unit_result.info.rank);
    assert!((tiny_result.info.cond_est.f64() - unit_result.info.cond_est.f64()).abs() < 1e-12);
    assert!((tiny_result.solution[(0, 0)].f64() - 1.0).abs() < 1e-12);
}

/// Retain a tiny wide-system direction that remains clearly above the
/// scale-relative numerical-rank cutoff.
#[test]
fn test_solve_least_squares_retains_tiny_wide_direction_above_cutoff() {
    let tiny = from_vec(vec![1e-15, 2e-15], 1, 2).unwrap();
    let tiny_b = from_vec(vec![1e-15], 1, 1).unwrap();
    let result = solve_default(&tiny, &tiny_b);

    assert_eq!(result.info.rank, 1);
    assert!(result.info.cond_est.f64().is_finite());
    assert!((result.solution[(0, 0)].f64() - 0.2).abs() < 1e-12);
    assert!((result.solution[(1, 0)].f64() - 0.4).abs() < 1e-12);
}

/// Keep algebraic directions that are small in application units but remain
/// distinguishable from factorization roundoff.
#[test]
fn test_solve_least_squares_uses_precision_derived_rank_threshold() {
    let coefficients = from_vec(vec![1.0, 0.0, 0.0, 1e-13], 2, 2).unwrap();
    let rhs = from_vec(vec![1.0, 1.0], 2, 1).unwrap();
    let result = solve_default(&coefficients, &rhs);

    assert_eq!(result.info.rank, 2);
    assert!((result.solution[(0, 0)].f64() - 1.0).abs() < 1e-12);
    assert!((result.solution[(1, 0)].f64() - 1e13).abs() < 1e-3);
}

#[test]
fn test_solve_least_squares_matches_column_permutation_fixture() {
    let original = from_vec(vec![1e-8, 1.0, 0.0, 1e-8], 2, 2).unwrap();
    let permuted = from_vec(vec![1.0, 1e-8, 1e-8, 0.0], 2, 2).unwrap();
    let right_hand_side = from_vec(vec![1.0, 1.0], 2, 1).unwrap();

    let original_result = solve_default(&original, &right_hand_side);
    let permuted_result = solve_default(&permuted, &right_hand_side);

    assert_eq!(original_result.info.rank, 1);
    assert_eq!(permuted_result.info.rank, original_result.info.rank);
    assert_eq!(permuted_result.info.cond_est.f64(), original_result.info.cond_est.f64());
    assert!(
        (original_result.solution[(0, 0)].f64() - permuted_result.solution[(1, 0)].f64()).abs() < 1e-12
    );
    assert!(
        (original_result.solution[(1, 0)].f64() - permuted_result.solution[(0, 0)].f64()).abs() < 1e-12
    );
}

/// Verify that SVD projection remains representable for a maximum-scale
/// tall system whose naïve squared column norm would overflow.
#[test]
fn test_tall_svd_handles_extreme_finite_scale() {
    let coefficient = from_vec(vec![1e308, 1e308], 2, 1).unwrap();
    let right_hand_side = from_vec(vec![1.0, 1.0], 2, 1).unwrap();

    let result = solve_default(&coefficient, &right_hand_side);

    let relative_error = (result.solution[(0, 0)].f64() / 1e-308 - 1.0).abs();
    assert!(relative_error < 1e-12, "relative error: {relative_error}");
    assert_eq!(result.info.rank, 1);
}

/// Solve a maximum-scale full-column-rank system without overflowing an
/// intermediate reflector application or residual projection.
#[test]
fn test_tall_svd_handles_extreme_finite_coefficients_and_rhs() {
    let coefficient = from_vec(vec![1e308, 1e308], 2, 1).unwrap();
    let right_hand_side = from_vec(vec![1e308, 1e308], 2, 1).unwrap();

    let result = solve_default(&coefficient, &right_hand_side);

    assert!((result.solution[(0, 0)].f64() - 1.0).abs() < 1e-12);
    assert_eq!(result.info.rank, 1);
    assert!((result.info.cond_est.f64() - 1.0).abs() < 1e-12);
}

/// Exercise the same scale-safe SVD arithmetic through the wide orientation
/// used for minimum-norm systems.
#[test]
fn test_wide_svd_handles_extreme_finite_scale() {
    let coefficient = from_vec(vec![1e308, 1e308], 1, 2).unwrap();
    let right_hand_side = from_vec(vec![1.0], 1, 1).unwrap();

    let result = solve_default(&coefficient, &right_hand_side);

    for row in 0..2 {
        let relative_error = (result.solution[(row, 0)].f64() / 5e-309 - 1.0).abs();
        assert!(relative_error < 1e-12, "relative error: {relative_error}");
    }
    assert_eq!(result.info.rank, 1);
}

#[test]
fn test_solve_least_squares_random_tall_full_rank() {
    let mut rng = TestRng::new(0x5eed_1234_5678_9abc);
    for _ in 0..5 {
        let mut a = random_matrix(6, 3, &mut rng);
        for i in 0..3 {
            let value = a[(i, i)].f64() + 2.0;
            a.set(i, i, num(value));
        }
        let x_true = vec![rng.next_f64(), rng.next_f64(), rng.next_f64()];
        let x_mat = from_vec(x_true.clone(), 3, 1).unwrap();
        let mut b = Matrix::new(6, 1);
        a.mul_into(&x_mat, &mut b).unwrap();

        let result = solve_default(&a, &b);
        assert_eq!(result.info.rank, 3);
        assert!(result.info.cond_est.f64().is_finite());
        for (row, expected) in x_true.iter().enumerate() {
            assert!((result.solution[(row, 0)].f64() - expected).abs() < 1e-8);
        }
    }
}

/// Compare random full-row-rank wide solves with a construction whose
/// Moore-Penrose solution is known independently of the SVD implementation.
#[test]
fn test_solve_least_squares_random_wide_minimum_norm_oracle() {
    let mut rng = TestRng::new(0x1234_5678_9abc_def0);

    for _case in 0..32 {
        let mut coefficients = random_matrix(3, 6, &mut rng);
        for diagonal in 0..3 {
            let value = coefficients[(diagonal, diagonal)].f64() + 4.0;
            coefficients.set(diagonal, diagonal, num(value));
        }

        let row_coordinates = [rng.next_f64(), rng.next_f64(), rng.next_f64()];
        let mut expected_variables = [0.0; 6];
        for variable in 0..6 {
            for equation in 0..3 {
                expected_variables[variable] +=
                    coefficients[(equation, variable)].f64() * row_coordinates[equation];
            }
        }
        let mut expected_rhs = [0.0; 3];
        for equation in 0..3 {
            for variable in 0..6 {
                expected_rhs[equation] +=
                    coefficients[(equation, variable)].f64() * expected_variables[variable];
            }
        }
        let right_hand_side = from_vec(expected_rhs.to_vec(), 3, 1)
            .expect("the oracle always contains three right-hand-side values");

        let result = solve_default(&coefficients, &right_hand_side);

        assert_eq!(result.info.rank, 3);
        assert!(result.info.cond_est.f64().is_finite());
        for (variable, expected) in expected_variables.iter().enumerate() {
            let error = (result.solution[(variable, 0)].f64() - expected).abs();
            assert!(
                error < 1e-8,
                "minimum-norm mismatch at variable {variable}: {error}"
            );
        }
    }
}

#[test]
fn test_solve_least_squares_detects_ill_conditioning() {
    let mut a = Matrix::identity(3);
    for i in 0..3 {
        let value = a[(i, 2)].f64() * 1e-8;
        a.set(i, 2, num(value));
    }
    let b = from_vec(vec![0.0, 0.0, 0.0], 3, 1).unwrap();

    let result = solve_default(&a, &b);
    assert_eq!(result.info.rank, 3);
    assert!(
        result.info.cond_est.f64() > 1e6,
        "cond_est was {}",
        result.info.cond_est.f64()
    );
}

/// Verify that condition diagnostics account for amplification caused by
/// off-diagonal entries, not only disparities between diagonal elements.
#[test]
fn test_solve_least_squares_condition_detects_off_diagonal_growth() {
    let a = from_vec(vec![1.0, 1e6, 0.0, 1.0], 2, 2).unwrap();
    let b = from_vec(vec![0.0, 0.0], 2, 1).unwrap();
    let result = solve_default(&a, &b);

    assert_eq!(result.info.rank, 2);
    assert!(
        result.info.cond_est.f64() > 1e11,
        "off-diagonal condition estimate was {}",
        result.info.cond_est.f64()
    );
}

#[test]
fn test_solve_least_squares_tall_full_rank() {
    let a = from_vec(vec![1.0, 0.0, 0.0, 1.0, 1.0, 1.0], 3, 2).unwrap();
    let b = from_vec(vec![1.0, 2.0, 3.0], 3, 1).unwrap();

    let result = solve_default(&a, &b);
    assert_eq!(result.info.rank, 2);
    assert!(result.info.cond_est.f64().is_finite());
    assert!((result.solution[(0, 0)].f64() - 1.0).abs() < 1e-12);
    assert!((result.solution[(1, 0)].f64() - 2.0).abs() < 1e-12);
}

#[test]
fn test_solve_least_squares_wide_full_rank() {
    let a = from_vec(vec![1.0, 0.0, 0.0, 0.0, 1.0, 0.0], 2, 3).unwrap();
    let b = from_vec(vec![1.0, 2.0], 2, 1).unwrap();

    let result = solve_default(&a, &b);
    assert_eq!(result.info.rank, 2);
    assert!(result.info.cond_est.f64().is_finite());
    assert!((result.solution[(0, 0)].f64() - 1.0).abs() < 1e-12);
    assert!((result.solution[(1, 0)].f64() - 2.0).abs() < 1e-12);
    assert!((result.solution[(2, 0)].f64() - 0.0).abs() < 1e-12);
}

/// Verify that a square rank-deficient system returns its unique
/// minimum-norm pseudoinverse solution through the canonical SVD.
#[test]
fn test_solve_least_squares_square_rank_deficient() {
    let a = from_vec(vec![1.0, 1.0, 2.0, 2.0], 2, 2).unwrap();
    let b = from_vec(vec![1.0, 2.0], 2, 1).unwrap();

    let result = solve_default(&a, &b);

    assert!((result.solution[(0, 0)].f64() - 0.5).abs() < 1e-12);
    assert!((result.solution[(1, 0)].f64() - 0.5).abs() < 1e-12);
    assert_eq!(result.info.rank, 1);
    assert!((result.info.cond_est.f64() - 1.0).abs() < 1e-12);
}

/// Match one exactly rank-deficient fixture across very small and very large
/// finite unit scales.
#[test]
fn test_solve_least_squares_matches_rank_deficient_scale_fixture() {
    for scale in [1e-200_f64, 1.0, 1e200] {
        let a = from_vec(vec![scale, scale, 2.0 * scale, 2.0 * scale], 2, 2).unwrap();
        let b = from_vec(vec![scale, 2.0 * scale], 2, 1).unwrap();

        let result = solve_default(&a, &b);

        assert!((result.solution[(0, 0)].f64() - 0.5).abs() < 1e-12);
        assert!((result.solution[(1, 0)].f64() - 0.5).abs() < 1e-12);
        assert_eq!(result.info.rank, 1);
        assert!((result.info.cond_est.f64() - 1.0).abs() < 1e-12);
    }
}

/// Return the finite minimum-norm answer for a rank-deficient system at the
/// largest practical coefficient scale.
#[test]
fn test_solve_least_squares_rank_deficient_extreme_scale() {
    let coefficients = from_vec(vec![-1e308, -1e308, -1e308, -1e308], 2, 2).unwrap();
    let right_hand_side = from_vec(vec![-1e308, -1e308], 2, 1).unwrap();

    let result = solve_default(&coefficients, &right_hand_side);

    assert!((result.solution[(0, 0)].f64() - 0.5).abs() < 1e-12);
    assert!((result.solution[(1, 0)].f64() - 0.5).abs() < 1e-12);
    assert_eq!(result.info.rank, 1);
    assert!((result.info.cond_est.f64() - 1.0).abs() < 1e-12);
}

/// Verify that SVD minimizes residual norm for an inconsistent tall system
/// and then selects the minimum-norm point among its minimizers.
#[test]
fn test_solve_least_squares_tall_rank_deficient_inconsistent() {
    let a = from_vec(vec![1.0, 1.0, 1.0, 1.0, 1.0, 1.0], 3, 2).unwrap();
    let b = from_vec(vec![1.0, 2.0, 3.0], 3, 1).unwrap();

    let result = solve_default(&a, &b);

    assert!((result.solution[(0, 0)].f64() - 1.0).abs() < 1e-12);
    assert!((result.solution[(1, 0)].f64() - 1.0).abs() < 1e-12);
    assert_eq!(result.info.rank, 1);
    let mut reconstructed = Matrix::new(3, 1);
    let mut residual = Matrix::new(3, 1);
    a.mul_into(&result.solution, &mut reconstructed).unwrap();
    reconstructed.sub_into(&b, &mut residual).unwrap();
    assert!((residual.norm().f64() - 2.0_f64.sqrt()).abs() < 1e-12);
}

/// Verify the transpose-oriented Jacobi SVD for a wide matrix whose rows
/// are themselves linearly dependent.
#[test]
fn test_solve_least_squares_wide_rank_deficient_minimum_norm() {
    let a = from_vec(vec![1.0, 0.0, 1.0, 2.0, 0.0, 2.0], 2, 3).unwrap();
    let b = from_vec(vec![1.0, 2.0], 2, 1).unwrap();

    let result = solve_default(&a, &b);

    assert!((result.solution[(0, 0)].f64() - 0.5).abs() < 1e-12);
    assert!(result.solution[(1, 0)].f64().abs() < 1e-12);
    assert!((result.solution[(2, 0)].f64() - 0.5).abs() < 1e-12);
    assert_eq!(result.info.rank, 1);
    let mut reconstructed = Matrix::new(2, 1);
    let mut residual = Matrix::new(2, 1);
    a.mul_into(&result.solution, &mut reconstructed).unwrap();
    reconstructed.sub_into(&b, &mut residual).unwrap();
    assert!(residual.norm().f64() < 1e-12);
}

/// Solve the exact rank-deficient Jacobian produced by the graphical
/// four-link IK example when its initial chain is fully extended.
#[test]
fn test_solve_least_squares_handles_straight_four_link_ik_jacobian() {
    let coefficients = from_vec(
        vec![
            280.0, 0.0, 0.0, 0.0, 0.0, 0.0, 0.0, 0.0,
            -240.0, 0.0, 240.0, 0.0, 0.0, 0.0, 0.0, 0.0,
            0.0, 0.0, -200.0, 0.0, 200.0, 0.0, 0.0, 0.0,
            0.0, 0.0, 0.0, 0.0, -160.0, 0.0, 160.0, 0.0,
            0.0, 0.0, 0.0, 0.0, 0.0, 0.0, 1.0, 0.0,
            0.0, 0.0, 0.0, 0.0, 0.0, 0.0, 0.0, 1.0,
        ],
        6,
        8,
    )
    .expect("the IK Jacobian fixture has six rows and eight columns");
    let right_hand_side = from_vec(vec![0.0, 0.0, 0.0, 0.0, -300.0, 200.0], 6, 1)
        .expect("the IK residual fixture has six entries");

    let result = solve_default(&coefficients, &right_hand_side);

    assert_eq!(result.info.rank, 5);
    assert!(result.solution.all_finite());
}

/// Verify that buffer construction reports an ordinary length mismatch with
/// both the requested shape and actual storage length.
#[test]
fn test_from_vec_reports_data_length_mismatch() {
    let length_error = from_vec(vec![1.0, 2.0], 2, 2).unwrap_err();
    assert_eq!(
        length_error,
        MatrixError::InvalidDataLength {
            rows: 2,
            cols: 2,
            expected: 4,
            actual: 2,
        }
    );
}
