//! Promises that hold of every input, tried on some.
use constraint_solver::compiler::{Assignment, VarId};
use constraint_solver::jacobian::{Jacobian, JacobianWorkspace};
use constraint_solver::merit::{residual_gradient_measure, residual_norm_directional_derivative};
use constraint_solver::scaled::product_ratio;
use constraint_solver::{
    Binary64, Compiler, Elementary, Exp, LeastSquaresWorkspace, Matrix, Mode, NamedValues,
    NewtonRaphsonSolver, Notation, SolverError,
};

/// The number that a primitive stands for.
fn num(x: f64) -> Binary64 {
    Binary64::from_bits(x.to_bits())
}

/// The primitive for a number.
trait Primitive {
    fn f64(self) -> f64;
}

impl Primitive for Binary64 {
    fn f64(self) -> f64 {
        f64::from_bits(self.bits)
    }
}

/// Elementary functions and decimal texts of the platform.
struct Host;

impl Elementary for Host {
    fn power(&self, base: Binary64, exponent: Binary64) -> Binary64 {
        num(base.f64().powf(exponent.f64()))
    }

    fn sin(&self, x: Binary64) -> Binary64 {
        num(x.f64().sin())
    }

    fn cos(&self, x: Binary64) -> Binary64 {
        num(x.f64().cos())
    }

    fn ln(&self, x: Binary64) -> Binary64 {
        num(x.f64().ln())
    }

    fn exp(&self, x: Binary64) -> Binary64 {
        num(x.f64().exp())
    }
}

impl Notation for Host {
    fn plain(&self, x: Binary64) -> String {
        format!("{}", x.f64())
    }

    fn fixed(&self, x: Binary64) -> String {
        format!("{:8.4}", x.f64())
    }

    fn scientific(&self, x: Binary64) -> String {
        format!("{:.2e}", x.f64())
    }
}

fn val(x: f64) -> Exp {
    Exp::val(num(x))
}

fn power(base: Exp, exponent: f64) -> Exp {
    Exp::power(base, num(exponent))
}

fn guess(values: &[(&str, f64)]) -> NamedValues {
    let mut named = NamedValues::new();
    for (name, x) in values {
        named.insert(name, num(*x));
    }
    named
}

fn value(values: &NamedValues, name: &str) -> f64 {
    values.get(name).expect("the variable has a value").f64()
}

/// Numbers from minus one to one.
struct Sequence {
    state: u64,
}

impl Sequence {
    fn next(&mut self) -> f64 {
        self.state = self.state.wrapping_mul(6364136223846793005).wrapping_add(1442695040888963407);
        (self.state >> 33) as f64 / (1u64 << 30) as f64 - 1.0
    }

    fn matrix(&mut self, rows: usize, cols: usize) -> Matrix {
        let data: Vec<Binary64> = (0..rows * cols).map(|_| num(self.next())).collect();
        Matrix::from_vec(data, rows, cols).expect("the data has the length of the shape")
    }
}

fn solver(equations: &[Exp]) -> NewtonRaphsonSolver<Host> {
    NewtonRaphsonSolver::new(Compiler::compile(equations).expect("compile failed"), Host)
}

/// A circle and a line, which meet in two points.
fn circle_and_line() -> Vec<Exp> {
    let circle = Exp::sub(
        Exp::add(power(Exp::var("x"), 2.0), power(Exp::var("y"), 2.0)),
        val(25.0),
    );
    let line = Exp::sub(Exp::sub(Exp::var("y"), Exp::var("x")), Exp::var("offset"));
    vec![circle, line]
}

#[test]
fn norms_of_finite_numbers_are_zero_only_for_zeros() {
    let mut sequence = Sequence { state: 5 };
    for size in 0..12usize {
        let zeros = Matrix::new(size, 1);
        assert_eq!(zeros.norm().f64(), 0.0);
        let values = sequence.matrix(size, 1);
        assert_eq!(values.norm().f64() == 0.0, size == 0);
        assert!(values.norm().f64() >= 0.0);
    }
    let tiny = Matrix::from_vec(vec![num(0.0), num(5e-324), num(-0.0)], 3, 1).expect("three");
    assert_eq!(tiny.norm().f64(), 5e-324);
}

#[test]
fn finite_norms_come_from_finite_numbers() {
    for bad in [f64::NAN, f64::INFINITY, f64::NEG_INFINITY] {
        for place in 0..3usize {
            let mut data = vec![num(1.0), num(2.0), num(3.0)];
            data[place] = num(bad);
            let values = Matrix::from_vec(data, 3, 1).expect("three");
            assert!(!values.norm().is_finite());
        }
    }
}

#[test]
fn transposing_twice_gives_the_matrix_back() {
    let mut sequence = Sequence { state: 11 };
    for (rows, cols) in [(1usize, 1usize), (2, 5), (7, 3), (0, 4), (40, 33)] {
        let original = sequence.matrix(rows, cols);
        let mut once = Matrix::new(cols, rows);
        let mut twice = Matrix::new(rows, cols);
        original.transpose_into(&mut once).expect("shapes match");
        once.transpose_into(&mut twice).expect("shapes match");
        assert_eq!(original.elements(), twice.elements());
        if rows > 1 && cols > 1 {
            assert_eq!(once.get(1, 0), original.get(0, 1));
        }
    }
}

#[test]
fn matrix_sums_do_not_depend_on_the_order() {
    let mut sequence = Sequence { state: 3 };
    let a = sequence.matrix(6, 4);
    let b = sequence.matrix(6, 4);
    let mut left = Matrix::new(6, 4);
    let mut right = Matrix::new(6, 4);
    a.add_into(&b, &mut left).expect("finite sums");
    b.add_into(&a, &mut right).expect("finite sums");
    assert_eq!(left, right);
    assert_eq!(left.get(5, 3).f64(), a.get(5, 3).f64() + b.get(5, 3).f64());
}

#[test]
fn least_squares_diagnostics_stay_in_their_ranges() {
    let mut sequence = Sequence { state: 77 };
    for (rows, cols) in [(1usize, 1usize), (3, 3), (5, 2), (2, 6), (4, 4), (8, 3)] {
        for deficient in [false, true] {
            let mut a = sequence.matrix(rows, cols);
            if deficient {
                for i in 0..rows {
                    let first = a.get(i, 0);
                    a.set(i, cols - 1, first);
                }
            }
            let b = sequence.matrix(rows, 1);
            let mut x = Matrix::new(cols, 1);
            let mut workspace = LeastSquaresWorkspace::new(rows, cols);
            let info = a
                .solve_least_squares_into(&b, &mut x, &mut workspace)
                .expect("finite problem");
            assert!(info.rank <= rows && info.rank <= cols && info.rank > 0);
            if deficient && cols > 1 && rows >= cols {
                assert_eq!(info.rank, cols - 1);
            }
            let fraction = info.retained_rhs_projection_fraction.f64();
            assert!((0.0..=1.0).contains(&fraction));
            assert!(info.residual_norm_slope.f64() <= 0.0);
            assert!(x.all_finite());
        }
    }
}

#[test]
fn a_zero_matrix_retains_no_direction() {
    let a = Matrix::new(3, 2);
    let b = Matrix::from_vec(vec![num(1.0), num(2.0), num(3.0)], 3, 1).expect("three");
    let mut x = Matrix::new(2, 1);
    let mut workspace = LeastSquaresWorkspace::new(3, 2);
    let info = a.solve_least_squares_into(&b, &mut x, &mut workspace).expect("finite problem");
    assert_eq!(info.rank, 0);
    assert_eq!(info.cond_est.f64(), f64::INFINITY);
    assert_eq!(info.retained_rhs_projection_fraction.f64(), 0.0);
    assert_eq!(x.get(0, 0).f64(), 0.0);
    assert_eq!(x.get(1, 0).f64(), 0.0);
}

/// An expression that uses every operation.
fn rich_expression() -> Exp {
    let x = Exp::var("x");
    let y = Exp::var("y");
    let waves = Exp::div(
        Exp::sin(Exp::mul(x.clone(), y.clone())),
        Exp::add(val(1.0), power(x.clone(), 2.0)),
    );
    let growth = Exp::mul(Exp::ln(x.clone()), Exp::exp(Exp::neg(y.clone())));
    Exp::sub(Exp::add(waves, growth), Exp::mul(Exp::cos(x), power(y, 3.0)))
}

#[test]
fn derivatives_are_slopes() {
    let compiled = Compiler::compile(&[rich_expression()]).expect("compile failed");
    let (expressions, table) = compiled.into_parts();
    let at = |x: f64, y: f64| {
        let mut vars = Assignment::new();
        vars.insert(VarId::new(0), num(x));
        vars.insert(VarId::new(1), num(y));
        vars
    };
    let f = |x: f64, y: f64| {
        expressions[0].evaluate_checked(&Host, &at(x, y)).expect("all variables have values").f64()
    };
    assert_eq!(table.names(), &["x", "y"]);
    let h = 1e-6;
    for (x, y) in [(0.7, 1.3), (2.0, -0.4), (1.5, 0.0)] {
        let by_x = expressions[0].differentiate(VarId::new(0));
        let by_y = expressions[0].differentiate(VarId::new(1));
        let dx = by_x.evaluate_checked(&Host, &at(x, y)).expect("values").f64();
        let dy = by_y.evaluate_checked(&Host, &at(x, y)).expect("values").f64();
        assert!((dx - (f(x + h, y) - f(x - h, y)) / (2.0 * h)).abs() < 1e-7);
        assert!((dy - (f(x, y + h) - f(x, y - h)) / (2.0 * h)).abs() < 1e-7);
    }
}

#[test]
fn simplification_keeps_values() {
    let x = Exp::var("x");
    let zeros = Exp::add(Exp::mul(val(0.0), x.clone()), Exp::mul(x.clone(), val(1.0)));
    let ones = Exp::div(Exp::sub(zeros, val(0.0)), val(1.0));
    let powers = Exp::add(power(x.clone(), 1.0), power(x.clone(), 0.0));
    let constants = Exp::mul(Exp::add(val(0.1), val(0.2)), Exp::neg(val(3.0)));
    let whole = Exp::sub(Exp::add(ones, powers), Exp::mul(constants, Exp::sin(x)));
    let (expressions, _) =
        Compiler::compile(&[whole, rich_expression()]).expect("compile failed").into_parts();
    let mut sequence = Sequence { state: 21 };
    for expression in &expressions {
        let simple = expression.simplify(&Host);
        for _ in 0..50 {
            let mut vars = Assignment::new();
            vars.insert(VarId::new(0), num(1.5 + sequence.next()));
            vars.insert(VarId::new(1), num(sequence.next()));
            assert_eq!(
                expression.evaluate_checked(&Host, &vars).expect("values").f64(),
                simple.evaluate_checked(&Host, &vars).expect("values").f64()
            );
        }
    }
}

#[test]
fn an_expression_has_a_value_where_its_variables_do() {
    let (expressions, _) = Compiler::compile(&[rich_expression()])
        .expect("compile failed")
        .into_parts();
    let mut vars = Assignment::new();
    vars.insert(VarId::new(0), num(2.0));
    assert_eq!(
        expressions[0].evaluate_checked(&Host, &vars).expect_err("y has no value").variable_name,
        "y"
    );
    vars.insert(VarId::new(1), num(0.5));
    let derivative = expressions[0].differentiate(VarId::new(1));
    assert!(expressions[0].evaluate_checked(&Host, &vars).is_ok());
    assert!(derivative.evaluate_checked(&Host, &vars).is_ok());
    assert!(derivative.simplify(&Host).evaluate_checked(&Host, &vars).is_ok());
}

#[test]
fn a_solution_is_a_root_and_its_history_never_rises() {
    let equations = circle_and_line();
    let compiled = Compiler::compile(&equations).expect("compile failed");
    let solver =
        NewtonRaphsonSolver::new_with_variables(compiled, &["x", "y"], Host).expect("known names");
    let solution = solver
        .solve(guess(&[("x", 40.0), ("y", -17.0), ("offset", 1.0)]))
        .expect("the line meets the circle");
    let (x, y) = (value(&solution.values, "x"), value(&solution.values, "y"));
    assert_eq!(value(&solution.values, "offset"), 1.0);
    let residuals = [x.powf(2.0) + y.powf(2.0) - 25.0, (y - x) - 1.0];
    let column = Matrix::from_vec(vec![num(residuals[0]), num(residuals[1])], 2, 1).expect("two");
    assert_eq!(column.norm().f64(), solution.error.f64());
    assert!(solution.error.f64() <= 1e-10);
    let history: Vec<f64> = solution.convergence_history.iter().map(|e| e.f64()).collect();
    assert_eq!(history.len(), solution.iterations + 1);
    assert_eq!(*history.last().expect("an entry"), solution.error.f64());
    assert!(history.windows(2).all(|pair| pair[1] <= pair[0]));
    assert!(solution.last_linear_attempt.is_some());
    assert!((x - 3.0).abs() < 1e-9 || (x + 4.0).abs() < 1e-9);
}

#[test]
fn a_failure_reports_the_state_that_was_reached() {
    let x = Exp::var("x");
    let equations = vec![Exp::sub(x.clone(), val(1.0)), Exp::sub(x, val(3.0))];
    let error = solver(&equations).solve(guess(&[("x", 10.0)])).expect_err("no root");
    match &error {
        SolverError::StationaryNonRoot(report) => {
            let reached = value(&report.values, "x");
            assert_eq!(report.equations.len(), 2);
            assert_eq!(report.equations[0].residual.f64(), reached - 1.0);
            assert_eq!(report.equations[1].residual.f64(), reached - 3.0);
            assert_eq!(report.equations[1].equation_index, 1);
            assert!((reached - 2.0).abs() < 1e-9);
            assert!((report.error.f64() - 2f64.sqrt()).abs() < 1e-9);
            assert!(report.relative_gradient_norm.expect("a cosine").f64() < 1e-10);
        }
        other => panic!("unexpected error: {other:?}"),
    }
}

#[test]
fn a_root_is_returned_as_it_is() {
    let solver = solver(&circle_and_line());
    let solution =
        solver.solve(guess(&[("x", 3.0), ("y", 4.0), ("offset", 1.0)])).expect("a root");
    assert_eq!(solution.iterations, 0);
    assert_eq!(solution.error.f64(), 0.0);
    assert_eq!(value(&solution.values, "x"), 3.0);
    assert_eq!(value(&solution.values, "y"), 4.0);
    assert!(solution.last_linear_attempt.is_none());
    assert_eq!(solution.convergence_history.len(), 1);
}

#[test]
fn unit_scales_leave_the_residual_norm() {
    let plain = solver(&circle_and_line());
    let scaled = solver(&circle_and_line())
        .with_equation_scales(vec![num(1.0), num(1.0)])
        .expect("one scale for each equation");
    let start = [("x", 9.0), ("y", 2.0), ("offset", 0.5)];
    let first = plain.solve(guess(&start)).expect("a root");
    let second = scaled.solve(guess(&start)).expect("a root");
    assert_eq!(first.values, second.values);
    let residuals = [81.0 + 4.0 - 25.0, (2.0 - 9.0) - 0.5];
    let column = Matrix::from_vec(vec![num(residuals[0]), num(residuals[1])], 2, 1).expect("two");
    assert_eq!(first.convergence_history[0].f64(), column.norm().f64());
    assert_eq!(second.convergence_history[0].f64(), column.norm().f64());
}

#[test]
fn a_failed_line_search_keeps_to_its_limits() {
    // Beyond the first digits the logarithm has no value where a step lands.
    let equation = Exp::ln(Exp::sub(Exp::var("x"), val(1.0)));
    let mut solver = solver(&[equation]);
    let mut options = solver.options().clone();
    options.line_search_max_trials = 3;
    options.line_search_min_step = num(0.5);
    solver = solver.with_options(options);
    let error = solver.solve(guess(&[("x", 1e6)])).expect_err("two steps are too few");
    match error {
        SolverError::NoConvergence(report) => {
            assert_eq!(
                report.message,
                "Line search failed after 2 rejected trial steps; smallest tested step was 5.00e-1"
            );
            assert_eq!(report.iterations, 0);
            assert_eq!(value(&report.values, "x"), 1e6);
        }
        other => panic!("unexpected error: {other:?}"),
    }
}

#[test]
fn new_scales_replace_the_named_ones_only() {
    let solver = solver(&circle_and_line());
    assert_eq!(solver.variable_scale("x").expect("a variable").f64(), 1.0);
    let solver = solver
        .with_variable_scales(guess(&[("y", 8.0), ("offset", 0.25)]))
        .expect("both are variables");
    assert_eq!(solver.variable_scale("x").expect("a variable").f64(), 1.0);
    assert_eq!(solver.variable_scale("y").expect("a variable").f64(), 8.0);
    assert_eq!(solver.variable_scale("offset").expect("a variable").f64(), 0.25);
    assert!(solver.variable_scale("z").is_none());
}

#[test]
fn runs_from_one_guess_end_alike_in_every_mode() {
    let start = [("x", -3.0), ("y", 11.0), ("offset", 2.0)];
    let first = solver(&circle_and_line()).solve(guess(&start)).expect("a root");
    let modes =
        [Mode::Serial, Mode::Parallel { thread_count: 1 }, Mode::Parallel { thread_count: 3 }];
    for mode in modes {
        let compiled = Compiler::compile(&circle_and_line()).expect("compile failed");
        let solver =
            NewtonRaphsonSolver::new_with_mode(compiled, mode, Host).expect("threads start");
        assert_eq!(*solver.mode(), mode);
        let again = solver.solve(guess(&start)).expect("a root");
        assert_eq!(again.values, first.values);
        assert_eq!(again.iterations, first.iterations);
        assert_eq!(again.convergence_history, first.convergence_history);
        assert_eq!(again.last_linear_attempt, first.last_linear_attempt);
    }
    let inconsistent = vec![
        Exp::sub(Exp::var("x"), val(1.0)),
        Exp::sub(Exp::var("x"), val(4.0)),
    ];
    let serial = solver(&inconsistent).solve(guess(&[("x", 0.0)])).expect_err("no root");
    let compiled = Compiler::compile(&inconsistent).expect("compile failed");
    let parallel =
        NewtonRaphsonSolver::new_with_mode(compiled, Mode::Parallel { thread_count: 2 }, Host)
            .expect("threads start")
            .solve(guess(&[("x", 0.0)]))
            .expect_err("no root");
    assert_eq!(serial.message(), parallel.message());
}

#[test]
fn scaled_ratios_are_close_to_exact_ones() {
    let grain = 1.0 / (1u64 << 53) as f64;
    let three = product_ratio(
        [num(1e300), num(1e300), num(3.0)],
        [num(1e300), num(1e300)],
    );
    assert!((three.f64() / 3.0 - 1.0).abs() <= 6.0 * grain);
    let small = product_ratio([num(1e-200), num(1e-200), num(1e300)], []);
    assert!((small.f64() / 1e-100 - 1.0).abs() <= 8.0 * grain);
    let exact = product_ratio([num(6.0), num(7.0)], [num(-2.0), num(3.0)]);
    assert_eq!(exact.f64(), -7.0);
}

#[test]
fn jacobians_hold_one_derivative_for_each_equation_and_variable() {
    let (expressions, table) =
        Compiler::compile(&circle_and_line()).expect("compile failed").into_parts();
    let jacobian = Jacobian::new(expressions, table.all_var_ids(), &Host);
    assert_eq!(jacobian.equation_count(), 2);
    assert_eq!(jacobian.variable_count(), 3);
    let mut vars = Assignment::new();
    for (i, x) in [2.0, 5.0, 1.0].iter().enumerate() {
        vars.insert(VarId::new(i), num(*x));
    }
    let mut output = Matrix::new(2, 3);
    jacobian.evaluate_checked_into(&Host, &vars, &mut output).expect("values");
    let found: Vec<f64> = output.elements().iter().map(|x| x.f64()).collect();
    assert_eq!(found, vec![4.0, 10.0, 0.0, -1.0, 1.0, -1.0]);
}

#[test]
fn names_occur_once_and_stay_when_equations_are_added() {
    let first = Exp::sub(Exp::add(Exp::var("b"), Exp::var("a")), Exp::var("b"));
    let second = Exp::mul(Exp::var("c"), Exp::var("a"));
    let short = Compiler::compile(&[first.clone()]).expect("compile failed");
    let long = Compiler::compile(&[first, second]).expect("compile failed");
    assert_eq!(short.variable_names(), &["b", "a"]);
    assert_eq!(long.variable_names(), &["b", "a", "c"]);
    assert!(!short.contains_variable("c"));
    assert_eq!(short.variable_id("a"), long.variable_id("a"));
}

#[test]
fn compiled_expressions_mean_what_was_written() {
    let compiled = Compiler::compile(&[rich_expression()]).expect("compile failed");
    let (x, y) = (1.75_f64, -0.5_f64);
    let mut vars = Assignment::new();
    vars.insert(compiled.variable_id("y").expect("a variable"), num(y));
    vars.insert(compiled.variable_id("x").expect("a variable"), num(x));
    let (expressions, _) = compiled.into_parts();
    let written = (x * y).sin() / (1.0 + x.powf(2.0)) + x.ln() * (-y).exp() - x.cos() * y.powf(3.0);
    assert_eq!(expressions[0].evaluate_checked(&Host, &vars).expect("values").f64(), written);
}

#[test]
fn directions_at_the_threshold_are_dropped() {
    let a = Matrix::from_vec(vec![num(1.0), num(0.0), num(0.0), num(0.25)], 2, 2).expect("four");
    let b = Matrix::from_vec(vec![num(1.0), num(1.0)], 2, 1).expect("two");
    let mut x = Matrix::new(2, 1);
    let mut workspace = LeastSquaresWorkspace::new(2, 2);
    let info = Matrix::solve_least_squares_svd_into(&a, &b, &mut x, &mut workspace, num(0.25))
        .expect("finite problem");
    assert_eq!(info.rank, 1);
    assert_eq!(info.cond_est.f64(), 1.0);
    assert_eq!((x.get(0, 0).f64(), x.get(1, 0).f64()), (1.0, 0.0));
    let info = Matrix::solve_least_squares_svd_into(&a, &b, &mut x, &mut workspace, num(0.2))
        .expect("finite problem");
    assert_eq!(info.rank, 2);
    assert_eq!(info.cond_est.f64(), 4.0);
    assert_eq!((x.get(0, 0).f64(), x.get(1, 0).f64()), (1.0, 4.0));
}

#[test]
fn a_zero_right_hand_side_gives_zeros() {
    let mut sequence = Sequence { state: 9 };
    for (rows, cols) in [(4usize, 2usize), (2, 4), (3, 3)] {
        let a = sequence.matrix(rows, cols);
        let b = Matrix::new(rows, 1);
        let mut x = sequence.matrix(cols, 1);
        let mut workspace = LeastSquaresWorkspace::new(rows, cols);
        let info = a.solve_least_squares_into(&b, &mut x, &mut workspace).expect("finite problem");
        assert!(x.elements().iter().all(|v| v.f64() == 0.0));
        assert_eq!(info.retained_rhs_projection_fraction.f64(), 0.0);
        assert_eq!(info.residual_norm_slope.f64(), 0.0);
        assert!(info.cond_est.f64() >= 1.0 && info.cond_est.is_finite());
    }
}

#[test]
fn units_do_not_change_the_residual_cosine() {
    let mut sequence = Sequence { state: 31 };
    let jacobian = sequence.matrix(5, 3);
    let residuals = sequence.matrix(5, 1);
    let measure = residual_gradient_measure(&jacobian, &residuals);
    let cosine = measure.relative_norm.expect("the residuals are not zero").f64();
    assert!((0.0..=1.0).contains(&cosine));
    let mut other = Matrix::new(5, 3);
    let mut larger = Matrix::new(5, 1);
    let factors = [8.0, 0.0625, 1024.0];
    for i in 0..5 {
        for j in 0..3 {
            other.set(i, j, num(jacobian.get(i, j).f64() * factors[j]));
        }
        larger.set(i, 0, num(residuals.get(i, 0).f64() * 0.25));
    }
    let scaled = residual_gradient_measure(&other, &larger);
    assert_eq!(scaled.relative_norm.expect("not zero").f64(), cosine);
    let none = residual_gradient_measure(&jacobian, &Matrix::new(5, 1));
    assert!(none.relative_norm.is_none());
    assert_eq!(none.absolute_norm.f64(), 0.0);
    let flat = residual_gradient_measure(&Matrix::new(5, 3), &residuals);
    assert_eq!(flat.relative_norm.expect("not zero").f64(), 0.0);
}

#[test]
fn slopes_of_non_finite_matrices_are_refused() {
    let bad = Matrix::from_vec(vec![num(f64::INFINITY)], 1, 1).expect("one");
    let one = Matrix::from_vec(vec![num(1.0)], 1, 1).expect("one");
    let refusal = "Line-search directional derivative produced NaN or infinity";
    assert_eq!(residual_norm_directional_derivative(&bad, &one, &one), Err(refusal));
    assert_eq!(residual_norm_directional_derivative(&one, &one, &bad), Err(refusal));
    assert!(residual_norm_directional_derivative(&one, &one, &one).is_ok());
}

#[test]
fn simplification_keeps_finite_values_of_infinite_parts() {
    // One over one over zero: the inner quotient is infinite, the whole is zero.
    let x = Exp::var("x");
    let inner = Exp::div(val(1.0), Exp::add(Exp::mul(val(0.0), x.clone()), val(0.0)));
    let whole = Exp::add(Exp::div(val(1.0), inner), x);
    let (expressions, _) = Compiler::compile(&[whole]).expect("compile failed").into_parts();
    let simple = expressions[0].simplify(&Host);
    for value in [-2.0, 3.0] {
        let mut vars = Assignment::new();
        vars.insert(VarId::new(0), num(value));
        assert_eq!(expressions[0].evaluate_checked(&Host, &vars).expect("values").f64(), value);
        assert_eq!(simple.evaluate_checked(&Host, &vars).expect("values").f64(), value);
    }
}

#[test]
fn cloned_systems_solve_alike() {
    let compiled = Compiler::compile(&circle_and_line()).expect("compile failed");
    let copy = compiled.clone();
    assert_eq!(copy.variable_names(), compiled.variable_names());
    assert_eq!(copy.equation_count(), 2);
    let start = [("x", 2.0), ("y", 5.0), ("offset", 1.0)];
    let first = NewtonRaphsonSolver::new(compiled, Host).solve(guess(&start)).expect("a root");
    let second = NewtonRaphsonSolver::new(copy, Host).solve(guess(&start)).expect("a root");
    assert_eq!(first.values, second.values);
}

#[test]
fn a_workspace_is_usable_after_a_missing_variable() {
    let (expressions, table) =
        Compiler::compile(&circle_and_line()).expect("compile failed").into_parts();
    let jacobian = Jacobian::new(expressions, table.all_var_ids(), &Host);
    let mut workspace = JacobianWorkspace::new(1, 1);
    let missing = jacobian
        .evaluate_checked_in_workspace(&Host, &Assignment::new(), &mut workspace)
        .expect_err("no variable has a value");
    assert_eq!(missing.variable_name, "x");
    let mut vars = Assignment::new();
    for (i, x) in [3.0, 4.0, 1.0].iter().enumerate() {
        vars.insert(VarId::new(i), num(*x));
    }
    let found = jacobian
        .evaluate_checked_in_workspace(&Host, &vars, &mut workspace)
        .expect("values");
    assert_eq!(found.get(0, 0).f64(), 6.0);
}

/// The sum of the squares of the residuals of a small system.
fn squared_residual(a: &[[f64; 2]], x: [f64; 2], b: &[f64]) -> f64 {
    a.iter()
        .zip(b)
        .map(|(row, rhs)| (row[0] * x[0] + row[1] * x[1] - rhs).powi(2))
        .sum()
}

/// The least-squares solution of a small system.
fn closest(a: &[[f64; 2]], b: &[f64]) -> [f64; 2] {
    let cells = a.iter().flatten().map(|&cell| num(cell)).collect();
    let matrix = Matrix::from_vec(cells, a.len(), 2).expect("two columns");
    let rhs = Matrix::from_vec(b.iter().map(|&cell| num(cell)).collect(), b.len(), 1)
        .expect("one column");
    let mut x = Matrix::new(2, 1);
    let mut workspace = LeastSquaresWorkspace::new(a.len(), 2);
    matrix
        .solve_least_squares_into(&rhs, &mut x, &mut workspace)
        .expect("finite problem");
    [x.get(0, 0).f64(), x.get(1, 0).f64()]
}

#[test]
fn the_shortest_of_the_closest_vectors_is_found() {
    let a = [[1.0, 1.0], [2.0, 2.0]];
    let b = [1.0, 3.0];
    let x = closest(&a, &b);
    assert!((x[0] - 0.7).abs() < 1e-12 && (x[1] - 0.7).abs() < 1e-12);
    let least = squared_residual(&a, x, &b);
    for (dx, dy) in [(0.25, 0.0), (0.0, -0.25), (0.5, 0.5), (-0.125, -0.5)] {
        assert!(least <= squared_residual(&a, [x[0] + dx, x[1] + dy], &b));
    }
    // Steps across the only retained direction leave the residual.
    for step in [-1.0, 0.5] {
        let other = [x[0] + step, x[1] - step];
        assert!((squared_residual(&a, other, &b) - least).abs() < 1e-12);
        assert!(other[0].hypot(other[1]) > x[0].hypot(x[1]));
    }
    let wide = closest(&[[3.0, 4.0]], &[5.0]);
    assert!((wide[0] - 0.6).abs() < 1e-12 && (wide[1] - 0.8).abs() < 1e-12);
}

#[test]
fn the_ridge_system_minimizes_the_ridge_objective() {
    let a = [[1.0, 0.0], [1.0, 2.0], [0.0, 1.0]];
    let b = [1.0, -2.0, 3.0];
    let weight = 0.5;
    let extended = [a[0], a[1], a[2], [weight, 0.0], [0.0, weight]];
    let x = closest(&extended, &[1.0, -2.0, 3.0, 0.0, 0.0]);
    let objective = |x: [f64; 2]| {
        squared_residual(&a, x, &b) + weight * weight * (x[0] * x[0] + x[1] * x[1])
    };
    let whole = squared_residual(&extended, x, &[1.0, -2.0, 3.0, 0.0, 0.0]);
    assert!((whole - objective(x)).abs() < 1e-12);
    // The normal equations are 2.25 x + 2 y = -1 and 2 x + 5.25 y = -1.
    assert!((x[0] - -3.25 / 7.8125).abs() < 1e-12);
    assert!((x[1] - -0.25 / 7.8125).abs() < 1e-12);
    for (dx, dy) in [(0.01, 0.0), (0.0, 0.01), (-0.1, 0.2), (1.0, -1.0)] {
        assert!(objective(x) < objective([x[0] + dx, x[1] + dy]));
    }
}

#[test]
fn simplification_drops_parts_whose_infinities_change_sign() {
    // At x = -1 and z = 0 the difference is minus infinity, and no number once
    // zero times x is read as zero.
    let unsteady = || {
        Exp::sub(
            Exp::div(val(1.0), Exp::mul(val(0.0), Exp::var("x"))),
            Exp::div(val(1.0), Exp::var("z")),
        )
    };
    let below = Exp::div(val(0.0), Exp::add(unsteady(), Exp::var("x")));
    let beside = Exp::mul(val(0.0), Exp::div(val(1.0), unsteady()));
    let under = Exp::power(unsteady(), num(0.0));
    let alone = Exp::div(val(1.0), unsteady());
    let (expressions, _) = Compiler::compile(&[unsteady(), below, beside, under, alone])
        .expect("compile failed")
        .into_parts();
    let mut vars = Assignment::new();
    vars.insert(VarId::new(0), num(-1.0));
    vars.insert(VarId::new(1), num(0.0));
    let values = |simplified: bool| -> Vec<f64> {
        expressions
            .iter()
            .map(|e| {
                if simplified {
                    e.simplify(&Host).evaluate_checked(&Host, &vars).expect("values").f64()
                } else {
                    e.evaluate_checked(&Host, &vars).expect("values").f64()
                }
            })
            .collect()
    };
    let before = values(false);
    let after = values(true);
    assert_eq!(before, [f64::NEG_INFINITY, 0.0, 0.0, 1.0, 0.0]);
    assert_eq!(after[1..4], [0.0, 0.0, 1.0]);
    assert!(after[0].is_nan() && after[4].is_nan());
}

#[test]
fn scaled_ratios_reach_the_ends_of_the_range() {
    let grain = 1.0 / (1u64 << 53) as f64;
    let large = product_ratio([num(1e308), num(1e-308), num(1.5e308)], [num(1.0)]);
    assert!((large.f64() / 1.5e308 - 1.0).abs() <= 8.0 * grain);
    let small = product_ratio([num(1e-308), num(1e308), num(3e-308)], []);
    assert!((small.f64() / 3e-308 - 1.0).abs() <= 8.0 * grain);
    // Below the normal numbers one unit is the smallest magnitude.
    let units = product_ratio([num(5e-324), num(21.0)], [num(4.0)]);
    assert_eq!(units.f64().to_bits(), 5);
    let lost = product_ratio([num(5e-324)], [num(4.0)]);
    assert_eq!(lost.f64(), 0.0);
    let beyond = product_ratio([num(1e308), num(-4.0)], []);
    assert_eq!(beyond.f64(), f64::NEG_INFINITY);
}

#[test]
fn simplifying_twice_changes_nothing() {
    let (expressions, _) =
        Compiler::compile(&circle_and_line()).expect("compile failed").into_parts();
    for e in &expressions {
        for id in 0..3 {
            let once = e.differentiate(VarId::new(id)).simplify(&Host);
            assert_eq!(once.simplify(&Host), once);
        }
    }
}

#[test]
fn derivatives_by_absent_variables_vanish() {
    let x = || Exp::var("x");
    let e = Exp::add(
        Exp::div(Exp::sin(x()), Exp::add(x(), val(2.0))),
        Exp::mul(Exp::power(x(), num(3.0)), Exp::exp(x())),
    );
    let (expressions, _) = Compiler::compile(&[e]).expect("compile failed").into_parts();
    let derivative = expressions[0].differentiate(VarId::new(7));
    for value in [-1.5, 0.0, 4.0] {
        let mut vars = Assignment::new();
        vars.insert(VarId::new(0), num(value));
        assert_eq!(derivative.evaluate_checked(&Host, &vars).expect("values").f64(), 0.0);
    }
}
