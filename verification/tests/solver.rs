//! Solving systems of equations.
use constraint_solver::{
    Binary64, Compiler, Elementary, EquationDiagnostic, EquationTrace, Exp, Matrix, MatrixError, Mode,
    NamedValues, NewtonRaphsonSolver, Notation, Solution, SolverError, SolverOptions,
    SolverRunDiagnostic,
};

/// The number that a primitive stands for.
fn num(x: f64) -> Binary64 {
    Binary64::from_bits(x.to_bits())
}

/// The primitive for a number.
trait Primitive {
    fn f64(self) -> f64;
}

impl Primitive for Binary64 {
    fn f64(self) -> f64 {
        f64::from_bits(self.bits)
    }
}

/// Elementary functions and decimal texts of the platform.
struct Host;

impl Elementary for Host {
    fn power(&self, base: Binary64, exponent: Binary64) -> Binary64 {
        num(base.f64().powf(exponent.f64()))
    }

    fn sin(&self, x: Binary64) -> Binary64 {
        num(x.f64().sin())
    }

    fn cos(&self, x: Binary64) -> Binary64 {
        num(x.f64().cos())
    }

    fn ln(&self, x: Binary64) -> Binary64 {
        num(x.f64().ln())
    }

    fn exp(&self, x: Binary64) -> Binary64 {
        num(x.f64().exp())
    }
}

impl Notation for Host {
    fn plain(&self, x: Binary64) -> String {
        format!("{}", x.f64())
    }

    fn fixed(&self, x: Binary64) -> String {
        format!("{:8.4}", x.f64())
    }

    fn scientific(&self, x: Binary64) -> String {
        format!("{:.2e}", x.f64())
    }
}

fn val(x: f64) -> Exp {
    Exp::val(num(x))
}

fn power(base: Exp, exponent: f64) -> Exp {
    Exp::power(base, num(exponent))
}

fn guess(values: &[(&str, f64)]) -> NamedValues {
    let mut named = NamedValues::new();
    for (name, x) in values {
        named.insert(name, num(*x));
    }
    named
}

fn value(values: &NamedValues, name: &str) -> f64 {
    values.get(name).expect("the variable has a value").f64()
}

fn from_vec(data: Vec<f64>, rows: usize, cols: usize) -> Result<Matrix, MatrixError> {
    Matrix::from_vec(data.into_iter().map(num).collect(), rows, cols)
}

struct TestRng {
    state: u64,
}

impl TestRng {
    fn new(seed: u64) -> Self {
        Self { state: seed }
    }

    fn next_u32(&mut self) -> u32 {
        self.state = self.state.wrapping_mul(6364136223846793005).wrapping_add(1);
        (self.state >> 32) as u32
    }

    fn next_f64(&mut self) -> f64 {
        let v = self.next_u32() as f64 / u32::MAX as f64;
        2.0 * v - 1.0
    }
}

fn linear_equation(coeffs: &[f64], vars: &[Exp], rhs: f64) -> Exp {
    let mut sum = val(0.0);
    for (coeff, var) in coeffs.iter().zip(vars.iter()) {
        let term = Exp::mul(val(*coeff), var.clone());
        sum = Exp::add(sum, term);
    }
    Exp::sub(sum, val(rhs))
}

fn test_modes() -> Vec<Mode> {
    vec![
        Mode::Serial,
        Mode::Parallel { thread_count: 4 },
    ]
}

fn assert_solution_close(serial: &Solution, parallel: &Solution, tol: f64) {
    assert_eq!(serial.values.len(), parallel.values.len());
    for i in 0..serial.values.len() {
        let name = serial.values.name_at(i).as_str();
        let value = serial.values.value_at(i).f64();
        let other = parallel.values.get(name).expect("missing variable").f64();
        let diff = (value - other).abs();
        assert!(diff <= tol, "var {name} mismatch: {value} vs {other}");
    }
}

fn assert_error_matches(serial: &SolverError, parallel: &SolverError) {
    assert_eq!(
        std::mem::discriminant(serial),
        std::mem::discriminant(parallel)
    );
    match (serial, parallel) {
        (
            SolverError::Matrix {
                source: left_source,
                diagnostic: left_diagnostic,
            },
            SolverError::Matrix {
                source: right_source,
                diagnostic: right_diagnostic,
            },
        ) => {
            assert_eq!(left_source, right_source);
            assert_eq!(left_diagnostic.iterations, right_diagnostic.iterations);
            assert_eq!(left_diagnostic.values, right_diagnostic.values);
        }
        (SolverError::InvalidInput(left), SolverError::InvalidInput(right)) => {
            assert_eq!(left, right);
        }
        _ => {}
    }
}

/// Extract the structured state from the strict non-root stationarity error
/// while producing a focused test failure for any other variant.
fn expect_stationary_non_root(error: SolverError) -> SolverRunDiagnostic {
    match error {
        SolverError::StationaryNonRoot(diagnostic) => *diagnostic,
        other => panic!("expected StationaryNonRoot, got {other:?}"),
    }
}

/// Clone, mutate, and reinstall a solver's shape-adjusted numerical policy
/// for focused configuration tests.
fn configure_options(
    solver: NewtonRaphsonSolver<Host>,
    configure: impl FnOnce(&mut SolverOptions),
) -> NewtonRaphsonSolver<Host> {
    let mut options = *solver.options();
    configure(&mut options);
    solver.with_options(options)
}

fn solver_for_mode(equations: Vec<Exp>, mode: Mode) -> NewtonRaphsonSolver<Host> {
    let compiled = Compiler::compile(&equations).expect("compile failed");
    NewtonRaphsonSolver::new_with_mode(compiled, mode, Host).expect("failed to set solver mode")
}

fn solver_for_with_vars_mode(
    equations: Vec<Exp>,
    variables: &[&str],
    mode: Mode,
) -> NewtonRaphsonSolver<Host> {
    let compiled = Compiler::compile(&equations).expect("compile failed");
    NewtonRaphsonSolver::new_with_variables_and_mode(compiled, variables, mode, Host)
        .expect("failed to select solve variables or set mode")
}

/// Preserve every machine-readable matrix field and the complete nonlinear
/// run state when an actual correction solve fails.
#[test]
fn test_linear_solve_error_retains_matrix_cause_and_run_diagnostic() {
    let x = Exp::var("x");
    let equation = Exp::sub(Exp::mul(val(f64::from_bits(1)), x), val(1.0));
    let solver = solver_for_mode(vec![equation], Mode::Serial)
        .with_equation_traces(vec![Some(EquationTrace {
            constraint_id: 41,
            description: "unrepresentable correction fixture".to_string(),
        })])
        .expect("one trace is supplied for one equation");
    let initial = guess(&[("x", 0.0)]);

    let solver_error = solver
        .solve(initial)
        .expect_err("the required correction lies outside the f64 range");
    let expected_source = MatrixError::NonFiniteResult {
        operation: "solve_least_squares",
    };

    match &solver_error {
        SolverError::Matrix { source, diagnostic } => {
            assert_eq!(source, &expected_source);
            assert_eq!(diagnostic.iterations, 0);
            assert_eq!(value(&diagnostic.values, "x"), 0.0);
            assert_eq!(diagnostic.error.f64(), 1.0);
            assert_eq!(diagnostic.last_linear_attempt, None);
            assert_eq!(diagnostic.equations.len(), 1);
            assert_eq!(diagnostic.equations[0].residual.f64(), -1.0);
            assert_eq!(diagnostic.equations[0].scaled_residual.f64(), -1.0);
            assert_eq!(
                diagnostic.equations[0]
                    .trace
                    .as_ref()
                    .map(|trace| trace.constraint_id),
                Some(41)
            );
        }
        other => panic!("expected contextual Matrix error, got {other:?}"),
    }

    let source = solver_error
        .source()
        .expect("a structured matrix failure must remain in the error chain");
    assert_eq!(source, &expected_source);
}

/// Exercise the public nonlinear solver at an extreme finite scale so the
/// canonical factorization cannot reject a representable pseudoinverse
/// correction because of an overflowing intermediate value.
#[test]
fn test_solver_solves_extreme_rank_deficient_linearization() {
    for mode in test_modes() {
        let x = Exp::var("x");
        let y = Exp::var("y");
        let huge_linear_form =
            Exp::add(Exp::mul(val(-1e308), x), Exp::mul(val(-1e308), y));
        let equations = vec![
            Exp::sub(huge_linear_form.clone(), val(1.0)),
            Exp::sub(huge_linear_form, val(1.0)),
        ];
        let solver = solver_for_mode(equations, mode);
        let initial = guess(&[("x", 0.0), ("y", 0.0)]);

        let solution = solver
            .solve(initial)
            .expect("the finite extreme-scale pseudoinverse root must solve");
        for variable in ["x", "y"] {
            let relative_error = (value(&solution.values, variable) / -5e-309 - 1.0).abs();
            assert!(relative_error < 1e-12, "relative error: {relative_error}");
        }
        assert_eq!(solution.iterations, 1);
        assert!(solution.error.f64() < 1e-12);
    }
}

#[test]
fn test_simple_system() {
    let mut serial_solution: Option<Solution> = None;
    for mode in test_modes() {
        let is_serial = matches!(mode, Mode::Serial);
        let x = Exp::var("x");
        let y = Exp::var("y");

        let eq1 = Exp::sub(
            Exp::add(power(x.clone(), 2.0), power(y.clone(), 2.0)),
            val(1.0),
        );
        let eq2 = Exp::sub(Exp::mul(x.clone(), y.clone()), val(0.25));

        let solver = solver_for_mode(vec![eq1, eq2], mode);

        let mut initial = NamedValues::new();
        initial.insert("x", num(0.5));
        initial.insert("y", num(0.866));

        let solution = solver.solve(initial).expect("Failed to solve system");
        if is_serial {
            serial_solution = Some(solution.clone());
        } else {
            let serial = serial_solution.as_ref().expect("serial solution missing");
            assert_solution_close(serial, &solution, 1e-8);
        }
        assert!(solution.error.f64() < 1e-10);

        let x_sol = value(&solution.values, "x");
        let y_sol = value(&solution.values, "y");
        assert!((x_sol * x_sol + y_sol * y_sol - 1.0).abs() < 1e-10);
        assert!((x_sol * y_sol - 0.25).abs() < 1e-10);
    }
}

/// Exercise one solver across multiple runs so its cached symbolic
/// derivatives are shared while each run retains independent numeric state.
#[test]
fn test_reused_solver_handles_distinct_initial_guesses() {
    for mode in test_modes() {
        let x = Exp::var("x");
        let equation = Exp::sub(power(x, 2.0), val(4.0));
        let solver = solver_for_mode(vec![equation], mode)
            .with_residual_tolerance(num(1e-12))
            .with_max_iterations(20);

        let positive_solution = solver
            .solve(guess(&[("x", 3.0)]))
            .expect("positive initial guess should converge");
        let negative_solution = solver
            .solve(guess(&[("x", -3.0)]))
            .expect("negative initial guess should converge");

        assert!((value(&positive_solution.values, "x") - 2.0).abs() < 1e-10);
        assert!((value(&negative_solution.values, "x") + 2.0).abs() < 1e-10);
    }
}

#[test]
fn test_transcendental_system() {
    let mut serial_solution: Option<Solution> = None;
    for mode in test_modes() {
        let is_serial = matches!(mode, Mode::Serial);
        let x = Exp::var("x");
        let y = Exp::var("y");

        let eq1 = Exp::sub(Exp::sin(x.clone()), Exp::mul(y.clone(), val(2.0)));
        let eq2 = Exp::sub(Exp::cos(y.clone()), x.clone());

        let solver = solver_for_mode(vec![eq1, eq2], mode)
            .with_residual_tolerance(num(1e-8))
            .with_max_iterations(50)
            .with_regularization(num(1e-8));

        let mut initial = NamedValues::new();
        initial.insert("x", num(0.5));
        initial.insert("y", num(0.25));

        let solution = solver
            .solve(initial)
            .expect("Failed to solve transcendental system");

        if is_serial {
            serial_solution = Some(solution.clone());
        } else {
            let serial = serial_solution.as_ref().expect("serial solution missing");
            assert_solution_close(serial, &solution, 1e-8);
        }
        let x_sol = value(&solution.values, "x");
        let y_sol = value(&solution.values, "y");
        assert!((x_sol.sin() - 2.0 * y_sol).abs() < 1e-8);
        assert!((y_sol.cos() - x_sol).abs() < 1e-8);
    }
}

#[test]
fn test_solver_rejects_missing_fixed_parameter() {
    let mut serial_error: Option<SolverError> = None;
    for mode in test_modes() {
        let is_serial = matches!(mode, Mode::Serial);
        let x = Exp::var("x");
        let a = Exp::var("a");
        let eq = Exp::sub(x.clone(), a.clone());

        let solver = solver_for_with_vars_mode(vec![eq], &["x"], mode);

        let mut initial = NamedValues::new();
        initial.insert("x", num(1.0));

        let err = solver
            .solve(initial)
            .expect_err("expected missing variable error");
        if is_serial {
            serial_error = Some(err.clone());
        } else {
            let serial = serial_error.as_ref().expect("serial error missing");
            assert_error_matches(serial, &err);
        }
        match err {
            SolverError::InvalidInput(msg) => {
                assert!(msg.contains("a"), "unexpected message: {msg}");
            }
            other => panic!("expected InvalidInput, got {:?}", other),
        }
    }
}

#[test]
fn test_solver_invalid_input_on_missing_initial_guess_variable() {
    let mut serial_error: Option<SolverError> = None;
    for mode in test_modes() {
        let is_serial = matches!(mode, Mode::Serial);
        let x = Exp::var("x");
        let y = Exp::var("y");
        let eq = Exp::sub(Exp::add(x.clone(), y.clone()), val(1.0));

        let solver = solver_for_mode(vec![eq], mode);

        let mut initial = NamedValues::new();
        initial.insert("x", num(0.0));

        let err = solver
            .solve(initial)
            .expect_err("expected invalid input due to missing y");
        if is_serial {
            serial_error = Some(err.clone());
        } else {
            let serial = serial_error.as_ref().expect("serial error missing");
            assert_error_matches(serial, &err);
        }
        match err {
            SolverError::InvalidInput(msg) => {
                assert!(msg.contains("y"), "unexpected message: {msg}");
            }
            other => panic!("expected InvalidInput, got {:?}", other),
        }
    }
}

/// Verify that every externally configurable numerical parameter enforces
/// its documented finite range before iteration begins.
#[test]
fn test_solver_rejects_invalid_configuration() {
    /// Boxed builder mutation used to exercise one invalid configuration
    /// while constructing a fresh solver for each table entry.
    type SolverConfigurator = Box<dyn Fn(NewtonRaphsonSolver<Host>) -> NewtonRaphsonSolver<Host>>;

    let invalid_cases: Vec<(&str, SolverConfigurator)> = vec![
        (
            "max_iterations",
            Box::new(|solver| solver.with_max_iterations(0)),
        ),
        (
            "residual_tolerance",
            Box::new(|solver| solver.with_residual_tolerance(num(0.0))),
        ),
        (
            "residual_tolerance",
            Box::new(|solver| solver.with_residual_tolerance(num(f64::NAN))),
        ),
        (
            "stationarity_tolerance",
            Box::new(|solver| solver.with_stationarity_tolerance(num(0.0))),
        ),
        (
            "stationarity_tolerance",
            Box::new(|solver| solver.with_stationarity_tolerance(num(f64::INFINITY))),
        ),
        (
            "stationarity_tolerance",
            Box::new(|solver| solver.with_stationarity_tolerance(num(2.0))),
        ),
        (
            "initial_step_size",
            Box::new(|solver| solver.with_initial_step_size(num(0.0))),
        ),
        (
            "initial_step_size",
            Box::new(|solver| solver.with_initial_step_size(num(1.1))),
        ),
        (
            "initial_step_size",
            Box::new(|solver| solver.with_initial_step_size(num(f64::INFINITY))),
        ),
        (
            "regularization",
            Box::new(|solver| solver.with_regularization(num(-1.0))),
        ),
        (
            "regularization",
            Box::new(|solver| solver.with_regularization(num(f64::INFINITY))),
        ),
        (
            "armijo_coefficient",
            Box::new(|solver| {
                configure_options(solver, |options| options.armijo_coefficient = num(1.0))
            }),
        ),
        (
            "line_search_max_trials",
            Box::new(|solver| {
                configure_options(solver, |options| options.line_search_max_trials = 0)
            }),
        ),
        (
            "line_search_min_step",
            Box::new(|solver| {
                configure_options(solver, |options| options.line_search_min_step = num(0.0))
            }),
        ),
    ];

    for (expected_parameter, configure) in invalid_cases {
        let x = Exp::var("x");
        let equation = Exp::sub(x, val(1.0));
        let compiled = Compiler::compile(&[equation]).expect("compile failed");
        let solver = configure(NewtonRaphsonSolver::new(compiled, Host));
        let initial = guess(&[("x", 0.0)]);

        let error = solver
            .solve(initial)
            .expect_err("invalid active configuration must be rejected");
        match error {
            SolverError::InvalidInput(message) => {
                assert!(message.contains(expected_parameter), "{message}");
            }
            other => panic!("expected InvalidInput, got {other:?}"),
        }
    }
}

/// Reject malformed physical scaling at the builder boundary where names
/// and equation cardinality are still available for precise diagnostics.
#[test]
fn test_solver_rejects_invalid_scales() {
    let x = Exp::var("x");
    let equation = Exp::sub(x.clone(), val(1.0));

    let solver = NewtonRaphsonSolver::new(
        Compiler::compile(std::slice::from_ref(&equation)).expect("equation should compile"),
        Host,
    );
    let error = solver
        .with_equation_scales(Vec::new())
        .err()
        .expect("one equation requires one scale");
    assert!(matches!(error, SolverError::InvalidInput(message) if message.contains("length")));

    let solver = NewtonRaphsonSolver::new(
        Compiler::compile(std::slice::from_ref(&equation)).expect("equation should compile"),
        Host,
    );
    let error = solver
        .with_equation_scales(vec![num(0.0)])
        .err()
        .expect("zero cannot be a characteristic scale");
    assert!(
        matches!(error, SolverError::InvalidInput(message) if message.contains("greater than zero"))
    );

    let solver = NewtonRaphsonSolver::new(
        Compiler::compile(std::slice::from_ref(&equation)).expect("equation should compile"),
        Host,
    );
    let error = solver
        .with_variable_scales(guess(&[("unknown", 1.0)]))
        .err()
        .expect("unknown variable scale names must be rejected");
    assert!(matches!(error, SolverError::InvalidInput(message) if message.contains("Unknown")));

    let solver = NewtonRaphsonSolver::new(
        Compiler::compile(&[equation]).expect("equation should compile"),
        Host,
    );
    let error = solver
        .with_variable_scales(guess(&[("x", f64::NAN)]))
        .err()
        .expect("non-finite variable scales must be rejected");
    assert!(
        matches!(error, SolverError::InvalidInput(message) if message.contains("greater than zero"))
    );

    let parameter = Exp::var("a");
    let parameterized = Exp::sub(x, parameter);
    let solver = NewtonRaphsonSolver::new_with_variables(
        Compiler::compile(&[parameterized]).expect("equation should compile"),
        &["x"],
        Host,
    )
    .expect("x is a solve variable");
    let error = solver
        .with_variable_scales(guess(&[("a", 1.0)]))
        .err()
        .expect("fixed parameter scales must be rejected");
    assert!(
        matches!(error, SolverError::InvalidInput(message) if message.contains("fixed parameter"))
    );
}

/// Reject NaN and infinity in the caller's initial map before expression
/// evaluation can obscure their origin.
#[test]
fn test_solver_rejects_non_finite_initial_values() {
    for invalid_value in [f64::NAN, f64::INFINITY, f64::NEG_INFINITY] {
        let x = Exp::var("x");
        let equation = Exp::sub(x, val(1.0));
        let compiled = Compiler::compile(&[equation]).expect("compile failed");
        let solver = NewtonRaphsonSolver::new(compiled, Host);
        let initial = guess(&[("x", invalid_value)]);

        let error = solver
            .solve(initial)
            .expect_err("non-finite initial values must be rejected");
        match error {
            SolverError::InvalidInput(message) => {
                assert!(message.contains("non-finite"), "{message}");
                assert!(message.contains("x"), "{message}");
            }
            other => panic!("expected InvalidInput, got {other:?}"),
        }
    }
}

/// Prevent a finite residual from hiding overflow in the variable state
/// produced by either solver update path.
#[test]
fn test_solver_never_commits_non_finite_variable_updates() {
    for mode in test_modes() {
        let x = Exp::var("x");
        let scaled_x = Exp::mul(val(1e-308), x);
        let equation = Exp::div(val(1.0), scaled_x);
        let initial = guess(&[("x", 1e308)]);

        let solver = configure_options(
            solver_for_mode(vec![equation], mode).with_regularization(num(0.0)),
            |options| options.line_search_max_trials = 1,
        );
        let error = solver
            .solve(initial)
            .expect_err("an overflowing line-search candidate must be rejected");
        match error {
            SolverError::NoConvergence(diagnostic) => {
                assert!(diagnostic.message.contains("Line search failed"));
                assert_eq!(diagnostic.iterations, 0);
                assert_eq!(value(&diagnostic.values, "x"), 1e308);
                assert!((0..diagnostic.values.len())
                    .all(|i| diagnostic.values.value_at(i).f64().is_finite()));
            }
            other => panic!("expected NoConvergence, got {other:?}"),
        }
    }
}

/// Distinguish an invalid expression domain from singularity or ordinary
/// iteration exhaustion.
#[test]
fn test_solver_reports_non_finite_residual_evaluation() {
    for mode in test_modes() {
        let x = Exp::var("x");
        let equation = Exp::ln(x);
        let solver = solver_for_mode(vec![equation], mode);
        let initial = guess(&[("x", -1.0)]);

        let error = solver
            .solve(initial)
            .expect_err("ln of a negative value is outside the real domain");
        match error {
            SolverError::NonFiniteEvaluation(diagnostic) => {
                assert!(diagnostic.message.contains("Residual evaluation"));
                assert_eq!(diagnostic.iterations, 0);
                assert!(diagnostic.error.f64().is_nan());
            }
            other => panic!("expected NonFiniteEvaluation, got {other:?}"),
        }
    }
}

/// Detect a finite residual paired with a non-finite symbolic derivative.
#[test]
fn test_solver_reports_non_finite_jacobian_evaluation() {
    for mode in test_modes() {
        let x = Exp::var("x");
        let equation = Exp::sub(power(x, 0.5), val(1.0));
        let solver = solver_for_mode(vec![equation], mode);
        let initial = guess(&[("x", 0.0)]);

        let error = solver
            .solve(initial)
            .expect_err("non-finite derivative must be reported explicitly");
        match error {
            SolverError::NonFiniteEvaluation(diagnostic) => {
                assert!(diagnostic.message.contains("Jacobian evaluation"));
                assert_eq!(diagnostic.error.f64(), 1.0);
            }
            other => panic!("expected NonFiniteEvaluation, got {other:?}"),
        }
    }
}

/// Preserve exact symbolic-derivative behavior at a removable boundary
/// singularity and demonstrate the caller-controlled algebraic rewrite.
#[test]
fn test_solver_requires_boundary_safe_expression_form() {
    for mode in test_modes() {
        let x = Exp::var("x");

        let boundary_singular = Exp::sub(
            Exp::add(Exp::mul(x.clone(), power(x.clone(), 0.5)), x.clone()),
            val(1.0),
        );
        let solver = solver_for_mode(vec![boundary_singular], mode);
        let initial = guess(&[("x", 0.0)]);

        let error = solver
            .solve(initial.clone())
            .expect_err("the written product has a non-finite derivative at zero");
        match error {
            SolverError::NonFiniteEvaluation(diagnostic) => {
                assert!(diagnostic.message.contains("Jacobian evaluation"));
                assert_eq!(diagnostic.error.f64(), 1.0);
            }
            other => panic!("expected NonFiniteEvaluation, got {other:?}"),
        }

        let boundary_safe = Exp::sub(Exp::add(power(x.clone(), 1.5), x), val(1.0));
        let solution = solver_for_mode(vec![boundary_safe], mode)
            .solve(initial)
            .expect("the rewritten expression has a finite boundary derivative");
        assert!(solution.error.f64() < 1e-10);
    }
}

#[test]
fn test_with_equation_traces_rejects_invalid_length() {
    let mut serial_error: Option<SolverError> = None;
    for mode in test_modes() {
        let is_serial = matches!(mode, Mode::Serial);
        let x = Exp::var("x");
        let eq = Exp::sub(x.clone(), val(1.0));

        let solver = solver_for_mode(vec![eq], mode);

        let traces = vec![
            Some(EquationTrace {
                constraint_id: 0,
                description: "eq0".to_string(),
            }),
            None,
        ];
        let err = match solver.with_equation_traces(traces) {
            Ok(_) => panic!("expected invalid input for trace length mismatch"),
            Err(err) => err,
        };
        if is_serial {
            serial_error = Some(err.clone());
        } else {
            let serial = serial_error.as_ref().expect("serial error missing");
            assert_error_matches(serial, &err);
        }
        match err {
            SolverError::InvalidInput(msg) => {
                assert!(msg.contains("Equation trace length (2)"), "{}", msg);
                assert!(msg.contains("number of equations (1)"), "{}", msg);
            }
            other => panic!("expected InvalidInput, got {:?}", other),
        }
    }

    let empty = NewtonRaphsonSolver::new(
        Compiler::compile(&[]).expect("empty equation system should compile"),
        Host,
    );
    let error = match empty.with_equation_traces(vec![None]) {
        Ok(_) => panic!("empty system must reject an unreachable trace"),
        Err(error) => error,
    };
    assert!(matches!(error, SolverError::InvalidInput(_)));
}

/// Ensure failure diagnostics pair each residual with its positional source
/// metadata and retain explicit `None` entries for untraced equations.
#[test]
fn test_diagnostics_include_equation_traces() {
    let equations = vec![
        Exp::sub(Exp::var("x"), val(1.0)),
        Exp::sub(Exp::var("x"), val(2.0)),
    ];
    let trace = EquationTrace {
        constraint_id: 41,
        description: "horizontal alignment".to_string(),
    };
    let solver = NewtonRaphsonSolver::new(
        Compiler::compile(&equations).expect("equations should compile"),
        Host,
    )
    .with_equation_traces(vec![Some(trace.clone()), None])
    .expect("trace cardinality matches equation cardinality");
    let vars = solver
        .map_initial_guess(&guess(&[("x", 0.0)]))
        .expect("initial guess should map to the compiled variable");
    let residuals = from_vec(vec![-1.0, -2.0], 2, 1)
        .expect("residual vector shape should be valid");

    let diagnostic =
        solver.build_diagnostic("test failure".to_string(), 0, &vars, &residuals, None, None);

    assert_eq!(diagnostic.equations.len(), 2);
    assert_eq!(
        diagnostic.equations[0],
        EquationDiagnostic {
            equation_index: 0,
            residual: num(-1.0),
            scaled_residual: num(-1.0),
            trace: Some(trace),
        }
    );
    assert_eq!(diagnostic.equations[1].equation_index, 1);
    assert_eq!(diagnostic.equations[1].residual.f64(), -2.0);
    assert_eq!(diagnostic.equations[1].scaled_residual.f64(), -2.0);
    assert_eq!(diagnostic.equations[1].trace, None);
}

#[test]
fn test_line_search_preserves_fixed_variables() {
    let mut serial_solution: Option<Solution> = None;
    for mode in test_modes() {
        let is_serial = matches!(mode, Mode::Serial);
        let x = Exp::var("x");
        let a = Exp::var("a");
        let eq = Exp::sub(x.clone(), a.clone());

        let solver = solver_for_with_vars_mode(vec![eq], &["x"], mode);

        let mut initial = NamedValues::new();
        initial.insert("x", num(0.0));
        initial.insert("a", num(2.0));

        let solution = solver
            .solve(initial)
            .expect("solver should converge when fixed variables are provided");
        if is_serial {
            serial_solution = Some(solution.clone());
        } else {
            let serial = serial_solution.as_ref().expect("serial solution missing");
            assert_solution_close(serial, &solution, 1e-10);
        }
        assert!((value(&solution.values, "x") - 2.0).abs() < 1e-10);
    }
}

#[test]
fn test_line_search_can_backtrack_beyond_twenty_trials() {
    let mut serial_solution: Option<Solution> = None;
    for mode in test_modes() {
        let is_serial = matches!(mode, Mode::Serial);

        let x = Exp::var("x");
        let equation = Exp::sub(Exp::exp(x), val(1.0));
        let solver = solver_for_mode(vec![equation], mode)
            .with_max_iterations(100)
            .with_residual_tolerance(num(1e-10));
        let initial = guess(&[("x", -20.0)]);

        let solution = solver
            .solve(initial)
            .expect("deep backtracking should recover a finite step");

        if is_serial {
            serial_solution = Some(solution.clone());
        } else {
            let serial = serial_solution.as_ref().expect("serial solution missing");
            assert_solution_close(serial, &solution, 1e-8);
        }
        assert!(solution.error.f64() < 1e-10);
        assert!(value(&solution.values, "x").abs() < 1e-8);
    }
}

/// Verify that the public line-search trial budget controls candidate
/// exhaustion rather than serving as documentation-only metadata.
#[test]
fn test_line_search_honors_configured_trial_budget() {
    for mode in test_modes() {
        let x = Exp::var("x");
        let equation = Exp::sub(Exp::exp(x), val(1.0));
        let solver = configure_options(solver_for_mode(vec![equation], mode), |options| {
            options.line_search_max_trials = 1
        });
        let initial = guess(&[("x", -20.0)]);

        let error = solver
            .solve(initial)
            .expect_err("one rejected candidate must exhaust the configured search");

        match error {
            SolverError::NoConvergence(diagnostic) => {
                assert_eq!(diagnostic.iterations, 0);
                assert!(diagnostic.message.contains("after 1 rejected trial steps"));
                assert_eq!(value(&diagnostic.values, "x"), -20.0);
                assert!(diagnostic.gradient_norm.map(Primitive::f64).is_some());
                assert_eq!(diagnostic.relative_gradient_norm.map(Primitive::f64), Some(1.0));
                let attempt = diagnostic
                    .last_linear_attempt
                    .as_ref()
                    .expect("the rejected candidate still followed a successful SVD attempt");
                assert_eq!(attempt.effective.rank, 1);
                assert_eq!(attempt.regularization, None);
            }
            other => panic!("expected NoConvergence, got {other:?}"),
        }
    }
}

/// Ensure Armijo line search normalizes the residual before forming its
/// directional derivative.
#[test]
fn test_line_search_avoids_raw_directional_derivative_overflow() {
    for mode in test_modes() {
        let x = Exp::var("x");
        let equation = Exp::sub(Exp::mul(val(1e200), x), val(1e200));
        let solver = solver_for_mode(vec![equation], mode);
        let initial = guess(&[("x", 0.0)]);

        let solution = solver
            .solve(initial)
            .expect("scale-safe residual-norm slope should permit the Newton step");

        assert_eq!(value(&solution.values, "x"), 1.0);
        assert_eq!(solution.error.f64(), 0.0);
    }
}

/// Verify that exhaustion preserves the current state and reports failure
/// instead of applying an untested minimum-step fallback.
#[test]
fn test_line_search_reports_constant_residual_as_stationary_non_root() {
    for mode in test_modes() {
        let x = Exp::var("x");
        let equation = Exp::add(Exp::mul(x, val(0.0)), val(1.0));
        let solver = solver_for_mode(vec![equation], mode).with_max_iterations(2);
        let initial = guess(&[("x", 0.0)]);

        let error = solver
            .solve(initial)
            .expect_err("a constant residual is stationary but not a root");
        let diagnostic = expect_stationary_non_root(error);

        assert_eq!(diagnostic.iterations, 0);
        assert_eq!(value(&diagnostic.values, "x"), 0.0);
        assert_eq!(diagnostic.error.f64(), 1.0);
        assert_eq!(diagnostic.gradient_norm.map(Primitive::f64), Some(0.0));
        assert_eq!(diagnostic.relative_gradient_norm.map(Primitive::f64), Some(0.0));
    }
}

/// Verify that the configured initial trial cap applies to the first update.
#[test]
fn test_solver_honors_initial_step_size() {
    for mode in test_modes() {
        let x = Exp::var("x");
        let equation = Exp::sub(x, val(1.0));
        let solver = solver_for_mode(vec![equation], mode)
            .with_initial_step_size(num(0.5))
            .with_max_iterations(1);
        let initial = guess(&[("x", 0.0)]);

        let error = solver
            .solve(initial)
            .expect_err("one half-step cannot yet reach the root");
        match error {
            SolverError::NoConvergence(diagnostic) => {
                assert!((value(&diagnostic.values, "x") - 0.5).abs() < 1e-12);
                assert!((diagnostic.error.f64() - 0.5).abs() < 1e-12);
                assert_eq!(diagnostic.gradient_norm.map(Primitive::f64), Some(0.5));
                assert_eq!(diagnostic.relative_gradient_norm.map(Primitive::f64), Some(1.0));
            }
            other => panic!("expected NoConvergence, got {other:?}"),
        }
    }
}

/// Ensure that an intentionally small trial cap does not become a false
/// small-step failure before the residual tolerance is satisfied.
#[test]
fn test_small_initial_step_reaches_residual_tolerance() {
    for mode in test_modes() {
        let x = Exp::var("x");
        let equation = Exp::sub(x, val(1.0));
        let solver = solver_for_mode(vec![equation], mode)
            .with_initial_step_size(num(0.1))
            .with_residual_tolerance(num(1e-10))
            .with_max_iterations(300);
        let initial = guess(&[("x", 0.0)]);

        let solution = solver
            .solve(initial)
            .expect("capped linear updates should eventually reach the root");

        assert!(solution.error.f64() < 1e-10);
    }
}

/// Confirm that a tiny Newton update reports diagnostics from the returned
/// point rather than retaining the residual from before the update.
#[test]
fn test_tiny_update_recomputes_returned_residual() {
    for mode in test_modes() {
        let x = Exp::var("x");
        let equation = Exp::add(Exp::mul(val(1e20), x), val(1.0));
        let solver = solver_for_mode(vec![equation], mode);
        let initial = guess(&[("x", 0.0)]);

        let solution = solver
            .solve(initial)
            .expect("scaled linear root should solve");

        let returned_residual = 1e20 * value(&solution.values, "x") + 1.0;
        assert_eq!(solution.iterations, 1);
        assert_eq!(solution.error.f64(), returned_residual.abs());
        assert_eq!(solution.error.f64(), 0.0);
        assert_eq!(solution.convergence_history.last(), Some(&num(0.0)));
    }
}

/// Distinguish a stationary non-root error from a successful constraint root
/// in an inconsistent overdetermined system.
#[test]
fn test_inconsistent_overdetermined_system_reports_stationarity() {
    for mode in test_modes() {
        let x = Exp::var("x");
        let equations = vec![
            Exp::sub(x.clone(), val(1.0)),
            Exp::add(x, val(1.0)),
        ];
        let solver = solver_for_mode(equations, mode);
        let initial = guess(&[("x", 0.0)]);

        let error = solver
            .solve(initial)
            .expect_err("stationary least-squares state is not a constraint root");
        let diagnostic = expect_stationary_non_root(error);

        assert_eq!(diagnostic.iterations, 0);
        assert!((diagnostic.error.f64() - 2.0_f64.sqrt()).abs() < 1e-12);
        assert!(diagnostic.gradient_norm.map(Primitive::f64).is_some_and(|norm| norm < 1e-10));
        assert!(
            diagnostic
                .relative_gradient_norm
                .map(Primitive::f64)
                .is_some_and(|norm| norm < 1e-10)
        );
    }
}

/// Verify strict stationary-non-root semantics do not depend on the number
/// of equations relative to solve variables.
#[test]
fn test_stationary_non_root_error_is_shape_independent() {
    for mode in test_modes() {
        let square_x = Exp::var("square_x");
        let square_y = Exp::var("square_y");
        let square_zero_y = Exp::mul(square_y, val(0.0));
        let square_equations = vec![
            Exp::add(Exp::sub(square_x.clone(), val(1.0)), square_zero_y),
            Exp::add(square_x, val(1.0)),
        ];
        let square_initial =
            guess(&[("square_x", 0.0), ("square_y", 0.0)]);

        let wide_x = Exp::var("wide_x");
        let wide_y = Exp::var("wide_y");
        let wide_equations = vec![Exp::add(
            Exp::add(power(wide_x, 2.0), val(1.0)),
            Exp::mul(wide_y, val(0.0)),
        )];
        let wide_initial =
            guess(&[("wide_x", 0.0), ("wide_y", 0.0)]);

        for (shape, equations, initial) in [
            ("square", square_equations, square_initial),
            ("underdetermined", wide_equations, wide_initial),
        ] {
            let error = solver_for_mode(equations, mode)
                .solve(initial)
                .expect_err("a stationary non-root must never be successful");
            let diagnostic = expect_stationary_non_root(error);

            assert_eq!(diagnostic.iterations, 0, "unexpected {shape} update");
            assert!(diagnostic.error.f64() > 0.0, "missing {shape} residual");
            assert_eq!(diagnostic.gradient_norm.map(Primitive::f64), Some(0.0));
        }
    }
}

/// Ensure column-scaled stationarity remains observable when both raw norms
/// and residual-gradient products exceed the finite `f64` range.
#[test]
fn test_scaled_stationary_system_avoids_raw_gradient_overflow() {
    for mode in test_modes() {
        let x = Exp::var("x");
        let scaled_x = Exp::mul(val(1.3e308), x);
        let equations = vec![
            Exp::sub(scaled_x.clone(), val(1.3e308)),
            Exp::add(scaled_x, val(1.3e308)),
        ];
        let solver = solver_for_mode(equations, mode);
        let initial = guess(&[("x", 0.0)]);

        let error = solver
            .solve(initial)
            .expect_err("normalized stationary non-root should survive raw overflow");
        let diagnostic = expect_stationary_non_root(error);

        assert_eq!(diagnostic.gradient_norm.map(Primitive::f64), Some(0.0));
        assert_eq!(diagnostic.relative_gradient_norm.map(Primitive::f64), Some(0.0));
        assert!(diagnostic.error.f64().is_infinite());
    }
}

/// Ensure one high-scale variable cannot hide a descent direction belonging
/// to another variable before an exactly solvable system's first update.
#[test]
fn test_scaled_consistent_overdetermined_system_does_not_false_converge() {
    for mode in test_modes() {
        let x = Exp::var("x");
        let y = Exp::var("y");
        let x_residual = Exp::sub(x, val(1.0));
        let y_residual = Exp::mul(val(1e9), y);
        let solver = solver_for_mode(vec![x_residual, y_residual.clone(), y_residual], mode)
            .with_initial_step_size(num(1.0))
            .with_stationarity_tolerance(num(1e-8))
            .with_regularization(num(0.0));
        let initial = guess(&[("x", 0.0), ("y", 0.0)]);

        let solution = solver
            .solve(initial)
            .expect("a scaled consistent linear system should reach its root");

        assert_eq!(solution.iterations, 1);
        assert!((value(&solution.values, "x") - 1.0).abs() < 1e-12);
        assert_eq!(value(&solution.values, "y"), 0.0);
        assert!(solution.error.f64() < 1e-12);
    }
}

/// Classify a non-root zero-Jacobian point as stationary without claiming it
/// is a successful least-squares minimum.
#[test]
fn test_zero_jacobian_nonminimum_is_stationary_non_root() {
    for mode in test_modes() {
        let x = Exp::var("x");
        let residual = Exp::sub(power(x, 2.0), val(1.0));
        let solver =
            solver_for_mode(vec![residual.clone(), residual], mode).with_max_iterations(1);
        let initial = guess(&[("x", 0.0)]);

        let error = solver
            .solve(initial)
            .expect_err("a zero-Jacobian local maximum must not be successful");

        let diagnostic = expect_stationary_non_root(error);
        assert_eq!(diagnostic.iterations, 0);
        assert!((diagnostic.error.f64() - 2.0_f64.sqrt()).abs() < 1e-12);
        assert_eq!(value(&diagnostic.values, "x"), 0.0);
        assert_eq!(diagnostic.gradient_norm.map(Primitive::f64), Some(0.0));
        assert_eq!(diagnostic.relative_gradient_norm.map(Primitive::f64), Some(0.0));
    }
}

/// Ensure Armijo reaches a non-zero residual floor without confusing small
/// objective changes with failure.
#[test]
fn test_inconsistent_overdetermined_system_reaches_stationarity_from_away() {
    let mut serial_diagnostic: Option<SolverRunDiagnostic> = None;
    for mode in test_modes() {
        let is_serial = matches!(mode, Mode::Serial);

        let x = Exp::var("x");
        let equations = vec![
            Exp::sub(x.clone(), val(1.0)),
            Exp::add(x, val(1.0)),
        ];
        let solver = solver_for_mode(equations, mode);
        let initial = guess(&[("x", 0.1)]);

        let error = solver
            .solve(initial)
            .expect_err("Armijo should identify a stationary non-root");
        let diagnostic = expect_stationary_non_root(error);

        if is_serial {
            serial_diagnostic = Some(diagnostic.clone());
        } else {
            let serial = serial_diagnostic
                .as_ref()
                .expect("serial diagnostic missing");
            assert!((value(&serial.values, "x") - value(&diagnostic.values, "x")).abs() < 1e-10);
            assert!((serial.error.f64() - diagnostic.error.f64()).abs() < 1e-10);
        }
        assert!(value(&diagnostic.values, "x").abs() < 1e-8);
        assert!((diagnostic.error.f64() - 2.0_f64.sqrt()).abs() < 1e-10);
        assert!(diagnostic.gradient_norm.map(Primitive::f64).is_some_and(|norm| norm < 1e-8));
        assert!(
            diagnostic
                .relative_gradient_norm
                .map(Primitive::f64)
                .is_some_and(|norm| norm < 1e-8)
        );
        let linear = diagnostic
            .last_linear_attempt
            .as_ref()
            .expect("stationarity reached after an SVD correction");
        assert_eq!(linear.regularization, None);
    }
}

/// Confirm that line search uses the local least-squares slope rather than
/// demanding an impossible fixed reduction near a non-zero residual floor.
#[test]
fn test_line_search_reaches_inconsistent_least_squares_stationarity() {
    let mut serial_diagnostic: Option<SolverRunDiagnostic> = None;
    for mode in test_modes() {
        let is_serial = matches!(mode, Mode::Serial);

        let x = Exp::var("x");
        let equations = vec![
            Exp::sub(x.clone(), val(1.0)),
            Exp::add(x, val(1.0)),
        ];
        let solver = solver_for_mode(equations, mode);
        let initial = guess(&[("x", 0.1)]);

        let error = solver
            .solve(initial)
            .expect_err("Armijo line search should reach a stationary non-root");
        let diagnostic = expect_stationary_non_root(error);

        if is_serial {
            serial_diagnostic = Some(diagnostic.clone());
        } else {
            let serial = serial_diagnostic
                .as_ref()
                .expect("serial diagnostic missing");
            assert!((value(&serial.values, "x") - value(&diagnostic.values, "x")).abs() < 1e-10);
            assert!((serial.error.f64() - diagnostic.error.f64()).abs() < 1e-10);
        }
        assert!(value(&diagnostic.values, "x").abs() < 1e-8);
        assert!((diagnostic.error.f64() - 2.0_f64.sqrt()).abs() < 1e-10);
    }
}

/// Verify that the iteration count measures accepted updates rather than
/// residual evaluations.
#[test]
fn test_exact_initial_root_reports_zero_iterations() {
    for mode in test_modes() {
        let x = Exp::var("x");
        let equation = Exp::sub(x, val(1.0));
        let solver = solver_for_mode(vec![equation], mode);
        let initial = guess(&[("x", 1.0)]);

        let solution = solver.solve(initial).expect("initial point is a root");

        assert_eq!(solution.iterations, 0);
        assert_eq!(solution.convergence_history, vec![num(0.0)]);
        assert_eq!(solution.last_linear_attempt, None);
    }
}

/// Enforce the documented inclusive residual threshold both before and
/// after a Newton correction.
#[test]
fn test_residual_tolerance_boundary_is_successful() {
    for mode in test_modes() {
        let x = Exp::var("x");
        let solver =
            solver_for_mode(vec![x.clone()], mode).with_residual_tolerance(num(1.0));
        let initial = guess(&[("x", 1.0)]);
        let solution = solver
            .solve(initial)
            .expect("a residual equal to tolerance must be successful");

        assert_eq!(solution.error.f64(), 1.0);
        assert_eq!(solution.iterations, 0);
        assert_eq!(solution.last_linear_attempt, None);

        let solver = solver_for_mode(vec![x], mode)
            .with_residual_tolerance(num(1.0))
            .with_initial_step_size(num(0.5))
            .with_max_iterations(1);
        let initial = guess(&[("x", 2.0)]);
        let solution = solver
            .solve(initial)
            .expect("an accepted update on the tolerance boundary must succeed");

        assert_eq!(value(&solution.values, "x"), 1.0);
        assert_eq!(solution.error.f64(), 1.0);
        assert_eq!(solution.iterations, 1);
    }
}

/// Ensure an intentionally unbounded-looking iteration budget does not
/// become an eager allocation request before convergence is evaluated.
#[test]
fn test_large_iteration_budget_does_not_preallocate_history() {
    for mode in test_modes() {
        let x = Exp::var("x");
        let equation = Exp::sub(x, val(1.0));
        let solver = solver_for_mode(vec![equation], mode).with_max_iterations(usize::MAX);
        let initial = guess(&[("x", 1.0)]);

        let solution = solver
            .solve(initial)
            .expect("an exact root must not reserve the full update budget");

        assert_eq!(solution.iterations, 0);
        assert_eq!(solution.convergence_history, vec![num(0.0)]);
    }
}

#[test]
fn test_least_squares_svd_handles_ill_conditioned_overdetermined_system_without_regularization()
{
    let mut serial_solution: Option<Solution> = None;
    for mode in test_modes() {
        let is_serial = matches!(mode, Mode::Serial);
        let eps = 2f64.powi(-27);

        let x = Exp::var("x");
        let y = Exp::var("y");

        let eq1 = Exp::sub(Exp::add(x.clone(), y.clone()), val(2.0));
        let eq2 = Exp::sub(
            Exp::add(x.clone(), Exp::mul(y.clone(), val(1.0 + eps))),
            val(2.0 + eps),
        );
        let eq3 = Exp::sub(
            Exp::add(x.clone(), Exp::mul(y.clone(), val(1.0 - eps))),
            val(2.0 - eps),
        );

        let solver = solver_for_mode(vec![eq1, eq2, eq3], mode)
            .with_regularization(num(0.0))
            .with_initial_step_size(num(1.0))
            .with_max_iterations(10)
            .with_residual_tolerance(num(1e-10));

        let mut initial = NamedValues::new();
        initial.insert("x", num(0.0));
        initial.insert("y", num(0.0));

        let solution = solver
            .solve(initial)
            .expect("expected solver to converge with SVD least squares");

        if is_serial {
            serial_solution = Some(solution.clone());
        } else {
            let serial = serial_solution.as_ref().expect("serial solution missing");
            assert_solution_close(serial, &solution, 1e-8);
        }
        assert!((value(&solution.values, "x") - 1.0).abs() < 1e-7);
        assert!((value(&solution.values, "y") - 1.0).abs() < 1e-7);
        assert!(solution.error.f64() < 1e-10);
    }
}

/// Retain an independent direction whose coefficient is small because of
/// caller units rather than floating-point rank loss.
#[test]
fn test_solver_does_not_truncate_solvable_small_coefficient_direction() {
    for mode in test_modes() {
        let x = Exp::var("x");
        let y = Exp::var("y");
        let equations = vec![
            Exp::sub(x, val(1.0)),
            Exp::sub(Exp::mul(val(1e-13), y), val(1.0)),
        ];
        let solver = solver_for_mode(equations, mode);
        let initial = guess(&[("x", 0.0), ("y", 0.0)]);

        let solution = solver
            .solve(initial)
            .expect("a direction above factorization roundoff must be retained");

        assert_eq!(solution.iterations, 1);
        assert_eq!(value(&solution.values, "x"), 1.0);
        assert!((value(&solution.values, "y") - 1e13).abs() < 1e-3);
        assert!(solution.error.f64() <= solver.options().residual_tolerance.f64());
        assert_eq!(
            solution
                .last_linear_attempt
                .as_ref()
                .expect("one correction must retain factorization diagnostics")
                .effective
                .rank,
            2
        );
    }
}

/// Normalize variable coordinates so condition diagnostics and optional
/// ridge penalties do not depend on the caller's chosen units.
#[test]
fn test_variable_scales_normalize_jacobian_columns() {
    for mode in test_modes() {
        let x = Exp::var("x");
        let y = Exp::var("y");
        let equations = vec![
            Exp::sub(x, val(1.0)),
            Exp::sub(Exp::mul(val(1e-13), y), val(1.0)),
        ];
        let solver = solver_for_mode(equations, mode)
            .with_variable_scales(guess(&[("y", 1e13)]))
            .expect("y has a positive finite characteristic scale");
        let initial = guess(&[("x", 0.0), ("y", 0.0)]);

        let solution = solver
            .solve(initial)
            .expect("normalized variable coordinates should solve");
        let linear = solution
            .last_linear_attempt
            .expect("one correction must report its scaled factorization");

        assert_eq!(value(&solution.values, "x"), 1.0);
        assert!((value(&solution.values, "y") - 1e13).abs() < 1e-3);
        assert_eq!(linear.effective.rank, 2);
        assert!((linear.effective.cond_est.f64() - 1.0).abs() < 1e-12);
        assert_eq!(solver.variable_scale("x"), Some(num(1.0)));
        assert_eq!(solver.variable_scale("y"), Some(num(1e13)));
    }
}

/// Preserve finite caller-unit corrections across extreme scaling and
/// backtracking factors.
#[test]
fn test_scaled_update_preserves_representable_products() {
    let recovered_from_underflow =
        NewtonRaphsonSolver::<Host>::scaled_update_component(num(1e-320), num(1e-12), num(1e308)).f64();
    assert!(recovered_from_underflow.is_finite());
    assert!(recovered_from_underflow > 0.0);
    assert!((recovered_from_underflow.log10() + 24.0).abs() < 0.01);

    let recovered_from_overflow =
        NewtonRaphsonSolver::<Host>::scaled_update_component(num(1e308), num(1e-2), num(10.0)).f64();
    assert!(recovered_from_overflow.is_finite());
    assert!((recovered_from_overflow / 1e307 - 1.0).abs() < 1e-12);
}

/// Preserve a non-zero normalized derivative when coefficient and unit
/// scales span the complete finite exponent range.
#[test]
fn test_jacobian_scaling_does_not_underflow_representable_derivative() {
    for mode in test_modes() {
        let x = Exp::var("x");
        let equation = Exp::sub(Exp::mul(val(1e308), x), val(1e308));
        let solver = solver_for_mode(vec![equation], mode)
            .with_equation_scales(vec![num(1e308)])
            .expect("the equation has one positive characteristic scale")
            .with_variable_scales(guess(&[("x", 1e-308)]))
            .expect("the solve variable has one positive characteristic scale");
        let initial = guess(&[("x", 0.0)]);

        let solution = solver
            .solve(initial)
            .expect("the representable normalized derivative must reach the root");

        assert_eq!(solution.iterations, 1);
        assert!((value(&solution.values, "x") - 1.0).abs() < 1e-12);
        assert!(solution.error.f64() < 1e-12);
    }
}

/// Use equation characteristic scales consistently for least-squares
/// weighting, convergence, stationarity, Armijo, and diagnostics.
#[test]
fn test_equation_scales_define_dimensionless_residual_objective() {
    for mode in test_modes() {
        let x = Exp::var("x");
        let equations = vec![
            Exp::sub(x.clone(), val(1.0)),
            Exp::mul(val(1000.0), Exp::sub(x, val(2.0))),
        ];
        let solver = solver_for_mode(equations, mode)
            .with_equation_scales(vec![num(1.0), num(1000.0)])
            .expect("one positive scale is supplied per equation");
        let initial = guess(&[("x", 0.0)]);

        let error = solver
            .solve(initial)
            .expect_err("the equally weighted equations are inconsistent");
        let diagnostic = expect_stationary_non_root(error);

        assert!((value(&diagnostic.values, "x") - 1.5).abs() < 1e-12);
        assert!((diagnostic.error.f64() - 0.5_f64.sqrt()).abs() < 1e-12);
        assert!((diagnostic.equations[0].residual.f64() - 0.5).abs() < 1e-12);
        assert!((diagnostic.equations[0].scaled_residual.f64() - 0.5).abs() < 1e-12);
        assert!((diagnostic.equations[1].residual.f64() + 500.0).abs() < 1e-9);
        assert!((diagnostic.equations[1].scaled_residual.f64() + 0.5).abs() < 1e-12);
        assert_eq!(solver.equation_scales(), &[num(1.0), num(1000.0)]);
    }
}

/// Ensure a nonlinear wide system certifies roots before mutation and still
/// makes genuine minimum-norm residual corrections away from a root.
#[test]
fn test_nonlinear_underdetermined_solver_never_starves_corrections() {
    for mode in test_modes() {
        let x = Exp::var("x");
        let y = Exp::var("y");
        let equation = Exp::sub(Exp::mul(x, y), val(1.0));
        let solver = solver_for_mode(vec![equation], mode)
            .with_residual_tolerance(num(1e-12))
            .with_regularization(num(0.0));

        let exact_root = guess(&[("x", 2.0), ("y", 0.5)]);
        let solution = solver
            .solve(exact_root)
            .expect("an exact nonlinear root must remain unchanged");
        assert_eq!(solution.iterations, 0);
        assert_eq!(value(&solution.values, "x"), 2.0);
        assert_eq!(value(&solution.values, "y"), 0.5);

        let initial = guess(&[("x", 2.0), ("y", 1.0)]);
        let solution = solver
            .solve(initial)
            .expect("a nonlinear wide system must execute Newton corrections");
        assert!(solution.iterations > 0);
        assert!((value(&solution.values, "x") * value(&solution.values, "y") - 1.0).abs() < 1e-12);
    }
}

/// Confirm that a wide solve preserves the initial Jacobian-null-space
/// component by applying the unique minimum-norm Newton correction.
#[test]
fn test_underconstrained_solver_preserves_null_space_component() {
    for mode in test_modes() {
        let x = Exp::var("x");
        let y = Exp::var("y");
        let equation = Exp::sub(Exp::add(x, y), val(1.0));
        let solver = solver_for_mode(vec![equation], mode);
        let initial = guess(&[("x", 10.0), ("y", -10.0)]);

        let solution = solver
            .solve(initial)
            .expect("linear constraint should solve");

        assert!((value(&solution.values, "x") - 10.5).abs() < 1e-10);
        assert!((value(&solution.values, "y") + 9.5).abs() < 1e-10);
    }
}

/// Confirm that default settings accept a well-conditioned retained SVD
/// subspace without changing policy merely because a variable is unused.
#[test]
fn test_rank_deficient_overconstrained_converges_with_default_settings() {
    let mut serial_solution: Option<Solution> = None;
    for mode in test_modes() {
        let is_serial = matches!(mode, Mode::Serial);
        let x = Exp::var("x");
        let y = Exp::var("y");
        let y_zero = Exp::mul(y.clone(), val(0.0));

        let eq1 = Exp::sub(Exp::add(x.clone(), y_zero.clone()), val(1.0));
        let eq2 = Exp::sub(
            Exp::add(Exp::mul(x.clone(), val(2.0)), y_zero.clone()),
            val(2.0),
        );
        let eq3 = Exp::sub(
            Exp::add(Exp::mul(x.clone(), val(3.0)), y_zero.clone()),
            val(3.0),
        );

        let solver = solver_for_mode(vec![eq1, eq2, eq3], mode)
            .with_residual_tolerance(num(1e-12))
            .with_max_iterations(10);

        let mut initial = NamedValues::new();
        initial.insert("x", num(0.0));
        initial.insert("y", num(0.0));

        let solution = solver.solve(initial).expect("expected solver to converge");
        if is_serial {
            serial_solution = Some(solution.clone());
        } else {
            let serial = serial_solution.as_ref().expect("serial solution missing");
            assert_solution_close(serial, &solution, 1e-10);
        }
        assert!((value(&solution.values, "x") - 1.0).abs() < 1e-10);
        assert!((value(&solution.values, "y") - 0.0).abs() < 1e-10);
    }
}

/// Confirm that a rank-deficient Jacobian is directly solvable without
/// regularization when its Moore-Penrose correction is well conditioned.
#[test]
fn test_rank_deficient_overconstrained_converges_without_regularization() {
    let mut serial_solution: Option<Solution> = None;
    for mode in test_modes() {
        let is_serial = matches!(mode, Mode::Serial);
        let x = Exp::var("x");
        let y = Exp::var("y");
        let y_zero = Exp::mul(y.clone(), val(0.0));

        let eq1 = Exp::sub(Exp::add(x.clone(), y_zero.clone()), val(1.0));
        let eq2 = Exp::sub(
            Exp::add(Exp::mul(x.clone(), val(2.0)), y_zero.clone()),
            val(2.0),
        );
        let eq3 = Exp::sub(
            Exp::add(Exp::mul(x.clone(), val(3.0)), y_zero.clone()),
            val(3.0),
        );

        let solver = solver_for_mode(vec![eq1, eq2, eq3], mode)
            .with_regularization(num(0.0))
            .with_residual_tolerance(num(1e-12))
            .with_max_iterations(10);

        let mut initial = NamedValues::new();
        initial.insert("x", num(0.0));
        initial.insert("y", num(0.0));

        let solution = solver
            .solve(initial)
            .expect("the SVD pseudoinverse should solve without implicit regularization");
        if is_serial {
            serial_solution = Some(solution.clone());
        } else {
            let serial = serial_solution.as_ref().expect("serial solution missing");
            assert_solution_close(serial, &solution, 1e-10);
        }
        assert!((value(&solution.values, "x") - 1.0).abs() < 1e-10);
        assert!(value(&solution.values, "y").abs() < 1e-10);
    }
}

/// Confirm that a dependent square system uses the canonical SVD directly,
/// even when augmented regularization is disabled.
#[test]
fn test_rank_deficient_square_system_converges_without_regularization() {
    let mut serial_solution: Option<Solution> = None;
    for mode in test_modes() {
        let is_serial = matches!(mode, Mode::Serial);

        let x = Exp::var("x");
        let y = Exp::var("y");
        let first_equation = Exp::sub(Exp::add(x, y), val(1.0));
        let second_equation = Exp::mul(val(2.0), first_equation.clone());
        let solver = solver_for_mode(vec![first_equation, second_equation], mode)
            .with_regularization(num(0.0))
            .with_residual_tolerance(num(1e-12))
            .with_max_iterations(10);

        let initial = guess(&[("x", 0.0), ("y", 0.0)]);
        let solution = solver
            .solve(initial)
            .expect("the canonical SVD should solve dependent equations");

        if is_serial {
            serial_solution = Some(solution.clone());
        } else {
            let serial = serial_solution.as_ref().expect("serial solution missing");
            assert_solution_close(serial, &solution, 1e-10);
        }
        assert!(solution.error.f64() < 1e-12);
        assert!((value(&solution.values, "x") - 0.5).abs() < 1e-10);
        assert!((value(&solution.values, "y") - 0.5).abs() < 1e-10);
        let linear = solution
            .last_linear_attempt
            .expect("the accepted correction must retain SVD diagnostics");
        assert_eq!(linear.effective.rank, 1);
        assert_eq!(linear.regularization, None);
    }
}

/// Confirm that an explicitly regularized square solve uses the augmented
/// ridge system rather than first applying its direct correction.
#[test]
fn test_ill_conditioned_square_system_uses_regularized_least_squares() {
    for mode in test_modes() {
        let x = Exp::var("x");
        let y = Exp::var("y");
        let first_equation = Exp::sub(
            Exp::add(x, Exp::mul(val(1e8), y.clone())),
            val(1e8 + 1.0),
        );
        let second_equation = Exp::sub(y, val(1.0));
        let solver = solver_for_mode(vec![first_equation, second_equation], mode)
            .with_residual_tolerance(num(1e-12))
            .with_regularization(num(1e-8))
            .with_max_iterations(1);
        let initial = guess(&[("x", 0.0), ("y", 0.0)]);

        let error = solver
            .solve(initial)
            .expect_err("one regularized update should not masquerade as an exact root");

        match error {
            SolverError::NoConvergence(diagnostic) => {
                assert_eq!(diagnostic.iterations, 1);
                assert!(value(&diagnostic.values, "x").abs() < 0.1);
                assert!(diagnostic.error.f64() > 1e-12);
                let linear = diagnostic
                    .last_linear_attempt
                    .as_ref()
                    .expect("regularized correction diagnostics must be retained");
                assert_eq!(linear.regularization, Some(num(1e-8)));
            }
            other => panic!("expected NoConvergence, got {other:?}"),
        }
    }
}

/// Verify that explicit regularization performs one predictable augmented
/// solve with exactly the caller's ridge strength.
#[test]
fn test_regularization_uses_exact_configured_strength() {
    let x = Exp::var("x");
    let y = Exp::var("y");
    let equation = Exp::add(x, y);
    let solver = solver_for_mode(vec![equation], Mode::Serial).with_regularization(num(1e-8));

    let jacobian = from_vec(vec![1.0, 0.0, 0.0, 1e-8], 2, 2)
        .expect("the fixture has a valid square shape");
    let rhs = from_vec(vec![1.0, 1.0], 2, 1)
        .expect("the fixture has a valid right-hand-side shape");
    let result = match solver.solve_least_squares_system(&jacobian, &rhs) {
        Ok(result) => result,
        Err(_) => panic!("finite ridge systems must remain solvable"),
    };

    let used_regularization = result
        .1
        .regularization
        .expect("positive regularization must select an augmented solve");
    assert_eq!(used_regularization, num(1e-8));
}

#[test]
fn test_overconstrained_consistent_system_solves() {
    let mut serial_solution: Option<Solution> = None;
    for mode in test_modes() {
        let is_serial = matches!(mode, Mode::Serial);
        let x = Exp::var("x");
        let eq1 = Exp::sub(x.clone(), val(1.0));
        let eq2 = Exp::sub(Exp::mul(x.clone(), val(2.0)), val(2.0));

        let solver = solver_for_mode(vec![eq1, eq2], mode)
            .with_residual_tolerance(num(1e-12))
            .with_max_iterations(10);

        let mut initial = NamedValues::new();
        initial.insert("x", num(0.0));

        let solution = solver.solve(initial).expect("expected solver to converge");
        if is_serial {
            serial_solution = Some(solution.clone());
        } else {
            let serial = serial_solution.as_ref().expect("serial solution missing");
            assert_solution_close(serial, &solution, 1e-10);
        }
        assert!((value(&solution.values, "x") - 1.0).abs() < 1e-10);
    }
}

#[test]
fn test_random_square_linear_systems() {
    let mut serial_solutions: Vec<Solution> = Vec::new();
    for mode in test_modes() {
        let is_serial = matches!(mode, Mode::Serial);
        let mut rng = TestRng::new(0x51ab_1e55_cafe_f00d);
        for case_index in 0..5 {
            let n = 3;
            let mut a = vec![vec![0.0; n]; n];
            for (diagonal_index, row) in a.iter_mut().enumerate() {
                for coefficient in row.iter_mut() {
                    *coefficient = rng.next_f64();
                }
                row[diagonal_index] += 2.0;
            }

            let x_true = [rng.next_f64(), rng.next_f64(), rng.next_f64()];
            let mut b = vec![0.0; n];
            for (rhs, row) in b.iter_mut().zip(&a) {
                *rhs = row
                    .iter()
                    .zip(x_true.iter())
                    .map(|(coefficient, value)| coefficient * value)
                    .sum();
            }

            let vars: Vec<Exp> = (0..n).map(|i| Exp::var(&format!("x{i}"))).collect();
            let equations: Vec<Exp> = (0..n)
                .map(|i| linear_equation(&a[i], &vars, b[i]))
                .collect();

            let solver = solver_for_mode(equations, mode)
                .with_residual_tolerance(num(1e-12))
                .with_max_iterations(20);

            let mut initial = NamedValues::new();
            for i in 0..n {
                initial.insert(&format!("x{i}"), num(0.0));
            }

            let solution = solver.solve(initial).expect("expected to solve");
            if is_serial {
                serial_solutions.push(solution.clone());
            } else {
                assert_solution_close(&serial_solutions[case_index], &solution, 1e-8);
            }
            for (i, expected_value) in x_true.iter().enumerate() {
                let found = value(&solution.values, &format!("x{i}"));
                assert!((found - expected_value).abs() < 1e-8);
            }
        }
    }
}

#[test]
fn test_random_overconstrained_linear_systems() {
    let mut serial_solutions: Vec<Solution> = Vec::new();
    for mode in test_modes() {
        let is_serial = matches!(mode, Mode::Serial);
        let mut rng = TestRng::new(0xa11c_e551_dead_beef);
        let m = 5;
        let n = 3;

        for case_index in 0..5 {
            let mut a = vec![vec![0.0; n]; m];
            for row in &mut a {
                for coefficient in row {
                    *coefficient = rng.next_f64();
                }
            }
            for (diagonal_index, row) in a.iter_mut().take(n).enumerate() {
                row[diagonal_index] += 2.0;
            }

            let x_true = [rng.next_f64(), rng.next_f64(), rng.next_f64()];
            let mut b = vec![0.0; m];
            for (rhs, row) in b.iter_mut().zip(&a) {
                *rhs = row
                    .iter()
                    .zip(x_true.iter())
                    .map(|(coefficient, value)| coefficient * value)
                    .sum();
            }

            let vars: Vec<Exp> = (0..n).map(|i| Exp::var(&format!("x{i}"))).collect();
            let equations: Vec<Exp> = (0..m)
                .map(|i| linear_equation(&a[i], &vars, b[i]))
                .collect();

            let solver = solver_for_mode(equations, mode)
                .with_residual_tolerance(num(1e-12))
                .with_max_iterations(20);

            let mut initial = NamedValues::new();
            for i in 0..n {
                initial.insert(&format!("x{i}"), num(0.0));
            }

            let solution = solver.solve(initial).expect("expected to solve");
            if is_serial {
                serial_solutions.push(solution.clone());
            } else {
                assert_solution_close(&serial_solutions[case_index], &solution, 1e-8);
            }
            for (i, expected_value) in x_true.iter().enumerate() {
                let found = value(&solution.values, &format!("x{i}"));
                assert!((found - expected_value).abs() < 1e-8);
            }
        }
    }
}

#[test]
fn test_random_underdetermined_min_norm_structure() {
    let mut serial_solutions: Vec<Solution> = Vec::new();
    for mode in test_modes() {
        let is_serial = matches!(mode, Mode::Serial);
        let mut rng = TestRng::new(0x0ddc_affe_fade_bead);
        let _m = 2;
        let n = 4;
        let vars: Vec<Exp> = (0..n).map(|i| Exp::var(&format!("x{i}"))).collect();

        for case_index in 0..5 {
            let b0 = rng.next_f64();
            let b1 = rng.next_f64();
            let x2_zero = Exp::mul(vars[2].clone(), val(0.0));
            let x3_zero = Exp::mul(vars[3].clone(), val(0.0));
            let eq1 = Exp::sub(Exp::add(vars[0].clone(), x2_zero.clone()), val(b0));
            let eq2 = Exp::sub(Exp::add(vars[1].clone(), x3_zero.clone()), val(b1));

            let solver = solver_for_mode(vec![eq1, eq2], mode)
                .with_residual_tolerance(num(1e-12))
                .with_max_iterations(20);

            let mut initial = NamedValues::new();
            for i in 0..n {
                initial.insert(&format!("x{i}"), num(0.0));
            }

            let solution = solver.solve(initial).expect("expected to solve");
            if is_serial {
                serial_solutions.push(solution.clone());
            } else {
                assert_solution_close(&serial_solutions[case_index], &solution, 1e-10);
            }
            assert!((value(&solution.values, "x0") - b0).abs() < 1e-10);
            assert!((value(&solution.values, "x1") - b1).abs() < 1e-10);
            assert!(value(&solution.values, "x2").abs() < 1e-10);
            assert!(value(&solution.values, "x3").abs() < 1e-10);
        }
    }
}
