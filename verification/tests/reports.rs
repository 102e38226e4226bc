//! Errors and reports in words.
use constraint_solver::compiler::EvaluationError;
use constraint_solver::mode::build_thread_pool;
use constraint_solver::{
    Binary64, CompileError, Compiler, Elementary, EquationTrace, Exp, MatrixError, MatrixOperand,
    Mode, NamedValues, NewtonRaphsonSolver, Notation, SolverError, SolverOptions,
};

/// The number that a primitive stands for.
fn num(x: f64) -> Binary64 {
    Binary64::from_bits(x.to_bits())
}

/// The primitive for a number.
trait Primitive {
    fn f64(self) -> f64;
}

impl Primitive for Binary64 {
    fn f64(self) -> f64 {
        f64::from_bits(self.bits)
    }
}

/// Elementary functions and decimal texts of the platform.
struct Host;

impl Elementary for Host {
    fn power(&self, base: Binary64, exponent: Binary64) -> Binary64 {
        num(base.f64().powf(exponent.f64()))
    }

    fn sin(&self, x: Binary64) -> Binary64 {
        num(x.f64().sin())
    }

    fn cos(&self, x: Binary64) -> Binary64 {
        num(x.f64().cos())
    }

    fn ln(&self, x: Binary64) -> Binary64 {
        num(x.f64().ln())
    }

    fn exp(&self, x: Binary64) -> Binary64 {
        num(x.f64().exp())
    }
}

impl Notation for Host {
    fn plain(&self, x: Binary64) -> String {
        format!("{}", x.f64())
    }

    fn fixed(&self, x: Binary64) -> String {
        format!("{:8.4}", x.f64())
    }

    fn scientific(&self, x: Binary64) -> String {
        format!("{:.2e}", x.f64())
    }
}

fn val(x: f64) -> Exp {
    Exp::val(num(x))
}

fn power(base: Exp, exponent: f64) -> Exp {
    Exp::power(base, num(exponent))
}

fn guess(values: &[(&str, f64)]) -> NamedValues {
    let mut named = NamedValues::new();
    for (name, x) in values {
        named.insert(name, num(*x));
    }
    named
}

fn value(values: &NamedValues, name: &str) -> f64 {
    values.get(name).expect("the variable has a value").f64()
}

fn solver(equations: &[Exp]) -> NewtonRaphsonSolver<Host> {
    NewtonRaphsonSolver::new(Compiler::compile(equations).expect("compile failed"), Host)
}

fn invalid<Made>(r: Result<Made, SolverError>) -> String {
    match r {
        Err(SolverError::InvalidInput(message)) => message,
        Err(other) => panic!("unexpected error: {other:?}"),
        Ok(_) => panic!("the input is not valid"),
    }
}

#[test]
fn every_matrix_error_has_its_message() {
    let operation = "solve";
    let expected = [
        (
            MatrixError::DimensionMismatch { operation, left: (2, 3), right: (4, 10) },
            "Matrix dimension mismatch for solve: left is 2x3, right is 4x10",
        ),
        (
            MatrixError::OutputShapeMismatch { operation, expected: (1, 1), actual: (0, 12) },
            "Output shape mismatch for solve: expected 1x1, got 0x12",
        ),
        (
            MatrixError::WorkspaceShapeMismatch { operation, expected: (7, 8), actual: (9, 99) },
            "Workspace shape mismatch for solve: expected 7x8, got 9x99",
        ),
        (
            MatrixError::InvalidDataLength { rows: 2, cols: 2, expected: 4, actual: 105 },
            "Matrix data length mismatch for shape 2x2: expected 4, got 105",
        ),
        (
            MatrixError::DimensionSumOverflow { operation, left: usize::MAX, right: 1 },
            "Matrix dimension sum overflow for solve: 18446744073709551615 + 1",
        ),
        (
            MatrixError::NonFiniteInput { operation, operand: MatrixOperand::LeftHandSide },
            "Non-finite left-hand side supplied to solve",
        ),
        (
            MatrixError::NonFiniteInput { operation, operand: MatrixOperand::CoefficientMatrix },
            "Non-finite coefficient matrix supplied to solve",
        ),
        (
            MatrixError::NonFiniteInput { operation, operand: MatrixOperand::RightHandSide },
            "Non-finite right-hand side supplied to solve",
        ),
        (MatrixError::NonFiniteScalar { operation }, "Non-finite scalar supplied to solve"),
        (MatrixError::NonFiniteFactor { operation }, "Non-finite factor encountered during solve"),
        (MatrixError::NonFiniteResult { operation }, "Non-finite result produced during solve"),
        (
            MatrixError::FactorizationDidNotConverge { operation, sweeps: 100 },
            "Factorization solve did not converge after 100 sweeps",
        ),
    ];
    for (error, message) in expected {
        assert_eq!(error.message(), message);
        assert_eq!(error.clone(), error);
    }
}

#[test]
fn compile_and_evaluation_errors_have_their_messages() {
    let error = Compiler::compile(&[Exp::var("")]).expect_err("an empty name");
    assert_eq!(error, CompileError::EmptyVariableName);
    assert_eq!(error.message(), "Variable name cannot be empty");
    let missing = EvaluationError::missing_variable("speed");
    assert_eq!(missing.message(), "compiled evaluation map is missing variable 'speed'");
    assert_eq!(
        SolverError::from_evaluation(&missing).message(),
        "Invalid solver input: Internal compiled-system invariant failed: \
         compiled evaluation map is missing variable 'speed'"
    );
}

#[test]
fn guesses_are_refused_with_the_names_at_fault() {
    let solver = solver(&[Exp::sub(Exp::add(Exp::var("x"), Exp::var("y")), val(1.0))]);
    assert_eq!(
        invalid(solver.solve(guess(&[("z", 0.0), ("a", 0.0), ("x", 1.0)]))),
        "Initial guess includes unknown variables: [\"a\", \"z\"]"
    );
    assert_eq!(
        invalid(solver.solve(guess(&[("q\"u\n", 0.0)]))),
        "Initial guess includes unknown variables: [\"q\\\"u\\n\"]"
    );
    assert_eq!(
        invalid(solver.solve(guess(&[("y", f64::NAN), ("x", f64::INFINITY)]))),
        "Initial guess includes non-finite values for variables: [\"x\", \"y\"]"
    );
    assert_eq!(
        invalid(solver.solve(guess(&[("y", 2.0)]))),
        "Initial guess missing values for variables: [\"x\"]"
    );
    assert_eq!(
        invalid(solver.solve(NamedValues::new())),
        "Initial guess missing values for variables: [\"x\", \"y\"]"
    );
    let assignment = solver
        .map_initial_guess(&guess(&[("y", 2.0), ("x", -1.0)]))
        .expect("every variable has a value");
    let names = ["x", "y"];
    let compiled =
        Compiler::compile(&[Exp::sub(Exp::add(Exp::var("x"), Exp::var("y")), val(1.0))])
            .expect("compile failed");
    for (name, expected) in names.iter().zip([-1.0, 2.0]) {
        let id = compiled.variable_id(name).expect("a variable");
        assert_eq!(assignment.get(id).expect("a value").f64(), expected);
    }
}

#[test]
fn options_have_their_defaults_and_faults() {
    let options = SolverOptions::default();
    assert_eq!(options.max_iterations, 100);
    assert_eq!(options.residual_tolerance.f64(), 1e-10);
    assert_eq!(options.stationarity_tolerance.f64(), 1e-10);
    assert_eq!(options.initial_step_size.f64(), 1.0);
    assert_eq!(options.regularization.f64(), 0.0);
    assert_eq!(options.armijo_coefficient.f64(), 1e-4);
    assert_eq!(options.line_search_max_trials, 64);
    assert_eq!(options.line_search_min_step.f64(), 1e-12);
    assert!(options.find_fault().is_none());

    let faulty = |change: &dyn Fn(&mut SolverOptions)| {
        let mut options = SolverOptions::default();
        change(&mut options);
        options.find_fault().expect("a fault")
    };
    assert_eq!(faulty(&|o| o.max_iterations = 0), "max_iterations must be greater than zero");
    for bad in [0.0, -1.0, f64::NAN, f64::INFINITY] {
        assert_eq!(
            faulty(&|o| o.residual_tolerance = num(bad)),
            "residual_tolerance must be finite and greater than zero"
        );
    }
    for bad in [0.0, 1.5, f64::NAN] {
        assert_eq!(
            faulty(&|o| o.stationarity_tolerance = num(bad)),
            "stationarity_tolerance must be finite and in the interval (0, 1]"
        );
        assert_eq!(
            faulty(&|o| o.initial_step_size = num(bad)),
            "initial_step_size must be finite and in the interval (0, 1]"
        );
    }
    for bad in [-1e-300, f64::NAN, f64::INFINITY] {
        assert_eq!(
            faulty(&|o| o.regularization = num(bad)),
            "regularization must be finite and non-negative"
        );
    }
    for bad in [0.0, 1.0, f64::NAN] {
        assert_eq!(
            faulty(&|o| o.armijo_coefficient = num(bad)),
            "armijo_coefficient must be finite and in the interval (0, 1)"
        );
    }
    assert_eq!(
        faulty(&|o| o.line_search_max_trials = 0),
        "line_search_max_trials must be greater than zero"
    );
    for bad in [0.0, 1.5, f64::NAN] {
        assert_eq!(
            faulty(&|o| o.line_search_min_step = num(bad)),
            "line_search_min_step must be finite, positive, and no greater than initial_step_size"
        );
    }
}

#[test]
fn scales_and_traces_are_refused_with_the_reason() {
    let equations = [Exp::sub(Exp::var("x"), Exp::var("p"))];
    let make = || {
        let compiled = Compiler::compile(&equations).expect("compile failed");
        NewtonRaphsonSolver::new_with_variables(compiled, &["x"], Host).expect("x is a variable")
    };
    assert_eq!(
        invalid(make().with_equation_scales(vec![])),
        "Equation scale length (0) does not match number of equations (1)"
    );
    assert_eq!(
        invalid(make().with_equation_scales(vec![num(0.0)])),
        "Equation scale at index 0 must be finite and greater than zero"
    );
    assert_eq!(
        invalid(make().with_variable_scales(guess(&[("x", f64::NAN)]))),
        "Variable scale for 'x' must be finite and greater than zero"
    );
    assert_eq!(
        invalid(make().with_variable_scales(guess(&[("w", 1.0)]))),
        "Unknown variable scale name 'w'"
    );
    assert_eq!(
        invalid(make().with_variable_scales(guess(&[("p", 1.0)]))),
        "Variable scale 'p' refers to a fixed parameter, not a solve variable"
    );
    assert_eq!(
        invalid(make().with_equation_traces(vec![None, None])),
        "Equation trace length (2) does not match number of equations (1)"
    );
    let compiled = Compiler::compile(&equations).expect("compile failed");
    assert_eq!(
        invalid(NewtonRaphsonSolver::new_with_variables(compiled, &["x", "y"], Host)),
        "Unknown variable 'y'"
    );
    let traced = make()
        .with_equation_traces(vec![Some(EquationTrace {
            constraint_id: 7,
            description: "x position".to_string(),
        })])
        .expect("one trace for one equation");
    assert_eq!(traced.trace_for_equation(0).expect("a trace").constraint_id, 7);
    assert!(traced.trace_for_equation(1).is_none());
    assert!(make().trace_for_equation(0).is_none());
}

#[test]
fn modes_without_threads_are_refused() {
    assert_eq!(Mode::default(), Mode::Serial);
    assert!(build_thread_pool(&Mode::Serial).expect("no pool is needed").is_none());
    assert_eq!(
        build_thread_pool(&Mode::Parallel { thread_count: 0 }).err().expect("no threads"),
        "thread_count must be greater than 0"
    );
    let pool = build_thread_pool(&Mode::Parallel { thread_count: 2 })
        .expect("threads start")
        .expect("a pool");
    assert_eq!(pool.current_num_threads(), 2);
    let equations = [Exp::sub(Exp::var("x"), val(1.0))];
    let compiled = Compiler::compile(&equations).expect("compile failed");
    assert_eq!(
        invalid(NewtonRaphsonSolver::new_with_mode(
            compiled,
            Mode::Parallel { thread_count: 0 },
            Host
        )),
        "thread_count must be greater than 0"
    );
}

#[test]
fn failures_name_their_cause() {
    let solver = solver(&[Exp::ln(Exp::var("x"))]);
    let error = solver.solve(guess(&[("x", -1.0)])).expect_err("no real logarithm");
    assert!(matches!(error, SolverError::NonFiniteEvaluation(_)));
    assert_eq!(
        error.message(),
        "Non-finite solver evaluation: Residual evaluation produced NaN or infinity"
    );
    assert!(error.source().is_none());
    assert_eq!(
        SolverError::InvalidInput("reason".to_string()).message(),
        "Invalid solver input: reason"
    );
}

#[test]
fn exhausted_updates_name_the_final_error() {
    let solver = solver(&[Exp::sub(power(Exp::var("x"), 2.0), val(2.0))]).with_max_iterations(1);
    let error = solver.solve(guess(&[("x", 1.0)])).expect_err("one update is too few");
    assert_eq!(
        error.message(),
        "Solver did not converge: Failed to converge after 1 accepted updates. \
         Final error: 2.50e-1"
    );
    match error {
        SolverError::NoConvergence(report) => {
            assert_eq!(report.iterations, 1);
            assert_eq!(value(&report.values, "x"), 1.5);
            assert_eq!(report.error.f64(), 0.25);
        }
        other => panic!("unexpected error: {other:?}"),
    }
}

#[test]
fn stationary_states_name_both_tolerances() {
    let x = Exp::var("x");
    let solver = solver(&[Exp::add(power(x, 2.0), val(1.0))]);
    let error = solver.solve(guess(&[("x", 0.0)])).expect_err("no real root");
    assert_eq!(
        error.message(),
        "Stationary point is not a constraint root: Residual norm 1.00e0 exceeds tolerance \
         1.00e-10, while the normalized residual gradient satisfies stationarity tolerance \
         1.00e-10"
    );
}

#[test]
fn named_values_keep_names_in_order() {
    let mut named = NamedValues::new();
    assert_eq!(named.len(), 0);
    for (name, x) in [("b", 2.0), ("a", 1.0), ("ab", 3.0), ("b", 4.0), ("", 5.0), ("B", 6.0)] {
        named.insert(name, num(x));
    }
    let listed: Vec<(String, f64)> = (0..named.len())
        .map(|i| (named.name_at(i).clone(), named.value_at(i).f64()))
        .collect();
    assert_eq!(
        listed,
        vec![
            ("".to_string(), 5.0),
            ("B".to_string(), 6.0),
            ("a".to_string(), 1.0),
            ("ab".to_string(), 3.0),
            ("b".to_string(), 4.0),
        ]
    );
    assert_eq!(named.get("b").expect("a value").f64(), 4.0);
    assert!(named.get("c").is_none());
}
