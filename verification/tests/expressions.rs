//! Expressions, compilation and derivatives.
use constraint_solver::compiler::{Assignment, EvaluationError, VarId, VarTable};
use constraint_solver::jacobian::{Jacobian, JacobianWorkspace};
use constraint_solver::{
    Binary64, CompileError, Compiler, Elementary, Exp, Matrix, NamedValues, NewtonRaphsonSolver,
    Notation,
};

/// The number that a primitive stands for.
fn num(x: f64) -> Binary64 {
    Binary64::from_bits(x.to_bits())
}

/// The primitive for a number.
trait Primitive {
    fn f64(self) -> f64;
}

impl Primitive for Binary64 {
    fn f64(self) -> f64 {
        f64::from_bits(self.bits)
    }
}

/// Elementary functions and decimal texts of the platform.
struct Host;

impl Elementary for Host {
    fn power(&self, base: Binary64, exponent: Binary64) -> Binary64 {
        num(base.f64().powf(exponent.f64()))
    }

    fn sin(&self, x: Binary64) -> Binary64 {
        num(x.f64().sin())
    }

    fn cos(&self, x: Binary64) -> Binary64 {
        num(x.f64().cos())
    }

    fn ln(&self, x: Binary64) -> Binary64 {
        num(x.f64().ln())
    }

    fn exp(&self, x: Binary64) -> Binary64 {
        num(x.f64().exp())
    }
}

impl Notation for Host {
    fn plain(&self, x: Binary64) -> String {
        format!("{}", x.f64())
    }

    fn fixed(&self, x: Binary64) -> String {
        format!("{:8.4}", x.f64())
    }

    fn scientific(&self, x: Binary64) -> String {
        format!("{:.2e}", x.f64())
    }
}

fn val(x: f64) -> Exp {
    Exp::val(num(x))
}

fn power(base: Exp, exponent: f64) -> Exp {
    Exp::power(base, num(exponent))
}

fn guess(values: &[(&str, f64)]) -> NamedValues {
    let mut named = NamedValues::new();
    for (name, x) in values {
        named.insert(name, num(*x));
    }
    named
}

fn value(values: &NamedValues, name: &str) -> f64 {
    values.get(name).expect("the variable has a value").f64()
}

struct TestRng {
    state: u64,
}

impl TestRng {
    fn new(seed: u64) -> Self {
        Self { state: seed }
    }

    fn next_u32(&mut self) -> u32 {
        self.state = self.state.wrapping_mul(6364136223846793005).wrapping_add(1);
        (self.state >> 32) as u32
    }

    fn next_f64(&mut self) -> f64 {
        let v = self.next_u32() as f64 / u32::MAX as f64;
        2.0 * v - 1.0
    }

    fn next_f64_range(&mut self, min: f64, max: f64) -> f64 {
        min + (max - min) * (self.next_u32() as f64 / u32::MAX as f64)
    }
}

/// The Jacobian of equations by all their variables, with the table of these.
fn jacobian_of(equations: &[Exp]) -> (Jacobian, VarTable) {
    let compiled = Compiler::compile(equations).expect("compile failed");
    let (expressions, table) = compiled.into_parts();
    (Jacobian::new(expressions, table.all_var_ids(), &Host), table)
}

#[test]
fn test_constructors_match_variants() {
    assert_eq!(Exp::var("x"), Exp::Var("x".to_string()));
    assert_eq!(val(2.5), Exp::Val(num(2.5)));

    let expr = Exp::add(val(1.0), val(2.0));
    assert_eq!(
        expr,
        Exp::Add(Box::new(Exp::Val(num(1.0))), Box::new(Exp::Val(num(2.0))))
    );
}

#[test]
fn test_display_formats_expression() {
    let x = Exp::var("x");
    let y = Exp::var("y");
    let expr = Exp::sub(
        Exp::add(power(x.clone(), 2.0), Exp::mul(val(3.0), y.clone())),
        val(1.0),
    );

    assert_eq!(expr.text(&Host), "(((x^2) + (3 * y)) - 1)");
}

#[test]
fn test_arithmetic_operators_preserve_expression_structure() {
    let x = Exp::var("x");
    let y = Exp::var("y");

    let borrowed_sum = &x + &y;
    assert_eq!(borrowed_sum, Exp::add(x.clone(), y.clone()));

    let owned_product = x.clone() * y.clone();
    assert_eq!(owned_product, Exp::mul(x.clone(), y.clone()));

    let scalar_right = x.clone() - num(2.0);
    assert_eq!(scalar_right, Exp::sub(x.clone(), val(2.0)));

    let scalar_left = num(2.0) / &x;
    assert_eq!(scalar_left, Exp::div(val(2.0), x.clone()));

    let borrowed_negation = -&y;
    assert_eq!(borrowed_negation, Exp::neg(y));
}

#[test]
fn test_operator_expression_compiles_and_solves() {
    let x = Exp::var("x");
    let equation = num(2.0) / (&x + num(1.0)) - num(1.0);
    let compiled = Compiler::compile(&[equation]).expect("operator tree must compile");
    let solver = NewtonRaphsonSolver::new(compiled, Host);
    let initial = guess(&[("x", 0.0)]);

    let solution = solver.solve(initial).expect("operator tree must solve");
    assert!((value(&solution.values, "x") - 1.0).abs() < 1e-10);
}

#[test]
fn test_logarithm_expression_compiles_differentiates_and_solves() {
    let x = Exp::var("x");
    let equation = Exp::ln(x) - num(1.0);
    let compiled = Compiler::compile(&[equation]).expect("logarithm tree must compile");
    let solver = NewtonRaphsonSolver::new(compiled, Host).with_residual_tolerance(num(1e-12));
    let initial = guess(&[("x", 2.0)]);

    let solution = solver
        .solve(initial)
        .expect("logarithm equation must solve");

    assert!((value(&solution.values, "x") - std::f64::consts::E).abs() < 1e-10);
    assert!(solution.error.f64() < 1e-12);
}

/// Every function and operator has its own text.
#[test]
fn texts_name_every_operation() {
    let x = Exp::var("x");
    assert_eq!(Exp::neg(x.clone()).text(&Host), "(-x)");
    assert_eq!(Exp::sin(x.clone()).text(&Host), "sin(x)");
    assert_eq!(Exp::cos(x.clone()).text(&Host), "cos(x)");
    assert_eq!(Exp::ln(x.clone()).text(&Host), "ln(x)");
    assert_eq!(Exp::exp(x.clone()).text(&Host), "exp(x)");
    assert_eq!(Exp::div(x.clone(), val(0.5)).text(&Host), "(x / 0.5)");
    assert_eq!(Exp::power(x, num(-1.5)).text(&Host), "(x^-1.5)");
}

/// A number or a reference converts into an expression.
#[test]
fn conversions_keep_the_operand() {
    let x = Exp::var("x");
    assert_eq!(Exp::from(num(4.0)), val(4.0));
    assert_eq!(Exp::from(&x), x);
    assert_eq!(num(1.0) - x.clone(), Exp::sub(val(1.0), x.clone()));
    assert_eq!(x.clone() / &x, Exp::div(x.clone(), x.clone()));
    assert_eq!(-x.clone(), Exp::neg(x));
}

#[test]
fn compiled_system_exposes_stable_metadata() {
    let equations = vec![
        Exp::sub(Exp::var("y"), Exp::var("x")),
        Exp::add(Exp::var("x"), Exp::var("z")),
    ];

    let compiled = Compiler::compile(&equations).expect("valid system should compile");

    assert_eq!(compiled.equation_count(), 2);
    assert_eq!(compiled.variable_count(), 3);
    assert_eq!(compiled.variable_names(), &["y", "x", "z"]);
    assert!(compiled.contains_variable("x"));
    assert!(!compiled.contains_variable("missing"));
    assert!(!compiled.is_empty());
}

#[test]
fn empty_compiled_system_reports_no_equations_or_variables() {
    let compiled = Compiler::compile(&[]).expect("empty systems are valid to compile");

    assert_eq!(compiled.equation_count(), 0);
    assert_eq!(compiled.variable_count(), 0);
    assert!(compiled.variable_names().is_empty());
    assert!(compiled.is_empty());
}

/// A variable without a name does not compile.
#[test]
fn empty_names_are_refused() {
    let error = Compiler::compile(&[Exp::add(Exp::var("x"), Exp::var(""))])
        .err()
        .expect("the empty name cannot be addressed");
    assert_eq!(error, CompileError::EmptyVariableName);
    assert_eq!(error.message(), "Variable name cannot be empty");
}

/// Registering a name twice gives the same number.
#[test]
fn registration_is_stable() {
    let mut table = VarTable::new();
    let first = table.register("a").expect("a name");
    let second = table.register("b").expect("a name");
    assert_eq!(table.register("a"), Ok(first));
    assert_eq!((first, second), (VarId::new(0), VarId::new(1)));
    assert_eq!(table.register(""), Err(CompileError::EmptyVariableName));
    assert_eq!(table.len(), 2);
    assert_eq!(table.names(), &["a", "b"]);
    assert_eq!(table.get_id("b"), Some(second));
    assert_eq!(table.get_id("c"), None);
    assert_eq!(table.all_var_ids(), vec![first, second]);
}

/// A missing variable is named, the leftmost first.
#[test]
fn evaluation_names_the_missing_variable() {
    let (jacobian, table) = jacobian_of(&[Exp::mul(Exp::var("x"), Exp::var("y"))]);
    let mut vars = Assignment::new();
    let mut out = Matrix::new(1, 1);
    let error = jacobian
        .evaluate_functions_checked_into(&Host, &vars, &mut out)
        .expect_err("no variable has a value");
    assert_eq!(error, EvaluationError::missing_variable("x"));
    vars.insert(table.get_id("x").unwrap(), num(2.0));
    let error = jacobian
        .evaluate_functions_checked_into(&Host, &vars, &mut out)
        .expect_err("one variable has no value");
    assert_eq!(
        error.message(),
        "compiled evaluation map is missing variable 'y'"
    );
    vars.insert(table.get_id("y").unwrap(), num(3.0));
    jacobian
        .evaluate_functions_checked_into(&Host, &vars, &mut out)
        .expect("all variables have values");
    assert_eq!(out[(0, 0)].f64(), 6.0);
}

/// Build `sum(coefficients[i] * variables[i]^2) - rhs`, whose derivatives have
/// a simple closed form.
fn nonlinear_equation(coeffs: &[f64], vars: &[Exp], rhs: f64) -> Exp {
    let mut sum = val(0.0);
    for (coeff, var) in coeffs.iter().zip(vars.iter()) {
        let term = Exp::mul(val(*coeff), Exp::mul(var.clone(), var.clone()));
        sum = Exp::add(sum, term);
    }
    Exp::sub(sum, val(rhs))
}

#[test]
fn test_jacobian_2x2() {
    let x = Exp::var("x");
    let y = Exp::var("y");

    let f1 = Exp::sub(
        Exp::add(power(x.clone(), 2.0), power(y.clone(), 2.0)),
        val(1.0),
    );

    let f2 = Exp::sub(Exp::mul(x.clone(), y.clone()), val(0.25));

    let (jacobian, table) = jacobian_of(&[f1, f2]);

    let mut vars = Assignment::new();
    let x_id = table.get_id("x").unwrap();
    let y_id = table.get_id("y").unwrap();
    vars.insert(x_id, num(0.5));
    vars.insert(y_id, num(0.5));

    let mut workspace = jacobian.workspace();
    let j_matrix = jacobian
        .evaluate_checked_in_workspace(&Host, &vars, &mut workspace)
        .expect("jacobian evaluate failed");
    assert_eq!(j_matrix.rows(), 2);
    assert_eq!(j_matrix.cols(), 2);

    assert!((j_matrix[(0, 0)].f64() - 1.0).abs() < 1e-10);
    assert!((j_matrix[(0, 1)].f64() - 1.0).abs() < 1e-10);
    assert!((j_matrix[(1, 0)].f64() - 0.5).abs() < 1e-10);
    assert!((j_matrix[(1, 1)].f64() - 0.5).abs() < 1e-10);
}

#[test]
fn test_jacobian_transcendental() {
    let x = Exp::var("x");
    let y = Exp::var("y");

    let f1 = Exp::sub(Exp::sin(x.clone()), y.clone());
    let f2 = Exp::sub(Exp::cos(y.clone()), x.clone());

    let (jacobian, table) = jacobian_of(&[f1, f2]);

    let mut vars = Assignment::new();
    let x_id = table.get_id("x").unwrap();
    let y_id = table.get_id("y").unwrap();
    vars.insert(x_id, num(0.0));
    vars.insert(y_id, num(0.0));

    let mut workspace = jacobian.workspace();
    let j_matrix = jacobian
        .evaluate_checked_in_workspace(&Host, &vars, &mut workspace)
        .expect("jacobian evaluate failed");

    assert!((j_matrix[(0, 0)].f64() - 1.0).abs() < 1e-10);
    assert!((j_matrix[(0, 1)].f64() - (-1.0)).abs() < 1e-10);
    assert!((j_matrix[(1, 0)].f64() - (-1.0)).abs() < 1e-10);
    assert!((j_matrix[(1, 1)].f64() - 0.0).abs() < 1e-10);
}

#[test]
fn test_workspace_new_dimensions() {
    let mut workspace = JacobianWorkspace::new(2, 3);
    assert_eq!(workspace.jacobian().rows(), 2);
    assert_eq!(workspace.jacobian().cols(), 3);
}

/// A workspace of another shape is repaired, and reused from then on.
#[test]
fn test_evaluate_checked_in_workspace_updates_and_resizes() {
    let x = Exp::var("x");
    let y = Exp::var("y");
    let f1 = Exp::add(Exp::mul(x.clone(), x.clone()), y.clone());
    let f2 = Exp::mul(x.clone(), y.clone());

    let (jacobian, table) = jacobian_of(&[f1, f2]);
    let mut workspace = jacobian.workspace();
    *workspace.jacobian() = Matrix::new(1, 1);

    let mut vars = Assignment::new();
    let x_id = table.get_id("x").unwrap();
    let y_id = table.get_id("y").unwrap();
    vars.insert(x_id, num(2.0));
    vars.insert(y_id, num(3.0));

    let j1 = jacobian
        .evaluate_checked_in_workspace(&Host, &vars, &mut workspace)
        .expect("jacobian evaluate failed");
    assert_eq!(j1.rows(), 2);
    assert_eq!(j1.cols(), 2);
    assert!((j1[(0, 0)].f64() - 4.0).abs() < 1e-12);
    assert!((j1[(0, 1)].f64() - 1.0).abs() < 1e-12);
    assert!((j1[(1, 0)].f64() - 3.0).abs() < 1e-12);
    assert!((j1[(1, 1)].f64() - 2.0).abs() < 1e-12);

    vars.insert(x_id, num(-1.0));
    vars.insert(y_id, num(0.5));
    let j2 = jacobian
        .evaluate_checked_in_workspace(&Host, &vars, &mut workspace)
        .expect("jacobian evaluate failed");
    assert_eq!(j2.rows(), 2);
    assert_eq!(j2.cols(), 2);
    assert!((j2[(0, 0)].f64() + 2.0).abs() < 1e-12);
    assert!((j2[(0, 1)].f64() - 1.0).abs() < 1e-12);
    assert!((j2[(1, 0)].f64() - 0.5).abs() < 1e-12);
    assert!((j2[(1, 1)].f64() + 1.0).abs() < 1e-12);
}

/// Compare reused nonlinear Jacobian evaluation with its analytical
/// derivative rather than a second invocation of the same implementation.
#[test]
fn test_reused_workspace_matches_analytic_random_nonlinear_jacobian() {
    let mut rng = TestRng::new(0x9e37_79b9_7f4a_7c15);
    let vars: Vec<Exp> = (0..3).map(|i| Exp::var(&format!("x{i}"))).collect();
    let mut equations = Vec::new();
    let mut equation_coefficients = Vec::new();

    for eq_idx in 0..3 {
        let mut coeffs = Vec::with_capacity(vars.len());
        for var_idx in 0..vars.len() {
            let mut coeff = rng.next_f64_range(-2.0, 2.0);
            if eq_idx == var_idx {
                coeff += 1.0;
            }
            coeffs.push(coeff);
        }
        let rhs = rng.next_f64_range(-1.0, 1.0);
        equations.push(nonlinear_equation(&coeffs, &vars, rhs));
        equation_coefficients.push(coeffs);
    }

    let (jacobian, table) = jacobian_of(&equations);
    let mut workspace = jacobian.workspace();
    let variable_ids = table.all_var_ids();

    for _ in 0..25 {
        let mut values = Assignment::new();
        let mut point = Vec::with_capacity(variable_ids.len());
        for &variable_id in &variable_ids {
            let value = rng.next_f64();
            values.insert(variable_id, num(value));
            point.push(value);
        }

        let evaluated = jacobian
            .evaluate_checked_in_workspace(&Host, &values, &mut workspace)
            .expect("jacobian workspace evaluate failed");

        assert_eq!(evaluated.rows(), equation_coefficients.len());
        assert_eq!(evaluated.cols(), point.len());
        for equation_index in 0..evaluated.rows() {
            for variable_index in 0..evaluated.cols() {
                let expected = 2.0
                    * equation_coefficients[equation_index][variable_index]
                    * point[variable_index];
                let found = evaluated[(equation_index, variable_index)].f64();
                assert!(
                    (found - expected).abs() < 1e-12,
                    "equation {equation_index}, variable {variable_index}: expected {expected}, got {found}"
                );
            }
        }
    }
}
