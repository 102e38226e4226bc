//! Options, results and failures of a solver.
use crate::binary64::Binary64;
use crate::compiler::EvaluationError;
use crate::least_squares::LeastSquaresInfo;
use crate::matrix::MatrixError;
use crate::named::NamedValues;
use crate::text;
use vstd::prelude::*;
use vstd::string::*;

verus! {

/// Bit pattern of the default tolerances.
pub const DEFAULT_TOLERANCE: u64 = 0x3ddb_7cdf_d9d7_bdbb;

/// Bit pattern of the default coefficient of sufficient decrease.
pub const DEFAULT_ARMIJO: u64 = 0x3f1a_36e2_eb1c_432d;

/// Bit pattern of the default smallest step.
pub const DEFAULT_MIN_STEP: u64 = 0x3d71_9799_812d_ea11;

/// Numerical policy of a solver.
#[derive(Debug, Clone, Copy, PartialEq)]
pub struct SolverOptions {
    /// Most updates that are accepted.
    pub max_iterations: usize,
    /// Largest norm of the scaled residuals of a solution.
    pub residual_tolerance: Binary64,
    /// Residual cosines below this are stationary.
    pub stationarity_tolerance: Binary64,
    /// First and largest step that is tried.
    pub initial_step_size: Binary64,
    /// Ridge parameter; zero for none.
    pub regularization: Binary64,
    /// Coefficient of sufficient decrease.
    pub armijo_coefficient: Binary64,
    /// Most steps that one line search tries.
    pub line_search_max_trials: usize,
    /// Smallest step that is tried.
    pub line_search_min_step: Binary64,
}

impl SolverOptions {
    /// The default policy.
    pub open spec fn standard() -> SolverOptions {
        SolverOptions {
            max_iterations: 100,
            residual_tolerance: Binary64::from_bits(DEFAULT_TOLERANCE),
            stationarity_tolerance: Binary64::from_bits(DEFAULT_TOLERANCE),
            initial_step_size: Binary64::one(),
            regularization: Binary64::zero_value(),
            armijo_coefficient: Binary64::from_bits(DEFAULT_ARMIJO),
            line_search_max_trials: 64,
            line_search_min_step: Binary64::from_bits(DEFAULT_MIN_STEP),
        }
    }

    /// A finite number above zero.
    pub open spec fn positive(x: Binary64) -> bool {
        x.finite() && x > Binary64::zero_value()
    }

    /// What is wrong with the policy, the first that applies.
    pub open spec fn fault(self) -> Option<&'static str> {
        if self.max_iterations == 0 {
            Some("max_iterations must be greater than zero")
        } else if !Self::positive(self.residual_tolerance) {
            Some("residual_tolerance must be finite and greater than zero")
        } else if !(Self::positive(self.stationarity_tolerance) && self.stationarity_tolerance
            <= Binary64::one()) {
            Some("stationarity_tolerance must be finite and in the interval (0, 1]")
        } else if !(Self::positive(self.initial_step_size) && self.initial_step_size
            <= Binary64::one()) {
            Some("initial_step_size must be finite and in the interval (0, 1]")
        } else if !(self.regularization.finite() && self.regularization
            >= Binary64::zero_value()) {
            Some("regularization must be finite and non-negative")
        } else if !(Self::positive(self.armijo_coefficient) && self.armijo_coefficient
            < Binary64::one()) {
            Some("armijo_coefficient must be finite and in the interval (0, 1)")
        } else if self.line_search_max_trials == 0 {
            Some("line_search_max_trials must be greater than zero")
        } else if !(Self::positive(self.line_search_min_step) && self.line_search_min_step
            <= self.initial_step_size) {
            Some(
                "line_search_min_step must be finite, positive, and no greater than initial_step_size",
            )
        } else {
            None
        }
    }

    pub(crate) fn is_positive(x: Binary64) -> (r: bool)
        ensures
            r == Self::positive(x),
    {
        x.is_finite() && Binary64::zero_value().less(x)
    }

    /// What is wrong with the policy, the first that applies.
    pub fn find_fault(&self) -> (r: Option<&'static str>)
        ensures
            r == self.fault(),
    {
        let one = Binary64::one();
        let zero = Binary64::zero_value();
        if self.max_iterations == 0 {
            return Some("max_iterations must be greater than zero");
        }
        if !Self::is_positive(self.residual_tolerance) {
            return Some("residual_tolerance must be finite and greater than zero");
        }
        if !(Self::is_positive(self.stationarity_tolerance) && self.stationarity_tolerance.at_most(
            one,
        )) {
            return Some("stationarity_tolerance must be finite and in the interval (0, 1]");
        }
        if !(Self::is_positive(self.initial_step_size) && self.initial_step_size.at_most(one)) {
            return Some("initial_step_size must be finite and in the interval (0, 1]");
        }
        if !(self.regularization.is_finite() && zero.at_most(self.regularization)) {
            return Some("regularization must be finite and non-negative");
        }
        if !(Self::is_positive(self.armijo_coefficient) && self.armijo_coefficient.less(one)) {
            return Some("armijo_coefficient must be finite and in the interval (0, 1)");
        }
        if self.line_search_max_trials == 0 {
            return Some("line_search_max_trials must be greater than zero");
        }
        if !(Self::is_positive(self.line_search_min_step) && self.line_search_min_step.at_most(
            self.initial_step_size,
        )) {
            return Some(
                "line_search_min_step must be finite, positive, and no greater than initial_step_size",
            );
        }
        None
    }
}

impl Default for SolverOptions {
    fn default() -> (r: SolverOptions)
        ensures
            r == SolverOptions::standard(),
    {
        SolverOptions {
            max_iterations: 100,
            residual_tolerance: Binary64::from_bits(DEFAULT_TOLERANCE),
            stationarity_tolerance: Binary64::from_bits(DEFAULT_TOLERANCE),
            initial_step_size: Binary64::one(),
            regularization: Binary64::zero_value(),
            armijo_coefficient: Binary64::from_bits(DEFAULT_ARMIJO),
            line_search_max_trials: 64,
            line_search_min_step: Binary64::from_bits(DEFAULT_MIN_STEP),
        }
    }
}

/// The source of an equation.
#[derive(Debug, PartialEq, Eq)]
pub struct EquationTrace {
    /// The caller's number for the source constraint.
    pub constraint_id: usize,
    /// Description for reports.
    pub description: String,
}

impl Clone for EquationTrace {
    fn clone(&self) -> (r: EquationTrace)
        ensures
            r == *self,
    {
        EquationTrace {
            constraint_id: self.constraint_id,
            description: self.description.clone(),
        }
    }
}

/// One equation at a failed state.
#[derive(Debug, Clone, PartialEq)]
pub struct EquationDiagnostic {
    /// Place of the equation.
    pub equation_index: usize,
    /// Residual.
    pub residual: Binary64,
    /// Residual over the equation's scale.
    pub scaled_residual: Binary64,
    /// Source of the equation, where one was given.
    pub trace: Option<EquationTrace>,
}

/// How a correction was computed.
#[derive(Debug, Clone, Copy, PartialEq)]
pub struct LinearSolveDiagnostic {
    /// Diagnostics of the decomposition that gave the correction.
    pub effective: LeastSquaresInfo,
    /// Ridge parameter, where one was used.
    pub regularization: Option<Binary64>,
}

/// The state at which a run failed.
#[derive(Debug, Clone)]
pub struct SolverRunDiagnostic {
    /// The failure in words.
    pub message: String,
    /// Number of accepted updates.
    pub iterations: usize,
    /// Length of the scaled residuals.
    pub error: Binary64,
    /// Norm of the gradient, where it was computed.
    pub gradient_norm: Option<Binary64>,
    /// Largest residual cosine, where it was computed.
    pub relative_gradient_norm: Option<Binary64>,
    /// The latest correction that was computed.
    pub last_linear_attempt: Option<LinearSolveDiagnostic>,
    /// Values of all variables.
    pub values: NamedValues,
    /// The equations, in order.
    pub equations: Vec<EquationDiagnostic>,
}

/// Why a solver was not made or did not solve.
#[derive(Debug, Clone)]
pub enum SolverError {
    /// The updates or the line search ended without a solution.
    NoConvergence(Box<SolverRunDiagnostic>),
    /// An evaluation gave a value that is not finite.
    NonFiniteEvaluation(Box<SolverRunDiagnostic>),
    /// The residual norm is stationary above its tolerance.
    StationaryNonRoot(Box<SolverRunDiagnostic>),
    /// A correction could not be computed.
    Matrix { source: MatrixError, diagnostic: Box<SolverRunDiagnostic> },
    /// The input or the configuration is not valid.
    InvalidInput(String),
}

/// A root of the equations.
#[derive(Debug, Clone)]
pub struct Solution {
    /// Values of all variables.
    pub values: NamedValues,
    /// Number of accepted updates.
    pub iterations: usize,
    /// Norm of the scaled residuals.
    pub error: Binary64,
    /// Norm of the gradient.
    pub gradient_norm: Binary64,
    /// Largest residual cosine; none where the residuals are zero.
    pub relative_gradient_norm: Option<Binary64>,
    /// The correction of the latest update.
    pub last_linear_attempt: Option<LinearSolveDiagnostic>,
    /// Norm of the scaled residuals at the start and after each update.
    pub convergence_history: Vec<Binary64>,
}

impl EvaluationError {
    /// The error in words.
    pub open spec fn text(self) -> Seq<char> {
        "compiled evaluation map is missing variable '"@ + self.variable_name@ + "'"@
    }

    /// The error in words.
    pub fn message(&self) -> (r: String)
        ensures
            r@ == self.text(),
    {
        let mut out = "compiled evaluation map is missing variable '".to_owned();
        out.append(self.variable_name.as_str());
        out.append("'");
        out
    }
}

impl SolverError {
    /// The state at which a run failed.
    pub open spec fn diagnostic(self) -> SolverRunDiagnostic
        recommends
            !(self is InvalidInput),
    {
        match self {
            SolverError::NoConvergence(d) => *d,
            SolverError::NonFiniteEvaluation(d) => *d,
            SolverError::StationaryNonRoot(d) => *d,
            SolverError::Matrix { source: _, diagnostic } => *diagnostic,
            SolverError::InvalidInput(_) => arbitrary(),
        }
    }

    /// The error in words.
    pub open spec fn text(self) -> Seq<char> {
        match self {
            SolverError::NoConvergence(d) => "Solver did not converge: "@ + d.message@,
            SolverError::NonFiniteEvaluation(d) => "Non-finite solver evaluation: "@ + d.message@,
            SolverError::StationaryNonRoot(d) => {
                "Stationary point is not a constraint root: "@ + d.message@
            },
            SolverError::Matrix { source, diagnostic } => {
                "Correction matrix operation failed after "@ + text::decimal(
                    diagnostic.iterations as nat,
                ) + " accepted updates: "@ + source.text()
            },
            SolverError::InvalidInput(message) => "Invalid solver input: "@ + message@,
        }
    }

    /// The error in words.
    pub fn message(&self) -> (r: String)
        ensures
            r@ == self.text(),
    {
        match self {
            SolverError::NoConvergence(d) => {
                "Solver did not converge: ".to_owned().concat(d.message.as_str())
            },
            SolverError::NonFiniteEvaluation(d) => {
                "Non-finite solver evaluation: ".to_owned().concat(d.message.as_str())
            },
            SolverError::StationaryNonRoot(d) => {
                "Stationary point is not a constraint root: ".to_owned().concat(
                    d.message.as_str(),
                )
            },
            SolverError::Matrix { source, diagnostic } => {
                let mut out = "Correction matrix operation failed after ".to_owned();
                text::append_decimal(&mut out, diagnostic.iterations);
                out.append(" accepted updates: ");
                out.append(source.message().as_str());
                out
            },
            SolverError::InvalidInput(message) => {
                "Invalid solver input: ".to_owned().concat(message.as_str())
            },
        }
    }

    /// The matrix error that caused this one, where there is one.
    pub fn source(&self) -> (r: Option<&MatrixError>)
        ensures
            match *self {
                SolverError::Matrix { source, .. } => r == Some(&source),
                _ => r is None,
            },
    {
        match self {
            SolverError::Matrix { source, .. } => Some(source),
            _ => None,
        }
    }

    /// The error for a compiled expression that met a variable without a value.
    pub fn from_evaluation(error: &EvaluationError) -> (r: SolverError)
        ensures
            r matches SolverError::InvalidInput(message) && message@
                == "Internal compiled-system invariant failed: "@ + error.text(),
    {
        SolverError::InvalidInput(
            "Internal compiled-system invariant failed: ".to_owned().concat(
                error.message().as_str(),
            ),
        )
    }
}

} // verus!
