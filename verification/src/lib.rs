//! Symbolic construction and numerical solution of small dense nonlinear
//! constraint systems, with every step proved against its contract.
//!
//! Build residual expressions with [`Exp`], compile their variable names once
//! with [`Compiler`], and solve square, underdetermined or overdetermined
//! systems with [`NewtonRaphsonSolver`]. Numbers are [`Binary64`] bit patterns
//! whose operations are proved to round correctly; powers, trigonometric
//! functions, logarithms and exponentials come from the caller through
//! [`Elementary`], and decimal texts through [`Notation`].
//!
//! Derivatives are symbolic: where the derivative of an expression is not
//! finite at a point, solving from there fails with
//! [`SolverError::NonFiniteEvaluation`], even where the residual is finite.
pub mod accuracy;
pub mod alignment;
pub mod binary64;
pub mod calculus;
pub mod compiler;
pub mod elementary;
pub mod exchange;
pub mod exp;
pub mod folding;
pub mod gradient;
pub mod grid;
pub mod guarantees;
pub mod jacobian;
pub mod least_squares;
pub mod matrix;
pub mod meaning;
pub mod merit;
pub mod minimum_norm;
pub mod mode;
pub mod named;
pub mod newton;
pub mod precision;
pub mod repeatable;
pub mod report;
pub mod rewriting;
pub mod ridge;
pub mod rounding;
pub mod scaled;
pub mod selection;
pub mod settled;
pub mod solver;
pub mod spectrum;
pub mod sweeps;
pub mod text;
pub mod vectors;

pub use binary64::Binary64;
pub use compiler::{CompileError, CompiledSystem, Compiler};
pub use elementary::Elementary;
pub use exp::Exp;
pub use least_squares::{LeastSquaresInfo, LeastSquaresWorkspace};
pub use matrix::{Matrix, MatrixError, MatrixOperand};
pub use mode::Mode;
pub use named::NamedValues;
pub use report::{
    EquationDiagnostic, EquationTrace, LinearSolveDiagnostic, Solution, SolverError, SolverOptions,
    SolverRunDiagnostic,
};
pub use solver::NewtonRaphsonSolver;
pub use text::Notation;
