//! What a solver run does: damped Newton steps with a backtracking line
//! search, from a first state to a solution or a failure.
use crate::binary64::Binary64;
use crate::compiler;
use crate::elementary::Elementary;
use crate::grid;
use crate::grid::Grid;
use crate::jacobian::Jacobian;
use crate::least_squares;
use crate::matrix;
use crate::matrix::MatrixError;
use crate::merit;
use crate::merit::ResidualGradientMeasure;
use crate::named;
use crate::report::{
    EquationDiagnostic,
    EquationTrace,
    LinearSolveDiagnostic,
    Solution,
    SolverError,
    SolverOptions,
    SolverRunDiagnostic,
};
use crate::scaled;
use crate::text;
use crate::text::Notation;
use vstd::prelude::*;

verus! {

/// Bit pattern of one half.
pub const HALF: u64 = 0x3fe0_0000_0000_0000;

/// What a solver was made from.
pub struct Setup<H> {
    pub host: H,
    pub jacobian: Jacobian,
    pub names: Seq<Seq<char>>,
    pub equation_scales: Seq<Binary64>,
    pub variable_scales: Seq<Binary64>,
    pub options: SolverOptions,
    pub traces: Seq<Option<EquationTrace>>,
}

/// An accepted point: values of all variables, residuals and derivatives there.
pub struct State {
    pub vars: Map<usize, Binary64>,
    pub raw: Seq<Binary64>,
    pub derivatives: Grid,
}

/// How a line search ends.
pub enum Found {
    /// A step gave sufficient decrease.
    Accepted { vars: Map<usize, Binary64>, raw: Seq<Binary64> },
    /// A step changes no variable.
    Stuck { alpha: Binary64 },
    /// No step that was tried is accepted.
    Exhausted { trials: nat, alpha: Binary64 },
}

/// Numbers as one column.
pub open spec fn column_of(cells: Seq<Binary64>) -> Grid {
    Grid { rows: cells.len(), cols: 1, cells }
}

pub open spec fn negated(values: Seq<Binary64>) -> Seq<Binary64> {
    Seq::new(values.len(), |i: int| values[i].negated())
}

/// A coefficient matrix with a scaled identity below it.
pub open spec fn ridge_matrix(a: Grid, weight: Binary64) -> Grid {
    Grid::filled(
        a.rows + a.cols,
        a.cols,
        |i: int, j: int|
            if i < a.rows {
                a.at(i, j)
            } else if i - a.rows == j {
                weight
            } else {
                Binary64::zero_value()
            },
    )
}

/// A right-hand side with zeros below it.
pub open spec fn ridge_rhs(rhs: Seq<Binary64>, cols: nat) -> Seq<Binary64> {
    rhs + Seq::new(cols, |i: int| Binary64::zero_value())
}

impl<H: Elementary + Notation> Setup<H> {
    /// The parts fit together: derivatives belong to the equations, variables
    /// to the table, scales are finite and above zero and there is one for each
    /// equation and each variable to solve for.
    pub open spec fn wf(self) -> bool {
        &&& self.jacobian.wf()
        &&& self.jacobian.derived(self.host)
        &&& self.names.no_duplicates()
        &&& self.names.len() <= usize::MAX
        &&& forall|i: int|
            0 <= i < self.jacobian.expressions().len() ==> compiler::well_numbered(
                #[trigger] self.jacobian.expressions()[i],
                self.names,
            )
        &&& forall|j: int|
            0 <= j < self.jacobian.variables().len() ==> (
            #[trigger] self.jacobian.variables()[j]).index < self.names.len()
        &&& self.jacobian.variables().no_duplicates()
        &&& self.equation_scales.len() == self.jacobian.expressions().len()
        &&& self.variable_scales.len() == self.jacobian.variables().len()
        &&& forall|i: int|
            0 <= i < self.equation_scales.len() ==> SolverOptions::positive(
                #[trigger] self.equation_scales[i],
            )
        &&& forall|j: int|
            0 <= j < self.variable_scales.len() ==> SolverOptions::positive(
                #[trigger] self.variable_scales[j],
            )
        &&& self.traces.len() == 0 || self.traces.len() == self.jacobian.expressions().len()
    }

    /// The matrices of a run have sizes that a machine word counts.
    pub open spec fn fits(self) -> bool {
        let rows = self.jacobian.expressions().len();
        let cols = self.jacobian.variables().len();
        &&& rows * cols <= usize::MAX
        &&& rows + cols <= usize::MAX && !self.options.regularization.zero() ==> (rows + cols)
            * cols <= usize::MAX
    }

    /// Every variable has a value, and a finite one.
    pub open spec fn complete(self, vars: Map<usize, Binary64>) -> bool {
        &&& forall|i: usize| vars.dom().contains(i) <==> i < self.names.len()
        &&& forall|i: usize| i < self.names.len() ==> (#[trigger] vars[i]).finite()
    }

    /// Values by name.
    pub open spec fn named(self, vars: Map<usize, Binary64>) -> Map<Seq<char>, Binary64> {
        Map::new(
            |n: Seq<char>| self.names.contains(n),
            |n: Seq<char>| vars[self.names.index_of(n) as usize],
        )
    }

    /// Residuals over the scales of their equations.
    pub open spec fn scaled(self, raw: Seq<Binary64>) -> Seq<Binary64> {
        Seq::new(raw.len(), |i: int| raw[i] / self.equation_scales[i])
    }

    /// Norm that decides on convergence.
    pub open spec fn error_of(self, raw: Seq<Binary64>) -> Binary64 {
        matrix::norm_of(self.scaled(raw))
    }

    /// Derivatives times the scale of the variable over that of the equation.
    pub open spec fn normalized(self, g: Grid) -> Grid {
        Grid::filled(
            g.rows,
            g.cols,
            |i: int, j: int|
                if g.at(i, j).finite() {
                    scaled::ratio(
                        seq![g.at(i, j), self.variable_scales[j]],
                        seq![self.equation_scales[i]],
                    )
                } else {
                    g.at(i, j)
                },
        )
    }

    /// `raw` holds values that the equations may have.
    pub open spec fn residuals_at(self, vars: Map<usize, Binary64>, raw: Seq<Binary64>) -> bool {
        self.jacobian.residuals(self.host, vars, column_of(raw))
    }

    /// `g` holds values that the derivatives may have.
    pub open spec fn derivatives_at(self, vars: Map<usize, Binary64>, g: Grid) -> bool {
        self.jacobian.evaluates(self.host, vars, g)
    }

    /// The correction for a coefficient matrix and a right-hand side, with how
    /// it was computed: the least-squares solution, of the ridge system where
    /// there is a ridge parameter.
    pub open spec fn correction(self, a: Grid, rhs: Seq<Binary64>) -> Result<
        (Seq<Binary64>, LinearSolveDiagnostic),
        MatrixError,
    > {
        let lambda = self.options.regularization;
        if lambda.zero() {
            match least_squares::solved(a, column_of(rhs)) {
                Err(error) => Err(error),
                Ok((delta, effective)) => Ok(
                    (delta, LinearSolveDiagnostic { effective, regularization: None }),
                ),
            }
        } else if a.rows + a.cols > usize::MAX {
            Err(
                MatrixError::DimensionSumOverflow {
                    operation: "regularized least-squares allocation",
                    left: a.rows as usize,
                    right: a.cols as usize,
                },
            )
        } else {
            match least_squares::solved(
                ridge_matrix(a, lambda.square_root()),
                column_of(ridge_rhs(rhs, a.cols)),
            ) {
                Err(error) => Err(error),
                Ok((delta, effective)) => Ok(
                    (delta, LinearSolveDiagnostic { effective, regularization: Some(lambda) }),
                ),
            }
        }
    }

    /// The value that a step gives to one of the variables to solve for.
    pub open spec fn stepped(
        self,
        vars: Map<usize, Binary64>,
        delta: Seq<Binary64>,
        alpha: Binary64,
        j: int,
    ) -> Binary64 {
        vars[self.jacobian.variables()[j].index] + scaled::ratio(
            seq![delta[j], alpha, self.variable_scales[j]],
            Seq::empty(),
        )
    }

    /// A step gives every variable a finite value.
    pub open spec fn movable(
        self,
        vars: Map<usize, Binary64>,
        delta: Seq<Binary64>,
        alpha: Binary64,
    ) -> bool {
        forall|j: int|
            0 <= j < self.jacobian.variables().len() ==> (#[trigger] self.stepped(
                vars,
                delta,
                alpha,
                j,
            )).finite()
    }

    /// The values after a step along the first `end` variables to solve for.
    pub open spec fn moved(
        self,
        vars: Map<usize, Binary64>,
        delta: Seq<Binary64>,
        alpha: Binary64,
        end: int,
    ) -> Map<usize, Binary64>
        decreases end,
    {
        if end <= 0 {
            vars
        } else {
            self.moved(vars, delta, alpha, end - 1).insert(
                self.jacobian.variables()[end - 1].index,
                self.stepped(vars, delta, alpha, end - 1),
            )
        }
    }

    /// The values after a step.
    pub open spec fn candidate(
        self,
        vars: Map<usize, Binary64>,
        delta: Seq<Binary64>,
        alpha: Binary64,
    ) -> Map<usize, Binary64> {
        self.moved(vars, delta, alpha, self.jacobian.variables().len() as int)
    }

    /// Two assignments give every variable equal numbers.
    pub open spec fn unchanged(self, a: Map<usize, Binary64>, b: Map<usize, Binary64>) -> bool {
        forall|i: usize| i < self.names.len() ==> (#[trigger] a[i]).same(b[i])
    }

    /// Largest norm that a step may leave to be accepted.
    pub open spec fn required(
        self,
        current: Binary64,
        slope: Binary64,
        alpha: Binary64,
    ) -> Binary64 {
        current + self.options.armijo_coefficient * alpha * slope
    }

    /// The residuals of a step show sufficient decrease.
    pub open spec fn sufficient(
        self,
        raw: Seq<Binary64>,
        current: Binary64,
        slope: Binary64,
        alpha: Binary64,
    ) -> bool {
        self.error_of(raw).finite() && self.error_of(raw) <= self.required(current, slope, alpha)
    }

    /// The step that is tried after `alpha`.
    pub open spec fn shorter(self, alpha: Binary64) -> Binary64 {
        (alpha * Binary64::from_bits(HALF)).larger(self.options.line_search_min_step)
    }

    /// A line search that has tried `tried` steps and turns to `alpha` may end
    /// with `found`.
    pub open spec fn search(
        self,
        vars: Map<usize, Binary64>,
        delta: Seq<Binary64>,
        current: Binary64,
        slope: Binary64,
        alpha: Binary64,
        tried: nat,
        found: Found,
    ) -> bool
        decreases self.options.line_search_max_trials - tried,
    {
        if tried >= self.options.line_search_max_trials {
            found == (Found::Exhausted { trials: tried, alpha })
        } else {
            let goes_on = if alpha <= self.options.line_search_min_step {
                found == (Found::Exhausted { trials: tried + 1, alpha })
            } else {
                self.search(vars, delta, current, slope, self.shorter(alpha), tried + 1, found)
            };
            let next = self.candidate(vars, delta, alpha);
            if !self.movable(vars, delta, alpha) {
                goes_on
            } else if self.unchanged(next, vars) {
                found == (Found::Stuck { alpha })
            } else {
                exists|raw: Seq<Binary64>| #[trigger]
                    self.residuals_at(next, raw) && if self.sufficient(
                        raw,
                        current,
                        slope,
                        alpha,
                    ) {
                        found == (Found::Accepted { vars: next, raw })
                    } else {
                        goes_on
                    }
            }
        }
    }

    /// One equation of a failure report.
    pub open spec fn equation_report(
        self,
        raw: Seq<Binary64>,
        i: int,
        d: EquationDiagnostic,
    ) -> bool {
        &&& d.equation_index == i
        &&& d.residual == raw[i]
        &&& d.scaled_residual == raw[i] / self.equation_scales[i]
        &&& d.trace == if self.traces.len() == 0 {
            None
        } else {
            self.traces[i]
        }
    }

    /// A failure report gives the state at which a run failed.
    pub open spec fn describes(
        self,
        d: SolverRunDiagnostic,
        vars: Map<usize, Binary64>,
        raw: Seq<Binary64>,
        iterations: nat,
        gradient: Option<ResidualGradientMeasure>,
        attempt: Option<LinearSolveDiagnostic>,
    ) -> bool {
        &&& d.iterations == iterations
        &&& d.error == grid::length(self.scaled(raw))
        &&& d.gradient_norm == match gradient {
            Some(g) => Some(g.absolute_norm),
            None => None,
        }
        &&& d.relative_gradient_norm == match gradient {
            Some(g) => g.relative_norm,
            None => None,
        }
        &&& d.last_linear_attempt == attempt
        &&& d.values.wf()
        &&& d.values@ == self.named(vars)
        &&& d.equations@.len() == raw.len()
        &&& forall|i: int|
            0 <= i < raw.len() ==> self.equation_report(raw, i, #[trigger] d.equations@[i])
    }

    /// The run failed on a value that is not finite.
    pub open spec fn not_finite(
        self,
        r: Result<Solution, SolverError>,
        message: Seq<char>,
        vars: Map<usize, Binary64>,
        raw: Seq<Binary64>,
        iterations: nat,
        attempt: Option<LinearSolveDiagnostic>,
    ) -> bool {
        &&& r matches Err(SolverError::NonFiniteEvaluation(d))
        &&& d.message@ == message
        &&& self.describes(*d, vars, raw, iterations, None, attempt)
    }

    /// A message with one number in scientific notation at its end.
    pub open spec fn ends_with_number(
        self,
        message: Seq<char>,
        start: Seq<char>,
        number: Binary64,
        end: Seq<char>,
    ) -> bool {
        exists|t: String| #[trigger]
            text::is_scientific(self.host, number, t) && message == start + t@ + end
    }

    /// The message of a stationary state.
    pub open spec fn stationary_message(self, message: Seq<char>, raw: Seq<Binary64>) -> bool {
        exists|a: String, b: String, c: String| #[trigger]
            text::is_scientific(self.host, grid::length(self.scaled(raw)), a)
                && #[trigger] text::is_scientific(self.host, self.options.residual_tolerance, b)
                && #[trigger] text::is_scientific(self.host, self.options.stationarity_tolerance, c)
                && message == "Residual norm "@ + a@ + " exceeds tolerance "@ + b@
                + ", while the normalized residual gradient satisfies stationarity tolerance "@
                + c@
    }

    /// A solution gives the state at which a run succeeded.
    pub open spec fn is_solution(
        self,
        s: Solution,
        vars: Map<usize, Binary64>,
        iterations: nat,
        error: Binary64,
        gradient: ResidualGradientMeasure,
        attempt: Option<LinearSolveDiagnostic>,
        history: Seq<Binary64>,
    ) -> bool {
        &&& s.values.wf()
        &&& s.values@ == self.named(vars)
        &&& s.iterations == iterations
        &&& s.error == error
        &&& s.gradient_norm == gradient.absolute_norm
        &&& s.relative_gradient_norm == gradient.relative_norm
        &&& s.last_linear_attempt == attempt
        &&& s.convergence_history@ == history
    }

    /// A run at an accepted state, after `iterations` updates, may end with `r`.
    pub open spec fn finishes(
        self,
        state: State,
        iterations: nat,
        attempt: Option<LinearSolveDiagnostic>,
        history: Seq<Binary64>,
        r: Result<Solution, SolverError>,
    ) -> bool
        decreases self.options.max_iterations - iterations,
    {
        let residuals = self.scaled(state.raw);
        let a = self.normalized(state.derivatives);
        let error = self.error_of(state.raw);
        let gradient = merit::gradient_measure(a, residuals);
        if error <= self.options.residual_tolerance {
            r matches Ok(s) && self.is_solution(
                s,
                state.vars,
                iterations,
                error,
                gradient,
                attempt,
                history,
            )
        } else if gradient.stationary(self.options.stationarity_tolerance) {
            &&& r matches Err(SolverError::StationaryNonRoot(d))
            &&& self.stationary_message(d.message@, state.raw)
            &&& self.describes(*d, state.vars, state.raw, iterations, Some(gradient), attempt)
        } else if iterations >= self.options.max_iterations {
            &&& r matches Err(SolverError::NoConvergence(d))
            &&& self.ends_with_number(
                d.message@,
                "Failed to converge after "@ + text::decimal(self.options.max_iterations as nat)
                    + " accepted updates. Final error: "@,
                error,
                ""@,
            )
            &&& self.describes(*d, state.vars, state.raw, iterations, Some(gradient), attempt)
        } else {
            match self.correction(a, negated(residuals)) {
                Err(cause) => {
                    &&& r matches Err(SolverError::Matrix { source, diagnostic })
                    &&& source == cause
                    &&& diagnostic.message@ == "Correction matrix operation failed: "@
                        + cause.text()
                    &&& self.describes(
                        *diagnostic,
                        state.vars,
                        state.raw,
                        iterations,
                        Some(gradient),
                        attempt,
                    )
                },
                Ok((delta, used)) => {
                    ||| self.stops(state, iterations, gradient, delta, used, r)
                    ||| exists|next: State| #[trigger]
                        self.moves(state, delta, next) && self.finishes(
                            next,
                            iterations + 1,
                            Some(used),
                            history.push(self.error_of(next.raw)),
                            r,
                        )
                },
            }
        }
    }

    /// A correction may lead from an accepted state to the next.
    pub open spec fn moves(self, state: State, delta: Seq<Binary64>, next: State) -> bool {
        let residuals = self.scaled(state.raw);
        let a = self.normalized(state.derivatives);
        merit::slope(a, column_of(residuals), column_of(delta)) matches Ok(slope) && {
            &&& !(slope >= Binary64::zero_value())
            &&& self.search(
                state.vars,
                delta,
                self.error_of(state.raw),
                slope,
                self.options.initial_step_size,
                0,
                Found::Accepted { vars: next.vars, raw: next.raw },
            )
            &&& self.derivatives_at(next.vars, next.derivatives)
            &&& next.derivatives.finite()
            &&& self.normalized(next.derivatives).finite()
        }
    }

    /// A run may end with `r` after a correction that leads to no next state.
    pub open spec fn stops(
        self,
        state: State,
        iterations: nat,
        gradient: ResidualGradientMeasure,
        delta: Seq<Binary64>,
        used: LinearSolveDiagnostic,
        r: Result<Solution, SolverError>,
    ) -> bool {
        let residuals = self.scaled(state.raw);
        let a = self.normalized(state.derivatives);
        match merit::slope(a, column_of(residuals), column_of(delta)) {
            Err(message) => self.not_finite(
                r,
                message@,
                state.vars,
                state.raw,
                iterations,
                Some(used),
            ),
            Ok(slope) => if slope >= Binary64::zero_value() {
                &&& r matches Err(SolverError::NoConvergence(d))
                &&& self.ends_with_number(
                    d.message@,
                    "Line search cannot proceed because the proposed correction is not a descent direction (d||f||/d alpha = "@,
                    slope,
                    ")"@,
                )
                &&& self.describes(
                    *d,
                    state.vars,
                    state.raw,
                    iterations,
                    Some(gradient),
                    Some(used),
                )
            } else {
                exists|found: Found| #[trigger]
                    self.search(
                        state.vars,
                        delta,
                        self.error_of(state.raw),
                        slope,
                        self.options.initial_step_size,
                        0,
                        found,
                    ) && self.stops_at(state, iterations, gradient, used, found, r)
            },
        }
    }

    /// A run whose line search ended with `found` may end there with `r`.
    pub open spec fn stops_at(
        self,
        state: State,
        iterations: nat,
        gradient: ResidualGradientMeasure,
        used: LinearSolveDiagnostic,
        found: Found,
        r: Result<Solution, SolverError>,
    ) -> bool {
        match found {
            Found::Stuck { alpha } => {
                &&& r matches Err(SolverError::NoConvergence(d))
                &&& self.ends_with_number(
                    d.message@,
                    "Newton correction cannot change the variable state at the tested step size "@,
                    alpha,
                    ""@,
                )
                &&& self.describes(
                    *d,
                    state.vars,
                    state.raw,
                    iterations,
                    Some(gradient),
                    Some(used),
                )
            },
            Found::Exhausted { trials, alpha } => {
                &&& r matches Err(SolverError::NoConvergence(d))
                &&& self.ends_with_number(
                    d.message@,
                    "Line search failed after "@ + text::decimal(trials)
                        + " rejected trial steps; smallest tested step was "@,
                    alpha,
                    ""@,
                )
                &&& self.describes(
                    *d,
                    state.vars,
                    state.raw,
                    iterations,
                    Some(gradient),
                    Some(used),
                )
            },
            Found::Accepted { vars, raw } => exists|g: Grid| #[trigger]
                self.derivatives_at(vars, g) && if !g.finite() {
                    self.not_finite(
                        r,
                        "Accepted Newton update produced a non-finite Jacobian"@,
                        vars,
                        raw,
                        iterations + 1,
                        Some(used),
                    )
                } else {
                    !self.normalized(g).finite() && self.not_finite(
                        r,
                        "Variable or equation scaling produced a non-finite Jacobian"@,
                        vars,
                        raw,
                        iterations + 1,
                        Some(used),
                    )
                },
        }
    }

    /// A run that finds residuals and derivatives at its first values may end
    /// with `r`.
    pub open spec fn starts(
        self,
        vars: Map<usize, Binary64>,
        raw: Seq<Binary64>,
        g: Grid,
        r: Result<Solution, SolverError>,
    ) -> bool {
        if !grid::all_finite(raw) {
            self.not_finite(
                r,
                "Residual evaluation produced NaN or infinity"@,
                vars,
                raw,
                0,
                None,
            )
        } else if !g.finite() {
            self.not_finite(
                r,
                "Jacobian evaluation produced NaN or infinity"@,
                vars,
                raw,
                0,
                None,
            )
        } else if !grid::all_finite(self.scaled(raw)) || !self.normalized(g).finite() {
            self.not_finite(
                r,
                "Equation or variable scaling produced NaN or infinity"@,
                vars,
                raw,
                0,
                None,
            )
        } else {
            self.finishes(
                State { vars, raw, derivatives: g },
                0,
                None,
                seq![self.error_of(raw)],
                r,
            )
        }
    }

    /// A run from first values may end with `r`.
    pub open spec fn runs(
        self,
        vars: Map<usize, Binary64>,
        r: Result<Solution, SolverError>,
    ) -> bool {
        exists|raw: Seq<Binary64>, g: Grid| #[trigger]
            self.residuals_at(vars, raw) && #[trigger] self.derivatives_at(vars, g)
                && self.starts(vars, raw, g, r)
    }

    /// Names of a guess that no variable has.
    pub open spec fn unknown_names(self, guess: Map<Seq<char>, Binary64>) -> Set<Seq<char>> {
        guess.dom().filter(|n: Seq<char>| !self.names.contains(n))
    }

    /// Names of a guess whose number is not finite.
    pub open spec fn non_finite_names(self, guess: Map<Seq<char>, Binary64>) -> Set<Seq<char>> {
        guess.dom().filter(|n: Seq<char>| self.names.contains(n) && !guess[n].finite())
    }

    /// Variables that a guess leaves out.
    pub open spec fn missing_names(self, guess: Map<Seq<char>, Binary64>) -> Set<Seq<char>> {
        self.names.to_set().filter(|n: Seq<char>| !guess.dom().contains(n))
    }

    /// What is wrong with a guess, the first that applies.
    pub open spec fn guess_fault(self, guess: Map<Seq<char>, Binary64>) -> Option<Seq<char>> {
        if self.unknown_names(guess) != Set::<Seq<char>>::empty() {
            Some(
                "Initial guess includes unknown variables: "@ + text::quoted_list(
                    named::listing(self.unknown_names(guess)),
                ),
            )
        } else if self.non_finite_names(guess) != Set::<Seq<char>>::empty() {
            Some(
                "Initial guess includes non-finite values for variables: "@ + text::quoted_list(
                    named::listing(self.non_finite_names(guess)),
                ),
            )
        } else if self.missing_names(guess) != Set::<Seq<char>>::empty() {
            Some(
                "Initial guess missing values for variables: "@ + text::quoted_list(
                    named::listing(self.missing_names(guess)),
                ),
            )
        } else {
            None
        }
    }

    /// The values of a guess by number.
    pub open spec fn numbered(self, guess: Map<Seq<char>, Binary64>) -> Map<usize, Binary64> {
        Map::new(|i: usize| i < self.names.len(), |i: usize| guess[self.names[i as int]])
    }
}

} // verus!
