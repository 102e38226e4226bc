//! Runs that start alike end alike, wherever they are carried out.
use crate::binary64::Binary64;
use crate::compiler::CompiledExp;
use crate::elementary;
use crate::elementary::Elementary;
use crate::grid;
use crate::grid::Grid;
use crate::merit;
use crate::merit::ResidualGradientMeasure;
use crate::newton;
use crate::newton::{Found, Setup, State};
use crate::report::{LinearSolveDiagnostic, Solution, SolverError, SolverRunDiagnostic};
use crate::rewriting;
use crate::text;
use crate::text::Notation;
use vstd::prelude::*;

verus! {

/// Each call of the host's functions returns what an earlier call with the same
/// arguments returned.
pub open spec fn repeatable<H: Elementary + Notation>(host: H) -> bool {
    &&& forall|x: Binary64, r: Binary64, q: Binary64| #[trigger]
        elementary::is_sin(host, x, r) && #[trigger] elementary::is_sin(host, x, q) ==> r == q
    &&& forall|x: Binary64, r: Binary64, q: Binary64| #[trigger]
        elementary::is_cos(host, x, r) && #[trigger] elementary::is_cos(host, x, q) ==> r == q
    &&& forall|x: Binary64, r: Binary64, q: Binary64| #[trigger]
        elementary::is_ln(host, x, r) && #[trigger] elementary::is_ln(host, x, q) ==> r == q
    &&& forall|x: Binary64, r: Binary64, q: Binary64| #[trigger]
        elementary::is_exp(host, x, r) && #[trigger] elementary::is_exp(host, x, q) ==> r == q
    &&& forall|x: Binary64, p: Binary64, r: Binary64, q: Binary64| #[trigger]
        elementary::is_power(host, x, p, r) && #[trigger] elementary::is_power(host, x, p, q)
            ==> r == q
    &&& forall|x: Binary64, a: String, b: String| #[trigger]
        text::is_scientific(host, x, a) && #[trigger] text::is_scientific(host, x, b) ==> a@ == b@
}

/// Two reports say the same.
pub open spec fn same_report(a: SolverRunDiagnostic, b: SolverRunDiagnostic) -> bool {
    &&& a.message@ == b.message@
    &&& a.iterations == b.iterations
    &&& a.error == b.error
    &&& a.gradient_norm == b.gradient_norm
    &&& a.relative_gradient_norm == b.relative_gradient_norm
    &&& a.last_linear_attempt == b.last_linear_attempt
    &&& a.values@ == b.values@
    &&& a.equations@ == b.equations@
}

/// Two runs end with the same solution or the same failure.
pub open spec fn same_outcome(
    r: Result<Solution, SolverError>,
    q: Result<Solution, SolverError>,
) -> bool {
    match (r, q) {
        (Ok(a), Ok(b)) => {
            &&& a.values@ == b.values@
            &&& a.iterations == b.iterations
            &&& a.error == b.error
            &&& a.gradient_norm == b.gradient_norm
            &&& a.relative_gradient_norm == b.relative_gradient_norm
            &&& a.last_linear_attempt == b.last_linear_attempt
            &&& a.convergence_history@ == b.convergence_history@
        },
        (Err(SolverError::NoConvergence(a)), Err(SolverError::NoConvergence(b))) => same_report(
            *a,
            *b,
        ),
        (
            Err(SolverError::NonFiniteEvaluation(a)),
            Err(SolverError::NonFiniteEvaluation(b)),
        ) => same_report(*a, *b),
        (
            Err(SolverError::StationaryNonRoot(a)),
            Err(SolverError::StationaryNonRoot(b)),
        ) => same_report(*a, *b),
        (
            Err(SolverError::Matrix { source: s, diagnostic: a }),
            Err(SolverError::Matrix { source: t, diagnostic: b }),
        ) => s == t && same_report(*a, *b),
        _ => false,
    }
}

/// With repeatable functions an expression has one value.
pub proof fn law_one_value<H: Elementary + Notation>(
    e: CompiledExp,
    host: H,
    vars: Map<usize, Binary64>,
    r: Binary64,
    q: Binary64,
)
    requires
        repeatable(host),
        e.evaluates(host, vars, r),
        e.evaluates(host, vars, q),
    ensures
        r == q,
    decreases e,
{
    match e {
        CompiledExp::Val(_) => {},
        CompiledExp::Var(_, _) => {},
        CompiledExp::Add(a, b) => {
            let f = |x: Binary64, y: Binary64, r: Binary64| r == x + y;
            let (x, y) = rewriting::lemma_parts(a.values(host, vars), b.values(host, vars), f, r);
            let (u, v) = rewriting::lemma_parts(a.values(host, vars), b.values(host, vars), f, q);
            law_one_value(*a, host, vars, x, u);
            law_one_value(*b, host, vars, y, v);
        },
        CompiledExp::Sub(a, b) => {
            let f = |x: Binary64, y: Binary64, r: Binary64| r == x - y;
            let (x, y) = rewriting::lemma_parts(a.values(host, vars), b.values(host, vars), f, r);
            let (u, v) = rewriting::lemma_parts(a.values(host, vars), b.values(host, vars), f, q);
            law_one_value(*a, host, vars, x, u);
            law_one_value(*b, host, vars, y, v);
        },
        CompiledExp::Mul(a, b) => {
            let f = |x: Binary64, y: Binary64, r: Binary64| r == x * y;
            let (x, y) = rewriting::lemma_parts(a.values(host, vars), b.values(host, vars), f, r);
            let (u, v) = rewriting::lemma_parts(a.values(host, vars), b.values(host, vars), f, q);
            law_one_value(*a, host, vars, x, u);
            law_one_value(*b, host, vars, y, v);
        },
        CompiledExp::Div(a, b) => {
            let f = |x: Binary64, y: Binary64, r: Binary64| r == x / y;
            let (x, y) = rewriting::lemma_parts(a.values(host, vars), b.values(host, vars), f, r);
            let (u, v) = rewriting::lemma_parts(a.values(host, vars), b.values(host, vars), f, q);
            law_one_value(*a, host, vars, x, u);
            law_one_value(*b, host, vars, y, v);
        },
        CompiledExp::Power(a, p) => {
            let f = |x: Binary64, r: Binary64| elementary::is_power(host, x, p, r);
            let x = rewriting::lemma_part(a.values(host, vars), f, r);
            let u = rewriting::lemma_part(a.values(host, vars), f, q);
            law_one_value(*a, host, vars, x, u);
        },
        CompiledExp::Neg(a) => {
            let f = |x: Binary64, r: Binary64| r == x.negated();
            let x = rewriting::lemma_part(a.values(host, vars), f, r);
            let u = rewriting::lemma_part(a.values(host, vars), f, q);
            law_one_value(*a, host, vars, x, u);
        },
        CompiledExp::Sin(a) => {
            let f = |x: Binary64, r: Binary64| elementary::is_sin(host, x, r);
            let x = rewriting::lemma_part(a.values(host, vars), f, r);
            let u = rewriting::lemma_part(a.values(host, vars), f, q);
            law_one_value(*a, host, vars, x, u);
        },
        CompiledExp::Cos(a) => {
            let f = |x: Binary64, r: Binary64| elementary::is_cos(host, x, r);
            let x = rewriting::lemma_part(a.values(host, vars), f, r);
            let u = rewriting::lemma_part(a.values(host, vars), f, q);
            law_one_value(*a, host, vars, x, u);
        },
        CompiledExp::Ln(a) => {
            let f = |x: Binary64, r: Binary64| elementary::is_ln(host, x, r);
            let x = rewriting::lemma_part(a.values(host, vars), f, r);
            let u = rewriting::lemma_part(a.values(host, vars), f, q);
            law_one_value(*a, host, vars, x, u);
        },
        CompiledExp::Exp(a) => {
            let f = |x: Binary64, r: Binary64| elementary::is_exp(host, x, r);
            let x = rewriting::lemma_part(a.values(host, vars), f, r);
            let u = rewriting::lemma_part(a.values(host, vars), f, q);
            law_one_value(*a, host, vars, x, u);
        },
    }
}

impl<H: Elementary + Notation> Setup<H> {
    proof fn lemma_same_residuals(
        self,
        vars: Map<usize, Binary64>,
        a: Seq<Binary64>,
        b: Seq<Binary64>,
    )
        requires
            repeatable(self.host),
            self.residuals_at(vars, a),
            self.residuals_at(vars, b),
        ensures
            a == b,
    {
        let g = newton::column_of(a);
        let h = newton::column_of(b);
        assert forall|i: int| 0 <= i < a.len() implies a[i] == b[i] by {
            assert(g.at(i, 0) == a[i]);
            assert(h.at(i, 0) == b[i]);
            law_one_value(self.jacobian.expressions()[i], self.host, vars, a[i], b[i]);
        }
        assert(a =~= b);
    }

    proof fn lemma_same_derivatives(self, vars: Map<usize, Binary64>, g: Grid, h: Grid)
        requires
            repeatable(self.host),
            self.derivatives_at(vars, g),
            self.derivatives_at(vars, h),
        ensures
            g == h,
    {
        assert forall|i: int, j: int| 0 <= i < g.rows && 0 <= j < g.cols implies #[trigger] g.at(
            i,
            j,
        ) == h.at(i, j) by {
            law_one_value(
                self.jacobian.derivatives()[i][j],
                self.host,
                vars,
                g.at(i, j),
                h.at(i, j),
            );
        }
        grid::lemma_grids_equal(g, h);
    }

    /// A line search over repeatable functions has one end.
    pub proof fn law_one_search(
        self,
        vars: Map<usize, Binary64>,
        delta: Seq<Binary64>,
        current: Binary64,
        slope: Binary64,
        alpha: Binary64,
        tried: nat,
        a: Found,
        b: Found,
    )
        requires
            repeatable(self.host),
            self.search(vars, delta, current, slope, alpha, tried, a),
            self.search(vars, delta, current, slope, alpha, tried, b),
        ensures
            a == b,
        decreases self.options.line_search_max_trials - tried,
    {
        if tried < self.options.line_search_max_trials {
            let next = self.candidate(vars, delta, alpha);
            let shorter = self.shorter(alpha);
            if self.search(vars, delta, current, slope, shorter, tried + 1, a) && self.search(
                vars,
                delta,
                current,
                slope,
                shorter,
                tried + 1,
                b,
            ) {
                self.law_one_search(vars, delta, current, slope, shorter, tried + 1, a, b);
            }
            if self.movable(vars, delta, alpha) && !self.unchanged(next, vars) {
                let goes_on_a = if alpha <= self.options.line_search_min_step {
                    a == (Found::Exhausted { trials: tried + 1, alpha })
                } else {
                    self.search(vars, delta, current, slope, shorter, tried + 1, a)
                };
                let goes_on_b = if alpha <= self.options.line_search_min_step {
                    b == (Found::Exhausted { trials: tried + 1, alpha })
                } else {
                    self.search(vars, delta, current, slope, shorter, tried + 1, b)
                };
                let x = choose|raw: Seq<Binary64>| #[trigger]
                    self.residuals_at(next, raw) && if self.sufficient(
                        raw,
                        current,
                        slope,
                        alpha,
                    ) {
                        a == (Found::Accepted { vars: next, raw })
                    } else {
                        goes_on_a
                    };
                let y = choose|raw: Seq<Binary64>| #[trigger]
                    self.residuals_at(next, raw) && if self.sufficient(
                        raw,
                        current,
                        slope,
                        alpha,
                    ) {
                        b == (Found::Accepted { vars: next, raw })
                    } else {
                        goes_on_b
                    };
                self.lemma_same_residuals(next, x, y);
            }
        }
    }

    proof fn lemma_same_reports(
        self,
        a: SolverRunDiagnostic,
        b: SolverRunDiagnostic,
        vars: Map<usize, Binary64>,
        raw: Seq<Binary64>,
        iterations: nat,
        gradient: Option<ResidualGradientMeasure>,
        attempt: Option<LinearSolveDiagnostic>,
    )
        requires
            self.describes(a, vars, raw, iterations, gradient, attempt),
            self.describes(b, vars, raw, iterations, gradient, attempt),
            a.message@ == b.message@,
        ensures
            same_report(a, b),
    {
        assert forall|i: int| 0 <= i < raw.len() implies a.equations@[i] == b.equations@[i] by {
            assert(self.equation_report(raw, i, a.equations@[i]));
            assert(self.equation_report(raw, i, b.equations@[i]));
        }
        assert(a.equations@ =~= b.equations@);
    }

    proof fn lemma_same_number(
        self,
        a: Seq<char>,
        b: Seq<char>,
        start: Seq<char>,
        number: Binary64,
        end: Seq<char>,
    )
        requires
            repeatable(self.host),
            self.ends_with_number(a, start, number, end),
            self.ends_with_number(b, start, number, end),
        ensures
            a == b,
    {
        let s = choose|t: String| #[trigger]
            text::is_scientific(self.host, number, t) && a == start + t@ + end;
        let t = choose|t: String| #[trigger]
            text::is_scientific(self.host, number, t) && b == start + t@ + end;
        assert(s@ == t@);
    }

    proof fn lemma_same_stationary(self, m: Seq<char>, n: Seq<char>, raw: Seq<Binary64>)
        requires
            repeatable(self.host),
            self.stationary_message(m, raw),
            self.stationary_message(n, raw),
        ensures
            m == n,
    {
    }

    proof fn lemma_same_stops_at(
        self,
        state: State,
        iterations: nat,
        gradient: ResidualGradientMeasure,
        used: LinearSolveDiagnostic,
        found: Found,
        r: Result<Solution, SolverError>,
        q: Result<Solution, SolverError>,
    )
        requires
            repeatable(self.host),
            self.stops_at(state, iterations, gradient, used, found, r),
            self.stops_at(state, iterations, gradient, used, found, q),
        ensures
            same_outcome(r, q),
    {
        match found {
            Found::Stuck { alpha } => {
                let a = r->Err_0->NoConvergence_0;
                let b = q->Err_0->NoConvergence_0;
                self.lemma_same_number(
                    a.message@,
                    b.message@,
                    "Newton correction cannot change the variable state at the tested step size "@,
                    alpha,
                    ""@,
                );
                self.lemma_same_reports(
                    *a,
                    *b,
                    state.vars,
                    state.raw,
                    iterations,
                    Some(gradient),
                    Some(used),
                );
            },
            Found::Exhausted { trials, alpha } => {
                let a = r->Err_0->NoConvergence_0;
                let b = q->Err_0->NoConvergence_0;
                self.lemma_same_number(
                    a.message@,
                    b.message@,
                    "Line search failed after "@ + text::decimal(trials)
                        + " rejected trial steps; smallest tested step was "@,
                    alpha,
                    ""@,
                );
                self.lemma_same_reports(
                    *a,
                    *b,
                    state.vars,
                    state.raw,
                    iterations,
                    Some(gradient),
                    Some(used),
                );
            },
            Found::Accepted { vars, raw } => {
                assert forall|g: Grid, h: Grid| #[trigger]
                    self.derivatives_at(vars, g) && #[trigger] self.derivatives_at(
                        vars,
                        h,
                    ) implies g == h by {
                    self.lemma_same_derivatives(vars, g, h);
                }
                let a = r->Err_0->NonFiniteEvaluation_0;
                let b = q->Err_0->NonFiniteEvaluation_0;
                self.lemma_same_reports(
                    *a,
                    *b,
                    vars,
                    raw,
                    iterations + 1,
                    None,
                    Some(used),
                );
            },
        }
    }

    proof fn lemma_same_stops(
        self,
        state: State,
        iterations: nat,
        gradient: ResidualGradientMeasure,
        delta: Seq<Binary64>,
        used: LinearSolveDiagnostic,
        r: Result<Solution, SolverError>,
        q: Result<Solution, SolverError>,
    )
        requires
            repeatable(self.host),
            self.stops(state, iterations, gradient, delta, used, r),
            self.stops(state, iterations, gradient, delta, used, q),
        ensures
            same_outcome(r, q),
    {
        let residuals = self.scaled(state.raw);
        let a = self.normalized(state.derivatives);
        match merit::slope(a, newton::column_of(residuals), newton::column_of(delta)) {
            Err(_) => {
                self.lemma_same_reports(
                    *r->Err_0->NonFiniteEvaluation_0,
                    *q->Err_0->NonFiniteEvaluation_0,
                    state.vars,
                    state.raw,
                    iterations,
                    None,
                    Some(used),
                );
            },
            Ok(slope) => {
                if slope >= Binary64::zero_value() {
                    let x = r->Err_0->NoConvergence_0;
                    let y = q->Err_0->NoConvergence_0;
                    self.lemma_same_number(
                        x.message@,
                        y.message@,
                        "Line search cannot proceed because the proposed correction is not a descent direction (d||f||/d alpha = "@,
                        slope,
                        ")"@,
                    );
                    self.lemma_same_reports(
                        *x,
                        *y,
                        state.vars,
                        state.raw,
                        iterations,
                        Some(gradient),
                        Some(used),
                    );
                } else {
                    let error = self.error_of(state.raw);
                    let first = self.options.initial_step_size;
                    let x = choose|found: Found| #[trigger]
                        self.search(state.vars, delta, error, slope, first, 0, found)
                            && self.stops_at(state, iterations, gradient, used, found, r);
                    let y = choose|found: Found| #[trigger]
                        self.search(state.vars, delta, error, slope, first, 0, found)
                            && self.stops_at(state, iterations, gradient, used, found, q);
                    self.law_one_search(state.vars, delta, error, slope, first, 0, x, y);
                    self.lemma_same_stops_at(state, iterations, gradient, used, x, r, q);
                }
            },
        }
    }

    /// A correction that leads to a next state does not end a run.
    proof fn lemma_moves_or_stops(
        self,
        state: State,
        iterations: nat,
        gradient: ResidualGradientMeasure,
        delta: Seq<Binary64>,
        used: LinearSolveDiagnostic,
        r: Result<Solution, SolverError>,
        next: State,
    )
        requires
            repeatable(self.host),
            self.moves(state, delta, next),
        ensures
            !self.stops(state, iterations, gradient, delta, used, r),
    {
        if self.stops(state, iterations, gradient, delta, used, r) {
            let a = self.normalized(state.derivatives);
            let slope = merit::slope(
                a,
                newton::column_of(self.scaled(state.raw)),
                newton::column_of(delta),
            )->Ok_0;
            let error = self.error_of(state.raw);
            let first = self.options.initial_step_size;
            let accepted = Found::Accepted { vars: next.vars, raw: next.raw };
            let found = choose|found: Found| #[trigger]
                self.search(state.vars, delta, error, slope, first, 0, found) && self.stops_at(
                    state,
                    iterations,
                    gradient,
                    used,
                    found,
                    r,
                );
            self.law_one_search(state.vars, delta, error, slope, first, 0, accepted, found);
            assert forall|g: Grid| #[trigger] self.derivatives_at(next.vars, g) implies g
                == next.derivatives by {
                self.lemma_same_derivatives(next.vars, g, next.derivatives);
            }
        }
    }

    proof fn lemma_same_moves(self, state: State, delta: Seq<Binary64>, a: State, b: State)
        requires
            repeatable(self.host),
            self.moves(state, delta, a),
            self.moves(state, delta, b),
        ensures
            a == b,
    {
        let slope = merit::slope(
            self.normalized(state.derivatives),
            newton::column_of(self.scaled(state.raw)),
            newton::column_of(delta),
        )->Ok_0;
        self.law_one_search(
            state.vars,
            delta,
            self.error_of(state.raw),
            slope,
            self.options.initial_step_size,
            0,
            Found::Accepted { vars: a.vars, raw: a.raw },
            Found::Accepted { vars: b.vars, raw: b.raw },
        );
        self.lemma_same_derivatives(a.vars, a.derivatives, b.derivatives);
    }

    proof fn lemma_same_finish(
        self,
        state: State,
        iterations: nat,
        attempt: Option<LinearSolveDiagnostic>,
        history: Seq<Binary64>,
        r: Result<Solution, SolverError>,
        q: Result<Solution, SolverError>,
    )
        requires
            repeatable(self.host),
            self.finishes(state, iterations, attempt, history, r),
            self.finishes(state, iterations, attempt, history, q),
        ensures
            same_outcome(r, q),
        decreases self.options.max_iterations - iterations, 1nat,
    {
        let residuals = self.scaled(state.raw);
        let a = self.normalized(state.derivatives);
        let error = self.error_of(state.raw);
        let gradient = merit::gradient_measure(a, residuals);
        if error <= self.options.residual_tolerance {
        } else if gradient.stationary(self.options.stationarity_tolerance) {
            let x = r->Err_0->StationaryNonRoot_0;
            let y = q->Err_0->StationaryNonRoot_0;
            self.lemma_same_stationary(x.message@, y.message@, state.raw);
            self.lemma_same_reports(
                *x,
                *y,
                state.vars,
                state.raw,
                iterations,
                Some(gradient),
                attempt,
            );
        } else if iterations >= self.options.max_iterations {
            let x = r->Err_0->NoConvergence_0;
            let y = q->Err_0->NoConvergence_0;
            self.lemma_same_number(
                x.message@,
                y.message@,
                "Failed to converge after "@ + text::decimal(self.options.max_iterations as nat)
                    + " accepted updates. Final error: "@,
                error,
                ""@,
            );
            self.lemma_same_reports(
                *x,
                *y,
                state.vars,
                state.raw,
                iterations,
                Some(gradient),
                attempt,
            );
        } else {
            match self.correction(a, newton::negated(residuals)) {
                Err(_) => {
                    self.lemma_same_reports(
                        *r->Err_0->diagnostic,
                        *q->Err_0->diagnostic,
                        state.vars,
                        state.raw,
                        iterations,
                        Some(gradient),
                        attempt,
                    );
                },
                Ok((delta, used)) => {
                    self.lemma_same_step(state, iterations, history, gradient, delta, used, r, q);
                },
            }
        }
    }

    proof fn lemma_same_step(
        self,
        state: State,
        iterations: nat,
        history: Seq<Binary64>,
        gradient: ResidualGradientMeasure,
        delta: Seq<Binary64>,
        used: LinearSolveDiagnostic,
        r: Result<Solution, SolverError>,
        q: Result<Solution, SolverError>,
    )
        requires
            repeatable(self.host),
            iterations < self.options.max_iterations,
            self.stops(state, iterations, gradient, delta, used, r) || exists|next: State|
                #[trigger] self.moves(state, delta, next) && self.finishes(
                    next,
                    iterations + 1,
                    Some(used),
                    history.push(self.error_of(next.raw)),
                    r,
                ),
            self.stops(state, iterations, gradient, delta, used, q) || exists|next: State|
                #[trigger] self.moves(state, delta, next) && self.finishes(
                    next,
                    iterations + 1,
                    Some(used),
                    history.push(self.error_of(next.raw)),
                    q,
                ),
        ensures
            same_outcome(r, q),
        decreases self.options.max_iterations - iterations, 0nat,
    {
        if self.stops(state, iterations, gradient, delta, used, r) {
            if self.stops(state, iterations, gradient, delta, used, q) {
                self.lemma_same_stops(state, iterations, gradient, delta, used, r, q);
            } else {
                let y = choose|next: State| #[trigger]
                    self.moves(state, delta, next) && self.finishes(
                        next,
                        iterations + 1,
                        Some(used),
                        history.push(self.error_of(next.raw)),
                        q,
                    );
                self.lemma_moves_or_stops(state, iterations, gradient, delta, used, r, y);
            }
        } else {
            let x = choose|next: State| #[trigger]
                self.moves(state, delta, next) && self.finishes(
                    next,
                    iterations + 1,
                    Some(used),
                    history.push(self.error_of(next.raw)),
                    r,
                );
            self.lemma_moves_or_stops(state, iterations, gradient, delta, used, q, x);
            let y = choose|next: State| #[trigger]
                self.moves(state, delta, next) && self.finishes(
                    next,
                    iterations + 1,
                    Some(used),
                    history.push(self.error_of(next.raw)),
                    q,
                );
            self.lemma_same_moves(state, delta, x, y);
            self.lemma_same_finish(
                x,
                iterations + 1,
                Some(used),
                history.push(self.error_of(x.raw)),
                r,
                q,
            );
        }
    }

    /// Where the host's functions are repeatable, two runs of one setup from the
    /// same values end with the same solution or the same failure, whatever mode
    /// each was carried out in.
    pub proof fn law_same_outcome(
        self,
        vars: Map<usize, Binary64>,
        r: Result<Solution, SolverError>,
        q: Result<Solution, SolverError>,
    )
        requires
            repeatable(self.host),
            self.runs(vars, r),
            self.runs(vars, q),
        ensures
            same_outcome(r, q),
    {
        let (x, g) = choose|raw: Seq<Binary64>, g: Grid| #[trigger]
            self.residuals_at(vars, raw) && #[trigger] self.derivatives_at(vars, g)
                && self.starts(vars, raw, g, r);
        let (y, h) = choose|raw: Seq<Binary64>, g: Grid| #[trigger]
            self.residuals_at(vars, raw) && #[trigger] self.derivatives_at(vars, g)
                && self.starts(vars, raw, g, q);
        self.lemma_same_residuals(vars, x, y);
        self.lemma_same_derivatives(vars, g, h);
        if grid::all_finite(x) && g.finite() && grid::all_finite(self.scaled(x)) && self.normalized(
            g,
        ).finite() {
            self.lemma_same_finish(
                State { vars, raw: x, derivatives: g },
                0,
                None,
                seq![self.error_of(x)],
                r,
                q,
            );
        } else {
            self.lemma_same_reports(
                *r->Err_0->NonFiniteEvaluation_0,
                *q->Err_0->NonFiniteEvaluation_0,
                vars,
                x,
                0,
                None,
                None,
            );
        }
    }
}

} // verus!
