//! What every solver run certifies, and what it leaves as it was.
use crate::binary64::Binary64;
use crate::compiler;
use crate::compiler::VarId;
use crate::elementary::Elementary;
use crate::grid;
use crate::matrix;
use crate::merit;
use crate::newton;
use crate::newton::{Found, Setup, State};
use crate::report::{LinearSolveDiagnostic, Solution, SolverError};
use crate::text::Notation;
use vstd::prelude::*;

verus! {

/// No later number is above an earlier one.
pub open spec fn non_increasing(history: Seq<Binary64>) -> bool {
    forall|i: int, j: int|
        0 <= i < j < history.len() ==> #[trigger] history[j] <= #[trigger] history[i]
}

impl<H: Elementary + Notation> Setup<H> {
    /// Variables that are not solved for have the same values in both.
    pub open spec fn keeps_parameters(
        self,
        first: Map<usize, Binary64>,
        vars: Map<usize, Binary64>,
    ) -> bool {
        forall|i: usize|
            i < self.names.len() && !self.jacobian.variables().contains(VarId { index: i })
                ==> #[trigger] vars[i] == first[i]
    }

    /// A state that a run from `first` may reach: every variable has a finite
    /// value, parameters have their first values, `raw` are residuals there, and
    /// the updates are within their limit.
    pub open spec fn reached(
        self,
        first: Map<usize, Binary64>,
        vars: Map<usize, Binary64>,
        raw: Seq<Binary64>,
        iterations: nat,
    ) -> bool {
        &&& self.complete(vars)
        &&& self.residuals_at(vars, raw)
        &&& self.keeps_parameters(first, vars)
        &&& iterations <= self.options.max_iterations
    }

    /// A solution is a root within tolerance at a reached state, and its history
    /// leads there from the norm at the first values without a rise.
    pub open spec fn certifies(
        self,
        first: Map<usize, Binary64>,
        s: Solution,
        vars: Map<usize, Binary64>,
        raw: Seq<Binary64>,
    ) -> bool {
        &&& self.reached(first, vars, raw, s.iterations as nat)
        &&& s.values@ == self.named(vars)
        &&& s.error == self.error_of(raw)
        &&& s.error <= self.options.residual_tolerance
        &&& s.convergence_history@.len() == s.iterations + 1
        &&& exists|start: Seq<Binary64>| #[trigger]
            self.residuals_at(first, start) && s.convergence_history@[0] == self.error_of(start)
        &&& s.convergence_history@.last() == s.error
        &&& non_increasing(s.convergence_history@)
        &&& s.last_linear_attempt is Some <==> s.iterations > 0
    }

    /// A failure report gives a reached state, which is no root within tolerance
    /// unless a value there is not finite.
    pub open spec fn reports(
        self,
        first: Map<usize, Binary64>,
        error: SolverError,
        vars: Map<usize, Binary64>,
        raw: Seq<Binary64>,
    ) -> bool {
        let d = error.diagnostic();
        &&& !(error is InvalidInput)
        &&& self.reached(first, vars, raw, d.iterations as nat)
        &&& d.values@ == self.named(vars)
        &&& d.error == grid::length(self.scaled(raw))
        &&& d.equations@.len() == raw.len()
        &&& forall|i: int|
            0 <= i < raw.len() ==> self.equation_report(raw, i, #[trigger] d.equations@[i])
        &&& !(error is NonFiniteEvaluation) ==> !(self.error_of(raw)
            <= self.options.residual_tolerance)
        &&& error is StationaryNonRoot ==> (d.relative_gradient_norm matches Some(norm) && norm
            < self.options.stationarity_tolerance)
    }

    proof fn lemma_moved_parameters(
        self,
        vars: Map<usize, Binary64>,
        delta: Seq<Binary64>,
        alpha: Binary64,
        end: int,
    )
        requires
            0 <= end <= self.jacobian.variables().len(),
        ensures
            self.keeps_parameters(vars, self.moved(vars, delta, alpha, end)),
        decreases end,
    {
        if end > 0 {
            self.lemma_moved_parameters(vars, delta, alpha, end - 1);
            let id = self.jacobian.variables()[end - 1];
            assert(self.jacobian.variables().contains(id));
            assert(id == VarId { index: id.index });
        }
    }

    /// A step keeps all variables at finite values.
    pub(crate) proof fn lemma_candidate_complete(
        self,
        vars: Map<usize, Binary64>,
        delta: Seq<Binary64>,
        alpha: Binary64,
        end: int,
    )
        requires
            self.wf(),
            self.complete(vars),
            self.movable(vars, delta, alpha),
            0 <= end <= self.jacobian.variables().len(),
        ensures
            self.complete(self.moved(vars, delta, alpha, end)),
        decreases end,
    {
        if end > 0 {
            self.lemma_candidate_complete(vars, delta, alpha, end - 1);
            assert(self.stepped(vars, delta, alpha, end - 1).finite());
            assert(self.jacobian.variables()[end - 1].index < self.names.len());
        }
    }

    /// What a step must leave is not above the current norm.
    proof fn lemma_required(self, current: Binary64, slope: Binary64, alpha: Binary64)
        requires
            self.options.fault() is None,
            current.finite(),
            slope.finite(),
            !(slope >= Binary64::zero_value()),
            alpha > Binary64::zero_value(),
        ensures
            self.required(current, slope, alpha) <= current,
    {
        let c = self.options.armijo_coefficient;
        Binary64::law_product_sign(c, alpha);
        Binary64::law_product_sign(c * alpha, slope);
        Binary64::law_sum_lowers(current, c * alpha * slope);
    }

    /// A step that a line search accepts leaves a state with finite values and
    /// the same parameters, whose residual norm is finite and not above the
    /// current one.
    pub proof fn law_accepted_step(
        self,
        vars: Map<usize, Binary64>,
        delta: Seq<Binary64>,
        current: Binary64,
        slope: Binary64,
        alpha: Binary64,
        tried: nat,
        next: Map<usize, Binary64>,
        raw: Seq<Binary64>,
    )
        requires
            self.wf(),
            self.options.fault() is None,
            self.complete(vars),
            current.finite(),
            slope.finite(),
            !(slope >= Binary64::zero_value()),
            alpha > Binary64::zero_value(),
            self.search(
                vars,
                delta,
                current,
                slope,
                alpha,
                tried,
                Found::Accepted { vars: next, raw },
            ),
        ensures
            self.complete(next),
            self.residuals_at(next, raw),
            self.keeps_parameters(vars, next),
            self.error_of(raw).finite(),
            self.error_of(raw) <= current,
        decreases self.options.line_search_max_trials - tried,
    {
        let found = Found::Accepted { vars: next, raw };
        let count = self.jacobian.variables().len() as int;
        let candidate = self.candidate(vars, delta, alpha);
        self.lemma_required(current, slope, alpha);
        if self.movable(vars, delta, alpha) {
            self.lemma_candidate_complete(vars, delta, alpha, count);
            self.lemma_moved_parameters(vars, delta, alpha, count);
        }
        if self.movable(vars, delta, alpha) && next == candidate && self.residuals_at(
            candidate,
            raw,
        ) && self.sufficient(raw, current, slope, alpha) {
        } else {
            assert(self.search(
                vars,
                delta,
                current,
                slope,
                self.shorter(alpha),
                tried + 1,
                found,
            ));
            assert(self.shorter(alpha) > Binary64::zero_value());
            self.law_accepted_step(
                vars,
                delta,
                current,
                slope,
                self.shorter(alpha),
                tried + 1,
                next,
                raw,
            );
        }
    }

    proof fn lemma_moves(
        self,
        first: Map<usize, Binary64>,
        state: State,
        delta: Seq<Binary64>,
        next: State,
        iterations: nat,
        history: Seq<Binary64>,
    )
        requires
            self.wf(),
            self.options.fault() is None,
            self.reached(first, state.vars, state.raw, iterations),
            iterations < self.options.max_iterations,
            self.moves(state, delta, next),
            history.len() > 0,
            history.last() == self.error_of(state.raw),
            non_increasing(history),
        ensures
            self.reached(first, next.vars, next.raw, iterations + 1),
            non_increasing(history.push(self.error_of(next.raw))),
    {
        let a = self.normalized(state.derivatives);
        let slope = merit::slope(
            a,
            newton::column_of(self.scaled(state.raw)),
            newton::column_of(delta),
        )->Ok_0;
        self.law_accepted_step(
            state.vars,
            delta,
            self.error_of(state.raw),
            slope,
            self.options.initial_step_size,
            0,
            next.vars,
            next.raw,
        );
        let after = history.push(self.error_of(next.raw));
        assert forall|i: int, j: int| 0 <= i < j < after.len() implies #[trigger] after[j]
            <= #[trigger] after[i] by {
            if j == history.len() && i < history.len() - 1 {
                assert(history[history.len() - 1] <= history[i]);
            }
        }
    }

    proof fn lemma_finishes(
        self,
        first: Map<usize, Binary64>,
        state: State,
        iterations: nat,
        attempt: Option<LinearSolveDiagnostic>,
        history: Seq<Binary64>,
        r: Result<Solution, SolverError>,
    )
        requires
            self.wf(),
            self.options.fault() is None,
            self.reached(first, state.vars, state.raw, iterations),
            history.len() == iterations + 1,
            exists|start: Seq<Binary64>| #[trigger]
                self.residuals_at(first, start) && history[0] == self.error_of(start),
            history.last() == self.error_of(state.raw),
            non_increasing(history),
            attempt is Some <==> iterations > 0,
            self.finishes(state, iterations, attempt, history, r),
        ensures
            match r {
                Ok(s) => exists|vars: Map<usize, Binary64>, raw: Seq<Binary64>| #[trigger]
                    self.certifies(first, s, vars, raw),
                Err(e) => exists|vars: Map<usize, Binary64>, raw: Seq<Binary64>| #[trigger]
                    self.reports(first, e, vars, raw),
            },
        decreases self.options.max_iterations - iterations,
    {
        let residuals = self.scaled(state.raw);
        let a = self.normalized(state.derivatives);
        let error = self.error_of(state.raw);
        let gradient = merit::gradient_measure(a, residuals);
        if error <= self.options.residual_tolerance {
            assert(self.certifies(first, r->Ok_0, state.vars, state.raw));
        } else if gradient.stationary(self.options.stationarity_tolerance) || iterations
            >= self.options.max_iterations {
            assert(self.reports(first, r->Err_0, state.vars, state.raw));
        } else {
            match self.correction(a, newton::negated(residuals)) {
                Err(_) => {
                    assert(self.reports(first, r->Err_0, state.vars, state.raw));
                },
                Ok((delta, used)) => {
                    if self.stops(state, iterations, gradient, delta, used, r) {
                        self.lemma_stops(first, state, iterations, gradient, delta, used, r);
                    } else {
                        let next = choose|next: State| #[trigger]
                            self.moves(state, delta, next) && self.finishes(
                                next,
                                iterations + 1,
                                Some(used),
                                history.push(self.error_of(next.raw)),
                                r,
                            );
                        self.lemma_moves(first, state, delta, next, iterations, history);
                        self.lemma_finishes(
                            first,
                            next,
                            iterations + 1,
                            Some(used),
                            history.push(self.error_of(next.raw)),
                            r,
                        );
                    }
                },
            }
        }
    }

    proof fn lemma_stops(
        self,
        first: Map<usize, Binary64>,
        state: State,
        iterations: nat,
        gradient: merit::ResidualGradientMeasure,
        delta: Seq<Binary64>,
        used: LinearSolveDiagnostic,
        r: Result<Solution, SolverError>,
    )
        requires
            self.wf(),
            self.options.fault() is None,
            self.reached(first, state.vars, state.raw, iterations),
            iterations < self.options.max_iterations,
            !(self.error_of(state.raw) <= self.options.residual_tolerance),
            self.stops(state, iterations, gradient, delta, used, r),
        ensures
            r is Err,
            exists|vars: Map<usize, Binary64>, raw: Seq<Binary64>| #[trigger]
                self.reports(first, r->Err_0, vars, raw),
    {
        let a = self.normalized(state.derivatives);
        match merit::slope(
            a,
            newton::column_of(self.scaled(state.raw)),
            newton::column_of(delta),
        ) {
            Err(_) => {
                assert(self.reports(first, r->Err_0, state.vars, state.raw));
            },
            Ok(slope) => {
                if slope >= Binary64::zero_value() {
                    assert(self.reports(first, r->Err_0, state.vars, state.raw));
                } else {
                    let found = choose|found: Found| #[trigger]
                        self.search(
                            state.vars,
                            delta,
                            self.error_of(state.raw),
                            slope,
                            self.options.initial_step_size,
                            0,
                            found,
                        ) && self.stops_at(state, iterations, gradient, used, found, r);
                    match found {
                        Found::Accepted { vars, raw } => {
                            self.law_accepted_step(
                                state.vars,
                                delta,
                                self.error_of(state.raw),
                                slope,
                                self.options.initial_step_size,
                                0,
                                vars,
                                raw,
                            );
                            assert(self.reports(first, r->Err_0, vars, raw));
                        },
                        _ => {
                            assert(self.reports(first, r->Err_0, state.vars, state.raw));
                        },
                    }
                }
            },
        }
    }

    proof fn lemma_runs(self, first: Map<usize, Binary64>, r: Result<Solution, SolverError>)
        requires
            self.wf(),
            self.options.fault() is None,
            self.complete(first),
            self.runs(first, r),
        ensures
            match r {
                Ok(s) => exists|vars: Map<usize, Binary64>, raw: Seq<Binary64>| #[trigger]
                    self.certifies(first, s, vars, raw),
                Err(e) => exists|vars: Map<usize, Binary64>, raw: Seq<Binary64>| #[trigger]
                    self.reports(first, e, vars, raw),
            },
    {
        let (raw, g) = choose|raw: Seq<Binary64>, g: grid::Grid| #[trigger]
            self.residuals_at(first, raw) && #[trigger] self.derivatives_at(first, g)
                && self.starts(first, raw, g, r);
        if grid::all_finite(raw) && g.finite() && grid::all_finite(self.scaled(raw))
            && self.normalized(g).finite() {
            self.lemma_finishes(
                first,
                State { vars: first, raw, derivatives: g },
                0,
                None,
                seq![self.error_of(raw)],
                r,
            );
        } else {
            assert(self.reports(first, r->Err_0, first, raw));
        }
    }

    /// A solution is a root: at the values that it returns, which are finite and
    /// keep every parameter, the norm of the scaled residuals is the reported
    /// error and within tolerance. The history holds one norm for the start and
    /// one for each update, ends with that error and never rises, and the
    /// updates are within their limit.
    pub proof fn law_solution_is_root(self, first: Map<usize, Binary64>, s: Solution)
        requires
            self.wf(),
            self.options.fault() is None,
            self.complete(first),
            self.runs(first, Ok(s)),
        ensures
            exists|vars: Map<usize, Binary64>, raw: Seq<Binary64>| #[trigger]
                self.certifies(first, s, vars, raw),
    {
        self.lemma_runs(first, Ok(s));
    }

    /// A run that fails reports a state that it reached, with its values and
    /// residuals. Unless a value was not finite, that state is no root within
    /// tolerance; a stationary one has residual cosines below their tolerance.
    pub proof fn law_failure_reports_state(self, first: Map<usize, Binary64>, error: SolverError)
        requires
            self.wf(),
            self.options.fault() is None,
            self.complete(first),
            self.runs(first, Err(error)),
        ensures
            exists|vars: Map<usize, Binary64>, raw: Seq<Binary64>| #[trigger]
                self.reports(first, error, vars, raw),
    {
        self.lemma_runs(first, Err(error));
    }

    /// With unit scales the norm that decides is the norm of the residuals.
    pub proof fn law_unit_scales(self, raw: Seq<Binary64>)
        requires
            raw.len() == self.equation_scales.len(),
            forall|i: int|
                0 <= i < raw.len() ==> #[trigger] self.equation_scales[i] == Binary64::one(),
        ensures
            self.error_of(raw) == matrix::norm_of(raw),
    {
        let scaled = self.scaled(raw);
        assert forall|k: int| 0 <= k < raw.len() implies #[trigger] scaled[k] == raw[k] || (
        scaled[k].nan() && raw[k].nan()) by {
            assert(self.equation_scales[k] == Binary64::one());
            if raw[k].nan() {
                reveal(Binary64::spec_euclidean_or_real_div);
            } else {
                Binary64::law_over_one(raw[k]);
            }
        }
        matrix::lemma_norm_alike(scaled, raw);
    }

    /// A first guess that is a root already is returned as it is, without an
    /// update.
    pub proof fn law_root_is_kept(
        self,
        first: Map<usize, Binary64>,
        r: Result<Solution, SolverError>,
    )
        requires
            self.runs(first, r),
            forall|raw: Seq<Binary64>| #[trigger]
                self.residuals_at(first, raw) ==> grid::all_finite(raw) && grid::all_finite(
                    self.scaled(raw),
                ) && self.error_of(raw) <= self.options.residual_tolerance,
            forall|g: grid::Grid| #[trigger]
                self.derivatives_at(first, g) ==> g.finite() && self.normalized(g).finite(),
        ensures
            r matches Ok(s) && s.values@ == self.named(first) && s.iterations == 0
                && s.last_linear_attempt is None,
    {
    }

    /// A guess that is accepted is read as it was given: the values by name of its
    /// numbered form are the guess, and they are complete.
    pub proof fn law_guess_round_trip(self, guess: Map<Seq<char>, Binary64>)
        requires
            self.wf(),
            self.guess_fault(guess) is None,
        ensures
            self.named(self.numbered(guess)) == guess,
            self.complete(self.numbered(guess)),
    {
        let values = self.named(self.numbered(guess));
        assert forall|n: Seq<char>| guess.dom().contains(n) implies self.names.contains(n)
            && guess[n].finite() by {
            assert(!self.unknown_names(guess).contains(n));
            assert(!self.non_finite_names(guess).contains(n));
        }
        assert forall|n: Seq<char>| self.names.contains(n) implies guess.dom().contains(n) by {
            assert(self.names.to_set().contains(n));
            assert(!self.missing_names(guess).contains(n));
        }
        assert forall|n: Seq<char>| self.names.contains(n) implies values[n] == guess[n] by {
            let k = self.names.index_of(n);
            assert(0 <= k < self.names.len() && self.names[k] == n);
            assert(self.numbered(guess).dom().contains(k as usize));
        }
        assert forall|i: usize| i < self.names.len() implies (#[trigger] self.numbered(
            guess,
        )[i]).finite() by {
            assert(self.names.contains(self.names[i as int]));
        }
        assert(values =~= guess);
    }

    /// A step between the shortest and the first that a line search tries.
    pub open spec fn in_range(self, alpha: Binary64) -> bool {
        self.options.line_search_min_step <= alpha && alpha <= self.options.initial_step_size
    }

    /// A line search keeps to its limits: the step that it accepts, or ends with,
    /// is between the shortest and the first, and the steps that it tried are
    /// within their number. An accepted step shows sufficient decrease.
    pub proof fn law_search_limits(
        self,
        vars: Map<usize, Binary64>,
        delta: Seq<Binary64>,
        current: Binary64,
        slope: Binary64,
        alpha: Binary64,
        tried: nat,
        found: Found,
    )
        requires
            self.options.fault() is None,
            self.in_range(alpha),
            tried <= self.options.line_search_max_trials,
            self.search(vars, delta, current, slope, alpha, tried, found),
        ensures
            match found {
                Found::Accepted { vars: next, raw } => exists|a: Binary64|
                    self.in_range(a) && next == #[trigger] self.candidate(vars, delta, a)
                        && self.sufficient(raw, current, slope, a),
                Found::Stuck { alpha: a } => self.in_range(a) && self.unchanged(
                    self.candidate(vars, delta, a),
                    vars,
                ),
                Found::Exhausted { trials, alpha: a } => self.in_range(a) && trials
                    <= self.options.line_search_max_trials,
            },
        decreases self.options.line_search_max_trials - tried,
    {
        Binary64::lemma_times_unit(alpha, Binary64::from_bits(newton::HALF));
        assert(self.in_range(self.shorter(alpha)));
        if self.search(vars, delta, current, slope, self.shorter(alpha), tried + 1, found) && tried
            < self.options.line_search_max_trials {
            self.law_search_limits(
                vars,
                delta,
                current,
                slope,
                self.shorter(alpha),
                tried + 1,
                found,
            );
        }
    }

    /// The setup with other scales of the variables to solve for.
    pub open spec fn with_scales(self, scales: Seq<Binary64>) -> Self {
        Setup { variable_scales: scales, ..self }
    }

    /// Replacing scales gives each name that is given its new scale, leaves the
    /// other variables theirs, and keeps all scales finite and above zero.
    pub proof fn law_rescaled(self, given: Seq<Seq<char>>, scales: Map<Seq<char>, Binary64>)
        requires
            self.wf(),
            self.rescaled(given, scales) is Ok,
        ensures
            self.with_scales(self.rescaled(given, scales)->Ok_0).wf(),
            forall|name: Seq<char>| #[trigger]
                self.with_scales(self.rescaled(given, scales)->Ok_0).scale_of(name) == (
                if given.contains(name) {
                    Some(scales[name])
                } else {
                    self.scale_of(name)
                }),
        decreases given.len(),
    {
        let after = self.with_scales(self.rescaled(given, scales)->Ok_0);
        if given.len() == 0 {
            assert(after == self);
        } else {
            let rest = given.drop_last();
            let before = self.with_scales(self.rescaled(rest, scales)->Ok_0);
            let variables = self.jacobian.variables();
            let last = given.last();
            let column = variables.index_of(compiler::number_of(self.names, last));
            self.law_rescaled(rest, scales);
            assert(variables.contains(compiler::number_of(self.names, last)));
            assert(after.variable_scales == before.variable_scales.update(column, scales[last]));
            assert(after.wf());
            assert forall|name: Seq<char>| #[trigger]
                after.scale_of(name) == if given.contains(name) {
                    Some(scales[name])
                } else {
                    self.scale_of(name)
                } by {
                assert(before.scale_of(name) == if rest.contains(name) {
                    Some(scales[name])
                } else {
                    self.scale_of(name)
                });
                assert(given == rest.push(last));
                assert(given.contains(name) <==> rest.contains(name) || name == last) by {
                    if rest.contains(name) {
                        let k = rest.index_of(name);
                        assert(given[k] == name);
                    }
                    if name == last {
                        assert(given[given.len() - 1] == name);
                    }
                    if given.contains(name) && name != last {
                        let k = given.index_of(name);
                        assert(rest[k] == name);
                    }
                }
                let id = compiler::number_of(self.names, name);
                if self.names.contains(name) && variables.contains(id) && name != last {
                    assert(variables[column] == compiler::number_of(self.names, last));
                    assert(variables[variables.index_of(id)] == id);
                    assert(self.names[self.names.index_of(name)] == name);
                    assert(self.names[self.names.index_of(last)] == last);
                    assert(variables.index_of(id) != column);
                }
            }
        }
    }
}

} // verus!
