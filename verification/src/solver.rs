//! Damped Newton iteration for systems of nonlinear equations.
use core::ops::Neg;
use crate::binary64::Binary64;
use crate::compiler;
use crate::compiler::{Assignment, CompiledSystem, VarId, VarTable};
use crate::elementary::Elementary;
use crate::grid;
use crate::grid::Grid;
use crate::jacobian;
use crate::jacobian::Jacobian;
use crate::least_squares;
use crate::least_squares::LeastSquaresWorkspace;
use crate::matrix;
use crate::matrix::{Matrix, MatrixError};
use crate::merit;
use crate::merit::ResidualGradientMeasure;
use crate::mode;
use crate::mode::Mode;
use crate::named;
use crate::named::NamedValues;
use crate::newton;
use crate::newton::{Found, Setup, State, HALF};
use crate::report::{
    EquationDiagnostic,
    EquationTrace,
    LinearSolveDiagnostic,
    Solution,
    SolverError,
    SolverOptions,
    SolverRunDiagnostic,
};
use crate::scaled;
use crate::selection;
use crate::text;
use crate::text::Notation;
use rayon::ThreadPool;
use vstd::prelude::*;
use vstd::string::*;

verus! {

/// Newton-Raphson solver for systems of any shape.
///
/// Corrections are minimum-norm least-squares solutions, and every update is
/// accepted by a backtracking line search.
pub struct NewtonRaphsonSolver<H> {
    host: H,
    jacobian: Jacobian,
    var_table: VarTable,
    equation_scales: Vec<Binary64>,
    variable_scales: Vec<Binary64>,
    options: SolverOptions,
    equation_traces: Vec<Option<EquationTrace>>,
    mode: Mode,
    pool: Option<ThreadPool>,
}

impl<H> View for NewtonRaphsonSolver<H> {
    type V = Setup<H>;

    closed spec fn view(&self) -> Setup<H> {
        Setup {
            host: self.host,
            jacobian: self.jacobian,
            names: self.var_table@,
            equation_scales: self.equation_scales@,
            variable_scales: self.variable_scales@,
            options: self.options,
            traces: self.equation_traces@,
        }
    }
}

/// The variables with some names, each once, in the order of the names.
pub open spec fn selected(names: Seq<Seq<char>>, wanted: Seq<Seq<char>>) -> Seq<VarId>
    decreases wanted.len(),
{
    if wanted.len() == 0 {
        Seq::empty()
    } else {
        let head = selected(names, wanted.drop_last());
        let id = compiler::number_of(names, wanted.last());
        if head.contains(id) {
            head
        } else {
            head.push(id)
        }
    }
}

/// The first of some names that is not in a list.
pub open spec fn first_unknown(names: Seq<Seq<char>>, wanted: Seq<Seq<char>>) -> Option<Seq<char>>
    decreases wanted.len(),
{
    if wanted.len() == 0 {
        None
    } else {
        compiler::first_of(
            first_unknown(names, wanted.drop_last()),
            if names.contains(wanted.last()) {
                None
            } else {
                Some(wanted.last())
            },
        )
    }
}

proof fn lemma_unknown_stays(names: Seq<Seq<char>>, wanted: Seq<Seq<char>>, k: int)
    requires
        0 <= k <= wanted.len(),
        first_unknown(names, wanted.take(k)) is Some,
    ensures
        first_unknown(names, wanted) == first_unknown(names, wanted.take(k)),
    decreases wanted.len() - k,
{
    if k < wanted.len() {
        let next = wanted.take(k + 1);
        assert(next.drop_last() =~= wanted.take(k));
        lemma_unknown_stays(names, wanted, k + 1);
    } else {
        assert(wanted.take(k) =~= wanted);
    }
}

/// The texts of a list of string slices.
pub open spec fn slice_texts(strings: Seq<&str>) -> Seq<Seq<char>> {
    strings.map_values(|s: &str| s@)
}

impl<H: Elementary + Notation> NewtonRaphsonSolver<H> {
    /// The parts fit together, and a pool with the threads that were asked for
    /// is there exactly in parallel mode.
    pub closed spec fn wf(self) -> bool {
        &&& self@.wf()
        &&& self.var_table.wf()
        &&& Self::manned(self.mode, self.workers())
    }

    /// Number of threads of the solver's pool, where it has one.
    pub closed spec fn workers(self) -> Option<nat> {
        match self.pool {
            Some(pool) => Some(mode::workers(pool)),
            None => None,
        }
    }

    /// The threads are those that a mode asks for.
    pub open spec fn manned(mode: Mode, workers: Option<nat>) -> bool {
        match mode {
            Mode::Serial => workers is None,
            Mode::Parallel { thread_count } => thread_count > 0 && (workers matches Some(count)
                && mode::staffed(count, thread_count)),
        }
    }

    /// What a well-formed solver is: its setup is well formed, and it has the
    /// threads that its mode asks for.
    pub proof fn lemma_wf(self)
        requires
            self.wf(),
        ensures
            self@.wf(),
            Self::manned(self.run_mode(), self.workers()),
    {
    }

    /// Where the solver does its work.
    pub closed spec fn run_mode(self) -> Mode {
        self.mode
    }

    /// A solver as it is made: unit scales, the default policy, no traces.
    pub open spec fn fresh(
        self,
        names: Seq<Seq<char>>,
        equations: Seq<compiler::CompiledExp>,
        variables: Seq<VarId>,
        host: H,
    ) -> bool {
        &&& self.wf()
        &&& self@.host == host
        &&& self@.names == names
        &&& self@.jacobian.expressions() == equations
        &&& self@.jacobian.variables() == variables
        &&& self@.equation_scales == Seq::new(equations.len(), |i: int| Binary64::one())
        &&& self@.variable_scales == Seq::new(variables.len(), |i: int| Binary64::one())
        &&& self@.options == SolverOptions::standard()
        &&& self@.traces.len() == 0
    }

    fn ones(count: usize) -> (r: Vec<Binary64>)
        ensures
            r@ == Seq::new(count as nat, |i: int| Binary64::one()),
    {
        let mut r: Vec<Binary64> = Vec::new();
        let mut i: usize = 0;
        while i < count
            invariant
                i <= count,
                r@ =~= Seq::new(i as nat, |k: int| Binary64::one()),
            decreases count - i,
        {
            r.push(Binary64::one());
            i = i + 1;
        }
        r
    }

    fn build(compiled: CompiledSystem, variables: Vec<VarId>, host: H) -> (r: Self)
        requires
            compiled.wf(),
            variables@.no_duplicates(),
            forall|j: int|
                0 <= j < variables@.len() ==> (#[trigger] variables@[j]).index
                    < compiled.names().len(),
        ensures
            r.fresh(compiled.names(), compiled.equations(), variables@, host),
            r.run_mode() == Mode::Serial,
    {
        let (equations, var_table) = compiled.into_parts();
        let equation_scales = Self::ones(equations.len());
        let variable_scales = Self::ones(variables.len());
        let jacobian = Jacobian::new(equations, variables, &host);
        NewtonRaphsonSolver {
            host,
            jacobian,
            var_table,
            equation_scales,
            variable_scales,
            options: SolverOptions::default(),
            equation_traces: Vec::new(),
            mode: Mode::Serial,
            pool: None,
        }
    }

    /// A solver for all variables of a system.
    pub fn new(compiled: CompiledSystem, host: H) -> (r: Self)
        requires
            compiled.wf(),
        ensures
            r.fresh(
                compiled.names(),
                compiled.equations(),
                Seq::new(compiled.names().len(), |i: int| VarId { index: i as usize }),
                host,
            ),
            r.run_mode() == Mode::Serial,
    {
        let variables = compiled.variable_ids();
        Self::build(compiled, variables, host)
    }

    /// A solver for all variables of a system, with a mode.
    pub fn new_with_mode(compiled: CompiledSystem, mode: Mode, host: H) -> (r: Result<
        Self,
        SolverError,
    >)
        requires
            compiled.wf(),
        ensures
            Self::mode_result(mode, r),
            r matches Ok(solver) ==> solver.fresh(
                compiled.names(),
                compiled.equations(),
                Seq::new(compiled.names().len(), |i: int| VarId { index: i as usize }),
                host,
            ),
    {
        Self::new(compiled, host).with_mode(mode)
    }

    /// What asking for a mode comes to: a solver in that mode, with the threads
    /// that it asks for, or the reason why there is no pool.
    pub open spec fn mode_result(mode: Mode, r: Result<Self, SolverError>) -> bool {
        match r {
            Ok(solver) => solver.run_mode() == mode && Self::manned(mode, solver.workers()),
            Err(SolverError::InvalidInput(message)) => match mode {
                Mode::Serial => false,
                Mode::Parallel { thread_count } => if thread_count == 0 {
                    message@ == "thread_count must be greater than 0"@
                } else {
                    exists|cause: String|
                        message@ == "failed to build thread pool: "@ + #[trigger] cause@
                },
            },
            Err(_) => false,
        }
    }

    /// The same solver in another mode.
    pub fn with_mode(self, mode: Mode) -> (r: Result<Self, SolverError>)
        requires
            self.wf(),
        ensures
            Self::mode_result(mode, r),
            r matches Ok(solver) ==> solver.wf() && solver@ == self@,
    {
        match mode::build_thread_pool(&mode) {
            Err(message) => Err(SolverError::InvalidInput(message)),
            Ok(pool) => Ok(
                NewtonRaphsonSolver {
                    host: self.host,
                    jacobian: self.jacobian,
                    var_table: self.var_table,
                    equation_scales: self.equation_scales,
                    variable_scales: self.variable_scales,
                    options: self.options,
                    equation_traces: self.equation_traces,
                    mode,
                    pool,
                },
            ),
        }
    }

    /// The variables with some names.
    #[verifier::loop_isolation(false)]
    fn select(compiled: &CompiledSystem, variables: &[&str]) -> (r: Result<Vec<VarId>, SolverError>)
        requires
            compiled.wf(),
        ensures
            match first_unknown(compiled.names(), slice_texts(variables@)) {
                Some(name) => r matches Err(SolverError::InvalidInput(message)) && message@
                    == "Unknown variable '"@ + name + "'"@,
                None => r matches Ok(ids) && ids@ == selected(
                    compiled.names(),
                    slice_texts(variables@),
                ) && selection::are_named(compiled.names(), slice_texts(variables@), ids@),
            },
    {
        let ghost wanted = slice_texts(variables@);
        let ghost names = compiled.names();
        let mut ids: Vec<VarId> = Vec::new();
        let mut i: usize = 0;
        assert(wanted.take(0) =~= Seq::empty());
        while i < variables.len()
            invariant
                i <= variables@.len(),
                first_unknown(names, wanted.take(i as int)) is None,
                ids@ == selected(names, wanted.take(i as int)),
                ids@.no_duplicates(),
                forall|j: int| 0 <= j < ids@.len() ==> (#[trigger] ids@[j]).index < names.len(),
            decreases variables@.len() - i,
        {
            let name: &str = variables[i];
            proof {
                let next = wanted.take(i + 1);
                assert(next.drop_last() =~= wanted.take(i as int));
                assert(next.last() == name@);
            }
            match compiled.variable_id(name) {
                None => {
                    proof {
                        lemma_unknown_stays(names, wanted, i + 1);
                    }
                    let mut message = "Unknown variable '".to_owned();
                    message.append(name);
                    message.append("'");
                    return Err(SolverError::InvalidInput(message));
                },
                Some(id) => {
                    assert(names.contains(name@));
                    let mut seen: bool = false;
                    let mut k: usize = 0;
                    while k < ids.len()
                        invariant
                            k <= ids@.len(),
                            seen == exists|n: int| 0 <= n < k && #[trigger] ids@[n] == id,
                        decreases ids@.len() - k,
                    {
                        if ids[k] == id {
                            seen = true;
                        }
                        k = k + 1;
                    }
                    if !seen {
                        ids.push(id);
                    }
                },
            }
            i = i + 1;
        }
        assert(wanted.take(i as int) =~= wanted);
        proof {
            compiled.lemma_names();
            selection::law_first_unknown(names, wanted);
            selection::law_selected(names, wanted);
        }
        Ok(ids)
    }

    /// A solver for some variables; the others are parameters.
    pub fn new_with_variables(compiled: CompiledSystem, variables: &[&str], host: H) -> (r: Result<
        Self,
        SolverError,
    >)
        requires
            compiled.wf(),
        ensures
            match first_unknown(compiled.names(), slice_texts(variables@)) {
                Some(name) => r matches Err(SolverError::InvalidInput(message)) && message@
                    == "Unknown variable '"@ + name + "'"@,
                None => r matches Ok(solver) && solver.fresh(
                    compiled.names(),
                    compiled.equations(),
                    selected(compiled.names(), slice_texts(variables@)),
                    host,
                ) && selection::are_named(
                    compiled.names(),
                    slice_texts(variables@),
                    solver@.jacobian.variables(),
                ) && solver.run_mode() == Mode::Serial,
            },
    {
        match Self::select(&compiled, variables) {
            Err(error) => Err(error),
            Ok(ids) => Ok(Self::build(compiled, ids, host)),
        }
    }

    /// A solver for some variables, with a mode.
    pub fn new_with_variables_and_mode(
        compiled: CompiledSystem,
        variables: &[&str],
        mode: Mode,
        host: H,
    ) -> (r: Result<Self, SolverError>)
        requires
            compiled.wf(),
        ensures
            match first_unknown(compiled.names(), slice_texts(variables@)) {
                Some(name) => r matches Err(SolverError::InvalidInput(message)) && message@
                    == "Unknown variable '"@ + name + "'"@,
                None => Self::mode_result(mode, r) && (r matches Ok(solver) ==> solver.fresh(
                    compiled.names(),
                    compiled.equations(),
                    selected(compiled.names(), slice_texts(variables@)),
                    host,
                ) && selection::are_named(
                    compiled.names(),
                    slice_texts(variables@),
                    solver@.jacobian.variables(),
                )),
            },
    {
        match Self::new_with_variables(compiled, variables, host) {
            Err(error) => Err(error),
            Ok(solver) => solver.with_mode(mode),
        }
    }
}

/// A well-formed grid of one column is that column.
proof fn lemma_column(g: Grid)
    requires
        g.wf(),
        g.cols == 1,
    ensures
        g == newton::column_of(g.cells),
        g.column(0) == g.cells,
        g.cells.len() == g.rows,
        forall|i: int| 0 <= i < g.rows ==> #[trigger] g.at(i, 0) == g.cells[i],
{
    assert(g.rows * g.cols == g.rows) by (nonlinear_arith)
        requires
            g.cols == 1,
    ;
    assert forall|i: int| 0 <= i < g.rows implies #[trigger] g.at(i, 0) == g.cells[i] by {
        assert(i * g.cols + 0 == i) by (nonlinear_arith)
            requires
                g.cols == 1,
        ;
    }
    assert(g.column(0) =~= g.cells);
}

/// Numbers as one column make a well-formed grid.
proof fn lemma_column_of(cells: Seq<Binary64>)
    ensures
        newton::column_of(cells).wf(),
        newton::column_of(cells).column(0) == cells,
{
    assert(cells.len() * 1 == cells.len()) by (nonlinear_arith);
    lemma_column(newton::column_of(cells));
}

/// Expressions over numbered names have values where all names have.
proof fn lemma_numbered_variables(e: compiler::CompiledExp, names: Seq<Seq<char>>)
    requires
        compiler::well_numbered(e, names),
    ensures
        forall|i: usize| e.variables().contains(i) ==> i < names.len(),
    decreases e,
{
    match e {
        compiler::CompiledExp::Val(_) => {},
        compiler::CompiledExp::Var(_, _) => {},
        compiler::CompiledExp::Add(a, b)
        | compiler::CompiledExp::Sub(a, b)
        | compiler::CompiledExp::Mul(a, b)
        | compiler::CompiledExp::Div(a, b) => {
            lemma_numbered_variables(*a, names);
            lemma_numbered_variables(*b, names);
            assert(e.variables() == a.variables().union(b.variables()));
        },
        compiler::CompiledExp::Power(a, _)
        | compiler::CompiledExp::Neg(a)
        | compiler::CompiledExp::Sin(a)
        | compiler::CompiledExp::Cos(a)
        | compiler::CompiledExp::Ln(a)
        | compiler::CompiledExp::Exp(a) => {
            lemma_numbered_variables(*a, names);
            assert(e.variables() == a.variables());
        },
    }
}

proof fn lemma_row_evaluates(row: Seq<compiler::CompiledExp>, vars: Map<usize, Binary64>)
    requires
        forall|i: int|
            0 <= i < row.len() ==> (#[trigger] row[i]).variables().subset_of(vars.dom()),
    ensures
        jacobian::first_missing_in(row, vars) is None,
    decreases row.len(),
{
    if row.len() > 0 {
        let head = row.drop_last();
        assert forall|i: int| 0 <= i < head.len() implies (
        #[trigger] head[i]).variables().subset_of(vars.dom()) by {
            assert(head[i] == row[i]);
        }
        lemma_row_evaluates(head, vars);
        assert(row.last() == row[row.len() - 1]);
        compiler::law_evaluation_total(row.last(), vars);
    }
}

proof fn lemma_rows_evaluate(
    rows: Seq<Seq<compiler::CompiledExp>>,
    vars: Map<usize, Binary64>,
)
    requires
        forall|i: int|
            0 <= i < rows.len() ==> jacobian::first_missing_in(#[trigger] rows[i], vars) is None,
    ensures
        jacobian::first_missing_rows(rows, vars) is None,
    decreases rows.len(),
{
    if rows.len() > 0 {
        let head = rows.drop_last();
        assert forall|i: int| 0 <= i < head.len() implies jacobian::first_missing_in(
            #[trigger] head[i],
            vars,
        ) is None by {
            assert(head[i] == rows[i]);
        }
        lemma_rows_evaluate(head, vars);
        assert(rows.last() == rows[rows.len() - 1]);
    }
}

impl<H: Elementary + Notation> Setup<H> {
    /// Where every variable has a value, every equation and every derivative
    /// has one.
    pub proof fn law_evaluation_succeeds(self, vars: Map<usize, Binary64>)
        requires
            self.wf(),
            forall|i: usize| i < self.names.len() ==> vars.dom().contains(i),
        ensures
            jacobian::first_missing_in(self.jacobian.expressions(), vars) is None,
            jacobian::first_missing_rows(self.jacobian.derivatives(), vars) is None,
    {
        let equations = self.jacobian.expressions();
        let rows = self.jacobian.derivatives();
        assert forall|i: int| 0 <= i < equations.len() implies (
        #[trigger] equations[i]).variables().subset_of(vars.dom()) by {
            lemma_numbered_variables(equations[i], self.names);
        }
        lemma_row_evaluates(equations, vars);
        assert forall|i: int| 0 <= i < rows.len() implies jacobian::first_missing_in(
            #[trigger] rows[i],
            vars,
        ) is None by {
            assert forall|j: int| 0 <= j < rows[i].len() implies (
            #[trigger] rows[i][j]).variables().subset_of(vars.dom()) by {
                let id = self.jacobian.variables()[j];
                compiler::law_derivative_variables(equations[i], id);
                compiler::law_simplified_variables(
                    equations[i].derivative(id),
                    self.host,
                    rows[i][j],
                );
                lemma_numbered_variables(equations[i], self.names);
            }
            lemma_row_evaluates(rows[i], vars);
        }
        lemma_rows_evaluate(rows, vars);
    }
}

impl<H: Elementary + Notation> NewtonRaphsonSolver<H> {
    /// Values by name.
    fn values_by_name(&self, vars: &Assignment) -> (r: NamedValues)
        requires
            self.wf(),
            self@.complete(vars@),
        ensures
            r.wf(),
            r@ == self@.named(vars@),
    {
        let ghost names = self@.names;
        let mut values = NamedValues::new();
        let count: usize = self.var_table.len();
        let mut i: usize = 0;
        while i < count
            invariant
                i <= count,
                count == names.len(),
                self.wf(),
                self@.complete(vars@),
                names == self@.names,
                values.wf(),
                forall|n: Seq<char>| #[trigger]
                    values@.dom().contains(n) <==> (exists|k: int|
                        0 <= k < i && #[trigger] names[k] == n),
                forall|k: int|
                    0 <= k < i ==> values@[#[trigger] names[k]] == vars@[k as usize],
            decreases count - i,
        {
            match vars.get(VarId::new(i)) {
                Some(value) => {
                    values.insert(self.var_table.name(i).as_str(), value);
                },
                None => {},
            }
            i = i + 1;
        }
        proof {
            let target = self@.named(vars@);
            assert forall|n: Seq<char>| #[trigger] target.dom().contains(n) implies values@[n]
                == target[n] by {
                let k = names.index_of(n);
                assert(names[k] == n);
            }
            assert(values@ =~= target);
        }
        values
    }

    /// Residuals over the scales of their equations.
    fn scale_residuals_into(&self, raw: &Matrix, scaled: &mut Matrix)
        requires
            self.wf(),
            raw@.wf(),
            raw@.shape() == (self@.jacobian.expressions().len(), 1nat),
            old(scaled)@.wf(),
        ensures
            final(scaled)@ == newton::column_of(self@.scaled(raw@.cells)),
            final(scaled)@.wf(),
    {
        let rows: usize = raw.rows();
        if scaled.rows() != rows || scaled.cols() != 1 {
            *scaled = Matrix::new(rows, 1);
        }
        let ghost target = self@.scaled(raw@.cells);
        let mut i: usize = 0;
        proof {
            lemma_column(raw@);
        }
        while i < rows
            invariant
                i <= rows,
                self.wf(),
                raw@.wf(),
                raw@.shape() == (rows as nat, 1nat),
                rows == self@.jacobian.expressions().len(),
                raw@.cells.len() == rows,
                target == self@.scaled(raw@.cells),
                scaled@.wf(),
                scaled@.shape() == (rows as nat, 1nat),
                forall|k: int| 0 <= k < i ==> #[trigger] scaled@.at(k, 0) == target[k],
            decreases rows - i,
        {
            proof {
                lemma_column(raw@);
            }
            let value = raw.get(i, 0) / self.equation_scales[i];
            scaled.set(i, 0, value);
            i = i + 1;
        }
        proof {
            lemma_column(scaled@);
            assert forall|k: int| 0 <= k < rows implies scaled@.cells[k] == target[k] by {
                assert(scaled@.at(k, 0) == target[k]);
            }
            assert(scaled@.cells =~= target);
        }
    }

    /// Length of the scaled residuals.
    fn scaled_residual_norm(&self, raw: &Matrix) -> (r: Binary64)
        requires
            self.wf(),
            raw@.wf(),
            raw@.shape() == (self@.jacobian.expressions().len(), 1nat),
        ensures
            r == grid::length(self@.scaled(raw@.cells)),
    {
        let rows: usize = raw.rows();
        let ghost target = self@.scaled(raw@.cells);
        let mut r = Binary64::zero_value();
        let mut i: usize = 0;
        proof {
            lemma_column(raw@);
            assert(target.take(0) =~= Seq::empty());
        }
        while i < rows
            invariant
                i <= rows,
                self.wf(),
                raw@.wf(),
                raw@.shape() == (rows as nat, 1nat),
                rows == self@.jacobian.expressions().len(),
                raw@.cells.len() == rows,
                target == self@.scaled(raw@.cells),
                r == grid::length(target.take(i as int)),
            decreases rows - i,
        {
            proof {
                lemma_column(raw@);
            }
            let value = raw.get(i, 0) / self.equation_scales[i];
            proof {
                let next = target.take(i + 1);
                assert(next.drop_last() =~= target.take(i as int));
                assert(next.last() == value);
            }
            r = r.hypot(value);
            i = i + 1;
        }
        assert(target.take(i as int) =~= target);
        r
    }

    /// Derivatives times the scale of the variable over that of the equation.
    #[verifier::rlimit(40)]
    fn scale_jacobian_into(&self, raw: &Matrix, scaled: &mut Matrix)
        requires
            self.wf(),
            raw@.wf(),
            raw@.shape() == (
                self@.jacobian.expressions().len(),
                self@.jacobian.variables().len(),
            ),
            raw@.rows * raw@.cols <= usize::MAX,
            old(scaled)@.wf(),
        ensures
            final(scaled)@ == self@.normalized(raw@),
            final(scaled)@.wf(),
    {
        let rows: usize = raw.rows();
        let cols: usize = raw.cols();
        if scaled.rows() != rows || scaled.cols() != cols {
            *scaled = Matrix::new(rows, cols);
        }
        let ghost target = self@.normalized(raw@);
        proof {
            assert forall|r: int, c: int| 0 <= r < rows && 0 <= c < cols implies (
            #[trigger] target.at(r, c)) == (if raw@.at(r, c).finite() {
                scaled::ratio(
                    seq![raw@.at(r, c), self@.variable_scales[c]],
                    seq![self@.equation_scales[r]],
                )
            } else {
                raw@.at(r, c)
            }) by {
                grid::lemma_index(r, c, rows as int, cols as int);
            }
        }
        let mut i: usize = 0;
        while i < rows
            invariant
                i <= rows,
                self.wf(),
                raw@.wf(),
                raw@.shape() == (rows as nat, cols as nat),
                rows == self@.jacobian.expressions().len(),
                cols == self@.jacobian.variables().len(),
                scaled@.wf(),
                scaled@.shape() == (rows as nat, cols as nat),
                forall|r: int, c: int|
                    0 <= r < rows && 0 <= c < cols ==> (#[trigger] target.at(r, c)) == (
                    if raw@.at(r, c).finite() {
                        scaled::ratio(
                            seq![raw@.at(r, c), self@.variable_scales[c]],
                            seq![self@.equation_scales[r]],
                        )
                    } else {
                        raw@.at(r, c)
                    }),
                forall|r: int, c: int|
                    0 <= r < i && 0 <= c < cols ==> #[trigger] scaled@.at(r, c) == target.at(r, c),
            decreases rows - i,
        {
            let mut j: usize = 0;
            while j < cols
                invariant
                    i < rows,
                    j <= cols,
                    self.wf(),
                    raw@.wf(),
                    raw@.shape() == (rows as nat, cols as nat),
                    rows == self@.jacobian.expressions().len(),
                    cols == self@.jacobian.variables().len(),
                    scaled@.wf(),
                    scaled@.shape() == (rows as nat, cols as nat),
                    forall|r: int, c: int|
                        0 <= r < rows && 0 <= c < cols ==> (#[trigger] target.at(r, c)) == (
                        if raw@.at(r, c).finite() {
                            scaled::ratio(
                                seq![raw@.at(r, c), self@.variable_scales[c]],
                                seq![self@.equation_scales[r]],
                            )
                        } else {
                            raw@.at(r, c)
                        }),
                    forall|r: int, c: int|
                        0 <= r < rows && 0 <= c < cols && (r < i || (r == i && c < j))
                            ==> #[trigger] scaled@.at(r, c) == target.at(r, c),
                decreases cols - j,
            {
                let derivative = raw.get(i, j);
                let variable_scale = self.variable_scales[j];
                let equation_scale = self.equation_scales[i];
                let value = if !derivative.is_finite() {
                    derivative
                } else {
                    let numerators = [derivative, variable_scale];
                    let denominators = [equation_scale];
                    proof {
                        assert(self@.equation_scales[i as int] == equation_scale);
                        assert(numerators@ =~= seq![derivative, variable_scale]);
                        assert(denominators@ =~= seq![equation_scale]);
                    }
                    scaled::product_ratio(numerators, denominators)
                };
                assert(target.at(i as int, j as int) == value);
                scaled.set(i, j, value);
                j = j + 1;
            }
            i = i + 1;
        }
        proof {
            grid::lemma_grids_equal(scaled@, target);
        }
    }

    /// A step's change of one variable.
    pub fn scaled_update_component(
        delta: Binary64,
        step_size: Binary64,
        variable_scale: Binary64,
    ) -> (r: Binary64)
        ensures
            r == scaled::ratio(seq![delta, step_size, variable_scale], Seq::empty()),
    {
        let numerators = [delta, step_size, variable_scale];
        let denominators: [Binary64; 0] = [];
        proof {
            assert(numerators@ =~= seq![delta, step_size, variable_scale]);
            assert(denominators@ =~= Seq::empty());
        }
        scaled::product_ratio(numerators, denominators)
    }

    /// Take a step where it gives every variable a finite value; otherwise
    /// leave the values as they are.
    fn apply_finite_step(&self, vars: &mut Assignment, delta: &Matrix, alpha: Binary64) -> (r: bool)
        requires
            self.wf(),
            self@.complete(old(vars)@),
            delta@.wf(),
            delta@.shape() == (self@.jacobian.variables().len(), 1nat),
        ensures
            r == self@.movable(old(vars)@, delta@.cells, alpha),
            r ==> final(vars)@ == self@.candidate(old(vars)@, delta@.cells, alpha),
            !r ==> final(vars)@ == old(vars)@,
    {
        let count: usize = self.jacobian.variable_count();
        let ghost before = vars@;
        let mut j: usize = 0;
        while j < count
            invariant
                j <= count,
                self.wf(),
                self@.complete(before),
                vars@ == before,
                before == old(vars)@,
                delta@.wf(),
                delta@.shape() == (count as nat, 1nat),
                count == self@.jacobian.variables().len(),
                forall|k: int|
                    0 <= k < j ==> (#[trigger] self@.stepped(
                        before,
                        delta@.cells,
                        alpha,
                        k,
                    )).finite(),
            decreases count - j,
        {
            let value = self.step_value(vars, delta, alpha, j);
            assert(value == self@.stepped(before, delta@.cells, alpha, j as int));
            if !value.is_finite() {
                return false;
            }
            j = j + 1;
        }
        let mut j: usize = 0;
        while j < count
            invariant
                j <= count,
                self.wf(),
                self@.complete(before),
                self@.complete(vars@),
                delta@.wf(),
                delta@.shape() == (count as nat, 1nat),
                count == self@.jacobian.variables().len(),
                self@.movable(before, delta@.cells, alpha),
                vars@ == self@.moved(before, delta@.cells, alpha, j as int),
                forall|k: int|
                    j <= k < count ==> vars@[(#[trigger] self@.jacobian.variables()[k]).index]
                        == before[self@.jacobian.variables()[k].index],
            decreases count - j,
        {
            let id = self.jacobian.variable(j);
            let value = self.step_value(vars, delta, alpha, j);
            assert(value == self@.stepped(before, delta@.cells, alpha, j as int));
            proof {
                assert forall|k: int| j + 1 <= k < count implies (
                #[trigger] self@.jacobian.variables()[k]).index != id.index by {
                    assert(self@.jacobian.variables()[k] != self@.jacobian.variables()[j as int]);
                }
            }
            vars.insert(id, value);
            j = j + 1;
        }
        true
    }

    /// The value that a step gives to one of the variables to solve for.
    fn step_value(&self, vars: &Assignment, delta: &Matrix, alpha: Binary64, j: usize) -> (r:
        Binary64)
        requires
            self.wf(),
            self@.complete(vars@),
            delta@.wf(),
            delta@.shape() == (self@.jacobian.variables().len(), 1nat),
            j < self@.jacobian.variables().len(),
        ensures
            r == self@.stepped(vars@, delta@.cells, alpha, j as int),
    {
        proof {
            lemma_column(delta@);
        }
        let update = Self::scaled_update_component(
            delta.get(j, 0),
            alpha,
            self.variable_scales[j],
        );
        let id = self.jacobian.variable(j);
        match vars.get(id) {
            Some(value) => value + update,
            None => update,
        }
    }

    /// Two assignments give every variable equal numbers.
    fn same_state(&self, a: &Assignment, b: &Assignment) -> (r: bool)
        requires
            self.wf(),
            self@.complete(a@),
            self@.complete(b@),
        ensures
            r == self@.unchanged(a@, b@),
    {
        let count: usize = self.var_table.len();
        let mut i: usize = 0;
        while i < count
            invariant
                i <= count,
                count == self@.names.len(),
                self@.complete(a@),
                self@.complete(b@),
                forall|k: usize| k < i ==> (#[trigger] a@[k]).same(b@[k]),
            decreases count - i,
        {
            match (a.get(VarId::new(i)), b.get(VarId::new(i))) {
                (Some(x), Some(y)) => {
                    if !(x == y) {
                        assert(!a@[i].same(b@[i]));
                        return false;
                    }
                },
                _ => {},
            }
            i = i + 1;
        }
        true
    }
}

/// How a line search ended.
enum SearchEnd {
    Accepted,
    Stuck { alpha: Binary64 },
    Exhausted { trials: usize, alpha: Binary64 },
}

impl SearchEnd {
    /// The end of the search, with the candidate that it left.
    spec fn found(self, vars: Map<usize, Binary64>, raw: Seq<Binary64>) -> Found {
        match self {
            SearchEnd::Accepted => Found::Accepted { vars, raw },
            SearchEnd::Stuck { alpha } => Found::Stuck { alpha },
            SearchEnd::Exhausted { trials, alpha } => Found::Exhausted {
                trials: trials as nat,
                alpha,
            },
        }
    }
}

impl<H: Elementary + Notation> NewtonRaphsonSolver<H> {
    /// A failure report for a state.
    pub fn build_diagnostic(
        &self,
        message: String,
        iterations: usize,
        vars: &Assignment,
        residuals: &Matrix,
        gradient: Option<ResidualGradientMeasure>,
        attempt: Option<LinearSolveDiagnostic>,
    ) -> (r: SolverRunDiagnostic)
        requires
            self.wf(),
            self@.complete(vars@),
            residuals@.wf(),
            residuals@.shape() == (self@.jacobian.expressions().len(), 1nat),
        ensures
            r.message == message,
            self@.describes(
                r,
                vars@,
                residuals@.cells,
                iterations as nat,
                gradient,
                attempt,
            ),
    {
        let rows: usize = residuals.rows();
        let mut equations: Vec<EquationDiagnostic> = Vec::new();
        let mut i: usize = 0;
        while i < rows
            invariant
                i <= rows,
                self.wf(),
                residuals@.wf(),
                residuals@.shape() == (rows as nat, 1nat),
                rows == self@.jacobian.expressions().len(),
                equations@.len() == i,
                forall|k: int|
                    0 <= k < i ==> self@.equation_report(
                        residuals@.cells,
                        k,
                        #[trigger] equations@[k],
                    ),
            decreases rows - i,
        {
            proof {
                lemma_column(residuals@);
            }
            let residual = residuals.get(i, 0);
            equations.push(
                EquationDiagnostic {
                    equation_index: i,
                    residual,
                    scaled_residual: residual / self.equation_scales[i],
                    trace: match self.trace_for_equation(i) {
                        Some(trace) => Some(trace.clone()),
                        None => None,
                    },
                },
            );
            i = i + 1;
        }
        proof {
            lemma_column(residuals@);
        }
        SolverRunDiagnostic {
            message,
            iterations,
            error: self.scaled_residual_norm(residuals),
            gradient_norm: match gradient {
                Some(g) => Some(g.absolute_norm),
                None => None,
            },
            relative_gradient_norm: match gradient {
                Some(g) => g.relative_norm,
                None => None,
            },
            last_linear_attempt: attempt,
            values: self.values_by_name(vars),
            equations,
        }
    }

    /// The error for a value that is not finite.
    fn non_finite_evaluation_error(
        &self,
        message: &'static str,
        iterations: usize,
        vars: &Assignment,
        residuals: &Matrix,
        attempt: Option<LinearSolveDiagnostic>,
    ) -> (r: SolverError)
        requires
            self.wf(),
            self@.complete(vars@),
            residuals@.wf(),
            residuals@.shape() == (self@.jacobian.expressions().len(), 1nat),
        ensures
            self@.not_finite(
                Err(r),
                message@,
                vars@,
                residuals@.cells,
                iterations as nat,
                attempt,
            ),
    {
        SolverError::NonFiniteEvaluation(
            Box::new(
                self.build_diagnostic(
                    message.to_owned(),
                    iterations,
                    vars,
                    residuals,
                    None,
                    attempt,
                ),
            ),
        )
    }

    /// A message around one number in scientific notation.
    fn message_with_number(&self, start: String, number: Binary64, end: &str) -> (r: String)
        ensures
            self@.ends_with_number(r@, start@, number, end@),
    {
        let notation = self.host.scientific(number);
        let mut message = start;
        message.append(notation.as_str());
        message.append(end);
        assert(text::is_scientific(self@.host, number, notation));
        message
    }

    /// The message of a stationary state.
    fn stationary_text(&self, residuals: &Matrix) -> (r: String)
        requires
            self.wf(),
            residuals@.wf(),
            residuals@.shape() == (self@.jacobian.expressions().len(), 1nat),
        ensures
            self@.stationary_message(r@, residuals@.cells),
    {
        let a = self.host.scientific(self.scaled_residual_norm(residuals));
        let b = self.host.scientific(self.options.residual_tolerance);
        let c = self.host.scientific(self.options.stationarity_tolerance);
        let mut message = "Residual norm ".to_owned();
        message.append(a.as_str());
        message.append(" exceeds tolerance ");
        message.append(b.as_str());
        message.append(
            ", while the normalized residual gradient satisfies stationarity tolerance ",
        );
        message.append(c.as_str());
        proof {
            assert(text::is_scientific(
                self@.host,
                grid::length(self@.scaled(residuals@.cells)),
                a,
            ));
            assert(text::is_scientific(self@.host, self@.options.residual_tolerance, b));
            assert(text::is_scientific(self@.host, self@.options.stationarity_tolerance, c));
        }
        message
    }

    /// The correction for a coefficient matrix and a right-hand side, by the
    /// ridge system where there is a ridge parameter.
    pub fn solve_least_squares_system(&self, a: &Matrix, rhs: &Matrix) -> (r: Result<
        (Matrix, LinearSolveDiagnostic),
        MatrixError,
    >)
        requires
            a@.wf(),
            rhs@.wf(),
            rhs@.shape() == (a@.rows, 1nat),
            a@.rows * a@.cols <= usize::MAX,
            a@.rows + a@.cols <= usize::MAX && !self@.options.regularization.zero() ==> (a@.rows
                + a@.cols) * a@.cols <= usize::MAX,
        ensures
            match self@.correction(a@, rhs@.cells) {
                Err(error) => r == Err::<(Matrix, LinearSolveDiagnostic), MatrixError>(error),
                Ok((delta, used)) => r matches Ok((solution, diagnostic)) && diagnostic == used
                    && solution@ == newton::column_of(delta) && solution@.wf() && solution@.finite()
                    && solution@.rows == a@.cols,
            },
    {
        let rows: usize = a.rows();
        let cols: usize = a.cols();
        proof {
            lemma_column(rhs@);
        }
        if self.options.regularization.magnitude_bits() == 0 {
            return Self::decompose_and_solve(a, rhs, None);
        }
        if rows > usize::MAX - cols {
            return Err(
                MatrixError::DimensionSumOverflow {
                    operation: "regularized least-squares allocation",
                    left: rows,
                    right: cols,
                },
            );
        }
        let weight = self.options.regularization.sqrt();
        let augmented = Self::ridge(a, weight);
        let augmented_rhs = Self::padded(rhs, rows + cols);
        Self::decompose_and_solve(&augmented, &augmented_rhs, Some(self.options.regularization))
    }

    /// Least-squares solution with its diagnostics.
    fn decompose_and_solve(a: &Matrix, rhs: &Matrix, regularization: Option<Binary64>) -> (r:
        Result<(Matrix, LinearSolveDiagnostic), MatrixError>)
        requires
            a@.wf(),
            a@.rows * a@.cols <= usize::MAX,
            rhs@.wf(),
            rhs@.shape() == (a@.rows, 1nat),
        ensures
            match least_squares::solved(a@, rhs@) {
                Err(error) => r == Err::<(Matrix, LinearSolveDiagnostic), MatrixError>(error),
                Ok((delta, effective)) => r matches Ok((solution, diagnostic)) && diagnostic == (
                LinearSolveDiagnostic { effective, regularization }) && solution@
                    == newton::column_of(delta) && solution@.wf() && solution@.finite()
                    && solution@.rows == a@.cols,
            },
    {
        let cols: usize = a.cols();
        let mut solution = Matrix::new(cols, 1);
        let mut workspace = LeastSquaresWorkspace::new(a.rows(), cols);
        match a.solve_least_squares_into(rhs, &mut solution, &mut workspace) {
            Err(error) => Err(error),
            Ok(effective) => {
                proof {
                    least_squares::law_solution_finite(a@, rhs@);
                    lemma_column(solution@);
                }
                Ok((solution, LinearSolveDiagnostic { effective, regularization }))
            },
        }
    }

    /// A column with the opposite signs.
    fn opposite(column: &Matrix) -> (r: Matrix)
        requires
            column@.wf(),
            column@.cols == 1,
        ensures
            r@ == newton::column_of(newton::negated(column@.cells)),
            r@.wf(),
            r@.rows == column@.rows,
    {
        let rows: usize = column.rows();
        let mut r = Matrix::new(rows, 1);
        let ghost target = newton::negated(column@.cells);
        let mut i: usize = 0;
        proof {
            lemma_column(column@);
            lemma_column(r@);
        }
        while i < rows
            invariant
                i <= rows,
                column@.wf(),
                column@.shape() == (rows as nat, 1nat),
                column@.cells.len() == rows,
                r@.wf(),
                r@.shape() == (rows as nat, 1nat),
                r@.cells.len() == rows,
                target == newton::negated(column@.cells),
                forall|k: int| 0 <= k < i ==> #[trigger] r@.cells[k] == target[k],
            decreases rows - i,
        {
            proof {
                lemma_column(column@);
                assert(i * r@.cols + 0 == i) by (nonlinear_arith)
                    requires
                        r@.cols == 1,
                ;
            }
            r.set(i, 0, column.get(i, 0).neg());
            i = i + 1;
        }
        proof {
            lemma_column(r@);
            assert(r@.cells =~= target);
        }
        r
    }

    /// A column with zeros below it.
    fn padded(column: &Matrix, rows: usize) -> (r: Matrix)
        requires
            column@.wf(),
            column@.cols == 1,
            column@.rows <= rows,
        ensures
            r@ == newton::column_of(
                newton::ridge_rhs(column@.cells, (rows - column@.rows) as nat),
            ),
            r@.wf(),
            r@.rows == rows,
    {
        let count: usize = column.rows();
        let mut r = Matrix::new(rows, 1);
        let ghost target = newton::ridge_rhs(column@.cells, (rows - column@.rows) as nat);
        let mut i: usize = 0;
        proof {
            lemma_column(column@);
            lemma_column(r@);
        }
        while i < count
            invariant
                i <= count <= rows,
                column@.wf(),
                column@.cols == 1,
                column@.rows == count,
                column@.cells.len() == count,
                r@.wf(),
                r@.shape() == (rows as nat, 1nat),
                r@.cells.len() == rows,
                target == newton::ridge_rhs(column@.cells, (rows - count) as nat),
                forall|k: int| 0 <= k < i ==> #[trigger] r@.cells[k] == target[k],
                forall|k: int| i <= k < rows ==> #[trigger] r@.cells[k] == Binary64::zero_value(),
            decreases count - i,
        {
            proof {
                lemma_column(column@);
                assert(i * r@.cols + 0 == i) by (nonlinear_arith)
                    requires
                        r@.cols == 1,
                ;
            }
            r.set(i, 0, column.get(i, 0));
            i = i + 1;
        }
        proof {
            lemma_column(r@);
            assert(r@.cells =~= target);
        }
        r
    }

    /// A coefficient matrix with a scaled identity below it.
    fn ridge(a: &Matrix, weight: Binary64) -> (r: Matrix)
        requires
            a@.wf(),
            a@.rows + a@.cols <= usize::MAX,
            (a@.rows + a@.cols) * a@.cols <= usize::MAX,
        ensures
            r@ == newton::ridge_matrix(a@, weight),
            r@.wf(),
    {
        let rows: usize = a.rows();
        let cols: usize = a.cols();
        let total: usize = rows + cols;
        let mut r = Matrix::new(total, cols);
        let ghost target = newton::ridge_matrix(a@, weight);
        let mut i: usize = 0;
        while i < total
            invariant
                i <= total,
                total == rows + cols,
                a@.wf(),
                a@.shape() == (rows as nat, cols as nat),
                r@.wf(),
                r@.shape() == (total as nat, cols as nat),
                target == newton::ridge_matrix(a@, weight),
                forall|p: int, q: int|
                    0 <= p < i && 0 <= q < cols ==> #[trigger] r@.at(p, q) == target.at(p, q),
            decreases total - i,
        {
            let mut j: usize = 0;
            while j < cols
                invariant
                    i < total,
                    j <= cols,
                    total == rows + cols,
                    a@.wf(),
                    a@.shape() == (rows as nat, cols as nat),
                    r@.wf(),
                    r@.shape() == (total as nat, cols as nat),
                    target == newton::ridge_matrix(a@, weight),
                    forall|p: int, q: int|
                        0 <= p < total && 0 <= q < cols && (p < i || (p == i && q < j))
                            ==> #[trigger] r@.at(p, q) == target.at(p, q),
                decreases cols - j,
            {
                let value = if i < rows {
                    a.get(i, j)
                } else if i - rows == j {
                    weight
                } else {
                    Binary64::zero_value()
                };
                proof {
                    grid::lemma_index(i as int, j as int, total as int, cols as int);
                    assert(target.at(i as int, j as int) == value);
                }
                r.set(i, j, value);
                j = j + 1;
            }
            i = i + 1;
        }
        proof {
            grid::lemma_grids_equal(r@, target);
        }
        r
    }

    /// Try shorter and shorter steps along a correction until one gives
    /// sufficient decrease.
    #[verifier::loop_isolation(false)]
    #[verifier::rlimit(60)]
    fn line_search(
        &self,
        vars: &Assignment,
        delta: &Matrix,
        current: Binary64,
        slope: Binary64,
        candidate_vars: &mut Assignment,
        candidate_residuals: &mut Matrix,
        candidate_scaled: &mut Matrix,
    ) -> (r: Result<SearchEnd, SolverError>)
        requires
            self.wf(),
            self@.complete(vars@),
            delta@.wf(),
            delta@.shape() == (self@.jacobian.variables().len(), 1nat),
            old(candidate_residuals)@.wf(),
            old(candidate_scaled)@.wf(),
        ensures
            final(candidate_residuals)@.wf(),
            final(candidate_scaled)@.wf(),
            r matches Ok(end) && {
                &&& self@.search(
                    vars@,
                    delta@.cells,
                    current,
                    slope,
                    self@.options.initial_step_size,
                    0,
                    end.found(final(candidate_vars)@, final(candidate_residuals)@.cells),
                )
                &&& end is Accepted ==> {
                    &&& self@.complete(final(candidate_vars)@)
                    &&& final(candidate_residuals)@.shape() == (
                        self@.jacobian.expressions().len(),
                        1nat,
                    )
                    &&& final(candidate_scaled)@ == newton::column_of(
                        self@.scaled(final(candidate_residuals)@.cells),
                    )
                    &&& self@.residuals_at(
                        final(candidate_vars)@,
                        final(candidate_residuals)@.cells,
                    )
                    &&& self@.error_of(final(candidate_residuals)@.cells).finite()
                }
            },
    {
        let ghost s = self@;
        let ghost d = delta@.cells;
        let first = self.options.initial_step_size;
        let mut alpha = first;
        let mut trials: usize = 0;
        while trials < self.options.line_search_max_trials
            invariant
                trials <= s.options.line_search_max_trials,
                candidate_residuals@.wf(),
                candidate_scaled@.wf(),
                forall|f: Found| #[trigger]
                    s.search(vars@, d, current, slope, alpha, trials as nat, f) ==> s.search(
                        vars@,
                        d,
                        current,
                        slope,
                        first,
                        0,
                        f,
                    ),
            decreases s.options.line_search_max_trials - trials,
        {
            *candidate_vars = vars.clone();
            let movable: bool = self.apply_finite_step(candidate_vars, delta, alpha);
            let ghost tried = trials as nat;
            if movable {
                proof {
                    s.lemma_candidate_complete(
                        vars@,
                        d,
                        alpha,
                        s.jacobian.variables().len() as int,
                    );
                }
                if self.same_state(candidate_vars, vars) {
                    assert(s.search(
                        vars@,
                        d,
                        current,
                        slope,
                        alpha,
                        tried,
                        Found::Stuck { alpha },
                    ));
                    return Ok(SearchEnd::Stuck { alpha });
                }
                match self.jacobian.evaluate_functions_checked_into(
                    &self.host,
                    candidate_vars,
                    candidate_residuals,
                ) {
                    Err(error) => {
                        proof {
                            s.law_evaluation_succeeds(candidate_vars@);
                        }
                        return Err(SolverError::from_evaluation(&error));
                    },
                    Ok(_) => {},
                }
                self.scale_residuals_into(candidate_residuals, candidate_scaled);
                let new_error = candidate_scaled.norm();
                let required = current + self.options.armijo_coefficient * alpha * slope;
                proof {
                    lemma_column(candidate_residuals@);
                    lemma_column_of(s.scaled(candidate_residuals@.cells));
                    assert(s.residuals_at(candidate_vars@, candidate_residuals@.cells));
                }
                if new_error.is_finite() && new_error.at_most(required) {
                    assert(s.search(
                        vars@,
                        d,
                        current,
                        slope,
                        alpha,
                        tried,
                        Found::Accepted {
                            vars: candidate_vars@,
                            raw: candidate_residuals@.cells,
                        },
                    ));
                    return Ok(SearchEnd::Accepted);
                }
            }
            if alpha.at_most(self.options.line_search_min_step) {
                trials = trials + 1;
                assert(s.search(
                    vars@,
                    d,
                    current,
                    slope,
                    alpha,
                    tried,
                    Found::Exhausted { trials: trials as nat, alpha },
                ));
                return Ok(SearchEnd::Exhausted { trials, alpha });
            }
            let shorter = (alpha * Binary64::from_bits(HALF)).max(
                self.options.line_search_min_step,
            );
            proof {
                assert forall|f: Found| #[trigger]
                    s.search(vars@, d, current, slope, shorter, tried + 1, f) implies s.search(
                    vars@,
                    d,
                    current,
                    slope,
                    first,
                    0,
                    f,
                ) by {
                    assert(s.search(vars@, d, current, slope, alpha, tried, f));
                }
            }
            alpha = shorter;
            trials = trials + 1;
        }
        assert(s.search(
            vars@,
            d,
            current,
            slope,
            alpha,
            trials as nat,
            Found::Exhausted { trials: trials as nat, alpha },
        ));
        Ok(SearchEnd::Exhausted { trials, alpha })
    }
}


impl<H: Elementary + Notation> NewtonRaphsonSolver<H> {
    /// The solution at an accepted state.
    fn build_solution(
        &self,
        vars: &Assignment,
        iterations: usize,
        error: Binary64,
        gradient: ResidualGradientMeasure,
        attempt: Option<LinearSolveDiagnostic>,
        history: Vec<Binary64>,
    ) -> (r: Solution)
        requires
            self.wf(),
            self@.complete(vars@),
        ensures
            self@.is_solution(
                r,
                vars@,
                iterations as nat,
                error,
                gradient,
                attempt,
                history@,
            ),
    {
        Solution {
            values: self.values_by_name(vars),
            iterations,
            error,
            gradient_norm: gradient.absolute_norm,
            relative_gradient_norm: gradient.relative_norm,
            last_linear_attempt: attempt,
            convergence_history: history,
        }
    }

    /// The error of a stationary state.
    fn stationary_non_root_error(
        &self,
        iterations: usize,
        vars: &Assignment,
        residuals: &Matrix,
        gradient: ResidualGradientMeasure,
        attempt: Option<LinearSolveDiagnostic>,
    ) -> (r: SolverError)
        requires
            self.wf(),
            self@.complete(vars@),
            residuals@.wf(),
            residuals@.shape() == (self@.jacobian.expressions().len(), 1nat),
        ensures
            r matches SolverError::StationaryNonRoot(d) && self@.stationary_message(
                d.message@,
                residuals@.cells,
            ) && self@.describes(
                *d,
                vars@,
                residuals@.cells,
                iterations as nat,
                Some(gradient),
                attempt,
            ),
    {
        let message = self.stationary_text(residuals);
        SolverError::StationaryNonRoot(
            Box::new(
                self.build_diagnostic(
                    message,
                    iterations,
                    vars,
                    residuals,
                    Some(gradient),
                    attempt,
                ),
            ),
        )
    }

    /// The error of a correction that could not be computed.
    fn matrix_error(
        &self,
        source: MatrixError,
        iterations: usize,
        vars: &Assignment,
        residuals: &Matrix,
        gradient: ResidualGradientMeasure,
        attempt: Option<LinearSolveDiagnostic>,
    ) -> (r: SolverError)
        requires
            self.wf(),
            self@.complete(vars@),
            residuals@.wf(),
            residuals@.shape() == (self@.jacobian.expressions().len(), 1nat),
        ensures
            r matches SolverError::Matrix { source: cause, diagnostic } && cause == source
                && diagnostic.message@ == "Correction matrix operation failed: "@ + source.text()
                && self@.describes(
                *diagnostic,
                vars@,
                residuals@.cells,
                iterations as nat,
                Some(gradient),
                attempt,
            ),
    {
        let message = "Correction matrix operation failed: ".to_owned().concat(
            source.message().as_str(),
        );
        let diagnostic = Box::new(
            self.build_diagnostic(message, iterations, vars, residuals, Some(gradient), attempt),
        );
        SolverError::Matrix { source, diagnostic }
    }

    /// The error of a run that ends without a root; its message has one number
    /// between two texts.
    fn no_convergence_error(
        &self,
        start: String,
        number: Binary64,
        end: &str,
        iterations: usize,
        vars: &Assignment,
        residuals: &Matrix,
        gradient: ResidualGradientMeasure,
        attempt: Option<LinearSolveDiagnostic>,
    ) -> (r: SolverError)
        requires
            self.wf(),
            self@.complete(vars@),
            residuals@.wf(),
            residuals@.shape() == (self@.jacobian.expressions().len(), 1nat),
        ensures
            r matches SolverError::NoConvergence(d) && self@.ends_with_number(
                d.message@,
                start@,
                number,
                end@,
            ) && self@.describes(
                *d,
                vars@,
                residuals@.cells,
                iterations as nat,
                Some(gradient),
                attempt,
            ),
    {
        let message = self.message_with_number(start, number, end);
        SolverError::NoConvergence(
            Box::new(
                self.build_diagnostic(
                    message,
                    iterations,
                    vars,
                    residuals,
                    Some(gradient),
                    attempt,
                ),
            ),
        )
    }

    /// Iterate from first values to a solution or a failure.
    #[verifier::loop_isolation(false)]
    #[verifier::rlimit(60)]
    fn solve_internal(&self, initial: Assignment) -> (r: Result<Solution, SolverError>)
        requires
            self.wf(),
            self@.fits(),
            self@.complete(initial@),
            self@.options.fault() is None,
        ensures
            self@.runs(initial@, r),
    {
        let ghost s = self@;
        let ghost first = initial@;
        let rows: usize = self.jacobian.equation_count();
        let cols: usize = self.jacobian.variable_count();
        let mut vars = initial;
        let mut residuals = Matrix::new(rows, 1);
        let mut scaled_residuals = Matrix::new(rows, 1);
        let mut derivatives = Matrix::new(rows, cols);
        let mut scaled_jacobian = Matrix::new(rows, cols);
        proof {
            s.law_evaluation_succeeds(first);
        }
        match self.jacobian.evaluate_functions_checked_into(&self.host, &vars, &mut residuals) {
            Err(error) => {
                return Err(SolverError::from_evaluation(&error));
            },
            Ok(_) => {},
        }
        match self.jacobian.evaluate_checked_into(&self.host, &vars, &mut derivatives) {
            Err(error) => {
                return Err(SolverError::from_evaluation(&error));
            },
            Ok(_) => {},
        }
        self.scale_residuals_into(&residuals, &mut scaled_residuals);
        self.scale_jacobian_into(&derivatives, &mut scaled_jacobian);
        proof {
            lemma_column(residuals@);
            assert(s.residuals_at(first, residuals@.cells));
            assert(s.derivatives_at(first, derivatives@));
        }
        if !residuals.all_finite() {
            return Err(
                self.non_finite_evaluation_error(
                    "Residual evaluation produced NaN or infinity",
                    0,
                    &vars,
                    &residuals,
                    None,
                ),
            );
        }
        if !derivatives.all_finite() {
            return Err(
                self.non_finite_evaluation_error(
                    "Jacobian evaluation produced NaN or infinity",
                    0,
                    &vars,
                    &residuals,
                    None,
                ),
            );
        }
        if !scaled_residuals.all_finite() || !scaled_jacobian.all_finite() {
            return Err(
                self.non_finite_evaluation_error(
                    "Equation or variable scaling produced NaN or infinity",
                    0,
                    &vars,
                    &residuals,
                    None,
                ),
            );
        }
        let mut history: Vec<Binary64> = Vec::new();
        history.push(scaled_residuals.norm());
        assert(history@ =~= seq![s.error_of(residuals@.cells)]);
        let mut candidate_vars = vars.clone();
        let mut candidate_residuals = Matrix::new(rows, 1);
        let mut candidate_scaled = Matrix::new(rows, 1);
        let mut attempt: Option<LinearSolveDiagnostic> = None;
        let mut iterations: usize = 0;
        loop
            invariant
                iterations <= s.options.max_iterations,
                s.complete(vars@),
                residuals@.wf(),
                residuals@.shape() == (rows as nat, 1nat),
                derivatives@.wf(),
                derivatives@.shape() == (rows as nat, cols as nat),
                scaled_residuals@ == newton::column_of(s.scaled(residuals@.cells)),
                scaled_residuals@.wf(),
                scaled_residuals@.finite(),
                scaled_jacobian@ == s.normalized(derivatives@),
                scaled_jacobian@.wf(),
                scaled_jacobian@.finite(),
                candidate_residuals@.wf(),
                candidate_scaled@.wf(),
                forall|r: Result<Solution, SolverError>| #[trigger]
                    s.finishes(
                        State { vars: vars@, raw: residuals@.cells, derivatives: derivatives@ },
                        iterations as nat,
                        attempt,
                        history@,
                        r,
                    ) ==> s.runs(first, r),
            decreases s.options.max_iterations - iterations,
        {
            let ghost state = State {
                vars: vars@,
                raw: residuals@.cells,
                derivatives: derivatives@,
            };
            proof {
                lemma_column(residuals@);
                lemma_column_of(s.scaled(residuals@.cells));
            }
            let error = scaled_residuals.norm();
            let gradient = merit::residual_gradient_measure(&scaled_jacobian, &scaled_residuals);
            if error.at_most(self.options.residual_tolerance) {
                let r = Ok(
                    self.build_solution(&vars, iterations, error, gradient, attempt, history),
                );
                assert(s.finishes(state, iterations as nat, attempt, history@, r));
                return r;
            }
            if gradient.is_stationary(self.options.stationarity_tolerance) {
                let r = Err(
                    self.stationary_non_root_error(
                        iterations,
                        &vars,
                        &residuals,
                        gradient,
                        attempt,
                    ),
                );
                assert(s.finishes(state, iterations as nat, attempt, history@, r));
                return r;
            }
            if iterations >= self.options.max_iterations {
                let mut start = "Failed to converge after ".to_owned();
                text::append_decimal(&mut start, self.options.max_iterations);
                start.append(" accepted updates. Final error: ");
                let r = Err(
                    self.no_convergence_error(
                        start,
                        error,
                        "",
                        iterations,
                        &vars,
                        &residuals,
                        gradient,
                        attempt,
                    ),
                );
                assert(s.finishes(state, iterations as nat, attempt, history@, r));
                return r;
            }
            let rhs = Self::opposite(&scaled_residuals);
            let (delta, used) = match self.solve_least_squares_system(&scaled_jacobian, &rhs) {
                Err(source) => {
                    let r = Err(
                        self.matrix_error(
                            source,
                            iterations,
                            &vars,
                            &residuals,
                            gradient,
                            attempt,
                        ),
                    );
                    assert(s.finishes(state, iterations as nat, attempt, history@, r));
                    return r;
                },
                Ok(solved) => solved,
            };
            proof {
                lemma_column(delta@);
                assert forall|r: Result<Solution, SolverError>| #[trigger]
                    s.stops(
                        state,
                        iterations as nat,
                        gradient,
                        delta@.cells,
                        used,
                        r,
                    ) implies s.runs(first, r) by {
                    assert(s.finishes(state, iterations as nat, attempt, history@, r));
                }
            }
            let slope = match merit::residual_norm_directional_derivative(
                &scaled_jacobian,
                &scaled_residuals,
                &delta,
            ) {
                Err(message) => {
                    let r = Err(
                        self.non_finite_evaluation_error(
                            message,
                            iterations,
                            &vars,
                            &residuals,
                            Some(used),
                        ),
                    );
                    assert(s.stops(state, iterations as nat, gradient, delta@.cells, used, r));
                    return r;
                },
                Ok(slope) => slope,
            };
            if Binary64::zero_value().at_most(slope) {
                let r = Err(
                    self.no_convergence_error(
                        "Line search cannot proceed because the proposed correction is not a descent direction (d||f||/d alpha = ".to_owned(),
                        slope,
                        ")",
                        iterations,
                        &vars,
                        &residuals,
                        gradient,
                        Some(used),
                    ),
                );
                assert(s.stops(state, iterations as nat, gradient, delta@.cells, used, r));
                return r;
            }
            let end = match self.line_search(
                &vars,
                &delta,
                error,
                slope,
                &mut candidate_vars,
                &mut candidate_residuals,
                &mut candidate_scaled,
            ) {
                Err(e) => {
                    return Err(e);
                },
                Ok(end) => end,
            };
            let ghost found = end.found(candidate_vars@, candidate_residuals@.cells);
            proof {
                assert forall|r: Result<Solution, SolverError>| #[trigger]
                    s.stops_at(state, iterations as nat, gradient, used, found, r) implies s.runs(first, r) by {
                    assert(merit::slope(
                        s.normalized(state.derivatives),
                        newton::column_of(s.scaled(state.raw)),
                        newton::column_of(delta@.cells),
                    ) == Ok::<Binary64, &'static str>(slope));
                    assert(!(slope >= Binary64::zero_value()));
                    assert(s.search(
                        state.vars,
                        delta@.cells,
                        s.error_of(state.raw),
                        slope,
                        s.options.initial_step_size,
                        0,
                        found,
                    ));
                    assert(s.stops(state, iterations as nat, gradient, delta@.cells, used, r));
                }
            }
            match end {
                SearchEnd::Stuck { alpha } => {
                    let r = Err(
                        self.no_convergence_error(
                            "Newton correction cannot change the variable state at the tested step size ".to_owned(),
                            alpha,
                            "",
                            iterations,
                            &vars,
                            &residuals,
                            gradient,
                            Some(used),
                        ),
                    );
                    assert(s.stops_at(state, iterations as nat, gradient, used, found, r));
                    return r;
                },
                SearchEnd::Exhausted { trials, alpha } => {
                    let mut start = "Line search failed after ".to_owned();
                    text::append_decimal(&mut start, trials);
                    start.append(" rejected trial steps; smallest tested step was ");
                    let r = Err(
                        self.no_convergence_error(
                            start,
                            alpha,
                            "",
                            iterations,
                            &vars,
                            &residuals,
                            gradient,
                            Some(used),
                        ),
                    );
                    assert(s.stops_at(state, iterations as nat, gradient, used, found, r));
                    return r;
                },
                SearchEnd::Accepted => {},
            }
            std::mem::swap(&mut vars, &mut candidate_vars);
            std::mem::swap(&mut residuals, &mut candidate_residuals);
            std::mem::swap(&mut scaled_residuals, &mut candidate_scaled);
            proof {
                s.law_evaluation_succeeds(vars@);
                lemma_column(residuals@);
            }
            match self.jacobian.evaluate_checked_into(&self.host, &vars, &mut derivatives) {
                Err(e) => {
                    return Err(SolverError::from_evaluation(&e));
                },
                Ok(_) => {},
            }
            let ghost g = derivatives@;
            assert(s.derivatives_at(vars@, g));
            assert(found == Found::Accepted { vars: vars@, raw: residuals@.cells });
            if !derivatives.all_finite() {
                let r = Err(
                    self.non_finite_evaluation_error(
                        "Accepted Newton update produced a non-finite Jacobian",
                        iterations + 1,
                        &vars,
                        &residuals,
                        Some(used),
                    ),
                );
                assert(s.derivatives_at(found->Accepted_vars, g));
                assert(s.stops_at(state, iterations as nat, gradient, used, found, r));
                return r;
            }
            self.scale_jacobian_into(&derivatives, &mut scaled_jacobian);
            if !scaled_jacobian.all_finite() {
                let r = Err(
                    self.non_finite_evaluation_error(
                        "Variable or equation scaling produced a non-finite Jacobian",
                        iterations + 1,
                        &vars,
                        &residuals,
                        Some(used),
                    ),
                );
                assert(s.derivatives_at(found->Accepted_vars, g));
                assert(s.stops_at(state, iterations as nat, gradient, used, found, r));
                return r;
            }
            let ghost before = history@;
            let ghost previous = attempt;
            let ghost reached = iterations as nat;
            history.push(scaled_residuals.norm());
            attempt = Some(used);
            iterations = iterations + 1;
            proof {
                lemma_column_of(s.scaled(residuals@.cells));
                matrix::law_norm_finite(s.scaled(residuals@.cells));
                let next = State {
                    vars: vars@,
                    raw: residuals@.cells,
                    derivatives: derivatives@,
                };
                assert(history@ =~= before.push(s.error_of(residuals@.cells)));
                assert(s.moves(state, delta@.cells, next));
                assert forall|r: Result<Solution, SolverError>| #[trigger]
                    s.finishes(next, iterations as nat, attempt, history@, r) implies s.runs(
                    first,
                    r,
                ) by {
                    assert(iterations as nat == reached + 1);
                    assert(s.finishes(state, reached, previous, before, r));
                }
            }
        }
    }
}


/// Some text, followed by a list of names.
fn message_with_names(start: &str, names: &NamedValues) -> (r: String)
    requires
        names.wf(),
    ensures
        r@ == start@ + text::quoted_list(named::listing(names@.dom())),
{
    let count: usize = names.len();
    let mut list: Vec<String> = Vec::new();
    let mut i: usize = 0;
    while i < count
        invariant
            i <= count,
            count == names.names().len(),
            compiler::texts(list@) =~= names.names().take(i as int),
        decreases count - i,
    {
        let ghost before = list@;
        let name: String = names.name_at(i).clone();
        list.push(name);
        proof {
            assert(compiler::texts(list@) =~= compiler::texts(before).push(name@));
            assert(names.names().take(i + 1) =~= names.names().take(i as int).push(name@));
        }
        i = i + 1;
    }
    proof {
        names.lemma_names();
        assert(compiler::texts(list@) =~= names.names());
    }
    start.to_owned().concat(text::quote_list(&list).as_str())
}

/// No name has a number where there are no names.
proof fn lemma_no_names(values: NamedValues)
    requires
        values.wf(),
    ensures
        values.names().len() == 0 <==> values@.dom() == Set::<Seq<char>>::empty(),
{
    values.lemma_names();
    if values.names().len() == 0 {
        assert(values.names().to_set() =~= Set::<Seq<char>>::empty());
    } else {
        assert(values.names().to_set().contains(values.names()[0]));
    }
}

impl<H: Elementary + Notation> NewtonRaphsonSolver<H> {
    /// Refuse a policy that has a fault.
    fn validate_configuration(&self) -> (r: Result<(), SolverError>)
        ensures
            match self@.options.fault() {
                Some(fault) => r matches Err(SolverError::InvalidInput(message)) && message@
                    == fault@,
                None => r is Ok,
            },
    {
        match self.options.find_fault() {
            Some(fault) => Err(SolverError::InvalidInput(fault.to_owned())),
            None => Ok(()),
        }
    }

    /// The values of a guess by number.
    #[verifier::loop_isolation(false)]
    #[verifier::rlimit(40)]
    pub fn map_initial_guess(&self, guess: &NamedValues) -> (r: Result<Assignment, SolverError>)
        requires
            self.wf(),
            guess.wf(),
        ensures
            match self@.guess_fault(guess@) {
                Some(fault) => r matches Err(SolverError::InvalidInput(message)) && message@
                    == fault,
                None => r matches Ok(vars) && vars@ == self@.numbered(guess@) && self@.complete(
                    vars@,
                ),
            },
    {
        let ghost names = self@.names;
        let ghost given = guess.names();
        let mut unknown = NamedValues::new();
        let mut non_finite = NamedValues::new();
        let mut vars = Assignment::new();
        let count: usize = guess.len();
        let mut i: usize = 0;
        while i < count
            invariant
                i <= count,
                unknown.wf(),
                non_finite.wf(),
                forall|n: Seq<char>| #[trigger]
                    unknown@.dom().contains(n) <==> given.take(i as int).contains(n)
                        && !names.contains(n),
                forall|n: Seq<char>| #[trigger]
                    non_finite@.dom().contains(n) <==> given.take(i as int).contains(n)
                        && names.contains(n) && !guess@[n].finite(),
                forall|j: usize| #[trigger]
                    vars@.dom().contains(j) <==> j < names.len() && given.take(i as int).contains(
                        names[j as int],
                    ) && guess@[names[j as int]].finite(),
                forall|j: usize| #[trigger]
                    vars@.dom().contains(j) ==> vars@[j] == guess@[names[j as int]],
            decreases count - i,
        {
            let name = guess.name_at(i);
            let value = guess.value_at(i);
            proof {
                let next = given.take(i + 1);
                assert(next =~= given.take(i as int).push(name@));
                assert forall|n: Seq<char>| next.contains(n) <==> (given.take(i as int).contains(n)
                    || n == name@) by {
                    if given.take(i as int).contains(n) {
                        let k = given.take(i as int).index_of(n);
                        assert(next[k] == n);
                    }
                    assert(next[i as int] == name@);
                }
            }
            match self.var_table.get_id(name.as_str()) {
                Some(id) => {
                    proof {
                        assert(names[id.index as int] == name@);
                        assert forall|j: usize| j < names.len() && names[j as int] == name@ implies j
                            == id.index by {}
                    }
                    if value.is_finite() {
                        vars.insert(id, value);
                    } else {
                        non_finite.insert(name.as_str(), value);
                    }
                },
                None => {
                    unknown.insert(name.as_str(), value);
                },
            }
            i = i + 1;
        }
        proof {
            assert(given.take(i as int) =~= given);
            guess.lemma_names();
            assert forall|n: Seq<char>| given.contains(n) <==> #[trigger] guess@.dom().contains(n)
                by {
                assert(given.to_set().contains(n) <==> given.contains(n));
            }
            assert(unknown@.dom() =~= self@.unknown_names(guess@));
            assert(non_finite@.dom() =~= self@.non_finite_names(guess@));
            lemma_no_names(unknown);
            lemma_no_names(non_finite);
        }
        if unknown.len() > 0 {
            return Err(
                SolverError::InvalidInput(
                    message_with_names("Initial guess includes unknown variables: ", &unknown),
                ),
            );
        }
        if non_finite.len() > 0 {
            return Err(
                SolverError::InvalidInput(
                    message_with_names(
                        "Initial guess includes non-finite values for variables: ",
                        &non_finite,
                    ),
                ),
            );
        }
        let missing = self.absent_names(&vars);
        proof {
            lemma_no_names(missing);
            assert(missing@.dom() =~= self@.missing_names(guess@)) by {
                assert forall|n: Seq<char>| missing@.dom().contains(n) <==> self@.missing_names(
                    guess@,
                ).contains(n) by {
                    if missing@.dom().contains(n) {
                        let j = choose|j: usize|
                            j < names.len() && #[trigger] names[j as int] == n
                                && !vars@.dom().contains(j);
                        assert(names.contains(n));
                        assert(!non_finite@.dom().contains(n));
                    }
                    if self@.missing_names(guess@).contains(n) {
                        let j = names.index_of(n);
                        assert(names[j] == n);
                        assert(names[(j as usize) as int] == n);
                        assert(!vars@.dom().contains(j as usize));
                    }
                }
            }
        }
        if missing.len() > 0 {
            return Err(
                SolverError::InvalidInput(
                    message_with_names("Initial guess missing values for variables: ", &missing),
                ),
            );
        }
        proof {
            assert forall|j: usize| j < names.len() implies vars@.dom().contains(j) by {
                if !vars@.dom().contains(j) {
                    assert(names[j as int] == names[j as int]);
                    assert(missing@.dom().contains(names[j as int]));
                }
            }
            assert(vars@ =~= self@.numbered(guess@));
        }
        Ok(vars)
    }

    /// The variables without a value, by name.
    fn absent_names(&self, vars: &Assignment) -> (r: NamedValues)
        requires
            self.wf(),
        ensures
            r.wf(),
            forall|n: Seq<char>| #[trigger]
                r@.dom().contains(n) <==> (exists|j: usize|
                    j < self@.names.len() && #[trigger] self@.names[j as int] == n
                        && !vars@.dom().contains(j)),
    {
        let ghost names = self@.names;
        let mut missing = NamedValues::new();
        let count: usize = self.var_table.len();
        let mut i: usize = 0;
        while i < count
            invariant
                i <= count,
                count == names.len(),
                names == self@.names,
                self.wf(),
                missing.wf(),
                forall|n: Seq<char>| #[trigger]
                    missing@.dom().contains(n) <==> (exists|j: usize|
                        j < i && #[trigger] names[j as int] == n && !vars@.dom().contains(j)),
            decreases count - i,
        {
            let ghost before = missing@;
            match vars.get(VarId::new(i)) {
                Some(_) => {},
                None => {
                    missing.insert(self.var_table.name(i).as_str(), Binary64::zero_value());
                },
            }
            proof {
                assert forall|n: Seq<char>| #[trigger] missing@.dom().contains(n) <==> (exists|
                    j: usize,
                |
                    j < i + 1 && #[trigger] names[j as int] == n && !vars@.dom().contains(j)) by {
                    if before.dom().contains(n) {
                        let j = choose|j: usize|
                            j < i && #[trigger] names[j as int] == n && !vars@.dom().contains(j);
                        assert(names[j as int] == n);
                    }
                    if missing@.dom().contains(n) && !before.dom().contains(n) {
                        assert(names[i as int] == n);
                    }
                }
            }
            i = i + 1;
        }
        missing
    }
}

impl<H: Elementary + Notation + Sync> NewtonRaphsonSolver<H> {
    /// Solve from a first guess, which gives every variable a finite number.
    pub fn solve(&self, initial_guess: NamedValues) -> (r: Result<Solution, SolverError>)
        requires
            self.wf(),
            self@.fits(),
            initial_guess.wf(),
        ensures
            match self@.options.fault() {
                Some(fault) => r matches Err(SolverError::InvalidInput(message)) && message@
                    == fault@,
                None => match self@.guess_fault(initial_guess@) {
                    Some(fault) => r matches Err(SolverError::InvalidInput(message)) && message@
                        == fault,
                    None => self@.runs(self@.numbered(initial_guess@), r),
                },
            },
    {
        match self.validate_configuration() {
            Err(error) => {
                return Err(error);
            },
            Ok(_) => {},
        }
        match self.map_initial_guess(&initial_guess) {
            Err(error) => Err(error),
            Ok(vars) => self.run_in_mode(vars),
        }
    }

    /// Run on the calling thread, or in the pool where there is one.
    fn run_in_mode(&self, vars: Assignment) -> (r: Result<Solution, SolverError>)
        requires
            self.wf(),
            self@.fits(),
            self@.complete(vars@),
            self@.options.fault() is None,
        ensures
            self@.runs(vars@, r),
    {
        match &self.pool {
            Some(pool) => {
                let run = || -> (r: Result<Solution, SolverError>)
                    requires
                        self.wf(),
                        self@.fits(),
                        self@.complete(vars@),
                        self@.options.fault() is None,
                    ensures
                        self@.runs(vars@, r),
                    { self.solve_internal(vars.clone()) };
                mode::install(pool, run)
            },
            None => self.solve_internal(vars),
        }
    }
}

/// The place of the first number that is not finite and above zero.
pub open spec fn first_not_positive(scales: Seq<Binary64>) -> Option<nat>
    decreases scales.len(),
{
    if scales.len() == 0 {
        None
    } else {
        compiler::first_of(
            first_not_positive(scales.drop_last()),
            if SolverOptions::positive(scales.last()) {
                None
            } else {
                Some((scales.len() - 1) as nat)
            },
        )
    }
}

proof fn lemma_not_positive_stays(scales: Seq<Binary64>, k: int)
    requires
        0 <= k <= scales.len(),
        first_not_positive(scales.take(k)) is Some,
    ensures
        first_not_positive(scales) == first_not_positive(scales.take(k)),
    decreases scales.len() - k,
{
    if k < scales.len() {
        let next = scales.take(k + 1);
        assert(next.drop_last() =~= scales.take(k));
        lemma_not_positive_stays(scales, k + 1);
    } else {
        assert(scales.take(k) =~= scales);
    }
}

/// A message on two lengths that do not agree.
pub open spec fn length_fault(start: Seq<char>, given: nat, expected: nat) -> Seq<char> {
    start + text::decimal(given) + ") does not match number of equations ("@ + text::decimal(
        expected,
    ) + ")"@
}

fn length_message(start: &str, given: usize, expected: usize) -> (r: String)
    ensures
        r@ == length_fault(start@, given as nat, expected as nat),
{
    let mut message: String = start.to_owned();
    text::append_decimal(&mut message, given);
    message.append(") does not match number of equations (");
    text::append_decimal(&mut message, expected);
    message.append(")");
    message
}

fn named_message(start: &str, name: &str, end: &str) -> (r: String)
    ensures
        r@ == start@ + name@ + end@,
{
    let mut message: String = start.to_owned();
    message.append(name);
    message.append(end);
    message
}

impl<H: Elementary + Notation> Setup<H> {
    /// What is wrong with scales for the equations, the first that applies.
    pub open spec fn equation_scale_fault(self, scales: Seq<Binary64>) -> Option<Seq<char>> {
        let count = self.jacobian.expressions().len();
        if scales.len() != count {
            Some(length_fault("Equation scale length ("@, scales.len(), count))
        } else {
            match first_not_positive(scales) {
                Some(i) => Some(
                    "Equation scale at index "@ + text::decimal(i)
                        + " must be finite and greater than zero"@,
                ),
                None => None,
            }
        }
    }

    /// The scales of the variables to solve for once those of some names have
    /// been replaced in order, or what is wrong with the first that cannot be.
    pub open spec fn rescaled(
        self,
        given: Seq<Seq<char>>,
        scales: Map<Seq<char>, Binary64>,
    ) -> Result<Seq<Binary64>, Seq<char>>
        decreases given.len(),
    {
        if given.len() == 0 {
            Ok(self.variable_scales)
        } else {
            match self.rescaled(given.drop_last(), scales) {
                Err(fault) => Err(fault),
                Ok(current) => {
                    let name = given.last();
                    let id = compiler::number_of(self.names, name);
                    if !SolverOptions::positive(scales[name]) {
                        Err(
                            "Variable scale for '"@ + name
                                + "' must be finite and greater than zero"@,
                        )
                    } else if !self.names.contains(name) {
                        Err("Unknown variable scale name '"@ + name + "'"@)
                    } else if !self.jacobian.variables().contains(id) {
                        Err(
                            "Variable scale '"@ + name
                                + "' refers to a fixed parameter, not a solve variable"@,
                        )
                    } else {
                        Ok(
                            current.update(
                                self.jacobian.variables().index_of(id),
                                scales[name],
                            ),
                        )
                    }
                },
            }
        }
    }

    proof fn lemma_rescaled_stops(
        self,
        given: Seq<Seq<char>>,
        scales: Map<Seq<char>, Binary64>,
        k: int,
    )
        requires
            0 <= k <= given.len(),
            self.rescaled(given.take(k), scales) is Err,
        ensures
            self.rescaled(given, scales) == self.rescaled(given.take(k), scales),
        decreases given.len() - k,
    {
        if k < given.len() {
            let next = given.take(k + 1);
            assert(next.drop_last() =~= given.take(k));
            self.lemma_rescaled_stops(given, scales, k + 1);
        } else {
            assert(given.take(k) =~= given);
        }
    }

    /// The scale of a variable to solve for.
    pub open spec fn scale_of(self, name: Seq<char>) -> Option<Binary64> {
        let id = compiler::number_of(self.names, name);
        if self.names.contains(name) && self.jacobian.variables().contains(id) {
            Some(self.variable_scales[self.jacobian.variables().index_of(id)])
        } else {
            None
        }
    }
}

impl<H: Elementary + Notation> NewtonRaphsonSolver<H> {
    /// Where the solver does its work.
    pub fn mode(&self) -> (r: &Mode)
        ensures
            *r == self.run_mode(),
    {
        &self.mode
    }

    /// The numerical policy.
    pub fn options(&self) -> (r: &SolverOptions)
        ensures
            *r == self@.options,
    {
        &self.options
    }

    /// The same solver with another policy, which is checked when solving.
    pub fn with_options(self, options: SolverOptions) -> (r: Self)
        requires
            self.wf(),
        ensures
            r.wf(),
            r.run_mode() == self.run_mode(),
            r@ == (Setup { options, ..self@ }),
    {
        let mut solver = self;
        solver.options = options;
        solver
    }

    /// The same solver with one scale for each equation.
    #[verifier::loop_isolation(false)]
    pub fn with_equation_scales(self, scales: Vec<Binary64>) -> (r: Result<Self, SolverError>)
        requires
            self.wf(),
        ensures
            match self@.equation_scale_fault(scales@) {
                Some(fault) => r matches Err(SolverError::InvalidInput(message)) && message@
                    == fault,
                None => r matches Ok(solver) && solver.wf() && solver.run_mode()
                    == self.run_mode() && solver@ == (Setup { equation_scales: scales@, ..self@ }),
            },
    {
        let count: usize = self.jacobian.equation_count();
        if scales.len() != count {
            return Err(
                SolverError::InvalidInput(
                    length_message("Equation scale length (", scales.len(), count),
                ),
            );
        }
        let mut i: usize = 0;
        assert(scales@.take(0) =~= Seq::empty());
        while i < count
            invariant
                i <= count,
                first_not_positive(scales@.take(i as int)) is None,
                forall|k: int|
                    0 <= k < i ==> SolverOptions::positive(#[trigger] scales@[k]),
            decreases count - i,
        {
            proof {
                let next = scales@.take(i + 1);
                assert(next.drop_last() =~= scales@.take(i as int));
                assert(next.last() == scales@[i as int]);
            }
            if !SolverOptions::is_positive(scales[i]) {
                proof {
                    lemma_not_positive_stays(scales@, i + 1);
                }
                let mut message: String = "Equation scale at index ".to_owned();
                text::append_decimal(&mut message, i);
                message.append(" must be finite and greater than zero");
                return Err(SolverError::InvalidInput(message));
            }
            i = i + 1;
        }
        assert(scales@.take(i as int) =~= scales@);
        let mut solver = self;
        solver.equation_scales = scales;
        Ok(solver)
    }

    /// The column of a variable, where it is solved for.
    fn column_of_variable(&self, id: VarId) -> (r: Option<usize>)
        requires
            self.wf(),
        ensures
            match r {
                Some(j) => self@.jacobian.variables().contains(id) && j
                    == self@.jacobian.variables().index_of(id) && j
                    < self@.jacobian.variables().len(),
                None => !self@.jacobian.variables().contains(id),
            },
    {
        let count: usize = self.jacobian.variable_count();
        let mut j: usize = 0;
        while j < count
            invariant
                j <= count,
                count == self@.jacobian.variables().len(),
                self.wf(),
                forall|k: int| 0 <= k < j ==> #[trigger] self@.jacobian.variables()[k] != id,
            decreases count - j,
        {
            if self.jacobian.variable(j) == id {
                assert(self@.jacobian.variables()[j as int] == id);
                return Some(j);
            }
            j = j + 1;
        }
        None
    }

    /// The same solver with other scales for some of the variables to solve for.
    #[verifier::loop_isolation(false)]
    #[verifier::rlimit(40)]
    pub fn with_variable_scales(self, scales: NamedValues) -> (r: Result<Self, SolverError>)
        requires
            self.wf(),
            scales.wf(),
        ensures
            match self@.rescaled(named::listing(scales@.dom()), scales@) {
                Err(fault) => r matches Err(SolverError::InvalidInput(message)) && message@
                    == fault,
                Ok(replaced) => r matches Ok(solver) && solver.wf() && solver.run_mode()
                    == self.run_mode() && solver@ == (Setup {
                    variable_scales: replaced,
                    ..self@
                }),
            },
    {
        let ghost before = self;
        let ghost setup = self@;
        let ghost given = scales.names();
        let mut solver = self;
        let count: usize = scales.len();
        let mut i: usize = 0;
        proof {
            scales.lemma_names();
            assert(given.take(0) =~= Seq::empty());
        }
        while i < count
            invariant
                i <= count,
                solver.wf(),
                solver.run_mode() == before.run_mode(),
                setup.rescaled(given.take(i as int), scales@) is Ok,
                solver@ == (Setup {
                    variable_scales: setup.rescaled(given.take(i as int), scales@)->Ok_0,
                    ..setup
                }),
            decreases count - i,
        {
            let name = scales.name_at(i);
            let scale = scales.value_at(i);
            proof {
                let next = given.take(i + 1);
                assert(next.drop_last() =~= given.take(i as int));
                assert(next.last() == name@);
            }
            if !SolverOptions::is_positive(scale) {
                proof {
                    setup.lemma_rescaled_stops(given, scales@, i + 1);
                }
                return Err(
                    SolverError::InvalidInput(
                        named_message(
                            "Variable scale for '",
                            name.as_str(),
                            "' must be finite and greater than zero",
                        ),
                    ),
                );
            }
            match solver.var_table.get_id(name.as_str()) {
                None => {
                    proof {
                        setup.lemma_rescaled_stops(given, scales@, i + 1);
                    }
                    return Err(
                        SolverError::InvalidInput(
                            named_message("Unknown variable scale name '", name.as_str(), "'"),
                        ),
                    );
                },
                Some(id) => {
                    assert(setup.names.contains(name@));
                    match solver.column_of_variable(id) {
                        None => {
                            proof {
                                setup.lemma_rescaled_stops(given, scales@, i + 1);
                            }
                            return Err(
                                SolverError::InvalidInput(
                                    named_message(
                                        "Variable scale '",
                                        name.as_str(),
                                        "' refers to a fixed parameter, not a solve variable",
                                    ),
                                ),
                            );
                        },
                        Some(column) => {
                            solver.variable_scales.set(column, scale);
                        },
                    }
                },
            }
            i = i + 1;
        }
        assert(given.take(i as int) =~= given);
        Ok(solver)
    }

    /// The scales of the equations, in order.
    pub fn equation_scales(&self) -> (r: &[Binary64])
        ensures
            r@ == self@.equation_scales,
    {
        self.equation_scales.as_slice()
    }

    /// The scale of a variable to solve for.
    pub fn variable_scale(&self, name: &str) -> (r: Option<Binary64>)
        requires
            self.wf(),
        ensures
            r == self@.scale_of(name@),
    {
        match self.var_table.get_id(name) {
            None => None,
            Some(id) => {
                assert(self@.names.contains(name@));
                match self.column_of_variable(id) {
                    None => None,
                    Some(column) => Some(self.variable_scales[column]),
                }
            },
        }
    }

    /// The same solver with the sources of its equations.
    pub fn with_equation_traces(self, traces: Vec<Option<EquationTrace>>) -> (r: Result<
        Self,
        SolverError,
    >)
        requires
            self.wf(),
        ensures
            if traces@.len() == self@.jacobian.expressions().len() {
                r matches Ok(solver) && solver.wf() && solver.run_mode() == self.run_mode()
                    && solver@ == (Setup { traces: traces@, ..self@ })
            } else {
                r matches Err(SolverError::InvalidInput(message)) && message@ == length_fault(
                    "Equation trace length ("@,
                    traces@.len(),
                    self@.jacobian.expressions().len(),
                )
            },
    {
        let count: usize = self.jacobian.equation_count();
        if traces.len() != count {
            return Err(
                SolverError::InvalidInput(
                    length_message("Equation trace length (", traces.len(), count),
                ),
            );
        }
        let mut solver = self;
        solver.equation_traces = traces;
        Ok(solver)
    }

    /// The source of an equation, where one was given.
    pub fn trace_for_equation(&self, equation_index: usize) -> (r: Option<&EquationTrace>)
        ensures
            match r {
                Some(trace) => equation_index < self@.traces.len()
                    && self@.traces[equation_index as int] == Some(*trace),
                None => equation_index < self@.traces.len()
                    ==> self@.traces[equation_index as int] is None,
            },
    {
        if equation_index >= self.equation_traces.len() {
            return None;
        }
        match &self.equation_traces[equation_index] {
            Some(trace) => Some(trace),
            None => None,
        }
    }

    /// The same solver with another limit of updates.
    pub fn with_max_iterations(self, max_iterations: usize) -> (r: Self)
        requires
            self.wf(),
        ensures
            r.wf(),
            r.run_mode() == self.run_mode(),
            r@ == (Setup { options: SolverOptions { max_iterations, ..self@.options }, ..self@ }),
    {
        let mut solver = self;
        solver.options.max_iterations = max_iterations;
        solver
    }

    /// The same solver with another tolerance of the residual norm.
    pub fn with_residual_tolerance(self, residual_tolerance: Binary64) -> (r: Self)
        requires
            self.wf(),
        ensures
            r.wf(),
            r.run_mode() == self.run_mode(),
            r@ == (Setup {
                options: SolverOptions { residual_tolerance, ..self@.options },
                ..self@
            }),
    {
        let mut solver = self;
        solver.options.residual_tolerance = residual_tolerance;
        solver
    }

    /// The same solver with another tolerance of stationarity.
    pub fn with_stationarity_tolerance(self, stationarity_tolerance: Binary64) -> (r: Self)
        requires
            self.wf(),
        ensures
            r.wf(),
            r.run_mode() == self.run_mode(),
            r@ == (Setup {
                options: SolverOptions { stationarity_tolerance, ..self@.options },
                ..self@
            }),
    {
        let mut solver = self;
        solver.options.stationarity_tolerance = stationarity_tolerance;
        solver
    }

    /// The same solver with another first step.
    pub fn with_initial_step_size(self, initial_step_size: Binary64) -> (r: Self)
        requires
            self.wf(),
        ensures
            r.wf(),
            r.run_mode() == self.run_mode(),
            r@ == (Setup {
                options: SolverOptions { initial_step_size, ..self@.options },
                ..self@
            }),
    {
        let mut solver = self;
        solver.options.initial_step_size = initial_step_size;
        solver
    }

    /// The same solver with another ridge parameter.
    pub fn with_regularization(self, regularization: Binary64) -> (r: Self)
        requires
            self.wf(),
        ensures
            r.wf(),
            r.run_mode() == self.run_mode(),
            r@ == (Setup {
                options: SolverOptions { regularization, ..self@.options },
                ..self@
            }),
    {
        let mut solver = self;
        solver.options.regularization = regularization;
        solver
    }
}

} // verus!
