//! Symbolic Jacobians of compiled equations and their evaluation.
use crate::binary64::Binary64;
use crate::compiler;
use crate::compiler::{Assignment, CompiledExp, EvaluationError, VarId};
use crate::elementary::Elementary;
use crate::grid::Grid;
use crate::matrix::Matrix;
use vstd::prelude::*;

verus! {

/// The name of the first variable without a value in a list of expressions.
pub open spec fn first_missing_in(row: Seq<CompiledExp>, vars: Map<usize, Binary64>) -> Option<
    Seq<char>,
>
    decreases row.len(),
{
    if row.len() == 0 {
        None
    } else {
        compiler::first_of(
            first_missing_in(row.drop_last(), vars),
            row.last().first_missing(vars),
        )
    }
}

/// The name of the first variable without a value in rows of expressions.
pub open spec fn first_missing_rows(
    rows: Seq<Seq<CompiledExp>>,
    vars: Map<usize, Binary64>,
) -> Option<Seq<char>>
    decreases rows.len(),
{
    if rows.len() == 0 {
        None
    } else {
        compiler::first_of(
            first_missing_rows(rows.drop_last(), vars),
            first_missing_in(rows.last(), vars),
        )
    }
}

proof fn lemma_missing_stays(row: Seq<CompiledExp>, vars: Map<usize, Binary64>, k: int)
    requires
        0 <= k <= row.len(),
        first_missing_in(row.take(k), vars) is Some,
    ensures
        first_missing_in(row, vars) == first_missing_in(row.take(k), vars),
    decreases row.len() - k,
{
    if k < row.len() {
        let next = row.take(k + 1);
        assert(next.drop_last() =~= row.take(k));
        lemma_missing_stays(row, vars, k + 1);
    } else {
        assert(row.take(k) =~= row);
    }
}

proof fn lemma_missing_rows_stays(
    rows: Seq<Seq<CompiledExp>>,
    vars: Map<usize, Binary64>,
    k: int,
)
    requires
        0 <= k <= rows.len(),
        first_missing_rows(rows.take(k), vars) is Some,
    ensures
        first_missing_rows(rows, vars) == first_missing_rows(rows.take(k), vars),
    decreases rows.len() - k,
{
    if k < rows.len() {
        let next = rows.take(k + 1);
        assert(next.drop_last() =~= rows.take(k));
        lemma_missing_rows_stays(rows, vars, k + 1);
    } else {
        assert(rows.take(k) =~= rows);
    }
}

/// Equations, the variables to solve for, and the simplified derivatives of
/// each equation by each of these variables.
pub struct Jacobian {
    expressions: Vec<CompiledExp>,
    variables: Vec<VarId>,
    symbolic_jacobian: Vec<Vec<CompiledExp>>,
}

/// Reusable storage for the values of a Jacobian.
pub struct JacobianWorkspace {
    jacobian: Matrix,
}

impl JacobianWorkspace {
    pub closed spec fn grid(self) -> Grid {
        self.jacobian@
    }

    /// Storage for a number of equations and variables.
    pub fn new(num_equations: usize, num_variables: usize) -> (r: JacobianWorkspace)
        requires
            num_equations * num_variables <= usize::MAX,
        ensures
            r.grid() == Grid::zeros(num_equations as nat, num_variables as nat),
            r.grid().wf(),
    {
        JacobianWorkspace { jacobian: Matrix::new(num_equations, num_variables) }
    }

    /// The stored values.
    pub fn jacobian(&mut self) -> (r: &mut Matrix)
        ensures
            r@ == old(self).grid(),
            final(self).grid() == final(r)@,
    {
        &mut self.jacobian
    }
}

impl Jacobian {
    /// The equations.
    pub closed spec fn expressions(self) -> Seq<CompiledExp> {
        self.expressions@
    }

    /// The variables to solve for.
    pub closed spec fn variables(self) -> Seq<VarId> {
        self.variables@
    }

    /// The simplified derivatives, by equation and variable.
    pub closed spec fn derivatives(self) -> Seq<Seq<CompiledExp>> {
        self.symbolic_jacobian@.map_values(|row: Vec<CompiledExp>| row@)
    }

    /// There is one derivative for each equation and each variable.
    pub open spec fn wf(self) -> bool {
        &&& self.derivatives().len() == self.expressions().len()
        &&& forall|i: int|
            0 <= i < self.derivatives().len() ==> (#[trigger] self.derivatives()[i]).len()
                == self.variables().len()
    }

    /// Each derivative is a simplification of the symbolic derivative.
    pub open spec fn derived<H: Elementary>(self, host: H) -> bool {
        forall|i: int, j: int|
            0 <= i < self.expressions().len() && 0 <= j < self.variables().len()
                ==> self.expressions()[i].derivative(self.variables()[j]).simplifies(
                host,
                #[trigger] self.derivatives()[i][j],
            )
    }

    /// `g` holds values that the derivatives may have.
    pub open spec fn evaluates<H: Elementary>(
        self,
        host: H,
        vars: Map<usize, Binary64>,
        g: Grid,
    ) -> bool {
        &&& g.wf()
        &&& g.rows == self.expressions().len()
        &&& g.cols == self.variables().len()
        &&& forall|i: int, j: int|
            0 <= i < g.rows && 0 <= j < g.cols ==> self.derivatives()[i][j].evaluates(
                host,
                vars,
                #[trigger] g.at(i, j),
            )
    }

    /// `g` holds values that the equations may have.
    pub open spec fn residuals<H: Elementary>(
        self,
        host: H,
        vars: Map<usize, Binary64>,
        g: Grid,
    ) -> bool {
        &&& g.wf()
        &&& g.rows == self.expressions().len()
        &&& g.cols == 1
        &&& forall|i: int|
            0 <= i < g.rows ==> self.expressions()[i].evaluates(host, vars, #[trigger] g.at(i, 0))
    }

    /// The Jacobian of equations by variables.
    pub fn new<H: Elementary>(
        expressions: Vec<CompiledExp>,
        variables: Vec<VarId>,
        host: &H,
    ) -> (r: Jacobian)
        ensures
            r.wf(),
            r.expressions() == expressions@,
            r.variables() == variables@,
            r.derived(*host),
    {
        let mut symbolic_jacobian: Vec<Vec<CompiledExp>> = Vec::new();
        let mut i: usize = 0;
        while i < expressions.len()
            invariant
                i <= expressions.len(),
                symbolic_jacobian@.len() == i,
                forall|k: int| 0 <= k < i ==> (#[trigger] symbolic_jacobian@[k])@.len()
                    == variables@.len(),
                forall|k: int, n: int|
                    0 <= k < i && 0 <= n < variables@.len() ==> expressions@[k].derivative(
                        variables@[n],
                    ).simplifies(*host, #[trigger] symbolic_jacobian@[k]@[n]),
            decreases expressions.len() - i,
        {
            let mut row: Vec<CompiledExp> = Vec::new();
            let mut j: usize = 0;
            while j < variables.len()
                invariant
                    i < expressions.len(),
                    j <= variables.len(),
                    row@.len() == j,
                    forall|n: int|
                        0 <= n < j ==> expressions@[i as int].derivative(
                            variables@[n],
                        ).simplifies(*host, #[trigger] row@[n]),
                decreases variables.len() - j,
            {
                row.push(expressions[i].differentiate(variables[j]).simplify(host));
                j = j + 1;
            }
            symbolic_jacobian.push(row);
            i = i + 1;
        }
        Jacobian { expressions, variables, symbolic_jacobian }
    }

    /// Number of equations.
    pub fn equation_count(&self) -> (r: usize)
        ensures
            r == self.expressions().len(),
    {
        self.expressions.len()
    }

    /// Number of variables to solve for.
    pub fn variable_count(&self) -> (r: usize)
        ensures
            r == self.variables().len(),
    {
        self.variables.len()
    }

    /// A variable to solve for.
    pub fn variable(&self, j: usize) -> (r: VarId)
        requires
            j < self.variables().len(),
        ensures
            r == self.variables()[j as int],
    {
        self.variables[j]
    }

    /// Storage for the values.
    pub fn workspace(&self) -> (r: JacobianWorkspace)
        requires
            self.expressions().len() * self.variables().len() <= usize::MAX,
        ensures
            r.grid() == Grid::zeros(self.expressions().len(), self.variables().len()),
            r.grid().wf(),
    {
        JacobianWorkspace::new(self.expressions.len(), self.variables.len())
    }

    /// Evaluate the derivatives into a workspace.
    pub fn evaluate_checked_in_workspace<'a, H: Elementary>(
        &self,
        host: &H,
        vars: &Assignment,
        workspace: &'a mut JacobianWorkspace,
    ) -> (r: Result<&'a mut Matrix, EvaluationError>)
        requires
            self.wf(),
            old(workspace).grid().wf(),
            self.expressions().len() * self.variables().len() <= usize::MAX,
        ensures
            match r {
                Ok(m) => first_missing_rows(self.derivatives(), vars@) is None
                    && self.evaluates(*host, vars@, m@) && final(workspace).grid() == final(m)@,
                Err(error) => first_missing_rows(self.derivatives(), vars@) == Some(
                    error.variable_name@,
                ) && final(workspace).grid().wf() && final(workspace).grid().shape() == (
                    self.expressions().len(),
                    self.variables().len(),
                ),
            },
    {
        match self.evaluate_checked_into(host, vars, &mut workspace.jacobian) {
            Err(error) => Err(error),
            Ok(_) => Ok(&mut workspace.jacobian),
        }
    }

    /// Evaluate the derivatives into a matrix, which is replaced where it has
    /// another shape.
    pub fn evaluate_checked_into<H: Elementary>(
        &self,
        host: &H,
        vars: &Assignment,
        out: &mut Matrix,
    ) -> (r: Result<(), EvaluationError>)
        requires
            self.wf(),
            old(out)@.wf(),
            self.expressions().len() * self.variables().len() <= usize::MAX,
        ensures
            final(out)@.wf(),
            final(out)@.shape() == (self.expressions().len(), self.variables().len()),
            match r {
                Ok(_) => first_missing_rows(self.derivatives(), vars@) is None
                    && self.evaluates(*host, vars@, final(out)@),
                Err(error) => first_missing_rows(self.derivatives(), vars@) == Some(
                    error.variable_name@,
                ),
            },
    {
        let rows: usize = self.expressions.len();
        let cols: usize = self.variables.len();
        if out.rows() != rows || out.cols() != cols {
            *out = Matrix::new(rows, cols);
        }
        let ghost all = self.derivatives();
        let mut i: usize = 0;
        assert(all.take(0) =~= Seq::empty());
        while i < rows
            invariant
                i <= rows,
                self.wf(),
                all == self.derivatives(),
                rows == self.expressions().len(),
                cols == self.variables().len(),
                out@.wf(),
                out@.shape() == (rows as nat, cols as nat),
                first_missing_rows(all.take(i as int), vars@) is None,
                forall|k: int, n: int|
                    0 <= k < i && 0 <= n < cols ==> all[k][n].evaluates(
                        *host,
                        vars@,
                        #[trigger] out@.at(k, n),
                    ),
            decreases rows - i,
        {
            let ghost row = all[i as int];
            assert(row == self.symbolic_jacobian@[i as int]@);
            assert(row.take(0) =~= Seq::empty());
            let mut j: usize = 0;
            while j < cols
                invariant
                    i < rows,
                    j <= cols,
                    self.wf(),
                    all == self.derivatives(),
                    row == all[i as int],
                    row == self.symbolic_jacobian@[i as int]@,
                    rows == self.expressions().len(),
                    cols == self.variables().len(),
                    out@.wf(),
                    out@.shape() == (rows as nat, cols as nat),
                    first_missing_rows(all.take(i as int), vars@) is None,
                    first_missing_in(row.take(j as int), vars@) is None,
                    forall|k: int, n: int|
                        0 <= k < rows && 0 <= n < cols && (k < i || (k == i && n < j))
                            ==> all[k][n].evaluates(*host, vars@, #[trigger] out@.at(k, n)),
                decreases cols - j,
            {
                proof {
                    let next = row.take(j + 1);
                    assert(next.drop_last() =~= row.take(j as int));
                    assert(next.last() == row[j as int]);
                }
                match self.symbolic_jacobian[i][j].evaluate_checked(host, vars) {
                    Err(error) => {
                        proof {
                            lemma_missing_stays(row, vars@, j + 1);
                            let next = all.take(i + 1);
                            assert(next.drop_last() =~= all.take(i as int));
                            assert(next.last() == row);
                            lemma_missing_rows_stays(all, vars@, i + 1);
                        }
                        return Err(error);
                    },
                    Ok(value) => {
                        out.set(i, j, value);
                    },
                }
                j = j + 1;
            }
            proof {
                assert(row.take(j as int) =~= row);
                let next = all.take(i + 1);
                assert(next.drop_last() =~= all.take(i as int));
                assert(next.last() == row);
            }
            i = i + 1;
        }
        assert(all.take(i as int) =~= all);
        Ok(())
    }

    /// Evaluate the equations into a column, which is replaced where it has
    /// another shape.
    pub fn evaluate_functions_checked_into<H: Elementary>(
        &self,
        host: &H,
        vars: &Assignment,
        out: &mut Matrix,
    ) -> (r: Result<(), EvaluationError>)
        requires
            self.wf(),
            old(out)@.wf(),
        ensures
            final(out)@.wf(),
            final(out)@.shape() == (self.expressions().len(), 1nat),
            match r {
                Ok(_) => first_missing_in(self.expressions(), vars@) is None
                    && self.residuals(*host, vars@, final(out)@),
                Err(error) => first_missing_in(self.expressions(), vars@) == Some(
                    error.variable_name@,
                ),
            },
    {
        let rows: usize = self.expressions.len();
        if out.rows() != rows || out.cols() != 1 {
            *out = Matrix::new(rows, 1);
        }
        let ghost all = self.expressions();
        let mut i: usize = 0;
        assert(all.take(0) =~= Seq::empty());
        while i < rows
            invariant
                i <= rows,
                self.wf(),
                all == self.expressions(),
                rows == self.expressions().len(),
                out@.wf(),
                out@.shape() == (rows as nat, 1nat),
                first_missing_in(all.take(i as int), vars@) is None,
                forall|k: int|
                    0 <= k < i ==> all[k].evaluates(*host, vars@, #[trigger] out@.at(k, 0)),
            decreases rows - i,
        {
            proof {
                let next = all.take(i + 1);
                assert(next.drop_last() =~= all.take(i as int));
                assert(next.last() == all[i as int]);
            }
            match self.expressions[i].evaluate_checked(host, vars) {
                Err(error) => {
                    proof {
                        lemma_missing_stays(all, vars@, i + 1);
                    }
                    return Err(error);
                },
                Ok(value) => {
                    out.set(i, 0, value);
                },
            }
            i = i + 1;
        }
        assert(all.take(i as int) =~= all);
        Ok(())
    }
}

} // verus!
