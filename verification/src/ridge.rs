//! The linear system of a correction, as an objective over the real numbers.
use crate::accuracy;
use crate::binary64::Binary64;
use crate::elementary::Elementary;
use crate::grid;
use crate::grid::Grid;
use crate::least_squares;
use crate::minimum_norm;
use crate::newton;
use crate::newton::Setup;
use crate::precision;
use crate::report::SolverOptions;
use crate::text::Notation;
use crate::vectors;
use vstd::prelude::*;

verus! {

/// The real numbers in a matrix.
pub open spec fn entries(g: Grid) -> spec_fn(int, int) -> real {
    |i: int, j: int| precision::worth(g.at(i, j))
}

/// The real numbers in a list.
pub open spec fn numbers(values: Seq<Binary64>) -> spec_fn(int) -> real {
    |i: int| precision::worth(values[i])
}

/// The squared length of `a x + f`, and `lambda` times that of `x`.
pub open spec fn damped(
    a: Grid,
    f: Seq<Binary64>,
    lambda: real,
    x: spec_fn(int) -> real,
) -> real {
    minimum_norm::objective(
        entries(a),
        x,
        |i: int| -precision::worth(f[i]),
        lambda,
        a.rows as int,
        a.cols as int,
    )
}

/// The squared residual of the system `m x = r` is that of `a x = -f` with
/// `lambda` times the squared length of `x` added, whatever `x` is.
pub open spec fn poses(a: Grid, f: Seq<Binary64>, lambda: real, m: Grid, r: Seq<Binary64>) -> bool {
    &&& m.wf()
    &&& m.cols == a.cols
    &&& r.len() == m.rows
    &&& forall|x: spec_fn(int) -> real| #[trigger]
        minimum_norm::residual(entries(m), x, numbers(r), m.rows as int, m.cols as int) == damped(
            a,
            f,
            lambda,
            x,
        )
}

proof fn lemma_worth_negated(x: Binary64)
    ensures
        precision::worth(x.negated()) == -precision::worth(x),
{
    precision::lemma_worth(x);
    precision::lemma_worth(x.negated());
    assert(x.negated().pattern() == x.pattern());
}

proof fn lemma_zero_worth()
    ensures
        precision::worth(Binary64::zero_value()) == 0 as real,
{
    precision::lemma_worth(Binary64::zero_value());
}

/// The rows of a ridge system, cell by cell.
proof fn lemma_ridge_cells(a: Grid, weight: Binary64, i: int, j: int)
    requires
        a.wf(),
        0 <= i < a.rows + a.cols,
        0 <= j < a.cols,
    ensures
        entries(newton::ridge_matrix(a, weight))(i, j) == minimum_norm::extended(
            entries(a),
            precision::worth(weight),
            a.rows as int,
        )(i, j),
{
    lemma_zero_worth();
    grid::lemma_filled(
        a.rows + a.cols,
        a.cols,
        |i: int, j: int|
            if i < a.rows {
                a.at(i, j)
            } else if i - a.rows == j {
                weight
            } else {
                Binary64::zero_value()
            },
        i,
        j,
    );
}

/// Residuals that agree cell by cell are the same.
proof fn lemma_same_residual(
    a: spec_fn(int, int) -> real,
    b: spec_fn(int, int) -> real,
    p: spec_fn(int) -> real,
    q: spec_fn(int) -> real,
    x: spec_fn(int) -> real,
    rows: int,
    cols: int,
)
    requires
        forall|i: int, j: int| 0 <= i < rows && 0 <= j < cols ==> #[trigger] a(i, j) == b(i, j),
        forall|i: int| 0 <= i < rows ==> #[trigger] p(i) == q(i),
    ensures
        minimum_norm::residual(a, x, p, rows, cols) == minimum_norm::residual(b, x, q, rows, cols),
{
    let d = vectors::minus(vectors::applied(a, x, cols), p);
    let e = vectors::minus(vectors::applied(b, x, cols), q);
    assert forall|i: int| 0 <= i < rows implies #[trigger] d(i) == e(i) by {
        let u = vectors::row(a, i);
        let v = vectors::row(b, i);
        assert forall|j: int| 0 <= j < cols implies #[trigger] u(j) == v(j) by {
            assert(a(i, j) == b(i, j));
        }
        vectors::lemma_dot_equal(u, x, v, x, cols);
        assert(p(i) == q(i));
    }
    vectors::lemma_dot_equal(d, d, e, e, rows);
}

proof fn lemma_ridge_poses(a: Grid, f: Seq<Binary64>, weight: Binary64)
    requires
        a.wf(),
        f.len() == a.rows,
    ensures
        poses(
            a,
            f,
            vectors::times(precision::worth(weight), precision::worth(weight)),
            newton::ridge_matrix(a, weight),
            newton::ridge_rhs(newton::negated(f), a.cols),
        ),
{
    let m = newton::ridge_matrix(a, weight);
    let r = newton::ridge_rhs(newton::negated(f), a.cols);
    let w = precision::worth(weight);
    let rows = a.rows as int;
    let cols = a.cols as int;
    let lambda = vectors::times(w, w);
    let target = |i: int| -precision::worth(f[i]);
    let e = minimum_norm::extended(entries(a), w, rows);
    let p = minimum_norm::padded(target, rows);
    assert forall|x: spec_fn(int) -> real| #[trigger]
        minimum_norm::residual(entries(m), x, numbers(r), m.rows as int, m.cols as int) == damped(
            a,
            f,
            lambda,
            x,
        ) by {
        let c = entries(m);
        let n = numbers(r);
        assert forall|i: int, j: int| 0 <= i < rows + cols && 0 <= j < cols implies #[trigger] c(
            i,
            j,
        ) == e(i, j) by {
            lemma_ridge_cells(a, weight, i, j);
        }
        assert forall|i: int| 0 <= i < rows + cols implies #[trigger] n(i) == p(i) by {
            lemma_zero_worth();
            if i < rows {
                lemma_worth_negated(f[i]);
                assert(r[i] == f[i].negated());
            }
        }
        lemma_same_residual(c, e, n, p, x, rows + cols, cols);
        minimum_norm::law_ridge_objective(entries(a), x, target, w, rows, cols);
    }
}

proof fn lemma_plain_poses(a: Grid, f: Seq<Binary64>)
    requires
        a.wf(),
        f.len() == a.rows,
    ensures
        poses(a, f, 0 as real, a, newton::negated(f)),
{
    let r = newton::negated(f);
    let rows = a.rows as int;
    let cols = a.cols as int;
    let target = |i: int| -precision::worth(f[i]);
    assert forall|x: spec_fn(int) -> real| #[trigger]
        minimum_norm::residual(entries(a), x, numbers(r), rows, cols) == damped(
            a,
            f,
            0 as real,
            x,
        ) by {
        let n = numbers(r);
        assert forall|i: int| 0 <= i < rows implies #[trigger] n(i) == target(i) by {
            lemma_worth_negated(f[i]);
        }
        lemma_same_residual(entries(a), entries(a), n, target, x, rows, cols);
        vectors::lemma_units(vectors::square(x, cols));
    }
}

impl<H: Elementary + Notation> Setup<H> {
    /// A correction is the least-squares solution of a system whose squared
    /// residual is that of `a x + f = 0` with the configured ridge parameter
    /// times the squared length of `x` added. The parameter is met within two
    /// roundings, and where it is zero there is none.
    pub proof fn law_correction_system(self, a: Grid, f: Seq<Binary64>)
        requires
            a.wf(),
            f.len() == a.rows,
            self.options.regularization.zero() || SolverOptions::positive(
                self.options.regularization,
            ),
            self.options.regularization.zero() || a.rows + a.cols <= usize::MAX,
        ensures
            exists|m: Grid, r: Seq<Binary64>, lambda: real|
                {
                    &&& #[trigger] poses(a, f, lambda, m, r)
                    &&& accuracy::near(lambda, precision::worth(self.options.regularization), 2)
                    &&& match (
                        least_squares::solved(m, newton::column_of(r)),
                        self.correction(a, newton::negated(f)),
                    ) {
                        (Err(error), Err(cause)) => error == cause,
                        (Ok((x, _)), Ok((delta, used))) => x == delta && used.regularization
                            == if self.options.regularization.zero() {
                            None
                        } else {
                            Some(self.options.regularization)
                        },
                        _ => false,
                    }
                },
    {
        let lambda = self.options.regularization;
        precision::lemma_worth(lambda);
        if lambda.zero() {
            lemma_plain_poses(a, f);
            lemma_near_zero();
            assert(poses(a, f, 0 as real, a, newton::negated(f)));
        } else {
            let weight = lambda.square_root();
            let w = precision::worth(weight);
            precision::law_root_rounds(lambda);
            lemma_ridge_poses(a, f, weight);
            vectors::lemma_times(w, w);
            assert(poses(
                a,
                f,
                vectors::times(w, w),
                newton::ridge_matrix(a, weight),
                newton::ridge_rhs(newton::negated(f), a.cols),
            ));
        }
    }
}

proof fn lemma_near_zero()
    ensures
        accuracy::near(0 as real, 0 as real, 2),
{
    let p = accuracy::shrink(2);
    let q = accuracy::stretch(2);
    assert(0 as real * p == 0 as real && 0 as real * q == 0 as real) by (nonlinear_arith);
}

} // verus!
