//! Matrices that the decomposition leaves as they are, and how long it may take.
use crate::binary64;
use crate::binary64::{Binary64, ONE};
use crate::grid;
use crate::grid::Grid;
use crate::least_squares;
use crate::least_squares::{Factors, Gram, Progress, EIGHT_EPSILON};
use crate::matrix::MatrixError;
use crate::rounding;
use crate::scaled::CompensatedSum;
use vstd::arithmetic::power2::*;
use vstd::prelude::*;

verus! {

/// At least thirty sweeps are allowed, and two more for each column, as far as a
/// machine word counts.
pub proof fn law_sweep_limit(cols: nat, more: nat)
    requires
        cols <= more,
    ensures
        least_squares::sweep_limit(cols) >= 30,
        least_squares::sweep_limit(cols) <= least_squares::sweep_limit(more),
        least_squares::sweep_limit(more) < usize::MAX ==> least_squares::sweep_limit(more)
            - least_squares::sweep_limit(cols) == 2 * (more - cols),
{
}

/// The inner products of a pair of columns, over their common scale.
pub open spec fn pair_products(columns: Grid, left: int, right: int) -> Gram {
    least_squares::gram(
        columns.column(left),
        columns.column(right),
        least_squares::pair_scale(columns.column(left), columns.column(right)),
    )
}

/// The computed inner product of each pair of columns is zero.
pub open spec fn pairs_orthogonal(columns: Grid) -> bool {
    forall|left: int, right: int|
        0 <= left < right < columns.cols ==> {
            let g = #[trigger] pair_products(columns, left, right);
            &&& g.left.finite() && !g.left.negative()
            &&& g.right.finite() && !g.right.negative()
            &&& g.cross.zero()
        }
}

/// A pair with inner product zero is not turned.
proof fn lemma_pair_stays(f: Factors, left: int, right: int, threshold: Binary64)
    requires
        pairs_orthogonal(f.columns),
        0 <= left < right < f.columns.cols,
    ensures
        least_squares::visited(f, left, right, threshold) == Ok::<
            Factors,
            MatrixError,
        >(f),
{
    let g = pair_products(f.columns, left, right);
    let product = g.left * g.right;
    lemma_product_number(g.left, g.right);
    lemma_root_number(product);
    let root = product.square_root();
    lemma_product_number(Binary64::from_bits(EIGHT_EPSILON), root);
}

/// A product without a negative sign, where the second factor may be infinite.
proof fn lemma_product_number(a: Binary64, b: Binary64)
    requires
        a.finite(),
        !a.negative(),
        !b.nan(),
        !b.negative(),
        b.infinite() ==> !a.zero(),
    ensures
        !(a * b).nan(),
        !(a * b).negative(),
{
    reveal(Binary64::spec_mul);
    lemma_pow2_pos(1074);
    rounding::lemma_ratio_exists(
        rounding::scaled(a.pattern()) * rounding::scaled(b.pattern()),
        pow2(1074) as int,
    );
}

proof fn lemma_root_number(a: Binary64)
    requires
        !a.nan(),
        !a.negative(),
    ensures
        !a.square_root().nan(),
        !a.square_root().negative(),
{
    reveal(Binary64::square_root);
    rounding::lemma_root_exists(
        rounding::scaled(a.pattern()) * pow2(1074),
    );
}

proof fn lemma_column_stays(f: Factors, left: int, end: int, threshold: Binary64)
    requires
        pairs_orthogonal(f.columns),
        0 <= left,
        end <= f.columns.cols,
    ensures
        least_squares::swept_column(f, left, end, threshold) == Ok::<
            Factors,
            MatrixError,
        >(f),
    decreases end,
{
    if end > left + 1 && end > 0 {
        lemma_column_stays(f, left, end - 1, threshold);
        lemma_pair_stays(f, left, end - 1, threshold);
    }
}

proof fn lemma_sweep_stays(f: Factors, end: int, threshold: Binary64)
    requires
        pairs_orthogonal(f.columns),
        end <= f.columns.cols,
    ensures
        least_squares::swept(f, end, f.columns.cols as int, threshold) == Ok::<
            Factors,
            MatrixError,
        >(f),
    decreases end,
{
    if end > 0 {
        lemma_sweep_stays(f, end - 1, threshold);
        lemma_column_stays(f, end - 1, f.columns.cols as int, threshold);
    }
}

proof fn lemma_progress_stays(columns: Grid, relative: Binary64, sweeps: nat)
    requires
        pairs_orthogonal(columns),
        sweeps > 0,
    ensures
        least_squares::progress(columns, relative, sweeps) == Progress::Converged(
            columns,
            Grid::identity(columns.cols),
        ),
    decreases sweeps,
{
    let v = Grid::identity(columns.cols);
    if sweeps == 1 {
        let f = Factors { columns, vectors: v, rotated: false };
        lemma_sweep_stays(
            f,
            columns.cols as int,
            relative * least_squares::greatest(least_squares::column_lengths(columns)),
        );
        assert(least_squares::progress(columns, relative, 0) == Progress::Running(columns, v));
    } else {
        lemma_progress_stays(columns, relative, (sweeps - 1) as nat);
    }
}

/// The identity holds finite numbers.
proof fn lemma_identity_finite(n: nat)
    ensures
        Grid::identity(n).finite(),
        Grid::identity(n).wf(),
{
}

/// A finite matrix whose columns are pairwise orthogonal is decomposed, whatever
/// its size: it is its own first factor, and the second is the identity.
pub proof fn law_orthogonal_is_kept(columns: Grid, relative: Binary64)
    requires
        pairs_orthogonal(columns),
        columns.finite(),
        grid::all_finite(least_squares::column_lengths(columns)),
    ensures
        least_squares::decomposition(columns, relative) == Ok::<
            (Grid, Grid),
            MatrixError,
        >((columns, Grid::identity(columns.cols))),
{
    law_sweep_limit(columns.cols, columns.cols);
    lemma_progress_stays(columns, relative, least_squares::sweep_limit(columns.cols));
    lemma_identity_finite(columns.cols);
}

/// Zeros, and a one at `place`.
pub open spec fn is_axis(values: Seq<Binary64>, place: int) -> bool {
    forall|k: int|
        0 <= k < values.len() ==> #[trigger] values[k] == if k == place {
            Binary64::one()
        } else {
            Binary64::zero_value()
        }
}

proof fn lemma_axis_head(values: Seq<Binary64>, place: int)
    requires
        values.len() > 0,
        is_axis(values, place),
    ensures
        is_axis(values.drop_last(), place),
        values.last() == if values.len() - 1 == place {
            Binary64::one()
        } else {
            Binary64::zero_value()
        },
{
    let head = values.drop_last();
    assert forall|k: int| 0 <= k < head.len() implies #[trigger] head[k] == if k == place {
        Binary64::one()
    } else {
        Binary64::zero_value()
    } by {
        assert(head[k] == values[k]);
    }
    assert(values[values.len() - 1] == values.last());
}

/// Sums of zeros and one.
proof fn lemma_unit_sums()
    ensures
        Binary64::zero_value() + Binary64::zero_value() == Binary64::zero_value(),
        Binary64::zero_value() + Binary64::one() == Binary64::one(),
        Binary64::one() + Binary64::zero_value() == Binary64::one(),
        Binary64::zero_value() - Binary64::zero_value() == Binary64::zero_value(),
        Binary64::one() - Binary64::one() == Binary64::zero_value(),
{
    reveal(Binary64::spec_add);
    Binary64::lemma_scaled_sign(0);
    Binary64::lemma_one_scaled();
    Binary64::lemma_plus_zero(Binary64::zero_value(), Binary64::one());
    Binary64::law_sum_commutes(Binary64::zero_value(), Binary64::one());
}

proof fn lemma_axis_sum(terms: Seq<Binary64>, place: int)
    requires
        is_axis(terms, place),
    ensures
        CompensatedSum::of(terms).sum == if 0 <= place < terms.len() {
            Binary64::one()
        } else {
            Binary64::zero_value()
        },
        CompensatedSum::of(terms).correction == Binary64::zero_value(),
        CompensatedSum::of(terms).result() == if 0 <= place < terms.len() {
            Binary64::one()
        } else {
            Binary64::zero_value()
        },
    decreases terms.len(),
{
    lemma_unit_sums();
    if terms.len() > 0 {
        lemma_axis_head(terms, place);
        lemma_axis_sum(terms.drop_last(), place);
    }
}

/// Products and quotients of zeros and one.
proof fn lemma_unit_products()
    ensures
        Binary64::zero_value() * Binary64::zero_value() == Binary64::zero_value(),
        Binary64::zero_value() * Binary64::one() == Binary64::zero_value(),
        Binary64::one() * Binary64::zero_value() == Binary64::zero_value(),
        Binary64::one() * Binary64::one() == Binary64::one(),
        Binary64::zero_value() / Binary64::one() == Binary64::zero_value(),
        Binary64::one() / Binary64::one() == Binary64::one(),
{
    Binary64::law_times_one(Binary64::zero_value());
    Binary64::law_times_one(Binary64::one());
    Binary64::law_over_one(Binary64::zero_value());
    Binary64::law_over_one(Binary64::one());
    Binary64::lemma_zero_product(Binary64::zero_value(), Binary64::zero_value());
    Binary64::law_product_sign(Binary64::zero_value(), Binary64::zero_value());
}

/// The length of an axis is one.
proof fn lemma_axis_length(values: Seq<Binary64>, place: int)
    requires
        is_axis(values, place),
    ensures
        grid::length(values) == if 0 <= place < values.len() {
            Binary64::one()
        } else {
            Binary64::zero_value()
        },
    decreases values.len(),
{
    if values.len() > 0 {
        lemma_axis_head(values, place);
        lemma_axis_length(values.drop_last(), place);
        lemma_unit_lengths();
    }
}

proof fn lemma_unit_lengths()
    ensures
        Binary64::zero_value().hypotenuse(Binary64::zero_value()) == Binary64::zero_value(),
        Binary64::zero_value().hypotenuse(Binary64::one()) == Binary64::one(),
        Binary64::one().hypotenuse(Binary64::zero_value()) == Binary64::one(),
{
    reveal(Binary64::hypotenuse);
    Binary64::lemma_scaled_sign(0);
    Binary64::lemma_one_scaled();
    binary64::lemma_root_zero();
    let v = rounding::scaled(ONE as int);
    assert(0 * 0 == 0) by (nonlinear_arith);
    rounding::lemma_root_at_most(v * v, ONE as int);
    rounding::lemma_root_exists(v * v);
    let p = rounding::round_root(v * v);
    if p < ONE {
        if p + 1 < ONE {
            rounding::lemma_scaled_increases(p + 1, ONE as int);
        }
        rounding::lemma_scaled_increases(p, ONE as int);
        let m = rounding::scaled(p) + rounding::scaled(p + 1);
        assert(m * m < 4 * (v * v)) by (nonlinear_arith)
            requires
                0 <= m < 2 * v,
        ;
    }
}

/// The columns of the identity are axes.
proof fn lemma_identity_column(n: nat, j: int)
    requires
        0 <= j < n,
    ensures
        Grid::identity(n).column(j).len() == n,
        is_axis(Grid::identity(n).column(j), j),
{
    let column = Grid::identity(n).column(j);
    assert forall|i: int| 0 <= i < column.len() implies #[trigger] column[i] == if i == j {
        Binary64::one()
    } else {
        Binary64::zero_value()
    } by {
        grid::lemma_filled(
            n,
            n,
            |i: int, j: int|
                if i == j {
                    Binary64::one()
                } else {
                    Binary64::zero_value()
                },
            i,
            j,
        );
    }
}

/// The common scale of two axes is one.
proof fn lemma_axes_scale(a: Seq<Binary64>, b: Seq<Binary64>, left: int, right: int)
    requires
        a.len() == b.len(),
        is_axis(a, left),
        is_axis(b, right),
    ensures
        least_squares::pair_scale(a, b) == if 0 <= left < a.len() || 0 <= right < a.len() {
            Binary64::one()
        } else {
            Binary64::zero_value()
        },
    decreases a.len(),
{
    if a.len() > 0 {
        lemma_axis_head(a, left);
        lemma_axis_head(b, right);
        lemma_axes_scale(a.drop_last(), b.drop_last(), left, right);
    }
}

/// An axis over one is the axis.
proof fn lemma_axis_over(a: Seq<Binary64>, place: int)
    requires
        is_axis(a, place),
    ensures
        grid::over(a, Binary64::one()) == a,
{
    lemma_unit_products();
    let b = grid::over(a, Binary64::one());
    assert forall|k: int| 0 <= k < a.len() implies b[k] == a[k] by {
        assert(a[k] == if k == place {
            Binary64::one()
        } else {
            Binary64::zero_value()
        });
    }
    assert(b =~= a);
}

/// The inner products of axes.
proof fn lemma_axes_dot(a: Seq<Binary64>, b: Seq<Binary64>, left: int, right: int)
    requires
        a.len() == b.len(),
        is_axis(a, left),
        is_axis(b, right),
        0 <= left < a.len(),
        0 <= right < a.len(),
    ensures
        grid::dot(a, b) == if left == right {
            Binary64::one()
        } else {
            Binary64::zero_value()
        },
{
    lemma_unit_products();
    let terms = grid::products(a, b);
    let place = if left == right {
        left
    } else {
        -1
    };
    assert forall|k: int| 0 <= k < terms.len() implies #[trigger] terms[k] == if k == place {
        Binary64::one()
    } else {
        Binary64::zero_value()
    } by {
        assert(a[k] == if k == left {
            Binary64::one()
        } else {
            Binary64::zero_value()
        });
        assert(b[k] == if k == right {
            Binary64::one()
        } else {
            Binary64::zero_value()
        });
    }
    lemma_axis_sum(terms, place);
}

/// The columns of the identity are orthogonal, and of length one.
proof fn lemma_identity_orthogonal(n: nat)
    ensures
        pairs_orthogonal(Grid::identity(n)),
        least_squares::column_lengths(Grid::identity(n)) == Seq::new(
            n,
            |j: int| Binary64::one(),
        ),
{
    let e = Grid::identity(n);
    assert forall|left: int, right: int| 0 <= left < right < e.cols implies {
        let g = #[trigger] pair_products(e, left, right);
        &&& g.left.finite() && !g.left.negative()
        &&& g.right.finite() && !g.right.negative()
        &&& g.cross.zero()
    } by {
        let a = e.column(left);
        let b = e.column(right);
        lemma_identity_column(n, left);
        lemma_identity_column(n, right);
        lemma_axes_scale(a, b, left, right);
        lemma_axis_over(a, left);
        lemma_axis_over(b, right);
        lemma_axes_dot(a, a, left, left);
        lemma_axes_dot(b, b, right, right);
        lemma_axes_dot(a, b, left, right);
    }
    let lengths = least_squares::column_lengths(e);
    let ones = Seq::new(n, |j: int| Binary64::one());
    assert forall|j: int| 0 <= j < n implies lengths[j] == ones[j] by {
        lemma_identity_column(n, j);
        lemma_axis_length(e.column(j), j);
    }
    assert(lengths =~= ones);
}

proof fn lemma_unit_cells(cells: Seq<Binary64>)
    requires
        forall|k: int|
            0 <= k < cells.len() ==> #[trigger] cells[k] == Binary64::one() || cells[k]
                == Binary64::zero_value(),
    ensures
        grid::largest(cells) == Binary64::one() || grid::largest(cells) == Binary64::zero_value(),
        (exists|k: int| 0 <= k < cells.len() && #[trigger] cells[k] == Binary64::one())
            ==> grid::largest(cells) == Binary64::one(),
    decreases cells.len(),
{
    if cells.len() > 0 {
        let head = cells.drop_last();
        assert forall|k: int| 0 <= k < head.len() implies #[trigger] head[k] == Binary64::one()
            || head[k] == Binary64::zero_value() by {
            assert(head[k] == cells[k]);
        }
        lemma_unit_cells(head);
        let last = cells.len() - 1;
        assert(cells[last] == cells.last());
        if exists|k: int| 0 <= k < cells.len() && #[trigger] cells[k] == Binary64::one() {
            let k = choose|k: int| 0 <= k < cells.len() && #[trigger] cells[k] == Binary64::one();
            if k < head.len() {
                assert(head[k] == Binary64::one());
            }
        }
    }
}

proof fn lemma_ones(n: nat, threshold: Binary64)
    requires
        threshold < Binary64::one(),
    ensures
        least_squares::count_above(Seq::new(n, |j: int| Binary64::one()), threshold) == n,
    decreases n,
{
    if n > 0 {
        let ones = Seq::new(n, |j: int| Binary64::one());
        let fewer = Seq::new((n - 1) as nat, |j: int| Binary64::one());
        assert(ones.drop_last() =~= fewer);
        lemma_ones((n - 1) as nat, threshold);
    }
}

proof fn lemma_greatest_one(n: nat)
    requires
        n > 0,
    ensures
        least_squares::greatest(Seq::new(n, |j: int| Binary64::one())) == Binary64::one(),
    decreases n,
{
    let ones = Seq::new(n, |j: int| Binary64::one());
    let fewer = Seq::new((n - 1) as nat, |j: int| Binary64::one());
    assert(ones.drop_last() =~= fewer);
    assert(ones.last() == Binary64::one());
    if n > 1 {
        lemma_greatest_one((n - 1) as nat);
    } else {
        assert(least_squares::greatest(fewer) == Binary64::zero_value());
    }
}

/// The identity is decomposed, whatever its size and the right-hand side: both
/// factors are the identity, the coefficients need no scale, and every direction
/// is retained where the threshold is below one.
pub proof fn law_identity_is_decomposed(n: nat, b: Grid, relative: Binary64)
    requires
        n > 0,
    ensures
        least_squares::decomposed(Grid::identity(n), b, relative) matches Ok(d) && {
            &&& d.columns == Grid::identity(n)
            &&& d.vectors == Grid::identity(n)
            &&& d.coefficient_scale == Binary64::one()
            &&& relative < Binary64::one() ==> least_squares::count_above(
                d.singular_values(),
                d.threshold,
            ) == n
        },
{
    let e = Grid::identity(n);
    lemma_identity_finite(n);
    lemma_identity_orthogonal(n);
    lemma_unit_products();
    assert forall|k: int| 0 <= k < e.cells.len() implies #[trigger] e.cells[k] == Binary64::one()
        || e.cells[k] == Binary64::zero_value() by {}
    lemma_identity_column(n, 0);
    assert(e.column(0)[0] == e.at(0, 0));
    grid::lemma_index(0, 0, n as int, n as int);
    assert(e.cells[0 * (n as int) + 0] == Binary64::one());
    lemma_unit_cells(e.cells);
    let input = least_squares::factor_input(e, Binary64::one());
    assert(input.cells =~= e.cells);
    assert(input == e);
    law_orthogonal_is_kept(e, relative);
    lemma_greatest_one(n);
    if relative < Binary64::one() {
        Binary64::law_times_one(relative);
        lemma_ones(n, relative);
    }
}

/// Zeros of either sign, but for the term at `place`.
spec fn is_lone(terms: Seq<Binary64>, place: int) -> bool {
    forall|k: int| 0 <= k < terms.len() && k != place ==> (#[trigger] terms[k]).zero()
}

proof fn lemma_zero_plus(a: Binary64, b: Binary64)
    requires
        a.zero(),
        b.finite(),
    ensures
        (a + b).same(b),
        (b + a).same(b),
        !b.zero() ==> a + b == b && b + a == b,
        (b - b).zero(),
{
    Binary64::lemma_plus_zero(a, b);
    Binary64::law_sum_commutes(a, b);
    reveal(Binary64::spec_add);
    Binary64::lemma_scaled_sign(0);
}

/// A sum with one term that is not zero is that term.
proof fn lemma_lone_sum(terms: Seq<Binary64>, place: int)
    requires
        is_lone(terms, place),
        0 <= place < terms.len() ==> terms[place].finite(),
    ensures
        ({
            let total = CompensatedSum::of(terms);
            &&& total.correction.zero()
            &&& if 0 <= place < terms.len() && !terms[place].zero() {
                total.sum == terms[place] && total.result() == terms[place]
            } else {
                total.sum.zero() && total.result().zero()
            }
        }),
    decreases terms.len(),
{
    let zero = Binary64::zero_value();
    if terms.len() == 0 {
        lemma_zero_plus(zero, zero);
    } else {
        let head = terms.drop_last();
        assert forall|k: int| 0 <= k < head.len() && k != place implies (
        #[trigger] head[k]).zero() by {
            assert(terms[k].zero());
        }
        if 0 <= place < head.len() {
            assert(head[place] == terms[place]);
        }
        lemma_lone_sum(head, place);
        let before = CompensatedSum::of(head);
        let last = terms.last();
        assert(terms[terms.len() - 1] == last);
        assert(last.finite());
        let next = before.sum + last;
        if last.zero() {
            lemma_zero_plus(last, before.sum);
        } else {
            lemma_zero_plus(before.sum, last);
        }
        let after = CompensatedSum::of(terms);
        assert(after.sum == next);
        let residue = CompensatedSum::residue(before.sum, last);
        assert(residue.zero()) by {
            if before.sum.zero() && last.zero() {
                lemma_zero_plus(before.sum, next.negated());
                lemma_zero_plus(last, next.negated());
                lemma_zero_plus(before.sum - next, last);
                lemma_zero_plus(last - next, before.sum);
            } else if last.zero() {
                lemma_zero_plus(last, next);
                lemma_zero_plus(next - next, last);
            } else {
                lemma_zero_plus(before.sum, next);
                lemma_zero_plus(next - next, before.sum);
            }
        }
        lemma_zero_plus(before.correction, residue);
        lemma_zero_plus(after.correction, after.sum);
    }
}

/// The product of an axis and finite numbers is the number at its place.
proof fn lemma_axis_picks(a: Seq<Binary64>, b: Seq<Binary64>, place: int)
    requires
        a.len() == b.len(),
        is_axis(a, place),
        grid::all_finite(b),
        0 <= place < a.len(),
    ensures
        grid::dot(a, b).same(b[place]),
        grid::dot(b, a).same(b[place]),
{
    let p = grid::products(a, b);
    let q = grid::products(b, a);
    assert(a[place] == Binary64::one() && b[place].finite());
    Binary64::law_times_one(b[place]);
    assert forall|k: int| 0 <= k < p.len() && k != place implies (#[trigger] p[k]).zero() by {
        assert(a[k] == Binary64::zero_value() && b[k].finite());
        Binary64::lemma_zero_product(a[k], b[k]);
    }
    assert forall|k: int| 0 <= k < q.len() && k != place implies (#[trigger] q[k]).zero() by {
        assert(a[k] == Binary64::zero_value() && b[k].finite());
        Binary64::lemma_zero_product(b[k], a[k]);
    }
    lemma_lone_sum(p, place);
    lemma_lone_sum(q, place);
}

/// Multiplying a finite matrix by the identity, from either side, gives the same
/// numbers.
pub proof fn law_times_identity(g: Grid, i: int, j: int)
    requires
        g.wf(),
        g.finite(),
        0 <= i < g.rows,
        0 <= j < g.cols,
    ensures
        Grid::identity(g.rows).times(g).at(i, j).same(g.at(i, j)),
        g.times(Grid::identity(g.cols)).at(i, j).same(g.at(i, j)),
{
    let left = Grid::identity(g.rows);
    let right = Grid::identity(g.cols);
    grid::lemma_filled(
        g.rows,
        g.cols,
        |i: int, j: int| grid::dot(left.row(i), g.column(j)),
        i,
        j,
    );
    grid::lemma_filled(
        g.rows,
        g.cols,
        |i: int, j: int| grid::dot(g.row(i), right.column(j)),
        i,
        j,
    );
    let column = g.column(j);
    let row = g.row(i);
    assert forall|k: int| 0 <= k < column.len() implies (#[trigger] column[k]).finite() by {
        grid::lemma_index(k, j, g.rows as int, g.cols as int);
    }
    assert forall|k: int| 0 <= k < row.len() implies (#[trigger] row[k]).finite() by {
        grid::lemma_index(i, k, g.rows as int, g.cols as int);
    }
    lemma_identity_row(g.rows, i);
    lemma_identity_column(g.cols, j);
    lemma_axis_picks(left.row(i), column, i);
    lemma_axis_picks(right.column(j), row, j);
}

/// The rows of the identity are axes.
proof fn lemma_identity_row(n: nat, i: int)
    requires
        0 <= i < n,
    ensures
        Grid::identity(n).row(i).len() == n,
        is_axis(Grid::identity(n).row(i), i),
{
    let row = Grid::identity(n).row(i);
    assert forall|j: int| 0 <= j < row.len() implies #[trigger] row[j] == if j == i {
        Binary64::one()
    } else {
        Binary64::zero_value()
    } by {
        grid::lemma_filled(
            n,
            n,
            |i: int, j: int|
                if i == j {
                    Binary64::one()
                } else {
                    Binary64::zero_value()
                },
            i,
            j,
        );
    }
}

} // verus!
