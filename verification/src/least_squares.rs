//! Least squares by a one-sided Jacobi singular value decomposition.
use core::ops::Neg;
use crate::binary64::Binary64;
use crate::grid;
use crate::grid::Grid;
use crate::matrix::{Matrix, MatrixError, MatrixOperand};
use crate::matrix;
use crate::rounding;
use crate::scaled;
use crate::scaled::{CompensatedSum, ScaledValue};
use vstd::arithmetic::power2::*;
use vstd::prelude::*;

verus! {

/// Bit pattern of eight times the distance from one to the next number.
pub const EIGHT_EPSILON: u64 = 0x3ce0_0000_0000_0000;

/// Bit pattern of minus one.
pub const MINUS_ONE: u64 = 0xbff0_0000_0000_0000;

/// The factors of a decomposition in progress: the rotated matrix, the
/// accumulated rotations, and whether the present sweep has rotated a pair.
#[verifier::ext_equal]
pub struct Factors {
    pub columns: Grid,
    pub vectors: Grid,
    pub rotated: bool,
}

/// Inner products of two columns over a common scale.
pub struct Gram {
    pub left: Binary64,
    pub right: Binary64,
    pub cross: Binary64,
}

/// Relative rank threshold for a shape.
pub open spec fn relative_tolerance(rows: nat, cols: nat) -> Binary64 {
    Binary64::epsilon() * Binary64::counting(
        if rows >= cols {
            rows as int
        } else {
            cols as int
        },
    )
}

/// The greatest of the numbers, zero where there is none above it.
pub open spec fn greatest(values: Seq<Binary64>) -> Binary64
    decreases values.len(),
{
    if values.len() == 0 {
        Binary64::zero_value()
    } else {
        greatest(values.drop_last()).larger(values.last())
    }
}

/// Lengths of the columns.
pub open spec fn column_lengths(columns: Grid) -> Seq<Binary64> {
    Seq::new(columns.cols, |j: int| grid::length(columns.column(j)))
}

/// Largest magnitude in two columns.
pub open spec fn pair_scale(left: Seq<Binary64>, right: Seq<Binary64>) -> Binary64
    decreases left.len(),
{
    if left.len() == 0 || left.len() != right.len() {
        Binary64::zero_value()
    } else {
        pair_scale(left.drop_last(), right.drop_last()).larger(left.last().magnitude()).larger(
            right.last().magnitude(),
        )
    }
}

pub open spec fn gram(left: Seq<Binary64>, right: Seq<Binary64>, scale: Binary64) -> Gram {
    let a = grid::over(left, scale);
    let b = grid::over(right, scale);
    Gram { left: grid::dot(a, a), right: grid::dot(b, b), cross: grid::dot(a, b) }
}

/// Tangent of the angle that makes a pair orthogonal, the root of smaller
/// magnitude.
pub open spec fn tangent(g: Gram) -> Binary64 {
    let zeta = (g.right - g.left) / (Binary64::two() * g.cross);
    if zeta >= Binary64::zero_value() {
        Binary64::one() / (zeta + zeta.hypotenuse(Binary64::one()))
    } else {
        Binary64::from_bits(MINUS_ONE) / (zeta.negated() + zeta.hypotenuse(Binary64::one()))
    }
}

/// Cosine and sine of the rotation for a pair, or nothing where a column is
/// numerically null or the pair is orthogonal already.
pub open spec fn rotation(g: Gram, scale: Binary64, threshold: Binary64) -> Option<
    (Binary64, Binary64),
> {
    let orthogonal = Binary64::from_bits(EIGHT_EPSILON) * (g.left * g.right).square_root();
    if scale * g.left.square_root() <= threshold || scale * g.right.square_root() <= threshold
        || g.cross.magnitude() <= orthogonal {
        None
    } else {
        let t = tangent(g);
        let cosine = Binary64::one() / (Binary64::one() + t * t).square_root();
        Some((cosine, cosine * t))
    }
}

/// Two columns turned by an angle.
pub open spec fn turned(
    g: Grid,
    left: int,
    right: int,
    cosine: Binary64,
    sine: Binary64,
) -> Grid {
    Grid::filled(
        g.rows,
        g.cols,
        |i: int, j: int|
            if j == left {
                cosine * g.at(i, left) - sine * g.at(i, right)
            } else if j == right {
                sine * g.at(i, left) + cosine * g.at(i, right)
            } else {
                g.at(i, j)
            },
    )
}

pub open spec fn factor_error() -> MatrixError {
    MatrixError::NonFiniteFactor { operation: "one_sided_jacobi_svd" }
}

/// The factors after one pair of columns was looked at.
pub open spec fn visited(f: Factors, left: int, right: int, threshold: Binary64) -> Result<
    Factors,
    MatrixError,
> {
    let scale = pair_scale(f.columns.column(left), f.columns.column(right));
    let g = gram(f.columns.column(left), f.columns.column(right), scale);
    if scale.zero() {
        Ok(f)
    } else if !g.left.finite() || !g.right.finite() || !g.cross.finite() {
        Err(factor_error())
    } else {
        match rotation(g, scale, threshold) {
            None => Ok(f),
            Some((cosine, sine)) => Ok(
                Factors {
                    columns: turned(f.columns, left, right, cosine, sine),
                    vectors: turned(f.vectors, left, right, cosine, sine),
                    rotated: true,
                },
            ),
        }
    }
}

/// The factors after the pairs of column `left` with the later columns before
/// `end`.
pub open spec fn swept_column(f: Factors, left: int, end: int, threshold: Binary64) -> Result<
    Factors,
    MatrixError,
>
    decreases end,
{
    if end <= left + 1 || end <= 0 {
        Ok(f)
    } else {
        match swept_column(f, left, end - 1, threshold) {
            Err(error) => Err(error),
            Ok(g) => visited(g, left, end - 1, threshold),
        }
    }
}

/// The factors after all pairs whose first column lies before `end`.
pub open spec fn swept(f: Factors, end: int, cols: int, threshold: Binary64) -> Result<
    Factors,
    MatrixError,
>
    decreases end,
{
    if end <= 0 {
        Ok(f)
    } else {
        match swept(f, end - 1, cols, threshold) {
            Err(error) => Err(error),
            Ok(g) => swept_column(g, end - 1, cols, threshold),
        }
    }
}

/// The factors after one sweep over all pairs.
pub open spec fn sweep(columns: Grid, vectors: Grid, relative: Binary64) -> Result<
    Factors,
    MatrixError,
> {
    swept(
        Factors { columns, vectors, rotated: false },
        columns.cols as int,
        columns.cols as int,
        relative * greatest(column_lengths(columns)),
    )
}

/// How far a decomposition has come.
pub enum Progress {
    Running(Grid, Grid),
    Converged(Grid, Grid),
    Failed(MatrixError),
}

/// The decomposition after at most `sweeps` sweeps; the first sweep without a
/// rotation ends it.
pub open spec fn progress(columns: Grid, relative: Binary64, sweeps: nat) -> Progress
    decreases sweeps,
{
    if sweeps == 0 {
        Progress::Running(columns, Grid::identity(columns.cols))
    } else {
        match progress(columns, relative, (sweeps - 1) as nat) {
            Progress::Running(a, v) => match sweep(a, v, relative) {
                Err(error) => Progress::Failed(error),
                Ok(f) => if f.rotated {
                    Progress::Running(f.columns, f.vectors)
                } else {
                    Progress::Converged(f.columns, f.vectors)
                },
            },
            done => done,
        }
    }
}

/// Number of sweeps allowed for a number of columns.
pub open spec fn sweep_limit(cols: nat) -> nat {
    if 30 + 2 * cols <= usize::MAX {
        30 + 2 * cols
    } else {
        usize::MAX as nat
    }
}

/// The decomposition of a matrix with at least as many rows as columns.
pub open spec fn decomposition(columns: Grid, relative: Binary64) -> Result<
    (Grid, Grid),
    MatrixError,
> {
    match progress(columns, relative, sweep_limit(columns.cols)) {
        Progress::Failed(error) => Err(error),
        Progress::Running(..) => Err(
            MatrixError::FactorizationDidNotConverge {
                operation: "one_sided_jacobi_svd",
                sweeps: sweep_limit(columns.cols) as usize,
            },
        ),
        Progress::Converged(a, v) => if !a.finite() || !v.finite() || !grid::all_finite(
            column_lengths(a),
        ) {
            Err(factor_error())
        } else {
            Ok((a, v))
        },
    }
}

/// Length of one column.
fn column_length(m: &Matrix, j: usize) -> (r: Binary64)
    requires
        m@.wf(),
        j < m@.cols,
    ensures
        r == grid::length(m@.column(j as int)),
{
    let ghost column = m@.column(j as int);
    let mut r = Binary64::zero_value();
    let mut i: usize = 0;
    assert(column.take(0) =~= Seq::empty());
    while i < m.rows()
        invariant
            i <= m@.rows,
            m@.wf(),
            j < m@.cols,
            column == m@.column(j as int),
            r == grid::length(column.take(i as int)),
        decreases m@.rows - i,
    {
        let value = m.get(i, j);
        proof {
            let next = column.take(i + 1);
            assert(next.drop_last() =~= column.take(i as int));
            assert(next.last() == value);
        }
        r = r.hypot(value);
        i = i + 1;
    }
    assert(column.take(i as int) =~= column);
    r
}

/// Largest length of a column.
fn largest_column_length(m: &Matrix) -> (r: Binary64)
    requires
        m@.wf(),
    ensures
        r == greatest(column_lengths(m@)),
{
    let ghost lengths = column_lengths(m@);
    let mut r = Binary64::zero_value();
    let mut j: usize = 0;
    assert(lengths.take(0) =~= Seq::empty());
    while j < m.cols()
        invariant
            j <= m@.cols,
            m@.wf(),
            lengths == column_lengths(m@),
            r == greatest(lengths.take(j as int)),
        decreases m@.cols - j,
    {
        let value = column_length(m, j);
        proof {
            let next = lengths.take(j + 1);
            assert(next.drop_last() =~= lengths.take(j as int));
            assert(next.last() == value);
        }
        r = r.max(value);
        j = j + 1;
    }
    assert(lengths.take(j as int) =~= lengths);
    r
}

/// Largest magnitude in two columns.
fn shared_scale(m: &Matrix, left: usize, right: usize) -> (r: Binary64)
    requires
        m@.wf(),
        left < m@.cols,
        right < m@.cols,
    ensures
        r == pair_scale(m@.column(left as int), m@.column(right as int)),
{
    let ghost a = m@.column(left as int);
    let ghost b = m@.column(right as int);
    let mut r = Binary64::zero_value();
    let mut i: usize = 0;
    while i < m.rows()
        invariant
            i <= m@.rows,
            m@.wf(),
            left < m@.cols,
            right < m@.cols,
            a == m@.column(left as int),
            b == m@.column(right as int),
            r == pair_scale(a.take(i as int), b.take(i as int)),
        decreases m@.rows - i,
    {
        let x = m.get(i, left);
        let y = m.get(i, right);
        proof {
            let next = a.take(i + 1);
            let other = b.take(i + 1);
            assert(next.drop_last() =~= a.take(i as int));
            assert(other.drop_last() =~= b.take(i as int));
            assert(next.last() == x && other.last() == y);
        }
        r = r.max(x.abs()).max(y.abs());
        i = i + 1;
    }
    assert(a.take(i as int) =~= a);
    assert(b.take(i as int) =~= b);
    r
}

/// Inner products of two columns over a common scale.
fn inner_products(m: &Matrix, left: usize, right: usize, scale: Binary64) -> (r: Gram)
    requires
        m@.wf(),
        left < m@.cols,
        right < m@.cols,
    ensures
        r == gram(m@.column(left as int), m@.column(right as int), scale),
{
    let ghost a = grid::over(m@.column(left as int), scale);
    let ghost b = grid::over(m@.column(right as int), scale);
    let ghost aa = grid::products(a, a);
    let ghost bb = grid::products(b, b);
    let ghost ab = grid::products(a, b);
    let mut left_sum = CompensatedSum::default();
    let mut right_sum = CompensatedSum::default();
    let mut cross_sum = CompensatedSum::default();
    let mut i: usize = 0;
    proof {
        assert(aa.take(0) =~= Seq::empty());
        assert(bb.take(0) =~= Seq::empty());
        assert(ab.take(0) =~= Seq::empty());
    }
    while i < m.rows()
        invariant
            i <= m@.rows,
            m@.wf(),
            left < m@.cols,
            right < m@.cols,
            a == grid::over(m@.column(left as int), scale),
            b == grid::over(m@.column(right as int), scale),
            aa == grid::products(a, a),
            bb == grid::products(b, b),
            ab == grid::products(a, b),
            left_sum == CompensatedSum::of(aa.take(i as int)),
            right_sum == CompensatedSum::of(bb.take(i as int)),
            cross_sum == CompensatedSum::of(ab.take(i as int)),
        decreases m@.rows - i,
    {
        let x = m.get(i, left) / scale;
        let y = m.get(i, right) / scale;
        proof {
            assert(aa.take(i + 1).drop_last() =~= aa.take(i as int));
            assert(bb.take(i + 1).drop_last() =~= bb.take(i as int));
            assert(ab.take(i + 1).drop_last() =~= ab.take(i as int));
            assert(aa.take(i + 1).last() == x * x);
            assert(bb.take(i + 1).last() == y * y);
            assert(ab.take(i + 1).last() == x * y);
        }
        left_sum.add(x * x);
        right_sum.add(y * y);
        cross_sum.add(x * y);
        i = i + 1;
    }
    assert(aa.take(i as int) =~= aa);
    assert(bb.take(i as int) =~= bb);
    assert(ab.take(i as int) =~= ab);
    Gram { left: left_sum.total(), right: right_sum.total(), cross: cross_sum.total() }
}

/// Rotation for a pair of columns.
fn choose_rotation(g: &Gram, scale: Binary64, threshold: Binary64) -> (r: Option<
    (Binary64, Binary64),
>)
    ensures
        r == rotation(*g, scale, threshold),
{
    let orthogonal = Binary64::from_bits(EIGHT_EPSILON) * (g.left * g.right).sqrt();
    let left_norm = scale * g.left.sqrt();
    let right_norm = scale * g.right.sqrt();
    if left_norm.at_most(threshold) || right_norm.at_most(threshold) {
        return None;
    }
    if g.cross.abs().at_most(orthogonal) {
        return None;
    }
    let one = Binary64::one();
    let zeta = (g.right - g.left) / (Binary64::two() * g.cross);
    let t = if Binary64::zero_value().at_most(zeta) {
        one / (zeta + zeta.hypot(one))
    } else {
        Binary64::from_bits(MINUS_ONE) / (zeta.neg() + zeta.hypot(one))
    };
    let cosine = one / (one + t * t).sqrt();
    Some((cosine, cosine * t))
}

/// Turn two columns by an angle.
fn turn_columns(
    m: &mut Matrix,
    left: usize,
    right: usize,
    cosine: Binary64,
    sine: Binary64,
)
    requires
        old(m)@.wf(),
        left < old(m)@.cols,
        right < old(m)@.cols,
        left != right,
    ensures
        final(m)@ == turned(old(m)@, left as int, right as int, cosine, sine),
        final(m)@.wf(),
{
    let ghost before = m@;
    let mut i: usize = 0;
    while i < m.rows()
        invariant
            i <= m@.rows,
            m@.wf(),
            before.wf(),
            m@.rows == before.rows,
            m@.cols == before.cols,
            left < m@.cols,
            right < m@.cols,
            left != right,
            forall|r: int, c: int|
                0 <= r < before.rows && 0 <= c < before.cols ==> #[trigger] m@.at(r, c) == if r >= i
                    || (c != left && c != right) {
                    before.at(r, c)
                } else if c == left {
                    cosine * before.at(r, left as int) - sine * before.at(r, right as int)
                } else {
                    sine * before.at(r, left as int) + cosine * before.at(r, right as int)
                },
        decreases m@.rows - i,
    {
        let x = m.get(i, left);
        let y = m.get(i, right);
        m.set(i, left, cosine * x - sine * y);
        m.set(i, right, sine * x + cosine * y);
        i = i + 1;
    }
    proof {
        let target = turned(before, left as int, right as int, cosine, sine);
        assert forall|r: int, c: int| 0 <= r < m@.rows && 0 <= c < m@.cols implies #[trigger] m@.at(
            r,
            c,
        ) == target.at(r, c) by {
            grid::lemma_index(r, c, target.rows as int, target.cols as int);
        }
        grid::lemma_grids_equal(m@, target);
    }
}

/// Look at one pair of columns, and turn it where it is not orthogonal.
fn visit_pair(
    columns: &mut Matrix,
    vectors: &mut Matrix,
    left: usize,
    right: usize,
    threshold: Binary64,
    rotated: bool,
) -> (r: Result<bool, MatrixError>)
    requires
        old(columns)@.wf(),
        old(vectors)@.wf(),
        old(columns)@.cols == old(vectors)@.cols,
        left < old(columns)@.cols,
        right < old(columns)@.cols,
        left != right,
    ensures
        final(columns)@.wf(),
        final(vectors)@.wf(),
        final(columns)@.shape() == old(columns)@.shape(),
        final(vectors)@.shape() == old(vectors)@.shape(),
        match visited(
            (Factors { columns: old(columns)@, vectors: old(vectors)@, rotated }),
            left as int,
            right as int,
            threshold,
        ) {
            Err(error) => r == Err::<bool, MatrixError>(error),
            Ok(f) => r == Ok::<bool, MatrixError>(f.rotated) && final(columns)@ == f.columns
                && final(vectors)@ == f.vectors,
        },
{
    let scale = shared_scale(columns, left, right);
    if scale.magnitude_bits() == 0 {
        return Ok(rotated);
    }
    let g = inner_products(columns, left, right, scale);
    if !g.left.is_finite() || !g.right.is_finite() || !g.cross.is_finite() {
        return Err(MatrixError::NonFiniteFactor { operation: "one_sided_jacobi_svd" });
    }
    match choose_rotation(&g, scale, threshold) {
        None => Ok(rotated),
        Some((cosine, sine)) => {
            turn_columns(columns, left, right, cosine, sine);
            turn_columns(vectors, left, right, cosine, sine);
            Ok(true)
        },
    }
}

/// A failure in a column's pairs stays.
proof fn lemma_column_failure(
    f: Factors,
    left: int,
    k: int,
    end: int,
    threshold: Binary64,
    error: MatrixError,
)
    requires
        0 <= k <= end,
        swept_column(f, left, k, threshold) == Err::<Factors, MatrixError>(error),
    ensures
        swept_column(f, left, end, threshold) == Err::<Factors, MatrixError>(error),
    decreases end - k,
{
    if k < end {
        assert(k > left + 1);
        assert(swept_column(f, left, k + 1, threshold) == Err::<Factors, MatrixError>(error));
        lemma_column_failure(f, left, k + 1, end, threshold, error);
    }
}

/// A failure in a sweep stays.
proof fn lemma_sweep_failure(
    f: Factors,
    k: int,
    end: int,
    cols: int,
    threshold: Binary64,
    error: MatrixError,
)
    requires
        0 <= k <= end,
        swept(f, k, cols, threshold) == Err::<Factors, MatrixError>(error),
    ensures
        swept(f, end, cols, threshold) == Err::<Factors, MatrixError>(error),
    decreases end - k,
{
    if k < end {
        lemma_sweep_failure(f, k + 1, end, cols, threshold, error);
    }
}

/// A decomposition that has ended stays as it is.
proof fn lemma_progress_ended(columns: Grid, relative: Binary64, k: nat, end: nat)
    requires
        k <= end,
        !(progress(columns, relative, k) is Running),
    ensures
        progress(columns, relative, end) == progress(columns, relative, k),
    decreases end - k,
{
    if k < end {
        lemma_progress_ended(columns, relative, k, (end - 1) as nat);
    }
}

/// Sweep over all pairs of columns.
#[verifier::loop_isolation(false)]
fn run_sweep(columns: &mut Matrix, vectors: &mut Matrix, relative: Binary64) -> (r: Result<
    bool,
    MatrixError,
>)
    requires
        old(columns)@.wf(),
        old(vectors)@.wf(),
        old(columns)@.cols == old(vectors)@.cols,
    ensures
        final(columns)@.wf(),
        final(vectors)@.wf(),
        final(columns)@.shape() == old(columns)@.shape(),
        final(vectors)@.shape() == old(vectors)@.shape(),
        match sweep(old(columns)@, old(vectors)@, relative) {
            Err(error) => r == Err::<bool, MatrixError>(error),
            Ok(f) => r == Ok::<bool, MatrixError>(f.rotated) && final(columns)@ == f.columns
                && final(vectors)@ == f.vectors,
        },
{
    let ghost start = Factors { columns: columns@, vectors: vectors@, rotated: false };
    let threshold = relative * largest_column_length(columns);
    let cols: usize = columns.cols();
    let mut rotated: bool = false;
    let mut left: usize = 0;
    while left < cols
        invariant
            left <= cols,
            columns@.wf(),
            vectors@.wf(),
            columns@.shape() == start.columns.shape(),
            vectors@.shape() == start.vectors.shape(),
            swept(start, left as int, cols as int, threshold) == Ok::<Factors, MatrixError>(
                (Factors { columns: columns@, vectors: vectors@, rotated }),
            ),
        decreases cols - left,
    {
        let ghost entry = Factors { columns: columns@, vectors: vectors@, rotated };
        let mut right: usize = left + 1;
        while right < cols
            invariant
                left < right <= cols,
                columns@.wf(),
                vectors@.wf(),
                columns@.shape() == start.columns.shape(),
                vectors@.shape() == start.vectors.shape(),
                swept_column(entry, left as int, right as int, threshold) == Ok::<
                    Factors,
                    MatrixError,
                >((Factors { columns: columns@, vectors: vectors@, rotated })),
            decreases cols - right,
        {
            match visit_pair(columns, vectors, left, right, threshold, rotated) {
                Err(error) => {
                    proof {
                        lemma_column_failure(
                            entry,
                            left as int,
                            right + 1,
                            cols as int,
                            threshold,
                            error,
                        );
                        lemma_sweep_failure(
                            start,
                            left + 1,
                            cols as int,
                            cols as int,
                            threshold,
                            error,
                        );
                    }
                    return Err(error);
                },
                Ok(turned_pair) => {
                    rotated = turned_pair;
                },
            }
            right = right + 1;
        }
        left = left + 1;
    }
    Ok(rotated)
}

/// Orthogonalize the columns of a matrix, accumulating the rotations and the
/// lengths of the resulting columns.
#[verifier::loop_isolation(false)]
#[verifier::rlimit(40)]
fn one_sided_jacobi_svd_columns(
    columns: &mut Matrix,
    vectors: &mut Matrix,
    singular_values: &mut Vec<Binary64>,
    relative: Binary64,
) -> (r: Result<(), MatrixError>)
    requires
        old(columns)@.wf(),
        old(vectors)@.wf(),
        old(vectors)@.rows == old(columns)@.cols,
        old(vectors)@.cols == old(columns)@.cols,
        old(singular_values)@.len() == old(columns)@.cols,
    ensures
        final(columns)@.wf(),
        final(vectors)@.wf(),
        final(columns)@.shape() == old(columns)@.shape(),
        final(vectors)@.shape() == old(vectors)@.shape(),
        final(singular_values)@.len() == old(singular_values)@.len(),
        match decomposition(old(columns)@, relative) {
            Err(error) => r == Err::<(), MatrixError>(error),
            Ok((a, v)) => r is Ok && final(columns)@ == a && final(vectors)@ == v
                && final(singular_values)@ == column_lengths(a),
        },
{
    let ghost start = columns@;
    let cols: usize = columns.cols();
    vectors.reset_identity();
    let doubled: usize = if cols <= usize::MAX / 2 {
        2 * cols
    } else {
        usize::MAX
    };
    let limit: usize = if doubled <= usize::MAX - 30 {
        doubled + 30
    } else {
        usize::MAX
    };
    assert(limit == sweep_limit(cols as nat));
    let mut converged: bool = false;
    let mut count: usize = 0;
    while count < limit && !converged
        invariant
            count <= limit,
            columns@.wf(),
            vectors@.wf(),
            columns@.shape() == start.shape(),
            vectors@.rows == cols,
            vectors@.cols == cols,
            progress(start, relative, count as nat) == if converged {
                Progress::Converged(columns@, vectors@)
            } else {
                Progress::Running(columns@, vectors@)
            },
        decreases limit - count,
    {
        match run_sweep(columns, vectors, relative) {
            Err(error) => {
                proof {
                    assert(progress(start, relative, (count + 1) as nat) == Progress::Failed(
                        error,
                    ));
                    lemma_progress_ended(start, relative, (count + 1) as nat, limit as nat);
                }
                return Err(error);
            },
            Ok(rotated) => {
                converged = !rotated;
            },
        }
        count = count + 1;
    }
    if !converged {
        return Err(
            MatrixError::FactorizationDidNotConverge {
                operation: "one_sided_jacobi_svd",
                sweeps: limit,
            },
        );
    }
    proof {
        lemma_progress_ended(start, relative, count as nat, limit as nat);
    }
    if !columns.all_finite() || !vectors.all_finite() {
        return Err(MatrixError::NonFiniteFactor { operation: "one_sided_jacobi_svd" });
    }
    let ghost lengths = column_lengths(columns@);
    let mut j: usize = 0;
    while j < cols
        invariant
            j <= cols,
            singular_values@.len() == cols,
            forall|k: int| 0 <= k < j ==> singular_values@[k] == #[trigger] lengths[k],
            forall|k: int| 0 <= k < j ==> (#[trigger] lengths[k]).finite(),
        decreases cols - j,
    {
        let value = column_length(columns, j);
        assert(lengths[j as int] == value);
        if !value.is_finite() {
            return Err(MatrixError::NonFiniteFactor { operation: "one_sided_jacobi_svd" });
        }
        singular_values.set(j, value);
        j = j + 1;
    }
    assert(singular_values@ =~= lengths);
    Ok(())
}

/// Diagnostics of a least-squares solution.
#[derive(Debug, Clone, Copy, PartialEq)]
pub struct LeastSquaresInfo {
    /// Numerical rank, relative to the largest singular value.
    pub rank: usize,
    /// Ratio of the largest to the smallest retained singular value; infinite
    /// where none is retained.
    pub cond_est: Binary64,
    /// Fraction of the right-hand side's norm that the retained directions
    /// capture.
    pub retained_rhs_projection_fraction: Binary64,
    /// Initial slope of the residual norm along the solution.
    pub residual_norm_slope: Binary64,
}

/// Storage for least-squares problems of one shape.
pub struct LeastSquaresWorkspace {
    rows: usize,
    cols: usize,
    orthogonal_columns: Matrix,
    right_vectors: Matrix,
    singular_values: Vec<Binary64>,
    projections: Vec<Binary64>,
}

impl LeastSquaresWorkspace {
    /// The coefficient shape that the workspace is for.
    pub closed spec fn shape(self) -> (usize, usize) {
        (self.rows, self.cols)
    }

    /// The buffers have the sizes that the shape needs.
    pub closed spec fn wf(self) -> bool {
        let long = if self.rows >= self.cols {
            self.rows
        } else {
            self.cols
        };
        let short = if self.rows >= self.cols {
            self.cols
        } else {
            self.rows
        };
        &&& self.orthogonal_columns@.wf()
        &&& self.orthogonal_columns@.rows == long
        &&& self.orthogonal_columns@.cols == short
        &&& self.right_vectors@.wf()
        &&& self.right_vectors@.rows == short
        &&& self.right_vectors@.cols == short
        &&& self.singular_values@.len() == short
        &&& self.projections@.len() == short
    }

    /// Storage for coefficient matrices of one shape.
    pub fn new(rows: usize, cols: usize) -> (w: LeastSquaresWorkspace)
        requires
            rows * cols <= usize::MAX,
        ensures
            w.wf(),
            w.shape() == (rows, cols),
    {
        let long: usize = if rows >= cols {
            rows
        } else {
            cols
        };
        let short: usize = if rows >= cols {
            cols
        } else {
            rows
        };
        assert(long * short == rows * cols && short * short <= long * short) by (nonlinear_arith)
            requires
                long == rows && short == cols || long == cols && short == rows,
                short <= long,
        ;
        LeastSquaresWorkspace {
            rows,
            cols,
            orthogonal_columns: Matrix::new(long, short),
            right_vectors: Matrix::new(short, short),
            singular_values: zeros(short),
            projections: zeros(short),
        }
    }

    /// The contents of the buffers: rotated columns, rotations, singular values
    /// and projections.
    pub closed spec fn contents(self) -> (
        Seq<Binary64>,
        Seq<Binary64>,
        Seq<Binary64>,
        Seq<Binary64>,
    ) {
        (
            self.orthogonal_columns@.cells,
            self.right_vectors@.cells,
            self.singular_values@,
            self.projections@,
        )
    }

    /// The buffers, which a solve reuses.
    pub fn buffers(&self) -> (r: (&[Binary64], &[Binary64], &[Binary64], &[Binary64]))
        ensures
            (r.0@, r.1@, r.2@, r.3@) == self.contents(),
    {
        (
            self.orthogonal_columns.elements(),
            self.right_vectors.elements(),
            self.singular_values.as_slice(),
            self.projections.as_slice(),
        )
    }
}

fn zeros(count: usize) -> (v: Vec<Binary64>)
    ensures
        v@.len() == count,
{
    let mut v: Vec<Binary64> = Vec::with_capacity(count);
    while v.len() < count
        invariant
            v@.len() <= count,
        decreases count - v@.len(),
    {
        v.push(Binary64::zero_value());
    }
    v
}

/// A scale to divide by: one in place of zero.
pub open spec fn divisor(scale: Binary64) -> Binary64 {
    if scale.zero() {
        Binary64::one()
    } else {
        scale
    }
}

/// The normalized matrix that is decomposed: the coefficients, transposed where
/// there are more columns than rows.
pub open spec fn factor_input(a: Grid, scale: Binary64) -> Grid {
    if a.rows >= a.cols {
        a.divided_by(scale)
    } else {
        Grid::filled(a.cols, a.rows, |i: int, j: int| a.at(j, i) / scale)
    }
}

/// Number of the values above a threshold.
pub open spec fn count_above(values: Seq<Binary64>, threshold: Binary64) -> nat
    decreases values.len(),
{
    if values.len() == 0 {
        0
    } else {
        count_above(values.drop_last(), threshold) + if values.last() > threshold {
            1nat
        } else {
            0nat
        }
    }
}

/// The smallest of the values above a threshold, infinity where there is none.
pub open spec fn least_above(values: Seq<Binary64>, threshold: Binary64) -> Binary64
    decreases values.len(),
{
    if values.len() == 0 {
        Binary64::infinity()
    } else {
        let head = least_above(values.drop_last(), threshold);
        if values.last() > threshold {
            head.smaller(values.last())
        } else {
            head
        }
    }
}

/// A decomposed problem: the factors, the singular values, the rank threshold
/// and the two scales.
#[verifier::ext_equal]
pub struct Decomposed {
    pub tall: bool,
    pub columns: Grid,
    pub vectors: Grid,
    pub threshold: Binary64,
    pub coefficient_scale: Binary64,
    pub rhs: Seq<Binary64>,
    pub rhs_scale: Binary64,
}

impl Decomposed {
    pub open spec fn singular_values(self) -> Seq<Binary64> {
        column_lengths(self.columns)
    }

    /// The direction is part of the solution.
    pub open spec fn retained(self, component: int) -> bool {
        !(self.singular_values()[component] <= self.threshold)
    }

    /// The right-hand side along one singular direction.
    pub open spec fn projection(self, component: int) -> Binary64 {
        if !self.retained(component) {
            Binary64::zero_value()
        } else if self.tall {
            grid::dot(
                grid::over(self.columns.column(component), self.singular_values()[component]),
                grid::over(self.rhs, self.rhs_scale),
            )
        } else {
            grid::dot(
                grid::over(self.vectors.column(component), Binary64::one()),
                grid::over(self.rhs, self.rhs_scale),
            )
        }
    }

    pub open spec fn projections(self) -> Seq<Binary64> {
        Seq::new(self.columns.cols, |c: int| self.projection(c))
    }

    /// What one singular direction adds to one solution coordinate.
    pub open spec fn contribution(self, row: int, component: int) -> Binary64 {
        let sigma = self.singular_values()[component];
        if self.tall {
            scaled::ratio(
                seq![
                    self.projection(component),
                    self.vectors.at(row, component),
                    self.rhs_scale,
                ],
                seq![sigma, self.coefficient_scale],
            )
        } else {
            scaled::ratio(
                seq![
                    self.projection(component),
                    self.columns.at(row, component),
                    self.rhs_scale,
                ],
                seq![sigma, sigma, self.coefficient_scale],
            )
        }
    }

    /// A solution coordinate summed over the directions before `end`, nothing
    /// where a contribution or a partial total is not finite.
    pub open spec fn partial(self, row: int, end: int) -> Option<CompensatedSum>
        decreases end,
    {
        if end <= 0 {
            Some(CompensatedSum::empty())
        } else {
            match self.partial(row, end - 1) {
                None => None,
                Some(sum) => if !self.retained(end - 1) {
                    Some(sum)
                } else {
                    let term = self.contribution(row, end - 1);
                    let next = sum.after(term);
                    if term.finite() && next.result().finite() {
                        Some(next)
                    } else {
                        None
                    }
                },
            }
        }
    }

    pub open spec fn coordinate(self, row: int) -> Option<CompensatedSum> {
        self.partial(row, self.columns.cols as int)
    }

    /// Number of solution coordinates.
    pub open spec fn unknowns(self) -> nat {
        if self.tall {
            self.columns.cols
        } else {
            self.columns.rows
        }
    }

    /// Every projection and every coordinate is finite.
    pub open spec fn solvable(self) -> bool {
        &&& grid::all_finite(self.projections())
        &&& forall|row: int|
            0 <= row < self.unknowns() ==> (#[trigger] self.coordinate(row)) is Some
    }

    pub open spec fn solution(self) -> Seq<Binary64> {
        Seq::new(self.unknowns(), |row: int| self.coordinate(row)->0.result())
    }

    pub open spec fn rhs_length(self) -> Binary64 {
        grid::length(grid::over(self.rhs, self.rhs_scale))
    }

    pub open spec fn retained_length(self) -> Binary64 {
        grid::length(self.projections())
    }

    /// Fraction of the right-hand side that is captured: zero only where none
    /// is, one at most.
    pub open spec fn fraction(self) -> Binary64 {
        let rounded = self.retained_length() / self.rhs_length();
        if self.rhs_length().zero() {
            Binary64::zero_value()
        } else if self.retained_length() > Binary64::zero_value() && rounded.zero() {
            Binary64::from_bits(1)
        } else {
            rounded.smaller(Binary64::one())
        }
    }

    pub open spec fn slope(self) -> Binary64 {
        if self.rhs_length().zero() {
            Binary64::zero_value().negated()
        } else {
            scaled::ratio(
                seq![self.rhs_scale, self.retained_length(), self.retained_length()],
                seq![self.rhs_length()],
            ).negated()
        }
    }

    pub open spec fn info(self) -> LeastSquaresInfo {
        let values = self.singular_values();
        let rank = count_above(values, self.threshold);
        LeastSquaresInfo {
            rank: rank as usize,
            cond_est: if rank == 0 {
                Binary64::infinity()
            } else {
                greatest(values) / least_above(values, self.threshold)
            },
            retained_rhs_projection_fraction: self.fraction(),
            residual_norm_slope: self.slope(),
        }
    }
}

/// The decomposed problem for coefficients and a right-hand side, with a rank
/// threshold relative to the largest singular value.
pub open spec fn decomposed(a: Grid, b: Grid, relative: Binary64) -> Result<
    Decomposed,
    MatrixError,
> {
    let coefficient_scale = divisor(grid::largest(a.cells));
    let rhs_scale = divisor(grid::largest(b.cells));
    match decomposition(factor_input(a, coefficient_scale), relative) {
        Err(error) => Err(error),
        Ok((columns, vectors)) => Ok(
            Decomposed {
                tall: a.rows >= a.cols,
                columns,
                vectors,
                threshold: relative * greatest(column_lengths(columns)),
                coefficient_scale,
                rhs: b.column(0),
                rhs_scale,
            },
        ),
    }
}

/// Minimum-norm least-squares solution and its diagnostics, at the threshold
/// that the precision of the numbers gives.
pub open spec fn least_squares(a: Grid, b: Grid) -> Result<
    (Seq<Binary64>, LeastSquaresInfo),
    MatrixError,
> {
    least_squares_with(a, b, relative_tolerance(a.rows, a.cols))
}

/// Minimum-norm least-squares solution and its diagnostics, without the singular
/// directions that do not exceed a threshold relative to the largest.
pub open spec fn least_squares_with(a: Grid, b: Grid, relative: Binary64) -> Result<
    (Seq<Binary64>, LeastSquaresInfo),
    MatrixError,
> {
    if a.rows == 0 || a.cols == 0 {
        Ok(
            (
                Grid::zeros(a.cols, 1).cells,
                LeastSquaresInfo {
                    rank: 0,
                    cond_est: Binary64::infinity(),
                    retained_rhs_projection_fraction: Binary64::zero_value(),
                    residual_norm_slope: Binary64::zero_value().negated(),
                },
            ),
        )
    } else {
        match decomposed(a, b, relative) {
            Err(error) => Err(error),
            Ok(d) => if d.solvable() {
                Ok((d.solution(), d.info()))
            } else {
                Err(MatrixError::NonFiniteResult { operation: "solve_least_squares" })
            },
        }
    }
}

/// The error for the operands of a least-squares solve, the first that applies.
pub open spec fn least_squares_refusal(
    a: Grid,
    b: Grid,
    solution: Grid,
    workspace: (usize, usize),
) -> Option<MatrixError> {
    let expected = (a.cols as usize, 1usize);
    let mismatch = MatrixError::DimensionMismatch {
        operation: "solve_least_squares",
        left: (a.rows as usize, 1usize),
        right: matrix::shape_of(b),
    };
    if b.cols != 1 {
        Some(mismatch)
    } else if matrix::shape_refusal("solve_least_squares", expected, solution) is Some {
        matrix::shape_refusal("solve_least_squares", expected, solution)
    } else if workspace != matrix::shape_of(a) {
        Some(
            MatrixError::WorkspaceShapeMismatch {
                operation: "solve_least_squares",
                expected: matrix::shape_of(a),
                actual: workspace,
            },
        )
    } else if b.rows != a.rows {
        Some(mismatch)
    } else if !a.finite() {
        Some(
            MatrixError::NonFiniteInput {
                operation: "solve_least_squares",
                operand: MatrixOperand::CoefficientMatrix,
            },
        )
    } else if !b.finite() {
        Some(
            MatrixError::NonFiniteInput {
                operation: "solve_least_squares",
                operand: MatrixOperand::RightHandSide,
            },
        )
    } else {
        None
    }
}

/// What a solve with fresh buffers comes to.
pub open spec fn solved(a: Grid, b: Grid) -> Result<
    (Seq<Binary64>, LeastSquaresInfo),
    MatrixError,
> {
    match least_squares_refusal(a, b, Grid::zeros(a.cols, 1), matrix::shape_of(a)) {
        Some(error) => Err(error),
        None => least_squares(a, b),
    }
}

/// The greatest of finite numbers without a negative sign is one as well.
pub(crate) proof fn lemma_greatest(values: Seq<Binary64>)
    requires
        forall|k: int|
            0 <= k < values.len() ==> (#[trigger] values[k]).finite() && !values[k].negative(),
    ensures
        greatest(values).finite(),
        !greatest(values).negative(),
    decreases values.len(),
{
    if values.len() > 0 {
        let head = values.drop_last();
        assert forall|k: int| 0 <= k < head.len() implies (#[trigger] head[k]).finite()
            && !head[k].negative() by {
            assert(head[k] == values[k]);
        }
        lemma_greatest(head);
        assert(values.last() == values[values.len() - 1]);
    }
}

/// A direction of length zero is not retained.
pub(crate) proof fn lemma_retained(d: Decomposed, relative: Binary64, component: int)
    requires
        grid::all_finite(d.singular_values()),
        d.threshold == relative * greatest(d.singular_values()),
        relative.finite(),
        !relative.negative(),
        0 <= component < d.columns.cols,
        d.retained(component),
    ensures
        !d.singular_values()[component].zero(),
{
    let values = d.singular_values();
    assert forall|k: int| 0 <= k < values.len() implies (#[trigger] values[k]).finite()
        && !values[k].negative() by {
        lemma_length_number(d.columns.column(k));
    }
    lemma_greatest(values);
    reveal(Binary64::spec_mul);
    let g = greatest(values);
    let n = crate::rounding::scaled(relative.pattern()) * crate::rounding::scaled(g.pattern());
    vstd::arithmetic::power2::lemma_pow2_pos(1074);
    crate::rounding::lemma_ratio_exists(n, vstd::arithmetic::power2::pow2(1074) as int);
}

/// The relative threshold is finite and carries no negative sign.
pub(crate) proof fn lemma_relative(rows: nat, cols: nat)
    requires
        rows <= usize::MAX,
        cols <= usize::MAX,
    ensures
        relative_tolerance(rows, cols).finite(),
        !relative_tolerance(rows, cols).negative(),
{
    let count = if rows >= cols {
        rows as int
    } else {
        cols as int
    };
    Binary64::lemma_counting_small(count);
    Binary64::lemma_epsilon_times(Binary64::counting(count));
}

/// Copy the normalized coefficients, transposed where there are more columns
/// than rows.
fn load_factor(a: &Matrix, scale: Binary64, target: &mut Matrix)
    requires
        a@.wf(),
        old(target)@.wf(),
        old(target)@.shape() == factor_input(a@, scale).shape(),
    ensures
        final(target)@ == factor_input(a@, scale),
        final(target)@.wf(),
{
    let ghost goal = factor_input(a@, scale);
    let tall: bool = a.rows() >= a.cols();
    let rows: usize = target.rows();
    let cols: usize = target.cols();
    proof {
        assert(a@.rows * a@.cols == a@.cols * a@.rows) by (nonlinear_arith);
        assert forall|r: int, c: int| 0 <= r < goal.rows && 0 <= c < goal.cols implies (
        #[trigger] goal.at(r, c)) == (if tall {
            a@.at(r, c)
        } else {
            a@.at(c, r)
        }) / scale by {
            grid::lemma_index(r, c, goal.rows as int, goal.cols as int);
        }
    }
    let mut i: usize = 0;
    while i < rows
        invariant
            i <= rows,
            a@.wf(),
            target@.wf(),
            target@.rows == rows == goal.rows,
            target@.cols == cols == goal.cols,
            tall ==> goal.shape() == a@.shape(),
            !tall ==> goal.shape() == (a@.cols, a@.rows),
            forall|r: int, c: int|
                0 <= r < goal.rows && 0 <= c < goal.cols ==> (#[trigger] goal.at(r, c)) == (
                if tall {
                    a@.at(r, c)
                } else {
                    a@.at(c, r)
                }) / scale,
            forall|r: int, c: int|
                0 <= r < i && 0 <= c < cols ==> #[trigger] target@.at(r, c) == goal.at(r, c),
        decreases rows - i,
    {
        let mut j: usize = 0;
        while j < cols
            invariant
                i < rows,
                j <= cols,
                a@.wf(),
                target@.wf(),
                target@.rows == rows == goal.rows,
                target@.cols == cols == goal.cols,
                tall ==> goal.shape() == a@.shape(),
                !tall ==> goal.shape() == (a@.cols, a@.rows),
                forall|r: int, c: int|
                    0 <= r < goal.rows && 0 <= c < goal.cols ==> (#[trigger] goal.at(r, c)) == (
                    if tall {
                        a@.at(r, c)
                    } else {
                        a@.at(c, r)
                    }) / scale,
                forall|r: int, c: int|
                    0 <= r < rows && 0 <= c < cols && (r < i || (r == i && c < j))
                        ==> #[trigger] target@.at(r, c) == goal.at(r, c),
            decreases cols - j,
        {
            let source = if tall {
                a.get(i, j)
            } else {
                a.get(j, i)
            };
            assert(goal.at(i as int, j as int) == source / scale);
            target.set(i, j, source / scale);
            j = j + 1;
        }
        i = i + 1;
    }
    proof {
        assert(goal.wf());
        grid::lemma_grids_equal(target@, goal);
    }
}

/// Compensated dot product of a column and a right-hand side, each over its
/// scale.
fn normalized_column_dot(
    left: &Matrix,
    column: usize,
    column_scale: Binary64,
    right: &Matrix,
    right_scale: Binary64,
) -> (r: Binary64)
    requires
        left@.wf(),
        right@.wf(),
        left@.rows == right@.rows,
        right@.cols == 1,
        column < left@.cols,
    ensures
        r == grid::dot(
            grid::over(left@.column(column as int), column_scale),
            grid::over(right@.column(0), right_scale),
        ),
{
    let ghost terms = grid::products(
        grid::over(left@.column(column as int), column_scale),
        grid::over(right@.column(0), right_scale),
    );
    let mut sum = CompensatedSum::default();
    let mut i: usize = 0;
    assert(terms.take(0) =~= Seq::empty());
    while i < left.rows()
        invariant
            i <= left@.rows,
            left@.wf(),
            right@.wf(),
            left@.rows == right@.rows,
            right@.cols == 1,
            column < left@.cols,
            terms == grid::products(
                grid::over(left@.column(column as int), column_scale),
                grid::over(right@.column(0), right_scale),
            ),
            sum == CompensatedSum::of(terms.take(i as int)),
        decreases left@.rows - i,
    {
        let value = (left.get(i, column) / column_scale) * (right.get(i, 0) / right_scale);
        proof {
            let next = terms.take(i + 1);
            assert(next.drop_last() =~= terms.take(i as int));
            assert(next.last() == value);
        }
        sum.add(value);
        i = i + 1;
    }
    assert(terms.take(i as int) =~= terms);
    sum.total()
}

/// Length of a right-hand side over its scale.
fn scaled_length(b: &Matrix, scale: Binary64) -> (r: Binary64)
    requires
        b@.wf(),
        b@.cols == 1,
    ensures
        r == grid::length(grid::over(b@.column(0), scale)),
{
    let ghost values = grid::over(b@.column(0), scale);
    let mut r = Binary64::zero_value();
    let mut i: usize = 0;
    assert(values.take(0) =~= Seq::empty());
    while i < b.rows()
        invariant
            i <= b@.rows,
            b@.wf(),
            b@.cols == 1,
            values == grid::over(b@.column(0), scale),
            r == grid::length(values.take(i as int)),
        decreases b@.rows - i,
    {
        let value = b.get(i, 0) / scale;
        proof {
            let next = values.take(i + 1);
            assert(next.drop_last() =~= values.take(i as int));
            assert(next.last() == value);
        }
        r = r.hypot(value);
        i = i + 1;
    }
    assert(values.take(i as int) =~= values);
    r
}

/// Length of a list of numbers.
fn list_length(values: &Vec<Binary64>) -> (r: Binary64)
    ensures
        r == grid::length(values@),
{
    let mut r = Binary64::zero_value();
    let mut i: usize = 0;
    assert(values@.take(0) =~= Seq::empty());
    while i < values.len()
        invariant
            i <= values.len(),
            r == grid::length(values@.take(i as int)),
        decreases values.len() - i,
    {
        proof {
            let next = values@.take(i + 1);
            assert(next.drop_last() =~= values@.take(i as int));
            assert(next.last() == values@[i as int]);
        }
        r = r.hypot(values[i]);
        i = i + 1;
    }
    assert(values@.take(i as int) =~= values@);
    r
}

/// Greatest of a list of numbers.
fn list_greatest(values: &Vec<Binary64>) -> (r: Binary64)
    ensures
        r == greatest(values@),
{
    let mut r = Binary64::zero_value();
    let mut i: usize = 0;
    assert(values@.take(0) =~= Seq::empty());
    while i < values.len()
        invariant
            i <= values.len(),
            r == greatest(values@.take(i as int)),
        decreases values.len() - i,
    {
        proof {
            let next = values@.take(i + 1);
            assert(next.drop_last() =~= values@.take(i as int));
            assert(next.last() == values@[i as int]);
        }
        r = r.max(values[i]);
        i = i + 1;
    }
    assert(values@.take(i as int) =~= values@);
    r
}

/// Number of the values above a threshold, and the smallest of them.
fn classify(values: &Vec<Binary64>, threshold: Binary64) -> (r: (usize, Binary64))
    ensures
        r.0 == count_above(values@, threshold),
        r.0 <= values@.len(),
        r.1 == least_above(values@, threshold),
{
    let mut rank: usize = 0;
    let mut smallest = Binary64::infinity();
    let mut i: usize = 0;
    assert(values@.take(0) =~= Seq::empty());
    while i < values.len()
        invariant
            rank <= i <= values.len(),
            rank == count_above(values@.take(i as int), threshold),
            smallest == least_above(values@.take(i as int), threshold),
        decreases values.len() - i,
    {
        proof {
            let next = values@.take(i + 1);
            assert(next.drop_last() =~= values@.take(i as int));
            assert(next.last() == values@[i as int]);
        }
        if threshold.less(values[i]) {
            rank = rank + 1;
            smallest = smallest.min(values[i]);
        }
        i = i + 1;
    }
    assert(values@.take(i as int) =~= values@);
    (rank, smallest)
}

/// Project a right-hand side onto the retained directions; false where a
/// projection is not finite.
fn project(
    w: &LeastSquaresWorkspace,
    b: &Matrix,
    Ghost(d): Ghost<Decomposed>,
    tall: bool,
    threshold: Binary64,
    rhs_scale: Binary64,
    projections: &mut Vec<Binary64>,
) -> (r: bool)
    requires
        w.orthogonal_columns@.wf(),
        w.right_vectors@.wf(),
        b@.wf(),
        b@.cols == 1,
        d.columns == w.orthogonal_columns@,
        d.vectors == w.right_vectors@,
        d.singular_values() == w.singular_values@,
        d.tall == tall,
        d.threshold == threshold,
        d.rhs == b@.column(0),
        d.rhs_scale == rhs_scale,
        d.vectors.rows == d.columns.cols,
        d.vectors.cols == d.columns.cols,
        tall ==> b@.rows == d.columns.rows,
        !tall ==> b@.rows == d.columns.cols,
        old(projections)@.len() == d.columns.cols,
    ensures
        final(projections)@.len() == old(projections)@.len(),
        r == grid::all_finite(d.projections()),
        r ==> final(projections)@ == d.projections(),
{
    let count: usize = projections.len();
    let mut c: usize = 0;
    while c < count
        invariant
            c <= count,
            projections@.len() == count == d.columns.cols,
            old(projections)@.len() == count,
            w.orthogonal_columns@.wf(),
            w.right_vectors@.wf(),
            b@.wf(),
            b@.cols == 1,
            d.columns == w.orthogonal_columns@,
            d.vectors == w.right_vectors@,
            d.singular_values() == w.singular_values@,
            d.tall == tall,
            d.threshold == threshold,
            d.rhs == b@.column(0),
            d.rhs_scale == rhs_scale,
            d.vectors.rows == d.columns.cols,
            d.vectors.cols == d.columns.cols,
            tall ==> b@.rows == d.columns.rows,
            !tall ==> b@.rows == d.columns.cols,
            forall|k: int| 0 <= k < c ==> #[trigger] projections@[k] == d.projection(k),
            forall|k: int| 0 <= k < c ==> (#[trigger] d.projections()[k]).finite(),
        decreases count - c,
    {
        let sigma = w.singular_values[c];
        if sigma.at_most(threshold) {
            projections.set(c, Binary64::zero_value());
        } else {
            let value = if tall {
                normalized_column_dot(&w.orthogonal_columns, c, sigma, b, rhs_scale)
            } else {
                normalized_column_dot(&w.right_vectors, c, Binary64::one(), b, rhs_scale)
            };
            assert(value == d.projections()[c as int]);
            if !value.is_finite() {
                return false;
            }
            projections.set(c, value);
        }
        c = c + 1;
    }
    assert(projections@ =~= d.projections());
    true
}

/// One solution coordinate, nothing where a contribution or a partial total is
/// not finite.
#[verifier::rlimit(40)]
fn reconstruct(
    w: &LeastSquaresWorkspace,
    Ghost(d): Ghost<Decomposed>,
    Ghost(relative): Ghost<Binary64>,
    row: usize,
    tall: bool,
    threshold: Binary64,
    coefficient_scale: Binary64,
    rhs_scale: Binary64,
) -> (r: Option<Binary64>)
    requires
        w.orthogonal_columns@.wf(),
        w.right_vectors@.wf(),
        w.projections@ == d.projections(),
        d.columns == w.orthogonal_columns@,
        d.vectors == w.right_vectors@,
        d.singular_values() == w.singular_values@,
        d.tall == tall,
        d.threshold == threshold,
        d.threshold == relative * greatest(d.singular_values()),
        relative.finite(),
        !relative.negative(),
        grid::all_finite(d.singular_values()),
        d.coefficient_scale == coefficient_scale,
        !coefficient_scale.zero(),
        d.rhs_scale == rhs_scale,
        d.vectors.rows == d.columns.cols,
        d.vectors.cols == d.columns.cols,
        row < d.unknowns(),
    ensures
        match d.coordinate(row as int) {
            None => r is None,
            Some(sum) => r == Some(sum.result()) && sum.result().finite(),
        },
{
    let count: usize = w.projections.len();
    let mut sum = CompensatedSum::default();
    let mut c: usize = 0;
    proof {
        lemma_zero_sum();
    }
    while c < count
        invariant
            c <= count,
            count == d.columns.cols,
            w.orthogonal_columns@.wf(),
            w.right_vectors@.wf(),
            w.projections@ == d.projections(),
            d.columns == w.orthogonal_columns@,
            d.vectors == w.right_vectors@,
            d.singular_values() == w.singular_values@,
            d.tall == tall,
            d.threshold == threshold,
            d.threshold == relative * greatest(d.singular_values()),
            relative.finite(),
            !relative.negative(),
            grid::all_finite(d.singular_values()),
            d.coefficient_scale == coefficient_scale,
            !coefficient_scale.zero(),
            d.rhs_scale == rhs_scale,
            d.vectors.rows == d.columns.cols,
            d.vectors.cols == d.columns.cols,
            row < d.unknowns(),
            d.partial(row as int, c as int) == Some(sum),
            sum.result().finite(),
        decreases count - c,
    {
        let sigma = w.singular_values[c];
        if !sigma.at_most(threshold) {
            proof {
                lemma_retained(d, relative, c as int);
            }
            let projection = w.projections[c];
            let contribution = if tall {
                let numerators = [projection, w.right_vectors.get(row, c), rhs_scale];
                let denominators = [sigma, coefficient_scale];
                proof {
                    assert(numerators@ =~= seq![
                        d.projection(c as int),
                        d.vectors.at(row as int, c as int),
                        rhs_scale,
                    ]);
                    assert(denominators@ =~= seq![sigma, coefficient_scale]);
                }
                scaled::product_ratio(numerators, denominators)
            } else {
                let numerators = [projection, w.orthogonal_columns.get(row, c), rhs_scale];
                let denominators = [sigma, sigma, coefficient_scale];
                proof {
                    assert(numerators@ =~= seq![
                        d.projection(c as int),
                        d.columns.at(row as int, c as int),
                        rhs_scale,
                    ]);
                    assert(denominators@ =~= seq![sigma, sigma, coefficient_scale]);
                }
                scaled::product_ratio(numerators, denominators)
            };
            if !contribution.is_finite() {
                proof {
                    lemma_partial_none(d, row as int, c + 1);
                }
                return None;
            }
            sum.add(contribution);
            if !sum.total().is_finite() {
                proof {
                    lemma_partial_none(d, row as int, c + 1);
                }
                return None;
            }
        }
        c = c + 1;
    }
    Some(sum.total())
}

/// An empty sum is finite.
proof fn lemma_zero_sum()
    ensures
        CompensatedSum::empty().result().finite(),
{
    reveal(Binary64::spec_add);
    crate::rounding::lemma_scaled(0, 0);
}

/// A failed coordinate stays failed.
proof fn lemma_partial_none(d: Decomposed, row: int, k: int)
    requires
        0 <= k <= d.columns.cols,
        d.partial(row, k) is None,
    ensures
        d.coordinate(row) is None,
    decreases d.columns.cols - k,
{
    if k < d.columns.cols {
        lemma_partial_none(d, row, k + 1);
    }
}

impl Matrix {
    /// Minimum-norm least-squares solution of a problem with rows and columns,
    /// without the singular directions whose length does not exceed `relative`
    /// times the largest.
    #[verifier::loop_isolation(false)]
    #[verifier::rlimit(40)]
    pub fn solve_least_squares_svd_into(
        a: &Matrix,
        b: &Matrix,
        solution: &mut Matrix,
        w: &mut LeastSquaresWorkspace,
        relative: Binary64,
    ) -> (r: Result<LeastSquaresInfo, MatrixError>)
        requires
            a@.wf(),
            b@.wf(),
            old(solution)@.wf(),
            old(w).wf(),
            a@.rows > 0,
            a@.cols > 0,
            b@.shape() == (a@.rows, 1nat),
            old(solution)@.shape() == (a@.cols, 1nat),
            old(w).shape() == matrix::shape_of(a@),
            relative.finite(),
            !relative.negative(),
        ensures
            final(solution)@.wf(),
            final(solution)@.shape() == old(solution)@.shape(),
            final(w).wf(),
            final(w).shape() == old(w).shape(),
            match least_squares_with(a@, b@, relative) {
                Err(error) => r == Err::<LeastSquaresInfo, MatrixError>(error),
                Ok((cells, info)) => r == Ok::<LeastSquaresInfo, MatrixError>(info)
                    && final(solution)@.cells == cells,
            },
    {
        let tall: bool = a.rows() >= a.cols();
        let largest = a.largest_magnitude();
        let coefficient_scale = if largest.magnitude_bits() == 0 {
            Binary64::one()
        } else {
            largest
        };
        let rhs_largest = b.largest_magnitude();
        let rhs_scale = if rhs_largest.magnitude_bits() == 0 {
            Binary64::one()
        } else {
            rhs_largest
        };
        let ghost input = factor_input(a@, coefficient_scale);
        load_factor(a, coefficient_scale, &mut w.orthogonal_columns);
        match one_sided_jacobi_svd_columns(
            &mut w.orthogonal_columns,
            &mut w.right_vectors,
            &mut w.singular_values,
            relative,
        ) {
            Err(error) => {
                return Err(error);
            },
            Ok(_) => {},
        }
        let max_singular_value = list_greatest(&w.singular_values);
        let threshold = relative * max_singular_value;
        let (rank, smallest) = classify(&w.singular_values, threshold);
        let cond_est = if rank == 0 {
            Binary64::infinity()
        } else {
            max_singular_value / smallest
        };
        let ghost d = Decomposed {
            tall,
            columns: w.orthogonal_columns@,
            vectors: w.right_vectors@,
            threshold,
            coefficient_scale,
            rhs: b@.column(0),
            rhs_scale,
        };
        proof {
            assert(decomposed(a@, b@, relative) == Ok::<Decomposed, MatrixError>(d));
        }
        let mut projections: Vec<Binary64> = Vec::new();
        std::mem::swap(&mut projections, &mut w.projections);
        let projected: bool = project(w, b, Ghost(d), tall, threshold, rhs_scale, &mut projections);
        std::mem::swap(&mut projections, &mut w.projections);
        if !projected {
            return Err(MatrixError::NonFiniteResult { operation: "solve_least_squares" });
        }
        let rhs_length = scaled_length(b, rhs_scale);
        let retained_length = list_length(&w.projections);
        let (fraction, slope) = if rhs_length.magnitude_bits() == 0 {
            (Binary64::zero_value(), Binary64::zero_value().neg())
        } else {
            let rounded = retained_length / rhs_length;
            let fraction = if Binary64::zero_value().less(retained_length) && rounded.magnitude_bits()
                == 0 {
                Binary64::from_bits(1)
            } else {
                rounded.min(Binary64::one())
            };
            let numerators = [rhs_scale, retained_length, retained_length];
            let denominators = [rhs_length];
            proof {
                assert(numerators@ =~= seq![rhs_scale, retained_length, retained_length]);
                assert(denominators@ =~= seq![rhs_length]);
            }
            (fraction, scaled::product_ratio(numerators, denominators).neg())
        };
        let cols: usize = a.cols();
        let mut row: usize = 0;
        proof {
            assert(solution@.cells.len() == cols) by (nonlinear_arith)
                requires
                    solution@.cells.len() == solution@.rows * solution@.cols,
                    solution@.rows == cols,
                    solution@.cols == 1,
            ;
        }
        while row < cols
            invariant
                row <= cols,
                solution@.wf(),
                solution@.cells.len() == cols,
                solution@.shape() == (a@.cols, 1nat),
                forall|k: int| 0 <= k < row ==> (#[trigger] d.coordinate(k)) is Some,
                forall|k: int|
                    0 <= k < row ==> #[trigger] solution@.cells[k] == d.coordinate(k)->0.result(),
            decreases cols - row,
        {
            match reconstruct(
                w,
                Ghost(d),
                Ghost(relative),
                row,
                tall,
                threshold,
                coefficient_scale,
                rhs_scale,
            ) {
                None => {
                    return Err(MatrixError::NonFiniteResult { operation: "solve_least_squares" });
                },
                Some(value) => {
                    proof {
                        assert(row * solution@.cols + 0 == row) by (nonlinear_arith)
                            requires
                                solution@.cols == 1,
                        ;
                    }
                    solution.set(row, 0, value);
                },
            }
            row = row + 1;
        }
        assert(solution@.cells =~= d.solution());
        Ok(
            LeastSquaresInfo {
                rank,
                cond_est,
                retained_rhs_projection_fraction: fraction,
                residual_norm_slope: slope,
            },
        )
    }

    /// Minimum-norm least-squares solution into a caller's buffer.
    ///
    /// The buffer is written only once shapes and operands have been accepted;
    /// after a numerical error its cells are scratch.
    pub fn solve_least_squares_into(
        &self,
        b: &Matrix,
        solution: &mut Matrix,
        workspace: &mut LeastSquaresWorkspace,
    ) -> (r: Result<LeastSquaresInfo, MatrixError>)
        requires
            self@.wf(),
            b@.wf(),
            old(solution)@.wf(),
            old(workspace).wf(),
        ensures
            final(solution)@.wf(),
            final(solution)@.shape() == old(solution)@.shape(),
            final(workspace).wf(),
            final(workspace).shape() == old(workspace).shape(),
            match least_squares_refusal(self@, b@, old(solution)@, old(workspace).shape()) {
                Some(error) => r == Err::<LeastSquaresInfo, MatrixError>(error)
                    && final(solution)@ == old(solution)@,
                None => match least_squares(self@, b@) {
                    Err(error) => r == Err::<LeastSquaresInfo, MatrixError>(error),
                    Ok((cells, info)) => r == Ok::<LeastSquaresInfo, MatrixError>(info)
                        && final(solution)@.cells == cells,
                },
            },
    {
        let operation: &'static str = "solve_least_squares";
        if b.cols() != 1 {
            return Err(
                MatrixError::DimensionMismatch {
                    operation,
                    left: (self.rows(), 1),
                    right: (b.rows(), b.cols()),
                },
            );
        }
        match Matrix::require_output_shape(solution, (self.cols(), 1), operation) {
            Err(error) => {
                return Err(error);
            },
            Ok(_) => {},
        }
        if workspace.rows != self.rows() || workspace.cols != self.cols() {
            return Err(
                MatrixError::WorkspaceShapeMismatch {
                    operation,
                    expected: (self.rows(), self.cols()),
                    actual: (workspace.rows, workspace.cols),
                },
            );
        }
        if b.rows() != self.rows() {
            return Err(
                MatrixError::DimensionMismatch {
                    operation,
                    left: (self.rows(), 1),
                    right: (b.rows(), b.cols()),
                },
            );
        }
        if !self.all_finite() {
            return Err(
                MatrixError::NonFiniteInput {
                    operation,
                    operand: MatrixOperand::CoefficientMatrix,
                },
            );
        }
        if !b.all_finite() {
            return Err(
                MatrixError::NonFiniteInput { operation, operand: MatrixOperand::RightHandSide },
            );
        }
        if self.rows() == 0 || self.cols() == 0 {
            solution.clear();
            return Ok(
                LeastSquaresInfo {
                    rank: 0,
                    cond_est: Binary64::infinity(),
                    retained_rhs_projection_fraction: Binary64::zero_value(),
                    residual_norm_slope: Binary64::zero_value().neg(),
                },
            );
        }
        let larger: usize = if self.rows() >= self.cols() {
            self.rows()
        } else {
            self.cols()
        };
        let relative = Binary64::epsilon() * Binary64::from_count(larger);
        proof {
            lemma_relative(self@.rows, self@.cols);
        }
        Self::solve_least_squares_svd_into(self, b, solution, workspace, relative)
    }
}

proof fn lemma_partial_finite(d: Decomposed, row: int, end: int)
    requires
        d.partial(row, end) is Some,
    ensures
        d.partial(row, end)->0.result().finite(),
    decreases end,
{
    if end <= 0 {
        lemma_zero_sum();
    } else {
        lemma_partial_finite(d, row, end - 1);
    }
}

/// A least-squares solution is finite, and has one coordinate for each column.
pub proof fn law_solution_finite(a: Grid, b: Grid)
    requires
        least_squares(a, b) is Ok,
    ensures
        grid::all_finite(least_squares(a, b)->Ok_0.0),
        least_squares(a, b)->Ok_0.0.len() == a.cols,
{
    let cells = least_squares(a, b)->Ok_0.0;
    if a.rows == 0 || a.cols == 0 {
        assert(a.cols * 1 == a.cols) by (nonlinear_arith);
    } else {
        let d = decomposed(a, b, relative_tolerance(a.rows, a.cols))->Ok_0;
        assert forall|k: int| 0 <= k < cells.len() implies (#[trigger] cells[k]).finite() by {
            assert(d.coordinate(k) is Some);
            lemma_partial_finite(d, k, d.columns.cols as int);
        }
        lemma_decomposition_shape(
            factor_input(a, d.coefficient_scale),
            relative_tolerance(a.rows, a.cols),
        );
    }
}

/// Rotations keep the shape.
proof fn lemma_column_shape(f: Factors, left: int, end: int, threshold: Binary64)
    ensures
        swept_column(f, left, end, threshold) matches Ok(g) ==> g.columns.shape()
            == f.columns.shape() && g.vectors.shape() == f.vectors.shape(),
    decreases end,
{
    if !(end <= left + 1 || end <= 0) {
        lemma_column_shape(f, left, end - 1, threshold);
    }
}

proof fn lemma_sweep_shape(f: Factors, end: int, cols: int, threshold: Binary64)
    ensures
        swept(f, end, cols, threshold) matches Ok(g) ==> g.columns.shape() == f.columns.shape()
            && g.vectors.shape() == f.vectors.shape(),
    decreases end,
{
    if end > 0 {
        lemma_sweep_shape(f, end - 1, cols, threshold);
        if let Ok(g) = swept(f, end - 1, cols, threshold) {
            lemma_column_shape(g, end - 1, cols, threshold);
        }
    }
}

pub(crate) proof fn lemma_progress_shape(columns: Grid, relative: Binary64, sweeps: nat)
    ensures
        match progress(columns, relative, sweeps) {
            Progress::Running(a, v) => a.shape() == columns.shape() && v.shape() == (
                columns.cols,
                columns.cols,
            ),
            Progress::Converged(a, v) => a.shape() == columns.shape() && v.shape() == (
                columns.cols,
                columns.cols,
            ),
            Progress::Failed(_) => true,
        },
    decreases sweeps,
{
    if sweeps > 0 {
        lemma_progress_shape(columns, relative, (sweeps - 1) as nat);
        if let Progress::Running(a, v) = progress(columns, relative, (sweeps - 1) as nat) {
            lemma_sweep_shape(
                Factors { columns: a, vectors: v, rotated: false },
                a.cols as int,
                a.cols as int,
                relative * greatest(column_lengths(a)),
            );
        }
    }
}

/// A decomposition keeps the shape of the matrix.
pub(crate) proof fn lemma_decomposition_shape(columns: Grid, relative: Binary64)
    ensures
        decomposition(columns, relative) matches Ok((a, _)) ==> a.shape() == columns.shape(),
{
    lemma_progress_shape(columns, relative, sweep_limit(columns.cols));
}

/// A length carries no negative sign, and is a number where all terms are
/// finite.
pub(crate) proof fn lemma_length_number(values: Seq<Binary64>)
    ensures
        !grid::length(values).negative(),
        grid::all_finite(values) ==> !grid::length(values).nan(),
    decreases values.len(),
{
    if values.len() > 0 {
        reveal(Binary64::hypotenuse);
        let head = values.drop_last();
        lemma_length_number(head);
        if grid::all_finite(values) {
            assert forall|k: int| 0 <= k < head.len() implies (#[trigger] head[k]).finite() by {
                assert(head[k] == values[k]);
            }
            assert(values[values.len() - 1].finite());
        }
        let x = rounding::scaled(grid::length(head).pattern());
        let y = rounding::scaled(values.last().pattern());
        rounding::lemma_root_exists(x * x + y * y);
    }
}

pub(crate) proof fn lemma_largest_sign(values: Seq<Binary64>)
    ensures
        !grid::largest(values).negative(),
    decreases values.len(),
{
    if values.len() > 0 {
        lemma_largest_sign(values.drop_last());
    }
}

pub(crate) proof fn lemma_count_above(values: Seq<Binary64>, threshold: Binary64)
    ensures
        count_above(values, threshold) <= values.len(),
    decreases values.len(),
{
    if values.len() > 0 {
        lemma_count_above(values.drop_last(), threshold);
    }
}

} // verus!
