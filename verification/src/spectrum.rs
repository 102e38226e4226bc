//! What the diagnostics of a least-squares solution can be.
use crate::alignment;
use crate::binary64;
use crate::binary64::{Binary64, EPSILON, ONE};
use crate::grid;
use crate::grid::Grid;
use crate::least_squares;
use crate::least_squares::Decomposed;
use crate::rounding;
use crate::rounding::{HIDDEN, INFINITY};
use crate::scaled;
use crate::scaled::{CompensatedSum, ScaledValue};
use vstd::arithmetic::power2::*;
use vstd::prelude::*;

verus! {

impl Decomposed {
    /// The captured fraction lies from zero to one. For a right-hand side of
    /// numbers it is zero exactly where that side is zero or no part of it is
    /// captured.
    pub proof fn law_fraction(self)
        requires
            self.solvable(),
        ensures
            Binary64::zero_value() <= self.fraction(),
            self.fraction() <= Binary64::one(),
            !self.rhs_length().nan() ==> (self.fraction().zero() <==> self.rhs_length().zero()
                || self.retained_length().zero()),
    {
        reveal(Binary64::spec_euclidean_or_real_div);
        let kept = self.retained_length();
        let whole = self.rhs_length();
        least_squares::lemma_length_number(self.projections());
        least_squares::lemma_length_number(grid::over(self.rhs, self.rhs_scale));
        if kept.finite() && whole.finite() && !whole.zero() {
            let x = rounding::scaled(kept.pattern()) * pow2(1074);
            let y = rounding::scaled(whole.pattern());
            rounding::lemma_scaled_increases(0, whole.pattern());
            rounding::lemma_scaled(0, 0);
            rounding::lemma_ratio_exists(x, y);
            if kept.zero() {
                assert(0 * pow2(1074) == 0) by (nonlinear_arith);
                rounding::lemma_ratio_between(0, y, 0, 0);
            }
        }
    }

    /// The slope along the solution is never positive.
    pub proof fn law_slope(self)
        requires
            !self.rhs_scale.negative(),
        ensures
            self.slope() <= Binary64::zero_value(),
    {
        let kept = self.retained_length();
        let whole = self.rhs_length();
        least_squares::lemma_length_number(self.projections());
        least_squares::lemma_length_number(grid::over(self.rhs, self.rhs_scale));
        if !whole.zero() {
            let n = seq![self.rhs_scale, kept, kept];
            let d = seq![whole];
            reveal_with_fuel(ScaledValue::odd_signs, 4);
            assert(n.drop_last() =~= seq![self.rhs_scale, kept]);
            assert(n.drop_last().drop_last() =~= seq![self.rhs_scale]);
            assert(n.drop_last().drop_last().drop_last() =~= Seq::empty());
            assert(d.drop_last() =~= Seq::empty());
            scaled::law_ratio_sign(n, d);
        }
    }
}

/// No number exceeds the greatest.
proof fn lemma_none_greater(values: Seq<Binary64>, k: int)
    requires
        0 <= k < values.len(),
        forall|i: int|
            0 <= i < values.len() ==> (#[trigger] values[i]).finite() && !values[i].negative(),
    ensures
        values[k].pattern() <= least_squares::greatest(values).pattern(),
    decreases values.len(),
{
    let head = values.drop_last();
    assert forall|i: int| 0 <= i < head.len() implies (#[trigger] head[i]).finite()
        && !head[i].negative() by {
        assert(head[i] == values[i]);
    }
    least_squares::lemma_greatest(head);
    assert(values[values.len() - 1].finite());
    if k < head.len() {
        lemma_none_greater(head, k);
        assert(head[k] == values[k]);
    }
}

/// The smallest of the numbers above a threshold is one of them.
proof fn lemma_least_above(values: Seq<Binary64>, threshold: Binary64) -> (k: int)
    requires
        forall|i: int|
            0 <= i < values.len() ==> (#[trigger] values[i]).finite() && !values[i].negative(),
    ensures
        least_squares::count_above(values, threshold) == 0 ==> least_squares::least_above(
            values,
            threshold,
        ) == Binary64::infinity(),
        least_squares::count_above(values, threshold) > 0 ==> 0 <= k < values.len() && values[k]
            > threshold && least_squares::least_above(values, threshold) == values[k],
    decreases values.len(),
{
    if values.len() == 0 {
        0
    } else {
        let head = values.drop_last();
        assert forall|i: int| 0 <= i < head.len() implies (#[trigger] head[i]).finite()
            && !head[i].negative() by {
            assert(head[i] == values[i]);
        }
        let k = lemma_least_above(head, threshold);
        assert(values[values.len() - 1].finite());
        if values.last() > threshold && (least_squares::count_above(head, threshold) == 0
            || values.last() < least_squares::least_above(head, threshold)) {
            values.len() - 1
        } else {
            k
        }
    }
}

/// The lengths of a decomposition are finite and carry no negative sign.
proof fn lemma_spectrum(a: Grid, b: Grid, relative: Binary64)
    requires
        least_squares::decomposed(a, b, relative) is Ok,
    ensures
        ({
            let d = least_squares::decomposed(a, b, relative)->Ok_0;
            &&& d.columns.finite()
            &&& d.vectors.finite()
            &&& forall|k: int|
                0 <= k < d.singular_values().len() ==> (
                #[trigger] d.singular_values()[k]).finite() && !d.singular_values()[k].negative()
        }),
{
    let d = least_squares::decomposed(a, b, relative)->Ok_0;
    let values = d.singular_values();
    assert forall|k: int| 0 <= k < values.len() implies (#[trigger] values[k]).finite()
        && !values[k].negative() by {
        assert(grid::all_finite(values));
        least_squares::lemma_length_number(d.columns.column(k));
    }
}

/// The quotient of a number and a smaller one that is not negligible beside it
/// is finite and at least one.
proof fn lemma_condition(g: Binary64, l: Binary64, relative: Binary64)
    requires
        g.finite() && !g.negative(),
        l.finite() && !l.negative(),
        relative.finite() && !relative.negative(),
        EPSILON <= relative.pattern(),
        l.pattern() <= g.pattern(),
        l > relative * g,
    ensures
        (g / l).finite(),
        Binary64::one() <= g / l,
{
    reveal(Binary64::spec_mul);
    reveal(Binary64::spec_euclidean_or_real_div);
    let t = pow2(1074) as int;
    let gs = rounding::scaled(g.pattern());
    let ls = rounding::scaled(l.pattern());
    let rs = rounding::scaled(relative.pattern());
    lemma_pow2_pos(1074);
    rounding::lemma_ratio_exists(rs * gs, t);
    Binary64::lemma_scaled_sign(g.pattern());
    Binary64::lemma_scaled_sign(l.pattern());
    Binary64::lemma_one_scaled();
    if l.pattern() < g.pattern() {
        rounding::lemma_scaled_increases(l.pattern(), g.pattern());
    }
    // Not below one.
    assert(t * ls <= gs * t) by (nonlinear_arith)
        requires
            ls <= gs,
            t > 0,
    ;
    lemma2_to64();
    lemma2_to64_rest();
    lemma_pow2_adds(52, 1022);
    lemma_pow2_pos(52);
    lemma_pow2_pos(1022);
    let half = pow2(52) as int;
    if g.pattern() < 200 * HIDDEN {
        // Even the smallest positive number leaves a finite quotient.
        let top = 1300 * HIDDEN;
        rounding::lemma_scaled_increases(g.pattern(), 200 * HIDDEN);
        rounding::lemma_scaled(199, HIDDEN as int);
        rounding::lemma_scaled(1299, HIDDEN as int);
        lemma_pow2_adds(52, 199);
        lemma_pow2_adds(52, 1299);
        lemma_pow2_adds(251, 1074);
        rounding::lemma_pow2_le(1325, 1351);
        let most = pow2(251) as int;
        let high = rounding::scaled(top as int);
        assert(gs * t <= high * ls) by (nonlinear_arith)
            requires
                0 <= gs <= most,
                most * t <= high,
                ls >= 1,
                t > 0,
        {
            assert(gs * t <= most * t);
            assert(high * 1 <= high * ls);
        }
        rounding::lemma_ratio_between(gs * t, ls, ONE as int, top as int);
    } else {
        // The threshold is at least the greatest over two to the power of 52.
        let lower = g.pattern() - 52 * HIDDEN;
        let (e, q) = rounding::lemma_split(g.pattern());
        assert(e >= 199);
        rounding::lemma_scaled((e - 52) as nat, q);
        assert(lower == (e - 52) * HIDDEN + q);
        lemma_pow2_adds(52, (e - 52) as nat);
        let part = rounding::scaled(lower);
        let pe = pow2((e - 52) as nat) as int;
        assert(part * half == gs) by (nonlinear_arith)
            requires
                part == q * pe,
                gs == q * (half * pe),
        ;
        rounding::lemma_scaled(970, HIDDEN as int);
        lemma_pow2_adds(52, 970);
        assert(EPSILON == 970 * HIDDEN + HIDDEN);
        if EPSILON < relative.pattern() {
            rounding::lemma_scaled_increases(EPSILON as int, relative.pattern());
        }
        let unit = pow2(1022) as int;
        assert(part * t <= rs * gs) by (nonlinear_arith)
            requires
                part * half == gs,
                t == half * unit,
                unit <= rs,
                gs >= 0,
        {
            assert(part * t == gs * unit) by (nonlinear_arith)
                requires
                    part * half == gs,
                    t == half * unit,
            ;
            assert(gs * unit <= gs * rs) by (nonlinear_arith)
                requires
                    unit <= rs,
                    gs >= 0,
            ;
        }
        rounding::lemma_ratio_between(rs * gs, t, lower, INFINITY as int);
        assert(l.pattern() > lower);
        rounding::lemma_scaled_increases(lower, l.pattern());
        let top = 1075 * HIDDEN;
        rounding::lemma_scaled(1074, HIDDEN as int);
        lemma_pow2_adds(52, 1074);
        let high = rounding::scaled(top as int);
        assert(gs * t <= high * ls) by (nonlinear_arith)
            requires
                part * half == gs,
                high == half * t,
                part <= ls,
                half > 0,
                t > 0,
        {
            assert(gs * t == part * (half * t)) by (nonlinear_arith)
                requires
                    part * half == gs,
            ;
            assert(part * high <= ls * high) by (nonlinear_arith)
                requires
                    part <= ls,
                    high == half * t,
                    half > 0,
                    t > 0,
            {
                assert(half * t > 0);
            }
        }
        rounding::lemma_ratio_between(gs * t, ls, ONE as int, top as int);
    }
}

/// The relative threshold of a shape with rows or columns is at least the
/// distance from one to the next number.
proof fn lemma_relative_large(rows: nat, cols: nat)
    requires
        0 < rows <= usize::MAX,
        cols <= usize::MAX,
    ensures
        EPSILON <= least_squares::relative_tolerance(rows, cols).pattern(),
{
    reveal(Binary64::counting);
    let count = if rows >= cols {
        rows as int
    } else {
        cols as int
    };
    let t = pow2(1074) as int;
    lemma_pow2_pos(1074);
    Binary64::lemma_one_scaled();
    Binary64::lemma_counting_small(count);
    assert(t * 1 <= count * t) by (nonlinear_arith)
        requires
            count >= 1,
            t > 0,
    ;
    rounding::lemma_ratio_between(count * t, 1, ONE as int, INFINITY as int);
    Binary64::lemma_times_large(Binary64::epsilon(), Binary64::counting(count));
}

/// The rank exceeds neither dimension. The condition estimate is infinite where
/// the rank is zero, and otherwise finite and at least one. The captured
/// fraction lies from zero to one, and the slope is never positive.
pub proof fn law_diagnostics(a: Grid, b: Grid)
    requires
        least_squares::least_squares(a, b) is Ok,
        a.rows <= usize::MAX,
        a.cols <= usize::MAX,
    ensures
        ({
            let info = least_squares::least_squares(a, b)->Ok_0.1;
            &&& info.rank <= a.rows
            &&& info.rank <= a.cols
            &&& info.rank == 0 ==> info.cond_est == Binary64::infinity()
            &&& info.rank > 0 ==> info.cond_est.finite() && Binary64::one() <= info.cond_est
            &&& Binary64::zero_value() <= info.retained_rhs_projection_fraction
            &&& info.retained_rhs_projection_fraction <= Binary64::one()
            &&& info.residual_norm_slope <= Binary64::zero_value()
        }),
{
    if a.rows == 0 || a.cols == 0 {
    } else {
        let relative = least_squares::relative_tolerance(a.rows, a.cols);
        let d = least_squares::decomposed(a, b, relative)->Ok_0;
        let values = d.singular_values();
        least_squares::lemma_decomposition_shape(
            least_squares::factor_input(a, d.coefficient_scale),
            relative,
        );
        least_squares::lemma_count_above(values, d.threshold);
        least_squares::lemma_largest_sign(b.cells);
        lemma_spectrum(a, b, relative);
        least_squares::lemma_relative(a.rows, a.cols);
        lemma_relative_large(a.rows, a.cols);
        if least_squares::count_above(values, d.threshold) > 0 {
            let k = lemma_least_above(values, d.threshold);
            lemma_none_greater(values, k);
            least_squares::lemma_greatest(values);
            lemma_condition(least_squares::greatest(values), values[k], relative);
        }
        d.law_fraction();
        d.law_slope();
    }
}

/// A sum of zeros is zero.
proof fn lemma_zero_terms(terms: Seq<Binary64>)
    requires
        forall|k: int| 0 <= k < terms.len() ==> (#[trigger] terms[k]).zero() || terms[k].nan(),
    ensures
        CompensatedSum::of(terms).sum.zero() || CompensatedSum::of(terms).sum.nan(),
        CompensatedSum::of(terms).correction.zero() || CompensatedSum::of(terms).correction.nan(),
        CompensatedSum::of(terms).result().zero() || CompensatedSum::of(terms).result().nan(),
    decreases terms.len(),
{
    reveal(Binary64::spec_add);
    Binary64::lemma_scaled_sign(0);
    if terms.len() > 0 {
        let head = terms.drop_last();
        assert forall|k: int| 0 <= k < head.len() implies (#[trigger] head[k]).zero()
            || head[k].nan() by {
            assert(head[k] == terms[k]);
        }
        lemma_zero_terms(head);
        assert(terms[terms.len() - 1].zero() || terms[terms.len() - 1].nan());
    }
}

/// A dot product with zeros is zero, where it is a number.
proof fn lemma_zero_dot(a: Seq<Binary64>, b: Seq<Binary64>)
    requires
        a.len() == b.len(),
        forall|k: int| 0 <= k < b.len() ==> (#[trigger] b[k]).zero(),
    ensures
        grid::dot(a, b).zero() || grid::dot(a, b).nan(),
{
    let terms = grid::products(a, b);
    assert forall|k: int| 0 <= k < terms.len() implies (#[trigger] terms[k]).zero()
        || terms[k].nan() by {
        assert(b[k].zero());
        Binary64::lemma_zero_product(a[k], b[k]);
    }
    lemma_zero_terms(terms);
}

/// A length of zeros is zero.
proof fn lemma_zero_length(values: Seq<Binary64>)
    requires
        forall|k: int| 0 <= k < values.len() ==> (#[trigger] values[k]).zero(),
    ensures
        grid::length(values).zero(),
    decreases values.len(),
{
    if values.len() > 0 {
        let head = values.drop_last();
        assert forall|k: int| 0 <= k < head.len() implies (#[trigger] head[k]).zero() by {
            assert(head[k] == values[k]);
        }
        lemma_zero_length(head);
        assert(values[values.len() - 1].zero());
        reveal(Binary64::hypotenuse);
        Binary64::lemma_scaled_sign(0);
        assert(0int * 0int + 0int * 0int == 0) by (nonlinear_arith);
        binary64::lemma_root_zero();
    }
}

impl Decomposed {
    /// No part of the right-hand side is captured.
    pub open spec fn uncaptured(self) -> bool {
        forall|c: int| 0 <= c < self.columns.cols ==> (#[trigger] self.projection(c)).zero()
    }

    proof fn lemma_uncaptured_partial(self, row: int, end: int)
        requires
            self.uncaptured(),
            0 <= end <= self.columns.cols,
            self.partial(row, end) is Some,
        ensures
            self.partial(row, end)->0.sum.zero(),
            self.partial(row, end)->0.correction.zero(),
            self.partial(row, end)->0.result().zero(),
        decreases end,
    {
        reveal(Binary64::spec_add);
        Binary64::lemma_scaled_sign(0);
        if end > 0 {
            self.lemma_uncaptured_partial(row, end - 1);
            assert(self.projection(end - 1).zero());
            if self.retained(end - 1) {
                let term = self.contribution(row, end - 1);
                assert(term.zero()) by {
                    let tall = seq![
                        self.projection(end - 1),
                        self.vectors.at(row, end - 1),
                        self.rhs_scale,
                    ];
                    let wide = seq![
                        self.projection(end - 1),
                        self.columns.at(row, end - 1),
                        self.rhs_scale,
                    ];
                    assert(tall[0].zero() && wide[0].zero());
                }
            }
        }
    }

    /// Where no part of the right-hand side is captured, the solution is zero,
    /// and so are the captured fraction and the slope.
    proof fn lemma_uncaptured(self)
        requires
            self.solvable(),
            self.uncaptured(),
        ensures
            forall|k: int|
                0 <= k < self.solution().len() ==> (#[trigger] self.solution()[k]).zero(),
            self.fraction().zero() || self.rhs_length().nan(),
            self.slope().zero(),
    {
        assert forall|k: int| 0 <= k < self.solution().len() implies (
        #[trigger] self.solution()[k]).zero() by {
            assert(self.coordinate(k) is Some);
            self.lemma_uncaptured_partial(k, self.columns.cols as int);
        }
        let projections = self.projections();
        assert forall|c: int| 0 <= c < projections.len() implies (
        #[trigger] projections[c]).zero() by {
            assert(self.projection(c).zero());
        }
        lemma_zero_length(projections);
        self.law_fraction();
        let n = seq![self.rhs_scale, self.retained_length(), self.retained_length()];
        assert(n[1].zero());
    }
}

/// A right-hand side of zeros gives zeros: the solution, the captured fraction
/// and the slope.
pub proof fn law_zero_rhs(a: Grid, b: Grid)
    requires
        least_squares::least_squares(a, b) is Ok,
        b.wf(),
        b.cols == 1,
        b.rows == a.rows,
        forall|k: int| 0 <= k < b.cells.len() ==> (#[trigger] b.cells[k]).zero(),
    ensures
        ({
            let (solution, info) = least_squares::least_squares(a, b)->Ok_0;
            &&& forall|k: int| 0 <= k < solution.len() ==> (#[trigger] solution[k]).zero()
            &&& info.retained_rhs_projection_fraction.zero()
            &&& info.residual_norm_slope.zero()
        }),
{
    if a.rows == 0 || a.cols == 0 {
    } else {
        let relative = least_squares::relative_tolerance(a.rows, a.cols);
        let d = least_squares::decomposed(a, b, relative)->Ok_0;
        least_squares::lemma_decomposition_shape(
            least_squares::factor_input(a, d.coefficient_scale),
            relative,
        );
        lemma_vectors_shape(a, b, relative);
        lemma_largest_zero(b.cells);
        let rhs = grid::over(d.rhs, d.rhs_scale);
        assert forall|k: int| 0 <= k < rhs.len() implies (#[trigger] rhs[k]).zero() by {
            assert(k * b.cols + 0 == k) by (nonlinear_arith)
                requires
                    b.cols == 1,
            ;
            assert(b.cells.len() == b.rows) by (nonlinear_arith)
                requires
                    b.cells.len() == b.rows * b.cols,
                    b.cols == 1,
            ;
            assert(b.cells[k].zero());
            Binary64::law_over_one(d.rhs[k]);
        }
        lemma_zero_length(rhs);
        assert forall|c: int| 0 <= c < d.columns.cols implies (
        #[trigger] d.projection(c)).zero() by {
            assert(d.projections()[c].finite());
            if d.retained(c) {
                if d.tall {
                    lemma_zero_dot(grid::over(d.columns.column(c), d.singular_values()[c]), rhs);
                } else {
                    lemma_zero_dot(grid::over(d.vectors.column(c), Binary64::one()), rhs);
                }
            }
        }
        d.lemma_uncaptured();
    }
}

/// A matrix of rank zero gives zeros: the solution, the captured fraction and
/// the slope.
pub proof fn law_rank_zero(a: Grid, b: Grid)
    requires
        least_squares::least_squares(a, b) is Ok,
        least_squares::least_squares(a, b)->Ok_0.1.rank == 0,
        b.finite(),
        b.wf(),
        b.cols == 1,
        b.rows == a.rows,
        a.rows <= usize::MAX,
        a.cols <= usize::MAX,
    ensures
        ({
            let (solution, info) = least_squares::least_squares(a, b)->Ok_0;
            &&& forall|k: int| 0 <= k < solution.len() ==> (#[trigger] solution[k]).zero()
            &&& info.retained_rhs_projection_fraction.zero()
            &&& info.residual_norm_slope.zero()
        }),
{
    if a.rows == 0 || a.cols == 0 {
    } else {
        let relative = least_squares::relative_tolerance(a.rows, a.cols);
        let d = least_squares::decomposed(a, b, relative)->Ok_0;
        let values = d.singular_values();
        least_squares::lemma_decomposition_shape(
            least_squares::factor_input(a, d.coefficient_scale),
            relative,
        );
        least_squares::lemma_count_above(values, d.threshold);
        lemma_spectrum(a, b, relative);
        least_squares::lemma_greatest(values);
        least_squares::lemma_relative(a.rows, a.cols);
        lemma_threshold_number(relative, least_squares::greatest(values));
        assert forall|c: int| 0 <= c < d.columns.cols implies (
        #[trigger] d.projection(c)).zero() by {
            lemma_none_above(values, d.threshold, c);
        }
        d.lemma_uncaptured();
        lemma_unit_rhs(b, d.rhs_scale);
        least_squares::lemma_length_number(grid::over(d.rhs, d.rhs_scale));
    }
}

/// The product of numbers without a negative sign is a number.
proof fn lemma_threshold_number(a: Binary64, b: Binary64)
    requires
        a.finite() && b.finite(),
    ensures
        !(a * b).nan(),
{
    Binary64::law_product_sign(a, b);
}

/// Where none is counted, none exceeds the threshold.
proof fn lemma_none_above(values: Seq<Binary64>, threshold: Binary64, k: int)
    requires
        0 <= k < values.len(),
        least_squares::count_above(values, threshold) == 0,
    ensures
        !(values[k] > threshold),
    decreases values.len(),
{
    if k < values.len() - 1 {
        lemma_none_above(values.drop_last(), threshold, k);
        assert(values.drop_last()[k] == values[k]);
    }
}

/// Zeros have no largest magnitude above zero.
proof fn lemma_largest_zero(values: Seq<Binary64>)
    requires
        forall|k: int| 0 <= k < values.len() ==> (#[trigger] values[k]).zero(),
    ensures
        grid::largest(values).zero(),
    decreases values.len(),
{
    if values.len() > 0 {
        let head = values.drop_last();
        assert forall|k: int| 0 <= k < head.len() implies (#[trigger] head[k]).zero() by {
            assert(head[k] == values[k]);
        }
        lemma_largest_zero(head);
        assert(values[values.len() - 1].zero());
    }
}

/// Finite numbers over their largest magnitude are finite.
proof fn lemma_unit_rhs(b: Grid, scale: Binary64)
    requires
        b.finite(),
        b.wf(),
        b.cols == 1,
        scale == least_squares::divisor(grid::largest(b.cells)),
    ensures
        grid::all_finite(grid::over(b.column(0), scale)),
{
    let values = grid::over(b.column(0), scale);
    alignment::lemma_largest(b.cells);
    assert forall|k: int| 0 <= k < values.len() implies (#[trigger] values[k]).finite() by {
        assert(k * b.cols + 0 == k) by (nonlinear_arith)
            requires
                b.cols == 1,
        ;
        assert(b.cells.len() == b.rows) by (nonlinear_arith)
            requires
                b.cells.len() == b.rows * b.cols,
                b.cols == 1,
        ;
        let x = b.cells[k];
        assert(x.finite());
        if scale == Binary64::one() && grid::largest(b.cells).zero() {
            Binary64::law_over_one(x);
        } else {
            lemma_over_larger_finite(x, scale);
        }
    }
}

proof fn lemma_over_larger_finite(x: Binary64, scale: Binary64)
    requires
        x.finite(),
        scale.finite(),
        !scale.zero(),
        x.pattern() <= scale.pattern(),
    ensures
        (x / scale).finite(),
{
    reveal(Binary64::spec_euclidean_or_real_div);
    let t = pow2(1074) as int;
    lemma_pow2_pos(1074);
    Binary64::lemma_one_scaled();
    Binary64::lemma_scaled_sign(x.pattern());
    Binary64::lemma_scaled_sign(scale.pattern());
    Binary64::lemma_scaled_sign(0);
    let a = rounding::scaled(x.pattern());
    let b = rounding::scaled(scale.pattern());
    if x.pattern() < scale.pattern() {
        rounding::lemma_scaled_increases(x.pattern(), scale.pattern());
    }
    assert(0 * b <= a * t && a * t <= t * b) by (nonlinear_arith)
        requires
            0 <= a <= b,
            t > 0,
    ;
    rounding::lemma_ratio_between(a * t, b, 0, ONE as int);
}

/// The accumulated rotations have a row and a column for each column of the
/// matrix that is decomposed.
proof fn lemma_vectors_shape(a: Grid, b: Grid, relative: Binary64)
    requires
        least_squares::decomposed(a, b, relative) is Ok,
    ensures
        ({
            let d = least_squares::decomposed(a, b, relative)->Ok_0;
            d.vectors.shape() == (d.columns.cols, d.columns.cols)
        }),
{
    let d = least_squares::decomposed(a, b, relative)->Ok_0;
    let input = least_squares::factor_input(a, d.coefficient_scale);
    least_squares::lemma_decomposition_shape(input, relative);
    least_squares::lemma_progress_shape(
        input,
        relative,
        least_squares::sweep_limit(input.cols),
    );
}

} // verus!
