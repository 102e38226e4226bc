//! The residual cosine: its range, and that units do not change it.
use crate::binary64::Binary64;
use crate::grid;
use crate::grid::Grid;
use crate::least_squares;
use crate::merit;
use crate::rounding;
use vstd::arithmetic::power2::*;
use vstd::prelude::*;

verus! {

/// `y` is `x` times two to the power `e`, exactly.
pub open spec fn shifted(x: Binary64, y: Binary64, e: int) -> bool {
    &&& x.finite()
    &&& y.finite()
    &&& x.negative() == y.negative()
    &&& rounding::scaled(y.pattern()) * rounding::down_factor(e) == rounding::scaled(x.pattern())
        * rounding::up_factor(e)
}

/// Each number of `b` is the one of `a` times two to the power `e`.
pub open spec fn all_shifted(a: Seq<Binary64>, b: Seq<Binary64>, e: int) -> bool {
    &&& a.len() == b.len()
    &&& forall|k: int| 0 <= k < a.len() ==> shifted(#[trigger] a[k], b[k], e)
}

/// Each column of `h` is the one of `g` times a power of two of its own.
pub open spec fn columns_shifted(g: Grid, h: Grid, exponents: spec_fn(int) -> int) -> bool {
    &&& g.cols == h.cols
    &&& forall|j: int|
        0 <= j < g.cols ==> all_shifted(#[trigger] g.column(j), h.column(j), exponents(j))
}

/// Of finite numbers the largest magnitude is finite, not negative, no smaller
/// than any, and zero exactly where all are.
pub(crate) proof fn lemma_largest(values: Seq<Binary64>)
    requires
        grid::all_finite(values),
    ensures
        grid::largest(values).finite(),
        !grid::largest(values).negative(),
        forall|k: int|
            0 <= k < values.len() ==> (#[trigger] values[k]).pattern() <= grid::largest(
                values,
            ).pattern(),
        grid::largest(values).zero() <==> (forall|k: int|
            0 <= k < values.len() ==> (#[trigger] values[k]).zero()),
    decreases values.len(),
{
    if values.len() > 0 {
        let head = values.drop_last();
        assert forall|k: int| 0 <= k < head.len() implies (#[trigger] head[k]).finite() by {
            assert(head[k] == values[k]);
        }
        lemma_largest(head);
        assert(values[values.len() - 1].finite());
        let top = grid::largest(values).pattern();
        assert forall|k: int| 0 <= k < values.len() implies (#[trigger] values[k]).pattern()
            <= top by {
            if k < head.len() {
                assert(head[k] == values[k]);
            }
        }
        if grid::largest(values).zero() {
            assert forall|k: int| 0 <= k < values.len() implies (#[trigger] values[k]).zero() by {
                assert(values[k].pattern() <= top);
            }
        }
        if forall|k: int| 0 <= k < values.len() ==> (#[trigger] values[k]).zero() {
            assert forall|k: int| 0 <= k < head.len() implies (#[trigger] head[k]).zero() by {
                assert(values[k].zero());
            }
            assert(values[values.len() - 1].zero());
        }
    }
}

/// The factors of a power of two are positive.
proof fn lemma_factors_positive(e: int)
    ensures
        rounding::up_factor(e) > 0,
        rounding::down_factor(e) > 0,
{
    if e >= 0 {
        lemma_pow2_pos(e as nat);
    } else {
        lemma_pow2_pos((-e) as nat);
    }
}

/// Shifting keeps the order of magnitudes.
pub(crate) proof fn lemma_shift_order(x: Binary64, y: Binary64, u: Binary64, v: Binary64, e: int)
    requires
        shifted(x, u, e),
        shifted(y, v, e),
    ensures
        x.pattern() < y.pattern() <==> u.pattern() < v.pattern(),
        x.zero() <==> u.zero(),
{
    lemma_factors_positive(e);
    let up = rounding::up_factor(e);
    let down = rounding::down_factor(e);
    let a = rounding::scaled(x.pattern());
    let b = rounding::scaled(y.pattern());
    let c = rounding::scaled(u.pattern());
    let d = rounding::scaled(v.pattern());
    assert((a < b <==> c < d) && (a == b <==> c == d)) by (nonlinear_arith)
        requires
            c * down == a * up,
            d * down == b * up,
            up > 0,
            down > 0,
    {
        assert(a < b ==> a * up < b * up) by (nonlinear_arith)
            requires
                up > 0,
        ;
        assert(b < a ==> b * up < a * up) by (nonlinear_arith)
            requires
                up > 0,
        ;
        assert(c < d ==> c * down < d * down) by (nonlinear_arith)
            requires
                down > 0,
        ;
        assert(d < c ==> d * down < c * down) by (nonlinear_arith)
            requires
                down > 0,
        ;
    }
    if x.pattern() < y.pattern() {
        rounding::lemma_scaled_increases(x.pattern(), y.pattern());
    } else if y.pattern() < x.pattern() {
        rounding::lemma_scaled_increases(y.pattern(), x.pattern());
    }
    if u.pattern() < v.pattern() {
        rounding::lemma_scaled_increases(u.pattern(), v.pattern());
    } else if v.pattern() < u.pattern() {
        rounding::lemma_scaled_increases(v.pattern(), u.pattern());
    }
    Binary64::lemma_scaled_sign(x.pattern());
    Binary64::lemma_scaled_sign(u.pattern());
    assert(a == 0 <==> c == 0) by (nonlinear_arith)
        requires
            c * down == a * up,
            up > 0,
            down > 0,
    ;
}

/// The largest magnitude shifts with the numbers.
pub(crate) proof fn lemma_largest_shifts(a: Seq<Binary64>, b: Seq<Binary64>, e: int)
    requires
        all_shifted(a, b, e),
    ensures
        shifted(grid::largest(a), grid::largest(b), e),
        grid::all_finite(a),
        grid::all_finite(b),
    decreases a.len(),
{
    if a.len() == 0 {
        Binary64::lemma_scaled_sign(0);
    } else {
        let p = a.drop_last();
        let q = b.drop_last();
        assert forall|k: int| 0 <= k < p.len() implies shifted(#[trigger] p[k], q[k], e) by {
            assert(a[k] == p[k]);
        }
        lemma_largest_shifts(p, q, e);
        lemma_largest(p);
        lemma_largest(q);
        let last = a.len() - 1;
        assert(shifted(a[last], b[last], e));
        assert(shifted(a.last().magnitude(), b.last().magnitude(), e));
        lemma_shift_order(
            grid::largest(p),
            a.last().magnitude(),
            grid::largest(q),
            b.last().magnitude(),
            e,
        );
        assert forall|k: int| 0 <= k < a.len() implies (#[trigger] a[k]).finite() by {
            assert(shifted(a[k], b[k], e));
        }
        assert forall|k: int| 0 <= k < b.len() implies (#[trigger] b[k]).finite() by {
            assert(shifted(a[k], b[k], e));
        }
    }
}

/// Quotients of numbers that shift alike are the same.
proof fn lemma_quotient_shifts(x: Binary64, m: Binary64, y: Binary64, n: Binary64, e: int)
    requires
        shifted(x, y, e),
        shifted(m, n, e),
        !m.zero(),
    ensures
        x / m == y / n,
{
    reveal(Binary64::spec_euclidean_or_real_div);
    lemma_factors_positive(e);
    lemma_shift_order(m, m, n, n, e);
    lemma_pow2_pos(1074);
    let up = rounding::up_factor(e);
    let down = rounding::down_factor(e);
    let t = pow2(1074) as int;
    let sx = rounding::scaled(x.pattern());
    let sy = rounding::scaled(y.pattern());
    let sm = rounding::scaled(m.pattern());
    let sn = rounding::scaled(n.pattern());
    Binary64::lemma_scaled_sign(x.pattern());
    Binary64::lemma_scaled_sign(y.pattern());
    Binary64::lemma_scaled_sign(m.pattern());
    Binary64::lemma_scaled_sign(n.pattern());
    assert(sx * sn == sy * sm) by (nonlinear_arith)
        requires
            sy * down == sx * up,
            sn * down == sm * up,
            up > 0,
            down > 0,
    {
        // Both sides times `up * down`.
        assert((sx * up) * (sn * down) == (sy * down) * (sm * up));
        assert((sx * sn) * (up * down) == (sy * sm) * (up * down));
        assert(up * down > 0);
    }
    assert((sx * t) * sn == (sy * t) * sm) by (nonlinear_arith)
        requires
            sx * sn == sy * sm,
    ;
    rounding::lemma_ratio_exists(sx * t, sm);
    rounding::lemma_ratio_exists(sy * t, sn);
    let p = rounding::round_ratio(sx * t, sm);
    let q = rounding::round_ratio(sy * t, sn);
    rounding::lemma_ratio_monotone(sx * t, sm, p, sy * t, sn, q);
    rounding::lemma_ratio_monotone(sy * t, sn, q, sx * t, sm, p);
}

/// Numbers over their largest magnitude do not change where all of them shift.
pub(crate) proof fn lemma_over_shifts(a: Seq<Binary64>, b: Seq<Binary64>, e: int)
    requires
        all_shifted(a, b, e),
        !grid::largest(a).zero(),
    ensures
        grid::over(a, grid::largest(a)) == grid::over(b, grid::largest(b)),
{
    lemma_largest_shifts(a, b, e);
    let p = grid::over(a, grid::largest(a));
    let q = grid::over(b, grid::largest(b));
    assert forall|k: int| 0 <= k < p.len() implies p[k] == q[k] by {
        assert(shifted(a[k], b[k], e));
        lemma_quotient_shifts(a[k], grid::largest(a), b[k], grid::largest(b), e);
    }
    assert(p =~= q);
}

/// Multiplying a column and the residuals by powers of two leaves their cosine.
pub proof fn law_cosine_scales(
    column: Seq<Binary64>,
    residuals: Seq<Binary64>,
    other_column: Seq<Binary64>,
    other_residuals: Seq<Binary64>,
    e: int,
    f: int,
)
    requires
        all_shifted(column, other_column, e),
        all_shifted(residuals, other_residuals, f),
        !grid::largest(column).zero(),
        !grid::largest(residuals).zero(),
    ensures
        merit::cosine(column, residuals) == merit::cosine(other_column, other_residuals),
{
    lemma_over_shifts(column, other_column, e);
    lemma_over_shifts(residuals, other_residuals, f);
}

proof fn lemma_cosines_scale(
    g: Grid,
    residuals: Seq<Binary64>,
    h: Grid,
    other_residuals: Seq<Binary64>,
    exponents: spec_fn(int) -> int,
    f: int,
    end: int,
)
    requires
        columns_shifted(g, h, exponents),
        all_shifted(residuals, other_residuals, f),
        !grid::largest(residuals).zero(),
        0 <= end <= g.cols,
    ensures
        merit::gradient_over(g, residuals, end).1 == merit::gradient_over(
            h,
            other_residuals,
            end,
        ).1,
    decreases end,
{
    if end > 0 {
        lemma_cosines_scale(g, residuals, h, other_residuals, exponents, f, end - 1);
        let a = g.column(end - 1);
        let b = h.column(end - 1);
        let e = exponents(end - 1);
        assert(all_shifted(a, b, e));
        lemma_largest_shifts(a, b, e);
        lemma_shift_order(grid::largest(a), grid::largest(a), grid::largest(b), grid::largest(b), e);
        if !grid::largest(a).zero() {
            law_cosine_scales(a, residuals, b, other_residuals, e, f);
        }
    }
}

/// Multiplying the residuals, and each column of the Jacobian, by powers of two
/// leaves the stationarity measure.
pub proof fn law_measure_scales(
    g: Grid,
    residuals: Seq<Binary64>,
    h: Grid,
    other_residuals: Seq<Binary64>,
    exponents: spec_fn(int) -> int,
    f: int,
)
    requires
        columns_shifted(g, h, exponents),
        all_shifted(residuals, other_residuals, f),
    ensures
        merit::gradient_measure(g, residuals).relative_norm == merit::gradient_measure(
            h,
            other_residuals,
        ).relative_norm,
{
    lemma_largest_shifts(residuals, other_residuals, f);
    let m = grid::largest(residuals);
    let n = grid::largest(other_residuals);
    lemma_shift_order(m, m, n, n, f);
    if !m.zero() {
        lemma_cosines_scale(g, residuals, h, other_residuals, exponents, f, g.cols as int);
    }
}

/// Quotients of numbers without a negative sign carry none.
proof fn lemma_quotient_sign(a: Binary64, b: Binary64)
    requires
        !a.negative(),
        !b.negative(),
    ensures
        !(a / b).negative(),
{
    reveal(Binary64::spec_euclidean_or_real_div);
    if a.finite() && b.finite() && !b.zero() {
        let x = rounding::scaled(a.pattern()) * pow2(1074);
        Binary64::lemma_scaled_sign(b.pattern());
        rounding::lemma_ratio_exists(x, rounding::scaled(b.pattern()));
    }
}

/// The cosine lies from zero to one.
pub proof fn law_cosine_range(column: Seq<Binary64>, residuals: Seq<Binary64>)
    ensures
        Binary64::zero_value() <= merit::cosine(column, residuals),
        merit::cosine(column, residuals) <= Binary64::one(),
{
    let p = grid::over(column, grid::largest(column));
    let q = grid::over(residuals, grid::largest(residuals));
    least_squares::lemma_length_number(p);
    least_squares::lemma_length_number(q);
    let dot = merit::scaled_dot(column, residuals).magnitude();
    lemma_quotient_sign(dot, grid::length(p));
    lemma_quotient_sign(dot / grid::length(p), grid::length(q));
}

/// `c` is the largest cosine between the residuals and the columns before `end`
/// that are not zero; zero where there is none.
pub open spec fn is_largest_cosine(
    jacobian: Grid,
    residuals: Seq<Binary64>,
    end: int,
    c: Binary64,
) -> bool {
    &&& forall|j: int|
        0 <= j < end && !grid::largest(#[trigger] jacobian.column(j)).zero() ==> merit::cosine(
            jacobian.column(j),
            residuals,
        ) <= c
    &&& c == Binary64::zero_value() || exists|j: int|
        0 <= j < end && !grid::largest(#[trigger] jacobian.column(j)).zero() && c
            == merit::cosine(jacobian.column(j), residuals)
}

proof fn lemma_largest_cosine(jacobian: Grid, residuals: Seq<Binary64>, end: int)
    requires
        0 <= end,
    ensures
        is_largest_cosine(
            jacobian,
            residuals,
            end,
            merit::gradient_over(jacobian, residuals, end).1,
        ),
        Binary64::zero_value() <= merit::gradient_over(jacobian, residuals, end).1,
        merit::gradient_over(jacobian, residuals, end).1 <= Binary64::one(),
    decreases end,
{
    if end > 0 {
        lemma_largest_cosine(jacobian, residuals, end - 1);
        let head = merit::gradient_over(jacobian, residuals, end - 1).1;
        let column = jacobian.column(end - 1);
        let c = merit::gradient_over(jacobian, residuals, end).1;
        law_cosine_range(column, residuals);
        assert forall|j: int|
            0 <= j < end && !grid::largest(
                #[trigger] jacobian.column(j),
            ).zero() implies merit::cosine(jacobian.column(j), residuals) <= c by {
            if j < end - 1 {
                assert(merit::cosine(jacobian.column(j), residuals) <= head);
            }
        }
        if c != Binary64::zero_value() && c == head {
            let j = choose|j: int|
                0 <= j < end - 1 && !grid::largest(#[trigger] jacobian.column(j)).zero() && head
                    == merit::cosine(jacobian.column(j), residuals);
            assert(!grid::largest(jacobian.column(j)).zero());
        } else if c != Binary64::zero_value() {
            assert(!grid::largest(jacobian.column(end - 1)).zero());
        }
    }
}

/// The measures of a Jacobian and finite residuals. There is no cosine exactly
/// where all residuals are zero, and the gradient is zero there. Otherwise the
/// measure is the largest cosine with a column that is not zero; it lies from
/// zero to one, and is zero where all columns are zero.
pub proof fn law_measure(jacobian: Grid, residuals: Seq<Binary64>)
    requires
        grid::all_finite(residuals),
    ensures
        merit::gradient_measure(jacobian, residuals).relative_norm is None <==> (forall|k: int|
            0 <= k < residuals.len() ==> (#[trigger] residuals[k]).zero()),
        ({
            let m = merit::gradient_measure(jacobian, residuals);
            match m.relative_norm {
                None => m.absolute_norm == Binary64::zero_value(),
                Some(c) => {
                    &&& Binary64::zero_value() <= c
                    &&& c <= Binary64::one()
                    &&& is_largest_cosine(jacobian, residuals, jacobian.cols as int, c)
                    &&& (forall|j: int|
                        0 <= j < jacobian.cols ==> grid::largest(
                            #[trigger] jacobian.column(j),
                        ).zero()) ==> c == Binary64::zero_value()
                },
            }
        }),
{
    lemma_largest(residuals);
    lemma_largest_cosine(jacobian, residuals, jacobian.cols as int);
}

} // verus!
