//! The gradient norm follows the units of the Jacobian and of the residuals.
use crate::accuracy;
use crate::alignment;
use crate::binary64;
use crate::binary64::Binary64;
use crate::grid;
use crate::grid::Grid;
use crate::merit;
use crate::rounding;
use crate::rounding::{HIDDEN, INFINITY};
use crate::scaled::CompensatedSum;
use vstd::arithmetic::power2::*;
use vstd::prelude::*;

verus! {

/// A finite number above the smallest normal one, in magnitude.
pub open spec fn normal(x: Binary64) -> bool {
    HIDDEN < x.pattern() < INFINITY
}

/// The magnitude `k` binades higher is larger by two to the power `k`.
proof fn lemma_binades(p: int, k: nat)
    requires
        p >= HIDDEN,
    ensures
        rounding::scaled(p + k * HIDDEN) == rounding::scaled(p) * pow2(k),
{
    let (e, q) = rounding::lemma_split(p);
    rounding::lemma_scaled((e + k) as nat, q);
    lemma_pow2_adds(e, k);
    let h = HIDDEN as int;
    assert((e + k) * h + q == p + k * h) by (nonlinear_arith)
        requires
            p == e * h + q,
    ;
    let a = pow2(e) as int;
    let b = pow2(k) as int;
    assert(q * (a * b) == (q * a) * b) by (nonlinear_arith);
}

/// A quotient that is larger by a power of two rounds to a magnitude that many
/// binades higher.
proof fn lemma_round_raised(n: int, d: int, k: nat)
    requires
        d > 0,
        HIDDEN < rounding::round_ratio(n, d) < INFINITY,
        rounding::round_ratio(n * pow2(k), d) < INFINITY,
    ensures
        rounding::round_ratio(n * pow2(k), d) == rounding::round_ratio(n, d) + k * HIDDEN,
{
    let p = rounding::round_ratio(n, d);
    let h = HIDDEN as int;
    let m = n * pow2(k);
    rounding::lemma_ratio_exists(n, d);
    rounding::lemma_ratio_exists(m, d);
    let r = p + k * h;
    lemma_binades(p - 1, k);
    lemma_binades(p, k);
    lemma_binades(p + 1, k);
    lemma_pow2_pos(k);
    let a = rounding::scaled(p - 1);
    let b = rounding::scaled(p);
    let c = rounding::scaled(p + 1);
    let t = pow2(k) as int;
    assert((a * t + b * t) * d == ((a + b) * d) * t && (b * t + c * t) * d == ((b + c) * d) * t
        && 2 * (n * t) == (2 * n) * t) by (nonlinear_arith);
    let low = (a + b) * d;
    let high = (b + c) * d;
    assert(low < 2 * n ==> low * t < (2 * n) * t) by (nonlinear_arith)
        requires
            t > 0,
    ;
    assert(2 * n < high ==> (2 * n) * t < high * t) by (nonlinear_arith)
        requires
            t > 0,
    ;
    assert(r >= p) by (nonlinear_arith)
        requires
            r == p + k * h,
            k >= 0,
            h > 0,
    ;
    assert(r % 2 == p % 2) by {
        let j = k * 2251799813685248;
        assert(k * h == 2 * j) by (nonlinear_arith)
            requires
                h == 4503599627370496,
                j == k * 2251799813685248,
        ;
    }
    assert(p - 1 + k * h == r - 1 && p + 1 + k * h == r + 1);
    if r <= INFINITY {
        assert(rounding::nearest_ratio(m, d, r));
        rounding::lemma_nearest_ratio_unique(m, d, r, rounding::round_ratio(m, d));
    } else {
        // The quotient is above every finite magnitude.
        let s = rounding::round_ratio(m, d);
        assert((rounding::scaled(s) + rounding::scaled(s + 1)) * d >= 2 * m);
        if s + 1 < r - 1 {
            rounding::lemma_scaled_increases(s + 1, r - 1);
        }
        rounding::lemma_scaled_increases(s, r);
        let x = rounding::scaled(s) + rounding::scaled(s + 1);
        let y = rounding::scaled(r - 1) + rounding::scaled(r);
        assert(x * d < y * d) by (nonlinear_arith)
            requires
                x < y,
                d > 0,
        ;
    }
}

/// The factors of a sum of exponents.
proof fn lemma_exponents(e: int, f: int)
    ensures
        rounding::up_factor(e + f) * rounding::down_factor(e) * rounding::down_factor(f)
            == rounding::up_factor(e) * rounding::up_factor(f) * rounding::down_factor(e + f),
        rounding::up_factor(e) > 0,
        rounding::down_factor(e) > 0,
        rounding::up_factor(f) > 0,
        rounding::down_factor(f) > 0,
{
    accuracy::lemma_factor_signs(e);
    accuracy::lemma_factor_signs(f);
    accuracy::lemma_factor_products(e, f);
}

/// Products of numbers that are shifted are shifted by both exponents, where
/// they are normal.
proof fn lemma_product_shifts(
    x: Binary64,
    y: Binary64,
    u: Binary64,
    v: Binary64,
    e: int,
    f: int,
)
    requires
        alignment::shifted(x, u, e),
        alignment::shifted(y, v, f),
        normal(x * y),
        normal(u * v),
    ensures
        alignment::shifted(x * y, u * v, e + f),
{
    reveal(Binary64::spec_mul);
    lemma_exponents(e, f);
    accuracy::lemma_factor_signs(e + f);
    lemma_pow2_pos(1074);
    let t = pow2(1074) as int;
    let a = rounding::scaled(x.pattern());
    let b = rounding::scaled(y.pattern());
    let c = rounding::scaled(u.pattern());
    let d = rounding::scaled(v.pattern());
    let ue = rounding::up_factor(e);
    let de = rounding::down_factor(e);
    let uf = rounding::up_factor(f);
    let df = rounding::down_factor(f);
    let uk = rounding::up_factor(e + f);
    let dk = rounding::down_factor(e + f);
    let n = a * b;
    let m = c * d;
    assert(m * (de * df) == n * (ue * uf)) by (nonlinear_arith)
        requires
            c * de == a * ue,
            d * df == b * uf,
            n == a * b,
            m == c * d,
    {
        assert((c * d) * (de * df) == (c * de) * (d * df));
        assert((a * b) * (ue * uf) == (a * ue) * (b * uf));
    }
    let g = de * df;
    assert(g > 0) by (nonlinear_arith)
        requires
            g == de * df,
            de > 0,
            df > 0,
    ;
    assert(m * dk == n * uk) by (nonlinear_arith)
        requires
            m * g == n * (ue * uf),
            uk * g == (ue * uf) * dk,
            g > 0,
    {
        assert((m * dk) * g == (m * g) * dk);
        assert((n * uk) * g == n * (uk * g));
        assert((n * (ue * uf)) * dk == n * ((ue * uf) * dk));
    }
    assert(uk * g == (ue * uf) * dk) by (nonlinear_arith)
        requires
            uk * de * df == ue * uf * dk,
            g == de * df,
    ;
    rounding::lemma_ratio_exists(n, t);
    rounding::lemma_ratio_exists(m, t);
    let p = rounding::round_ratio(n, t);
    let q = rounding::round_ratio(m, t);
    if e + f >= 0 {
        assert(m * 1 == m) by (nonlinear_arith);
        lemma_round_raised(n, t, (e + f) as nat);
        lemma_binades(p, (e + f) as nat);
        let s = rounding::scaled(q);
        assert(s * 1 == s) by (nonlinear_arith);
    } else {
        assert(n * 1 == n) by (nonlinear_arith);
        lemma_round_raised(m, t, (-e - f) as nat);
        lemma_binades(q, (-e - f) as nat);
        let s = rounding::scaled(p);
        assert(s * 1 == s) by (nonlinear_arith);
    }
}

proof fn lemma_square_of_sum(a: int, b: int, t: int)
    ensures
        (a * t + b * t) * (a * t + b * t) == ((a + b) * (a + b)) * (t * t),
{
    let x = a + b;
    let y = x * t;
    assert(a * t + b * t == y) by (nonlinear_arith)
        requires
            x == a + b,
            y == x * t,
    ;
    lemma_square_of_product(x, t);
}

proof fn lemma_square_of_product(x: int, t: int)
    ensures
        (x * t) * (x * t) == (x * x) * (t * t),
{
    assert((x * t) * (x * t) == (x * x) * (t * t)) by (nonlinear_arith);
}

/// A root that is larger by a power of two rounds to a magnitude that many
/// binades higher.
#[verifier::rlimit(40)]
proof fn lemma_root_raised(n: int, k: nat)
    requires
        HIDDEN < rounding::round_root(n) < INFINITY,
        rounding::round_root(n * (pow2(k) * pow2(k))) < INFINITY,
    ensures
        rounding::round_root(n * (pow2(k) * pow2(k))) == rounding::round_root(n) + k * HIDDEN,
{
    let p = rounding::round_root(n);
    let h = HIDDEN as int;
    let t = pow2(k) as int;
    let m = n * (t * t);
    rounding::lemma_root_exists(n);
    rounding::lemma_root_exists(m);
    let r = p + k * h;
    lemma_binades(p - 1, k);
    lemma_binades(p, k);
    lemma_binades(p + 1, k);
    lemma_pow2_pos(k);
    let a = rounding::scaled(p - 1);
    let b = rounding::scaled(p);
    let c = rounding::scaled(p + 1);
    Binary64::lemma_scaled_sign(p - 1);
    Binary64::lemma_scaled_sign(p);
    Binary64::lemma_scaled_sign(p + 1);
    let low = (a + b) * (a + b);
    let high = (b + c) * (b + c);
    let w = t * t;
    lemma_square_of_sum(a, b, t);
    lemma_square_of_sum(b, c, t);
    assert(4 * (n * w) == (4 * n) * w) by (nonlinear_arith);
    assert(w > 0) by (nonlinear_arith)
        requires
            w == t * t,
            t > 0,
    ;
    assert(low < 4 * n ==> low * w < (4 * n) * w) by (nonlinear_arith)
        requires
            w > 0,
    ;
    assert(4 * n < high ==> (4 * n) * w < high * w) by (nonlinear_arith)
        requires
            w > 0,
    ;
    assert(r >= p) by (nonlinear_arith)
        requires
            r == p + k * h,
            k >= 0,
            h > 0,
    ;
    assert(r % 2 == p % 2) by {
        let j = k * 2251799813685248;
        assert(k * h == 2 * j) by (nonlinear_arith)
            requires
                h == 4503599627370496,
                j == k * 2251799813685248,
        ;
    }
    assert(p - 1 + k * h == r - 1 && p + 1 + k * h == r + 1);
    if r <= INFINITY {
        assert(rounding::nearest_root(m, r));
        rounding::lemma_nearest_root_unique(m, r, rounding::round_root(m));
    } else {
        let s = rounding::round_root(m);
        if s + 1 < r - 1 {
            rounding::lemma_scaled_increases(s + 1, r - 1);
        }
        rounding::lemma_scaled_increases(s, r);
        let x = rounding::scaled(s) + rounding::scaled(s + 1);
        let y = rounding::scaled(r - 1) + rounding::scaled(r);
        Binary64::lemma_scaled_sign(s);
        Binary64::lemma_scaled_sign(s + 1);
        assert(x * x < y * y) by (nonlinear_arith)
            requires
                0 <= x < y,
        ;
    }
}

/// A hypotenuse is shifted with its legs, where it is normal.
proof fn lemma_hypotenuse_shifts(x: Binary64, y: Binary64, u: Binary64, v: Binary64, e: int)
    requires
        alignment::shifted(x, u, e),
        alignment::shifted(y, v, e),
        normal(x.hypotenuse(y)) && normal(u.hypotenuse(v)) || x.zero() && y.zero(),
    ensures
        alignment::shifted(x.hypotenuse(y), u.hypotenuse(v), e),
{
    reveal(Binary64::hypotenuse);
    accuracy::lemma_factor_signs(e);
    let a = rounding::scaled(x.pattern());
    let b = rounding::scaled(y.pattern());
    let c = rounding::scaled(u.pattern());
    let d = rounding::scaled(v.pattern());
    let up = rounding::up_factor(e);
    let down = rounding::down_factor(e);
    let n = a * a + b * b;
    let m = c * c + d * d;
    lemma_square_of_product(c, down);
    lemma_square_of_product(d, down);
    lemma_square_of_product(a, up);
    lemma_square_of_product(b, up);
    let ww = down * down;
    let uu = up * up;
    let aa = a * a;
    let bb = b * b;
    let cc = c * c;
    let dd = d * d;
    assert((cc + dd) * ww == cc * ww + dd * ww) by (nonlinear_arith);
    assert((aa + bb) * uu == aa * uu + bb * uu) by (nonlinear_arith);
    assert(m * (down * down) == n * (up * up));
    rounding::lemma_root_exists(n);
    rounding::lemma_root_exists(m);
    let p = rounding::round_root(n);
    let q = rounding::round_root(m);
    if x.zero() && y.zero() {
        Binary64::lemma_scaled_sign(0);
        Binary64::lemma_scaled_sign(u.pattern());
        Binary64::lemma_scaled_sign(v.pattern());
        assert(c == 0 && d == 0) by (nonlinear_arith)
            requires
                c * down == a * up,
                d * down == b * up,
                a == 0,
                b == 0,
                down > 0,
        ;
        assert(0 * 0 + 0 * 0 == 0) by (nonlinear_arith);
        binary64::lemma_root_zero();
    } else if e >= 0 {
        assert(m * (1 * 1) == m) by (nonlinear_arith);
        lemma_root_raised(n, e as nat);
        lemma_binades(p, e as nat);
        let s = rounding::scaled(q);
        assert(s * 1 == s) by (nonlinear_arith);
    } else {
        assert(n * (1 * 1) == n) by (nonlinear_arith);
        lemma_root_raised(m, (-e) as nat);
        lemma_binades(q, (-e) as nat);
        let s = rounding::scaled(p);
        assert(s * 1 == s) by (nonlinear_arith);
    }
}

/// The first product of a component: the scaled dot product and the smaller
/// scale.
pub open spec fn first_product(column: Seq<Binary64>, residuals: Seq<Binary64>) -> Binary64 {
    let dot = merit::scaled_dot(column, residuals);
    if grid::largest(column) < grid::largest(residuals) {
        dot * grid::largest(column)
    } else {
        dot * grid::largest(residuals)
    }
}

/// Nothing overflows or underflows in a component of the gradient.
pub open spec fn unclipped(column: Seq<Binary64>, residuals: Seq<Binary64>) -> bool {
    &&& merit::scaled_dot(column, residuals).finite()
    &&& merit::scaled_dot(column, residuals).zero() || normal(first_product(column, residuals))
        && normal(merit::component(column, residuals))
}

/// Multiplying a column of the Jacobian and the residuals by powers of two
/// multiplies the component of the gradient by both, where nothing overflows or
/// underflows and the same of the two has the larger scale.
pub proof fn law_component_scales(
    column: Seq<Binary64>,
    residuals: Seq<Binary64>,
    other_column: Seq<Binary64>,
    other_residuals: Seq<Binary64>,
    e: int,
    f: int,
)
    requires
        alignment::all_shifted(column, other_column, e),
        alignment::all_shifted(residuals, other_residuals, f),
        !grid::largest(column).zero(),
        !grid::largest(residuals).zero(),
        unclipped(column, residuals),
        unclipped(other_column, other_residuals),
        grid::largest(column) < grid::largest(residuals) <==> grid::largest(other_column)
            < grid::largest(other_residuals),
    ensures
        alignment::shifted(
            merit::component(column, residuals),
            merit::component(other_column, other_residuals),
            e + f,
        ),
{
    alignment::lemma_over_shifts(column, other_column, e);
    alignment::lemma_over_shifts(residuals, other_residuals, f);
    alignment::lemma_largest_shifts(column, other_column, e);
    alignment::lemma_largest_shifts(residuals, other_residuals, f);
    let dot = merit::scaled_dot(column, residuals);
    let c = grid::largest(column);
    let r = grid::largest(residuals);
    let c2 = grid::largest(other_column);
    let r2 = grid::largest(other_residuals);
    lemma_not_shifted(dot);
    if dot.zero() {
        alignment::lemma_largest(column);
        alignment::lemma_largest(residuals);
        alignment::lemma_largest(other_column);
        alignment::lemma_largest(other_residuals);
        lemma_zero_twice(dot, c, r);
        lemma_zero_twice(dot, r, c);
        lemma_zero_twice(dot, c2, r2);
        lemma_zero_twice(dot, r2, c2);
        Binary64::lemma_scaled_sign(0);
        accuracy::lemma_factor_signs(e + f);
        let up = rounding::up_factor(e + f);
        let down = rounding::down_factor(e + f);
        assert(0 * down == 0 * up) by (nonlinear_arith);
    } else if c < r {
        lemma_product_shifts(dot, c, dot, c2, 0, e);
        lemma_product_shifts(dot * c, r, dot * c2, r2, e, f);
    } else {
        lemma_product_shifts(dot, r, dot, r2, 0, f);
        lemma_product_shifts(dot * r, c, dot * r2, c2, f, e);
        assert(f + e == e + f);
    }
}

/// A number is itself times one.
proof fn lemma_not_shifted(x: Binary64)
    requires
        x.finite(),
    ensures
        alignment::shifted(x, x, 0),
{
    lemma2_to64();
    let s = rounding::scaled(x.pattern());
    assert(s * 1 == s) by (nonlinear_arith);
}

/// A zero times two numbers without a negative sign keeps its sign.
proof fn lemma_zero_twice(x: Binary64, a: Binary64, b: Binary64)
    requires
        x.zero(),
        a.finite() && b.finite(),
        !a.negative() && !b.negative(),
    ensures
        ((x * a) * b).zero(),
        ((x * a) * b).negative() == x.negative(),
        ((x * a) * b).finite(),
{
    Binary64::lemma_zero_product(x, a);
    Binary64::lemma_zero_product(x * a, b);
    Binary64::law_product_sign(x, a);
    Binary64::law_product_sign(x * a, b);
}

/// Nothing overflows or underflows in the gradient norm over the columns before
/// `end`.
pub open spec fn all_unclipped(jacobian: Grid, residuals: Seq<Binary64>, end: int) -> bool {
    &&& forall|j: int|
        0 <= j < end && !grid::largest(#[trigger] jacobian.column(j)).zero() ==> unclipped(
            jacobian.column(j),
            residuals,
        )
    &&& forall|j: int|
        0 <= j <= end ==> (#[trigger] merit::gradient_over(jacobian, residuals, j)).0.zero()
            || normal(merit::gradient_over(jacobian, residuals, j).0)
}

proof fn lemma_gradient_scales(
    g: Grid,
    residuals: Seq<Binary64>,
    h: Grid,
    other_residuals: Seq<Binary64>,
    e: int,
    f: int,
    end: int,
)
    requires
        alignment::columns_shifted(g, h, |j: int| e),
        alignment::all_shifted(residuals, other_residuals, f),
        !grid::largest(residuals).zero(),
        0 <= end <= g.cols,
        all_unclipped(g, residuals, end),
        all_unclipped(h, other_residuals, end),
        forall|j: int|
            0 <= j < end ==> (grid::largest(#[trigger] g.column(j)) < grid::largest(residuals)
                <==> grid::largest(h.column(j)) < grid::largest(other_residuals)),
    ensures
        alignment::shifted(
            merit::gradient_over(g, residuals, end).0,
            merit::gradient_over(h, other_residuals, end).0,
            e + f,
        ),
    decreases end,
{
    if end == 0 {
        Binary64::lemma_scaled_sign(0);
        let up = rounding::up_factor(e + f);
        let down = rounding::down_factor(e + f);
        assert(0 * down == 0 * up) by (nonlinear_arith);
    } else {
        lemma_gradient_scales(g, residuals, h, other_residuals, e, f, end - 1);
        let a = g.column(end - 1);
        let b = h.column(end - 1);
        assert(alignment::all_shifted(a, b, e)) by {
            let exponents = |j: int| e;
            assert(alignment::all_shifted(g.column(end - 1), h.column(end - 1), exponents(end - 1)));
        }
        alignment::lemma_largest_shifts(a, b, e);
        let m = grid::largest(a);
        let n = grid::largest(b);
        alignment::lemma_shift_order(m, m, n, n, e);
        if !m.zero() {
            law_component_scales(a, residuals, b, other_residuals, e, f);
            let x = merit::gradient_over(g, residuals, end - 1).0;
            let u = merit::gradient_over(h, other_residuals, end - 1).0;
            let y = merit::component(a, residuals);
            let v = merit::component(b, other_residuals);
            alignment::lemma_shift_order(x, x, u, u, e + f);
            alignment::lemma_shift_order(y, y, v, v, e + f);
            let p = merit::gradient_over(g, residuals, end).0;
            let q = merit::gradient_over(h, other_residuals, end).0;
            if !(x.zero() && y.zero()) {
                lemma_hypotenuse_positive(x, y);
                lemma_hypotenuse_positive(u, v);
            }
            lemma_hypotenuse_shifts(x, y, u, v, e + f);
        }
    }
}

/// A hypotenuse is zero only where both legs are.
proof fn lemma_hypotenuse_positive(x: Binary64, y: Binary64)
    requires
        x.finite() && y.finite(),
        !(x.zero() && y.zero()),
    ensures
        !x.hypotenuse(y).zero(),
{
    reveal(Binary64::hypotenuse);
    let a = rounding::scaled(x.pattern());
    let b = rounding::scaled(y.pattern());
    Binary64::lemma_scaled_sign(x.pattern());
    Binary64::lemma_scaled_sign(y.pattern());
    let s = a * a + b * b;
    assert(s >= 1) by (nonlinear_arith)
        requires
            s == a * a + b * b,
            a >= 1 || b >= 1,
    ;
    rounding::lemma_root_exists(s);
    if rounding::round_root(s) == 0 {
        rounding::lemma_scaled(0, 0);
        rounding::lemma_scaled(0, 1);
        lemma2_to64();
        assert(1int * 1int == 1) by (nonlinear_arith);
    }
}

/// Multiplying the Jacobian and the residuals by powers of two multiplies the
/// gradient norm by both, where nothing overflows or underflows, and no column
/// changes places with the residuals in the order of scales.
pub proof fn law_gradient_scales(
    g: Grid,
    residuals: Seq<Binary64>,
    h: Grid,
    other_residuals: Seq<Binary64>,
    e: int,
    f: int,
)
    requires
        alignment::columns_shifted(g, h, |j: int| e),
        alignment::all_shifted(residuals, other_residuals, f),
        all_unclipped(g, residuals, g.cols as int),
        all_unclipped(h, other_residuals, g.cols as int),
        forall|j: int|
            0 <= j < g.cols ==> (grid::largest(#[trigger] g.column(j)) < grid::largest(residuals)
                <==> grid::largest(h.column(j)) < grid::largest(other_residuals)),
    ensures
        alignment::shifted(
            merit::gradient_measure(g, residuals).absolute_norm,
            merit::gradient_measure(h, other_residuals).absolute_norm,
            e + f,
        ),
{
    alignment::lemma_largest_shifts(residuals, other_residuals, f);
    let m = grid::largest(residuals);
    let n = grid::largest(other_residuals);
    alignment::lemma_shift_order(m, m, n, n, f);
    if m.zero() {
        Binary64::lemma_scaled_sign(0);
        let up = rounding::up_factor(e + f);
        let down = rounding::down_factor(e + f);
        assert(0 * down == 0 * up) by (nonlinear_arith);
    } else {
        lemma_gradient_scales(g, residuals, h, other_residuals, e, f, g.cols as int);
    }
}

/// A number over its magnitude is one, with its sign.
proof fn lemma_over_own(x: Binary64)
    requires
        x.finite(),
        !x.zero(),
    ensures
        x / x.magnitude() == Binary64::signed(x.negative(), binary64::ONE as int),
{
    reveal(Binary64::spec_euclidean_or_real_div);
    Binary64::lemma_one_scaled();
    Binary64::lemma_scaled_sign(x.pattern());
    let s = rounding::scaled(x.pattern());
    let t = pow2(1074) as int;
    assert(s * t == t * s) by (nonlinear_arith);
    Binary64::lemma_round_exact(binary64::ONE as int, s);
}

/// One with a sign, times a number, is the number with the sign.
proof fn lemma_signed_one(negative: bool, x: Binary64)
    requires
        x.finite(),
    ensures
        Binary64::signed(negative, binary64::ONE as int) * x == Binary64::signed(
            negative != x.negative(),
            x.pattern(),
        ),
{
    reveal(Binary64::spec_mul);
    Binary64::lemma_one_scaled();
    let s = rounding::scaled(x.pattern());
    let t = pow2(1074) as int;
    assert(s * t == t * s) by (nonlinear_arith);
    Binary64::lemma_round_exact(x.pattern(), t);
}

/// The sum of one term is the term.
proof fn lemma_one_term(x: Binary64)
    requires
        x.finite(),
        !x.zero(),
    ensures
        CompensatedSum::of(seq![x]).result() == x,
{
    let zero = Binary64::zero_value();
    let none = Seq::<Binary64>::empty();
    assert(seq![x].drop_last() =~= none);
    assert(CompensatedSum::of(none) == CompensatedSum::empty());
    Binary64::lemma_plus_zero(zero, x);
    Binary64::law_sum_commutes(zero, x);
    assert(zero + x == x);
    reveal(Binary64::spec_add);
    Binary64::lemma_scaled_sign(0);
    assert(x - x == zero);
    assert(zero + zero == zero);
}

/// The root of a square is the number.
proof fn lemma_root_of_square(p: int)
    requires
        0 < p < INFINITY,
    ensures
        rounding::round_root(rounding::scaled(p) * rounding::scaled(p)) == p,
{
    let v = rounding::scaled(p);
    rounding::lemma_root_at_most(v * v, p);
    rounding::lemma_root_exists(v * v);
    let q = rounding::round_root(v * v);
    Binary64::lemma_scaled_sign(p);
    if q < p {
        Binary64::lemma_scaled_sign(q);
        Binary64::lemma_scaled_sign(q + 1);
        if q + 1 < p {
            rounding::lemma_scaled_increases(q + 1, p);
        }
        rounding::lemma_scaled_increases(q, p);
        let m = rounding::scaled(q) + rounding::scaled(q + 1);
        assert(m * m < 4 * (v * v)) by (nonlinear_arith)
            requires
                0 <= m < 2 * v,
        ;
    }
}

/// For one equation in one variable the component of the gradient is the product
/// of derivative and residual.
pub proof fn law_single_component(c: Binary64, r: Binary64)
    requires
        c.finite() && r.finite(),
        !c.zero() && !r.zero(),
    ensures
        merit::component(seq![c], seq![r]) == c * r,
{
    let none = Seq::<Binary64>::empty();
    assert(seq![c].drop_last() =~= none && seq![r].drop_last() =~= none);
    assert(grid::largest(none) == Binary64::zero_value());
    assert(grid::largest(seq![c]) == c.magnitude());
    assert(grid::largest(seq![r]) == r.magnitude());
    let x = c / c.magnitude();
    let y = r / r.magnitude();
    lemma_over_own(c);
    lemma_over_own(r);
    lemma_signed_one(c.negative(), y);
    let one = Binary64::signed(c.negative() != r.negative(), binary64::ONE as int);
    assert(x * y == one);
    let terms = grid::products(
        grid::over(seq![c], c.magnitude()),
        grid::over(seq![r], r.magnitude()),
    );
    assert(terms =~= seq![one]);
    lemma_one_term(one);
    assert(merit::scaled_dot(seq![c], seq![r]) == one);
    lemma_signed_one(one.negative(), c.magnitude());
    lemma_signed_one(one.negative(), r.magnitude());
    reveal(Binary64::spec_mul);
    let a = rounding::scaled(c.pattern());
    let b = rounding::scaled(r.pattern());
    assert(a * b == b * a) by (nonlinear_arith);
}

/// For one equation in one variable the gradient norm is the magnitude of the
/// product of derivative and residual.
pub proof fn law_single_gradient(jacobian: Grid, c: Binary64, r: Binary64)
    requires
        c.finite() && r.finite(),
        !c.zero() && !r.zero(),
        (c * r).finite(),
        jacobian.cols == 1,
        jacobian.column(0) == seq![c],
    ensures
        merit::gradient_measure(jacobian, seq![r]).absolute_norm == (c * r).magnitude(),
{
    law_single_component(c, r);
    let none = Seq::<Binary64>::empty();
    assert(seq![c].drop_last() =~= none && seq![r].drop_last() =~= none);
    assert(grid::largest(none) == Binary64::zero_value());
    let zero = Binary64::zero_value();
    let head = merit::gradient_over(jacobian, seq![r], 0);
    assert(head.0 == zero);
    assert(merit::gradient_over(jacobian, seq![r], 1).0 == zero.hypotenuse(c * r));
    reveal(Binary64::hypotenuse);
    Binary64::lemma_scaled_sign(0);
    let p = (c * r).pattern();
    let v = rounding::scaled(p);
    assert(0 * 0 + v * v == v * v) by (nonlinear_arith);
    if p > 0 {
        lemma_root_of_square(p);
    } else {
        assert(0 * 0 + 0 * 0 == 0) by (nonlinear_arith);
        binary64::lemma_root_zero();
    }
}

} // verus!
