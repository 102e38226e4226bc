//! How close scaled products and quotients are to exact ones.
use crate::binary64::{Binary64, ONE, TWO};
use crate::rounding;
use crate::rounding::{HIDDEN, INFINITY};
use crate::scaled;
use crate::scaled::{ScaledValue, MOST_DENOMINATORS, MOST_NUMERATORS};
use vstd::arithmetic::power2::*;
use vstd::prelude::*;

verus! {

/// Two to an integer power.
pub open spec fn power(e: int) -> real {
    rounding::up_factor(e) as real / rounding::down_factor(e) as real
}

/// The magnitude of a finite number.
pub open spec fn amount(x: Binary64) -> real {
    rounding::scaled(x.pattern()) as real / pow2(1074) as real
}

/// The exact product of magnitudes.
pub open spec fn exact(values: Seq<Binary64>) -> real
    decreases values.len(),
{
    if values.len() == 0 {
        1 as real
    } else {
        exact(values.drop_last()) * amount(values.last())
    }
}

/// Largest relative error of one rounding.
pub open spec fn grain() -> real {
    1 as real / (2 * HIDDEN) as real
}

/// The largest that `k` roundings make of one.
pub open spec fn stretch(k: nat) -> real
    decreases k,
{
    if k == 0 {
        1 as real
    } else {
        stretch((k - 1) as nat) * (1 as real + grain())
    }
}

/// The smallest that `k` roundings make of one.
pub open spec fn shrink(k: nat) -> real
    decreases k,
{
    if k == 0 {
        1 as real
    } else {
        shrink((k - 1) as nat) * (1 as real - grain())
    }
}

/// `x` differs from `y` by no more than `k` roundings.
pub open spec fn near(x: real, y: real, k: nat) -> bool {
    y * shrink(k) <= x && x <= y * stretch(k)
}

pub(crate) proof fn lemma_powers(a: int, b: int)
    ensures
        power(a + b) == power(a) * power(b),
        power(a) > 0 as real,
{
    lemma_factor_signs(a);
    lemma_factor_signs(b);
    lemma_factor_signs(a + b);
    let ua = rounding::up_factor(a);
    let ub = rounding::up_factor(b);
    let uc = rounding::up_factor(a + b);
    let da = rounding::down_factor(a);
    let db = rounding::down_factor(b);
    let dc = rounding::down_factor(a + b);
    lemma_factor_products(a, b);
    assert(uc as real / dc as real == (ua as real / da as real) * (ub as real / db as real))
        by (nonlinear_arith)
        requires
            uc * da * db == ua * ub * dc,
            da > 0,
            db > 0,
            dc > 0,
    ;
    assert(ua as real / da as real > 0 as real) by (nonlinear_arith)
        requires
            ua > 0,
            da > 0,
    ;
}

/// The factors of a sum of exponents.
pub(crate) proof fn lemma_factor_products(a: int, b: int)
    ensures
        rounding::up_factor(a + b) * rounding::down_factor(a) * rounding::down_factor(b)
            == rounding::up_factor(a) * rounding::up_factor(b) * rounding::down_factor(a + b),
{
    let ua = rounding::up_factor(a);
    let ub = rounding::up_factor(b);
    let uc = rounding::up_factor(a + b);
    let da = rounding::down_factor(a);
    let db = rounding::down_factor(b);
    let dc = rounding::down_factor(a + b);
    assert(uc * da * db == ua * ub * dc) by {
        if a >= 0 && b >= 0 {
            lemma_pow2_adds(a as nat, b as nat);
        } else if a < 0 && b < 0 {
            lemma_pow2_adds((-a) as nat, (-b) as nat);
        } else if a >= 0 {
            if a + b >= 0 {
                lemma_pow2_adds((a + b) as nat, (-b) as nat);
            } else {
                lemma_pow2_adds((-a - b) as nat, a as nat);
            }
        } else {
            if a + b >= 0 {
                lemma_pow2_adds((a + b) as nat, (-a) as nat);
            } else {
                lemma_pow2_adds((-a - b) as nat, b as nat);
            }
        }
        assert(uc * da * db == ua * ub * dc) by (nonlinear_arith)
            requires
                (da == 1 && db == 1 && dc == 1 && uc == ua * ub)
                || (ua == 1 && ub == 1 && uc == 1 && dc == da * db)
                || (da == 1 && ub == 1 && dc == 1 && ua == uc * db)
                || (da == 1 && ub == 1 && uc == 1 && db == dc * ua)
                || (ua == 1 && db == 1 && dc == 1 && ub == uc * da)
                || (ua == 1 && db == 1 && uc == 1 && da == dc * ub),
        ;
    }
}

pub(crate) proof fn lemma_factor_signs(e: int)
    ensures
        rounding::up_factor(e) > 0,
        rounding::down_factor(e) > 0,
{
    if e >= 0 {
        lemma_pow2_pos(e as nat);
    } else {
        lemma_pow2_pos((-e) as nat);
    }
}

/// Neighbouring magnitudes differ by a small part of the lower one.
pub(crate) proof fn lemma_gap(p: int)
    requires
        p >= HIDDEN,
    ensures
        0 < rounding::scaled(p),
        rounding::scaled(p) < rounding::scaled(p + 1),
        (rounding::scaled(p + 1) - rounding::scaled(p)) * HIDDEN <= rounding::scaled(p),
{
    let (e, q) = rounding::lemma_split(p);
    rounding::lemma_scaled(e, q + 1);
    lemma_pow2_pos(e);
    let u = pow2(e) as int;
    assert(0 < q * u && q * u < (q + 1) * u && ((q + 1) * u - q * u) * HIDDEN <= q * u)
        by (nonlinear_arith)
        requires
            q >= HIDDEN,
            u > 0,
    ;
}

/// Rounding to a normal magnitude errs by no more than one grain.
pub(crate) proof fn lemma_rounded(n: int, d: int)
    requires
        d > 0,
        HIDDEN < rounding::round_ratio(n, d) < INFINITY,
    ensures
        near(
            rounding::scaled(rounding::round_ratio(n, d)) as real,
            n as real / d as real,
            1,
        ),
        n > 0,
{
    let p = rounding::round_ratio(n, d);
    rounding::lemma_ratio_exists(n, d);
    lemma_gap(p);
    lemma_gap(p - 1);
    let a = rounding::scaled(p - 1);
    let b = rounding::scaled(p);
    let c = rounding::scaled(p + 1);
    let h = HIDDEN as int;
    assert(n > 0) by (nonlinear_arith)
        requires
            (a + b) * d <= 2 * n,
            a > 0,
            b > 0,
            d > 0,
    ;
    // The error times twice the width of a significand is within n.
    assert((b * d - n) * (2 * h) <= n) by (nonlinear_arith)
        requires
            (a + b) * d <= 2 * n,
            (b - a) * h <= a,
            a > 0,
            b > a,
            d > 0,
            h > 0,
    {
        assert(2 * (b * d - n) <= (b - a) * d);
        assert(2 * (b * d - n) * h <= ((b - a) * d) * h);
        assert(((b - a) * d) * h == ((b - a) * h) * d);
        assert(((b - a) * h) * d <= a * d);
        assert(2 * (a * d) <= (a + b) * d);
    }
    assert((n - b * d) * (2 * h) <= n) by (nonlinear_arith)
        requires
            2 * n <= (b + c) * d,
            (c - b) * h <= b,
            n > 0,
            b > 0,
            c > b,
            d > 0,
            h > 0,
    {
        if n <= b * d {
            assert((n - b * d) * (2 * h) <= 0);
        } else {
            assert(2 * (n - b * d) <= (c - b) * d);
            assert(2 * (n - b * d) * h <= ((c - b) * d) * h);
            assert(((c - b) * d) * h == ((c - b) * h) * d);
            assert(((c - b) * h) * d <= b * d);
        }
    }
    reveal_with_fuel(stretch, 2);
    reveal_with_fuel(shrink, 2);
    let g = grain();
    assert((n as real / d as real) * (1 as real * (1 as real - g)) <= b as real && b as real <= (
    n as real / d as real) * (1 as real * (1 as real + g))) by (nonlinear_arith)
        requires
            g == 1 as real / (2 * h) as real,
            (b * d - n) * (2 * h) <= n,
            (n - b * d) * (2 * h) <= n,
            d > 0,
            h > 0,
    ;
}

/// A product whose magnitude is normal errs by no more than one grain.
pub proof fn law_product_near(a: Binary64, b: Binary64)
    requires
        a.finite() && b.finite(),
        HIDDEN < (a * b).pattern() < INFINITY,
    ensures
        near(amount(a * b), amount(a) * amount(b), 1),
{
    reveal(Binary64::spec_mul);
    let x = rounding::scaled(a.pattern());
    let y = rounding::scaled(b.pattern());
    let t = pow2(1074) as int;
    lemma_pow2_pos(1074);
    rounding::lemma_ratio_exists(x * y, t);
    lemma_rounded(x * y, t);
    let p = rounding::scaled(rounding::round_ratio(x * y, t));
    let lo = shrink(1);
    let hi = stretch(1);
    assert((x as real / t as real) * (y as real / t as real) * lo <= p as real / t as real
        && p as real / t as real <= (x as real / t as real) * (y as real / t as real) * hi)
        by (nonlinear_arith)
        requires
            ((x * y) as real / t as real) * lo <= p as real,
            p as real <= ((x * y) as real / t as real) * hi,
            t > 0,
    {
        assert((x * y) as real == x as real * y as real);
        assert((x as real / t as real) * (y as real / t as real) == ((x * y) as real / t as real)
            / t as real);
    }
}

/// A quotient whose magnitude is normal errs by no more than one grain.
pub proof fn law_quotient_near(a: Binary64, b: Binary64)
    requires
        a.finite() && b.finite(),
        !b.zero(),
        HIDDEN < (a / b).pattern() < INFINITY,
    ensures
        near(amount(a / b), amount(a) / amount(b), 1),
{
    reveal(Binary64::spec_euclidean_or_real_div);
    let x = rounding::scaled(a.pattern());
    let y = rounding::scaled(b.pattern());
    let t = pow2(1074) as int;
    lemma_pow2_pos(1074);
    Binary64::lemma_scaled_sign(b.pattern());
    rounding::lemma_ratio_exists(x * t, y);
    lemma_rounded(x * t, y);
    let p = rounding::scaled(rounding::round_ratio(x * t, y));
    let lo = shrink(1);
    let hi = stretch(1);
    assert(((x as real / t as real) / (y as real / t as real)) * lo <= p as real / t as real
        && p as real / t as real <= ((x as real / t as real) / (y as real / t as real)) * hi)
        by (nonlinear_arith)
        requires
            ((x * t) as real / y as real) * lo <= p as real,
            p as real <= ((x * t) as real / y as real) * hi,
            t > 0,
            y > 0,
    {
        assert((x * t) as real == x as real * t as real);
        assert((x as real / t as real) / (y as real / t as real) == x as real / y as real);
        assert((x * t) as real / y as real == (x as real / y as real) * t as real);
    }
}

/// A number is its significand times two to its exponent.
proof fn lemma_parts_amount(value: Binary64)
    requires
        !value.zero(),
    ensures
        amount(value) == amount(scaled::significand_of(value)) * power(
            scaled::exponent_of(value),
        ),
        amount(value) > 0 as real,
        1 as real <= amount(scaled::significand_of(value)) && amount(
            scaled::significand_of(value),
        ) < 2 as real,
{
    scaled::law_splits(value);
    let e = scaled::exponent_of(value);
    lemma_factor_signs(e);
    scaled::lemma_significand_range(scaled::significand_of(value));
    Binary64::lemma_scaled_sign(value.pattern());
    lemma_pow2_pos(1074);
    lemma_pow2_unfold(1075);
    let v = rounding::scaled(value.pattern());
    let s = rounding::scaled(scaled::significand_of(value).pattern());
    let u = rounding::up_factor(e);
    let d = rounding::down_factor(e);
    let t = pow2(1074) as int;
    assert(v as real / t as real == (s as real / t as real) * (u as real / d as real) && (v as real
        / t as real) > 0 as real && 1 as real <= (s as real / t as real) && (s as real / t as real)
        < 2 as real) by (nonlinear_arith)
        requires
            v * d == s * u,
            t <= s < 2 * t,
            v > 0,
            d > 0,
            t > 0,
    ;
}

proof fn lemma_exact_positive(values: Seq<Binary64>)
    requires
        forall|i: int| 0 <= i < values.len() ==> !(#[trigger] values[i]).zero(),
    ensures
        exact(values) > 0 as real,
    decreases values.len(),
{
    if values.len() > 0 {
        let head = values.drop_last();
        assert forall|i: int| 0 <= i < head.len() implies !(#[trigger] head[i]).zero() by {
            assert(head[i] == values[i]);
        }
        lemma_exact_positive(head);
        assert(!values[values.len() - 1].zero());
        lemma_parts_amount(values.last());
        let x = exact(head);
        let y = amount(values.last());
        assert(x * y > 0 as real) by (nonlinear_arith)
            requires
                x > 0 as real,
                y > 0 as real,
        ;
    }
}

/// Small factors stay close to one.
proof fn lemma_small(k: nat)
    requires
        k <= 2100,
    ensures
        shrink(k) > 0 as real,
        1 as real - k as real * grain() <= shrink(k),
        1 as real <= stretch(k),
        stretch(k) * shrink(k) <= 1 as real,
    decreases k,
{
    let g = grain();
    let h = HIDDEN as int;
    assert(g > 0 as real && g * 2100 as real <= 1 as real / 2 as real) by (nonlinear_arith)
        requires
            g == 1 as real / (2 * h) as real,
            h >= 2100,
    ;
    if k > 0 {
        lemma_small((k - 1) as nat);
        let a = shrink((k - 1) as nat);
        let b = stretch((k - 1) as nat);
        let m = (k - 1) as real;
        assert(m == k as real - 1 as real);
        assert(a * (1 as real - g) > 0 as real && 1 as real - (m + 1 as real) * g <= a * (1 as real
            - g) && 1 as real <= b * (1 as real + g) && (b * (1 as real + g)) * (a * (1 as real - g))
            <= 1 as real) by (nonlinear_arith)
            requires
                g > 0 as real,
                g * 2100 as real <= 1 as real / 2 as real,
                0 as real <= m,
                m <= 2100 as real,
                a > 0 as real,
                1 as real - m * g <= a,
                1 as real <= b,
                b * a <= 1 as real,
        {
            assert((1 as real - m * g) * (1 as real - g) <= a * (1 as real - g));
            assert(m * g * g >= 0 as real);
            assert((b * (1 as real + g)) * (a * (1 as real - g)) == (b * a) * (1 as real - g * g));
            assert(g * g >= 0 as real);
            assert(1 as real - g * g >= 0 as real);
            assert((b * a) * (1 as real - g * g) <= 1 as real * (1 as real - g * g));
        }
        assert(k as real == m + 1 as real);
    } else {
        assert(0 as real * g == 0 as real) by (nonlinear_arith);
    }
}

/// One more rounding.
proof fn lemma_near_step(x: real, y: real, k: nat, z: real, f: real)
    requires
        near(x, y, k),
        near(z, x * f, 1),
        f > 0 as real,
        k <= 2099,
    ensures
        near(z, y * f, k + 1),
{
    lemma_small(k);
    lemma_small(1);
    reveal_with_fuel(stretch, 2);
    reveal_with_fuel(shrink, 2);
    let a = shrink(k);
    let b = stretch(k);
    let p = 1 as real + grain();
    let m = 1 as real - grain();
    assert(shrink(1) == m && stretch(1) == p) by (nonlinear_arith)
        requires
            shrink(1) == 1 as real * m,
            stretch(1) == 1 as real * p,
    ;
    assert((y * f) * (a * m) <= z && z <= (y * f) * (b * p)) by (nonlinear_arith)
        requires
            y * a <= x,
            x <= y * b,
            (x * f) * m <= z,
            z <= (x * f) * p,
            f > 0 as real,
            m > 0 as real,
            p > 0 as real,
    {
        assert((y * a) * (f * m) <= x * (f * m)) by (nonlinear_arith)
            requires
                y * a <= x,
                f > 0 as real,
                m > 0 as real,
        {
            assert(f * m > 0 as real);
        }
        assert(x * (f * p) <= (y * b) * (f * p)) by (nonlinear_arith)
            requires
                x <= y * b,
                f > 0 as real,
                p > 0 as real,
        {
            assert(f * p > 0 as real);
        }
        assert((y * f) * (a * m) == (y * a) * (f * m));
        assert((y * f) * (b * p) == (y * b) * (f * p));
        assert((x * f) * m == x * (f * m));
        assert((x * f) * p == x * (f * p));
    }
}

/// Both sides of a comparison times one factor.
pub(crate) proof fn lemma_near_times(x: real, y: real, k: nat, f: real)
    requires
        near(x, y, k),
        f > 0 as real,
    ensures
        near(x * f, y * f, k),
{
    let a = shrink(k);
    let b = stretch(k);
    assert((y * f) * a <= x * f && x * f <= (y * f) * b) by (nonlinear_arith)
        requires
            y * a <= x,
            x <= y * b,
            f > 0 as real,
    {
        assert((y * f) * a == (y * a) * f);
        assert((y * f) * b == (y * b) * f);
    }
}

proof fn lemma_product_near(values: Seq<Binary64>)
    requires
        values.len() <= MOST_NUMERATORS,
        forall|i: int| 0 <= i < values.len() ==> !(#[trigger] values[i]).zero(),
    ensures
        near(
            amount(ScaledValue::product(values).0) * power(ScaledValue::product(values).1),
            exact(values),
            values.len(),
        ),
    decreases values.len(),
{
    if values.len() == 0 {
        lemma_unit();
    } else {
        let head = values.drop_last();
        assert forall|i: int| 0 <= i < head.len() implies !(#[trigger] head[i]).zero() by {
            assert(head[i] == values[i]);
        }
        lemma_product_near(head);
        scaled::lemma_product_bounds(head);
        let (s, e) = ScaledValue::product(head);
        let k = head.len() as int;
        let last = values.last();
        assert(!values[values.len() - 1].zero());
        lemma_parts_amount(last.magnitude());
        assert(amount(last) == amount(last.magnitude()));
        scaled::law_splits(last.magnitude());
        let f = scaled::significand_of(last.magnitude());
        let g = scaled::exponent_of(last.magnitude());
        scaled::lemma_significand_range(f);
        scaled::lemma_within(s, 0, k);
        scaled::lemma_product_within(s, f, 0, k);
        scaled::lemma_within(s * f, 0, k + 1);
        scaled::lemma_binade(0);
        law_product_near(s, f);
        lemma_powers(e, g);
        lemma_powers(g, e);
        let pe = power(e);
        let pg = power(g);
        let z = amount(s * f);
        let x = amount(s);
        let y = amount(f);
        assert(pe * pg > 0 as real) by (nonlinear_arith)
            requires
                pe > 0 as real,
                pg > 0 as real,
        ;
        lemma_near_times(z, x * y, 1, pe * pg);
        assert((x * y) * (pe * pg) == (x * pe) * (y * pg)) by (nonlinear_arith);
        lemma_near_step(x * pe, exact(head), head.len(), z * (pe * pg), y * pg);
    }
}

proof fn lemma_unit()
    ensures
        amount(Binary64::one()) == 1 as real,
        power(0) == 1 as real,
        near(amount(Binary64::one()) * power(0), 1 as real, 0),
{
    scaled::lemma_binade(0);
    lemma_pow2_pos(1074);
    lemma2_to64();
    let t = pow2(1074) as int;
    assert(scaled::binade(0) == ONE);
    assert(t as real / t as real == 1 as real && 1 as real / 1 as real == 1 as real && 1 as real
        * 1 as real == 1 as real) by (nonlinear_arith)
        requires
            t > 0,
    ;
}

proof fn lemma_divided_near(
    start: (Binary64, int),
    values: Seq<Binary64>,
    count: int,
    whole: real,
    k: nat,
)
    requires
        values.len() <= MOST_DENOMINATORS,
        0 <= count <= MOST_NUMERATORS,
        k <= MOST_NUMERATORS,
        scaled::within(start.0, 0, count),
        near(amount(start.0) * power(start.1), whole, k),
        forall|i: int| 0 <= i < values.len() ==> !(#[trigger] values[i]).zero(),
    ensures
        near(
            amount(ScaledValue::divided(start, values).0) * power(
                ScaledValue::divided(start, values).1,
            ),
            whole / exact(values),
            k + values.len(),
        ),
    decreases values.len(),
{
    if values.len() == 0 {
        assert(whole / 1 as real == whole) by (nonlinear_arith);
    } else {
        let head = values.drop_last();
        assert forall|i: int| 0 <= i < head.len() implies !(#[trigger] head[i]).zero() by {
            assert(head[i] == values[i]);
        }
        lemma_divided_near(start, head, count, whole, k);
        scaled::lemma_divided_bounds(start, head, count);
        lemma_exact_positive(head);
        let (s, e) = ScaledValue::divided(start, head);
        let j = head.len() as int;
        let last = values.last();
        assert(!values[values.len() - 1].zero());
        lemma_parts_amount(last.magnitude());
        assert(amount(last) == amount(last.magnitude()));
        scaled::law_splits(last.magnitude());
        let f = scaled::significand_of(last.magnitude());
        let g = scaled::exponent_of(last.magnitude());
        scaled::lemma_significand_range(f);
        scaled::lemma_within(s, j, count);
        scaled::lemma_quotient_within(s, f, j, count);
        scaled::lemma_within(s / f, j + 1, count);
        scaled::lemma_binade(-j - 1);
        law_quotient_near(s, f);
        lemma_powers(e - g, g);
        lemma_powers(g, e - g);
        let pe = power(e);
        let pg = power(g);
        let pr = power(e - g);
        let z = amount(s / f);
        let x = amount(s);
        let y = amount(f);
        lemma_near_times(z, x / y, 1, pr);
        let w = 1 as real / (y * pg);
        assert((x / y) * pr == (x * pe) * w && w > 0 as real) by (nonlinear_arith)
            requires
                pe == pr * pg,
                w == 1 as real / (y * pg),
                y > 0 as real,
                pg > 0 as real,
        {
            assert(y * pg > 0 as real);
            assert((x * (pr * pg)) * (1 as real / (y * pg)) == (x * pr) / y);
        }
        let before = exact(head);
        lemma_near_step(x * pe, whole / before, k + head.len(), z * pr, w);
        assert((whole / before) * w == whole / (before * (y * pg))) by (nonlinear_arith)
            requires
                w == 1 as real / (y * pg),
                before > 0 as real,
                y > 0 as real,
                pg > 0 as real,
        {
            assert(y * pg > 0 as real);
            assert(before * (y * pg) > 0 as real);
        }
    }
}

/// A significand and an exponent in the normal range compose exactly.
proof fn lemma_composed(significand: Binary64, e: int)
    requires
        ONE <= significand.pattern() < TWO,
        -1022 <= e <= 1023,
    ensures
        scaled::composed(significand, e).finite(),
        amount(scaled::composed(significand, e)) == amount(significand) * power(e),
{
    let q = HIDDEN + (significand.pattern() - ONE);
    let place = (e + 1022) as nat;
    let pattern = place * HIDDEN + q;
    let value = Binary64::signed(false, pattern);
    let s = significand.magnitude();
    rounding::lemma_scaled(place, q);
    lemma2_to64();
    assert(q * 1 == q) by (nonlinear_arith);
    scaled::lemma_splits(value, q, place, 0);
    scaled::law_split_composes(value);
    lemma_parts_amount(value);
    assert(scaled::significand_of(value).bits == s.bits);
    assert(scaled::composed(s, e) == value);
    lemma_factor_signs(e);
    rounding::lemma_ratio_exists(
        rounding::scaled(s.pattern()) * rounding::up_factor(e),
        rounding::down_factor(e),
    );
    assert(scaled::composed(significand, e).pattern() == value.pattern());
}

/// A significand and an exponent below the normal range compose to within half
/// of the smallest magnitude.
proof fn lemma_composed_low(significand: Binary64, e: int)
    requires
        ONE <= significand.pattern() < TWO,
        e < -1022,
    ensures
        scaled::composed(significand, e).finite(),
        amount(scaled::composed(significand, e)) - power(-1075) <= amount(significand) * power(e),
        amount(significand) * power(e) <= amount(scaled::composed(significand, e)) + power(-1075),
        scaled::composed(significand, e).zero() ==> amount(significand) * power(e) <= power(-1075),
{
    scaled::lemma_significand_range(significand.magnitude());
    let a = rounding::scaled(significand.pattern());
    let d = pow2((-e) as nat) as int;
    let t = pow2(1074) as int;
    let h = HIDDEN as int;
    let p = rounding::round_ratio(a * 1, d);
    lemma_pow2_pos(1074);
    lemma_pow2_unfold(1075);
    lemma2_to64();
    lemma2_to64_rest();
    lemma_pow2_adds(52, 1023);
    rounding::lemma_pow2_le(1023, (-e) as nat);
    rounding::lemma_scaled(0, 0);
    rounding::lemma_scaled(0, h);
    assert(a * 1 == a && 0 * d == 0 && h * 1 == h) by (nonlinear_arith);
    let least = pow2(1023) as int;
    assert(h * least <= h * d) by (nonlinear_arith)
        requires
            least <= d,
            h > 0,
    ;
    rounding::lemma_ratio_between(a, d, 0, h);
    rounding::lemma_ratio_exists(a, d);
    rounding::lemma_scaled(0, p);
    rounding::lemma_scaled(0, p + 1);
    if p > 0 {
        rounding::lemma_scaled(0, p - 1);
    }
    assert(p * 1 == p && (p + 1) * 1 == p + 1 && (p - 1) * 1 == p - 1) by (nonlinear_arith);
    assert(p + (p + 1) == 2 * p + 1 && (p - 1) + p == 2 * p - 1);
    assert(scaled::composed(significand, e).pattern() == p);
    lemma_low_bounds(a, d, t, p);
}

proof fn lemma_low_bounds(a: int, d: int, t: int, p: int)
    requires
        0 < a,
        0 < d,
        0 < t,
        0 <= p,
        2 * a <= (2 * p + 1) * d,
        p > 0 ==> (2 * p - 1) * d <= 2 * a,
    ensures
        p as real / t as real - 1 as real / (2 * t) as real <= (a as real / t as real) * (1 as real
            / d as real),
        (a as real / t as real) * (1 as real / d as real) <= p as real / t as real + 1 as real / (2
            * t) as real,
        p == 0 ==> (a as real / t as real) * (1 as real / d as real) <= 1 as real / (2 * t) as real,
{
    let z = a as real / d as real;
    assert(z > 0 as real && 2 as real * z <= (2 * p + 1) as real) by (nonlinear_arith)
        requires
            z == a as real / d as real,
            2 * a <= (2 * p + 1) * d,
            0 < a,
            0 < d,
    ;
    assert((2 * p - 1) as real <= 2 as real * z) by {
        if p > 0 {
            assert((2 * p - 1) as real <= 2 as real * z) by (nonlinear_arith)
                requires
                    z == a as real / d as real,
                    (2 * p - 1) * d <= 2 * a,
                    0 < d,
            ;
        }
    }
    let y = (a as real / t as real) * (1 as real / d as real);
    assert(y == z / t as real) by (nonlinear_arith)
        requires
            y == (a as real / t as real) * (1 as real / d as real),
            z == a as real / d as real,
            0 < d,
            0 < t,
    ;
    let q = p as real;
    let r = t as real;
    assert((2 * t) as real == 2 as real * r);
    assert(q / r - 1 as real / (2 as real * r) <= z / r && z / r <= q / r + 1 as real / (2 as real
        * r)) by (nonlinear_arith)
        requires
            2 as real * z <= 2 as real * q + 1 as real,
            2 as real * q - 1 as real <= 2 as real * z,
            r > 0 as real,
    ;
    if p == 0 {
        assert(q / r == 0 as real) by (nonlinear_arith)
            requires
                q == 0 as real,
                r > 0 as real,
        ;
    }
}

/// A significand and an exponent above the normal range overflow.
proof fn lemma_composed_high(significand: Binary64, e: int)
    requires
        ONE <= significand.pattern() < TWO,
        e > 1023,
    ensures
        scaled::composed(significand, e).infinite(),
{
    scaled::lemma_significand_range(significand.magnitude());
    let a = rounding::scaled(significand.pattern());
    let u = pow2(e as nat) as int;
    lemma2_to64();
    lemma2_to64_rest();
    rounding::lemma_scaled(2046, HIDDEN as int);
    assert(INFINITY == 2046 * HIDDEN + HIDDEN);
    lemma_pow2_adds(52, 2046);
    lemma_pow2_adds(1074, e as nat);
    rounding::lemma_pow2_le(2098, (1074 + e) as nat);
    lemma_pow2_pos(e as nat);
    assert(a * u >= pow2(1074) * u) by (nonlinear_arith)
        requires
            a >= pow2(1074),
            u > 0,
    ;
    rounding::lemma_ratio_between(a * u, 1, INFINITY as int, INFINITY as int);
}

/// The larger of two powers of two has the larger exponent.
pub(crate) proof fn lemma_power_order(a: int, b: int)
    requires
        power(a) < power(b),
    ensures
        a < b,
{
    if a >= b {
        lemma_powers(b, a - b);
        lemma_powers(a - b, b);
        lemma_pow2_pos((a - b) as nat);
        let p = pow2((a - b) as nat) as int;
        let x = power(b);
        let y = power(a - b);
        assert(x <= x * y) by (nonlinear_arith)
            requires
                x > 0 as real,
                y == p as real / 1 as real,
                p >= 1,
        ;
    }
}

/// The pair of significand and exponent that a ratio is rounded from.
proof fn lemma_pair_near(numerators: Seq<Binary64>, denominators: Seq<Binary64>) -> (y: real)
    requires
        numerators.len() <= MOST_NUMERATORS,
        denominators.len() <= MOST_DENOMINATORS,
        forall|i: int| 0 <= i < numerators.len() ==> !(#[trigger] numerators[i]).zero(),
        forall|i: int| 0 <= i < denominators.len() ==> !(#[trigger] denominators[i]).zero(),
    ensures
        ({
            let pair = ScaledValue::ratio(numerators, denominators);
            &&& ONE <= pair.0.pattern() < TWO
            &&& y == amount(pair.0) * power(pair.1)
            &&& power(pair.1) <= y
            &&& y < power(pair.1 + 1)
            &&& scaled::ratio(numerators, denominators) == scaled::composed(pair.0, pair.1)
        }),
        near(
            y,
            exact(numerators) / exact(denominators),
            numerators.len() + denominators.len(),
        ),
{
    let n = numerators.len();
    let d = denominators.len();
    let start = ScaledValue::product(numerators);
    let (q, e) = ScaledValue::divided(start, denominators);
    lemma_product_near(numerators);
    scaled::lemma_product_bounds(numerators);
    lemma_divided_near(start, denominators, n as int, exact(numerators), n);
    scaled::lemma_divided_bounds(start, denominators, n as int);
    scaled::lemma_within(q, d as int, n as int);
    let negative = ScaledValue::odd_signs(numerators) != ScaledValue::odd_signs(denominators);
    let signed = if negative {
        q.negated()
    } else {
        q
    };
    assert(signed.magnitude() == q);
    lemma_parts_amount(q);
    scaled::law_splits(q);
    scaled::lemma_significand_range(scaled::significand_of(q));
    let s = amount(scaled::significand_of(q));
    let g = scaled::exponent_of(q);
    lemma_powers(g, e);
    lemma_powers(e, g);
    lemma_powers(e + g, 0);
    lemma_doubled(e + g);
    let y = s * power(e + g);
    let pe = power(e);
    let pg = power(g);
    assert((s * pg) * pe == s * (pe * pg)) by (nonlinear_arith);
    let pair = ScaledValue::normal(signed, e);
    assert(amount(pair.0) == s);
    let p = power(e + g);
    assert(p <= y && y < 2 as real * p) by (nonlinear_arith)
        requires
            y == s * p,
            s >= 1 as real,
            s < 2 as real,
            p > 0 as real,
    ;
    y
}

/// The smaller exponent has the smaller power of two.
pub(crate) proof fn lemma_power_monotone(a: int, b: int)
    requires
        a <= b,
    ensures
        power(a) <= power(b),
        power(a) > 0 as real,
{
    lemma_powers(a, 0);
    if power(b) < power(a) {
        lemma_power_order(b, a);
    }
}

/// A product over another product is not lost on the way, whatever the products
/// of some of the factors would be. The exact value is changed by no more than
/// one rounding for each factor, and then once more, by no more than half of the
/// smallest magnitude, where the result is below the normal range. It is finite
/// where the roundings cannot take the exact value out of the range of the
/// numbers, and infinite where they cannot bring it into it.
pub proof fn law_ratio_near(numerators: Seq<Binary64>, denominators: Seq<Binary64>)
    requires
        numerators.len() <= MOST_NUMERATORS,
        denominators.len() <= MOST_DENOMINATORS,
        forall|i: int| 0 <= i < numerators.len() ==> !(#[trigger] numerators[i]).zero(),
        forall|i: int| 0 <= i < denominators.len() ==> !(#[trigger] denominators[i]).zero(),
    ensures
        ({
            let result = scaled::ratio(numerators, denominators);
            let whole = exact(numerators) / exact(denominators);
            let k = numerators.len() + denominators.len();
            let low = whole * shrink(k);
            let high = whole * stretch(k);
            &&& high < power(1024) ==> {
                &&& result.finite()
                &&& low - power(-1075) <= amount(result)
                &&& amount(result) <= high + power(-1075)
            }
            &&& high < power(1024) && low >= power(-1022) ==> near(amount(result), whole, k)
            &&& low >= power(1024) ==> result.infinite()
            &&& low > power(-1075) ==> !result.zero()
        }),
{
    let result = scaled::ratio(numerators, denominators);
    let whole = exact(numerators) / exact(denominators);
    let k = numerators.len() + denominators.len();
    let y = lemma_pair_near(numerators, denominators);
    let pair = ScaledValue::ratio(numerators, denominators);
    let low = whole * shrink(k);
    let high = whole * stretch(k);
    assert(low <= y && y <= high);
    lemma_power_monotone(-1075, -1022);
    lemma_power_monotone(-1022, 1024);
    if pair.1 < -1022 {
        lemma_composed_low(pair.0, pair.1);
        lemma_power_monotone(pair.1 + 1, -1022);
    } else if pair.1 <= 1023 {
        lemma_composed(pair.0, pair.1);
        lemma_power_monotone(pair.1 + 1, 1024);
        lemma_power_monotone(pair.1, pair.1);
        if result.zero() {
            Binary64::lemma_scaled_sign(0);
            lemma_pow2_pos(1074);
            let t = pow2(1074) as int;
            assert(0 as real / t as real == 0 as real) by (nonlinear_arith)
                requires
                    t > 0,
            ;
        }
    } else {
        lemma_composed_high(pair.0, pair.1);
        lemma_power_monotone(1024, pair.1);
    }
}

pub(crate) proof fn lemma_doubled(e: int)
    ensures
        power(e + 1) == 2 as real * power(e),
{
    lemma_powers(e, 1);
    lemma2_to64();
    let x = power(e);
    let y = power(1);
    assert(x * y == 2 as real * x) by (nonlinear_arith)
        requires
            y == 2 as real / 1 as real,
    ;
}

} // verus!
