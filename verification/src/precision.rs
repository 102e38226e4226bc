//! How close single operations are to exact ones over the real numbers.
use crate::accuracy;
use crate::binary64::Binary64;
use crate::rounding;
use crate::rounding::{HIDDEN, INFINITY};
use vstd::arithmetic::power2::*;
use vstd::prelude::*;

verus! {

/// The real number that a finite number stands for.
pub open spec fn worth(x: Binary64) -> real {
    x.value() as real / pow2(1074) as real
}

/// The absolute value of a real number.
pub open spec fn size(x: real) -> real {
    if x < 0 as real {
        -x
    } else {
        x
    }
}

/// `x` differs from `y` by no more than `slack`.
pub open spec fn close(x: real, y: real, slack: real) -> bool {
    size(x - y) <= slack
}

/// Half of the smallest positive number.
pub open spec fn tiny() -> real {
    accuracy::power(-1075)
}

/// A number is its magnitude with its sign.
pub proof fn lemma_worth(x: Binary64)
    ensures
        worth(x) == if x.negative() {
            -accuracy::amount(x)
        } else {
            accuracy::amount(x)
        },
        size(worth(x)) == accuracy::amount(x),
        accuracy::amount(x) >= 0 as real,
        x.zero() <==> worth(x) == 0 as real,
{
    lemma_pow2_pos(1074);
    Binary64::lemma_scaled_sign(x.pattern());
    let s = rounding::scaled(x.pattern());
    let t = pow2(1074) as int;
    assert((-s) as real / t as real == -(s as real / t as real) && s as real / t as real
        >= 0 as real && (s == 0 <==> s as real / t as real == 0 as real)) by (nonlinear_arith)
        requires
            s >= 0,
            t > 0,
    ;
}

pub proof fn lemma_grain()
    ensures
        accuracy::grain() > 0 as real,
        accuracy::grain() * 9007199254740992 as real == 1 as real,
{
    let h = HIDDEN as int;
    let g = accuracy::grain();
    assert(g > 0 as real && g * 9007199254740992 as real == 1 as real) by (nonlinear_arith)
        requires
            g == 1 as real / (2 * h) as real,
            2 * h == 9007199254740992,
    ;
}

/// Below the normal numbers, and at the first, whole units are kept.
proof fn lemma_whole_units(v: int)
    requires
        v >= 0,
        rounding::round_ratio(v, 1) <= HIDDEN,
    ensures
        rounding::scaled(rounding::round_ratio(v, 1)) == v,
{
    let p = rounding::round_ratio(v, 1);
    rounding::lemma_ratio_exists(v, 1);
    rounding::lemma_scaled(0, p);
    rounding::lemma_scaled(0, p + 1);
    lemma2_to64();
    if p > 0 {
        rounding::lemma_scaled(0, p - 1);
    }
    assert(p * 1 == p && (p + 1) * 1 == p + 1 && (p - 1) * 1 == p - 1) by (nonlinear_arith);
}

/// Rounding a whole number of units errs by a small part of it.
proof fn lemma_units_round(v: int)
    requires
        v >= 0,
        rounding::round_ratio(v, 1) < INFINITY,
    ensures
        close(
            rounding::scaled(rounding::round_ratio(v, 1)) as real,
            v as real,
            accuracy::grain() * v as real,
        ),
{
    let p = rounding::round_ratio(v, 1);
    let g = accuracy::grain();
    lemma_grain();
    rounding::lemma_ratio_exists(v, 1);
    if p <= HIDDEN {
        lemma_whole_units(v);
        assert(g * v as real >= 0 as real) by (nonlinear_arith)
            requires
                g > 0 as real,
                v >= 0,
        ;
    } else {
        accuracy::lemma_rounded(v, 1);
        lemma_near_one(
            rounding::scaled(p) as real,
            v as real / 1 as real,
        );
    }
}

/// One rounding, as an error.
pub proof fn lemma_near_one(x: real, y: real)
    requires
        accuracy::near(x, y, 1),
        y >= 0 as real,
    ensures
        close(x, y, accuracy::grain() * y),
{
    let g = accuracy::grain();
    reveal_with_fuel(accuracy::stretch, 2);
    reveal_with_fuel(accuracy::shrink, 2);
    assert(y * (1 as real * (1 as real - g)) == y - g * y) by (nonlinear_arith);
    assert(y * (1 as real * (1 as real + g)) == y + g * y) by (nonlinear_arith);
}

/// The sum of two numbers errs by a small part of it.
pub proof fn law_sum_rounds(a: Binary64, b: Binary64)
    requires
        a.finite() && b.finite(),
        (a + b).finite(),
    ensures
        close(worth(a + b), worth(a) + worth(b), accuracy::grain() * size(worth(a) + worth(b))),
{
    reveal(Binary64::spec_add);
    let v = a.value() + b.value();
    let t = pow2(1074) as int;
    let g = accuracy::grain();
    lemma_pow2_pos(1074);
    let m = if v < 0 {
        -v
    } else {
        v
    };
    let q = rounding::scaled(rounding::round_ratio(m, 1));
    rounding::lemma_ratio_exists(m, 1);
    Binary64::lemma_scaled_sign(0);
    if v == 0 {
        assert((a + b).value() == 0);
    } else {
        lemma_units_round(m);
        assert((a + b).value() == if v < 0 {
            -q
        } else {
            q
        });
    }
    let r = (a + b).value();
    let x = a.value();
    let y = b.value();
    lemma_over(r, t, x + y, g);
    assert((x + y) as real / t as real == x as real / t as real + y as real / t as real)
        by (nonlinear_arith)
        requires
            t > 0,
    ;
    if v == 0 {
        assert(g * 0 as real == 0 as real) by (nonlinear_arith);
    }
}

/// A relative error is the same in other units.
proof fn lemma_over(r: int, t: int, v: int, g: real)
    requires
        t > 0,
    ensures
        close(r as real, v as real, g * size(v as real)) ==> close(
            r as real / t as real,
            v as real / t as real,
            g * size(v as real / t as real),
        ),
{
    let a = r as real;
    let b = v as real;
    let c = t as real;
    let x = a / c;
    let y = b / c;
    assert(x * c == a && y * c == b) by (nonlinear_arith)
        requires
            x == a / c,
            y == b / c,
            c > 0 as real,
    ;
    assert((y < 0 as real) == (b < 0 as real)) by (nonlinear_arith)
        requires
            y * c == b,
            c > 0 as real,
    ;
    assert((x - y) * c == a - b && (-y) * c == -b) by (nonlinear_arith)
        requires
            x * c == a,
            y * c == b,
    ;
    if close(a, b, g * size(b)) {
        lemma_divides(a - b, c, x - y, g * size(b), g * size(y), g, size(b), size(y));
    }
}

proof fn lemma_divides(
    a: real,
    c: real,
    x: real,
    p: real,
    q: real,
    g: real,
    s: real,
    r: real,
)
    requires
        c > 0 as real,
        x * c == a,
        p == g * s,
        q == g * r,
        r * c == s,
        size(a) <= p,
    ensures
        size(x) <= q,
{
    assert(q * c == p) by (nonlinear_arith)
        requires
            p == g * s,
            q == g * r,
            r * c == s,
    ;
    assert(x <= q) by (nonlinear_arith)
        requires
            c > 0 as real,
            x * c <= q * c,
    ;
    assert(-q <= x) by (nonlinear_arith)
        requires
            c > 0 as real,
            -(q * c) <= x * c,
    ;
}

/// Rounding a quotient to a magnitude errs by a small part of it and half of a
/// unit.
proof fn lemma_ratio_rounds(n: int, d: int)
    requires
        n >= 0,
        d > 0,
        rounding::round_ratio(n, d) < INFINITY,
    ensures
        close(
            rounding::scaled(rounding::round_ratio(n, d)) as real,
            n as real / d as real,
            accuracy::grain() * (n as real / d as real) + 1 as real / 2 as real,
        ),
        n as real / d as real >= 0 as real,
{
    let p = rounding::round_ratio(n, d);
    let g = accuracy::grain();
    let z = n as real / d as real;
    lemma_grain();
    rounding::lemma_ratio_exists(n, d);
    assert(z >= 0 as real) by (nonlinear_arith)
        requires
            z == n as real / d as real,
            n >= 0,
            d > 0,
    ;
    assert(g * z >= 0 as real) by (nonlinear_arith)
        requires
            g > 0 as real,
            z >= 0 as real,
    ;
    if p <= HIDDEN {
        rounding::lemma_scaled(0, p);
        rounding::lemma_scaled(0, p + 1);
        lemma2_to64();
        if p > 0 {
            rounding::lemma_scaled(0, p - 1);
        }
        assert(p * 1 == p && (p + 1) * 1 == p + 1 && (p - 1) * 1 == p - 1) by (nonlinear_arith);
        assert(p + (p + 1) == 2 * p + 1 && (p - 1) + p == 2 * p - 1);
        assert(2 as real * z <= (2 * p + 1) as real) by (nonlinear_arith)
            requires
                z == n as real / d as real,
                2 * n <= (2 * p + 1) * d,
                0 < d,
        ;
        if p > 0 {
            assert((2 * p - 1) as real <= 2 as real * z) by (nonlinear_arith)
                requires
                    z == n as real / d as real,
                    (2 * p - 1) * d <= 2 * n,
                    0 < d,
            ;
        }
    } else {
        accuracy::lemma_rounded(n, d);
        lemma_near_one(rounding::scaled(p) as real, z);
    }
}

/// An error in units, as an error in real numbers.
proof fn lemma_in_units(q: int, z: real, t: int)
    requires
        close(q as real, z, accuracy::grain() * z + 1 as real / 2 as real),
        z >= 0 as real,
        t > 0,
    ensures
        close(
            q as real / t as real,
            z / t as real,
            accuracy::grain() * (z / t as real) + 1 as real / (2 * t) as real,
        ),
        z / t as real >= 0 as real,
{
    let g = accuracy::grain();
    let c = t as real;
    let x = q as real / c;
    let y = z / c;
    let h = 1 as real / (2 * t) as real;
    assert(x * c == q as real && y * c == z && h * c == 1 as real / 2 as real && y >= 0 as real)
        by (nonlinear_arith)
        requires
            x == q as real / c,
            y == z / c,
            h == 1 as real / (2 as real * c),
            (2 * t) as real == 2 as real * c,
            z >= 0 as real,
            c > 0 as real,
    ;
    let e = g * y + h;
    assert((x - y) * c == q as real - z && e * c == g * z + 1 as real / 2 as real)
        by (nonlinear_arith)
        requires
            x * c == q as real,
            y * c == z,
            h * c == 1 as real / 2 as real,
            e == g * y + h,
    ;
    let w = x - y;
    assert(w <= e) by (nonlinear_arith)
        requires
            c > 0 as real,
            w * c <= e * c,
    ;
    assert(-e <= w) by (nonlinear_arith)
        requires
            c > 0 as real,
            -(e * c) <= w * c,
    ;
}

pub(crate) proof fn lemma_tiny()
    ensures
        tiny() == 1 as real / (2 * pow2(1074)) as real,
        tiny() > 0 as real,
{
    lemma_pow2_pos(1074);
    lemma_pow2_unfold(1075);
    let t = pow2(1074) as int;
    assert(1 as real / (2 * t) as real > 0 as real) by (nonlinear_arith)
        requires
            t > 0,
    ;
}

/// The sign of a product or a quotient, from the magnitudes.
proof fn lemma_signs(r: real, z: real, slack: real, negative: bool)
    requires
        close(r, z, slack),
        z >= 0 as real,
    ensures
        close(
            if negative {
                -r
            } else {
                r
            },
            if negative {
                -z
            } else {
                z
            },
            slack,
        ),
        size(
            if negative {
                -z
            } else {
                z
            },
        ) == z,
{
}

/// The product of two numbers errs by a small part of it, and half of the
/// smallest number where it is below the normal ones.
pub proof fn law_product_rounds(a: Binary64, b: Binary64)
    requires
        a.finite() && b.finite(),
        (a * b).finite(),
    ensures
        close(
            worth(a * b),
            worth(a) * worth(b),
            accuracy::grain() * size(worth(a) * worth(b)) + tiny(),
        ),
        size(worth(a) * worth(b)) == accuracy::amount(a) * accuracy::amount(b),
{
    reveal(Binary64::spec_mul);
    let x = rounding::scaled(a.pattern());
    let y = rounding::scaled(b.pattern());
    let t = pow2(1074) as int;
    lemma_pow2_pos(1074);
    lemma_tiny();
    lemma_worth(a);
    lemma_worth(b);
    lemma_worth(a * b);
    Binary64::lemma_scaled_sign(a.pattern());
    Binary64::lemma_scaled_sign(b.pattern());
    assert(x * y >= 0) by (nonlinear_arith)
        requires
            x >= 0,
            y >= 0,
    ;
    rounding::lemma_ratio_exists(x * y, t);
    lemma_ratio_rounds(x * y, t);
    let z = (x * y) as real / t as real;
    lemma_in_units(rounding::scaled(rounding::round_ratio(x * y, t)), z, t);
    let p = accuracy::amount(a);
    let q = accuracy::amount(b);
    assert((x as real / t as real) * (y as real / t as real) == ((x * y) as real / t as real)
        / t as real) by (nonlinear_arith)
        requires
            t > 0,
    {
        assert((x * y) as real == x as real * y as real);
    }
    lemma_sign_products(p, q);
    lemma_signs(
        accuracy::amount(a * b),
        p * q,
        accuracy::grain() * (p * q) + tiny(),
        a.negative() != b.negative(),
    );
}

pub(crate) proof fn lemma_sign_products(p: real, q: real)
    ensures
        (-p) * q == -(p * q),
        p * (-q) == -(p * q),
        (-p) * (-q) == p * q,
{
    assert((-p) * q == -(p * q) && p * (-q) == -(p * q) && (-p) * (-q) == p * q)
        by (nonlinear_arith);
}

/// The quotient of two numbers errs by a small part of it, and half of the
/// smallest number where it is below the normal ones.
pub proof fn law_quotient_rounds(a: Binary64, b: Binary64)
    requires
        a.finite() && b.finite(),
        !b.zero(),
        (a / b).finite(),
    ensures
        close(
            worth(a / b),
            worth(a) / worth(b),
            accuracy::grain() * size(worth(a) / worth(b)) + tiny(),
        ),
        size(worth(a) / worth(b)) == accuracy::amount(a) / accuracy::amount(b),
{
    reveal(Binary64::spec_euclidean_or_real_div);
    let x = rounding::scaled(a.pattern());
    let y = rounding::scaled(b.pattern());
    let t = pow2(1074) as int;
    lemma_pow2_pos(1074);
    lemma_tiny();
    lemma_worth(a);
    lemma_worth(b);
    lemma_worth(a / b);
    Binary64::lemma_scaled_sign(a.pattern());
    Binary64::lemma_scaled_sign(b.pattern());
    assert(x * t >= 0) by (nonlinear_arith)
        requires
            x >= 0,
            t > 0,
    ;
    rounding::lemma_ratio_exists(x * t, y);
    if a.zero() {
        Binary64::lemma_zero_quotient(a, b);
    }
    lemma_ratio_rounds(x * t, y);
    let z = (x * t) as real / y as real;
    lemma_in_units(rounding::scaled(rounding::round_ratio(x * t, y)), z, t);
    let p = accuracy::amount(a);
    let q = accuracy::amount(b);
    assert((x as real / t as real) / (y as real / t as real) == ((x * t) as real / y as real)
        / t as real) by (nonlinear_arith)
        requires
            t > 0,
            y > 0,
    {
        assert((x * t) as real == x as real * t as real);
        assert((x as real / t as real) / (y as real / t as real) == x as real / y as real);
    }
    assert(q > 0 as real);
    assert((-p) / q == -(p / q) && p / (-q) == -(p / q) && (-p) / (-q) == p / q)
        by (nonlinear_arith)
        requires
            q > 0 as real,
    ;
    lemma_signs(
        accuracy::amount(a / b),
        p / q,
        accuracy::grain() * (p / q) + tiny(),
        a.negative() != b.negative(),
    );
}

/// The square of a rounded root errs by two roundings.
proof fn lemma_root_rounds(s: int)
    requires
        s >= 0,
        HIDDEN < rounding::round_root(s) < INFINITY,
    ensures
        ({
            let b = rounding::scaled(rounding::round_root(s)) as real;
            accuracy::near(b * b, s as real, 2)
        }),
{
    let p = rounding::round_root(s);
    rounding::lemma_root_exists(s);
    accuracy::lemma_gap(p);
    accuracy::lemma_gap(p - 1);
    let ai = rounding::scaled(p - 1);
    let bi = rounding::scaled(p);
    let ci = rounding::scaled(p + 1);
    let h = HIDDEN as int;
    let g = accuracy::grain();
    lemma_grain();
    let b = bi as real;
    let low = (ai + bi) as real;
    let high = (bi + ci) as real;
    let r = s as real;
    // The root lies between the midpoints.
    assert(low * low <= 4 as real * r && 4 as real * r <= high * high) by (nonlinear_arith)
        requires
            (ai + bi) * (ai + bi) <= 4 * s,
            4 * s <= (bi + ci) * (bi + ci),
            low == (ai + bi) as real,
            high == (bi + ci) as real,
            r == s as real,
    {
        assert(low * low == ((ai + bi) * (ai + bi)) as real);
        assert(high * high == ((bi + ci) * (bi + ci)) as real);
    }
    assert(2 as real * b <= low * (1 as real + g)) by (nonlinear_arith)
        requires
            b == bi as real,
            low == (ai + bi) as real,
            (bi - ai) * h <= ai,
            0 < ai,
            ai < bi,
            h > 0,
            g == 1 as real / (2 * h) as real,
    {
        assert(2 as real * b - low == (bi - ai) as real);
        assert((bi - ai) as real * h as real <= ai as real);
        assert(g * (2 as real * h as real) == 1 as real);
        assert((bi - ai) as real <= 2 as real * g * ai as real);
        assert(2 as real * ai as real <= low);
    }
    assert(high <= 2 as real * b * (1 as real + g)) by (nonlinear_arith)
        requires
            b == bi as real,
            high == (bi + ci) as real,
            (ci - bi) * h <= bi,
            0 < bi,
            h > 0,
            g == 1 as real / (2 * h) as real,
    {
        assert(high - 2 as real * b == (ci - bi) as real);
        assert((ci - bi) as real * h as real <= bi as real);
        assert(g * (2 as real * h as real) == 1 as real);
        assert((ci - bi) as real <= 2 as real * g * bi as real);
    }
    lemma_root_bounds(b, low, high, r, g);
    reveal_with_fuel(accuracy::stretch, 3);
    reveal_with_fuel(accuracy::shrink, 3);
    let u = 1 as real + g;
    let d = 1 as real - g;
    assert(r * ((1 as real * u) * u) == r * (u * u) && r * ((1 as real * d) * d) == r * (d * d))
        by (nonlinear_arith);
}

proof fn lemma_root_bounds(b: real, low: real, high: real, r: real, g: real)
    requires
        low * low <= 4 as real * r,
        4 as real * r <= high * high,
        2 as real * b <= low * (1 as real + g),
        high <= 2 as real * b * (1 as real + g),
        b > 0 as real,
        high > 0 as real,
        g > 0 as real,
        g * 9007199254740992 as real == 1 as real,
    ensures
        b * b <= r * ((1 as real + g) * (1 as real + g)),
        r * ((1 as real - g) * (1 as real - g)) <= b * b,
{
    let u = 1 as real + g;
    let d = 1 as real - g;
    let e = low * u;
    assert((2 as real * b) * (2 as real * b) <= e * e) by (nonlinear_arith)
        requires
            2 as real * b <= e,
            b > 0 as real,
    ;
    assert(e * e == (low * low) * (u * u)) by (nonlinear_arith)
        requires
            e == low * u,
    ;
    let w = u * u;
    let l = low * low;
    assert(w > 0 as real) by (nonlinear_arith)
        requires
            w == u * u,
            u > 0 as real,
    ;
    assert(l * w <= (4 as real * r) * w) by (nonlinear_arith)
        requires
            l <= 4 as real * r,
            w > 0 as real,
    ;
    assert((2 as real * b) * (2 as real * b) == 4 as real * (b * b)) by (nonlinear_arith);
    assert((4 as real * r) * w == 4 as real * (r * w)) by (nonlinear_arith);
    let f = 2 as real * b * u;
    assert(high * high <= f * f) by (nonlinear_arith)
        requires
            high <= f,
            high > 0 as real,
    ;
    assert(f * f == 4 as real * ((b * b) * w)) by (nonlinear_arith)
        requires
            f == 2 as real * b * u,
            w == u * u,
    ;
    // So `r <= b * b * w`, and `w * (d * d) <= 1`.
    let q = b * b;
    let v = d * d;
    assert(0 as real <= v && w * v <= 1 as real) by (nonlinear_arith)
        requires
            w == u * u,
            v == d * d,
            u == 1 as real + g,
            d == 1 as real - g,
            g > 0 as real,
            g * 9007199254740992 as real == 1 as real,
    {
        let x = u * d;
        assert(x == 1 as real - g * g);
        assert(0 as real <= x && x <= 1 as real);
        assert(w * v == x * x);
        assert(x * x <= 1 as real);
    }
    assert(r * v <= (q * w) * v) by (nonlinear_arith)
        requires
            r <= q * w,
            0 as real <= v,
    ;
    assert((q * w) * v == q * (w * v)) by (nonlinear_arith);
    let k = w * v;
    assert(q * k <= q) by (nonlinear_arith)
        requires
            k <= 1 as real,
            q == b * b,
    ;
}

/// The comparison of squares, in other units.
proof fn lemma_squares_over(b: int, s: int, t: int)
    requires
        accuracy::near(b as real * b as real, s as real, 2),
        t > 0,
    ensures
        accuracy::near(
            (b as real / t as real) * (b as real / t as real),
            s as real / (t as real * t as real),
            2,
        ),
{
    let c = t as real;
    let w = 1 as real / (c * c);
    let x = b as real;
    let y = s as real;
    assert(w > 0 as real && (x / c) * (x / c) == (x * x) * w && y / (c * c) == y * w)
        by (nonlinear_arith)
        requires
            w == 1 as real / (c * c),
            c > 0 as real,
    {
        assert(c * c > 0 as real);
    }
    accuracy::lemma_near_times(x * x, y, 2, w);
}

/// The square root of a positive number is normal, and its square errs by two
/// roundings.
pub proof fn law_root_rounds(x: Binary64)
    requires
        x.finite(),
        !x.zero(),
        !x.negative(),
    ensures
        x.square_root().finite(),
        !x.square_root().negative(),
        accuracy::near(worth(x.square_root()) * worth(x.square_root()), worth(x), 2),
{
    reveal(Binary64::square_root);
    let v = rounding::scaled(x.pattern());
    let t = pow2(1074) as int;
    let h = HIDDEN as int;
    lemma_pow2_pos(1074);
    Binary64::lemma_scaled_sign(x.pattern());
    Binary64::lemma_square_root_finite(x);
    let s = v * t;
    rounding::lemma_root_exists(s);
    let p = rounding::round_root(s);
    lemma2_to64();
    lemma2_to64_rest();
    rounding::lemma_pow2_le(128, 1074);
    lemma_pow2_adds(64, 64);
    let big = pow2(64) as int;
    assert(big * big > (2 * h + 1) * (2 * h + 1)) by (nonlinear_arith)
        requires
            big == 0x1_0000_0000_0000_0000,
            h == 0x10_0000_0000_0000,
    ;
    assert(s >= t) by (nonlinear_arith)
        requires
            s == v * t,
            v >= 1,
            t > 0,
    ;
    if p <= HIDDEN {
        rounding::lemma_scaled(0, p);
        rounding::lemma_scaled(0, p + 1);
        assert(p * 1 == p && (p + 1) * 1 == p + 1) by (nonlinear_arith);
        let m = rounding::scaled(p) + rounding::scaled(p + 1);
        assert(m * m <= (2 * h + 1) * (2 * h + 1)) by (nonlinear_arith)
            requires
                0 <= m <= 2 * h + 1,
        ;
    }
    lemma_root_rounds(s);
    let b = rounding::scaled(p);
    lemma_squares_over(b, s, t);
    assert(s as real / (t as real * t as real) == v as real / t as real) by (nonlinear_arith)
        requires
            s == v * t,
            t > 0,
    {
        assert(s as real == v as real * t as real);
    }
    lemma_worth(x);
    lemma_worth(x.square_root());
}

/// The square of a hypotenuse errs by two roundings, where it is a normal
/// number.
pub proof fn law_hypotenuse_rounds(x: Binary64, y: Binary64)
    requires
        x.finite() && y.finite(),
        HIDDEN < x.hypotenuse(y).pattern() < INFINITY,
    ensures
        accuracy::near(
            worth(x.hypotenuse(y)) * worth(x.hypotenuse(y)),
            worth(x) * worth(x) + worth(y) * worth(y),
            2,
        ),
        !x.hypotenuse(y).negative(),
{
    reveal(Binary64::hypotenuse);
    let v = rounding::scaled(x.pattern());
    let w = rounding::scaled(y.pattern());
    let t = pow2(1074) as int;
    lemma_pow2_pos(1074);
    let s = v * v + w * w;
    assert(s >= 0) by (nonlinear_arith)
        requires
            s == v * v + w * w,
    ;
    rounding::lemma_root_exists(s);
    lemma_root_rounds(s);
    lemma_squares_over(rounding::scaled(rounding::round_root(s)), s, t);
    lemma_worth(x);
    lemma_worth(y);
    lemma_worth(x.hypotenuse(y));
    lemma_sign_products(accuracy::amount(x), accuracy::amount(x));
    lemma_sign_products(accuracy::amount(y), accuracy::amount(y));
    assert((v as real / t as real) * (v as real / t as real) + (w as real / t as real) * (w as real
        / t as real) == s as real / (t as real * t as real)) by (nonlinear_arith)
        requires
            s == v * v + w * w,
            t > 0,
    {
        assert(s as real == v as real * v as real + w as real * w as real);
    }
}

} // verus!
