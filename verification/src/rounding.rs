//! Rounding of exact quantities to the nearest binary64 magnitude.
//!
//! A magnitude is named by its bit pattern without the sign: an integer from
//! zero up to the pattern of infinity. Consecutive patterns name consecutive
//! magnitudes, so "nearest, ties to even" is a statement about neighbouring
//! integers.
use vstd::arithmetic::power2::*;
use vstd::prelude::*;

verus! {

/// Weight of the hidden significand bit.
pub const HIDDEN: u64 = 0x10_0000_0000_0000;

/// Bit pattern of positive infinity.
pub const INFINITY: u64 = 0x7ff0_0000_0000_0000;

/// The magnitude with bit pattern `b`, counted in units of the smallest
/// positive subnormal. The pattern of infinity gets the value that the next
/// binade would start with, which is what overflow is measured against.
pub open spec fn scaled(b: int) -> int {
    if b / (HIDDEN as int) == 0 {
        b % (HIDDEN as int)
    } else {
        (HIDDEN + b % (HIDDEN as int)) * pow2((b / (HIDDEN as int) - 1) as nat)
    }
}

/// `r` is the pattern of the magnitude nearest to the quotient `n / d`, the
/// even pattern where two are equally near.
pub open spec fn nearest_ratio(n: int, d: int, r: int) -> bool {
    &&& 0 <= r <= INFINITY
    &&& r > 0 ==> {
        let low = (scaled(r - 1) + scaled(r)) * d;
        low < 2 * n || (low == 2 * n && r % 2 == 0)
    }
    &&& r < INFINITY ==> {
        let high = (scaled(r) + scaled(r + 1)) * d;
        2 * n < high || (2 * n == high && r % 2 == 0)
    }
}

/// `r` is the pattern of the magnitude nearest to the square root of `s`, the
/// even pattern where two are equally near.
pub open spec fn nearest_root(s: int, r: int) -> bool {
    &&& 0 <= r <= INFINITY
    &&& r > 0 ==> {
        let low = scaled(r - 1) + scaled(r);
        low * low < 4 * s || (low * low == 4 * s && r % 2 == 0)
    }
    &&& r < INFINITY ==> {
        let high = scaled(r) + scaled(r + 1);
        4 * s < high * high || (4 * s == high * high && r % 2 == 0)
    }
}

/// The pattern of the magnitude nearest to `n / d`.
pub open spec fn round_ratio(n: int, d: int) -> int {
    choose|r: int| nearest_ratio(n, d, r)
}

/// The pattern of the magnitude nearest to the square root of `s`.
pub open spec fn round_root(s: int) -> int {
    choose|r: int| nearest_root(s, r)
}

/// The quantity `m * u / w`, or some quantity above it and below
/// `(m + 1) * u / w` where `sticky` is set, has its nearest magnitude at `r`.
pub open spec fn brackets(m: int, u: int, w: int, sticky: bool, r: int) -> bool {
    &&& 0 <= r <= INFINITY
    &&& r > 0 ==> {
        let low = (scaled(r - 1) + scaled(r)) * w;
        low <= 2 * (m * u) && (low == 2 * (m * u) && !sticky ==> r % 2 == 0)
    }
    &&& r < INFINITY ==> {
        let high = (scaled(r) + scaled(r + 1)) * w;
        if sticky {
            2 * ((m + 1) * u) <= high
        } else {
            2 * (m * u) < high || (2 * (m * u) == high && r % 2 == 0)
        }
    }
}

/// A pattern split into a significand and the exponent of its last place.
pub proof fn lemma_scaled(e: nat, q: int)
    requires
        0 <= q <= 2 * HIDDEN,
        e > 0 ==> q >= HIDDEN,
    ensures
        scaled(e * HIDDEN + q) == q * pow2(e),
{
    let b = e * HIDDEN + q;
    lemma2_to64();
    if q < HIDDEN {
        assert(b / (HIDDEN as int) == 0 && b % (HIDDEN as int) == q);
    } else if q < 2 * HIDDEN {
        assert(b / (HIDDEN as int) == e + 1 && b % (HIDDEN as int) == q - HIDDEN);
    } else {
        assert(b / (HIDDEN as int) == e + 2 && b % (HIDDEN as int) == 0);
        lemma_pow2_unfold((e + 1) as nat);
        assert(HIDDEN * pow2((e + 1) as nat) == (2 * HIDDEN) * pow2(e)) by (nonlinear_arith)
            requires
                pow2((e + 1) as nat) == 2 * pow2(e),
        ;
    }
}

/// Every pattern splits into a significand and an exponent.
pub proof fn lemma_split(b: int) -> (r: (nat, int))
    requires
        b >= 0,
    ensures
        b == r.0 * HIDDEN + r.1,
        0 <= r.1 < 2 * HIDDEN,
        r.0 > 0 ==> r.1 >= HIDDEN,
        scaled(b) == r.1 * pow2(r.0),
{
    let (e, q) = if b / (HIDDEN as int) == 0 {
        (0nat, b)
    } else {
        ((b / (HIDDEN as int) - 1) as nat, HIDDEN + b % (HIDDEN as int))
    };
    lemma_scaled(e, q);
    (e, q)
}

/// The next pattern names the next significand at the same exponent.
proof fn lemma_scaled_step(b: int)
    requires
        b >= 0,
    ensures
        0 <= scaled(b) < scaled(b + 1),
{
    let (e, q) = lemma_split(b);
    lemma_scaled(e, q + 1);
    lemma_pow2_pos(e);
    assert(0 <= q * pow2(e) < (q + 1) * pow2(e)) by (nonlinear_arith)
        requires
            q >= 0,
            pow2(e) > 0,
    ;
}

/// Larger patterns name larger magnitudes.
pub proof fn lemma_scaled_increases(a: int, b: int)
    requires
        0 <= a < b,
    ensures
        0 <= scaled(a) < scaled(b),
    decreases b - a,
{
    lemma_scaled_step(b - 1);
    if a < b - 1 {
        lemma_scaled_increases(a, b - 1);
    }
}

/// The midpoints between neighbouring magnitudes increase with the pattern.
proof fn lemma_midpoints(a: int, b: int)
    requires
        0 <= a < b,
    ensures
        scaled(a) + scaled(a + 1) <= scaled(b - 1) + scaled(b),
        a + 1 < b ==> scaled(a) + scaled(a + 1) < scaled(b - 1) + scaled(b),
        0 < scaled(a) + scaled(a + 1),
{
    lemma_scaled_step(a);
    if a + 1 < b {
        lemma_scaled_increases(a, b - 1);
        lemma_scaled_increases(a + 1, b);
    }
}

/// At most one pattern is nearest to a quotient.
pub proof fn lemma_nearest_ratio_unique(n: int, d: int, r1: int, r2: int)
    requires
        d > 0,
        nearest_ratio(n, d, r1),
        nearest_ratio(n, d, r2),
    ensures
        r1 == r2,
{
    if r1 < r2 {
        lemma_ratio_order(n, d, r1, n, d, r2);
    } else if r2 < r1 {
        lemma_ratio_order(n, d, r2, n, d, r1);
    }
}

/// Rounding keeps the order of quotients: where `r1` lies below `r2`, the
/// quotient that rounds to `r1` lies below the one that rounds to `r2`.
proof fn lemma_ratio_order(n1: int, d1: int, r1: int, n2: int, d2: int, r2: int)
    requires
        d1 > 0,
        d2 > 0,
        nearest_ratio(n1, d1, r1),
        nearest_ratio(n2, d2, r2),
        r1 < r2,
    ensures
        n1 * d2 < n2 * d1,
{
    lemma_midpoints(r1, r2);
    let high = scaled(r1) + scaled(r1 + 1);
    let low = scaled(r2 - 1) + scaled(r2);
    assert(n1 * d2 < n2 * d1) by (nonlinear_arith)
        requires
            d1 > 0,
            d2 > 0,
            2 * n1 <= high * d1,
            low * d2 <= 2 * n2,
            high < low || (high == low && (2 * n1 < high * d1 || low * d2 < 2 * n2)),
    ;
}

/// Rounding is monotone.
pub proof fn lemma_ratio_monotone(n1: int, d1: int, r1: int, n2: int, d2: int, r2: int)
    requires
        d1 > 0,
        d2 > 0,
        nearest_ratio(n1, d1, r1),
        nearest_ratio(n2, d2, r2),
        n1 * d2 <= n2 * d1,
    ensures
        r1 <= r2,
{
    if r2 < r1 {
        lemma_ratio_order(n2, d2, r2, n1, d1, r1);
    }
}

/// At most one pattern is nearest to a square root.
pub proof fn lemma_nearest_root_unique(s: int, r1: int, r2: int)
    requires
        nearest_root(s, r1),
        nearest_root(s, r2),
    ensures
        r1 == r2,
{
    if r1 < r2 {
        lemma_root_order(s, r1, s, r2);
    } else if r2 < r1 {
        lemma_root_order(s, r2, s, r1);
    }
}

proof fn lemma_root_order(s1: int, r1: int, s2: int, r2: int)
    requires
        nearest_root(s1, r1),
        nearest_root(s2, r2),
        r1 < r2,
    ensures
        s1 < s2,
{
    lemma_midpoints(r1, r2);
    let high = scaled(r1) + scaled(r1 + 1);
    let low = scaled(r2 - 1) + scaled(r2);
    assert(high * high <= low * low && (high < low ==> high * high < low * low))
        by (nonlinear_arith)
        requires
            0 < high <= low,
    ;
}

/// Rounding of square roots is monotone.
pub proof fn lemma_root_monotone(s1: int, r1: int, s2: int, r2: int)
    requires
        nearest_root(s1, r1),
        nearest_root(s2, r2),
        s1 <= s2,
    ensures
        r1 <= r2,
{
    if r2 < r1 {
        lemma_root_order(s2, r2, s1, r1);
    }
}

/// A magnitude is its own nearest magnitude.
pub proof fn lemma_nearest_exact(r: int, d: int)
    requires
        0 <= r < INFINITY,
        d > 0,
    ensures
        nearest_ratio(scaled(r) * d, d, r),
{
    lemma_scaled_step(r);
    if r > 0 {
        lemma_scaled_step(r - 1);
        let a = scaled(r - 1);
        let b = scaled(r);
        assert((a + b) * d < 2 * (b * d)) by (nonlinear_arith)
            requires
                a < b,
                d > 0,
        ;
    }
    let b = scaled(r);
    let c = scaled(r + 1);
    assert(2 * (b * d) < (b + c) * d) by (nonlinear_arith)
        requires
            b < c,
            d > 0,
    ;
}

/// From a truncated quotient and its sticky flag to the quotient.
proof fn lemma_brackets_ratio(m: int, u: int, w: int, sticky: bool, r: int, n: int, d: int)
    requires
        brackets(m, u, w, sticky, r),
        u > 0,
        w > 0,
        d > 0,
        m * u * d <= n * w < (m + 1) * u * d,
        sticky <==> m * u * d != n * w,
    ensures
        nearest_ratio(n, d, r),
{
    if r > 0 {
        let low = scaled(r - 1) + scaled(r);
        assert(low * d < 2 * n || (low * d == 2 * n && low * w == 2 * (m * u) && m * u * d == n
            * w)) by (nonlinear_arith)
            requires
                low * w <= 2 * (m * u),
                m * u * d <= n * w,
                d > 0,
                w > 0,
        {
            assert((low * d) * w == (low * w) * d);
            assert((low * w) * d <= 2 * (m * u) * d);
            assert((low * d) * w <= (2 * n) * w);
        }
    }
    if r < INFINITY {
        let high = scaled(r) + scaled(r + 1);
        if sticky {
            assert(2 * n < high * d) by (nonlinear_arith)
                requires
                    2 * ((m + 1) * u) <= high * w,
                    n * w < (m + 1) * u * d,
                    d > 0,
                    w > 0,
            {
                assert((2 * n) * w < 2 * ((m + 1) * u) * d);
                assert(2 * ((m + 1) * u) * d <= (high * w) * d);
                assert((high * w) * d == (high * d) * w);
            }
        } else {
            assert(2 * (m * u) < high * w ==> 2 * n < high * d) by (nonlinear_arith)
                requires
                    m * u * d == n * w,
                    d > 0,
                    w > 0,
            {
                if 2 * (m * u) < high * w {
                    assert(2 * (m * u) * d < (high * w) * d);
                    assert((high * w) * d == (high * d) * w);
                    assert((2 * n) * w < (high * d) * w);
                }
            }
            assert(2 * (m * u) == high * w ==> 2 * n == high * d) by (nonlinear_arith)
                requires
                    m * u * d == n * w,
                    d > 0,
                    w > 0,
            {
                if 2 * (m * u) == high * w {
                    assert((high * w) * d == (high * d) * w);
                    assert((2 * n) * w == (high * d) * w);
                }
            }
        }
    }
}

/// From a truncated square root and its sticky flag to the root.
#[verifier::rlimit(40)]
proof fn lemma_brackets_root(m: int, u: int, w: int, sticky: bool, r: int, s: int)
    requires
        brackets(m, u, w, sticky, r),
        m >= 0,
        u > 0,
        w > 0,
        (m * u) * (m * u) <= s * (w * w) < ((m + 1) * u) * ((m + 1) * u),
        sticky <==> (m * u) * (m * u) != s * (w * w),
    ensures
        nearest_root(s, r),
{
    let a = m * u;
    let b = (m + 1) * u;
    assert(0 <= a < b) by (nonlinear_arith)
        requires
            a == m * u,
            b == (m + 1) * u,
            m >= 0,
            u > 0,
    ;
    assert(w * w > 0) by (nonlinear_arith)
        requires
            w > 0,
    ;
    if r > 0 {
        lemma_midpoints(r - 1, r);
        let low = scaled(r - 1) + scaled(r);
        lemma_square_order(low, w, 2 * a);
        assert((2 * a) * (2 * a) == 4 * (a * a)) by (nonlinear_arith);
        assert(low * low < 4 * s || (low * low == 4 * s && low * w == 2 * a && a * a == s * (w
            * w))) by (nonlinear_arith)
            requires
                (low * low) * (w * w) <= (2 * a) * (2 * a),
                (low * low) * (w * w) == (2 * a) * (2 * a) ==> low * w == 2 * a,
                (2 * a) * (2 * a) == 4 * (a * a),
                a * a <= s * (w * w),
                w * w > 0,
        ;
    }
    if r < INFINITY {
        lemma_midpoints(r, r + 1);
        let high = scaled(r) + scaled(r + 1);
        let hw = high * w;
        assert((high * high) * (w * w) == hw * hw) by (nonlinear_arith)
            requires
                hw == high * w,
        ;
        assert(hw > 0) by (nonlinear_arith)
            requires
                hw == high * w,
                high > 0,
                w > 0,
        ;
        if sticky {
            assert(4 * (b * b) <= hw * hw) by (nonlinear_arith)
                requires
                    0 <= 2 * b <= hw,
            ;
            assert(4 * s < high * high) by (nonlinear_arith)
                requires
                    4 * (b * b) <= hw * hw,
                    (high * high) * (w * w) == hw * hw,
                    s * (w * w) < b * b,
                    w * w > 0,
            ;
        } else {
            assert(4 * (a * a) <= hw * hw && (2 * a < hw ==> 4 * (a * a) < hw * hw))
                by (nonlinear_arith)
                requires
                    0 <= 2 * a <= hw,
            ;
            assert(4 * s <= high * high && (4 * (a * a) < hw * hw ==> 4 * s < high * high))
                by (nonlinear_arith)
                requires
                    4 * (a * a) <= hw * hw,
                    (high * high) * (w * w) == hw * hw,
                    s * (w * w) == a * a,
                    w * w > 0,
            ;
        }
    }
}

proof fn lemma_square_order(x: int, w: int, t: int)
    requires
        x > 0,
        w > 0,
        x * w <= t,
    ensures
        (x * x) * (w * w) <= t * t,
        (x * x) * (w * w) == t * t ==> x * w == t,
{
    let y = x * w;
    assert((x * x) * (w * w) == y * y) by (nonlinear_arith)
        requires
            y == x * w,
    ;
    assert(y > 0) by (nonlinear_arith)
        requires
            y == x * w,
            x > 0,
            w > 0,
    ;
    assert(y * y <= t * t && (y * y == t * t ==> y == t)) by (nonlinear_arith)
        requires
            0 < y <= t,
    ;
}

/// Lower neighbour of a pattern with significand `q` at exponent `e`.
proof fn lemma_lower_midpoint(e: nat, q: int)
    requires
        0 < q <= 2 * HIDDEN,
        e > 0 ==> q >= HIDDEN,
    ensures
        scaled(e * HIDDEN + q - 1) < q * pow2(e),
        q != HIDDEN || e == 0 ==> scaled(e * HIDDEN + q - 1) == (q - 1) * pow2(e),
{
    lemma_scaled(e, q);
    lemma_scaled_step(e * HIDDEN + q - 1);
    if q != HIDDEN || e == 0 {
        lemma_scaled(e, q - 1);
    }
}

/// Upper neighbour of a pattern with significand `q` at exponent `e`.
proof fn lemma_upper_midpoint(e: nat, q: int)
    requires
        0 <= q <= 2 * HIDDEN,
        e > 0 ==> q >= HIDDEN,
    ensures
        scaled(e * HIDDEN + q + 1) >= (q + 1) * pow2(e),
        q < 2 * HIDDEN ==> scaled(e * HIDDEN + q + 1) == (q + 1) * pow2(e),
{
    if q < 2 * HIDDEN {
        lemma_scaled(e, q + 1);
    } else {
        lemma_scaled((e + 1) as nat, HIDDEN + 1);
        assert((e + 1) * HIDDEN + (HIDDEN + 1) == e * HIDDEN + q + 1) by (nonlinear_arith)
            requires
                q == 2 * HIDDEN,
        ;
        lemma_pow2_unfold((e + 1) as nat);
        lemma_pow2_pos(e);
        assert((HIDDEN + 1) * pow2((e + 1) as nat) >= (q + 1) * pow2(e)) by (nonlinear_arith)
            requires
                q == 2 * HIDDEN,
                pow2((e + 1) as nat) == 2 * pow2(e),
                pow2(e) > 0,
        ;
    }
}

/// A quantity at or above the value given to infinity overflows.
proof fn lemma_overflow(m: int, u: int, w: int, sticky: bool, b: int)
    requires
        b >= INFINITY,
        w > 0,
        scaled(b) * w <= m * u,
    ensures
        brackets(m, u, w, sticky, INFINITY as int),
{
    let top = INFINITY as int;
    if b > top {
        lemma_scaled_increases(top, b);
    }
    lemma_scaled_step(top - 1);
    let a = scaled(top - 1);
    let c = scaled(top);
    let d = scaled(b);
    assert((a + c) * w < 2 * (m * u)) by (nonlinear_arith)
        requires
            a < c <= d,
            w > 0,
            d * w <= m * u,
    ;
}

/// Rounding of `q` whole units and `rem` parts of a unit of `2 * half` parts.
#[verifier::rlimit(40)]
proof fn lemma_round_parts(
    m: int,
    u: int,
    w: int,
    sticky: bool,
    e: nat,
    q: int,
    rem: int,
    half: int,
    up: bool,
)
    requires
        u > 0,
        w > 0,
        half > 0,
        m == q * (2 * half) + rem,
        0 <= rem < 2 * half,
        0 <= q < 2 * HIDDEN,
        e > 0 ==> q >= HIDDEN,
        pow2(e) * w == u * (2 * half),
        up <==> rem > half || (rem == half && (sticky || q % 2 == 1)),
    ensures
        ({
            let b = e * HIDDEN + q + (if up { 1int } else { 0 });
            brackets(m, u, w, sticky, if b <= INFINITY { b } else { INFINITY as int })
        }),
{
    let p = pow2(e) as int;
    let g = 2 * half;
    let b0 = e * HIDDEN + q;
    let k = q + (if up { 1int } else { 0 });
    let b = e * HIDDEN + k;
    lemma_scaled(e, q);
    lemma_scaled(e, k);
    lemma_pow2_pos(e);
    // Everything below is measured in multiples of `u`.
    assert(forall|x: int| #![trigger x * p] (x * p) * w == (x * g) * u) by {
        assert forall|x: int| #![trigger x * p] (x * p) * w == (x * g) * u by {
            assert((x * p) * w == x * (p * w)) by (nonlinear_arith);
            assert((x * g) * u == x * (u * g)) by (nonlinear_arith);
        }
    }
    assert(q * g + rem == m);
    assert((q * p) * w == (q * g) * u);
    assert((q * g) * u <= m * u) by (nonlinear_arith)
        requires
            q * g + rem == m,
            rem >= 0,
            u > 0,
    ;
    if b > INFINITY {
        lemma_overflow(m, u, w, sticky, b0);
    } else {
        if b > 0 {
            lemma_lower_midpoint(e, k);
            let below = scaled(b - 1);
            if up {
                assert(below == q * p) by {
                    lemma_scaled(e, q);
                }
                assert((below + k * p) * w == ((q + k) * g) * u) by {
                    assert((q + k) * p == q * p + k * p) by (nonlinear_arith);
                    assert(((q + k) * p) * w == ((q + k) * g) * u);
                }
                assert(((q + k) * g) * u <= 2 * (m * u) && (rem > half ==> ((q + k) * g) * u < 2
                    * (m * u))) by (nonlinear_arith)
                    requires
                        k == q + 1,
                        g == 2 * half,
                        q * g + rem == m,
                        rem >= half,
                        u > 0,
                {
                    assert((q + k) * g == 2 * (q * g) + 2 * half);
                }
            } else {
                assert((below + k * p) * w < 2 * ((q * g) * u)) by (nonlinear_arith)
                    requires
                        below < k * p,
                        k == q,
                        w > 0,
                        (q * p) * w == (q * g) * u,
                ;
            }
        }
        if b < INFINITY {
            lemma_upper_midpoint(e, k);
            let above = scaled(b + 1);
            assert((above + k * p) * w >= ((2 * k + 1) * g) * u) by {
                assert((2 * k + 1) * p == (k + 1) * p + k * p) by (nonlinear_arith);
                assert(((2 * k + 1) * p) * w == ((2 * k + 1) * g) * u);
                assert((above + k * p) * w >= ((k + 1) * p + k * p) * w) by (nonlinear_arith)
                    requires
                        above >= (k + 1) * p,
                        w > 0,
                ;
            }
            if up {
                assert(2 * ((m + 1) * u) <= ((2 * k + 1) * g) * u && 2 * (m * u) < ((2 * k + 1) * g)
                    * u) by (nonlinear_arith)
                    requires
                        k == q + 1,
                        g == 2 * half,
                        half > 0,
                        q * g + rem == m,
                        rem < g,
                        u > 0,
                {
                    assert((2 * k + 1) * g == 2 * (q * g) + 3 * g);
                    assert(2 * (m + 1) <= (2 * k + 1) * g);
                }
            } else {
                assert(above == (k + 1) * p);
                assert((above + k * p) * w == ((2 * k + 1) * g) * u) by {
                    assert((2 * k + 1) * p == (k + 1) * p + k * p) by (nonlinear_arith);
                    assert(((2 * k + 1) * p) * w == ((2 * k + 1) * g) * u);
                }
                assert(rem < half ==> 2 * ((m + 1) * u) <= ((2 * k + 1) * g) * u) by (nonlinear_arith)
                    requires
                        k == q,
                        g == 2 * half,
                        q * g + rem == m,
                        u > 0,
                {
                    assert((2 * k + 1) * g == 2 * (q * g) + g);
                    if rem < half {
                        assert(2 * (m + 1) <= (2 * k + 1) * g);
                    }
                }
                assert(2 * (m * u) < 2 * ((m + 1) * u)) by (nonlinear_arith)
                    requires
                        u > 0,
                ;
                assert(rem == half ==> 2 * (m * u) == ((2 * k + 1) * g) * u) by (nonlinear_arith)
                    requires
                        k == q,
                        g == 2 * half,
                        q * g + rem == m,
                {
                    assert((2 * k + 1) * g == 2 * (q * g) + g);
                }
                assert(b % 2 == q % 2) by {
                    assert(b == 2 * (e * (HIDDEN / 2)) + q) by (nonlinear_arith)
                        requires
                            b == e * HIDDEN + q,
                    ;
                }
            }
        }
        if up && b > 0 {
            assert(b % 2 == k % 2) by {
                assert(b == 2 * (e * (HIDDEN / 2)) + k) by (nonlinear_arith)
                    requires
                        b == e * HIDDEN + k,
                ;
            }
        }
    }
}

/// A quantity that is itself a magnitude.
proof fn lemma_exact_parts(m: int, u: int, w: int, e: nat, q: int)
    requires
        u > 0,
        w > 0,
        0 <= q < 2 * HIDDEN,
        e > 0 ==> q >= HIDDEN,
        (q * pow2(e)) * w == m * u,
    ensures
        ({
            let b = e * HIDDEN + q;
            brackets(m, u, w, false, if b <= INFINITY { b } else { INFINITY as int })
        }),
{
    let b = e * HIDDEN + q;
    lemma_scaled(e, q);
    let v = scaled(b);
    if b > INFINITY {
        lemma_overflow(m, u, w, false, b);
    } else {
        if b > 0 {
            lemma_scaled_step(b - 1);
            let a = scaled(b - 1);
            assert((a + v) * w < 2 * (m * u)) by (nonlinear_arith)
                requires
                    a < v,
                    w > 0,
                    v * w == m * u,
            ;
        }
        lemma_scaled_step(b);
        let c = scaled(b + 1);
        assert(2 * (m * u) < (v + c) * w) by (nonlinear_arith)
            requires
                v < c,
                w > 0,
                v * w == m * u,
        ;
    }
}

/// Numerator of two to the power `e`.
pub open spec fn up_factor(e: int) -> int {
    if e >= 0 {
        pow2(e as nat) as int
    } else {
        1
    }
}

/// Denominator of two to the power `e`.
pub open spec fn down_factor(e: int) -> int {
    if e >= 0 {
        1
    } else {
        pow2((-e) as nat) as int
    }
}

proof fn lemma_shl_one(s: u128)
    requires
        s < 128,
    ensures
        (1u128 << s) == pow2(s as nat),
    decreases s,
{
    if s == 0 {
        lemma2_to64();
        assert(1u128 << 0 == 1) by (bit_vector);
    } else {
        lemma_shl_one((s - 1) as u128);
        lemma_pow2_unfold(s as nat);
        assert(1u128 << s == 2 * (1u128 << ((s - 1) as u128))) by (bit_vector)
            requires
                0 < s < 128,
        ;
    }
}

/// Two to the power `s`.
pub(crate) fn power_of_two(s: u32) -> (p: u128)
    requires
        s < 128,
    ensures
        p == pow2(s as nat),
{
    let wide: u128 = s as u128;
    proof {
        lemma_shl_one(wide);
    }
    1u128 << wide
}

/// Quotient of `m` by two to the power `s`.
pub(crate) fn shift_down(m: u128, s: u32) -> (q: u128)
    requires
        s < 128,
    ensures
        q == m as int / pow2(s as nat) as int,
{
    let wide: u128 = s as u128;
    proof {
        vstd::bits::lemma_u128_shr_is_div(m, wide);
    }
    m >> wide
}

/// `v` is `m` without its last `l` bits.
spec fn leading(m: int, v: int, l: nat) -> bool {
    v * pow2(l) <= m < (v + 1) * pow2(l)
}

proof fn lemma_leading(m: int, v: int, l: nat, k: nat, v2: int)
    requires
        leading(m, v, l),
        v2 * pow2(k) <= v < (v2 + 1) * pow2(k),
    ensures
        leading(m, v2, l + k),
{
    lemma_pow2_adds(k, l);
    lemma_pow2_pos(l);
    let a = pow2(k) as int;
    let b = pow2(l) as int;
    assert(v2 * (a * b) <= m < (v2 + 1) * (a * b)) by (nonlinear_arith)
        requires
            v2 * a <= v,
            v + 1 <= (v2 + 1) * a,
            v * b <= m < (v + 1) * b,
            b > 0,
    {
        assert((v2 * a) * b <= v * b);
        assert((v + 1) * b <= ((v2 + 1) * a) * b);
        assert(v2 * (a * b) == (v2 * a) * b);
        assert((v2 + 1) * (a * b) == ((v2 + 1) * a) * b);
    }
}

/// Number of bits of a positive integer.
pub(crate) fn bit_length(m: u128) -> (l: u32)
    requires
        m > 0,
    ensures
        1 <= l <= 128,
        pow2((l - 1) as nat) <= m < pow2(l as nat),
{
    let mut v: u128 = m;
    let mut l: u32 = 0;
    proof {
        lemma2_to64();
        assert(leading(m as int, v as int, 0)) by (nonlinear_arith)
            requires
                pow2(0) == 1,
                v == m,
        ;
    }
    if v >= 0x1_0000_0000_0000_0000 {
        let next: u128 = v / 0x1_0000_0000_0000_0000;
        proof {
            lemma_leading(m as int, v as int, l as nat, 64, next as int);
        }
        v = next;
        l = l + 64;
    }
    if v >= 0x1_0000_0000 {
        let next: u128 = v / 0x1_0000_0000;
        proof {
            lemma_leading(m as int, v as int, l as nat, 32, next as int);
        }
        v = next;
        l = l + 32;
    }
    if v >= 0x1_0000 {
        let next: u128 = v / 0x1_0000;
        proof {
            lemma_leading(m as int, v as int, l as nat, 16, next as int);
        }
        v = next;
        l = l + 16;
    }
    if v >= 0x100 {
        let next: u128 = v / 0x100;
        proof {
            lemma_leading(m as int, v as int, l as nat, 8, next as int);
        }
        v = next;
        l = l + 8;
    }
    if v >= 0x10 {
        let next: u128 = v / 0x10;
        proof {
            lemma_leading(m as int, v as int, l as nat, 4, next as int);
        }
        v = next;
        l = l + 4;
    }
    if v >= 4 {
        let next: u128 = v / 4;
        proof {
            lemma_leading(m as int, v as int, l as nat, 2, next as int);
        }
        v = next;
        l = l + 2;
    }
    if v >= 2 {
        let next: u128 = v / 2;
        proof {
            lemma_leading(m as int, v as int, l as nat, 1, next as int);
        }
        v = next;
        l = l + 1;
    }
    assert(v == 1);
    proof {
        let k = l as nat;
        lemma_pow2_unfold(k + 1);
        assert(pow2(k) <= m < 2 * pow2(k)) by (nonlinear_arith)
            requires
                v == 1,
                leading(m as int, v as int, k),
        ;
    }
    l + 1
}

/// Powers of two order as their exponents do.
pub proof fn lemma_pow2_le(a: nat, b: nat)
    requires
        a <= b,
    ensures
        0 < pow2(a) <= pow2(b),
{
    lemma_pow2_pos(a);
    if a < b {
        lemma_pow2_strictly_increases(a, b);
    }
}

/// The two factors of two to the power `e` shift together.
proof fn lemma_factors(e: int, s: nat)
    requires
        e + s >= 0,
    ensures
        pow2((e + s) as nat) * down_factor(e) == up_factor(e) * pow2(s),
        up_factor(e) > 0,
        down_factor(e) > 0,
{
    if e >= 0 {
        lemma_pow2_adds(e as nat, s);
        lemma_pow2_pos(e as nat);
    } else {
        lemma_pow2_adds((e + s) as nat, (-e) as nat);
        lemma_pow2_pos((-e) as nat);
    }
}

/// Pattern of the magnitude nearest to `m` times two to the power `e`; where
/// `sticky` is set, to a quantity above that by less than one unit of `m`.
#[verifier::rlimit(80)]
pub(crate) fn round_magnitude(m: u128, e: i32, sticky: bool) -> (r: u64)
    requires
        0 < m < 0x8000_0000_0000_0000_0000_0000_0000_0000,
        -1200 <= e <= 3100,
        sticky ==> m >= 0x40_0000_0000_0000,
    ensures
        brackets(m as int, up_factor(e as int), down_factor(e as int), sticky, r as int),
{
    let ghost u = up_factor(e as int);
    let ghost w = down_factor(e as int);
    let l: i32 = bit_length(m) as i32;
    proof {
        lemma2_to64();
        lemma2_to64_rest();
        lemma_pow2_adds(63, 64);
        if l == 128 {
            lemma_pow2_le(127, 127);
        }
        if l <= 54 {
            lemma_pow2_le(l as nat, 54);
        }
    }
    let s: i32 = if l - 53 >= -e {
        l - 53
    } else {
        -e
    };
    let x: i32 = e + s;
    let b: u64;
    if s <= 0 {
        let t: u32 = (-s) as u32;
        let p: u128 = power_of_two(t);
        proof {
            // m < 2^l and l + t <= 53
            lemma_pow2_adds(l as nat, t as nat);
            lemma_pow2_le((l + t) as nat, 53);
            lemma_pow2_pos(t as nat);
            let pt = pow2(t as nat) as int;
            let pl = pow2(l as nat) as int;
            assert(0 <= m * pt < pl * pt) by (nonlinear_arith)
                requires
                    0 < m < pl,
                    pt > 0,
            ;
            if x > 0 {
                lemma_pow2_adds((l - 1) as nat, t as nat);
                let ph = pow2((l - 1) as nat) as int;
                assert(m * pt >= ph * pt) by (nonlinear_arith)
                    requires
                        m >= ph,
                        pt > 0,
                ;
            }
        }
        let q: u64 = (m * p) as u64;
        proof {
            lemma_factors(x as int, t as nat);
            lemma_pow2_pos(x as nat);
            lemma_factors(e as int, 0);
            assert(e >= 0);
            lemma_pow2_adds(x as nat, t as nat);
            assert((q * pow2(x as nat)) * w == m * u) by (nonlinear_arith)
                requires
                    q == m * pow2(t as nat),
                    u == pow2(x as nat) * pow2(t as nat),
                    w == 1,
            ;
            lemma_exact_parts(m as int, u, w, x as nat, q as int);
        }
        b = (x as u64) * HIDDEN + q;
    } else if s >= 128 {
        proof {
            lemma_factors(e as int, s as nat);
            lemma_pow2_unfold(s as nat);
            lemma_pow2_le(127, (s - 1) as nat);
            lemma_round_parts(
                m as int,
                u,
                w,
                sticky,
                0,
                0,
                m as int,
                pow2((s - 1) as nat) as int,
                false,
            );
        }
        b = 0;
    } else {
        let p: u128 = power_of_two(s as u32);
        let q: u128 = shift_down(m, s as u32);
        proof {
            lemma_pow2_unfold(s as nat);
            lemma_pow2_pos((s - 1) as nat);
            let pi = p as int;
            let mi = m as int;
            let qi = q as int;
            vstd::arithmetic::div_mod::lemma_fundamental_div_mod(mi, pi);
            vstd::arithmetic::div_mod::lemma_mod_bound(mi, pi);
            assert(pi * qi == qi * pi) by (nonlinear_arith);
            assert(qi < 2 * HIDDEN) by {
                lemma_pow2_le(l as nat, (s + 53) as nat);
                lemma_pow2_adds(s as nat, 53);
                assert(qi < 2 * HIDDEN) by (nonlinear_arith)
                    requires
                        qi * pi <= mi,
                        mi < pi * 0x20_0000_0000_0000,
                        pi > 0,
                ;
            }
            if x > 0 {
                lemma_pow2_adds(s as nat, 52);
                assert(qi >= HIDDEN) by (nonlinear_arith)
                    requires
                        mi < qi * pi + pi,
                        mi >= pi * 0x10_0000_0000_0000,
                        pi > 0,
                {
                    assert((qi + 1) * pi == qi * pi + pi);
                }
            }
        }
        let rem: u128 = m - q * p;
        let half: u128 = p / 2;
        let up: bool = rem > half || (rem == half && (sticky || q % 2 == 1));
        proof {
            lemma_factors(e as int, s as nat);
            lemma_round_parts(
                m as int,
                u,
                w,
                sticky,
                x as nat,
                q as int,
                rem as int,
                half as int,
                up,
            );
        }
        b = (x as u64) * HIDDEN + (q as u64) + (if up {
            1u64
        } else {
            0u64
        });
    }
    if b <= INFINITY {
        b
    } else {
        INFINITY
    }
}

/// A rounded truncated quotient is the rounded quotient.
pub proof fn lemma_round_ratio(m: int, e: int, sticky: bool, r: int, n: int, d: int)
    requires
        brackets(m, up_factor(e), down_factor(e), sticky, r),
        d > 0,
        m * up_factor(e) * d <= n * down_factor(e) < (m + 1) * up_factor(e) * d,
        sticky <==> m * up_factor(e) * d != n * down_factor(e),
    ensures
        r == round_ratio(n, d),
        nearest_ratio(n, d, r),
{
    lemma_factors(e, if e >= 0 { 0 } else { (-e) as nat });
    lemma_brackets_ratio(m, up_factor(e), down_factor(e), sticky, r, n, d);
    lemma_nearest_ratio_unique(n, d, r, round_ratio(n, d));
}

/// A rounded truncated square root is the rounded square root.
pub proof fn lemma_round_root(m: int, e: int, sticky: bool, r: int, s: int)
    requires
        brackets(m, up_factor(e), down_factor(e), sticky, r),
        m >= 0,
        ({
            let a = m * up_factor(e);
            let b = (m + 1) * up_factor(e);
            let t = s * (down_factor(e) * down_factor(e));
            a * a <= t < b * b && (sticky <==> a * a != t)
        }),
    ensures
        r == round_root(s),
        nearest_root(s, r),
{
    lemma_factors(e, if e >= 0 { 0 } else { (-e) as nat });
    lemma_brackets_root(m, up_factor(e), down_factor(e), sticky, r, s);
    lemma_nearest_root_unique(s, r, round_root(s));
}

proof fn lemma_ratio_search(n: int, d: int, r: int)
    requires
        d > 0,
        0 <= r <= INFINITY,
        r > 0 ==> {
            let low = (scaled(r - 1) + scaled(r)) * d;
            low < 2 * n || (low == 2 * n && r % 2 == 0)
        },
    ensures
        exists|k: int| nearest_ratio(n, d, k),
    decreases INFINITY - r,
{
    if nearest_ratio(n, d, r) {
    } else {
        lemma_ratio_search(n, d, r + 1);
    }
}

/// Every quotient has a nearest magnitude.
pub proof fn lemma_ratio_exists(n: int, d: int)
    requires
        d > 0,
    ensures
        nearest_ratio(n, d, round_ratio(n, d)),
{
    lemma_ratio_search(n, d, 0);
}

proof fn lemma_root_search(s: int, r: int)
    requires
        0 <= r <= INFINITY,
        r > 0 ==> {
            let low = scaled(r - 1) + scaled(r);
            low * low < 4 * s || (low * low == 4 * s && r % 2 == 0)
        },
    ensures
        exists|k: int| nearest_root(s, k),
    decreases INFINITY - r,
{
    if nearest_root(s, r) {
    } else {
        lemma_root_search(s, r + 1);
    }
}

/// Every square root has a nearest magnitude.
pub proof fn lemma_root_exists(s: int)
    ensures
        nearest_root(s, round_root(s)),
{
    lemma_root_search(s, 0);
}

/// A quotient between two magnitudes rounds to a magnitude between them.
pub proof fn lemma_ratio_between(n: int, d: int, lo: int, hi: int)
    requires
        d > 0,
        0 <= lo <= hi <= INFINITY,
        scaled(lo) * d <= n,
        hi < INFINITY ==> n <= scaled(hi) * d,
    ensures
        lo <= round_ratio(n, d) <= hi,
{
    lemma_ratio_exists(n, d);
    let r = round_ratio(n, d);
    if hi < INFINITY {
        lemma_nearest_exact(hi, d);
        assert(n * d <= (scaled(hi) * d) * d) by (nonlinear_arith)
            requires
                n <= scaled(hi) * d,
                d > 0,
        ;
        lemma_ratio_monotone(n, d, r, scaled(hi) * d, d, hi);
    }
    if lo < INFINITY {
        lemma_nearest_exact(lo, d);
        assert((scaled(lo) * d) * d <= n * d) by (nonlinear_arith)
            requires
                scaled(lo) * d <= n,
                d > 0,
        ;
        lemma_ratio_monotone(scaled(lo) * d, d, lo, n, d, r);
    } else if r < INFINITY {
        if r + 1 < INFINITY {
            lemma_scaled_increases(r + 1, INFINITY as int);
        }
        lemma_scaled_increases(r, r + 1);
        let a = scaled(r);
        let b = scaled(r + 1);
        let c = scaled(lo);
        assert((a + b) * d < 2 * (c * d)) by (nonlinear_arith)
            requires
                a < b <= c,
                d > 0,
        ;
    }
}

/// The square root of a quantity up to the square of a magnitude rounds to that
/// magnitude or below.
pub proof fn lemma_root_at_most(s: int, hi: int)
    requires
        0 <= hi < INFINITY,
        s <= scaled(hi) * scaled(hi),
    ensures
        0 <= round_root(s) <= hi,
{
    lemma_root_exists(s);
    let v = scaled(hi);
    lemma_scaled_step(hi);
    let c = scaled(hi + 1);
    assert(4 * (v * v) < (v + c) * (v + c)) by (nonlinear_arith)
        requires
            0 <= v < c,
    ;
    if hi > 0 {
        lemma_scaled_step(hi - 1);
        let a = scaled(hi - 1);
        assert((a + v) * (a + v) < 4 * (v * v)) by (nonlinear_arith)
            requires
                0 <= a < v,
        ;
    }
    assert(nearest_root(v * v, hi));
    lemma_root_monotone(s, round_root(s), v * v, hi);
}

/// The square root of a quantity from the square of a magnitude on rounds to
/// that magnitude or above.
pub proof fn lemma_root_at_least(s: int, lo: int)
    requires
        0 <= lo < INFINITY,
        scaled(lo) * scaled(lo) <= s,
    ensures
        lo <= round_root(s) <= INFINITY,
{
    lemma_root_exists(s);
    let v = scaled(lo);
    lemma_scaled_step(lo);
    let c = scaled(lo + 1);
    assert(4 * (v * v) < (v + c) * (v + c)) by (nonlinear_arith)
        requires
            0 <= v < c,
    ;
    if lo > 0 {
        lemma_scaled_step(lo - 1);
        let a = scaled(lo - 1);
        assert((a + v) * (a + v) < 4 * (v * v)) by (nonlinear_arith)
            requires
                0 <= a < v,
        ;
    }
    assert(nearest_root(v * v, lo));
    lemma_root_monotone(v * v, lo, s, round_root(s));
}

} // verus!
