//! Exact properties of the norm: the order of its first two numbers does not
//! matter, and it adds squares.
use crate::binary64::{Binary64, ONE};
use crate::matrix;
use crate::matrix::NormState;
use crate::rounding;
use crate::rounding::HIDDEN;
use vstd::arithmetic::power2::*;
use vstd::prelude::*;

verus! {

/// The norm's progress after the first number that is not zero.
proof fn lemma_first(value: Binary64)
    requires
        value.finite(),
        !value.zero(),
    ensures
        matrix::norm_step(
            NormState::Running(Binary64::zero_value(), Binary64::one()),
            value,
        ) == NormState::Running(value.magnitude(), Binary64::one()),
{
    let zero = Binary64::zero_value();
    let one = Binary64::one();
    let magnitude = value.magnitude();
    Binary64::lemma_zero_quotient(zero, magnitude);
    Binary64::lemma_over_larger(zero, magnitude);
    let ratio = zero / magnitude;
    assert(ratio == zero);
    Binary64::law_times_one(zero);
    Binary64::lemma_zero_product(zero, zero);
    Binary64::law_product_sign(zero, zero);
    assert(one * ratio * ratio == zero);
    Binary64::lemma_plus_zero(zero, one);
    Binary64::law_sum_commutes(zero, one);
}

/// Two numbers leave the same progress in either order.
proof fn lemma_two(a: Binary64, b: Binary64)
    requires
        a.finite() && b.finite(),
    ensures
        ({
            let start = NormState::Running(Binary64::zero_value(), Binary64::one());
            matrix::norm_step(matrix::norm_step(start, a), b) == matrix::norm_step(
                matrix::norm_step(start, b),
                a,
            )
        }),
{
    let one = Binary64::one();
    let x = a.magnitude();
    let y = b.magnitude();
    if !a.zero() {
        lemma_first(a);
    }
    if !b.zero() {
        lemma_first(b);
    }
    if !a.zero() && !b.zero() {
        if x.pattern() <= y.pattern() {
            Binary64::lemma_over_larger(x, y);
            Binary64::law_times_one(x / y);
        }
        if y.pattern() <= x.pattern() {
            Binary64::lemma_over_larger(y, x);
            Binary64::law_times_one(y / x);
        }
        if x.pattern() == y.pattern() {
            assert(x == y);
        }
    }
}

/// The norm's progress goes on from equal progress alike.
proof fn lemma_goes_on(a: Seq<Binary64>, b: Seq<Binary64>, rest: Seq<Binary64>)
    requires
        matrix::norm_state(a) == matrix::norm_state(b),
    ensures
        matrix::norm_state(a + rest) == matrix::norm_state(b + rest),
    decreases rest.len(),
{
    if rest.len() == 0 {
        assert(a + rest =~= a);
        assert(b + rest =~= b);
    } else {
        lemma_goes_on(a, b, rest.drop_last());
        assert((a + rest).drop_last() =~= a + rest.drop_last());
        assert((b + rest).drop_last() =~= b + rest.drop_last());
    }
}

/// A norm does not depend on which of its first two numbers comes first, to the
/// last bit.
pub proof fn law_norm_exchanges(a: Binary64, b: Binary64, rest: Seq<Binary64>)
    requires
        a.finite() && b.finite(),
    ensures
        matrix::norm_of(seq![a, b] + rest) == matrix::norm_of(seq![b, a] + rest),
{
    let start = NormState::Running(Binary64::zero_value(), Binary64::one());
    let p = seq![a, b];
    let q = seq![b, a];
    let none = Seq::<Binary64>::empty();
    assert(matrix::norm_state(none) == start);
    assert(p.drop_last() =~= seq![a] && seq![a].drop_last() =~= none);
    assert(q.drop_last() =~= seq![b] && seq![b].drop_last() =~= none);
    assert(matrix::norm_state(seq![a]) == matrix::norm_step(start, a));
    assert(matrix::norm_state(seq![b]) == matrix::norm_step(start, b));
    lemma_two(a, b);
    lemma_goes_on(p, q, rest);
}

/// The norm of one finite number is its magnitude.
pub proof fn law_norm_of_one(a: Binary64)
    requires
        a.finite(),
    ensures
        matrix::norm_of(seq![a]) == a.magnitude(),
{
    let start = NormState::Running(Binary64::zero_value(), Binary64::one());
    let none = Seq::<Binary64>::empty();
    assert(matrix::norm_state(none) == start);
    assert(seq![a].drop_last() =~= none);
    assert(matrix::norm_state(seq![a]) == matrix::norm_step(start, a));
    if !a.zero() {
        lemma_first(a);
        lemma_root_of_one();
        Binary64::law_times_one(a.magnitude());
    }
}

proof fn lemma_root_of_one()
    ensures
        Binary64::one().square_root() == Binary64::one(),
{
    reveal(Binary64::square_root);
    Binary64::lemma_one_scaled();
    let v = rounding::scaled(ONE as int);
    rounding::lemma_root_at_most(v * v, ONE as int);
    rounding::lemma_root_exists(v * v);
    let p = rounding::round_root(v * v);
    if p < ONE {
        if p + 1 < ONE {
            rounding::lemma_scaled_increases(p + 1, ONE as int);
        }
        rounding::lemma_scaled_increases(p, ONE as int);
        let m = rounding::scaled(p) + rounding::scaled(p + 1);
        assert(m * m < 4 * (v * v)) by (nonlinear_arith)
            requires
                0 <= m < 2 * v,
        ;
    }
}

/// Two to the power `-k`.
spec fn halved(k: nat) -> Binary64 {
    Binary64::signed(false, (1023 - k) * HIDDEN)
}

proof fn lemma_halved(k: nat)
    requires
        k <= 1022,
    ensures
        halved(k).pattern() == (1023 - k) * HIDDEN,
        !halved(k).negative(),
        halved(k).finite(),
        rounding::scaled(halved(k).pattern()) * pow2(k) == pow2(1074),
        rounding::scaled(halved(k).pattern()) == HIDDEN * pow2((1022 - k) as nat),
{
    let e = (1022 - k) as nat;
    let h = HIDDEN as int;
    assert((1023 - k) * h == e * h + h) by (nonlinear_arith)
        requires
            e == 1022 - k,
    ;
    assert(0 <= (1023 - k) * h <= 1023 * h) by (nonlinear_arith)
        requires
            0 <= k <= 1022,
            h > 0,
    ;
    rounding::lemma_scaled(e, h);
    lemma2_to64();
    lemma2_to64_rest();
    lemma_pow2_adds(e, k);
    lemma_pow2_adds(52, 1022);
    let a = pow2(e) as int;
    let b = pow2(k) as int;
    assert((h * a) * b == h * (a * b)) by (nonlinear_arith);
}

/// The ratio of numbers that differ by a power of two.
proof fn lemma_exact_ratio(a: Binary64, x: Binary64, k: nat)
    requires
        a.finite() && x.finite(),
        !a.negative() && !x.negative(),
        !a.zero(),
        k <= 1022,
        rounding::scaled(x.pattern()) == rounding::scaled(a.pattern()) * pow2(k),
    ensures
        a / x == halved(k),
        !x.zero(),
{
    reveal(Binary64::spec_euclidean_or_real_div);
    lemma_halved(k);
    lemma_pow2_pos(k);
    Binary64::lemma_scaled_sign(a.pattern());
    Binary64::lemma_scaled_sign(x.pattern());
    let s = rounding::scaled(a.pattern());
    let y = rounding::scaled(x.pattern());
    let b = pow2(k) as int;
    let t = pow2(1074) as int;
    let q = rounding::scaled(halved(k).pattern());
    assert(y > 0) by (nonlinear_arith)
        requires
            y == s * b,
            s > 0,
            b > 0,
    ;
    assert(s * t == q * y) by (nonlinear_arith)
        requires
            q * b == t,
            y == s * b,
    ;
    Binary64::lemma_round_exact(halved(k).pattern(), y);
}

/// The square of a power of two.
proof fn lemma_halved_square(k: nat)
    requires
        2 * k <= 1022,
    ensures
        halved(k) * halved(k) == halved(2 * k),
{
    reveal(Binary64::spec_mul);
    lemma_halved(k);
    lemma_halved(2 * k);
    lemma_pow2_adds(k, k);
    lemma_pow2_pos(k);
    lemma_pow2_pos(1074);
    let t = pow2(1074) as int;
    let b = pow2(k) as int;
    let p = rounding::scaled(halved(k).pattern());
    let q = rounding::scaled(halved(2 * k).pattern());
    assert(p * p == q * t) by (nonlinear_arith)
        requires
            p * b == t,
            q * (b * b) == t,
            b > 0,
    {
        assert((p * b) * (p * b) == (p * p) * (b * b));
        assert(t * t == (q * t) * (b * b));
        assert(b * b > 0);
    }
    Binary64::lemma_round_exact(halved(2 * k).pattern(), t);
}

/// One and `m` units of its last place.
spec fn above_one(m: int) -> Binary64 {
    Binary64::signed(false, ONE + m)
}

/// Adding a power of two to a number from one to two, where both are whole
/// units of the last place.
proof fn lemma_exact_sum(m: int, k: nat, c: int)
    requires
        k <= 26,
        c == pow2((52 - 2 * k) as nat),
        0 <= m,
        m + c <= HIDDEN,
    ensures
        above_one(m) + halved(2 * k) == above_one(m + c),
{
    reveal(Binary64::spec_add);
    lemma_halved(2 * k);
    lemma_pow2_pos((52 - 2 * k) as nat);
    let h = HIDDEN as int;
    rounding::lemma_scaled(1022, h + m);
    rounding::lemma_scaled(1022, h + m + c);
    assert(ONE == 1022 * HIDDEN + HIDDEN);
    lemma2_to64();
    lemma2_to64_rest();
    lemma_pow2_adds((52 - 2 * k) as nat, 1022);
    lemma_pow2_adds(52, (1022 - 2 * k) as nat);
    let u = pow2(1022) as int;
    let v = above_one(m).value() + halved(2 * k).value();
    assert((h + m) * u + c * u == (h + m + c) * u) by (nonlinear_arith);
    let p = ONE + m + c;
    assert(rounding::scaled(p) * 1 == rounding::scaled(p)) by (nonlinear_arith);
    Binary64::lemma_round_exact(p, 1);
    Binary64::lemma_scaled_sign(p);
}

/// One more number that is the scale over a power of two.
proof fn lemma_exact_step(x: Binary64, a: Binary64, m: int, k: nat, c: int)
    requires
        a.finite() && x.finite(),
        !x.negative(),
        !a.zero(),
        k <= 26,
        rounding::scaled(x.pattern()) == rounding::scaled(a.pattern()) * pow2(k),
        c == pow2((52 - 2 * k) as nat),
        0 <= m,
        m + c <= HIDDEN,
    ensures
        matrix::norm_step(NormState::Running(x, above_one(m)), a) == NormState::Running(
            x,
            above_one(m + c),
        ),
{
    let magnitude = a.magnitude();
    lemma_exact_ratio(magnitude, x, k);
    lemma_halved_square(k);
    lemma_exact_sum(m, k, c);
    lemma_pow2_pos(k);
    let s = rounding::scaled(a.pattern());
    let y = rounding::scaled(x.pattern());
    let b = pow2(k) as int;
    Binary64::lemma_scaled_sign(a.pattern());
    assert(s <= y) by (nonlinear_arith)
        requires
            y == s * b,
            s >= 0,
            b >= 1,
    ;
    if x.pattern() < a.pattern() {
        rounding::lemma_scaled_increases(x.pattern(), a.pattern());
    }
}

/// The norm adds squares: a number counts as much as four of half its size,
/// where the ratios to the largest are powers of two that the sum holds exactly.
pub proof fn law_norm_quarters(x: Binary64, a: Binary64, b: Binary64, k: nat)
    requires
        x.finite() && a.finite() && b.finite(),
        !a.zero(),
        1 <= k <= 26,
        rounding::scaled(x.pattern()) == rounding::scaled(a.pattern()) * pow2(k),
        rounding::scaled(b.pattern()) == 2 * rounding::scaled(a.pattern()),
    ensures
        matrix::norm_of(seq![x, a, a, a, a]) == matrix::norm_of(seq![x, b]),
{
    let start = NormState::Running(Binary64::zero_value(), Binary64::one());
    let none = Seq::<Binary64>::empty();
    let y = x.magnitude();
    let c = pow2((52 - 2 * k) as nat) as int;
    let j = (k - 1) as nat;
    let d = pow2((52 - 2 * j) as nat) as int;
    lemma_pow2_pos((52 - 2 * k) as nat);
    lemma_pow2_adds(2, (52 - 2 * k) as nat);
    lemma2_to64();
    rounding::lemma_pow2_le((52 - 2 * j) as nat, 52);
    lemma2_to64_rest();
    assert(d == 4 * c && d <= HIDDEN);
    lemma_pow2_unfold(k);
    lemma_pow2_pos(k);
    Binary64::lemma_scaled_sign(a.pattern());
    Binary64::lemma_scaled_sign(b.pattern());
    let s = rounding::scaled(a.pattern());
    let p = pow2(k) as int;
    let q = pow2(j) as int;
    assert(s * p == (2 * s) * q && s * p > 0) by (nonlinear_arith)
        requires
            p == 2 * q,
            s > 0,
            p > 0,
    ;
    Binary64::lemma_scaled_sign(x.pattern());
    lemma_first(x);
    assert(above_one(0) == Binary64::one());
    lemma_exact_step(y, a, 0, k, c);
    lemma_exact_step(y, a, c, k, c);
    lemma_exact_step(y, a, 2 * c, k, c);
    lemma_exact_step(y, a, 3 * c, k, c);
    lemma_exact_step(y, b, 0, j, d);
    let s1 = seq![x];
    let s2 = seq![x, a];
    let s3 = seq![x, a, a];
    let s4 = seq![x, a, a, a];
    let s5 = seq![x, a, a, a, a];
    let r2 = seq![x, b];
    assert(s1.drop_last() =~= none);
    assert(s2.drop_last() =~= s1);
    assert(s3.drop_last() =~= s2);
    assert(s4.drop_last() =~= s3);
    assert(s5.drop_last() =~= s4);
    assert(r2.drop_last() =~= s1);
    assert(matrix::norm_state(none) == start);
    assert(matrix::norm_state(s1) == NormState::Running(y, above_one(0)));
    assert(matrix::norm_state(s2) == NormState::Running(y, above_one(c)));
    assert(matrix::norm_state(s3) == NormState::Running(y, above_one(2 * c)));
    assert(matrix::norm_state(s4) == NormState::Running(y, above_one(3 * c)));
    assert(matrix::norm_state(s5) == NormState::Running(y, above_one(4 * c)));
    assert(matrix::norm_state(r2) == NormState::Running(y, above_one(d)));
}

} // verus!
