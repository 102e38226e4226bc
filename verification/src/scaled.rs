//! Compensated sums, and products and quotients carried beyond the exponent
//! range of binary64 until they are complete.
use core::ops::Neg;
use crate::binary64::{Binary64, ONE, TWO};
use crate::rounding;
use crate::rounding::{HIDDEN, INFINITY};
use vstd::arithmetic::power2::*;
use vstd::prelude::*;

verus! {

/// Most numerators whose significands, each below two, multiply without
/// overflow.
pub const MOST_NUMERATORS: usize = 1023;

/// Most denominators whose significands, each below two, divide one to more than
/// the smallest normal number.
pub const MOST_DENOMINATORS: usize = 1021;

/// Neumaier sum of binary64 terms.
#[derive(Clone, Copy, Debug)]
pub struct CompensatedSum {
    /// Running rounded sum.
    pub sum: Binary64,
    /// Rounding residues left out of `sum`.
    pub correction: Binary64,
}

impl CompensatedSum {
    pub open spec fn empty() -> CompensatedSum {
        CompensatedSum { sum: Binary64::zero_value(), correction: Binary64::zero_value() }
    }

    /// The rounding residue of `a + b`, taken from the larger of the two.
    pub open spec fn residue(a: Binary64, b: Binary64) -> Binary64 {
        let next = a + b;
        if a.magnitude() >= b.magnitude() {
            (a - next) + b
        } else {
            (b - next) + a
        }
    }

    /// The sum after one more term.
    pub open spec fn after(self, value: Binary64) -> CompensatedSum {
        CompensatedSum {
            sum: self.sum + value,
            correction: self.correction + Self::residue(self.sum, value),
        }
    }

    /// The sum of the terms, added from the first to the last.
    pub open spec fn of(terms: Seq<Binary64>) -> CompensatedSum
        decreases terms.len(),
    {
        if terms.len() == 0 {
            Self::empty()
        } else {
            Self::of(terms.drop_last()).after(terms.last())
        }
    }

    pub open spec fn result(self) -> Binary64 {
        self.sum + self.correction
    }

    fn residue_of(a: Binary64, b: Binary64) -> (r: Binary64)
        ensures
            r == Self::residue(a, b),
    {
        let next = a + b;
        if b.abs().at_most(a.abs()) {
            (a - next) + b
        } else {
            (b - next) + a
        }
    }

    /// Add one term, keeping its rounding residue.
    pub fn add(&mut self, value: Binary64)
        ensures
            *final(self) == old(self).after(value),
    {
        let residue = Self::residue_of(self.sum, value);
        self.correction = self.correction + residue;
        self.sum = self.sum + value;
    }

    /// The compensated total.
    pub fn total(self) -> (r: Binary64)
        ensures
            r == self.result(),
    {
        self.sum + self.correction
    }
}

impl Default for CompensatedSum {
    fn default() -> (r: CompensatedSum)
        ensures
            r == CompensatedSum::empty(),
    {
        CompensatedSum { sum: Binary64::zero_value(), correction: Binary64::zero_value() }
    }
}

/// A positive number is `significand`, which lies from one up to two, times
/// two to the power `exponent`. The patterns from infinity on are read as the
/// binade after the largest finite one.
pub open spec fn splits(value: Binary64, significand: Binary64, exponent: int) -> bool {
    &&& ONE <= significand.bits < TWO
    &&& rounding::scaled(value.pattern()) * rounding::down_factor(exponent) == rounding::scaled(
        significand.pattern(),
    ) * rounding::up_factor(exponent)
}

/// The significand of a positive number.
pub open spec fn significand_of(value: Binary64) -> Binary64 {
    (choose|r: (Binary64, int)| splits(value, r.0, r.1)).0
}

/// The binary exponent of a positive number.
pub open spec fn exponent_of(value: Binary64) -> int {
    (choose|r: (Binary64, int)| splits(value, r.0, r.1)).1
}

/// Significands span one binade.
pub(crate) proof fn lemma_significand_range(significand: Binary64)
    requires
        ONE <= significand.bits < TWO,
    ensures
        rounding::scaled(significand.pattern()) == (HIDDEN + (significand.bits - ONE)) * pow2(1022),
        pow2(1074) <= rounding::scaled(significand.pattern()) < pow2(1075),
        significand.finite(),
        !significand.negative(),
{
    let q = HIDDEN + (significand.bits - ONE);
    assert(significand.pattern() == 1022 * HIDDEN + q);
    rounding::lemma_scaled(1022, q);
    lemma2_to64();
    lemma2_to64_rest();
    lemma_pow2_adds(52, 1022);
    lemma_pow2_adds(53, 1022);
    lemma_pow2_pos(1022);
    let p = pow2(1022) as int;
    assert(HIDDEN * p <= q * p < (2 * HIDDEN) * p) by (nonlinear_arith)
        requires
            HIDDEN <= q < 2 * HIDDEN,
            p > 0,
    ;
}

proof fn lemma_exponent_order(value: Binary64, s1: Binary64, e1: int, s2: Binary64, e2: int)
    requires
        splits(value, s1, e1),
        splits(value, s2, e2),
    ensures
        e1 <= e2,
{
    lemma_significand_range(s1);
    lemma_significand_range(s2);
    if e1 > e2 {
        let v = rounding::scaled(value.pattern());
        let a = rounding::scaled(s1.pattern());
        let b = rounding::scaled(s2.pattern());
        let k = (e1 - e2) as nat;
        lemma_pow2_unfold(k);
        lemma_pow2_pos((k - 1) as nat);
        lemma_pow2_unfold(1075);
        // a * 2^k == b
        let u1 = rounding::up_factor(e1);
        let d1 = rounding::down_factor(e1);
        let u2 = rounding::up_factor(e2);
        let d2 = rounding::down_factor(e2);
        let p = pow2(k) as int;
        assert(u1 > 0 && u2 > 0 && d1 > 0 && d2 > 0 && u1 * d2 == u2 * d1 * p) by {
            if e2 >= 0 {
                lemma_pow2_adds(e2 as nat, k);
                lemma_pow2_pos(e1 as nat);
                lemma_pow2_pos(e2 as nat);
                assert(u1 * d2 == u2 * d1 * p) by (nonlinear_arith)
                    requires
                        u1 == u2 * p,
                        d1 == 1,
                        d2 == 1,
                ;
            } else if e1 >= 0 {
                lemma_pow2_adds(e1 as nat, (-e2) as nat);
                lemma_pow2_pos(e1 as nat);
                lemma_pow2_pos((-e2) as nat);
                assert(u1 * d2 == u2 * d1 * p) by (nonlinear_arith)
                    requires
                        u1 * d2 == p,
                        u2 == 1,
                        d1 == 1,
                ;
            } else {
                lemma_pow2_adds((-e1) as nat, k);
                lemma_pow2_pos((-e1) as nat);
                lemma_pow2_pos((-e2) as nat);
                assert(u1 * d2 == u2 * d1 * p) by (nonlinear_arith)
                    requires
                        d2 == d1 * p,
                        u1 == 1,
                        u2 == 1,
                ;
            }
        }
        assert(a * p == b) by (nonlinear_arith)
            requires
                v * d1 == a * u1,
                v * d2 == b * u2,
                u1 * d2 == u2 * d1 * p,
                u2 > 0,
                d1 > 0,
        {
            // v * d1 * d2 two ways
            assert((a * u1) * d2 == (b * u2) * d1);
            assert((a * u1) * d2 == a * (u2 * d1 * p));
            assert((a * p) * (u2 * d1) == b * (u2 * d1));
            assert(u2 * d1 > 0);
        }
        assert(a * p >= 2 * a) by (nonlinear_arith)
            requires
                p >= 2,
                a > 0,
        ;
        assert(false);
    }
}

/// A positive number splits in only one way.
proof fn lemma_split_unique(value: Binary64, significand: Binary64, exponent: int)
    requires
        splits(value, significand, exponent),
    ensures
        significand == significand_of(value),
        exponent == exponent_of(value),
{
    let witness = (significand, exponent);
    assert(splits(value, witness.0, witness.1));
    let r = choose|r: (Binary64, int)| splits(value, r.0, r.1);
    assert(splits(value, r.0, r.1));
    lemma_exponent_order(value, significand, exponent, r.0, r.1);
    lemma_exponent_order(value, r.0, r.1, significand, exponent);
    lemma_significand_range(significand);
    lemma_significand_range(r.0);
    let a = rounding::scaled(significand.pattern());
    let b = rounding::scaled(r.0.pattern());
    let u = rounding::up_factor(exponent);
    if exponent >= 0 {
        lemma_pow2_pos(exponent as nat);
    }
    assert(a == b) by (nonlinear_arith)
        requires
            a * u == b * u,
            u > 0,
    ;
    if significand.bits < r.0.bits {
        rounding::lemma_scaled_increases(significand.pattern(), r.0.pattern());
    } else if r.0.bits < significand.bits {
        rounding::lemma_scaled_increases(r.0.pattern(), significand.pattern());
    }
}

/// A number given as an integer times a power of two splits once the integer
/// is brought to the width of a significand.
pub(crate) proof fn lemma_splits(value: Binary64, m: int, e: nat, t: nat)
    requires
        rounding::scaled(value.pattern()) == m * pow2(e),
        HIDDEN <= m * pow2(t) < 2 * HIDDEN,
    ensures
        splits(value, Binary64 { bits: (ONE + (m * pow2(t) - HIDDEN)) as u64 }, e - t - 1022),
        significand_of(value) == (Binary64 { bits: (ONE + (m * pow2(t) - HIDDEN)) as u64 }),
        exponent_of(value) == e - t - 1022,
{
    let p = pow2(t) as int;
    let q = m * p;
    let significand = Binary64 { bits: (ONE + (q - HIDDEN)) as u64 };
    let exponent = e - t - 1022;
    lemma_significand_range(significand);
    let v = rounding::scaled(value.pattern());
    let a = rounding::scaled(significand.pattern());
    let u = rounding::up_factor(exponent);
    let d = rounding::down_factor(exponent);
    let pe = pow2(e) as int;
    let ph = pow2(1022) as int;
    assert(pe * d == (p * ph) * u) by {
        lemma_pow2_adds(t, 1022);
        if exponent >= 0 {
            lemma_pow2_adds((t + 1022) as nat, exponent as nat);
            assert(pe * 1 == pe) by (nonlinear_arith);
        } else {
            lemma_pow2_adds(e, (-exponent) as nat);
            assert((p * ph) * 1 == p * ph) by (nonlinear_arith);
        }
    }
    assert(v * d == a * u) by (nonlinear_arith)
        requires
            v == m * pe,
            a == q * ph,
            q == m * p,
            pe * d == (p * ph) * u,
    {
        assert(v * d == m * (pe * d));
        assert(a * u == m * ((p * ph) * u));
    }
    lemma_split_unique(value, significand, exponent);
}

/// An integer doubles up to the width of a significand.
proof fn lemma_doubles(m: int) -> (t: nat)
    requires
        0 < m < 2 * HIDDEN,
    ensures
        HIDDEN <= m * pow2(t) < 2 * HIDDEN,
    decreases 2 * HIDDEN - m,
{
    if m >= HIDDEN {
        lemma2_to64();
        assert(m * 1 == m) by (nonlinear_arith);
        0
    } else {
        let t = lemma_doubles(2 * m);
        lemma_pow2_unfold(t + 1);
        let p = pow2(t) as int;
        assert(m * (2 * p) == (2 * m) * p) by (nonlinear_arith);
        t + 1
    }
}

/// Every positive number splits into a significand from one up to two and an
/// exponent.
pub proof fn law_splits(value: Binary64)
    requires
        !value.zero(),
    ensures
        splits(value, significand_of(value), exponent_of(value)),
{
    let (e, q) = rounding::lemma_split(value.pattern());
    if q == 0 {
        assert(value.pattern() == 0);
    }
    let t = lemma_doubles(q);
    lemma_splits(value, q, e, t);
}

/// Split a positive number into a significand from one up to two and a binary
/// exponent.
pub fn decompose_positive(value: Binary64) -> (r: (Binary64, i64))
    requires
        !value.zero(),
        !value.negative(),
    ensures
        splits(value, r.0, r.1 as int),
        r.0 == significand_of(value),
        r.1 == exponent_of(value),
        -1074 <= r.1 <= 1024,
{
    let (m, e) = value.parts();
    let l: u32 = rounding::bit_length(m as u128);
    proof {
        lemma2_to64();
        lemma2_to64_rest();
        if l > 53 {
            rounding::lemma_pow2_le(53, (l - 1) as nat);
        }
        if e > 0 && l < 53 {
            rounding::lemma_pow2_le(l as nat, 52);
        }
    }
    let t: u32 = 53 - l;
    let p: u128 = rounding::power_of_two(t);
    proof {
        lemma_pow2_adds((l - 1) as nat, t as nat);
        lemma_pow2_adds(l as nat, t as nat);
        lemma_pow2_pos(t as nat);
        let lo = pow2((l - 1) as nat) as int;
        let hi = pow2(l as nat) as int;
        assert(lo * p <= m * p < hi * p) by (nonlinear_arith)
            requires
                lo <= m < hi,
                p > 0,
        ;
    }
    let q: u64 = ((m as u128) * p) as u64;
    let significand = Binary64::from_bits(ONE + (q - HIDDEN));
    let exponent: i64 = (e as i64) - (t as i64) - 1022;
    proof {
        lemma_splits(value, m as int, e as nat, t as nat);
    }
    (significand, exponent)
}

/// The number nearest to `significand` times two to the power `exponent`.
pub open spec fn composed(significand: Binary64, exponent: int) -> Binary64 {
    Binary64::signed(
        significand.negative(),
        rounding::round_ratio(
            rounding::scaled(significand.pattern()) * rounding::up_factor(exponent),
            rounding::down_factor(exponent),
        ),
    )
}

/// Reassemble a significand from one up to two and a binary exponent.
#[verifier::rlimit(40)]
pub fn compose_positive(significand: Binary64, exponent: i64) -> (r: Binary64)
    requires
        ONE <= significand.bits < TWO,
    ensures
        r == composed(significand, exponent as int),
{
    let ghost a = rounding::scaled(significand.pattern());
    let ghost u = rounding::up_factor(exponent as int);
    let ghost d = rounding::down_factor(exponent as int);
    proof {
        lemma_significand_range(significand);
    }
    if exponent > 1023 {
        proof {
            lemma2_to64();
            lemma2_to64_rest();
            rounding::lemma_scaled(2046, HIDDEN as int);
            assert(INFINITY == 2046 * HIDDEN + HIDDEN);
            lemma_pow2_adds(52, 2046);
            lemma_pow2_adds(1074, exponent as nat);
            rounding::lemma_pow2_le(2098, (1074 + exponent) as nat);
            lemma_pow2_pos(exponent as nat);
            assert(a * u >= pow2(1074) * u) by (nonlinear_arith)
                requires
                    a >= pow2(1074),
                    u > 0,
            ;
            rounding::lemma_ratio_between(a * u, 1, INFINITY as int, INFINITY as int);
        }
        return Binary64::infinity();
    }
    if exponent < -1075 {
        proof {
            rounding::lemma_pow2_le(1076, (-exponent) as nat);
            lemma_pow2_unfold(1076);
            rounding::lemma_scaled(0, 0);
            rounding::lemma_scaled(0, 1);
            lemma2_to64();
            assert(a * 1 == a) by (nonlinear_arith);
            assert(rounding::nearest_ratio(a * u, d, 0)) by {
                assert((rounding::scaled(0) + rounding::scaled(1)) * d == d);
            }
            rounding::lemma_nearest_ratio_unique(a * u, d, 0, rounding::round_ratio(a * u, d));
        }
        return Binary64::zero_value();
    }
    let q: u64 = HIDDEN + (significand.bits - ONE);
    let e: i32 = 1022 + (exponent as i32);
    let r: u64 = rounding::round_magnitude(q as u128, e, false);
    proof {
        let ue = rounding::up_factor(e as int);
        let de = rounding::down_factor(e as int);
        let ph = pow2(1022) as int;
        // q * 2^e and a * 2^exponent are one number.
        assert(ue > 0 && d > 0 && ue * d == (ph * u) * de) by {
            if exponent >= 0 {
                lemma_pow2_adds(1022, exponent as nat);
                lemma_pow2_pos(e as nat);
                assert(ue * 1 == ue && (ph * u) * 1 == ph * u) by (nonlinear_arith);
            } else if e >= 0 {
                lemma_pow2_adds(e as nat, (-exponent) as nat);
                lemma_pow2_pos(e as nat);
                lemma_pow2_pos((-exponent) as nat);
                assert(ph * 1 == ph && (ph * u) * 1 == ph) by (nonlinear_arith)
                    requires
                        u == 1,
                ;
            } else {
                lemma_pow2_adds(1022, (-e) as nat);
                lemma_pow2_pos((-exponent) as nat);
                assert(1 * d == d && (ph * u) * de == ph * de) by (nonlinear_arith)
                    requires
                        u == 1,
                ;
            }
        }
        assert(q * ue * d == (a * u) * de && q * ue * d < (q + 1) * ue * d) by (nonlinear_arith)
            requires
                a == q * ph,
                ue * d == (ph * u) * de,
                ue > 0,
                d > 0,
        {
            assert(q * ue * d == q * (ue * d));
            assert((a * u) * de == q * ((ph * u) * de));
            assert((q + 1) * ue * d == q * (ue * d) + ue * d);
            assert(ue * d > 0);
        }
        rounding::lemma_round_ratio(q as int, e as int, false, r as int, a * u, d);
    }
    Binary64::assemble(false, r)
}

/// Pattern of two to the power `k`.
pub open spec fn binade(k: int) -> int {
    (1023 + k) * HIDDEN
}

pub(crate) proof fn lemma_binade(k: int)
    requires
        -1022 <= k <= 1023,
    ensures
        rounding::scaled(binade(k)) == pow2((1074 + k) as nat),
        0 < binade(k) < INFINITY,
{
    rounding::lemma_scaled((1022 + k) as nat, HIDDEN as int);
    assert(binade(k) == (1022 + k) * HIDDEN + HIDDEN);
    lemma2_to64();
    lemma2_to64_rest();
    lemma_pow2_adds(52, (1022 + k) as nat);
}

/// A positive finite number from two to the power `-j` to two to the power `k`.
pub open spec fn within(a: Binary64, j: int, k: int) -> bool {
    !a.negative() && binade(-j) <= a.pattern() <= binade(k)
}

pub(crate) proof fn lemma_within(a: Binary64, j: int, k: int)
    requires
        within(a, j, k),
        0 <= j <= 1022,
        0 <= k <= 1023,
    ensures
        a.finite(),
        !a.zero(),
        pow2((1074 - j) as nat) <= rounding::scaled(a.pattern()) <= pow2((1074 + k) as nat),
{
    lemma_binade(-j);
    lemma_binade(k);
    if binade(-j) < a.pattern() {
        rounding::lemma_scaled_increases(binade(-j), a.pattern());
    }
    if a.pattern() < binade(k) {
        rounding::lemma_scaled_increases(a.pattern(), binade(k));
    }
}

pub(crate) proof fn lemma_product_within(a: Binary64, s: Binary64, j: int, k: int)
    requires
        within(a, j, k),
        0 <= j <= 1022,
        0 <= k < 1023,
        ONE <= s.bits < TWO,
    ensures
        within(a * s, j, k + 1),
{
    reveal(Binary64::spec_mul);
    lemma_within(a, j, k);
    lemma_significand_range(s);
    lemma_binade(-j);
    lemma_binade(k + 1);
    let x = rounding::scaled(a.pattern());
    let y = rounding::scaled(s.pattern());
    let d = pow2(1074) as int;
    let lo = pow2((1074 - j) as nat) as int;
    let hi = pow2((1074 + k) as nat) as int;
    lemma_pow2_pos(1074);
    lemma_pow2_unfold(1075);
    lemma_pow2_unfold((1074 + k + 1) as nat);
    assert(lo * d <= x * y <= (2 * hi) * d) by (nonlinear_arith)
        requires
            lo <= x <= hi,
            d <= y <= 2 * d,
            lo >= 0,
            d > 0,
    ;
    rounding::lemma_ratio_between(x * y, d, binade(-j), binade(k + 1));
}

pub(crate) proof fn lemma_quotient_within(a: Binary64, s: Binary64, j: int, k: int)
    requires
        within(a, j, k),
        0 <= j < 1022,
        0 <= k <= 1023,
        ONE <= s.bits < TWO,
    ensures
        within(a / s, j + 1, k),
{
    reveal(Binary64::spec_euclidean_or_real_div);
    lemma_within(a, j, k);
    lemma_significand_range(s);
    lemma_binade(-j - 1);
    lemma_binade(k);
    let x = rounding::scaled(a.pattern());
    let y = rounding::scaled(s.pattern());
    let d = pow2(1074) as int;
    let lo = pow2((1074 - j - 1) as nat) as int;
    let hi = pow2((1074 + k) as nat) as int;
    lemma_pow2_pos(1074);
    lemma_pow2_unfold(1075);
    lemma_pow2_unfold((1074 - j) as nat);
    lemma_pow2_pos((1074 - j - 1) as nat);
    assert(lo * y <= x * d <= hi * y) by (nonlinear_arith)
        requires
            2 * lo <= x <= hi,
            d <= y <= 2 * d,
            lo > 0,
            d > 0,
    ;
    rounding::lemma_ratio_between(x * d, y, binade(-j - 1), binade(k));
}

/// A number carried as a signed significand and a binary exponent.
#[derive(Clone, Copy, Debug)]
pub struct ScaledValue {
    /// Zero, or a number whose magnitude lies from one up to two.
    pub significand: Binary64,
    /// Power of two that multiplies the significand.
    pub exponent: i64,
}

impl ScaledValue {
    /// Zero has exponent zero; any other significand lies from one up to two.
    pub open spec fn wf(self) -> bool {
        ||| self.significand == Binary64::zero_value() && self.exponent == 0
        ||| ONE <= self.significand.pattern() < TWO
    }

    /// The pair of significand and exponent for `significand` times two to the
    /// power `exponent`.
    pub open spec fn normal(significand: Binary64, exponent: int) -> (Binary64, int) {
        if significand.zero() {
            (Binary64::zero_value(), 0)
        } else {
            (
                Binary64::signed(
                    significand.negative(),
                    significand_of(significand.magnitude()).pattern(),
                ),
                exponent + exponent_of(significand.magnitude()),
            )
        }
    }

    pub open spec fn pair(self) -> (Binary64, int) {
        (self.significand, self.exponent as int)
    }

    /// Significand and exponent of the product of the magnitudes.
    pub open spec fn product(values: Seq<Binary64>) -> (Binary64, int)
        decreases values.len(),
    {
        if values.len() == 0 {
            (Binary64::one(), 0)
        } else {
            let head = Self::product(values.drop_last());
            let last = values.last().magnitude();
            (head.0 * significand_of(last), head.1 + exponent_of(last))
        }
    }

    /// Significand and exponent after division by the magnitudes.
    pub open spec fn divided(start: (Binary64, int), values: Seq<Binary64>) -> (Binary64, int)
        decreases values.len(),
    {
        if values.len() == 0 {
            start
        } else {
            let head = Self::divided(start, values.drop_last());
            let last = values.last().magnitude();
            (head.0 / significand_of(last), head.1 - exponent_of(last))
        }
    }

    /// An odd number of the values carries a negative sign.
    pub open spec fn odd_signs(values: Seq<Binary64>) -> bool
        decreases values.len(),
    {
        if values.len() == 0 {
            false
        } else {
            Self::odd_signs(values.drop_last()) != values.last().negative()
        }
    }

    /// The product of the numerators over the product of the denominators.
    pub open spec fn ratio(numerators: Seq<Binary64>, denominators: Seq<Binary64>) -> (
        Binary64,
        int,
    ) {
        if exists|i: int| 0 <= i < numerators.len() && (#[trigger] numerators[i]).zero() {
            (Binary64::zero_value(), 0)
        } else {
            let quotient = Self::divided(Self::product(numerators), denominators);
            let negative = Self::odd_signs(numerators) != Self::odd_signs(denominators);
            Self::normal(
                if negative {
                    quotient.0.negated()
                } else {
                    quotient.0
                },
                quotient.1,
            )
        }
    }

    /// The number nearest to a significand and exponent.
    pub open spec fn nearest(pair: (Binary64, int)) -> Binary64 {
        if pair.0.zero() {
            Binary64::zero_value()
        } else {
            composed(pair.0, pair.1)
        }
    }

    /// Bring a significand into its interval.
    pub fn normalized(significand: Binary64, exponent: i64) -> (r: ScaledValue)
        requires
            significand.finite(),
            -0x1000_0000_0000_0000 <= exponent <= 0x1000_0000_0000_0000,
        ensures
            r.wf(),
            r.pair() == Self::normal(significand, exponent as int),
            significand.zero() || exponent - 1074 <= r.exponent <= exponent + 1024,
    {
        if significand.magnitude_bits() == 0 {
            return ScaledValue { significand: Binary64::zero_value(), exponent: 0 };
        }
        let (s, e) = decompose_positive(significand.abs());
        proof {
            lemma_significand_range(s);
        }
        ScaledValue {
            significand: Binary64::assemble(significand.is_negative(), s.magnitude_bits()),
            exponent: exponent + e,
        }
    }

    /// The product of the numerators over the product of the denominators.
    #[verifier::rlimit(40)]
    pub fn product_ratio<const N: usize, const D: usize>(
        numerators: [Binary64; N],
        denominators: [Binary64; D],
    ) -> (r: ScaledValue)
        requires
            N <= MOST_NUMERATORS,
            D <= MOST_DENOMINATORS,
            forall|i: int| 0 <= i < D ==> !(#[trigger] denominators@[i]).zero(),
        ensures
            r.wf(),
            r.pair() == Self::ratio(numerators@, denominators@),
            -3_000_000 <= r.exponent <= 3_000_000,
    {
        let mut significand = Binary64::one();
        let mut exponent: i64 = 0;
        let mut negative: bool = false;
        let mut i: usize = 0;
        assert(numerators@.take(0) =~= Seq::empty());
        while i < N
            invariant
                i <= N <= MOST_NUMERATORS,
                numerators@.len() == N,
                forall|k: int| 0 <= k < i ==> !(#[trigger] numerators@[k]).zero(),
                (significand, exponent as int) == Self::product(numerators@.take(i as int)),
                negative == Self::odd_signs(numerators@.take(i as int)),
                within(significand, 0, i as int),
                -1074 * i <= exponent <= 1024 * i,
            decreases N - i,
        {
            let value = numerators[i];
            if value.magnitude_bits() == 0 {
                return ScaledValue { significand: Binary64::zero_value(), exponent: 0 };
            }
            let (s, e) = decompose_positive(value.abs());
            proof {
                lemma_product_within(significand, s, 0, i as int);
                let next = numerators@.take(i + 1);
                assert(next.drop_last() =~= numerators@.take(i as int));
                assert(next.last() == value);
            }
            negative = negative != value.is_negative();
            significand = significand * s;
            exponent = exponent + e;
            i = i + 1;
        }
        assert(numerators@.take(N as int) =~= numerators@);
        let ghost start = (significand, exponent as int);
        let ghost sign = negative;
        let mut i: usize = 0;
        assert(denominators@.take(0) =~= Seq::empty());
        while i < D
            invariant
                i <= D <= MOST_DENOMINATORS,
                N <= MOST_NUMERATORS,
                denominators@.len() == D,
                forall|k: int| 0 <= k < D ==> !(#[trigger] denominators@[k]).zero(),
                (significand, exponent as int) == Self::divided(
                    start,
                    denominators@.take(i as int),
                ),
                negative == (sign != Self::odd_signs(denominators@.take(i as int))),
                within(significand, i as int, N as int),
                -1074 * MOST_NUMERATORS - 1024 * i <= exponent <= 1024 * MOST_NUMERATORS + 1074
                    * i,
            decreases D - i,
        {
            let value = denominators[i];
            let (s, e) = decompose_positive(value.abs());
            proof {
                lemma_quotient_within(significand, s, i as int, N as int);
                let next = denominators@.take(i + 1);
                assert(next.drop_last() =~= denominators@.take(i as int));
                assert(next.last() == value);
            }
            negative = negative != value.is_negative();
            significand = significand / s;
            exponent = exponent - e;
            i = i + 1;
        }
        assert(denominators@.take(D as int) =~= denominators@);
        proof {
            lemma_within(significand, D as int, N as int);
        }
        let signed = if negative {
            significand.neg()
        } else {
            significand
        };
        Self::normalized(signed, exponent)
    }

    /// The nearest binary64 number.
    pub fn to_binary64(self) -> (r: Binary64)
        requires
            self.wf(),
        ensures
            r == Self::nearest(self.pair()),
    {
        if self.significand.magnitude_bits() == 0 {
            return Binary64::zero_value();
        }
        let magnitude = compose_positive(self.significand.abs(), self.exponent);
        proof {
            let e = self.exponent as int;
            if e < 0 {
                lemma_pow2_pos((-e) as nat);
            }
            rounding::lemma_ratio_exists(
                rounding::scaled(self.significand.pattern()) * rounding::up_factor(e),
                rounding::down_factor(e),
            );
        }
        if self.significand.is_negative() {
            magnitude.neg()
        } else {
            magnitude
        }
    }
}

/// The product of the numerators over the product of the denominators, rounded
/// once from a significand and an exponent of its own.
pub open spec fn ratio(numerators: Seq<Binary64>, denominators: Seq<Binary64>) -> Binary64 {
    ScaledValue::nearest(ScaledValue::ratio(numerators, denominators))
}

/// A product over another product, with no intermediate overflow or underflow.
pub fn product_ratio<const N: usize, const D: usize>(
    numerators: [Binary64; N],
    denominators: [Binary64; D],
) -> (r: Binary64)
    requires
        N <= MOST_NUMERATORS,
        D <= MOST_DENOMINATORS,
        forall|i: int| 0 <= i < D ==> !(#[trigger] denominators@[i]).zero(),
    ensures
        r == ratio(numerators@, denominators@),
{
    ScaledValue::product_ratio(numerators, denominators).to_binary64()
}

/// Compensated sum of products and quotients, aligned by binary exponent.
#[derive(Clone, Copy, Debug)]
pub struct ScaledSum {
    /// Exponent that `sum` and `correction` are aligned to.
    pub exponent: i64,
    /// Running rounded sum of aligned significands.
    pub sum: Binary64,
    /// Rounding residues left out of `sum`.
    pub correction: Binary64,
    /// A term other than zero has set `exponent`.
    pub initialized: bool,
}

impl ScaledSum {
    pub open spec fn empty() -> ScaledSum {
        ScaledSum {
            exponent: 0,
            sum: Binary64::zero_value(),
            correction: Binary64::zero_value(),
            initialized: false,
        }
    }

    /// Exponents stay within the range that terms have.
    pub open spec fn wf(self) -> bool {
        -3_000_000 <= self.exponent <= 3_000_000
    }

    /// The sum with its state moved to a larger exponent, if the term has one.
    pub open spec fn aligned(self, exponent: int) -> ScaledSum {
        if !self.initialized {
            ScaledSum { exponent: exponent as i64, initialized: true, ..self }
        } else if exponent > self.exponent {
            let scale = composed(Binary64::one(), self.exponent - exponent);
            ScaledSum {
                exponent: exponent as i64,
                sum: self.sum * scale,
                correction: self.correction * scale,
                initialized: true,
            }
        } else {
            self
        }
    }

    /// The significand that a term contributes at this sum's exponent.
    pub open spec fn contribution(self, significand: Binary64, exponent: int) -> Binary64 {
        if !self.initialized || exponent > self.exponent {
            significand
        } else {
            significand * composed(Binary64::one(), exponent - self.exponent)
        }
    }

    /// The sum after one more term.
    pub open spec fn after(self, term: (Binary64, int)) -> ScaledSum {
        if term.0.zero() {
            self
        } else {
            let moved = self.aligned(term.1);
            let next = CompensatedSum { sum: moved.sum, correction: moved.correction }.after(
                self.contribution(term.0, term.1),
            );
            ScaledSum { sum: next.sum, correction: next.correction, ..moved }
        }
    }

    /// The total as a significand and an exponent.
    pub open spec fn pair(self) -> (Binary64, int) {
        if !self.initialized {
            (Binary64::zero_value(), 0)
        } else {
            ScaledValue::normal(self.sum + self.correction, self.exponent as int)
        }
    }

    /// Add one term at the exponent that it and the sum share.
    fn add_scaled(&mut self, value: ScaledValue)
        requires
            old(self).wf(),
            value.wf(),
            -3_000_000 <= value.exponent <= 3_000_000,
        ensures
            *final(self) == old(self).after(value.pair()),
            final(self).wf(),
    {
        if value.significand.magnitude_bits() == 0 {
            return ;
        }
        let term = if !self.initialized {
            self.exponent = value.exponent;
            self.initialized = true;
            value.significand
        } else if value.exponent > self.exponent {
            let prior_scale = compose_positive(Binary64::one(), self.exponent - value.exponent);
            self.sum = self.sum * prior_scale;
            self.correction = self.correction * prior_scale;
            self.exponent = value.exponent;
            value.significand
        } else {
            let term_scale = compose_positive(Binary64::one(), value.exponent - self.exponent);
            value.significand * term_scale
        };
        let mut state = CompensatedSum { sum: self.sum, correction: self.correction };
        state.add(term);
        self.sum = state.sum;
        self.correction = state.correction;
    }

    /// Add one product over another product.
    pub fn add_product_ratio<const N: usize, const D: usize>(
        &mut self,
        numerators: [Binary64; N],
        denominators: [Binary64; D],
    )
        requires
            old(self).wf(),
            N <= MOST_NUMERATORS,
            D <= MOST_DENOMINATORS,
            forall|i: int| 0 <= i < D ==> !(#[trigger] denominators@[i]).zero(),
        ensures
            *final(self) == old(self).after(ScaledValue::ratio(numerators@, denominators@)),
            final(self).wf(),
    {
        self.add_scaled(ScaledValue::product_ratio(numerators, denominators));
    }

    /// The total before it is rounded to binary64.
    fn scaled_total(self) -> (r: ScaledValue)
        requires
            self.wf(),
            (self.sum + self.correction).finite(),
        ensures
            r.wf(),
            r.pair() == self.pair(),
    {
        if !self.initialized {
            return ScaledValue { significand: Binary64::zero_value(), exponent: 0 };
        }
        ScaledValue::normalized(self.sum + self.correction, self.exponent)
    }

    /// The total, rounded to binary64 once.
    pub fn total(self) -> (r: Binary64)
        requires
            self.wf(),
            (self.sum + self.correction).finite(),
        ensures
            r == ScaledValue::nearest(self.pair()),
    {
        self.scaled_total().to_binary64()
    }
}

impl Default for ScaledSum {
    fn default() -> (r: ScaledSum)
        ensures
            r == ScaledSum::empty(),
            r.wf(),
    {
        ScaledSum {
            exponent: 0,
            sum: Binary64::zero_value(),
            correction: Binary64::zero_value(),
            initialized: false,
        }
    }
}

/// A positive finite number is what its significand and exponent compose.
pub proof fn law_split_composes(value: Binary64)
    requires
        value.finite(),
        !value.zero(),
        !value.negative(),
    ensures
        composed(significand_of(value), exponent_of(value)) == value,
{
    law_splits(value);
    let e = exponent_of(value);
    let d = rounding::down_factor(e);
    if e < 0 {
        lemma_pow2_pos((-e) as nat);
    }
    lemma_significand_range(significand_of(value));
    let n = rounding::scaled(value.pattern()) * d;
    rounding::lemma_nearest_exact(value.pattern(), d);
    rounding::lemma_ratio_exists(n, d);
    rounding::lemma_nearest_ratio_unique(
        n,
        d,
        value.pattern(),
        rounding::round_ratio(n, d),
    );
}

pub(crate) proof fn lemma_product_bounds(values: Seq<Binary64>)
    requires
        values.len() <= MOST_NUMERATORS,
        forall|i: int| 0 <= i < values.len() ==> !(#[trigger] values[i]).zero(),
    ensures
        within(ScaledValue::product(values).0, 0, values.len() as int),
    decreases values.len(),
{
    if values.len() > 0 {
        let head = values.drop_last();
        assert forall|i: int| 0 <= i < head.len() implies !(#[trigger] head[i]).zero() by {
            assert(head[i] == values[i]);
        }
        lemma_product_bounds(head);
        let last = values.last().magnitude();
        assert(!values[values.len() - 1].zero());
        law_splits(last);
        lemma_product_within(
            ScaledValue::product(head).0,
            significand_of(last),
            0,
            head.len() as int,
        );
    }
}

pub(crate) proof fn lemma_divided_bounds(start: (Binary64, int), values: Seq<Binary64>, k: int)
    requires
        values.len() <= MOST_DENOMINATORS,
        0 <= k <= MOST_NUMERATORS,
        within(start.0, 0, k),
        forall|i: int| 0 <= i < values.len() ==> !(#[trigger] values[i]).zero(),
    ensures
        within(ScaledValue::divided(start, values).0, values.len() as int, k),
    decreases values.len(),
{
    if values.len() > 0 {
        let head = values.drop_last();
        assert forall|i: int| 0 <= i < head.len() implies !(#[trigger] head[i]).zero() by {
            assert(head[i] == values[i]);
        }
        lemma_divided_bounds(start, head, k);
        let last = values.last().magnitude();
        assert(!values[values.len() - 1].zero());
        law_splits(last);
        lemma_quotient_within(
            ScaledValue::divided(start, head).0,
            significand_of(last),
            head.len() as int,
            k,
        );
    }
}

/// A product over another product is a number: it is never lost to an
/// indeterminate intermediate, and carries the sign of its factors.
pub proof fn law_ratio_sign(numerators: Seq<Binary64>, denominators: Seq<Binary64>)
    requires
        numerators.len() <= MOST_NUMERATORS,
        denominators.len() <= MOST_DENOMINATORS,
        forall|i: int| 0 <= i < denominators.len() ==> !(#[trigger] denominators[i]).zero(),
    ensures
        !ratio(numerators, denominators).nan(),
        ScaledValue::odd_signs(numerators) == ScaledValue::odd_signs(denominators)
            ==> !ratio(numerators, denominators).negative(),
{
    if exists|i: int| 0 <= i < numerators.len() && (#[trigger] numerators[i]).zero() {
    } else {
        lemma_product_bounds(numerators);
        let k = numerators.len() as int;
        let start = ScaledValue::product(numerators);
        lemma_divided_bounds(start, denominators, k);
        let quotient = ScaledValue::divided(start, denominators);
        lemma_within(quotient.0, denominators.len() as int, k);
        let negative = ScaledValue::odd_signs(numerators) != ScaledValue::odd_signs(denominators);
        let signed = if negative {
            quotient.0.negated()
        } else {
            quotient.0
        };
        law_splits(signed.magnitude());
        lemma_significand_range(significand_of(signed.magnitude()));
        let pair = ScaledValue::normal(signed, quotient.1);
        let e = pair.1;
        if e < 0 {
            lemma_pow2_pos((-e) as nat);
        }
        rounding::lemma_ratio_exists(
            rounding::scaled(pair.0.pattern()) * rounding::up_factor(e),
            rounding::down_factor(e),
        );
    }
}

} // verus!
