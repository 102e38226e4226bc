//! IEEE 754 binary64 numbers held as bit patterns.
//!
//! Addition, subtraction, multiplication, division and square root return the
//! exact result rounded to the nearest representable number, ties to even.
use core::ops::{Add, Div, Mul, Neg, Sub};
use crate::rounding;
use crate::rounding::{HIDDEN, INFINITY};
use vstd::arithmetic::power2::*;
use vstd::prelude::*;

verus! {

/// Weight of the sign bit.
pub const SIGN: u64 = 0x8000_0000_0000_0000;

/// Bit pattern of the number returned where no number fits.
pub const NAN: u64 = 0x7ff8_0000_0000_0000;

/// Bit pattern of one.
pub const ONE: u64 = 0x3ff0_0000_0000_0000;

/// Bit pattern of two.
pub const TWO: u64 = 0x4000_0000_0000_0000;

/// Bit pattern of the distance from one to the next larger number.
pub const EPSILON: u64 = 0x3cb0_0000_0000_0000;

/// A binary64 number.
#[derive(Clone, Copy, Debug)]
pub struct Binary64 {
    pub bits: u64,
}

impl Binary64 {
    /// The sign bit is set.
    pub open spec fn negative(self) -> bool {
        self.bits >= SIGN
    }

    /// The bit pattern without its sign.
    pub open spec fn pattern(self) -> int {
        if self.negative() {
            self.bits - SIGN
        } else {
            self.bits as int
        }
    }

    pub open spec fn nan(self) -> bool {
        self.pattern() > INFINITY
    }

    pub open spec fn infinite(self) -> bool {
        self.pattern() == INFINITY
    }

    pub open spec fn finite(self) -> bool {
        self.pattern() < INFINITY
    }

    /// Positive or negative zero.
    pub open spec fn zero(self) -> bool {
        self.pattern() == 0
    }

    /// The value of a finite number, counted in units of the smallest positive
    /// subnormal.
    pub open spec fn value(self) -> int {
        if self.negative() {
            -rounding::scaled(self.pattern())
        } else {
            rounding::scaled(self.pattern())
        }
    }

    /// The pattern as a signed integer: numbers compare as these integers do.
    pub open spec fn rank(self) -> int {
        if self.negative() {
            -self.pattern()
        } else {
            self.pattern()
        }
    }

    /// The number with the given sign and magnitude pattern.
    pub open spec fn signed(negative: bool, pattern: int) -> Binary64 {
        Binary64 {
            bits: if negative {
                (pattern + SIGN) as u64
            } else {
                pattern as u64
            },
        }
    }

    /// The number returned where no number fits.
    pub open spec fn not_a_number() -> Binary64 {
        Binary64 { bits: NAN }
    }

    /// The number nearest to `v` units; `negative` is the sign of a zero.
    pub open spec fn nearest_to(v: int, negative: bool) -> Binary64 {
        if v == 0 {
            Self::signed(negative, 0)
        } else if v > 0 {
            Self::signed(false, rounding::round_ratio(v, 1))
        } else {
            Self::signed(true, rounding::round_ratio(-v, 1))
        }
    }

    /// The rounded sum. An exact zero is positive unless both terms carry a
    /// negative sign.
    #[verifier::opaque]
    pub open spec fn spec_add(self, rhs: Binary64) -> Binary64 {
        if self.nan() || rhs.nan() {
            Self::not_a_number()
        } else if self.infinite() {
            if rhs.infinite() && self.negative() != rhs.negative() {
                Self::not_a_number()
            } else {
                self
            }
        } else if rhs.infinite() {
            rhs
        } else {
            Self::nearest_to(self.value() + rhs.value(), self.negative() && rhs.negative())
        }
    }

    /// The number with the opposite sign.
    pub open spec fn negated(self) -> Binary64 {
        Self::signed(!self.negative(), self.pattern())
    }

    /// The rounded difference.
    pub open spec fn spec_sub(self, rhs: Binary64) -> Binary64 {
        self + rhs.negated()
    }

    /// The rounded product.
    #[verifier::opaque]
    pub open spec fn spec_mul(self, rhs: Binary64) -> Binary64 {
        let negative = self.negative() != rhs.negative();
        if self.nan() || rhs.nan() {
            Self::not_a_number()
        } else if self.infinite() || rhs.infinite() {
            if self.zero() || rhs.zero() {
                Self::not_a_number()
            } else {
                Self::signed(negative, INFINITY as int)
            }
        } else {
            Self::signed(
                negative,
                rounding::round_ratio(
                    rounding::scaled(self.pattern()) * rounding::scaled(rhs.pattern()),
                    pow2(1074) as int,
                ),
            )
        }
    }

    /// The rounded quotient.
    #[verifier::opaque]
    pub open spec fn spec_euclidean_or_real_div(self, rhs: Binary64) -> Binary64 {
        let negative = self.negative() != rhs.negative();
        if self.nan() || rhs.nan() || (self.infinite() && rhs.infinite()) || (self.zero()
            && rhs.zero()) {
            Self::not_a_number()
        } else if self.infinite() || rhs.zero() {
            Self::signed(negative, INFINITY as int)
        } else if rhs.infinite() {
            Self::signed(negative, 0)
        } else {
            Self::signed(
                negative,
                rounding::round_ratio(
                    rounding::scaled(self.pattern()) * pow2(1074),
                    rounding::scaled(rhs.pattern()),
                ),
            )
        }
    }

    /// The rounded square root.
    #[verifier::opaque]
    pub open spec fn square_root(self) -> Binary64 {
        if self.nan() || (self.negative() && !self.zero()) {
            Self::not_a_number()
        } else if self.zero() || self.infinite() {
            self
        } else {
            Self::signed(
                false,
                rounding::round_root(rounding::scaled(self.pattern()) * pow2(1074)),
            )
        }
    }

    /// The rounded length of the hypotenuse of a right triangle with these
    /// legs.
    #[verifier::opaque]
    pub open spec fn hypotenuse(self, rhs: Binary64) -> Binary64 {
        if self.infinite() || rhs.infinite() {
            Self::signed(false, INFINITY as int)
        } else if self.nan() || rhs.nan() {
            Self::not_a_number()
        } else {
            Self::signed(
                false,
                rounding::round_root(
                    rounding::scaled(self.pattern()) * rounding::scaled(self.pattern())
                        + rounding::scaled(rhs.pattern()) * rounding::scaled(rhs.pattern()),
                ),
            )
        }
    }

    /// The number without its sign.
    pub open spec fn magnitude(self) -> Binary64 {
        Self::signed(false, self.pattern())
    }

    pub open spec fn spec_lt(self, rhs: Binary64) -> bool {
        !self.nan() && !rhs.nan() && self.rank() < rhs.rank()
    }

    pub open spec fn spec_le(self, rhs: Binary64) -> bool {
        !self.nan() && !rhs.nan() && self.rank() <= rhs.rank()
    }

    pub open spec fn spec_gt(self, rhs: Binary64) -> bool {
        rhs < self
    }

    pub open spec fn spec_ge(self, rhs: Binary64) -> bool {
        rhs <= self
    }

    /// Equality of numbers: the zeros are equal, and what is no number equals
    /// nothing.
    pub open spec fn same(self, rhs: Binary64) -> bool {
        !self.nan() && !rhs.nan() && self.rank() == rhs.rank()
    }
}

impl Binary64 {
    pub fn is_negative(self) -> (r: bool)
        ensures
            r == self.negative(),
    {
        self.bits >= SIGN
    }

    pub(crate) fn magnitude_bits(self) -> (r: u64)
        ensures
            r == self.pattern(),
    {
        if self.bits >= SIGN {
            self.bits - SIGN
        } else {
            self.bits
        }
    }

    pub(crate) fn assemble(negative: bool, pattern: u64) -> (r: Binary64)
        requires
            pattern <= INFINITY,
        ensures
            r == Self::signed(negative, pattern as int),
    {
        if negative {
            Binary64 { bits: pattern + SIGN }
        } else {
            Binary64 { bits: pattern }
        }
    }

    /// Significand and exponent of a pattern.
    pub(crate) fn parts(self) -> (r: (u64, i32))
        ensures
            0 <= r.1 <= 2046,
            self.finite() ==> r.1 <= 2045,
            r.0 < 2 * HIDDEN,
            r.1 > 0 ==> r.0 >= HIDDEN,
            r.0 == 0 <==> self.zero(),
            rounding::scaled(self.pattern()) == r.0 * pow2(r.1 as nat),
    {
        let b: u64 = self.magnitude_bits();
        let exponent: u64 = b / HIDDEN;
        let fraction: u64 = b % HIDDEN;
        if exponent == 0 {
            proof {
                rounding::lemma_scaled(0, b as int);
            }
            (fraction, 0)
        } else {
            (HIDDEN + fraction, (exponent - 1) as i32)
        }
    }

    pub fn is_finite(self) -> (r: bool)
        ensures
            r == self.finite(),
    {
        self.magnitude_bits() < INFINITY
    }

    pub fn is_nan(self) -> (r: bool)
        ensures
            r == self.nan(),
    {
        self.magnitude_bits() > INFINITY
    }

    pub fn is_infinite(self) -> (r: bool)
        ensures
            r == self.infinite(),
    {
        self.magnitude_bits() == INFINITY
    }

    pub fn abs(self) -> (r: Binary64)
        ensures
            r == self.magnitude(),
    {
        Binary64 { bits: self.magnitude_bits() }
    }
}

/// The exact signed value of a significand and an exponent.
spec fn signed_value(negative: bool, m: int, e: nat) -> int {
    if negative {
        -(m * pow2(e))
    } else {
        m * pow2(e)
    }
}

proof fn lemma_exact_round(m: int, e: nat, r: int)
    requires
        rounding::brackets(m, pow2(e) as int, 1, false, r),
    ensures
        r == rounding::round_ratio(m * pow2(e), 1),
{
    let p = pow2(e) as int;
    lemma_pow2_pos(e);
    assert(m * p * 1 == (m * p) * 1 && m * p < (m + 1) * p * 1) by (nonlinear_arith)
        requires
            p > 0,
    ;
    rounding::lemma_round_ratio(m, e as int, false, r, m * p, 1);
}

/// Rounded sum of two finite numbers given by sign, significand and exponent.
#[verifier::rlimit(40)]
fn add_parts(na: bool, ma: u64, ea: i32, nb: bool, mb: u64, eb: i32) -> (r: Binary64)
    requires
        0 <= eb <= ea <= 2045,
        ma < 2 * HIDDEN,
        mb < 2 * HIDDEN,
        ea > 0 ==> ma >= HIDDEN,
    ensures
        r == Binary64::nearest_to(
            signed_value(na, ma as int, ea as nat) + signed_value(nb, mb as int, eb as nat),
            na && nb,
        ),
{
    let d: u32 = (ea - eb) as u32;
    let ghost va = ma * pow2(ea as nat);
    let ghost vb = mb * pow2(eb as nat);
    proof {
        lemma2_to64();
        lemma2_to64_rest();
        lemma_pow2_pos(ea as nat);
        lemma_pow2_pos(eb as nat);
        assert(va >= 0 && vb >= 0) by (nonlinear_arith)
            requires
                va == ma * pow2(ea as nat),
                vb == mb * pow2(eb as nat),
        ;
        assert((mb > 0 ==> vb > 0) && (mb == 0 ==> vb == 0)) by (nonlinear_arith)
            requires
                vb == mb * pow2(eb as nat),
                pow2(eb as nat) > 0,
        ;
    }
    if d <= 70 {
        let p: u128 = rounding::power_of_two(d);
        proof {
            rounding::lemma_pow2_le(d as nat, 70);
            lemma_pow2_adds(64, 6);
            lemma_pow2_adds(d as nat, eb as nat);
            assert(0 <= ma * p <= 0x20_0000_0000_0000 * 0x40_0000_0000_0000_0000) by (nonlinear_arith)
                requires
                    ma < 0x20_0000_0000_0000,
                    p <= 0x40_0000_0000_0000_0000,
            ;
            let pb = pow2(eb as nat) as int;
            assert(va == (ma * p) * pb) by (nonlinear_arith)
                requires
                    va == ma * (p * pb),
            ;
        }
        let a: u128 = (ma as u128) * p;
        let b: u128 = mb as u128;
        let ghost pb = pow2(eb as nat) as int;
        if na == nb {
            let m: u128 = a + b;
            assert(m * pb == va + vb) by (nonlinear_arith)
                requires
                    va == a * pb,
                    vb == b * pb,
                    m == a + b,
            ;
            if m == 0 {
                return Binary64::assemble(na && nb, 0);
            }
            let r: u64 = rounding::round_magnitude(m, eb, false);
            proof {
                lemma_exact_round(m as int, eb as nat, r as int);
                assert(m * pb > 0) by (nonlinear_arith)
                    requires
                        m > 0,
                        pb > 0,
                ;
            }
            Binary64::assemble(na, r)
        } else if a >= b {
            let m: u128 = a - b;
            assert(m * pb == va - vb) by (nonlinear_arith)
                requires
                    va == a * pb,
                    vb == b * pb,
                    m == a - b,
            ;
            if m == 0 {
                return Binary64::assemble(na && nb, 0);
            }
            let r: u64 = rounding::round_magnitude(m, eb, false);
            proof {
                lemma_exact_round(m as int, eb as nat, r as int);
                assert(m * pb > 0) by (nonlinear_arith)
                    requires
                        m > 0,
                        pb > 0,
                ;
            }
            Binary64::assemble(na, r)
        } else {
            let m: u128 = b - a;
            assert(m * pb == vb - va) by (nonlinear_arith)
                requires
                    va == a * pb,
                    vb == b * pb,
                    m == b - a,
            ;
            let r: u64 = rounding::round_magnitude(m, eb, false);
            proof {
                lemma_exact_round(m as int, eb as nat, r as int);
                assert(m * pb > 0) by (nonlinear_arith)
                    requires
                        m > 0,
                        pb > 0,
                ;
            }
            Binary64::assemble(nb, r)
        }
    } else {
        proof {
            // The smaller term is less than one unit of the widened larger one.
            lemma_pow2_adds(8, (ea - 8) as nat);
            lemma_pow2_adds(53, eb as nat);
            rounding::lemma_pow2_le((53 + eb) as nat, (ea - 8) as nat);
            lemma_pow2_pos((ea - 8) as nat);
        }
        let ghost pe = pow2((ea - 8) as nat) as int;
        proof {
            assert(vb < pe) by (nonlinear_arith)
                requires
                    vb == mb * pow2(eb as nat),
                    mb < 0x20_0000_0000_0000,
                    0x20_0000_0000_0000 * pow2(eb as nat) <= pe,
                    pow2(eb as nat) > 0,
            ;
            assert(va == (ma * 256) * pe) by (nonlinear_arith)
                requires
                    va == ma * (256 * pe),
            ;
        }
        let wide: u128 = (ma as u128) * 256;
        let sticky: bool = mb != 0;
        let m: u128 = if sticky && na != nb {
            wide - 1
        } else {
            wide
        };
        let r: u64 = rounding::round_magnitude(m, ea - 8, sticky);
        proof {
            let v = if na == nb {
                va + vb
            } else {
                va - vb
            };
            assert(m * pe * 1 <= v * 1 < (m + 1) * pe * 1 && (sticky <==> m * pe * 1 != v * 1))
                by (nonlinear_arith)
                requires
                    va == wide * pe,
                    0 <= vb < pe,
                    sticky <==> vb > 0,
                    v == va + vb && m == wide || v == va - vb && m == wide - 1 && sticky || v == va
                        && m == wide && vb == 0,
            ;
            assert(v > 0) by (nonlinear_arith)
                requires
                    m * pe * 1 <= v * 1,
                    m > 0,
                    pe > 0,
            ;
            rounding::lemma_round_ratio(m as int, (ea - 8) as int, sticky, r as int, v, 1);
        }
        Binary64::assemble(na, r)
    }
}

impl Add for Binary64 {
    type Output = Binary64;

    fn add(self, rhs: Binary64) -> (r: Binary64) {
        proof {
            reveal(Binary64::spec_add);
        }
        if self.is_nan() || rhs.is_nan() {
            return Binary64 { bits: NAN };
        }
        if self.is_infinite() {
            if rhs.is_infinite() && self.is_negative() != rhs.is_negative() {
                return Binary64 { bits: NAN };
            }
            return self;
        }
        if rhs.is_infinite() {
            return rhs;
        }
        let (ma, ea) = self.parts();
        let (mb, eb) = rhs.parts();
        if ea >= eb {
            add_parts(self.is_negative(), ma, ea, rhs.is_negative(), mb, eb)
        } else {
            add_parts(rhs.is_negative(), mb, eb, self.is_negative(), ma, ea)
        }
    }
}

impl vstd::std_specs::ops::AddSpecImpl for Binary64 {
    open spec fn obeys_add_spec() -> bool {
        true
    }

    open spec fn add_req(self, rhs: Binary64) -> bool {
        true
    }

    open spec fn add_spec(self, rhs: Binary64) -> Binary64 {
        self + rhs
    }
}

impl Neg for Binary64 {
    type Output = Binary64;

    fn neg(self) -> (r: Binary64) {
        if self.bits >= SIGN {
            Binary64 { bits: self.bits - SIGN }
        } else {
            Binary64 { bits: self.bits + SIGN }
        }
    }
}

impl vstd::std_specs::ops::NegSpecImpl for Binary64 {
    open spec fn obeys_neg_spec() -> bool {
        true
    }

    open spec fn neg_req(self) -> bool {
        true
    }

    open spec fn neg_spec(self) -> Binary64 {
        self.negated()
    }
}

impl Sub for Binary64 {
    type Output = Binary64;

    fn sub(self, rhs: Binary64) -> (r: Binary64) {
        self + rhs.neg()
    }
}

impl vstd::std_specs::ops::SubSpecImpl for Binary64 {
    open spec fn obeys_sub_spec() -> bool {
        true
    }

    open spec fn sub_req(self, rhs: Binary64) -> bool {
        true
    }

    open spec fn sub_spec(self, rhs: Binary64) -> Binary64 {
        self - rhs
    }
}

/// Rounding of `m` times two to the power `e`, with `d` a power of two that
/// the exponent already accounts for.
proof fn lemma_product_round(m: int, ea: nat, eb: nat, r: int)
    requires
        m >= 0,
        rounding::brackets(
            m,
            rounding::up_factor(ea + eb - 1074),
            rounding::down_factor(ea + eb - 1074),
            false,
            r,
        ),
    ensures
        r == rounding::round_ratio(m * pow2(ea + eb), pow2(1074) as int),
{
    let e = ea + eb - 1074;
    let u = rounding::up_factor(e);
    let w = rounding::down_factor(e);
    let d = pow2(1074) as int;
    let p = pow2(ea + eb) as int;
    lemma_pow2_pos(1074);
    lemma_pow2_pos(ea + eb);
    assert(u * d == p * w) by {
        if e >= 0 {
            lemma_pow2_adds(e as nat, 1074);
        } else {
            lemma_pow2_adds(ea + eb, (-e) as nat);
        }
    }
    assert(m * u * d == (m * p) * w) by (nonlinear_arith)
        requires
            u * d == p * w,
    {
        assert(m * u * d == m * (u * d));
        assert((m * p) * w == m * (p * w));
    }
    assert(u > 0) by {
        if e >= 0 {
            lemma_pow2_pos(e as nat);
        }
    }
    assert(m * u * d < (m + 1) * u * d) by (nonlinear_arith)
        requires
            u > 0,
            d > 0,
    {
        assert((m + 1) * u * d == m * u * d + u * d);
        assert(u * d > 0);
    }
    rounding::lemma_round_ratio(m, e, false, r, m * p, d);
}

proof fn lemma_round_zero(d: int)
    requires
        d > 0,
    ensures
        rounding::round_ratio(0, d) == 0,
{
    rounding::lemma_nearest_exact(0, d);
    assert(0 * d == 0) by (nonlinear_arith);
    rounding::lemma_nearest_ratio_unique(0, d, 0, rounding::round_ratio(0, d));
}

impl Mul for Binary64 {
    type Output = Binary64;

    fn mul(self, rhs: Binary64) -> (r: Binary64) {
        proof {
            reveal(Binary64::spec_mul);
        }
        let negative: bool = self.is_negative() != rhs.is_negative();
        if self.is_nan() || rhs.is_nan() {
            return Binary64 { bits: NAN };
        }
        if self.is_infinite() || rhs.is_infinite() {
            if self.magnitude_bits() == 0 || rhs.magnitude_bits() == 0 {
                return Binary64 { bits: NAN };
            }
            return Binary64::assemble(negative, INFINITY);
        }
        let (ma, ea) = self.parts();
        let (mb, eb) = rhs.parts();
        assert(0 <= ma * mb <= 0x20_0000_0000_0000 * 0x20_0000_0000_0000) by (nonlinear_arith)
            requires
                ma < 0x20_0000_0000_0000,
                mb < 0x20_0000_0000_0000,
        ;
        let m: u128 = (ma as u128) * (mb as u128);
        let ghost x = rounding::scaled(self.pattern());
        let ghost y = rounding::scaled(rhs.pattern());
        proof {
            lemma_pow2_adds(ea as nat, eb as nat);
            let pa = pow2(ea as nat) as int;
            let pb = pow2(eb as nat) as int;
            assert(x * y == m * (pa * pb)) by (nonlinear_arith)
                requires
                    x == ma * pa,
                    y == mb * pb,
                    m == ma * mb,
            ;
        }
        if m == 0 {
            proof {
                lemma_pow2_pos(1074);
                assert(x * y == 0) by (nonlinear_arith)
                    requires
                        x * y == m * pow2((ea + eb) as nat),
                        m == 0,
                ;
                lemma_round_zero(pow2(1074) as int);
            }
            return Binary64::assemble(negative, 0);
        }
        let r: u64 = rounding::round_magnitude(m, ea + eb - 1074, false);
        proof {
            lemma_product_round(m as int, ea as nat, eb as nat, r as int);
        }
        Binary64::assemble(negative, r)
    }
}

impl vstd::std_specs::ops::MulSpecImpl for Binary64 {
    open spec fn obeys_mul_spec() -> bool {
        true
    }

    open spec fn mul_req(self, rhs: Binary64) -> bool {
        true
    }

    open spec fn mul_spec(self, rhs: Binary64) -> Binary64 {
        self * rhs
    }
}

/// Shift that brings a positive significand to exactly 126 bits.
fn widening(m: u64) -> (t: u32)
    requires
        0 < m < 2 * HIDDEN,
    ensures
        73 <= t <= 125,
        pow2(125) <= m * pow2(t as nat) < pow2(126),
{
    let l: u32 = rounding::bit_length(m as u128);
    proof {
        lemma2_to64();
        lemma2_to64_rest();
        if l > 53 {
            rounding::lemma_pow2_le(53, (l - 1) as nat);
        }
    }
    let t: u32 = 126 - l;
    proof {
        lemma_pow2_adds((l - 1) as nat, t as nat);
        lemma_pow2_adds(l as nat, t as nat);
        lemma_pow2_pos(t as nat);
        let lo = pow2((l - 1) as nat) as int;
        let hi = pow2(l as nat) as int;
        let p = pow2(t as nat) as int;
        assert(lo * p <= m * p < hi * p) by (nonlinear_arith)
            requires
                lo <= m < hi,
                p > 0,
        ;
    }
    t
}

#[verifier::rlimit(40)]
proof fn lemma_quotient_round(
    ma: int,
    ea: nat,
    mb: int,
    eb: nat,
    t: nat,
    q: int,
    rem: int,
    r: int,
)
    requires
        mb > 0,
        q >= 0,
        ma * pow2(t) == q * mb + rem,
        0 <= rem < mb,
        rounding::brackets(
            q,
            rounding::up_factor(ea + 1074 - eb - t),
            rounding::down_factor(ea + 1074 - eb - t),
            rem != 0,
            r,
        ),
    ensures
        r == rounding::round_ratio((ma * pow2(ea)) * pow2(1074), mb * pow2(eb)),
{
    let e = ea + 1074 - eb - t;
    let u = rounding::up_factor(e);
    let w = rounding::down_factor(e);
    let pa = pow2(ea + 1074) as int;
    let pb = pow2(eb) as int;
    let pt = pow2(t) as int;
    lemma_pow2_pos(ea + 1074);
    lemma_pow2_pos(eb);
    lemma_pow2_pos(t);
    lemma_pow2_adds(ea, 1074);
    lemma_pow2_adds(eb, t);
    assert(u * (pb * pt) == pa * w) by {
        if e >= 0 {
            lemma_pow2_adds(e as nat, eb + t);
        } else {
            lemma_pow2_adds(ea + 1074, (-e) as nat);
        }
    }
    assert(u > 0) by {
        if e >= 0 {
            lemma_pow2_pos(e as nat);
        }
    }
    let n = (ma * pow2(ea)) * pow2(1074);
    let d = mb * pb;
    assert(n == ma * pa) by (nonlinear_arith)
        requires
            n == (ma * pow2(ea)) * pow2(1074),
            pa == pow2(ea) * pow2(1074),
    ;
    assert(d > 0) by (nonlinear_arith)
        requires
            d == mb * pb,
            mb > 0,
            pb > 0,
    ;
    // n * w * pt == (q * mb + rem) * pa * w == (q * mb + rem) * u * pb * pt
    let g = u * pb;
    assert(n * w == (q * mb + rem) * g) by (nonlinear_arith)
        requires
            n == ma * pa,
            u * (pb * pt) == pa * w,
            ma * pt == q * mb + rem,
            g == u * pb,
            pt > 0,
    {
        assert((n * w) * pt == (ma * pt) * (pa * w));
        assert((ma * pt) * (pa * w) == (q * mb + rem) * (u * (pb * pt)));
        assert((q * mb + rem) * (u * (pb * pt)) == ((q * mb + rem) * g) * pt);
    }
    assert(g > 0) by (nonlinear_arith)
        requires
            g == u * pb,
            u > 0,
            pb > 0,
    ;
    assert(q * u * d == (q * mb) * g && (q + 1) * u * d == (q * mb + mb) * g) by (nonlinear_arith)
        requires
            d == mb * pb,
            g == u * pb,
    ;
    assert((q * mb) * g <= (q * mb + rem) * g < (q * mb + mb) * g && (rem != 0 <==> (q * mb) * g
        != (q * mb + rem) * g)) by (nonlinear_arith)
        requires
            0 <= rem < mb,
            g > 0,
    ;
    rounding::lemma_round_ratio(q, e, rem != 0, r, n, d);
}

impl Div for Binary64 {
    type Output = Binary64;

    #[verifier::rlimit(40)]
    fn div(self, rhs: Binary64) -> (r: Binary64) {
        proof {
            reveal(Binary64::spec_euclidean_or_real_div);
        }
        let negative: bool = self.is_negative() != rhs.is_negative();
        let left_zero: bool = self.magnitude_bits() == 0;
        let right_zero: bool = rhs.magnitude_bits() == 0;
        if self.is_nan() || rhs.is_nan() || (self.is_infinite() && rhs.is_infinite()) || (left_zero
            && right_zero) {
            return Binary64 { bits: NAN };
        }
        if self.is_infinite() || right_zero {
            return Binary64::assemble(negative, INFINITY);
        }
        if rhs.is_infinite() {
            return Binary64::assemble(negative, 0);
        }
        let (ma, ea) = self.parts();
        let (mb, eb) = rhs.parts();
        if left_zero {
            proof {
                let x = rounding::scaled(self.pattern());
                let y = rounding::scaled(rhs.pattern());
                assert(x * pow2(1074) == 0) by (nonlinear_arith)
                    requires
                        x == ma * pow2(ea as nat),
                        ma == 0,
                ;
                lemma_pow2_pos(eb as nat);
                assert(y > 0) by (nonlinear_arith)
                    requires
                        y == mb * pow2(eb as nat),
                        mb > 0,
                        pow2(eb as nat) > 0,
                ;
                lemma_round_zero(y);
            }
            return Binary64::assemble(negative, 0);
        }
        let t: u32 = widening(ma);
        let p: u128 = rounding::power_of_two(t);
        proof {
            lemma2_to64();
            lemma2_to64_rest();
            lemma_pow2_adds(62, 64);
            lemma_pow2_adds(61, 64);
        }
        let n: u128 = (ma as u128) * p;
        let d: u128 = mb as u128;
        let q: u128 = n / d;
        let rem: u128 = n % d;
        proof {
            vstd::arithmetic::div_mod::lemma_fundamental_div_mod(n as int, d as int);
            let qi = q as int;
            let di = d as int;
            assert(di * qi == qi * di) by (nonlinear_arith);
            assert(q >= 0x40_0000_0000_0000) by (nonlinear_arith)
                requires
                    n == d * q + rem,
                    rem < d,
                    d < 0x20_0000_0000_0000,
                    n >= 0x2000_0000_0000_0000_0000_0000_0000_0000,
            ;
            assert(q <= n) by (nonlinear_arith)
                requires
                    n == d * q + rem,
                    rem >= 0,
                    d > 0,
                    q >= 0,
            ;
        }
        let r: u64 = rounding::round_magnitude(q, ea + 1074 - eb - (t as i32), rem != 0);
        proof {
            lemma_quotient_round(
                ma as int,
                ea as nat,
                mb as int,
                eb as nat,
                t as nat,
                q as int,
                rem as int,
                r as int,
            );
        }
        Binary64::assemble(negative, r)
    }
}

impl vstd::std_specs::ops::DivSpecImpl for Binary64 {
    open spec fn obeys_div_spec() -> bool {
        true
    }

    open spec fn div_req(self, rhs: Binary64) -> bool {
        true
    }

    open spec fn div_spec(self, rhs: Binary64) -> Binary64 {
        self / rhs
    }
}

/// Integer square root.
fn integer_root(n: u128) -> (r: u128)
    requires
        n < 0x4000_0000_0000_0000_0000_0000_0000_0000,
    ensures
        r * r <= n < (r + 1) * (r + 1),
        r < SIGN,
{
    let mut r: u128 = 0;
    let mut b: u128 = SIGN as u128;
    let mut k: u32 = 63;
    proof {
        lemma2_to64();
        lemma2_to64_rest();
        assert(0int * 0 == 0) by (nonlinear_arith);
        assert((0 + 0x8000_0000_0000_0000int) * (0 + 0x8000_0000_0000_0000int)
            == 0x4000_0000_0000_0000_0000_0000_0000_0000int) by (nonlinear_arith);
    }
    while k > 0
        invariant
            k <= 63,
            b == pow2(k as nat),
            r * r <= n < (r + b) * (r + b),
            r + b <= SIGN,
        decreases k,
    {
        proof {
            lemma_pow2_unfold(k as nat);
            lemma_pow2_pos((k - 1) as nat);
        }
        let half: u128 = b / 2;
        let c: u128 = r + half;
        assert(0 <= c * c <= 0x8000_0000_0000_0000 * 0x8000_0000_0000_0000) by (nonlinear_arith)
            requires
                0 <= c <= 0x8000_0000_0000_0000,
        ;
        assert((r + b) * (r + b) == (c + half) * (c + half)) by (nonlinear_arith)
            requires
                r + b == c + half,
        ;
        if c * c <= n {
            r = c;
        }
        b = half;
        k = k - 1;
    }
    proof {
        lemma2_to64();
    }
    r
}

/// Rounded square root of `n` times four to the power `e`; where `sticky` is
/// set, of a quantity above that by less than one unit of `n`.
fn root_parts(n: u128, e: i32, sticky: bool) -> (r: u64)
    requires
        0x400_0000_0000_0000_0000_0000_0000_0000 <= n < 0x4000_0000_0000_0000_0000_0000_0000_0000,
        -1200 <= e <= 3100,
    ensures
        r <= INFINITY,
        forall|s: int|
            ({
                let u = rounding::up_factor(e as int);
                let w = rounding::down_factor(e as int);
                &&& n * (u * u) <= s * (w * w) < (n + 1) * (u * u)
                &&& sticky <==> n * (u * u) != s * (w * w)
            }) ==> r == #[trigger] rounding::round_root(s),
{
    let m: u128 = integer_root(n);
    assert(m >= 0x40_0000_0000_0000) by (nonlinear_arith)
        requires
            n < (m + 1) * (m + 1),
            n >= 0x400_0000_0000_0000_0000_0000_0000_0000,
            m >= 0,
    ;
    assert(0 <= m * m <= 0x8000_0000_0000_0000 * 0x8000_0000_0000_0000) by (nonlinear_arith)
        requires
            0 <= m <= 0x8000_0000_0000_0000,
    ;
    let inexact: bool = sticky || m * m != n;
    let r: u64 = rounding::round_magnitude(m, e, inexact);
    proof {
        let u = rounding::up_factor(e as int);
        let w = rounding::down_factor(e as int);
        let mi = m as int;
        let ni = n as int;
        if e >= 0 {
            lemma_pow2_pos(e as nat);
        }
        assert forall|s: int|
            ({
                &&& n * (u * u) <= s * (w * w) < (n + 1) * (u * u)
                &&& sticky <==> n * (u * u) != s * (w * w)
            }) implies r == #[trigger] rounding::round_root(s) by {
            let t = s * (w * w);
            let uu = u * u;
            let a = mi * u;
            let b = (mi + 1) * u;
            assert(uu > 0 && a * a == (mi * mi) * uu && b * b == ((mi + 1) * (mi + 1)) * uu)
                by (nonlinear_arith)
                requires
                    u > 0,
                    uu == u * u,
                    a == mi * u,
                    b == (mi + 1) * u,
            ;
            assert((mi * mi) * uu <= ni * uu && (ni + 1) * uu <= ((mi + 1) * (mi + 1)) * uu && (mi
                * mi != ni ==> (mi * mi) * uu < ni * uu)) by (nonlinear_arith)
                requires
                    mi * mi <= ni < (mi + 1) * (mi + 1),
                    uu > 0,
            ;
            rounding::lemma_round_root(mi, e as int, inexact, r as int, s);
        }
    }
    r
}

impl Binary64 {
    /// Square root.
    pub fn sqrt(self) -> (r: Binary64)
        ensures
            r == self.square_root(),
    {
        proof {
            reveal(Binary64::square_root);
        }
        let zero: bool = self.magnitude_bits() == 0;
        if self.is_nan() || (self.is_negative() && !zero) {
            return Binary64 { bits: NAN };
        }
        if zero || self.is_infinite() {
            return self;
        }
        let (m, e) = self.parts();
        let full: u32 = widening(m);
        let odd: bool = (e + 1074 - (full as i32)) % 2 != 0;
        let t: u32 = if odd {
            full - 1
        } else {
            full
        };
        let half: i32 = (e + 1074 - (t as i32)) / 2;
        let p: u128 = rounding::power_of_two(t);
        proof {
            lemma2_to64();
            lemma2_to64_rest();
            lemma_pow2_adds(62, 64);
            lemma_pow2_adds(61, 64);
            lemma_pow2_unfold(full as nat);
            if odd {
                assert(2 * (m * p) == m * pow2(full as nat)) by (nonlinear_arith)
                    requires
                        pow2(full as nat) == 2 * p,
                ;
            }
            lemma_pow2_pos(t as nat);
        }
        let n: u128 = (m as u128) * p;
        let r: u64 = root_parts(n, half, false);
        proof {
            let u = pow2(half as nat) as int;
            let x = rounding::scaled(self.pattern()) * pow2(1074);
            lemma_pow2_adds(half as nat, half as nat);
            lemma_pow2_adds(e as nat, 1074);
            lemma_pow2_adds(t as nat, (2 * half) as nat);
            lemma_pow2_pos((2 * half) as nat);
            assert(x * (1 * 1) == n * (u * u)) by (nonlinear_arith)
                requires
                    x == (m * pow2(e as nat)) * pow2(1074),
                    pow2(e as nat) * pow2(1074) == p * (u * u),
                    n == m * p,
            ;
            assert(n * (u * u) < (n + 1) * (u * u)) by (nonlinear_arith)
                requires
                    u * u > 0,
            ;
            assert(rounding::round_root(x) == r);
        }
        Binary64::assemble(false, r)
    }
}

pub(crate) proof fn lemma_root_zero()
    ensures
        rounding::round_root(0) == 0,
{
    rounding::lemma_scaled_increases(0, 1);
    let high = rounding::scaled(0) + rounding::scaled(1);
    assert(high * high > 0) by (nonlinear_arith)
        requires
            high > 0,
    ;
    assert(rounding::nearest_root(0, 0));
    rounding::lemma_nearest_root_unique(0, 0, rounding::round_root(0));
}

/// Rounded hypotenuse of two finite magnitudes.
#[verifier::rlimit(80)]
fn hypotenuse_parts(ma: u64, ea: i32, mb: u64, eb: i32) -> (r: u64)
    requires
        0 <= eb <= ea <= 2045,
        ma < 2 * HIDDEN,
        mb < 2 * HIDDEN,
        ea > 0 ==> ma >= HIDDEN,
    ensures
        r <= INFINITY,
        ({
            let x = ma * pow2(ea as nat);
            let y = mb * pow2(eb as nat);
            r == rounding::round_root(x * x + y * y)
        }),
{
    let ghost x = ma * pow2(ea as nat);
    let ghost y = mb * pow2(eb as nat);
    let ghost s = x * x + y * y;
    let d: u32 = (ea - eb) as u32;
    assert(0 <= ma * ma <= 0x20_0000_0000_0000 * 0x20_0000_0000_0000 && 0 <= mb * mb
        <= 0x20_0000_0000_0000 * 0x20_0000_0000_0000) by (nonlinear_arith)
        requires
            ma < 0x20_0000_0000_0000,
            mb < 0x20_0000_0000_0000,
    ;
    let a: u128 = (ma as u128) * (ma as u128);
    let b: u128 = (mb as u128) * (mb as u128);
    let ghost va = pow2(2 * ea as nat) as int;
    let ghost vb = pow2(2 * eb as nat) as int;
    proof {
        lemma2_to64();
        lemma2_to64_rest();
        lemma_pow2_adds(62, 64);
        lemma_pow2_adds(61, 64);
        lemma_pow2_adds(60, 64);
        lemma_pow2_adds(ea as nat, ea as nat);
        lemma_pow2_adds(eb as nat, eb as nat);
        assert(x * x == a * va && y * y == b * vb) by (nonlinear_arith)
            requires
                x == ma * pow2(ea as nat),
                y == mb * pow2(eb as nat),
                a == ma * ma,
                b == mb * mb,
                va == pow2(ea as nat) * pow2(ea as nat),
                vb == pow2(eb as nat) * pow2(eb as nat),
        ;
    }
    if d <= 9 {
        let p: u128 = rounding::power_of_two(2 * d);
        proof {
            rounding::lemma_pow2_le((2 * d) as nat, 18);
            lemma_pow2_adds((2 * d) as nat, (2 * eb) as nat);
            assert(0 <= a * p <= 0x400_0000_0000_0000_0000_0000_0000 * 0x4_0000) by (nonlinear_arith)
                requires
                    0 <= a <= 0x400_0000_0000_0000_0000_0000_0000,
                    0 <= p <= 0x4_0000,
            ;
        }
        let n: u128 = a * p + b;
        assert(s == n * vb) by (nonlinear_arith)
            requires
                s == a * va + b * vb,
                va == p * vb,
                n == a * p + b,
        ;
        if n == 0 {
            proof {
                assert(s == 0) by (nonlinear_arith)
                    requires
                        s == n * vb,
                        n == 0,
                ;
                lemma_root_zero();
            }
            return 0;
        }
        let l: u32 = rounding::bit_length(n);
        proof {
            if l > 126 {
                rounding::lemma_pow2_le(126, (l - 1) as nat);
            }
        }
        let k: u32 = (126 - l) / 2;
        let q: u128 = rounding::power_of_two(2 * k);
        proof {
            lemma_pow2_adds(l as nat, (2 * k) as nat);
            lemma_pow2_adds((l - 1) as nat, (2 * k) as nat);
            rounding::lemma_pow2_le((l + 2 * k) as nat, 126);
            rounding::lemma_pow2_le(124, (l - 1 + 2 * k) as nat);
            rounding::lemma_pow2_le(122, 124);
            lemma_pow2_pos((2 * k) as nat);
            let lo = pow2((l - 1) as nat) as int;
            let hi = pow2(l as nat) as int;
            assert(lo * q <= n * q < hi * q) by (nonlinear_arith)
                requires
                    lo <= n < hi,
                    q > 0,
            ;
        }
        let wide: u128 = n * q;
        let e: i32 = eb - (k as i32);
        let r: u64 = root_parts(wide, e, false);
        proof {
            let u = rounding::up_factor(e as int);
            let w = rounding::down_factor(e as int);
            let uu = u * u;
            let ww = w * w;
            assert(uu > 0 && q * uu == vb * ww) by {
                if e >= 0 {
                    lemma_pow2_adds(e as nat, e as nat);
                    lemma_pow2_pos((2 * e) as nat);
                    lemma_pow2_adds((2 * k) as nat, (2 * e) as nat);
                    assert(vb * (1 * 1) == vb) by (nonlinear_arith);
                } else {
                    lemma_pow2_adds((-e) as nat, (-e) as nat);
                    lemma_pow2_adds((2 * eb) as nat, (-2 * e) as nat);
                    assert(q * (1 * 1) == q) by (nonlinear_arith);
                }
            }
            assert(wide * uu == s * ww && wide * uu < (wide + 1) * uu) by (nonlinear_arith)
                requires
                    s == n * vb,
                    wide == n * q,
                    q * uu == vb * ww,
                    uu > 0,
            {
                assert((n * q) * uu == n * (q * uu));
                assert((n * vb) * ww == n * (vb * ww));
            }
            assert(rounding::round_root(s) == r);
        }
        r
    } else {
        let shift: u32 = 2 * d - 18;
        proof {
            assert(0x400_0000_0000_0000_0000_0000_0000 == 0x20_0000_0000_0000int
                * 0x20_0000_0000_0000int);
            assert(a >= 0x10_0000_0000_0000int * 0x10_0000_0000_0000int && a
                <= 0x1f_ffff_ffff_ffffint * 0x1f_ffff_ffff_ffffint) by (nonlinear_arith)
                requires
                    a == ma * ma,
                    0x10_0000_0000_0000 <= ma <= 0x1f_ffff_ffff_ffff,
            ;
        }
        let base: u128 = a * 0x4_0000;
        let f: u128 = if shift >= 128 {
            0
        } else {
            rounding::shift_down(b, shift)
        };
        let ghost ps = pow2(shift as nat) as int;
        proof {
            lemma_pow2_pos(shift as nat);
            if shift >= 128 {
                rounding::lemma_pow2_le(126, shift as nat);
            } else {
                vstd::arithmetic::div_mod::lemma_fundamental_div_mod(b as int, ps);
                vstd::arithmetic::div_mod::lemma_mod_bound(b as int, ps);
            }
            assert(ps * f <= b < ps * f + ps) by {
                if shift >= 128 {
                    assert(ps * 0 == 0) by (nonlinear_arith);
                }
            }
            assert(f <= b) by (nonlinear_arith)
                requires
                    ps * f <= b,
                    ps >= 1,
                    f >= 0,
            ;
        }
        let exact: bool = if shift >= 128 {
            b == 0
        } else {
            f * rounding::power_of_two(shift) == b
        };
        assert(exact <==> ps * f == b) by {
            if shift >= 128 {
                assert(ps * 0 == 0) by (nonlinear_arith);
            } else {
                assert(ps * f == f * ps) by (nonlinear_arith);
            }
        }
        let n: u128 = base + f;
        let e: i32 = ea - 9;
        let r: u64 = root_parts(n, e, !exact);
        proof {
            let u = pow2(e as nat) as int;
            let uu = u * u;
            lemma_pow2_adds(e as nat, e as nat);
            lemma_pow2_pos((2 * e) as nat);
            lemma_pow2_adds(18, (2 * e) as nat);
            lemma_pow2_adds(shift as nat, (2 * eb) as nat);
            lemma_pow2_pos((2 * eb) as nat);
            assert(va == 0x4_0000 * uu);
            assert(uu == ps * vb);
            assert(f * uu <= b * vb < (f + 1) * uu && (exact <==> f * uu == b * vb))
                by (nonlinear_arith)
                requires
                    uu == ps * vb,
                    ps * f <= b < ps * f + ps,
                    exact <==> ps * f == b,
                    vb > 0,
            {
                assert(f * uu == (ps * f) * vb);
                assert((f + 1) * uu == (ps * f + ps) * vb);
            }
            assert(n * uu == a * va + f * uu && (n + 1) * uu == a * va + (f + 1) * uu)
                by (nonlinear_arith)
                requires
                    n == a * 0x4_0000 + f,
                    va == 0x4_0000 * uu,
            ;
            assert(s * (1 * 1) == s) by (nonlinear_arith);
            assert(rounding::round_root(s) == r);
        }
        r
    }
}

impl Binary64 {
    /// Length of the hypotenuse of a right triangle with these legs.
    pub fn hypot(self, rhs: Binary64) -> (r: Binary64)
        ensures
            r == self.hypotenuse(rhs),
    {
        proof {
            reveal(Binary64::hypotenuse);
        }
        if self.is_infinite() || rhs.is_infinite() {
            return Binary64::assemble(false, INFINITY);
        }
        if self.is_nan() || rhs.is_nan() {
            return Binary64 { bits: NAN };
        }
        let (ma, ea) = self.parts();
        let (mb, eb) = rhs.parts();
        let r: u64 = if ea >= eb {
            hypotenuse_parts(ma, ea, mb, eb)
        } else {
            hypotenuse_parts(mb, eb, ma, ea)
        };
        Binary64::assemble(false, r)
    }
}

impl PartialEq for Binary64 {
    fn eq(&self, other: &Binary64) -> (r: bool) {
        if self.is_nan() || other.is_nan() {
            false
        } else {
            self.bits == other.bits || (self.magnitude_bits() == 0 && other.magnitude_bits() == 0)
        }
    }
}

impl vstd::std_specs::cmp::PartialEqSpecImpl for Binary64 {
    open spec fn obeys_eq_spec() -> bool {
        true
    }

    open spec fn eq_spec(&self, other: &Binary64) -> bool {
        self.same(*other)
    }
}

impl Binary64 {
    /// The number with the given bit pattern.
    #[verifier::allow_in_spec]
    pub fn from_bits(bits: u64) -> (r: Binary64)
        returns
            (Binary64 { bits }),
    {
        Binary64 { bits }
    }

    /// Positive zero.
    #[verifier::allow_in_spec]
    pub fn zero_value() -> (r: Binary64)
        returns
            (Binary64 { bits: 0 }),
    {
        Binary64 { bits: 0 }
    }

    #[verifier::allow_in_spec]
    pub fn one() -> (r: Binary64)
        returns
            (Binary64 { bits: ONE }),
    {
        Binary64 { bits: ONE }
    }

    #[verifier::allow_in_spec]
    pub fn two() -> (r: Binary64)
        returns
            (Binary64 { bits: TWO }),
    {
        Binary64 { bits: TWO }
    }

    #[verifier::allow_in_spec]
    pub fn infinity() -> (r: Binary64)
        returns
            (Binary64 { bits: INFINITY }),
    {
        Binary64 { bits: INFINITY }
    }

    /// Distance from one to the next larger number.
    #[verifier::allow_in_spec]
    pub fn epsilon() -> (r: Binary64)
        returns
            (Binary64 { bits: EPSILON }),
    {
        Binary64 { bits: EPSILON }
    }

    /// `self < rhs`.
    pub fn less(self, rhs: Binary64) -> (r: bool)
        ensures
            r == (self < rhs),
    {
        if self.is_nan() || rhs.is_nan() {
            return false;
        }
        let a: u64 = self.magnitude_bits();
        let b: u64 = rhs.magnitude_bits();
        if self.is_negative() {
            if rhs.is_negative() {
                b < a
            } else {
                a > 0 || b > 0
            }
        } else if rhs.is_negative() {
            false
        } else {
            a < b
        }
    }

    /// `self <= rhs`.
    pub fn at_most(self, rhs: Binary64) -> (r: bool)
        ensures
            r == (self <= rhs),
    {
        !self.is_nan() && !rhs.is_nan() && !rhs.less(self)
    }

    /// The larger of two numbers; what is no number is passed over.
    pub open spec fn larger(self, rhs: Binary64) -> Binary64 {
        if self.nan() || self < rhs {
            rhs
        } else {
            self
        }
    }

    /// The smaller of two numbers; what is no number is passed over.
    pub open spec fn smaller(self, rhs: Binary64) -> Binary64 {
        if self.nan() || rhs < self {
            rhs
        } else {
            self
        }
    }

    pub fn max(self, rhs: Binary64) -> (r: Binary64)
        ensures
            r == self.larger(rhs),
    {
        if self.is_nan() || self.less(rhs) {
            rhs
        } else {
            self
        }
    }

    pub fn min(self, rhs: Binary64) -> (r: Binary64)
        ensures
            r == self.smaller(rhs),
    {
        if self.is_nan() || rhs.less(self) {
            rhs
        } else {
            self
        }
    }

    /// The number nearest to a count.
    #[verifier::opaque]
    pub open spec fn counting(count: int) -> Binary64 {
        Self::signed(false, rounding::round_ratio(count * pow2(1074), 1))
    }

    pub fn from_count(count: usize) -> (r: Binary64)
        ensures
            r == Self::counting(count as int),
    {
        proof {
            reveal(Binary64::counting);
        }
        if count == 0 {
            proof {
                assert(0 * pow2(1074) == 0) by (nonlinear_arith);
                lemma_round_zero(1);
            }
            return Binary64 { bits: 0 };
        }
        let m: u128 = count as u128;
        let r: u64 = rounding::round_magnitude(m, 1074, false);
        proof {
            lemma_exact_round(m as int, 1074, r as int);
        }
        Binary64::assemble(false, r)
    }
}

impl Binary64 {
    /// Counts of a machine word's size are finite numbers.
    pub proof fn lemma_counting_small(count: int)
        requires
            0 <= count <= u64::MAX,
        ensures
            Self::counting(count).finite(),
            !Self::counting(count).negative(),
            Self::counting(count).pattern() <= 1087 * HIDDEN,
    {
        reveal(Binary64::counting);
        let top = 1087 * HIDDEN;
        lemma2_to64();
        lemma2_to64_rest();
        rounding::lemma_scaled(1086, HIDDEN as int);
        assert(top == 1086 * HIDDEN + HIDDEN);
        lemma_pow2_adds(52, 1086);
        lemma_pow2_adds(64, 1074);
        lemma_pow2_pos(1074);
        let p = pow2(1074) as int;
        assert(0 <= count * p <= 0x1_0000_0000_0000_0000 * p) by (nonlinear_arith)
            requires
                0 <= count <= 0x1_0000_0000_0000_0000,
                p > 0,
        ;
        rounding::lemma_scaled(0, 0);
        rounding::lemma_ratio_between(count * p, 1, 0, top as int);
    }

    /// A product with the distance from one to the next number is finite for
    /// counts of a machine word's size.
    pub proof fn lemma_epsilon_times(x: Binary64)
        requires
            !x.negative(),
            x.pattern() <= 1087 * HIDDEN,
        ensures
            (Self::epsilon() * x).finite(),
            !(Self::epsilon() * x).negative(),
    {
        reveal(Binary64::spec_mul);
        let e = Self::epsilon();
        let top = 1087 * HIDDEN;
        lemma2_to64();
        lemma2_to64_rest();
        assert(e.pattern() == 970 * HIDDEN + HIDDEN);
        rounding::lemma_scaled(970, HIDDEN as int);
        lemma_pow2_adds(52, 970);
        rounding::lemma_pow2_le(1022, 1074);
        if x.pattern() < top {
            rounding::lemma_scaled_increases(x.pattern(), top as int);
        } else {
            rounding::lemma_scaled_increases(0, top as int);
        }
        let a = rounding::scaled(e.pattern());
        let b = rounding::scaled(x.pattern());
        let c = rounding::scaled(top as int);
        let p = pow2(1074) as int;
        lemma_pow2_pos(1074);
        lemma_pow2_pos(1022);
        if x.pattern() > 0 {
            rounding::lemma_scaled_increases(0, x.pattern());
        }
        rounding::lemma_scaled(0, 0);
        assert(0 <= a * b <= c * p) by (nonlinear_arith)
            requires
                0 < a <= p,
                0 <= b <= c,
        ;
        rounding::lemma_ratio_between(a * b, p, 0, top as int);
    }
}

impl Binary64 {
    /// The square root of a finite number that is not below zero is finite.
    pub proof fn lemma_square_root_finite(x: Binary64)
        requires
            x.finite(),
            Self::zero_value() <= x,
        ensures
            x.square_root().finite(),
    {
        reveal(Binary64::square_root);
        if !x.zero() {
            // The root lies below two to the power 512.
            let top = 1535 * HIDDEN;
            lemma2_to64();
            lemma2_to64_rest();
            rounding::lemma_scaled(1534, HIDDEN as int);
            assert(top == 1534 * HIDDEN + HIDDEN);
            lemma_pow2_adds(52, 1534);
            lemma_pow2_adds(1586, 1586);
            rounding::lemma_scaled(2046, HIDDEN as int);
            assert(INFINITY == 2046 * HIDDEN + HIDDEN);
            lemma_pow2_adds(52, 2046);
            rounding::lemma_scaled_increases(x.pattern(), INFINITY as int);
            lemma_pow2_adds(2098, 1074);
            lemma_pow2_pos(1074);
            let v = rounding::scaled(x.pattern());
            let p = pow2(1074) as int;
            assert(v * p <= pow2(2098) * p) by (nonlinear_arith)
                requires
                    v <= pow2(2098),
                    p > 0,
            ;
            rounding::lemma_root_at_most(v * p, top as int);
        }
    }
}

impl Binary64 {
    /// Sums do not depend on the order of their terms.
    pub proof fn law_sum_commutes(a: Binary64, b: Binary64)
        ensures
            a + b == b + a,
    {
        reveal(Binary64::spec_add);
    }

    /// Products do not depend on the order of their factors.
    pub proof fn law_product_commutes(a: Binary64, b: Binary64)
        ensures
            a * b == b * a,
    {
        reveal(Binary64::spec_mul);
        let x = rounding::scaled(a.pattern());
        let y = rounding::scaled(b.pattern());
        assert(x * y == y * x) by (nonlinear_arith);
    }

    /// A number that is not below zero in magnitude pattern and value alike.
    pub(crate) proof fn lemma_scaled_sign(pattern: int)
        requires
            0 <= pattern,
        ensures
            rounding::scaled(pattern) >= 0,
            rounding::scaled(pattern) == 0 <==> pattern == 0,
    {
        rounding::lemma_scaled(0, 0);
        if pattern > 0 {
            rounding::lemma_scaled_increases(0, pattern);
        }
    }

    /// Rounding an exact number of units gives the number itself.
    proof fn lemma_nearest_self(x: Binary64)
        requires
            x.finite(),
            !x.zero(),
        ensures
            Self::nearest_to(x.value(), false) == x,
    {
        let p = x.pattern();
        Self::lemma_scaled_sign(p);
        rounding::lemma_nearest_exact(p, 1);
        assert(rounding::scaled(p) * 1 == rounding::scaled(p)) by (nonlinear_arith);
        rounding::lemma_ratio_exists(rounding::scaled(p), 1);
        rounding::lemma_nearest_ratio_unique(
            rounding::scaled(p),
            1,
            p,
            rounding::round_ratio(rounding::scaled(p), 1),
        );
    }

    /// Rounding to the nearest number keeps the order.
    pub proof fn lemma_nearest_monotone(v: int, w: int, negative: bool, other: bool)
        requires
            v <= w,
        ensures
            Self::nearest_to(v, negative).rank() <= Self::nearest_to(w, other).rank(),
            !Self::nearest_to(v, negative).nan(),
    {
        if v != 0 {
            let n = if v > 0 {
                v
            } else {
                -v
            };
            rounding::lemma_ratio_exists(n, 1);
        }
        if w != 0 {
            let n = if w > 0 {
                w
            } else {
                -w
            };
            rounding::lemma_ratio_exists(n, 1);
        }
        if v > 0 {
            rounding::lemma_ratio_monotone(
                v,
                1,
                rounding::round_ratio(v, 1),
                w,
                1,
                rounding::round_ratio(w, 1),
            );
        } else if w < 0 {
            rounding::lemma_ratio_monotone(
                -w,
                1,
                rounding::round_ratio(-w, 1),
                -v,
                1,
                rounding::round_ratio(-v, 1),
            );
        }
    }

    /// Finite numbers compare as their values do.
    pub proof fn lemma_value_order(a: Binary64, b: Binary64)
        requires
            a.finite(),
            b.finite(),
        ensures
            a.rank() <= b.rank() <==> a.value() <= b.value(),
            a.rank() < b.rank() <==> a.value() < b.value(),
    {
        Self::lemma_scaled_sign(a.pattern());
        Self::lemma_scaled_sign(b.pattern());
        if a.pattern() < b.pattern() {
            rounding::lemma_scaled_increases(a.pattern(), b.pattern());
        } else if b.pattern() < a.pattern() {
            rounding::lemma_scaled_increases(b.pattern(), a.pattern());
        }
    }

    /// Adding a number that is not above zero does not raise a finite number.
    pub proof fn law_sum_lowers(x: Binary64, y: Binary64)
        requires
            x.finite(),
            y <= Self::zero_value(),
        ensures
            x + y <= x,
    {
        reveal(Binary64::spec_add);
        if y.finite() {
            Self::lemma_value_order(y, Self::zero_value());
            Self::lemma_scaled_sign(0);
            let both = x.negative() && y.negative();
            Self::lemma_nearest_monotone(x.value() + y.value(), x.value(), both, false);
            if x.zero() {
                Self::lemma_scaled_sign(x.pattern());
            } else {
                Self::lemma_nearest_self(x);
            }
        }
    }

    /// The sign of a product, and when there is a product.
    pub proof fn law_product_sign(a: Binary64, b: Binary64)
        requires
            !a.nan(),
            !b.nan(),
            a.infinite() ==> !b.zero(),
            b.infinite() ==> !a.zero(),
        ensures
            !(a * b).nan(),
            (a * b).negative() == (a.negative() != b.negative()),
    {
        reveal(Binary64::spec_mul);
        let p = pow2(1074) as int;
        lemma_pow2_pos(1074);
        rounding::lemma_ratio_exists(
            rounding::scaled(a.pattern()) * rounding::scaled(b.pattern()),
            p,
        );
    }
}

impl Binary64 {
    /// One in units of the smallest positive subnormal.
    pub proof fn lemma_one_scaled()
        ensures
            rounding::scaled(ONE as int) == pow2(1074),
            rounding::scaled(ONE as int) > 0,
    {
        rounding::lemma_scaled(1022, HIDDEN as int);
        assert(ONE == 1022 * HIDDEN + HIDDEN);
        lemma2_to64();
        lemma2_to64_rest();
        lemma_pow2_adds(52, 1022);
        lemma_pow2_pos(1074);
    }

    /// A magnitude times a count over that count rounds to itself.
    pub(crate) proof fn lemma_round_exact(pattern: int, d: int)
        requires
            0 <= pattern < INFINITY,
            d > 0,
        ensures
            rounding::round_ratio(rounding::scaled(pattern) * d, d) == pattern,
    {
        rounding::lemma_nearest_exact(pattern, d);
        rounding::lemma_ratio_exists(rounding::scaled(pattern) * d, d);
        rounding::lemma_nearest_ratio_unique(
            rounding::scaled(pattern) * d,
            d,
            pattern,
            rounding::round_ratio(rounding::scaled(pattern) * d, d),
        );
    }

    /// A number over one is the number.
    pub proof fn law_over_one(x: Binary64)
        requires
            !x.nan(),
        ensures
            x / Self::one() == x,
    {
        reveal(Binary64::spec_euclidean_or_real_div);
        Self::lemma_one_scaled();
        if x.finite() {
            Self::lemma_round_exact(x.pattern(), pow2(1074) as int);
        }
    }

    /// A number times one is the number.
    pub proof fn law_times_one(x: Binary64)
        requires
            !x.nan(),
        ensures
            x * Self::one() == x,
            Self::one() * x == x,
    {
        reveal(Binary64::spec_mul);
        Self::lemma_one_scaled();
        Self::law_product_commutes(x, Self::one());
        if x.finite() {
            Self::lemma_round_exact(x.pattern(), pow2(1074) as int);
        }
    }
}

impl Binary64 {
    /// A number from zero to one.
    pub open spec fn in_unit(self) -> bool {
        !self.negative() && self.pattern() <= ONE
    }

    /// A factor from zero to one does not enlarge a number.
    pub proof fn lemma_times_unit(x: Binary64, q: Binary64)
        requires
            x.finite(),
            !x.negative(),
            q.in_unit(),
        ensures
            !(x * q).negative(),
            (x * q).pattern() <= x.pattern(),
    {
        reveal(Binary64::spec_mul);
        Self::lemma_one_scaled();
        Self::lemma_scaled_sign(x.pattern());
        Self::lemma_scaled_sign(q.pattern());
        Self::lemma_scaled_sign(0);
        if q.pattern() < ONE {
            rounding::lemma_scaled_increases(q.pattern(), ONE as int);
        }
        let a = rounding::scaled(x.pattern());
        let b = rounding::scaled(q.pattern());
        let p = pow2(1074) as int;
        assert(0 * p <= a * b && a * b <= a * p) by (nonlinear_arith)
            requires
                0 <= a,
                0 <= b <= p,
        ;
        rounding::lemma_ratio_between(a * b, p, 0, x.pattern());
    }

    /// A factor from one on does not make a number smaller.
    pub proof fn lemma_times_large(x: Binary64, q: Binary64)
        requires
            x.finite(),
            !x.negative(),
            q.finite(),
            !q.negative(),
            ONE <= q.pattern(),
        ensures
            !(x * q).negative(),
            !(x * q).nan(),
            x.pattern() <= (x * q).pattern(),
    {
        reveal(Binary64::spec_mul);
        Self::lemma_one_scaled();
        Self::lemma_scaled_sign(x.pattern());
        if ONE < q.pattern() {
            rounding::lemma_scaled_increases(ONE as int, q.pattern());
        }
        let a = rounding::scaled(x.pattern());
        let b = rounding::scaled(q.pattern());
        let p = pow2(1074) as int;
        assert(a * p <= a * b) by (nonlinear_arith)
            requires
                0 <= a,
                p <= b,
        ;
        rounding::lemma_ratio_between(a * b, p, x.pattern(), INFINITY as int);
    }

    /// A number over one that is not smaller lies from zero to one.
    pub proof fn lemma_over_larger(x: Binary64, y: Binary64)
        requires
            x.finite(),
            y.finite(),
            !x.negative(),
            !y.negative(),
            !y.zero(),
            x.pattern() <= y.pattern(),
        ensures
            (x / y).in_unit(),
    {
        reveal(Binary64::spec_euclidean_or_real_div);
        Self::lemma_one_scaled();
        Self::lemma_scaled_sign(x.pattern());
        Self::lemma_scaled_sign(y.pattern());
        Self::lemma_scaled_sign(0);
        if x.pattern() < y.pattern() {
            rounding::lemma_scaled_increases(x.pattern(), y.pattern());
        }
        let a = rounding::scaled(x.pattern());
        let b = rounding::scaled(y.pattern());
        let p = pow2(1074) as int;
        assert(0 * b <= a * p && a * p <= p * b) by (nonlinear_arith)
            requires
                0 <= a <= b,
                0 < p,
        ;
        rounding::lemma_ratio_between(a * p, b, 0, ONE as int);
    }

    /// Pattern of two to the power 54, from where on one more unit is lost to
    /// rounding.
    pub open spec fn saturated() -> int {
        1077 * HIDDEN
    }

    /// Adding a number from zero to one raises a number, but not past two to the
    /// power 54.
    pub proof fn lemma_plus_unit(x: Binary64, q: Binary64)
        requires
            !x.negative(),
            x.pattern() <= Self::saturated(),
            q.in_unit(),
        ensures
            !(x + q).negative(),
            x.pattern() <= (x + q).pattern() <= Self::saturated(),
    {
        reveal(Binary64::spec_add);
        let top = Self::saturated();
        Self::lemma_one_scaled();
        Self::lemma_scaled_sign(x.pattern());
        Self::lemma_scaled_sign(q.pattern());
        if q.pattern() < ONE {
            rounding::lemma_scaled_increases(q.pattern(), ONE as int);
        }
        if x.pattern() < top {
            rounding::lemma_scaled_increases(x.pattern(), top);
        }
        let v = x.value() + q.value();
        let p = pow2(1074) as int;
        let t = rounding::scaled(top);
        // The next number lies four units above the top.
        rounding::lemma_scaled(1076, HIDDEN as int);
        rounding::lemma_scaled(1076, (HIDDEN + 1) as int);
        assert(top == 1076 * HIDDEN + HIDDEN);
        lemma2_to64();
        lemma_pow2_adds(1074, 2);
        lemma_pow2_pos(1074);
        let w = pow2(1076) as int;
        assert((HIDDEN + 1) * w == HIDDEN * w + w) by (nonlinear_arith);
        rounding::lemma_scaled_increases(top - 1, top);
        assert(rounding::nearest_ratio(t + p, 1, top)) by {
            assert((rounding::scaled(top - 1) + t) * 1 == rounding::scaled(top - 1) + t)
                by (nonlinear_arith);
            assert((t + rounding::scaled(top + 1)) * 1 == t + rounding::scaled(top + 1))
                by (nonlinear_arith);
        }
        if v > 0 {
            rounding::lemma_ratio_exists(v, 1);
            rounding::lemma_ratio_monotone(v, 1, rounding::round_ratio(v, 1), t + p, 1, top);
            rounding::lemma_nearest_exact(x.pattern(), 1);
            assert(rounding::scaled(x.pattern()) * 1 == rounding::scaled(x.pattern()))
                by (nonlinear_arith);
            rounding::lemma_ratio_monotone(
                rounding::scaled(x.pattern()),
                1,
                x.pattern(),
                v,
                1,
                rounding::round_ratio(v, 1),
            );
        }
    }

    /// One plus a number without a negative sign is not below one.
    pub proof fn lemma_one_plus(x: Binary64)
        requires
            x.finite(),
            !x.negative(),
        ensures
            ONE <= (Self::one() + x).pattern(),
    {
        reveal(Binary64::spec_add);
        Self::lemma_one_scaled();
        Self::lemma_scaled_sign(x.pattern());
        let v = Self::one().value() + x.value();
        rounding::lemma_ratio_exists(v, 1);
        rounding::lemma_nearest_exact(ONE as int, 1);
        assert(rounding::scaled(ONE as int) * 1 == rounding::scaled(ONE as int))
            by (nonlinear_arith);
        rounding::lemma_ratio_monotone(
            rounding::scaled(ONE as int),
            1,
            ONE as int,
            v,
            1,
            rounding::round_ratio(v, 1),
        );
    }

    /// The square root of a number from one up to two to the power 54 is finite
    /// and not below one.
    pub proof fn lemma_root_of_large(x: Binary64)
        requires
            !x.negative(),
            ONE <= x.pattern() <= Self::saturated(),
        ensures
            x.square_root().finite(),
            !x.square_root().negative(),
            ONE <= x.square_root().pattern(),
    {
        Self::lemma_square_root_finite(x);
        reveal(Binary64::square_root);
        Self::lemma_one_scaled();
        if ONE < x.pattern() {
            rounding::lemma_scaled_increases(ONE as int, x.pattern());
        }
        let a = rounding::scaled(x.pattern());
        let p = pow2(1074) as int;
        assert(p * p <= a * p) by (nonlinear_arith)
            requires
                p <= a,
                0 < p,
        ;
        rounding::lemma_root_at_least(a * p, ONE as int);
    }
}

impl Binary64 {
    /// `other` is the same number up to the sign of a zero or of an infinity;
    /// of what is no number nothing is asked.
    pub open spec fn akin(self, other: Binary64) -> bool {
        ||| self.nan()
        ||| self == other
        ||| self.zero() && other.zero()
        ||| self.infinite() && other.infinite()
    }

    /// Both are the same number, or neither is a number.
    pub open spec fn twin(self, other: Binary64) -> bool {
        self == other || (self.nan() && other.nan())
    }

    /// Sums of akin numbers are akin, unless a sum of infinities becomes one of
    /// opposite infinities.
    pub proof fn lemma_akin_sums(a: Binary64, b: Binary64, c: Binary64, d: Binary64)
        requires
            a.akin(c) && b.akin(d),
            a.infinite() && b.infinite() && !(a + b).nan() ==> !(c + d).nan(),
        ensures
            (a + b).akin(c + d),
    {
        reveal(Binary64::spec_add);
        Self::lemma_scaled_sign(a.pattern());
        Self::lemma_scaled_sign(b.pattern());
        Self::lemma_scaled_sign(c.pattern());
        Self::lemma_scaled_sign(d.pattern());
    }

    /// Products of akin numbers are akin.
    pub proof fn lemma_akin_products(a: Binary64, b: Binary64, c: Binary64, d: Binary64)
        requires
            a.akin(c) && b.akin(d),
        ensures
            (a * b).akin(c * d),
    {
        reveal(Binary64::spec_mul);
        if a.finite() && b.finite() {
            Self::law_product_sign(a, b);
            Self::law_product_sign(c, d);
            if a.zero() || b.zero() {
                Self::lemma_zero_product(a, b);
                Self::lemma_zero_product(c, d);
            }
        }
    }

    /// A product with zero is zero, where it is a number.
    pub proof fn lemma_zero_product(a: Binary64, b: Binary64)
        requires
            a.zero() || b.zero(),
        ensures
            (a * b).zero() || (a * b).nan(),
            a.finite() && b.finite() ==> (a * b).zero(),
    {
        reveal(Binary64::spec_mul);
        let p = pow2(1074) as int;
        lemma_pow2_pos(1074);
        Self::lemma_scaled_sign(a.pattern());
        Self::lemma_scaled_sign(b.pattern());
        let x = rounding::scaled(a.pattern());
        let y = rounding::scaled(b.pattern());
        assert(x * y == 0 && 0 * p == 0) by (nonlinear_arith)
            requires
                x == 0 || y == 0,
        ;
        Self::lemma_scaled_sign(0);
        rounding::lemma_ratio_between(0, p, 0, 0);
    }

    /// Zero over a number is zero, where it is a number.
    pub proof fn lemma_zero_quotient(a: Binary64, b: Binary64)
        requires
            a.zero(),
        ensures
            (a / b).zero() || (a / b).nan(),
            b.finite() && !b.zero() ==> (a / b).zero(),
    {
        reveal(Binary64::spec_euclidean_or_real_div);
        let p = pow2(1074) as int;
        Self::lemma_scaled_sign(0);
        if b.finite() && !b.zero() {
            let y = rounding::scaled(b.pattern());
            Self::lemma_scaled_sign(b.pattern());
            assert(0 * p == 0 && 0 * y == 0) by (nonlinear_arith);
            rounding::lemma_ratio_between(0, y, 0, 0);
        }
    }

    /// Quotients of akin numbers are akin.
    pub proof fn lemma_akin_quotients(a: Binary64, b: Binary64, c: Binary64, d: Binary64)
        requires
            a.akin(c) && b.akin(d),
        ensures
            (a / b).akin(c / d),
    {
        reveal(Binary64::spec_euclidean_or_real_div);
        if a.zero() {
            Self::lemma_zero_quotient(a, b);
            Self::lemma_zero_quotient(c, d);
        } else if a.finite() && b.finite() && !b.zero() {
            let x = rounding::scaled(a.pattern()) * pow2(1074);
            let y = rounding::scaled(b.pattern());
            Self::lemma_scaled_sign(b.pattern());
            rounding::lemma_ratio_exists(x, y);
        }
    }

    /// Adding zero leaves a number as it is.
    pub proof fn lemma_plus_zero(x: Binary64, y: Binary64)
        requires
            x.zero(),
        ensures
            (x + y).akin(y),
            (y + x).akin(y),
            (x + y).same(y) || y.nan(),
    {
        Self::law_sum_commutes(x, y);
        reveal(Binary64::spec_add);
        Self::lemma_scaled_sign(x.pattern());
        Self::lemma_scaled_sign(y.pattern());
        if y.finite() && !y.zero() {
            Self::lemma_nearest_self(y);
        }
    }
}

} // verus!
