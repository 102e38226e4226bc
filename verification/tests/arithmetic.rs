//! Numbers, sums and products.
use constraint_solver::scaled::{
    compose_positive, decompose_positive, product_ratio, CompensatedSum, ScaledSum,
};
use constraint_solver::Binary64;
use std::ops::Neg;

/// The number that a primitive stands for.
fn num(x: f64) -> Binary64 {
    Binary64::from_bits(x.to_bits())
}

/// The primitive for a number.
trait Primitive {
    fn f64(self) -> f64;
}

impl Primitive for Binary64 {
    fn f64(self) -> f64 {
        f64::from_bits(self.bits)
    }
}

struct TestRng {
    state: u64,
}

impl TestRng {
    fn next_u64(&mut self) -> u64 {
        self.state ^= self.state << 13;
        self.state ^= self.state >> 7;
        self.state ^= self.state << 17;
        self.state
    }
}

/// Special patterns, patterns near the ends of binades, and pseudorandom ones.
fn samples() -> Vec<f64> {
    let mut list = vec![
        0.0,
        -0.0,
        1.0,
        -1.0,
        0.1,
        2.0,
        3.0,
        0.5,
        1.0 + f64::EPSILON,
        1.0 - f64::EPSILON / 2.0,
        f64::MAX,
        -f64::MAX,
        f64::MIN_POSITIVE,
        -f64::MIN_POSITIVE,
        f64::from_bits(1),
        f64::from_bits(0x000f_ffff_ffff_ffff),
        f64::from_bits(0x0010_0000_0000_0001),
        9007199254740992.0,
        9007199254740993.0,
        1e16,
        1e-320,
        1e308,
        1e-308,
        f64::INFINITY,
        f64::NEG_INFINITY,
        f64::NAN,
    ];
    let mut rng = TestRng {
        state: 0x9e37_79b9_7f4a_7c15,
    };
    for _ in 0..60 {
        list.push(f64::from_bits(rng.next_u64()));
    }
    for _ in 0..60 {
        let fraction = rng.next_u64() >> 12;
        let exponent = 1000 + rng.next_u64() % 48;
        let sign = rng.next_u64() << 63;
        list.push(f64::from_bits(sign | (exponent << 52) | fraction));
    }
    list
}

/// The same number, bit for bit; what is no number may have any payload.
fn agrees(found: Binary64, expected: f64) -> bool {
    if expected.is_nan() {
        found.is_nan()
    } else {
        found.bits == expected.to_bits()
    }
}

#[test]
fn arithmetic_rounds_as_the_platform_does() {
    let list = samples();
    for &a in &list {
        for &b in &list {
            let (x, y) = (num(a), num(b));
            assert!(agrees(x + y, a + b), "{a:e} + {b:e}");
            assert!(agrees(x - y, a - b), "{a:e} - {b:e}");
            assert!(agrees(x * y, a * b), "{a:e} * {b:e}");
            assert!(agrees(x / y, a / b), "{a:e} / {b:e}");
            assert_eq!(x == y, a == b);
            assert_eq!(x.less(y), a < b);
            assert_eq!(x.at_most(y), a <= b);
        }
        assert!(agrees(num(a).sqrt(), a.sqrt()), "sqrt {a:e}");
        assert!(agrees(num(a).neg(), -a));
        assert_eq!(num(a).abs().bits, a.abs().to_bits());
        assert_eq!(num(a).is_finite(), a.is_finite());
        assert_eq!(num(a).is_nan(), a.is_nan());
        assert_eq!(num(a).is_infinite(), a.is_infinite());
        assert_eq!(num(a).is_negative(), a.is_sign_negative());
    }
}

#[test]
fn hypotenuse_is_close_to_the_platform_and_exact_on_triples() {
    let list = samples();
    for &a in &list {
        for &b in &list {
            let expected = a.hypot(b);
            let found = num(a).hypot(num(b));
            if expected.is_nan() {
                assert!(found.is_nan(), "{a:e} {b:e}");
            } else if expected.is_infinite() {
                assert_eq!(found.f64(), expected, "{a:e} {b:e}");
            } else {
                let distance = found.bits.abs_diff(expected.to_bits());
                assert!(distance <= 1, "{a:e} {b:e}: {:e} {expected:e}", found.f64());
            }
        }
    }
    for scale in [1.0, 2f64.powi(-600), 2f64.powi(600)] {
        assert_eq!(num(3.0 * scale).hypot(num(-4.0 * scale)).f64(), 5.0 * scale);
        assert_eq!(num(5.0 * scale).hypot(num(12.0 * scale)).f64(), 13.0 * scale);
    }
    assert_eq!(num(f64::INFINITY).hypot(num(f64::NAN)).f64(), f64::INFINITY);
}

#[test]
fn extremes_pass_over_what_is_no_number() {
    for (a, b) in [(1.0, 2.0), (2.0, 1.0), (-3.0, f64::NAN), (f64::NAN, 4.0)] {
        assert_eq!(num(a).max(num(b)).f64(), f64::max(a, b));
        assert_eq!(num(a).min(num(b)).f64(), f64::min(a, b));
    }
    assert!(num(f64::NAN).max(num(f64::NAN)).is_nan());
}

#[test]
fn counts_round_to_the_nearest_number() {
    for count in [0usize, 1, 3, 1 << 53, (1 << 53) + 1, (1 << 53) + 3, usize::MAX] {
        assert_eq!(Binary64::from_count(count).f64(), count as f64);
    }
}

/// A square root and a product by one give exact values back.
#[test]
fn named_constants_have_their_values() {
    assert_eq!(Binary64::one().f64(), 1.0);
    assert_eq!(Binary64::two().f64(), 2.0);
    assert_eq!(Binary64::zero_value().f64().to_bits(), 0);
    assert_eq!(Binary64::infinity().f64(), f64::INFINITY);
    assert_eq!(Binary64::epsilon().f64(), f64::EPSILON);
}

/// Adding a number that is not above zero does not raise a finite one, and sums
/// and products commute.
#[test]
fn order_and_symmetry_of_operations() {
    let list = samples();
    for &a in &list {
        for &b in &list {
            let (x, y) = (num(a), num(b));
            assert_eq!((x + y).bits, (y + x).bits);
            assert_eq!((x * y).bits, (y * x).bits);
            if x.is_finite() && y.at_most(num(0.0)) {
                assert!((x + y).at_most(x), "{a:e} + {b:e}");
            }
        }
        if !num(a).is_nan() {
            assert_eq!((num(a) / num(1.0)).bits, a.to_bits());
            assert_eq!((num(a) * num(1.0)).bits, a.to_bits());
        }
    }
}

#[test]
fn positive_numbers_split_and_compose() {
    for x in samples() {
        if x.is_finite() && x > 0.0 {
            let (significand, exponent) = decompose_positive(num(x));
            assert!((1.0..2.0).contains(&significand.f64()), "{x:e}");
            assert_eq!(compose_positive(significand, exponent).f64(), x);
        }
    }
    let (significand, exponent) = decompose_positive(num(12.0));
    assert_eq!((significand.f64(), exponent), (1.5, 3));
    let (significand, exponent) = decompose_positive(num(f64::from_bits(1)));
    assert_eq!((significand.f64(), exponent), (1.0, -1074));
    assert_eq!(compose_positive(num(1.5), 2000).f64(), f64::INFINITY);
    assert_eq!(compose_positive(num(1.0), -2000).f64(), 0.0);
}

/// Compare non-zero values relatively so subnormal errors cannot pass merely
/// because an absolute tolerance is much larger than the answer.
fn assert_relative_close(actual: f64, expected: f64, tolerance: f64) {
    let relative_error = (actual / expected - 1.0).abs();
    assert!(
        relative_error <= tolerance,
        "expected {expected:e}, got {actual:e}; relative error {relative_error:e}"
    );
}

fn ratio<const N: usize, const D: usize>(numerators: [f64; N], denominators: [f64; D]) -> f64 {
    product_ratio(numerators.map(num), denominators.map(num)).f64()
}

/// Cover the multiplication and division associations used by Jacobian
/// normalization, physical variable updates, and SVD scale restoration.
#[test]
fn product_ratio_avoids_representable_intermediate_range_failures() {
    assert_relative_close(ratio([1e308, 1e-308], [1e308]), 1e-308, 1e-12);
    assert_relative_close(ratio([1e-320, 1e-12, 1e308], []), 1e-24, 1e-3);
    assert_relative_close(ratio([1e308, 1e-2, 10.0], []), 1e307, 1e-12);

    assert_relative_close(ratio([1.0], [1e-308, 1e308]), 1.0, 1e-12);
    assert_relative_close(ratio([1e308], [1e-308, 1e308]), 1e308, 1e-12);
}

/// Signs combine, and a zero numerator gives zero at once.
#[test]
fn product_ratio_combines_signs() {
    assert_eq!(ratio([-6.0, 2.0], [-3.0]), 4.0);
    assert_eq!(ratio([-6.0, 2.0], [3.0]), -4.0);
    assert_eq!(ratio([0.0, 1e308], [1e-308]).to_bits(), 0.0f64.to_bits());
    assert_eq!(ratio([1e308, 1e308], [1.0]), f64::INFINITY);
    assert_eq!(ratio([1e-308, -1e-308], []), -0.0);
}

/// Distinguish rounding compensation from exponent-range extension.
#[test]
fn compensated_sum_recovers_roundoff_but_preserves_f64_range_failure() {
    let mut rounded = CompensatedSum::default();
    rounded.add(num(1e16));
    rounded.add(num(1.0));
    rounded.add(num(-1e16));
    assert_eq!(rounded.total().f64(), 1.0);

    let mut overflowed = CompensatedSum::default();
    overflowed.add(num(f64::MAX));
    overflowed.add(num(f64::MAX));
    overflowed.add(num(-f64::MAX));
    assert!(!overflowed.total().f64().is_finite());
}

/// Ensure partial sums and even individual terms can temporarily exceed the
/// `f64` exponent range when later cancellation leaves a finite answer.
#[test]
fn scaled_sum_delays_range_checks_until_the_completed_reduction() {
    let mut partial_overflow = ScaledSum::default();
    partial_overflow.add_product_ratio([num(f64::MAX)], []);
    partial_overflow.add_product_ratio([num(f64::MAX)], []);
    partial_overflow.add_product_ratio([num(-f64::MAX)], []);
    assert_eq!(partial_overflow.total().f64(), f64::MAX);

    let mut term_overflow = ScaledSum::default();
    term_overflow.add_product_ratio([num(f64::MAX), num(2.0)], []);
    term_overflow.add_product_ratio([num(-f64::MAX), num(2.0)], []);
    term_overflow.add_product_ratio([num(1.0)], []);
    assert_eq!(term_overflow.total().f64(), 1.0);
}
