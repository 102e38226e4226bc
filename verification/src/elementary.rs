//! Elementary functions that the caller supplies.
use crate::binary64::Binary64;
use vstd::prelude::*;

verus! {

/// Elementary functions on binary64 numbers.
///
/// How these functions round differs between platforms and may differ between
/// calls, so nothing is assumed of what they return: contracts speak of a
/// value that a call may have returned, and hold whichever value it was.
pub trait Elementary {
    /// A base raised to a real exponent.
    fn power(&self, base: Binary64, exponent: Binary64) -> Binary64;

    /// Sine of an angle in radians.
    fn sin(&self, x: Binary64) -> Binary64;

    /// Cosine of an angle in radians.
    fn cos(&self, x: Binary64) -> Binary64;

    /// Natural logarithm.
    fn ln(&self, x: Binary64) -> Binary64;

    /// Natural exponential.
    fn exp(&self, x: Binary64) -> Binary64;
}

/// `r` is a value that the power of `base` and `exponent` may have.
pub open spec fn is_power<H: Elementary>(
    host: H,
    base: Binary64,
    exponent: Binary64,
    r: Binary64,
) -> bool {
    call_ensures(H::power, (&host, base, exponent), r)
}

/// `r` is a value that the sine of `x` may have.
pub open spec fn is_sin<H: Elementary>(host: H, x: Binary64, r: Binary64) -> bool {
    call_ensures(H::sin, (&host, x), r)
}

/// `r` is a value that the cosine of `x` may have.
pub open spec fn is_cos<H: Elementary>(host: H, x: Binary64, r: Binary64) -> bool {
    call_ensures(H::cos, (&host, x), r)
}

/// `r` is a value that the natural logarithm of `x` may have.
pub open spec fn is_ln<H: Elementary>(host: H, x: Binary64, r: Binary64) -> bool {
    call_ensures(H::ln, (&host, x), r)
}

/// `r` is a value that the natural exponential of `x` may have.
pub open spec fn is_exp<H: Elementary>(host: H, x: Binary64, r: Binary64) -> bool {
    call_ensures(H::exp, (&host, x), r)
}

} // verus!
