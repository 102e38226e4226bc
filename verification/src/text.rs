//! Texts for messages.
use crate::binary64::Binary64;
use crate::compiler;
use vstd::prelude::*;
use vstd::string::*;

verus! {

/// Decimal notations of binary64 numbers, supplied by the caller.
///
/// Nothing is assumed of the texts: contracts speak of a text that a call may
/// have returned, and hold whichever text it was.
pub trait Notation {
    /// Shortest decimal notation.
    fn plain(&self, x: Binary64) -> String;

    /// Four digits after the point, at least eight characters wide.
    fn fixed(&self, x: Binary64) -> String;

    /// Scientific notation with two digits after the point.
    fn scientific(&self, x: Binary64) -> String;
}

/// `text` is a plain notation of `x`.
pub open spec fn is_plain<N: Notation>(notation: N, x: Binary64, text: String) -> bool {
    call_ensures(N::plain, (&notation, x), text)
}

/// `text` is a fixed notation of `x`.
pub open spec fn is_fixed<N: Notation>(notation: N, x: Binary64, text: String) -> bool {
    call_ensures(N::fixed, (&notation, x), text)
}

/// `text` is a scientific notation of `x`.
pub open spec fn is_scientific<N: Notation>(notation: N, x: Binary64, text: String) -> bool {
    call_ensures(N::scientific, (&notation, x), text)
}

/// A decimal digit.
pub open spec fn digit(d: nat) -> char {
    if d == 0 {
        '0'
    } else if d == 1 {
        '1'
    } else if d == 2 {
        '2'
    } else if d == 3 {
        '3'
    } else if d == 4 {
        '4'
    } else if d == 5 {
        '5'
    } else if d == 6 {
        '6'
    } else if d == 7 {
        '7'
    } else if d == 8 {
        '8'
    } else {
        '9'
    }
}

/// A count in decimal digits.
pub open spec fn decimal(n: nat) -> Seq<char>
    decreases n,
{
    if n < 10 {
        seq![digit(n)]
    } else {
        decimal(n / 10).push(digit(n % 10))
    }
}

fn digit_text(d: usize) -> (r: &'static str)
    requires
        d < 10,
    ensures
        r@ == seq![digit(d as nat)],
{
    proof {
        reveal_strlit("0");
        reveal_strlit("1");
        reveal_strlit("2");
        reveal_strlit("3");
        reveal_strlit("4");
        reveal_strlit("5");
        reveal_strlit("6");
        reveal_strlit("7");
        reveal_strlit("8");
        reveal_strlit("9");
    }
    let r: &'static str = if d == 0 {
        "0"
    } else if d == 1 {
        "1"
    } else if d == 2 {
        "2"
    } else if d == 3 {
        "3"
    } else if d == 4 {
        "4"
    } else if d == 5 {
        "5"
    } else if d == 6 {
        "6"
    } else if d == 7 {
        "7"
    } else if d == 8 {
        "8"
    } else {
        "9"
    };
    assert(r@ =~= seq![digit(d as nat)]);
    r
}

/// Append a count in decimal digits.
pub(crate) fn append_decimal(out: &mut String, n: usize)
    ensures
        final(out)@ == old(out)@ + decimal(n as nat),
    decreases n,
{
    let ghost before = out@;
    if n >= 10 {
        append_decimal(out, n / 10);
    }
    out.append(digit_text(n % 10));
    proof {
        if n >= 10 {
            assert(out@ =~= before + decimal(n as nat));
        } else {
            assert(n as nat % 10 == n);
        }
    }
}

/// A shape as rows, a cross and columns.
pub open spec fn shape(shape: (usize, usize)) -> Seq<char> {
    decimal(shape.0 as nat) + "x"@ + decimal(shape.1 as nat)
}

/// Append a shape.
pub(crate) fn append_shape(out: &mut String, shape: (usize, usize))
    ensures
        final(out)@ == old(out)@ + self::shape(shape),
{
    let ghost before = out@;
    append_decimal(out, shape.0);
    out.append("x");
    append_decimal(out, shape.1);
    assert(out@ =~= before + self::shape(shape));
}

/// How the standard library writes a list of strings for debugging: in
/// brackets, each string quoted and escaped.
pub uninterp spec fn quoted_list(names: Seq<Seq<char>>) -> Seq<char>;

/// Calls the `Debug` implementation of `Vec<String>` through `format!`. Its
/// result depends on the strings alone; which characters it escapes is left
/// unsaid.
#[verifier::external_body]
pub(crate) fn quote_list(names: &Vec<String>) -> (r: String)
    ensures
        r@ == quoted_list(compiler::texts(names@)),
{
    format!("{:?}", names)
}

} // verus!
