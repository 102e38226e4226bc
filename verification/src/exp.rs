//! Symbolic scalar expressions.
use crate::binary64::Binary64;
use crate::compiler;
use crate::text;
use crate::text::Notation;
use core::ops::{Add, Div, Mul, Neg, Sub};
use vstd::prelude::*;
use vstd::std_specs::convert::IntoSpec;
use vstd::string::*;

verus! {

/// Symbolic scalar expression; an equation is satisfied where it is zero.
#[derive(Debug, PartialEq)]
pub enum Exp {
    /// Constant.
    Val(Binary64),
    /// Variable, by its name.
    Var(String),
    Add(Box<Exp>, Box<Exp>),
    Sub(Box<Exp>, Box<Exp>),
    Mul(Box<Exp>, Box<Exp>),
    Div(Box<Exp>, Box<Exp>),
    /// Base expression raised to a constant exponent.
    Power(Box<Exp>, Binary64),
    Neg(Box<Exp>),
    /// Sine of an angle in radians.
    Sin(Box<Exp>),
    /// Cosine of an angle in radians.
    Cos(Box<Exp>),
    /// Natural logarithm.
    Ln(Box<Exp>),
    /// Natural exponential.
    Exp(Box<Exp>),
}

impl Clone for Exp {
    fn clone(&self) -> (r: Exp)
        ensures
            r == *self,
        decreases self,
    {
        match self {
            Exp::Val(v) => Exp::Val(*v),
            Exp::Var(name) => Exp::Var(name.clone()),
            Exp::Add(a, b) => Exp::Add(Box::new((&**a).clone()), Box::new((&**b).clone())),
            Exp::Sub(a, b) => Exp::Sub(Box::new((&**a).clone()), Box::new((&**b).clone())),
            Exp::Mul(a, b) => Exp::Mul(Box::new((&**a).clone()), Box::new((&**b).clone())),
            Exp::Div(a, b) => Exp::Div(Box::new((&**a).clone()), Box::new((&**b).clone())),
            Exp::Power(a, p) => Exp::Power(Box::new((&**a).clone()), *p),
            Exp::Neg(a) => Exp::Neg(Box::new((&**a).clone())),
            Exp::Sin(a) => Exp::Sin(Box::new((&**a).clone())),
            Exp::Cos(a) => Exp::Cos(Box::new((&**a).clone())),
            Exp::Ln(a) => Exp::Ln(Box::new((&**a).clone())),
            Exp::Exp(a) => Exp::Exp(Box::new((&**a).clone())),
        }
    }
}

impl Exp {
    /// The names of the variables from left to right, with repetitions.
    pub open spec fn occurrences(self) -> Seq<Seq<char>>
        decreases self,
    {
        match self {
            Exp::Val(_) => Seq::empty(),
            Exp::Var(name) => seq![name@],
            Exp::Add(a, b) => a.occurrences() + b.occurrences(),
            Exp::Sub(a, b) => a.occurrences() + b.occurrences(),
            Exp::Mul(a, b) => a.occurrences() + b.occurrences(),
            Exp::Div(a, b) => a.occurrences() + b.occurrences(),
            Exp::Power(a, _) => a.occurrences(),
            Exp::Neg(a) => a.occurrences(),
            Exp::Sin(a) => a.occurrences(),
            Exp::Cos(a) => a.occurrences(),
            Exp::Ln(a) => a.occurrences(),
            Exp::Exp(a) => a.occurrences(),
        }
    }

    /// Variable with a name.
    pub fn var(name: &str) -> (r: Exp)
        ensures
            r matches Exp::Var(s) && s@ == name@,
    {
        Exp::Var(name.to_owned())
    }

    /// Constant.
    pub fn val(v: Binary64) -> (r: Exp)
        ensures
            r == Exp::Val(v),
    {
        Exp::Val(v)
    }

    /// Sum.
    pub fn add(lhs: Exp, rhs: Exp) -> (r: Exp)
        ensures
            r == Exp::Add(Box::new(lhs), Box::new(rhs)),
    {
        Exp::Add(Box::new(lhs), Box::new(rhs))
    }

    /// Difference.
    pub fn sub(lhs: Exp, rhs: Exp) -> (r: Exp)
        ensures
            r == Exp::Sub(Box::new(lhs), Box::new(rhs)),
    {
        Exp::Sub(Box::new(lhs), Box::new(rhs))
    }

    /// Product.
    pub fn mul(lhs: Exp, rhs: Exp) -> (r: Exp)
        ensures
            r == Exp::Mul(Box::new(lhs), Box::new(rhs)),
    {
        Exp::Mul(Box::new(lhs), Box::new(rhs))
    }

    /// Quotient.
    pub fn div(lhs: Exp, rhs: Exp) -> (r: Exp)
        ensures
            r == Exp::Div(Box::new(lhs), Box::new(rhs)),
    {
        Exp::Div(Box::new(lhs), Box::new(rhs))
    }

    /// Base raised to a constant exponent.
    pub fn power(base: Exp, exp: Binary64) -> (r: Exp)
        ensures
            r == Exp::Power(Box::new(base), exp),
    {
        Exp::Power(Box::new(base), exp)
    }

    /// Negation.
    pub fn neg(exp: Exp) -> (r: Exp)
        ensures
            r == Exp::Neg(Box::new(exp)),
    {
        Exp::Neg(Box::new(exp))
    }

    /// Sine.
    pub fn sin(exp: Exp) -> (r: Exp)
        ensures
            r == Exp::Sin(Box::new(exp)),
    {
        Exp::Sin(Box::new(exp))
    }

    /// Cosine.
    pub fn cos(exp: Exp) -> (r: Exp)
        ensures
            r == Exp::Cos(Box::new(exp)),
    {
        Exp::Cos(Box::new(exp))
    }

    /// Natural logarithm.
    pub fn ln(exp: Exp) -> (r: Exp)
        ensures
            r == Exp::Ln(Box::new(exp)),
    {
        Exp::Ln(Box::new(exp))
    }

    /// Natural exponential.
    pub fn exp(exp: Exp) -> (r: Exp)
        ensures
            r == Exp::Exp(Box::new(exp)),
    {
        Exp::Exp(Box::new(exp))
    }
}

/// `From<T> for T`, which returns its argument unchanged.
pub assume_specification<T>[ <T as From<T>>::from ](t: T) -> (r: T)
    ensures
        r == t,
;

impl From<Binary64> for Exp {
    fn from(value: Binary64) -> (r: Exp) {
        Exp::Val(value)
    }
}

impl vstd::std_specs::convert::FromSpecImpl<Binary64> for Exp {
    open spec fn obeys_from_spec() -> bool {
        true
    }

    open spec fn from_spec(value: Binary64) -> Exp {
        Exp::Val(value)
    }
}

impl From<&Exp> for Exp {
    fn from(value: &Exp) -> (r: Exp) {
        value.clone()
    }
}

impl vstd::std_specs::convert::FromSpecImpl<&Exp> for Exp {
    open spec fn obeys_from_spec() -> bool {
        true
    }

    open spec fn from_spec(value: &Exp) -> Exp {
        *value
    }
}

impl<Rhs: Into<Exp>> Add<Rhs> for Exp {
    type Output = Exp;

    fn add(self, rhs: Rhs) -> (r: Exp)
        ensures
            exists|right: Exp| #[trigger]
                call_ensures(<Rhs as Into<Exp>>::into, (rhs,), right) && r == Exp::Add(
                    Box::new(self),
                    Box::new(right),
                ),
    {
        Exp::Add(Box::new(self), Box::new(rhs.into()))
    }
}

impl<Rhs: Into<Exp>> vstd::std_specs::ops::AddSpecImpl<Rhs> for Exp {
    open spec fn obeys_add_spec() -> bool {
        <Rhs as IntoSpec<Exp>>::obeys_into_spec()
    }

    open spec fn add_req(self, rhs: Rhs) -> bool {
        true
    }

    open spec fn add_spec(self, rhs: Rhs) -> Exp {
        Exp::Add(Box::new(self), Box::new(rhs.into_spec()))
    }
}

impl<Rhs: Into<Exp>> Add<Rhs> for &Exp {
    type Output = Exp;

    fn add(self, rhs: Rhs) -> (r: Exp)
        ensures
            exists|right: Exp| #[trigger]
                call_ensures(<Rhs as Into<Exp>>::into, (rhs,), right) && r == Exp::Add(
                    Box::new(*self),
                    Box::new(right),
                ),
    {
        Exp::Add(Box::new(self.clone()), Box::new(rhs.into()))
    }
}

impl<Rhs: Into<Exp>> vstd::std_specs::ops::AddSpecImpl<Rhs> for &Exp {
    open spec fn obeys_add_spec() -> bool {
        <Rhs as IntoSpec<Exp>>::obeys_into_spec()
    }

    open spec fn add_req(self, rhs: Rhs) -> bool {
        true
    }

    open spec fn add_spec(self, rhs: Rhs) -> Exp {
        Exp::Add(Box::new(*self), Box::new(rhs.into_spec()))
    }
}

impl Add<Exp> for Binary64 {
    type Output = Exp;

    fn add(self, rhs: Exp) -> (r: Exp) {
        Exp::Add(Box::new(Exp::Val(self)), Box::new(rhs))
    }
}

impl vstd::std_specs::ops::AddSpecImpl<Exp> for Binary64 {
    open spec fn obeys_add_spec() -> bool {
        true
    }

    open spec fn add_req(self, rhs: Exp) -> bool {
        true
    }

    open spec fn add_spec(self, rhs: Exp) -> Exp {
        Exp::Add(Box::new(Exp::Val(self)), Box::new(rhs))
    }
}

impl Add<&Exp> for Binary64 {
    type Output = Exp;

    fn add(self, rhs: &Exp) -> (r: Exp) {
        Exp::Add(Box::new(Exp::Val(self)), Box::new(rhs.clone()))
    }
}

impl vstd::std_specs::ops::AddSpecImpl<&Exp> for Binary64 {
    open spec fn obeys_add_spec() -> bool {
        true
    }

    open spec fn add_req(self, rhs: &Exp) -> bool {
        true
    }

    open spec fn add_spec(self, rhs: &Exp) -> Exp {
        Exp::Add(Box::new(Exp::Val(self)), Box::new(*rhs))
    }
}

impl<Rhs: Into<Exp>> Sub<Rhs> for Exp {
    type Output = Exp;

    fn sub(self, rhs: Rhs) -> (r: Exp)
        ensures
            exists|right: Exp| #[trigger]
                call_ensures(<Rhs as Into<Exp>>::into, (rhs,), right) && r == Exp::Sub(
                    Box::new(self),
                    Box::new(right),
                ),
    {
        Exp::Sub(Box::new(self), Box::new(rhs.into()))
    }
}

impl<Rhs: Into<Exp>> vstd::std_specs::ops::SubSpecImpl<Rhs> for Exp {
    open spec fn obeys_sub_spec() -> bool {
        <Rhs as IntoSpec<Exp>>::obeys_into_spec()
    }

    open spec fn sub_req(self, rhs: Rhs) -> bool {
        true
    }

    open spec fn sub_spec(self, rhs: Rhs) -> Exp {
        Exp::Sub(Box::new(self), Box::new(rhs.into_spec()))
    }
}

impl<Rhs: Into<Exp>> Sub<Rhs> for &Exp {
    type Output = Exp;

    fn sub(self, rhs: Rhs) -> (r: Exp)
        ensures
            exists|right: Exp| #[trigger]
                call_ensures(<Rhs as Into<Exp>>::into, (rhs,), right) && r == Exp::Sub(
                    Box::new(*self),
                    Box::new(right),
                ),
    {
        Exp::Sub(Box::new(self.clone()), Box::new(rhs.into()))
    }
}

impl<Rhs: Into<Exp>> vstd::std_specs::ops::SubSpecImpl<Rhs> for &Exp {
    open spec fn obeys_sub_spec() -> bool {
        <Rhs as IntoSpec<Exp>>::obeys_into_spec()
    }

    open spec fn sub_req(self, rhs: Rhs) -> bool {
        true
    }

    open spec fn sub_spec(self, rhs: Rhs) -> Exp {
        Exp::Sub(Box::new(*self), Box::new(rhs.into_spec()))
    }
}

impl Sub<Exp> for Binary64 {
    type Output = Exp;

    fn sub(self, rhs: Exp) -> (r: Exp) {
        Exp::Sub(Box::new(Exp::Val(self)), Box::new(rhs))
    }
}

impl vstd::std_specs::ops::SubSpecImpl<Exp> for Binary64 {
    open spec fn obeys_sub_spec() -> bool {
        true
    }

    open spec fn sub_req(self, rhs: Exp) -> bool {
        true
    }

    open spec fn sub_spec(self, rhs: Exp) -> Exp {
        Exp::Sub(Box::new(Exp::Val(self)), Box::new(rhs))
    }
}

impl Sub<&Exp> for Binary64 {
    type Output = Exp;

    fn sub(self, rhs: &Exp) -> (r: Exp) {
        Exp::Sub(Box::new(Exp::Val(self)), Box::new(rhs.clone()))
    }
}

impl vstd::std_specs::ops::SubSpecImpl<&Exp> for Binary64 {
    open spec fn obeys_sub_spec() -> bool {
        true
    }

    open spec fn sub_req(self, rhs: &Exp) -> bool {
        true
    }

    open spec fn sub_spec(self, rhs: &Exp) -> Exp {
        Exp::Sub(Box::new(Exp::Val(self)), Box::new(*rhs))
    }
}

impl<Rhs: Into<Exp>> Mul<Rhs> for Exp {
    type Output = Exp;

    fn mul(self, rhs: Rhs) -> (r: Exp)
        ensures
            exists|right: Exp| #[trigger]
                call_ensures(<Rhs as Into<Exp>>::into, (rhs,), right) && r == Exp::Mul(
                    Box::new(self),
                    Box::new(right),
                ),
    {
        Exp::Mul(Box::new(self), Box::new(rhs.into()))
    }
}

impl<Rhs: Into<Exp>> vstd::std_specs::ops::MulSpecImpl<Rhs> for Exp {
    open spec fn obeys_mul_spec() -> bool {
        <Rhs as IntoSpec<Exp>>::obeys_into_spec()
    }

    open spec fn mul_req(self, rhs: Rhs) -> bool {
        true
    }

    open spec fn mul_spec(self, rhs: Rhs) -> Exp {
        Exp::Mul(Box::new(self), Box::new(rhs.into_spec()))
    }
}

impl<Rhs: Into<Exp>> Mul<Rhs> for &Exp {
    type Output = Exp;

    fn mul(self, rhs: Rhs) -> (r: Exp)
        ensures
            exists|right: Exp| #[trigger]
                call_ensures(<Rhs as Into<Exp>>::into, (rhs,), right) && r == Exp::Mul(
                    Box::new(*self),
                    Box::new(right),
                ),
    {
        Exp::Mul(Box::new(self.clone()), Box::new(rhs.into()))
    }
}

impl<Rhs: Into<Exp>> vstd::std_specs::ops::MulSpecImpl<Rhs> for &Exp {
    open spec fn obeys_mul_spec() -> bool {
        <Rhs as IntoSpec<Exp>>::obeys_into_spec()
    }

    open spec fn mul_req(self, rhs: Rhs) -> bool {
        true
    }

    open spec fn mul_spec(self, rhs: Rhs) -> Exp {
        Exp::Mul(Box::new(*self), Box::new(rhs.into_spec()))
    }
}

impl Mul<Exp> for Binary64 {
    type Output = Exp;

    fn mul(self, rhs: Exp) -> (r: Exp) {
        Exp::Mul(Box::new(Exp::Val(self)), Box::new(rhs))
    }
}

impl vstd::std_specs::ops::MulSpecImpl<Exp> for Binary64 {
    open spec fn obeys_mul_spec() -> bool {
        true
    }

    open spec fn mul_req(self, rhs: Exp) -> bool {
        true
    }

    open spec fn mul_spec(self, rhs: Exp) -> Exp {
        Exp::Mul(Box::new(Exp::Val(self)), Box::new(rhs))
    }
}

impl Mul<&Exp> for Binary64 {
    type Output = Exp;

    fn mul(self, rhs: &Exp) -> (r: Exp) {
        Exp::Mul(Box::new(Exp::Val(self)), Box::new(rhs.clone()))
    }
}

impl vstd::std_specs::ops::MulSpecImpl<&Exp> for Binary64 {
    open spec fn obeys_mul_spec() -> bool {
        true
    }

    open spec fn mul_req(self, rhs: &Exp) -> bool {
        true
    }

    open spec fn mul_spec(self, rhs: &Exp) -> Exp {
        Exp::Mul(Box::new(Exp::Val(self)), Box::new(*rhs))
    }
}

impl<Rhs: Into<Exp>> Div<Rhs> for Exp {
    type Output = Exp;

    fn div(self, rhs: Rhs) -> (r: Exp)
        ensures
            exists|right: Exp| #[trigger]
                call_ensures(<Rhs as Into<Exp>>::into, (rhs,), right) && r == Exp::Div(
                    Box::new(self),
                    Box::new(right),
                ),
    {
        Exp::Div(Box::new(self), Box::new(rhs.into()))
    }
}

impl<Rhs: Into<Exp>> vstd::std_specs::ops::DivSpecImpl<Rhs> for Exp {
    open spec fn obeys_div_spec() -> bool {
        <Rhs as IntoSpec<Exp>>::obeys_into_spec()
    }

    open spec fn div_req(self, rhs: Rhs) -> bool {
        true
    }

    open spec fn div_spec(self, rhs: Rhs) -> Exp {
        Exp::Div(Box::new(self), Box::new(rhs.into_spec()))
    }
}

impl<Rhs: Into<Exp>> Div<Rhs> for &Exp {
    type Output = Exp;

    fn div(self, rhs: Rhs) -> (r: Exp)
        ensures
            exists|right: Exp| #[trigger]
                call_ensures(<Rhs as Into<Exp>>::into, (rhs,), right) && r == Exp::Div(
                    Box::new(*self),
                    Box::new(right),
                ),
    {
        Exp::Div(Box::new(self.clone()), Box::new(rhs.into()))
    }
}

impl<Rhs: Into<Exp>> vstd::std_specs::ops::DivSpecImpl<Rhs> for &Exp {
    open spec fn obeys_div_spec() -> bool {
        <Rhs as IntoSpec<Exp>>::obeys_into_spec()
    }

    open spec fn div_req(self, rhs: Rhs) -> bool {
        true
    }

    open spec fn div_spec(self, rhs: Rhs) -> Exp {
        Exp::Div(Box::new(*self), Box::new(rhs.into_spec()))
    }
}

impl Div<Exp> for Binary64 {
    type Output = Exp;

    fn div(self, rhs: Exp) -> (r: Exp) {
        Exp::Div(Box::new(Exp::Val(self)), Box::new(rhs))
    }
}

impl vstd::std_specs::ops::DivSpecImpl<Exp> for Binary64 {
    open spec fn obeys_div_spec() -> bool {
        true
    }

    open spec fn div_req(self, rhs: Exp) -> bool {
        true
    }

    open spec fn div_spec(self, rhs: Exp) -> Exp {
        Exp::Div(Box::new(Exp::Val(self)), Box::new(rhs))
    }
}

impl Div<&Exp> for Binary64 {
    type Output = Exp;

    fn div(self, rhs: &Exp) -> (r: Exp) {
        Exp::Div(Box::new(Exp::Val(self)), Box::new(rhs.clone()))
    }
}

impl vstd::std_specs::ops::DivSpecImpl<&Exp> for Binary64 {
    open spec fn obeys_div_spec() -> bool {
        true
    }

    open spec fn div_req(self, rhs: &Exp) -> bool {
        true
    }

    open spec fn div_spec(self, rhs: &Exp) -> Exp {
        Exp::Div(Box::new(Exp::Val(self)), Box::new(*rhs))
    }
}

impl Neg for Exp {
    type Output = Exp;

    fn neg(self) -> (r: Exp) {
        Exp::Neg(Box::new(self))
    }
}

impl vstd::std_specs::ops::NegSpecImpl for Exp {
    open spec fn obeys_neg_spec() -> bool {
        true
    }

    open spec fn neg_req(self) -> bool {
        true
    }

    open spec fn neg_spec(self) -> Exp {
        Exp::Neg(Box::new(self))
    }
}

impl Neg for &Exp {
    type Output = Exp;

    fn neg(self) -> (r: Exp) {
        Exp::Neg(Box::new(self.clone()))
    }
}

impl vstd::std_specs::ops::NegSpecImpl for &Exp {
    open spec fn obeys_neg_spec() -> bool {
        true
    }

    open spec fn neg_req(self) -> bool {
        true
    }

    open spec fn neg_spec(self) -> Exp {
        Exp::Neg(Box::new(*self))
    }
}

/// The texts for a constant.
pub open spec fn constant_texts<N: Notation>(notation: N, v: Binary64) -> Set<Seq<char>> {
    Set::new(|t: Seq<char>| exists|s: String| #[trigger] text::is_plain(notation, v, s) && t == s@)
}

/// The texts of an operator between two operands.
pub open spec fn operator_texts(
    left: Set<Seq<char>>,
    operator: Seq<char>,
    right: Set<Seq<char>>,
) -> Set<Seq<char>> {
    compiler::combined(
        left,
        right,
        |l: Seq<char>, r: Seq<char>, t: Seq<char>| t == "("@ + l + operator + r + ")"@,
    )
}

/// The texts of a function of an argument.
pub open spec fn function_texts(start: Seq<char>, argument: Set<Seq<char>>) -> Set<Seq<char>> {
    compiler::mapped(argument, |a: Seq<char>, t: Seq<char>| t == start + a + ")"@)
}

/// A text around two others.
fn operator_text(left: &str, operator: &str, right: &str) -> (r: String)
    ensures
        r@ == "("@ + left@ + operator@ + right@ + ")"@,
{
    let mut out = "(".to_owned();
    out.append(left);
    out.append(operator);
    out.append(right);
    out.append(")");
    out
}

fn function_text(start: &str, argument: &str) -> (r: String)
    ensures
        r@ == start@ + argument@ + ")"@,
{
    let mut out = start.to_owned();
    out.append(argument);
    out.append(")");
    out
}

impl Exp {
    /// The texts that the expression may have: binary operations in brackets,
    /// constants as the notation writes them.
    pub open spec fn texts<N: Notation>(self, notation: N) -> Set<Seq<char>>
        decreases self,
    {
        match self {
            Exp::Val(v) => constant_texts(notation, v),
            Exp::Var(name) => Set::new(|t: Seq<char>| t == name@),
            Exp::Add(a, b) => operator_texts(a.texts(notation), " + "@, b.texts(notation)),
            Exp::Sub(a, b) => operator_texts(a.texts(notation), " - "@, b.texts(notation)),
            Exp::Mul(a, b) => operator_texts(a.texts(notation), " * "@, b.texts(notation)),
            Exp::Div(a, b) => operator_texts(a.texts(notation), " / "@, b.texts(notation)),
            Exp::Power(a, p) => operator_texts(
                a.texts(notation),
                "^"@,
                constant_texts(notation, p),
            ),
            Exp::Neg(a) => function_texts("(-"@, a.texts(notation)),
            Exp::Sin(a) => function_texts("sin("@, a.texts(notation)),
            Exp::Cos(a) => function_texts("cos("@, a.texts(notation)),
            Exp::Ln(a) => function_texts("ln("@, a.texts(notation)),
            Exp::Exp(a) => function_texts("exp("@, a.texts(notation)),
        }
    }

    /// The expression in words.
    pub fn text<N: Notation>(&self, notation: &N) -> (r: String)
        ensures
            self.texts(*notation).contains(r@),
        decreases self,
    {
        match self {
            Exp::Val(v) => {
                let s = notation.plain(*v);
                assert(text::is_plain(*notation, *v, s));
                s
            },
            Exp::Var(name) => name.clone(),
            Exp::Add(a, b) => {
                let l = a.text(notation);
                let r = b.text(notation);
                operator_text(l.as_str(), " + ", r.as_str())
            },
            Exp::Sub(a, b) => {
                let l = a.text(notation);
                let r = b.text(notation);
                operator_text(l.as_str(), " - ", r.as_str())
            },
            Exp::Mul(a, b) => {
                let l = a.text(notation);
                let r = b.text(notation);
                operator_text(l.as_str(), " * ", r.as_str())
            },
            Exp::Div(a, b) => {
                let l = a.text(notation);
                let r = b.text(notation);
                operator_text(l.as_str(), " / ", r.as_str())
            },
            Exp::Power(a, p) => {
                let l = a.text(notation);
                let r = notation.plain(*p);
                assert(text::is_plain(*notation, *p, r));
                assert(constant_texts(*notation, *p).contains(r@));
                operator_text(l.as_str(), "^", r.as_str())
            },
            Exp::Neg(a) => function_text("(-", a.text(notation).as_str()),
            Exp::Sin(a) => function_text("sin(", a.text(notation).as_str()),
            Exp::Cos(a) => function_text("cos(", a.text(notation).as_str()),
            Exp::Ln(a) => function_text("ln(", a.text(notation).as_str()),
            Exp::Exp(a) => function_text("exp(", a.text(notation).as_str()),
        }
    }
}

} // verus!
