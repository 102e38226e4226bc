//! Simplification keeps the values of expressions.
use crate::binary64::Binary64;
use crate::compiler;
use crate::compiler::CompiledExp;
use crate::elementary;
use crate::elementary::Elementary;
use vstd::prelude::*;

verus! {

/// Elementary functions return the same number for the same argument, powers
/// return akin numbers for akin bases, powers by zero and by one are one and the
/// base, and no other power of what is no number is a number.
pub open spec fn orderly<H: Elementary>(host: H) -> bool {
    &&& forall|x: Binary64, y: Binary64, r: Binary64, q: Binary64| #[trigger]
        elementary::is_sin(host, x, r) && #[trigger] elementary::is_sin(host, y, q) && x.twin(y)
            ==> r.twin(q)
    &&& forall|x: Binary64, y: Binary64, r: Binary64, q: Binary64| #[trigger]
        elementary::is_cos(host, x, r) && #[trigger] elementary::is_cos(host, y, q) && x.twin(y)
            ==> r.twin(q)
    &&& forall|x: Binary64, y: Binary64, r: Binary64, q: Binary64| #[trigger]
        elementary::is_ln(host, x, r) && #[trigger] elementary::is_ln(host, y, q) && x.twin(y)
            ==> r.twin(q)
    &&& forall|x: Binary64, y: Binary64, r: Binary64, q: Binary64| #[trigger]
        elementary::is_exp(host, x, r) && #[trigger] elementary::is_exp(host, y, q) && x.twin(y)
            ==> r.twin(q)
    &&& forall|x: Binary64, y: Binary64, p: Binary64, r: Binary64, q: Binary64| #[trigger]
        elementary::is_power(host, x, p, r) && #[trigger] elementary::is_power(host, y, p, q) ==> (
    x.twin(y) ==> r.twin(q)) && (x.akin(y) ==> r.akin(q))
    &&& forall|x: Binary64, p: Binary64, r: Binary64| #[trigger]
        elementary::is_power(host, x, p, r) ==> (p.same(Binary64::zero_value()) ==> r.same(
            Binary64::one(),
        )) && (p.same(Binary64::one()) ==> r.twin(x)) && (x.nan() && !p.same(
            Binary64::zero_value(),
        ) ==> r.nan())
}

/// Where two parts of an expression are infinite and have a sum, so have their
/// simplified forms.
pub open spec fn sums_stay<H: Elementary>(
    a: CompiledExp,
    b: CompiledExp,
    host: H,
    vars: Map<usize, Binary64>,
) -> bool {
    forall|
        sa: CompiledExp,
        sb: CompiledExp,
        x: Binary64,
        y: Binary64,
        u: Binary64,
        v: Binary64,
    |
        #![trigger
            a.simplifies(host, sa), b.simplifies(host, sb), a.evaluates(host, vars, x),
            b.evaluates(host, vars, y), sa.evaluates(host, vars, u), sb.evaluates(host, vars, v)
        ]
        a.simplifies(host, sa) && b.simplifies(host, sb) && a.evaluates(host, vars, x)
            && b.evaluates(host, vars, y) && sa.evaluates(host, vars, u) && sb.evaluates(
            host,
            vars,
            v,
        ) && x.infinite() && y.infinite() && !(x + y).nan() ==> !(u + v).nan()
}

/// As `sums_stay`, for a difference.
pub open spec fn differences_stay<H: Elementary>(
    a: CompiledExp,
    b: CompiledExp,
    host: H,
    vars: Map<usize, Binary64>,
) -> bool {
    forall|
        sa: CompiledExp,
        sb: CompiledExp,
        x: Binary64,
        y: Binary64,
        u: Binary64,
        v: Binary64,
    |
        #![trigger
            a.simplifies(host, sa), b.simplifies(host, sb), a.evaluates(host, vars, x),
            b.evaluates(host, vars, y), sa.evaluates(host, vars, u), sb.evaluates(host, vars, v)
        ]
        a.simplifies(host, sa) && b.simplifies(host, sb) && a.evaluates(host, vars, x)
            && b.evaluates(host, vars, y) && sa.evaluates(host, vars, u) && sb.evaluates(
            host,
            vars,
            v,
        ) && x.infinite() && y.infinite() && !(x - y).nan() ==> !(u - v).nan()
}

/// The expression simplifies to a number: what it is made of no longer counts.
pub open spec fn constant<H: Elementary>(e: CompiledExp, host: H) -> bool {
    forall|s: CompiledExp| #[trigger]
        e.simplifies(host, s) ==> s is Val && !s->Val_0.nan()
}

/// Simplification turns no sum or difference of infinities into one that is no
/// number, but for those in parts that it drops: under a power of zero, beside
/// the factor zero, and below the numerator zero.
///
/// Only the sign of a zero can change, and with it that of an infinity: in
/// `1/(0*x) - 1/z` at `x == -1`, `z == 0` both parts are infinite, and the first
/// is positive once `0*x` is read as zero.
pub open spec fn steady<H: Elementary>(
    e: CompiledExp,
    host: H,
    vars: Map<usize, Binary64>,
) -> bool
    decreases e,
{
    constant(e, host) || match e {
        CompiledExp::Add(a, b) => steady(*a, host, vars) && steady(*b, host, vars) && sums_stay(
            *a,
            *b,
            host,
            vars,
        ),
        CompiledExp::Sub(a, b) => steady(*a, host, vars) && steady(*b, host, vars)
            && differences_stay(*a, *b, host, vars),
        CompiledExp::Mul(a, b) => steady(*a, host, vars) && steady(*b, host, vars),
        CompiledExp::Div(a, b) => steady(*a, host, vars) && steady(*b, host, vars),
        CompiledExp::Power(a, _) => steady(*a, host, vars),
        CompiledExp::Neg(a) => steady(*a, host, vars),
        _ => true,
    }
}

/// What a part that simplification drops holds does not count: a base with the
/// exponent zero, a factor beside one that becomes zero, and a divisor below a
/// numerator that becomes zero, as long as the part does not become a constant,
/// which is folded.
pub proof fn law_dropped_parts<H: Elementary>(
    a: CompiledExp,
    b: CompiledExp,
    p: Binary64,
    host: H,
    vars: Map<usize, Binary64>,
)
    requires
        orderly(host),
    ensures
        p.same(Binary64::zero_value()) ==> steady(
            CompiledExp::Power(Box::new(b), p),
            host,
            vars,
        ),
        (forall|s: CompiledExp| #[trigger] a.simplifies(host, s) ==> s.is_zero()) && (forall|
            s: CompiledExp,
        | #[trigger]
            b.simplifies(host, s) ==> !(s is Val)) ==> {
            &&& steady(CompiledExp::Mul(Box::new(a), Box::new(b)), host, vars)
            &&& steady(CompiledExp::Mul(Box::new(b), Box::new(a)), host, vars)
            &&& steady(CompiledExp::Div(Box::new(a), Box::new(b)), host, vars)
        },
{
    let power = CompiledExp::Power(Box::new(b), p);
    if p.same(Binary64::zero_value()) {
        assert forall|s: CompiledExp| #[trigger] power.simplifies(host, s) implies s is Val
            && !s->Val_0.nan() by {
            let g = |x: CompiledExp, s: CompiledExp| CompiledExp::simple_power(host, x, p, s);
            let sb = lemma_part(b.simplifications(host), g, s);
            if sb is Val {
                assert(elementary::is_power(host, sb->Val_0, p, s->Val_0));
            }
        }
        assert(constant(power, host));
    }
    if (forall|s: CompiledExp| #[trigger] a.simplifies(host, s) ==> s.is_zero()) && (forall|
        s: CompiledExp,
    | #[trigger]
        b.simplifies(host, s) ==> !(s is Val)) {
        let product = CompiledExp::Mul(Box::new(a), Box::new(b));
        let swapped = CompiledExp::Mul(Box::new(b), Box::new(a));
        let quotient = CompiledExp::Div(Box::new(a), Box::new(b));
        let g = |x: CompiledExp, y: CompiledExp, s: CompiledExp|
            s == CompiledExp::simple_product(x, y);
        assert forall|s: CompiledExp| #[trigger] product.simplifies(host, s) implies s is Val
            && !s->Val_0.nan() by {
            let (sa, sb) = lemma_parts(a.simplifications(host), b.simplifications(host), g, s);
            assert(a.simplifies(host, sa) && b.simplifies(host, sb));
        }
        assert forall|s: CompiledExp| #[trigger] swapped.simplifies(host, s) implies s is Val
            && !s->Val_0.nan() by {
            let (sb, sa) = lemma_parts(b.simplifications(host), a.simplifications(host), g, s);
            assert(a.simplifies(host, sa) && b.simplifies(host, sb));
        }
        assert forall|s: CompiledExp| #[trigger] quotient.simplifies(host, s) implies s is Val
            && !s->Val_0.nan() by {
            let h = |x: CompiledExp, y: CompiledExp, s: CompiledExp|
                s == CompiledExp::simple_quotient(x, y);
            let (sa, sb) = lemma_parts(a.simplifications(host), b.simplifications(host), h, s);
            assert(a.simplifies(host, sa) && b.simplifies(host, sb));
        }
        assert(constant(product, host) && constant(swapped, host) && constant(quotient, host));
    }
}

/// A value of an expression with two parts comes from values of the parts.
pub(crate) proof fn lemma_parts<A>(
    a: Set<A>,
    b: Set<A>,
    f: spec_fn(A, A, A) -> bool,
    r: A,
) -> (parts: (A, A))
    requires
        compiler::combined(a, b, f).contains(r),
    ensures
        a.contains(parts.0),
        b.contains(parts.1),
        f(parts.0, parts.1, r),
{
    choose|x: A, y: A|
        #![trigger a.contains(x), b.contains(y)]
        a.contains(x) && b.contains(y) && f(x, y, r)
}

/// A value of an expression with one part comes from a value of the part.
pub(crate) proof fn lemma_part<A>(a: Set<A>, f: spec_fn(A, A) -> bool, r: A) -> (part: A)
    requires
        compiler::mapped(a, f).contains(r),
    ensures
        a.contains(part),
        f(part, r),
{
    choose|x: A| #[trigger] a.contains(x) && f(x, r)
}

/// The values of an expression are the same number, or none is a number.
proof fn lemma_one_value<H: Elementary>(
    e: CompiledExp,
    host: H,
    vars: Map<usize, Binary64>,
    r: Binary64,
    q: Binary64,
)
    requires
        orderly(host),
        e.evaluates(host, vars, r),
        e.evaluates(host, vars, q),
    ensures
        r.twin(q),
    decreases e,
{
    match e {
        CompiledExp::Val(_) => {},
        CompiledExp::Var(_, _) => {},
        CompiledExp::Add(a, b) => {
            let f = |x: Binary64, y: Binary64, r: Binary64| r == x + y;
            let (x, y) = lemma_parts(a.values(host, vars), b.values(host, vars), f, r);
            let (u, v) = lemma_parts(a.values(host, vars), b.values(host, vars), f, q);
            lemma_one_value(*a, host, vars, x, u);
            lemma_one_value(*b, host, vars, y, v);
            reveal(Binary64::spec_add);
        },
        CompiledExp::Sub(a, b) => {
            let f = |x: Binary64, y: Binary64, r: Binary64| r == x - y;
            let (x, y) = lemma_parts(a.values(host, vars), b.values(host, vars), f, r);
            let (u, v) = lemma_parts(a.values(host, vars), b.values(host, vars), f, q);
            lemma_one_value(*a, host, vars, x, u);
            lemma_one_value(*b, host, vars, y, v);
            reveal(Binary64::spec_add);
        },
        CompiledExp::Mul(a, b) => {
            let f = |x: Binary64, y: Binary64, r: Binary64| r == x * y;
            let (x, y) = lemma_parts(a.values(host, vars), b.values(host, vars), f, r);
            let (u, v) = lemma_parts(a.values(host, vars), b.values(host, vars), f, q);
            lemma_one_value(*a, host, vars, x, u);
            lemma_one_value(*b, host, vars, y, v);
            reveal(Binary64::spec_mul);
        },
        CompiledExp::Div(a, b) => {
            let f = |x: Binary64, y: Binary64, r: Binary64| r == x / y;
            let (x, y) = lemma_parts(a.values(host, vars), b.values(host, vars), f, r);
            let (u, v) = lemma_parts(a.values(host, vars), b.values(host, vars), f, q);
            lemma_one_value(*a, host, vars, x, u);
            lemma_one_value(*b, host, vars, y, v);
            reveal(Binary64::spec_euclidean_or_real_div);
        },
        CompiledExp::Power(a, p) => {
            let f = |x: Binary64, r: Binary64| elementary::is_power(host, x, p, r);
            let x = lemma_part(a.values(host, vars), f, r);
            let u = lemma_part(a.values(host, vars), f, q);
            lemma_one_value(*a, host, vars, x, u);
        },
        CompiledExp::Neg(a) => {
            let f = |x: Binary64, r: Binary64| r == x.negated();
            let x = lemma_part(a.values(host, vars), f, r);
            let u = lemma_part(a.values(host, vars), f, q);
            lemma_one_value(*a, host, vars, x, u);
        },
        CompiledExp::Sin(a) => {
            let f = |x: Binary64, r: Binary64| elementary::is_sin(host, x, r);
            let x = lemma_part(a.values(host, vars), f, r);
            let u = lemma_part(a.values(host, vars), f, q);
            lemma_one_value(*a, host, vars, x, u);
        },
        CompiledExp::Cos(a) => {
            let f = |x: Binary64, r: Binary64| elementary::is_cos(host, x, r);
            let x = lemma_part(a.values(host, vars), f, r);
            let u = lemma_part(a.values(host, vars), f, q);
            lemma_one_value(*a, host, vars, x, u);
        },
        CompiledExp::Ln(a) => {
            let f = |x: Binary64, r: Binary64| elementary::is_ln(host, x, r);
            let x = lemma_part(a.values(host, vars), f, r);
            let u = lemma_part(a.values(host, vars), f, q);
            lemma_one_value(*a, host, vars, x, u);
        },
        CompiledExp::Exp(a) => {
            let f = |x: Binary64, r: Binary64| elementary::is_exp(host, x, r);
            let x = lemma_part(a.values(host, vars), f, r);
            let u = lemma_part(a.values(host, vars), f, q);
            lemma_one_value(*a, host, vars, x, u);
        },
    }
}

/// `q` is akin to `r`, or no number.
spec fn follows(r: Binary64, q: Binary64) -> bool {
    r.akin(q) || q.nan()
}

/// Sums follow their terms, and are akin unless a sum of infinities becomes one
/// of opposite infinities.
proof fn lemma_sums_follow(x: Binary64, y: Binary64, u: Binary64, v: Binary64)
    requires
        follows(x, u),
        follows(y, v),
    ensures
        follows(x + y, u + v),
        x.akin(u) && y.akin(v) && (x.infinite() && y.infinite() && !(x + y).nan() ==> !(u
            + v).nan()) ==> (x + y).akin(u + v),
{
    if x.akin(u) && y.akin(v) {
        if !(u + v).nan() || !(x.infinite() && y.infinite() && !(x + y).nan()) {
            Binary64::lemma_akin_sums(x, y, u, v);
        }
    } else {
        lemma_not_numbers(u, v);
    }
}

proof fn lemma_products_follow(x: Binary64, y: Binary64, u: Binary64, v: Binary64)
    requires
        follows(x, u),
        follows(y, v),
    ensures
        follows(x * y, u * v),
        follows(x / y, u / v),
        x.akin(u) && y.akin(v) ==> (x * y).akin(u * v) && (x / y).akin(u / v),
{
    if x.akin(u) && y.akin(v) {
        Binary64::lemma_akin_products(x, y, u, v);
        Binary64::lemma_akin_quotients(x, y, u, v);
    } else {
        lemma_not_numbers(u, v);
    }
}

/// Simplification keeps values. An expression and its simplified form have the
/// same finite value, also where parts of them are not finite, exactly where the
/// simplified form has a number for its value; and an infinite value stays
/// infinite there. It has one unless a sum of infinities that is not dropped
/// becomes one of opposite infinities.
#[verifier::rlimit(60)]
pub proof fn law_simplified_value<H: Elementary>(
    e: CompiledExp,
    host: H,
    vars: Map<usize, Binary64>,
    s: CompiledExp,
    r: Binary64,
    q: Binary64,
)
    requires
        orderly(host),
        e.simplifies(host, s),
        e.evaluates(host, vars, r),
        s.evaluates(host, vars, q),
    ensures
        r.akin(q) || q.nan(),
        r.finite() ==> (r.same(q) <==> !q.nan()),
        steady(e, host, vars) ==> r.akin(q),
        steady(e, host, vars) && r.finite() ==> r.same(q),
    decreases e,
{
    reveal_with_fuel(CompiledExp::values, 2);
    match e {
        CompiledExp::Add(a, b) => {
            let g = |x: CompiledExp, y: CompiledExp, s: CompiledExp|
                s == CompiledExp::simple_sum(x, y);
            let (sa, sb) = lemma_parts(a.simplifications(host), b.simplifications(host), g, s);
            let f = |x: Binary64, y: Binary64, r: Binary64| r == x + y;
            let (x, y) = lemma_parts(a.values(host, vars), b.values(host, vars), f, r);
            assert(a.simplifies(host, sa) && b.simplifies(host, sb));
            assert(a.evaluates(host, vars, x) && b.evaluates(host, vars, y));
            if sa is Val && sb is Val {
                let u = sa->Val_0;
                let v = sb->Val_0;
                assert(sa.evaluates(host, vars, u) && sb.evaluates(host, vars, v));
                law_simplified_value(*a, host, vars, sa, x, u);
                law_simplified_value(*b, host, vars, sb, y, v);
                lemma_sums_follow(x, y, u, v);
            } else if sa.is_zero() {
                law_simplified_value(*a, host, vars, sa, x, sa->Val_0);
                law_simplified_value(*b, host, vars, sb, y, q);
                lemma_akin_zero(x, y, q);
            } else if sb.is_zero() {
                law_simplified_value(*a, host, vars, sa, x, q);
                law_simplified_value(*b, host, vars, sb, y, sb->Val_0);
                lemma_akin_zero(y, x, q);
            } else {
                let (u, v) = lemma_parts(sa.values(host, vars), sb.values(host, vars), f, q);
                assert(sa.evaluates(host, vars, u) && sb.evaluates(host, vars, v));
                law_simplified_value(*a, host, vars, sa, x, u);
                law_simplified_value(*b, host, vars, sb, y, v);
                lemma_sums_follow(x, y, u, v);
            }
        },
        CompiledExp::Sub(a, b) => {
            let g = |x: CompiledExp, y: CompiledExp, s: CompiledExp|
                s == CompiledExp::simple_difference(x, y);
            let (sa, sb) = lemma_parts(a.simplifications(host), b.simplifications(host), g, s);
            let f = |x: Binary64, y: Binary64, r: Binary64| r == x - y;
            let (x, y) = lemma_parts(a.values(host, vars), b.values(host, vars), f, r);
            assert(a.simplifies(host, sa) && b.simplifies(host, sb));
            assert(a.evaluates(host, vars, x) && b.evaluates(host, vars, y));
            if sa is Val && sb is Val {
                let u = sa->Val_0;
                let v = sb->Val_0;
                assert(sa.evaluates(host, vars, u) && sb.evaluates(host, vars, v));
                law_simplified_value(*a, host, vars, sa, x, u);
                law_simplified_value(*b, host, vars, sb, y, v);
                lemma_sums_follow(x, y.negated(), u, v.negated());
            } else if sb.is_zero() {
                law_simplified_value(*a, host, vars, sa, x, q);
                law_simplified_value(*b, host, vars, sb, y, sb->Val_0);
                lemma_akin_zero(y.negated(), x, q);
            } else {
                let (u, v) = lemma_parts(sa.values(host, vars), sb.values(host, vars), f, q);
                assert(sa.evaluates(host, vars, u) && sb.evaluates(host, vars, v));
                law_simplified_value(*a, host, vars, sa, x, u);
                law_simplified_value(*b, host, vars, sb, y, v);
                lemma_sums_follow(x, y.negated(), u, v.negated());
            }
        },
        CompiledExp::Mul(a, b) => {
            let g = |x: CompiledExp, y: CompiledExp, s: CompiledExp|
                s == CompiledExp::simple_product(x, y);
            let (sa, sb) = lemma_parts(a.simplifications(host), b.simplifications(host), g, s);
            let f = |x: Binary64, y: Binary64, r: Binary64| r == x * y;
            let (x, y) = lemma_parts(a.values(host, vars), b.values(host, vars), f, r);
            if sa is Val && sb is Val {
                law_simplified_value(*a, host, vars, sa, x, sa->Val_0);
                law_simplified_value(*b, host, vars, sb, y, sb->Val_0);
                lemma_products_follow(x, y, sa->Val_0, sb->Val_0);
            } else if sa.is_zero() || sb.is_zero() {
                if sa.is_zero() {
                    law_simplified_value(*a, host, vars, sa, x, sa->Val_0);
                } else {
                    law_simplified_value(*b, host, vars, sb, y, sb->Val_0);
                }
                lemma_not_numbers(x, y);
                if x.zero() || y.zero() {
                    Binary64::lemma_zero_product(x, y);
                }
            } else if sa.is_one() {
                law_simplified_value(*a, host, vars, sa, x, sa->Val_0);
                law_simplified_value(*b, host, vars, sb, y, q);
                lemma_not_numbers(x, y);
                if !x.nan() && !y.nan() {
                    lemma_is_one(x);
                    Binary64::law_times_one(y);
                }
            } else if sb.is_one() {
                law_simplified_value(*a, host, vars, sa, x, q);
                law_simplified_value(*b, host, vars, sb, y, sb->Val_0);
                lemma_not_numbers(x, y);
                if !x.nan() && !y.nan() {
                    lemma_is_one(y);
                    Binary64::law_times_one(x);
                }
            } else {
                let (u, v) = lemma_parts(sa.values(host, vars), sb.values(host, vars), f, q);
                law_simplified_value(*a, host, vars, sa, x, u);
                law_simplified_value(*b, host, vars, sb, y, v);
                lemma_products_follow(x, y, u, v);
            }
        },
        CompiledExp::Div(a, b) => {
            let g = |x: CompiledExp, y: CompiledExp, s: CompiledExp|
                s == CompiledExp::simple_quotient(x, y);
            let (sa, sb) = lemma_parts(a.simplifications(host), b.simplifications(host), g, s);
            let f = |x: Binary64, y: Binary64, r: Binary64| r == x / y;
            let (x, y) = lemma_parts(a.values(host, vars), b.values(host, vars), f, r);
            if sa is Val && sb is Val && !sb.is_zero() {
                law_simplified_value(*a, host, vars, sa, x, sa->Val_0);
                law_simplified_value(*b, host, vars, sb, y, sb->Val_0);
                lemma_products_follow(x, y, sa->Val_0, sb->Val_0);
            } else if sa.is_zero() {
                law_simplified_value(*a, host, vars, sa, x, sa->Val_0);
                lemma_not_numbers(x, y);
                if x.zero() {
                    Binary64::lemma_zero_quotient(x, y);
                }
            } else if sb.is_one() {
                law_simplified_value(*a, host, vars, sa, x, q);
                law_simplified_value(*b, host, vars, sb, y, sb->Val_0);
                lemma_not_numbers(x, y);
                if !x.nan() && !y.nan() {
                    lemma_is_one(y);
                    Binary64::law_over_one(x);
                }
            } else {
                let (u, v) = lemma_parts(sa.values(host, vars), sb.values(host, vars), f, q);
                law_simplified_value(*a, host, vars, sa, x, u);
                law_simplified_value(*b, host, vars, sb, y, v);
                lemma_products_follow(x, y, u, v);
            }
        },
        CompiledExp::Power(a, p) => {
            let g = |x: CompiledExp, s: CompiledExp| CompiledExp::simple_power(host, x, p, s);
            let sa = lemma_part(a.simplifications(host), g, s);
            let f = |x: Binary64, r: Binary64| elementary::is_power(host, x, p, r);
            let x = lemma_part(a.values(host, vars), f, r);
            if sa is Val {
                law_simplified_value(*a, host, vars, sa, x, sa->Val_0);
                assert(elementary::is_power(host, sa->Val_0, p, q));
            } else if p.same(Binary64::zero_value()) {
            } else if p.same(Binary64::one()) {
                law_simplified_value(*a, host, vars, sa, x, q);
            } else {
                let u = lemma_part(sa.values(host, vars), f, q);
                law_simplified_value(*a, host, vars, sa, x, u);
            }
        },
        CompiledExp::Neg(a) => {
            let g = |x: CompiledExp, s: CompiledExp| s == CompiledExp::simple_negation(x);
            let sa = lemma_part(a.simplifications(host), g, s);
            let f = |x: Binary64, r: Binary64| r == x.negated();
            let x = lemma_part(a.values(host, vars), f, r);
            if sa is Val {
                law_simplified_value(*a, host, vars, sa, x, sa->Val_0);
            } else {
                let u = lemma_part(sa.values(host, vars), f, q);
                law_simplified_value(*a, host, vars, sa, x, u);
            }
        },
        _ => {
            lemma_one_value(e, host, vars, r, q);
        },
    }
}

/// A simplified expression has a value wherever the expression has one.
pub proof fn law_simplified_evaluates<H: Elementary>(
    e: CompiledExp,
    host: H,
    vars: Map<usize, Binary64>,
    s: CompiledExp,
)
    requires
        e.simplifies(host, s),
        e.first_missing(vars) is None,
    ensures
        s.first_missing(vars) is None,
{
    compiler::law_simplified_variables(e, host, s);
    compiler::law_evaluation_total(e, vars);
    compiler::law_evaluation_total(s, vars);
}

/// A number equal to one is one.
proof fn lemma_is_one(x: Binary64)
    requires
        x.same(Binary64::one()),
    ensures
        x == Binary64::one(),
{
}

/// Sums, products and quotients with what is no number are none.
pub(crate) proof fn lemma_not_numbers(x: Binary64, y: Binary64)
    ensures
        x.nan() || y.nan() ==> (x + y).nan() && (x * y).nan() && (x / y).nan(),
{
    reveal(Binary64::spec_add);
    reveal(Binary64::spec_mul);
    reveal(Binary64::spec_euclidean_or_real_div);
}

/// A term akin to zero leaves a sum akin to what the other term is akin to.
proof fn lemma_akin_zero(zero: Binary64, y: Binary64, q: Binary64)
    requires
        zero.zero() || zero.nan(),
    ensures
        y.akin(q) ==> (zero + y).akin(q) && (y + zero).akin(q),
{
    if zero.zero() {
        Binary64::lemma_plus_zero(zero, y);
    }
    reveal(Binary64::spec_add);
}

} // verus!
