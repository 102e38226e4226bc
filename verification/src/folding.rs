//! Simplification is done at once, and derivatives by absent variables vanish.
use crate::binary64::Binary64;
use crate::compiler::{CompiledExp, VarId};
use crate::elementary::Elementary;
use crate::rewriting;
use vstd::prelude::*;

verus! {

/// Simplifying what was simplified changes nothing.
pub proof fn law_simplified_twice<H: Elementary>(
    e: CompiledExp,
    host: H,
    s: CompiledExp,
    t: CompiledExp,
)
    requires
        e.simplifies(host, s),
        s.simplifies(host, t),
    ensures
        t == s,
    decreases e,
{
    match e {
        CompiledExp::Add(a, b) => {
            let g = |x: CompiledExp, y: CompiledExp, s: CompiledExp|
                s == CompiledExp::simple_sum(x, y);
            let (sa, sb) = rewriting::lemma_parts(
                a.simplifications(host),
                b.simplifications(host),
                g,
                s,
            );
            if sa is Val && sb is Val {
            } else if sa.is_zero() {
                law_simplified_twice(*b, host, sb, t);
            } else if sb.is_zero() {
                law_simplified_twice(*a, host, sa, t);
            } else {
                let (ta, tb) = rewriting::lemma_parts(
                    sa.simplifications(host),
                    sb.simplifications(host),
                    g,
                    t,
                );
                law_simplified_twice(*a, host, sa, ta);
                law_simplified_twice(*b, host, sb, tb);
            }
        },
        CompiledExp::Sub(a, b) => {
            let g = |x: CompiledExp, y: CompiledExp, s: CompiledExp|
                s == CompiledExp::simple_difference(x, y);
            let (sa, sb) = rewriting::lemma_parts(
                a.simplifications(host),
                b.simplifications(host),
                g,
                s,
            );
            if sa is Val && sb is Val {
            } else if sb.is_zero() {
                law_simplified_twice(*a, host, sa, t);
            } else {
                let (ta, tb) = rewriting::lemma_parts(
                    sa.simplifications(host),
                    sb.simplifications(host),
                    g,
                    t,
                );
                law_simplified_twice(*a, host, sa, ta);
                law_simplified_twice(*b, host, sb, tb);
            }
        },
        CompiledExp::Mul(a, b) => {
            let g = |x: CompiledExp, y: CompiledExp, s: CompiledExp|
                s == CompiledExp::simple_product(x, y);
            let (sa, sb) = rewriting::lemma_parts(
                a.simplifications(host),
                b.simplifications(host),
                g,
                s,
            );
            if (sa is Val && sb is Val) || sa.is_zero() || sb.is_zero() {
            } else if sa.is_one() {
                law_simplified_twice(*b, host, sb, t);
            } else if sb.is_one() {
                law_simplified_twice(*a, host, sa, t);
            } else {
                let (ta, tb) = rewriting::lemma_parts(
                    sa.simplifications(host),
                    sb.simplifications(host),
                    g,
                    t,
                );
                law_simplified_twice(*a, host, sa, ta);
                law_simplified_twice(*b, host, sb, tb);
            }
        },
        CompiledExp::Div(a, b) => {
            let g = |x: CompiledExp, y: CompiledExp, s: CompiledExp|
                s == CompiledExp::simple_quotient(x, y);
            let (sa, sb) = rewriting::lemma_parts(
                a.simplifications(host),
                b.simplifications(host),
                g,
                s,
            );
            if (sa is Val && sb is Val && !sb.is_zero()) || sa.is_zero() {
            } else if sb.is_one() {
                law_simplified_twice(*a, host, sa, t);
            } else {
                let (ta, tb) = rewriting::lemma_parts(
                    sa.simplifications(host),
                    sb.simplifications(host),
                    g,
                    t,
                );
                law_simplified_twice(*a, host, sa, ta);
                law_simplified_twice(*b, host, sb, tb);
            }
        },
        CompiledExp::Power(a, p) => {
            let g = |x: CompiledExp, s: CompiledExp| CompiledExp::simple_power(host, x, p, s);
            let sa = rewriting::lemma_part(a.simplifications(host), g, s);
            if sa is Val || p.same(Binary64::zero_value()) {
            } else if p.same(Binary64::one()) {
                law_simplified_twice(*a, host, sa, t);
            } else {
                let ta = rewriting::lemma_part(sa.simplifications(host), g, t);
                law_simplified_twice(*a, host, sa, ta);
            }
        },
        CompiledExp::Neg(a) => {
            let g = |x: CompiledExp, s: CompiledExp| s == CompiledExp::simple_negation(x);
            let sa = rewriting::lemma_part(a.simplifications(host), g, s);
            if !(sa is Val) {
                let ta = rewriting::lemma_part(sa.simplifications(host), g, t);
                law_simplified_twice(*a, host, sa, ta);
            }
        },
        _ => {},
    }
}

/// Wherever the expression has a number for its value, that is zero.
pub open spec fn vanishes<H: Elementary>(
    e: CompiledExp,
    host: H,
    vars: Map<usize, Binary64>,
) -> bool {
    forall|r: Binary64| #[trigger] e.evaluates(host, vars, r) ==> r.zero() || r.nan()
}

proof fn lemma_terms_vanish<H: Elementary>(
    a: CompiledExp,
    b: CompiledExp,
    host: H,
    vars: Map<usize, Binary64>,
)
    requires
        vanishes(a, host, vars),
        vanishes(b, host, vars),
    ensures
        vanishes(CompiledExp::Add(Box::new(a), Box::new(b)), host, vars),
        vanishes(CompiledExp::Sub(Box::new(a), Box::new(b)), host, vars),
{
    let total = CompiledExp::Add(Box::new(a), Box::new(b));
    let rest = CompiledExp::Sub(Box::new(a), Box::new(b));
    assert forall|r: Binary64| #[trigger] total.evaluates(host, vars, r) implies r.zero()
        || r.nan() by {
        let f = |x: Binary64, y: Binary64, r: Binary64| r == x + y;
        let (x, y) = rewriting::lemma_parts(a.values(host, vars), b.values(host, vars), f, r);
        assert(a.evaluates(host, vars, x) && b.evaluates(host, vars, y));
        lemma_zero_sum(x, y);
    }
    assert forall|r: Binary64| #[trigger] rest.evaluates(host, vars, r) implies r.zero()
        || r.nan() by {
        let f = |x: Binary64, y: Binary64, r: Binary64| r == x - y;
        let (x, y) = rewriting::lemma_parts(a.values(host, vars), b.values(host, vars), f, r);
        assert(a.evaluates(host, vars, x) && b.evaluates(host, vars, y));
        lemma_zero_sum(x, y.negated());
    }
}

proof fn lemma_zero_sum(x: Binary64, y: Binary64)
    requires
        x.zero() || x.nan(),
        y.zero() || y.nan(),
    ensures
        (x + y).zero() || (x + y).nan(),
{
    if x.zero() && y.zero() {
        Binary64::lemma_plus_zero(x, y);
    } else {
        rewriting::lemma_not_numbers(x, y);
    }
}

proof fn lemma_factors_vanish<H: Elementary>(
    a: CompiledExp,
    b: CompiledExp,
    host: H,
    vars: Map<usize, Binary64>,
)
    requires
        vanishes(a, host, vars),
    ensures
        vanishes(CompiledExp::Mul(Box::new(a), Box::new(b)), host, vars),
        vanishes(CompiledExp::Mul(Box::new(b), Box::new(a)), host, vars),
        vanishes(CompiledExp::Div(Box::new(a), Box::new(b)), host, vars),
        vanishes(CompiledExp::Neg(Box::new(a)), host, vars),
{
    let product = CompiledExp::Mul(Box::new(a), Box::new(b));
    let swapped = CompiledExp::Mul(Box::new(b), Box::new(a));
    let quotient = CompiledExp::Div(Box::new(a), Box::new(b));
    let negation = CompiledExp::Neg(Box::new(a));
    let f = |x: Binary64, y: Binary64, r: Binary64| r == x * y;
    assert forall|r: Binary64| #[trigger] product.evaluates(host, vars, r) implies r.zero()
        || r.nan() by {
        let (x, y) = rewriting::lemma_parts(a.values(host, vars), b.values(host, vars), f, r);
        assert(a.evaluates(host, vars, x));
        rewriting::lemma_not_numbers(x, y);
        if x.zero() {
            Binary64::lemma_zero_product(x, y);
        }
    }
    assert forall|r: Binary64| #[trigger] swapped.evaluates(host, vars, r) implies r.zero()
        || r.nan() by {
        let (y, x) = rewriting::lemma_parts(b.values(host, vars), a.values(host, vars), f, r);
        assert(a.evaluates(host, vars, x));
        rewriting::lemma_not_numbers(y, x);
        if x.zero() {
            Binary64::lemma_zero_product(y, x);
        }
    }
    assert forall|r: Binary64| #[trigger] quotient.evaluates(host, vars, r) implies r.zero()
        || r.nan() by {
        let g = |x: Binary64, y: Binary64, r: Binary64| r == x / y;
        let (x, y) = rewriting::lemma_parts(a.values(host, vars), b.values(host, vars), g, r);
        assert(a.evaluates(host, vars, x));
        rewriting::lemma_not_numbers(x, y);
        if x.zero() {
            Binary64::lemma_zero_quotient(x, y);
        }
    }
    assert forall|r: Binary64| #[trigger] negation.evaluates(host, vars, r) implies r.zero()
        || r.nan() by {
        let g = |x: Binary64, r: Binary64| r == x.negated();
        let x = rewriting::lemma_part(a.values(host, vars), g, r);
        assert(a.evaluates(host, vars, x));
    }
}

/// The derivative by a variable that an expression does not hold vanishes:
/// where it has a number for its value, that is zero.
pub proof fn law_absent_derivative<H: Elementary>(
    e: CompiledExp,
    id: VarId,
    host: H,
    vars: Map<usize, Binary64>,
)
    requires
        !e.variables().contains(id.index),
    ensures
        vanishes(e.derivative(id), host, vars),
    decreases e,
{
    match e {
        CompiledExp::Val(_) => {},
        CompiledExp::Var(_, _) => {},
        CompiledExp::Add(a, b) | CompiledExp::Sub(a, b) => {
            law_absent_derivative(*a, id, host, vars);
            law_absent_derivative(*b, id, host, vars);
            lemma_terms_vanish(a.derivative(id), b.derivative(id), host, vars);
        },
        CompiledExp::Mul(a, b) => {
            law_absent_derivative(*a, id, host, vars);
            law_absent_derivative(*b, id, host, vars);
            lemma_factors_vanish(a.derivative(id), *b, host, vars);
            lemma_factors_vanish(b.derivative(id), *a, host, vars);
            lemma_terms_vanish(
                CompiledExp::Mul(Box::new(a.derivative(id)), b),
                CompiledExp::Mul(a, Box::new(b.derivative(id))),
                host,
                vars,
            );
        },
        CompiledExp::Div(a, b) => {
            law_absent_derivative(*a, id, host, vars);
            law_absent_derivative(*b, id, host, vars);
            lemma_factors_vanish(a.derivative(id), *b, host, vars);
            lemma_factors_vanish(b.derivative(id), *a, host, vars);
            let left = CompiledExp::Mul(Box::new(a.derivative(id)), b);
            let right = CompiledExp::Mul(a, Box::new(b.derivative(id)));
            lemma_terms_vanish(left, right, host, vars);
            lemma_factors_vanish(
                CompiledExp::Sub(Box::new(left), Box::new(right)),
                CompiledExp::Power(b, Binary64::two()),
                host,
                vars,
            );
        },
        CompiledExp::Power(a, p) => {
            law_absent_derivative(*a, id, host, vars);
            let front = CompiledExp::Mul(
                Box::new(CompiledExp::Val(p)),
                Box::new(CompiledExp::Power(a, p - Binary64::one())),
            );
            lemma_factors_vanish(a.derivative(id), front, host, vars);
        },
        CompiledExp::Neg(a) => {
            law_absent_derivative(*a, id, host, vars);
            lemma_factors_vanish(a.derivative(id), *a, host, vars);
        },
        CompiledExp::Sin(a) => {
            law_absent_derivative(*a, id, host, vars);
            lemma_factors_vanish(a.derivative(id), CompiledExp::Cos(a), host, vars);
        },
        CompiledExp::Cos(a) => {
            law_absent_derivative(*a, id, host, vars);
            let product = CompiledExp::Mul(
                Box::new(CompiledExp::Sin(a)),
                Box::new(a.derivative(id)),
            );
            lemma_factors_vanish(a.derivative(id), CompiledExp::Sin(a), host, vars);
            lemma_factors_vanish(product, *a, host, vars);
        },
        CompiledExp::Ln(a) => {
            law_absent_derivative(*a, id, host, vars);
            lemma_factors_vanish(a.derivative(id), *a, host, vars);
        },
        CompiledExp::Exp(a) => {
            law_absent_derivative(*a, id, host, vars);
            lemma_factors_vanish(a.derivative(id), CompiledExp::Exp(a), host, vars);
        },
    }
}

} // verus!
