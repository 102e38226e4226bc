//! Symbolic derivatives are slopes.
use crate::binary64::Binary64;
use crate::compiler::{CompiledExp, VarId};
use vstd::prelude::*;

verus! {

/// The distance of a real number from zero.
pub open spec fn size(x: real) -> real {
    if x >= 0 as real {
        x
    } else {
        -x
    }
}

/// `t` is less than `reach` away from `x`.
pub open spec fn close(t: real, x: real, reach: real) -> bool {
    size(t - x) < reach
}

/// Within `reach` of `x`, `f` differs from the line through its point there
/// with slope `d` by at most `error` for each unit of distance.
pub open spec fn follows(
    f: spec_fn(real) -> real,
    x: real,
    d: real,
    error: real,
    reach: real,
) -> bool {
    &&& reach > 0 as real
    &&& forall|t: real| #[trigger]
        close(t, x, reach) ==> size(f(t) - f(x) - d * (t - x)) <= error * size(t - x)
}

/// Some surroundings of `x` keep `f` that close to the line.
pub open spec fn settles(f: spec_fn(real) -> real, x: real, d: real, error: real) -> bool {
    exists|reach: real| #[trigger] follows(f, x, d, error, reach)
}

/// `f` has the slope `d` at `x`.
pub open spec fn has_slope(f: spec_fn(real) -> real, x: real, d: real) -> bool {
    forall|error: real| error > 0 as real ==> #[trigger] settles(f, x, d, error)
}

proof fn lemma_size(x: real, y: real)
    ensures
        size(x) >= 0 as real,
        size(x + y) <= size(x) + size(y),
        size(x * y) == size(x) * size(y),
        size(-x) == size(x),
        x <= size(x),
{
    assert(size(x * y) == size(x) * size(y)) by (nonlinear_arith)
        requires
            size(x) == if x >= 0 as real { x } else { -x },
            size(y) == if y >= 0 as real { y } else { -y },
            size(x * y) == if x * y >= 0 as real { x * y } else { -(x * y) },
    ;
}

/// The surroundings that keep a function close to its line.
proof fn lemma_reach(f: spec_fn(real) -> real, x: real, d: real, error: real) -> (reach: real)
    requires
        has_slope(f, x, d),
        error > 0 as real,
    ensures
        follows(f, x, d, error, reach),
{
    assert(settles(f, x, d, error));
    choose|reach: real| #[trigger] follows(f, x, d, error, reach)
}

spec fn least(a: real, b: real) -> real {
    if a <= b {
        a
    } else {
        b
    }
}

/// A sum has the sum of the slopes.
proof fn lemma_sum(
    whole: spec_fn(real) -> real,
    f: spec_fn(real) -> real,
    g: spec_fn(real) -> real,
    x: real,
    df: real,
    dg: real,
)
    requires
        has_slope(f, x, df),
        has_slope(g, x, dg),
        forall|t: real| #[trigger] whole(t) == f(t) + g(t),
    ensures
        has_slope(whole, x, df + dg),
{
    assert forall|error: real| error > 0 as real implies #[trigger] settles(
        whole,
        x,
        df + dg,
        error,
    ) by {
        let half = error / 2 as real;
        let a = lemma_reach(f, x, df, half);
        let b = lemma_reach(g, x, dg, half);
        let reach = least(a, b);
        assert forall|t: real| #[trigger] close(t, x, reach) implies size(
            whole(t) - whole(x) - (df + dg) * (t - x),
        ) <= error * size(t - x) by {
            assert(close(t, x, a) && close(t, x, b));
            let u = t - x;
            let p = f(t) - f(x) - df * u;
            let q = g(t) - g(x) - dg * u;
            assert(whole(t) - whole(x) - (df + dg) * u == p + q) by {
                assert((df + dg) * u == df * u + dg * u) by (nonlinear_arith);
            }
            lemma_size(p, q);
            let s = size(u);
            assert(half * s + half * s == error * s) by (nonlinear_arith)
                requires
                    half == error / 2 as real,
            ;
        }
        assert(follows(whole, x, df + dg, error, reach));
    }
}

/// A negation has the negated slope.
proof fn lemma_negation(
    whole: spec_fn(real) -> real,
    f: spec_fn(real) -> real,
    x: real,
    df: real,
)
    requires
        has_slope(f, x, df),
        forall|t: real| #[trigger] whole(t) == -f(t),
    ensures
        has_slope(whole, x, -df),
{
    assert forall|error: real| error > 0 as real implies #[trigger] settles(
        whole,
        x,
        -df,
        error,
    ) by {
        let reach = lemma_reach(f, x, df, error);
        assert forall|t: real| #[trigger] close(t, x, reach) implies size(
            whole(t) - whole(x) - (-df) * (t - x),
        ) <= error * size(t - x) by {
            let u = t - x;
            let p = f(t) - f(x) - df * u;
            assert((-df) * u == -(df * u)) by (nonlinear_arith);
            lemma_size(p, p);
        }
        assert(follows(whole, x, -df, error, reach));
    }
}

/// A positive number that keeps a product with `bound` within half of `error`.
proof fn lemma_share(bound: real, error: real) -> (part: real)
    requires
        bound >= 0 as real,
        error > 0 as real,
    ensures
        part > 0 as real,
        part <= 1 as real,
        part * bound <= error / 2 as real,
{
    let fit = error / (2 as real * (bound + 1 as real));
    let part = least(1 as real, fit);
    assert(fit > 0 as real && fit * (bound + 1 as real) == error / 2 as real) by (nonlinear_arith)
        requires
            fit == error / (2 as real * (bound + 1 as real)),
            bound >= 0 as real,
            error > 0 as real,
    ;
    assert(part * bound <= error / 2 as real) by (nonlinear_arith)
        requires
            part > 0 as real,
            part <= fit,
            bound >= 0 as real,
            fit * (bound + 1 as real) == error / 2 as real,
    ;
    part
}

/// What is left of a change after its linear part bounds the change.
proof fn lemma_change(d: real, u: real, p: real, part: real)
    requires
        size(p) <= part * size(u),
        part <= 1 as real,
    ensures
        size(d * u + p) <= (size(d) + 1 as real) * size(u),
        (size(d) + 1 as real) * size(u) >= 0 as real,
{
    lemma_size(d, u);
    lemma_size(u, u);
    lemma_size(d * u, p);
    let a = size(d);
    let s = size(u);
    assert(a * s + part * s <= (a + 1 as real) * s && (a + 1 as real) * s >= 0 as real)
        by (nonlinear_arith)
        requires
            part <= 1 as real,
            s >= 0 as real,
            a >= 0 as real,
    ;
}

/// A product has the slope of the product rule.
proof fn lemma_product(
    whole: spec_fn(real) -> real,
    f: spec_fn(real) -> real,
    g: spec_fn(real) -> real,
    x: real,
    df: real,
    dg: real,
)
    requires
        has_slope(f, x, df),
        has_slope(g, x, dg),
        forall|t: real| #[trigger] whole(t) == f(t) * g(t),
    ensures
        has_slope(whole, x, df * g(x) + f(x) * dg),
{
    let a = f(x);
    let b = g(x);
    let d = df * b + a * dg;
    lemma_size(a, b);
    lemma_size(b, a);
    lemma_size(df, dg);
    lemma_size(dg, df);
    assert forall|error: real| error > 0 as real implies #[trigger] settles(
        whole,
        x,
        d,
        error,
    ) by {
        let part = lemma_share(size(a) + size(b), error);
        let m = size(df) + 1 as real;
        let n = size(dg) + 1 as real;
        assert(m * n >= 0 as real) by (nonlinear_arith)
            requires
                m >= 0 as real,
                n >= 0 as real,
        ;
        let span = lemma_share(m * n, error);
        let ra = lemma_reach(f, x, df, part);
        let rb = lemma_reach(g, x, dg, part);
        let reach = least(span, least(ra, rb));
        assert forall|t: real| #[trigger] close(t, x, reach) implies size(
            whole(t) - whole(x) - d * (t - x),
        ) <= error * size(t - x) by {
            assert(close(t, x, ra) && close(t, x, rb));
            let u = t - x;
            let s = size(u);
            let p = f(t) - a - df * u;
            let q = g(t) - b - dg * u;
            let y = df * u + p;
            let z = dg * u + q;
            lemma_change(df, u, p, part);
            lemma_change(dg, u, q, part);
            assert(f(t) * g(t) - a * b - d * u == p * b + a * q + y * z) by {
                assert(f(t) == a + y && g(t) == b + z);
                lemma_expand(a, b, y, z);
                let e = df * b;
                let h = a * dg;
                assert(d * u == e * u + h * u) by (nonlinear_arith)
                    requires
                        d == e + h,
                ;
                assert(y * b == e * u + p * b) by (nonlinear_arith)
                    requires
                        y == df * u + p,
                        e == df * b,
                ;
                assert(a * z == h * u + a * q) by (nonlinear_arith)
                    requires
                        z == dg * u + q,
                        h == a * dg,
                ;
            }
            lemma_size(p * b, a * q);
            lemma_size(p * b + a * q, y * z);
            lemma_size(p, b);
            lemma_size(a, q);
            lemma_size(y, z);
            lemma_size(z, y);
            lemma_size(u, u);
            let sa = size(a);
            let sb = size(b);
            let sp = size(p);
            let sq = size(q);
            assert(sp * sb + sa * sq <= (part * (sa + sb)) * s) by (nonlinear_arith)
                requires
                    sp <= part * s,
                    sq <= part * s,
                    sa >= 0 as real,
                    sb >= 0 as real,
            {
                assert(sp * sb <= (part * s) * sb);
                assert(sa * sq <= sa * (part * s));
            }
            let sy = size(y);
            let sz = size(z);
            assert(sy * sz <= ((m * n) * s) * s) by (nonlinear_arith)
                requires
                    sy <= m * s,
                    sz <= n * s,
                    sy >= 0 as real,
                    sz >= 0 as real,
                    m * s >= 0 as real,
            {
                assert(sy * sz <= (m * s) * (n * s)) by (nonlinear_arith)
                    requires
                        sy <= m * s,
                        sz <= n * s,
                        sy >= 0 as real,
                        sz >= 0 as real,
                        m * s >= 0 as real,
                ;
                assert((m * s) * (n * s) == ((m * n) * s) * s);
            }
            let k = m * n;
            assert((part * (sa + sb)) * s + (k * s) * s <= error * s) by (nonlinear_arith)
                requires
                    part * (sa + sb) <= error / 2 as real,
                    span * k <= error / 2 as real,
                    s <= span,
                    s >= 0 as real,
                    k >= 0 as real,
            {
                let c = part * (sa + sb);
                assert(c * s <= (error / 2 as real) * s) by (nonlinear_arith)
                    requires
                        c <= error / 2 as real,
                        s >= 0 as real,
                ;
                assert(k * s <= span * k) by (nonlinear_arith)
                    requires
                        s <= span,
                        k >= 0 as real,
                ;
                let v = k * s;
                assert(v * s <= (error / 2 as real) * s) by (nonlinear_arith)
                    requires
                        v <= error / 2 as real,
                        s >= 0 as real,
                ;
            }
        }
        assert(follows(whole, x, d, error, reach));
    }
}

proof fn lemma_expand(a: real, b: real, y: real, z: real)
    ensures
        (a + y) * (b + z) == a * b + y * b + a * z + y * z,
{
    assert((a + y) * (b + z) == a * b + y * b + a * z + y * z) by (nonlinear_arith);
}

/// A function of a function has the slope of the chain rule.
proof fn lemma_chain(
    whole: spec_fn(real) -> real,
    outer: spec_fn(real) -> real,
    f: spec_fn(real) -> real,
    x: real,
    douter: real,
    df: real,
)
    requires
        has_slope(f, x, df),
        has_slope(outer, f(x), douter),
        forall|t: real| #[trigger] whole(t) == outer(f(t)),
    ensures
        has_slope(whole, x, douter * df),
{
    let d = douter * df;
    let m = size(df) + 1 as real;
    lemma_size(df, df);
    lemma_size(douter, df);
    assert forall|error: real| error > 0 as real implies #[trigger] settles(
        whole,
        x,
        d,
        error,
    ) by {
        let part = lemma_share(size(douter), error);
        let share = lemma_share(m, error);
        let ro = lemma_reach(outer, f(x), douter, share);
        let rf = lemma_reach(f, x, df, part);
        let span = ro / m;
        assert(span > 0 as real && span * m == ro) by (nonlinear_arith)
            requires
                span == ro / m,
                ro > 0 as real,
                m >= 1 as real,
        ;
        let reach = least(span, rf);
        assert forall|t: real| #[trigger] close(t, x, reach) implies size(
            whole(t) - whole(x) - d * (t - x),
        ) <= error * size(t - x) by {
            assert(close(t, x, rf));
            let u = t - x;
            let s = size(u);
            let p = f(t) - f(x) - df * u;
            let v = df * u + p;
            lemma_change(df, u, p, part);
            lemma_size(u, u);
            assert(m * s < ro) by (nonlinear_arith)
                requires
                    s < span,
                    span * m == ro,
                    m >= 1 as real,
            ;
            assert(f(t) - f(x) == v);
            assert(close(f(t), f(x), ro));
            let q = outer(f(t)) - outer(f(x)) - douter * v;
            assert(whole(t) - whole(x) - d * u == douter * p + q) by {
                assert(douter * v == d * u + douter * p) by (nonlinear_arith)
                    requires
                        v == df * u + p,
                        d == douter * df,
                ;
            }
            lemma_size(douter * p, q);
            lemma_size(douter, p);
            lemma_size(v, v);
            let so = size(douter);
            let sp = size(p);
            let sv = size(v);
            assert(so * sp + share * sv <= error * s) by (nonlinear_arith)
                requires
                    sp <= part * s,
                    part * so <= error / 2 as real,
                    sv <= m * s,
                    share * m <= error / 2 as real,
                    share > 0 as real,
                    so >= 0 as real,
                    s >= 0 as real,
            {
                assert(so * sp <= so * (part * s));
                assert(so * (part * s) == (part * so) * s);
                assert((part * so) * s <= (error / 2 as real) * s);
                assert(share * sv <= share * (m * s));
                assert(share * (m * s) == (share * m) * s);
                assert((share * m) * s <= (error / 2 as real) * s);
            }
        }
        assert(follows(whole, x, d, error, reach));
    }
}

/// The reciprocal has its textbook slope.
proof fn lemma_reciprocal(f: spec_fn(real) -> real, b: real)
    requires
        b != 0 as real,
        forall|t: real| #[trigger] f(t) == 1 as real / t,
    ensures
        has_slope(f, b, -(1 as real / (b * b))),
{
    let d = -(1 as real / (b * b));
    let sb = size(b);
    assert forall|error: real| error > 0 as real implies #[trigger] settles(f, b, d, error) by {
        // The error is the squared distance over b * b * t.
        let cube = sb * sb * sb;
        assert(cube > 0 as real) by (nonlinear_arith)
            requires
                sb > 0 as real,
                cube == sb * sb * sb,
        ;
        let span = error * cube / 2 as real;
        assert(span > 0 as real) by (nonlinear_arith)
            requires
                error > 0 as real,
                cube > 0 as real,
                span == error * cube / 2 as real,
        ;
        let reach = least(sb / 2 as real, span);
        assert forall|t: real| #[trigger] close(t, b, reach) implies size(
            f(t) - f(b) - d * (t - b),
        ) <= error * size(t - b) by {
            let u = t - b;
            let s = size(u);
            let st = size(t);
            assert(st > sb / 2 as real);
            let w = f(t) - f(b) - d * u;
            assert(w * (b * b * t) == u * u) by (nonlinear_arith)
                requires
                    w == 1 as real / t - 1 as real / b - d * u,
                    d == -(1 as real / (b * b)),
                    u == t - b,
                    t != 0 as real,
                    b != 0 as real,
            {
                assert(b * b != 0 as real);
                assert((1 as real / t) * t == 1 as real);
                assert((1 as real / b) * b == 1 as real);
                assert((1 as real / (b * b)) * (b * b) == 1 as real);
                assert((1 as real / t) * (b * b * t) == b * b);
                assert((1 as real / b) * (b * b * t) == b * t);
                assert((d * u) * (b * b * t) == -(u * t));
            }
            lemma_size(w, b * b * t);
            lemma_size(b * b, t);
            lemma_size(b, b);
            lemma_size(u, u);
            let sw = size(w);
            assert(sw * (sb * sb * st) == s * s);
            assert(sw <= error * s) by (nonlinear_arith)
                requires
                    sw * (sb * sb * st) == s * s,
                    st > sb / 2 as real,
                    sb > 0 as real,
                    s >= 0 as real,
                    s <= error * cube / 2 as real,
                    cube == sb * sb * sb,
                    sw >= 0 as real,
                    error > 0 as real,
            {
                let half = cube / 2 as real;
                assert(sb * sb * st >= half) by (nonlinear_arith)
                    requires
                        st > sb / 2 as real,
                        sb > 0 as real,
                        half == (sb * sb * sb) / 2 as real,
                {
                    assert(sb * sb > 0 as real);
                    assert((sb * sb) * st >= (sb * sb) * (sb / 2 as real));
                }
                assert(half > 0 as real);
                assert(sw * half <= s * s) by (nonlinear_arith)
                    requires
                        sw * (sb * sb * st) == s * s,
                        sb * sb * st >= half,
                        sw >= 0 as real,
                ;
                assert(s * s <= (error * half) * s) by (nonlinear_arith)
                    requires
                        s <= error * half,
                        s >= 0 as real,
                ;
                assert((error * half) * s == (error * s) * half);
                assert(sw <= error * s) by (nonlinear_arith)
                    requires
                        sw * half <= (error * s) * half,
                        half > 0 as real,
                ;
            }
        }
        assert(follows(f, b, d, error, reach));
    }
}

/// A function with a slope stays off zero around a point where it is not zero.
proof fn lemma_not_zero(g: spec_fn(real) -> real, x: real, dg: real) -> (reach: real)
    requires
        has_slope(g, x, dg),
        g(x) != 0 as real,
    ensures
        reach > 0 as real,
        forall|t: real| #[trigger] close(t, x, reach) ==> g(t) != 0 as real,
{
    let b = g(x);
    let m = size(dg) + 1 as real;
    lemma_size(dg, dg);
    let span = size(b) / m;
    let r = lemma_reach(g, x, dg, 1 as real);
    let reach = least(span, r);
    assert(span > 0 as real && span * m == size(b)) by (nonlinear_arith)
        requires
            span == size(b) / m,
            size(b) > 0 as real,
            m >= 1 as real,
    ;
    assert forall|t: real| #[trigger] close(t, x, reach) implies g(t) != 0 as real by {
        assert(close(t, x, r));
        let u = t - x;
        let s = size(u);
        let p = g(t) - b - dg * u;
        lemma_change(dg, u, p, 1 as real);
        assert(m * s < span * m) by (nonlinear_arith)
            requires
                s < span,
                m >= 1 as real,
        ;
    }
    reach
}

/// A slope depends on the surroundings alone.
proof fn lemma_local(
    whole: spec_fn(real) -> real,
    other: spec_fn(real) -> real,
    x: real,
    d: real,
    span: real,
)
    requires
        has_slope(other, x, d),
        span > 0 as real,
        forall|t: real| #[trigger] close(t, x, span) ==> whole(t) == other(t),
    ensures
        has_slope(whole, x, d),
{
    assert(close(x, x, span));
    assert forall|error: real| error > 0 as real implies #[trigger] settles(
        whole,
        x,
        d,
        error,
    ) by {
        let r = lemma_reach(other, x, d, error);
        let reach = least(span, r);
        assert forall|t: real| #[trigger] close(t, x, reach) implies size(
            whole(t) - whole(x) - d * (t - x),
        ) <= error * size(t - x) by {
            assert(close(t, x, span) && close(t, x, r));
        }
        assert(follows(whole, x, d, error, reach));
    }
}

/// A quotient has the slope of the quotient rule.
proof fn lemma_quotient(
    whole: spec_fn(real) -> real,
    f: spec_fn(real) -> real,
    g: spec_fn(real) -> real,
    x: real,
    df: real,
    dg: real,
)
    requires
        has_slope(f, x, df),
        has_slope(g, x, dg),
        g(x) != 0 as real,
        forall|t: real| #[trigger] whole(t) == f(t) / g(t),
    ensures
        has_slope(whole, x, (df * g(x) - f(x) * dg) / (g(x) * g(x))),
{
    let a = f(x);
    let b = g(x);
    let over = |t: real| 1 as real / t;
    let inverse = |t: real| over(g(t));
    let d = -(1 as real / (b * b));
    lemma_reciprocal(over, b);
    lemma_chain(inverse, over, g, x, d, dg);
    let other = |t: real| f(t) * inverse(t);
    lemma_product(other, f, inverse, x, df, d * dg);
    let reach = lemma_not_zero(g, x, dg);
    assert forall|t: real| #[trigger] close(t, x, reach) implies whole(t) == other(t) by {
        lemma_over(f(t), g(t));
    }
    lemma_local(whole, other, x, df * inverse(x) + f(x) * (d * dg), reach);
    assert(df * (1 as real / b) + a * (d * dg) == (df * b - a * dg) / (b * b)) by (nonlinear_arith)
        requires
            b != 0 as real,
            d == -(1 as real / (b * b)),
    {
        assert(b * b != 0 as real);
        let i = 1 as real / (b * b);
        assert(i * (b * b) == 1 as real);
        assert(1 as real / b == b * i);
        assert((df * b - a * dg) / (b * b) == (df * b - a * dg) * i);
    }
}

/// The elementary functions and a reading of constants on real numbers.
pub struct Functions {
    pub number: spec_fn(Binary64) -> real,
    pub power: spec_fn(real, real) -> real,
    pub sin: spec_fn(real) -> real,
    pub cos: spec_fn(real) -> real,
    pub ln: spec_fn(real) -> real,
    pub exp: spec_fn(real) -> real,
}

impl Functions {
    /// The value of an expression in real arithmetic.
    pub open spec fn value(self, e: CompiledExp, vars: Map<usize, real>) -> real
        decreases e,
    {
        match e {
            CompiledExp::Val(v) => (self.number)(v),
            CompiledExp::Var(_, id) => vars[id.index],
            CompiledExp::Add(a, b) => self.value(*a, vars) + self.value(*b, vars),
            CompiledExp::Sub(a, b) => self.value(*a, vars) - self.value(*b, vars),
            CompiledExp::Mul(a, b) => self.value(*a, vars) * self.value(*b, vars),
            CompiledExp::Div(a, b) => self.value(*a, vars) / self.value(*b, vars),
            CompiledExp::Power(a, p) => (self.power)(self.value(*a, vars), (self.number)(p)),
            CompiledExp::Neg(a) => -self.value(*a, vars),
            CompiledExp::Sin(a) => (self.sin)(self.value(*a, vars)),
            CompiledExp::Cos(a) => (self.cos)(self.value(*a, vars)),
            CompiledExp::Ln(a) => (self.ln)(self.value(*a, vars)),
            CompiledExp::Exp(a) => (self.exp)(self.value(*a, vars)),
        }
    }

    /// Raising to the power of one constant.
    pub open spec fn raising(self, p: Binary64) -> spec_fn(real) -> real {
        |t: real| (self.power)(t, (self.number)(p))
    }

    /// Each function in an expression has its textbook slope at the argument
    /// that it gets: divisors are not zero and have squares, the sine has the
    /// cosine for its slope, and so on.
    pub open spec fn smooth(self, e: CompiledExp, vars: Map<usize, real>) -> bool
        decreases e,
    {
        match e {
            CompiledExp::Val(_) => true,
            CompiledExp::Var(_, _) => true,
            CompiledExp::Add(a, b) => self.smooth(*a, vars) && self.smooth(*b, vars),
            CompiledExp::Sub(a, b) => self.smooth(*a, vars) && self.smooth(*b, vars),
            CompiledExp::Mul(a, b) => self.smooth(*a, vars) && self.smooth(*b, vars),
            CompiledExp::Div(a, b) => {
                let y = self.value(*b, vars);
                &&& self.smooth(*a, vars) && self.smooth(*b, vars)
                &&& y != 0 as real
                &&& (self.power)(y, (self.number)(Binary64::two())) == y * y
            },
            CompiledExp::Power(a, p) => {
                let x = self.value(*a, vars);
                &&& self.smooth(*a, vars)
                &&& has_slope(
                    self.raising(p),
                    x,
                    (self.number)(p) * (self.power)(x, (self.number)(p - Binary64::one())),
                )
            },
            CompiledExp::Neg(a) => self.smooth(*a, vars),
            CompiledExp::Sin(a) => {
                let x = self.value(*a, vars);
                self.smooth(*a, vars) && has_slope(self.sin, x, (self.cos)(x))
            },
            CompiledExp::Cos(a) => {
                let x = self.value(*a, vars);
                self.smooth(*a, vars) && has_slope(self.cos, x, -(self.sin)(x))
            },
            CompiledExp::Ln(a) => {
                let x = self.value(*a, vars);
                self.smooth(*a, vars) && x != 0 as real && has_slope(self.ln, x, 1 as real / x)
            },
            CompiledExp::Exp(a) => {
                let x = self.value(*a, vars);
                self.smooth(*a, vars) && has_slope(self.exp, x, (self.exp)(x))
            },
        }
    }

    /// The value of an expression while one variable moves.
    pub open spec fn along(
        self,
        e: CompiledExp,
        vars: Map<usize, real>,
        id: VarId,
    ) -> spec_fn(real) -> real {
        |t: real| self.value(e, vars.insert(id.index, t))
    }

    /// The symbolic derivative of an expression is its slope: where each function
    /// in it has its textbook slope, the value of the derivative by a variable is
    /// the slope of the expression as that variable moves.
    #[verifier::rlimit(40)]
    pub proof fn law_derivative_is_slope(self, e: CompiledExp, vars: Map<usize, real>, id: VarId)
        requires
            vars.dom().contains(id.index),
            (self.number)(Binary64::zero_value()) == 0 as real,
            (self.number)(Binary64::one()) == 1 as real,
            self.smooth(e, vars),
        ensures
            has_slope(
                self.along(e, vars, id),
                vars[id.index],
                self.value(e.derivative(id), vars),
            ),
        decreases e,
    {
        let x = vars[id.index];
        let whole = self.along(e, vars, id);
        assert(vars.insert(id.index, x) =~= vars);
        reveal_with_fuel(Functions::value, 4);
        match e {
            CompiledExp::Val(_) => {
                lemma_constant(whole, x);
            },
            CompiledExp::Var(_, own) => {
                if own == id {
                    lemma_identity(whole, x);
                } else {
                    assert(own.index != id.index);
                    lemma_constant(whole, x);
                }
            },
            CompiledExp::Add(a, b) => {
                self.law_derivative_is_slope(*a, vars, id);
                self.law_derivative_is_slope(*b, vars, id);
                lemma_sum(
                    whole,
                    self.along(*a, vars, id),
                    self.along(*b, vars, id),
                    x,
                    self.value(a.derivative(id), vars),
                    self.value(b.derivative(id), vars),
                );
            },
            CompiledExp::Sub(a, b) => {
                self.law_derivative_is_slope(*a, vars, id);
                self.law_derivative_is_slope(*b, vars, id);
                let g = self.along(*b, vars, id);
                let opposite = |t: real| -g(t);
                lemma_negation(opposite, g, x, self.value(b.derivative(id), vars));
                lemma_sum(
                    whole,
                    self.along(*a, vars, id),
                    opposite,
                    x,
                    self.value(a.derivative(id), vars),
                    -self.value(b.derivative(id), vars),
                );
            },
            CompiledExp::Mul(a, b) => {
                self.law_derivative_is_slope(*a, vars, id);
                self.law_derivative_is_slope(*b, vars, id);
                lemma_product(
                    whole,
                    self.along(*a, vars, id),
                    self.along(*b, vars, id),
                    x,
                    self.value(a.derivative(id), vars),
                    self.value(b.derivative(id), vars),
                );
            },
            CompiledExp::Div(a, b) => {
                self.law_derivative_is_slope(*a, vars, id);
                self.law_derivative_is_slope(*b, vars, id);
                lemma_quotient(
                    whole,
                    self.along(*a, vars, id),
                    self.along(*b, vars, id),
                    x,
                    self.value(a.derivative(id), vars),
                    self.value(b.derivative(id), vars),
                );
            },
            CompiledExp::Power(a, p) => {
                self.law_derivative_is_slope(*a, vars, id);
                let y = self.value(*a, vars);
                lemma_chain(
                    whole,
                    self.raising(p),
                    self.along(*a, vars, id),
                    x,
                    (self.number)(p) * (self.power)(y, (self.number)(p - Binary64::one())),
                    self.value(a.derivative(id), vars),
                );
            },
            CompiledExp::Neg(a) => {
                self.law_derivative_is_slope(*a, vars, id);
                lemma_negation(
                    whole,
                    self.along(*a, vars, id),
                    x,
                    self.value(a.derivative(id), vars),
                );
            },
            CompiledExp::Sin(a) => {
                self.law_derivative_is_slope(*a, vars, id);
                let y = self.value(*a, vars);
                lemma_chain(
                    whole,
                    self.sin,
                    self.along(*a, vars, id),
                    x,
                    (self.cos)(y),
                    self.value(a.derivative(id), vars),
                );
            },
            CompiledExp::Cos(a) => {
                self.law_derivative_is_slope(*a, vars, id);
                let y = self.value(*a, vars);
                let d = self.value(a.derivative(id), vars);
                let s = (self.sin)(y);
                lemma_chain(whole, self.cos, self.along(*a, vars, id), x, -s, d);
                assert((-s) * d == -(s * d)) by (nonlinear_arith);
            },
            CompiledExp::Ln(a) => {
                self.law_derivative_is_slope(*a, vars, id);
                let y = self.value(*a, vars);
                let d = self.value(a.derivative(id), vars);
                lemma_chain(whole, self.ln, self.along(*a, vars, id), x, 1 as real / y, d);
                lemma_over(d, y);
                let r = 1 as real / y;
                assert(r * d == d * r) by (nonlinear_arith);
            },
            CompiledExp::Exp(a) => {
                self.law_derivative_is_slope(*a, vars, id);
                let y = self.value(*a, vars);
                lemma_chain(
                    whole,
                    self.exp,
                    self.along(*a, vars, id),
                    x,
                    (self.exp)(y),
                    self.value(a.derivative(id), vars),
                );
            },
        }
    }
}

/// A quotient is a product with the reciprocal.
proof fn lemma_over(p: real, q: real)
    requires
        q != 0 as real,
    ensures
        p / q == p * (1 as real / q),
{
    assert(p / q == p * (1 as real / q)) by (nonlinear_arith)
        requires
            q != 0 as real,
    ;
}

proof fn lemma_constant(f: spec_fn(real) -> real, x: real)
    requires
        forall|t: real| #[trigger] f(t) == f(x),
    ensures
        has_slope(f, x, 0 as real),
{
    assert forall|error: real| error > 0 as real implies #[trigger] settles(
        f,
        x,
        0 as real,
        error,
    ) by {
        assert forall|t: real| #[trigger] close(t, x, 1 as real) implies size(
            f(t) - f(x) - 0 as real * (t - x),
        ) <= error * size(t - x) by {
            let u = t - x;
            let s = size(u);
            assert(f(t) == f(x));
            assert(0 as real * u == 0 as real && error * s >= 0 as real) by (nonlinear_arith)
                requires
                    error > 0 as real,
                    s >= 0 as real,
            ;
        }
        assert(follows(f, x, 0 as real, error, 1 as real));
    }
}

proof fn lemma_identity(f: spec_fn(real) -> real, x: real)
    requires
        forall|t: real| #[trigger] f(t) == t,
    ensures
        has_slope(f, x, 1 as real),
{
    assert forall|error: real| error > 0 as real implies #[trigger] settles(
        f,
        x,
        1 as real,
        error,
    ) by {
        assert forall|t: real| #[trigger] close(t, x, 1 as real) implies size(
            f(t) - f(x) - 1 as real * (t - x),
        ) <= error * size(t - x) by {
            let u = t - x;
            let s = size(u);
            assert(f(t) == t && f(x) == x);
            assert(1 as real * u == u && error * s >= 0 as real) by (nonlinear_arith)
                requires
                    error > 0 as real,
                    s >= 0 as real,
            ;
        }
        assert(follows(f, x, 1 as real, error, 1 as real));
    }
}

} // verus!
