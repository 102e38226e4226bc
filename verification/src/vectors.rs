//! Sums, dot products and matrices over the real numbers.
use vstd::prelude::*;

verus! {

/// The product of two real numbers.
#[verifier::opaque]
pub open spec fn times(x: real, y: real) -> real {
    x * y
}

/// The sum of the first `n` terms.
pub open spec fn sum(f: spec_fn(int) -> real, n: int) -> real
    decreases n,
{
    if n <= 0 {
        0 as real
    } else {
        sum(f, n - 1) + f(n - 1)
    }
}

/// The products of the coordinates of two vectors.
pub open spec fn products(a: spec_fn(int) -> real, b: spec_fn(int) -> real) -> spec_fn(int) -> real {
    |k: int| times(a(k), b(k))
}

/// The dot product of vectors with `n` coordinates.
pub open spec fn dot(a: spec_fn(int) -> real, b: spec_fn(int) -> real, n: int) -> real {
    sum(products(a, b), n)
}

/// The squared length of a vector with `n` coordinates.
pub open spec fn square(a: spec_fn(int) -> real, n: int) -> real {
    dot(a, a, n)
}

/// The difference of two vectors.
pub open spec fn minus(a: spec_fn(int) -> real, b: spec_fn(int) -> real) -> spec_fn(int) -> real {
    |i: int| a(i) - b(i)
}

/// One column of a matrix.
pub open spec fn column(m: spec_fn(int, int) -> real, j: int) -> spec_fn(int) -> real {
    |i: int| m(i, j)
}

/// One row of a matrix.
pub open spec fn row(m: spec_fn(int, int) -> real, i: int) -> spec_fn(int) -> real {
    |j: int| m(i, j)
}

/// A matrix with `n` columns times a vector.
pub open spec fn applied(
    m: spec_fn(int, int) -> real,
    x: spec_fn(int) -> real,
    n: int,
) -> spec_fn(int) -> real {
    |i: int| dot(row(m, i), x, n)
}

/// The transpose of a matrix with `m` rows times a vector.
pub open spec fn projected(
    a: spec_fn(int, int) -> real,
    b: spec_fn(int) -> real,
    m: int,
) -> spec_fn(int) -> real {
    |j: int| dot(column(a, j), b, m)
}

pub proof fn lemma_times(x: real, y: real)
    ensures
        times(x, y) == x * y,
{
    reveal(times);
}

pub proof fn lemma_commutes(x: real, y: real)
    ensures
        times(x, y) == times(y, x),
{
    reveal(times);
    assert(x * y == y * x) by (nonlinear_arith);
}

pub proof fn lemma_associates(x: real, y: real, z: real)
    ensures
        times(times(x, y), z) == times(x, times(y, z)),
{
    reveal(times);
    assert((x * y) * z == x * (y * z)) by (nonlinear_arith);
}

pub proof fn lemma_distributes(x: real, y: real, z: real)
    ensures
        times(x, y + z) == times(x, y) + times(x, z),
        times(x, y - z) == times(x, y) - times(x, z),
        times(y + z, x) == times(y, x) + times(z, x),
        times(y - z, x) == times(y, x) - times(z, x),
{
    reveal(times);
    assert(x * (y + z) == x * y + x * z) by (nonlinear_arith);
    assert(x * (y - z) == x * y - x * z) by (nonlinear_arith);
    assert((y + z) * x == y * x + z * x) by (nonlinear_arith);
    assert((y - z) * x == y * x - z * x) by (nonlinear_arith);
}

pub proof fn lemma_units(x: real)
    ensures
        times(0 as real, x) == 0 as real,
        times(x, 0 as real) == 0 as real,
        times(1 as real, x) == x,
        times(x, 1 as real) == x,
        times(x, x) >= 0 as real,
        times(x, x) == 0 as real ==> x == 0 as real,
{
    reveal(times);
    assert(0 as real * x == 0 as real) by (nonlinear_arith);
    assert(x * 0 as real == 0 as real) by (nonlinear_arith);
    assert(1 as real * x == x) by (nonlinear_arith);
    assert(x * 1 as real == x) by (nonlinear_arith);
    assert(x * x >= 0 as real) by (nonlinear_arith);
    assert(x * x == 0 as real ==> x == 0 as real) by (nonlinear_arith);
}

/// A product with a positive factor has the sign of the other.
pub proof fn lemma_positive(x: real, y: real)
    requires
        x >= 0 as real,
        y > 0 as real,
    ensures
        times(x, y) >= 0 as real,
        times(x, y) == 0 as real ==> x == 0 as real,
{
    reveal(times);
    assert(x * y >= 0 as real) by (nonlinear_arith)
        requires
            x >= 0 as real,
            y > 0 as real,
    ;
    assert(x * y == 0 as real ==> x == 0 as real) by (nonlinear_arith)
        requires
            y > 0 as real,
    ;
}

pub proof fn lemma_sum_equal(f: spec_fn(int) -> real, g: spec_fn(int) -> real, n: int)
    requires
        forall|k: int| 0 <= k < n ==> #[trigger] f(k) == g(k),
    ensures
        sum(f, n) == sum(g, n),
    decreases n,
{
    if n > 0 {
        lemma_sum_equal(f, g, n - 1);
        assert(f(n - 1) == g(n - 1));
    }
}

pub proof fn lemma_sum_zeros(f: spec_fn(int) -> real, n: int)
    requires
        forall|k: int| 0 <= k < n ==> #[trigger] f(k) == 0 as real,
    ensures
        sum(f, n) == 0 as real,
    decreases n,
{
    if n > 0 {
        lemma_sum_zeros(f, n - 1);
        assert(f(n - 1) == 0 as real);
    }
}

pub proof fn lemma_sum_adds(
    f: spec_fn(int) -> real,
    g: spec_fn(int) -> real,
    h: spec_fn(int) -> real,
    n: int,
)
    requires
        forall|k: int| 0 <= k < n ==> #[trigger] h(k) == f(k) + g(k),
    ensures
        sum(h, n) == sum(f, n) + sum(g, n),
    decreases n,
{
    if n > 0 {
        lemma_sum_adds(f, g, h, n - 1);
        assert(h(n - 1) == f(n - 1) + g(n - 1));
    }
}

pub proof fn lemma_sum_scales(f: spec_fn(int) -> real, g: spec_fn(int) -> real, c: real, n: int)
    requires
        forall|k: int| 0 <= k < n ==> #[trigger] g(k) == times(c, f(k)),
    ensures
        sum(g, n) == times(c, sum(f, n)),
    decreases n,
{
    if n > 0 {
        lemma_sum_scales(f, g, c, n - 1);
        assert(g(n - 1) == times(c, f(n - 1)));
        lemma_distributes(c, sum(f, n - 1), f(n - 1));
    } else {
        lemma_units(c);
    }
}

/// Only one term is not zero.
pub proof fn lemma_sum_single(f: spec_fn(int) -> real, n: int, j: int)
    requires
        0 <= j < n,
        forall|k: int| 0 <= k < n && k != j ==> #[trigger] f(k) == 0 as real,
    ensures
        sum(f, n) == f(j),
    decreases n,
{
    if j == n - 1 {
        lemma_sum_zeros(f, n - 1);
    } else {
        lemma_sum_single(f, n - 1, j);
        assert(f(n - 1) == 0 as real);
    }
}

/// Sums that differ in two terms whose sum is the same are the same.
pub proof fn lemma_sum_two(
    f: spec_fn(int) -> real,
    g: spec_fn(int) -> real,
    n: int,
    left: int,
    right: int,
)
    requires
        0 <= left < right,
        forall|k: int| 0 <= k < n && k != left && k != right ==> #[trigger] f(k) == g(k),
    ensures
        n > right && f(left) + f(right) == g(left) + g(right) ==> sum(f, n) == sum(g, n),
        n <= left ==> sum(f, n) == sum(g, n),
        left < n <= right ==> sum(f, n) - sum(g, n) == f(left) - g(left),
        n > right ==> sum(f, n) - sum(g, n) == f(left) - g(left) + f(right) - g(right),
    decreases n,
{
    if n > 0 {
        lemma_sum_two(f, g, n - 1, left, right);
        if n - 1 != left && n - 1 != right {
            assert(f(n - 1) == g(n - 1));
        }
    }
}

pub proof fn lemma_sum_order(f: spec_fn(int) -> real, g: spec_fn(int) -> real, n: int)
    requires
        forall|k: int| 0 <= k < n ==> #[trigger] f(k) <= g(k),
    ensures
        sum(f, n) <= sum(g, n),
    decreases n,
{
    if n > 0 {
        lemma_sum_order(f, g, n - 1);
        assert(f(n - 1) <= g(n - 1));
    }
}

/// Terms that are ordered and have equal sums are equal.
pub proof fn lemma_sum_tight(f: spec_fn(int) -> real, g: spec_fn(int) -> real, n: int, j: int)
    requires
        forall|k: int| 0 <= k < n ==> #[trigger] f(k) <= g(k),
        sum(f, n) >= sum(g, n),
        0 <= j < n,
    ensures
        f(j) == g(j),
    decreases n,
{
    lemma_sum_order(f, g, n - 1);
    assert(f(n - 1) <= g(n - 1));
    if j < n - 1 {
        lemma_sum_tight(f, g, n - 1, j);
    }
}

/// A sum goes on where another leaves off.
pub proof fn lemma_sum_splits(
    f: spec_fn(int) -> real,
    g: spec_fn(int) -> real,
    m: int,
    n: int,
)
    requires
        0 <= m,
        0 <= n,
        forall|k: int| 0 <= k < n ==> #[trigger] g(k) == f(m + k),
    ensures
        sum(f, m + n) == sum(f, m) + sum(g, n),
    decreases n,
{
    if n > 0 {
        lemma_sum_splits(f, g, m, n - 1);
        assert(g(n - 1) == f(m + (n - 1)));
    }
}

/// The sums of the rows.
pub open spec fn row_sums(f: spec_fn(int, int) -> real, n: int) -> spec_fn(int) -> real {
    |i: int| sum(row(f, i), n)
}

/// The sums of the columns.
pub open spec fn column_sums(f: spec_fn(int, int) -> real, m: int) -> spec_fn(int) -> real {
    |j: int| sum(column(f, j), m)
}

/// Sums over rows and columns can be taken in either order.
pub proof fn lemma_sum_swaps(f: spec_fn(int, int) -> real, m: int, n: int)
    requires
        0 <= m,
    ensures
        sum(row_sums(f, n), m) == sum(column_sums(f, m), n),
    decreases m,
{
    let all = column_sums(f, m);
    if m == 0 {
        assert forall|j: int| 0 <= j < n implies #[trigger] all(j) == 0 as real by {}
        lemma_sum_zeros(all, n);
    } else {
        lemma_sum_swaps(f, m - 1, n);
        let fewer = column_sums(f, m - 1);
        let last = row(f, m - 1);
        assert forall|j: int| 0 <= j < n implies #[trigger] all(j) == fewer(j) + last(j) by {
            assert(column(f, j)(m - 1) == f(m - 1, j));
        }
        lemma_sum_adds(fewer, last, all, n);
        assert(row_sums(f, n)(m - 1) == sum(last, n));
    }
}

pub proof fn lemma_dot_equal(
    a: spec_fn(int) -> real,
    b: spec_fn(int) -> real,
    c: spec_fn(int) -> real,
    d: spec_fn(int) -> real,
    n: int,
)
    requires
        forall|k: int| 0 <= k < n ==> #[trigger] a(k) == c(k),
        forall|k: int| 0 <= k < n ==> #[trigger] b(k) == d(k),
    ensures
        dot(a, b, n) == dot(c, d, n),
{
    let f = products(a, b);
    let g = products(c, d);
    assert forall|k: int| 0 <= k < n implies #[trigger] f(k) == g(k) by {
        assert(a(k) == c(k) && b(k) == d(k));
    }
    lemma_sum_equal(f, g, n);
}

pub proof fn lemma_dot_commutes(a: spec_fn(int) -> real, b: spec_fn(int) -> real, n: int)
    ensures
        dot(a, b, n) == dot(b, a, n),
{
    let f = products(a, b);
    let g = products(b, a);
    assert forall|k: int| 0 <= k < n implies #[trigger] f(k) == g(k) by {
        lemma_commutes(a(k), b(k));
    }
    lemma_sum_equal(f, g, n);
}

/// The dot product of a combination: `c` holds `p` times `a` plus `q` times `b`.
pub proof fn lemma_dot_combines(
    a: spec_fn(int) -> real,
    b: spec_fn(int) -> real,
    c: spec_fn(int) -> real,
    p: real,
    q: real,
    d: spec_fn(int) -> real,
    n: int,
)
    requires
        forall|k: int| 0 <= k < n ==> #[trigger] c(k) == times(p, a(k)) + times(q, b(k)),
    ensures
        dot(c, d, n) == times(p, dot(a, d, n)) + times(q, dot(b, d, n)),
{
    let fa = products(a, d);
    let fb = products(b, d);
    let ga = |k: int| times(p, fa(k));
    let gb = |k: int| times(q, fb(k));
    let whole = products(c, d);
    lemma_sum_scales(fa, ga, p, n);
    lemma_sum_scales(fb, gb, q, n);
    assert forall|k: int| 0 <= k < n implies #[trigger] whole(k) == ga(k) + gb(k) by {
        assert(c(k) == times(p, a(k)) + times(q, b(k)));
        lemma_distributes(d(k), times(p, a(k)), times(q, b(k)));
        lemma_associates(p, a(k), d(k));
        lemma_associates(q, b(k), d(k));
    }
    lemma_sum_adds(ga, gb, whole, n);
}

/// A matrix times a vector, against a third: the columns take over.
pub proof fn lemma_applied_dot(
    m: spec_fn(int, int) -> real,
    z: spec_fn(int) -> real,
    u: spec_fn(int) -> real,
    rows: int,
    cols: int,
)
    requires
        0 <= rows,
    ensures
        dot(applied(m, z, cols), u, rows) == dot(z, projected(m, u, rows), cols),
{
    let f = |i: int, j: int| times(times(m(i, j), z(j)), u(i));
    let left = products(applied(m, z, cols), u);
    let right = products(z, projected(m, u, rows));
    let by_row = row_sums(f, cols);
    let by_column = column_sums(f, rows);
    assert forall|i: int| 0 <= i < rows implies #[trigger] left(i) == by_row(i) by {
        let g = products(row(m, i), z);
        let h = row(f, i);
        assert forall|j: int| 0 <= j < cols implies #[trigger] h(j) == times(u(i), g(j)) by {
            lemma_commutes(times(m(i, j), z(j)), u(i));
        }
        lemma_sum_scales(g, h, u(i), cols);
        lemma_commutes(sum(g, cols), u(i));
    }
    assert forall|j: int| 0 <= j < cols implies #[trigger] right(j) == by_column(j) by {
        let g = products(column(m, j), u);
        let h = column(f, j);
        assert forall|i: int| 0 <= i < rows implies #[trigger] h(i) == times(z(j), g(i)) by {
            lemma_commutes(m(i, j), z(j));
            lemma_associates(z(j), m(i, j), u(i));
        }
        lemma_sum_scales(g, h, z(j), rows);
    }
    lemma_sum_equal(left, by_row, rows);
    lemma_sum_equal(right, by_column, cols);
    lemma_sum_swaps(f, rows, cols);
}

/// The squared length of a difference.
pub proof fn lemma_square_minus(a: spec_fn(int) -> real, b: spec_fn(int) -> real, n: int)
    ensures
        square(minus(a, b), n) == square(a, n) - dot(a, b, n) - dot(a, b, n) + square(b, n),
    decreases n,
{
    if n > 0 {
        lemma_square_minus(a, b, n - 1);
        let x = a(n - 1);
        let y = b(n - 1);
        lemma_distributes(x - y, x, y);
        lemma_distributes(x, x, y);
        lemma_distributes(y, x, y);
        lemma_commutes(x, y);
    }
}

pub proof fn lemma_square_not_negative(a: spec_fn(int) -> real, n: int)
    ensures
        square(a, n) >= 0 as real,
    decreases n,
{
    if n > 0 {
        lemma_square_not_negative(a, n - 1);
        lemma_units(a(n - 1));
    }
}

/// A vector of squared length zero is zero.
pub proof fn lemma_square_zero(a: spec_fn(int) -> real, n: int, k: int)
    requires
        square(a, n) == 0 as real,
        0 <= k < n,
    ensures
        a(k) == 0 as real,
    decreases n,
{
    lemma_square_not_negative(a, n - 1);
    lemma_units(a(n - 1));
    if k < n - 1 {
        lemma_square_zero(a, n - 1, k);
    }
}

} // verus!
