//! The decomposition in exact arithmetic: plane rotations keep what they turn,
//! and the solution built from orthogonal columns is the minimizer of least norm.
use crate::vectors;
use vstd::prelude::*;

verus! {

/// One where two places are the same, and zero elsewhere.
pub open spec fn unit(j: int, k: int) -> real {
    if j == k {
        1 as real
    } else {
        0 as real
    }
}

/// The columns of a square matrix, and its rows, have length one and are
/// orthogonal to each other.
pub open spec fn orthogonal(v: spec_fn(int, int) -> real, n: int) -> bool {
    &&& forall|j: int, k: int|
        0 <= j < n && 0 <= k < n ==> #[trigger] vectors::dot(
            vectors::column(v, j),
            vectors::column(v, k),
            n,
        ) == unit(j, k)
    &&& forall|j: int, k: int|
        0 <= j < n && 0 <= k < n ==> #[trigger] vectors::dot(
            vectors::row(v, j),
            vectors::row(v, k),
            n,
        ) == unit(j, k)
}

/// `w` is the matrix `b` times the square matrix `v`.
pub open spec fn is_product(
    b: spec_fn(int, int) -> real,
    v: spec_fn(int, int) -> real,
    w: spec_fn(int, int) -> real,
    rows: int,
    n: int,
) -> bool {
    forall|i: int, j: int|
        0 <= i < rows && 0 <= j < n ==> #[trigger] w(i, j) == vectors::dot(
            vectors::row(b, i),
            vectors::column(v, j),
            n,
        )
}

/// Two columns turned by an angle.
pub open spec fn turned(
    m: spec_fn(int, int) -> real,
    left: int,
    right: int,
    cosine: real,
    sine: real,
) -> spec_fn(int, int) -> real {
    |i: int, j: int|
        if j == left {
            vectors::times(cosine, m(i, left)) + vectors::times(-sine, m(i, right))
        } else if j == right {
            vectors::times(sine, m(i, left)) + vectors::times(cosine, m(i, right))
        } else {
            m(i, j)
        }
}

/// The weights of the two turned columns in a column after a rotation.
spec fn weights(j: int, left: int, cosine: real, sine: real) -> (real, real) {
    if j == left {
        (cosine, -sine)
    } else {
        (sine, cosine)
    }
}

/// A rotation of the columns goes through to every product.
proof fn lemma_turned_dot(
    m: spec_fn(int, int) -> real,
    left: int,
    right: int,
    cosine: real,
    sine: real,
    j: int,
    d: spec_fn(int) -> real,
    rows: int,
)
    requires
        left != right,
        j == left || j == right,
    ensures
        vectors::dot(vectors::column(turned(m, left, right, cosine, sine), j), d, rows)
            == vectors::times(
            weights(j, left, cosine, sine).0,
            vectors::dot(vectors::column(m, left), d, rows),
        ) + vectors::times(
            weights(j, left, cosine, sine).1,
            vectors::dot(vectors::column(m, right), d, rows),
        ),
{
    let (p, q) = weights(j, left, cosine, sine);
    vectors::lemma_dot_combines(
        vectors::column(m, left),
        vectors::column(m, right),
        vectors::column(turned(m, left, right, cosine, sine), j),
        p,
        q,
        d,
        rows,
    );
}

/// Rotations keep the factors together: where `w` is `b` times `v`, it is so
/// after two columns of both were turned by the same angle.
pub proof fn law_rotation_keeps_product(
    b: spec_fn(int, int) -> real,
    v: spec_fn(int, int) -> real,
    w: spec_fn(int, int) -> real,
    rows: int,
    n: int,
    left: int,
    right: int,
    cosine: real,
    sine: real,
)
    requires
        is_product(b, v, w, rows, n),
        0 <= left < right < n,
    ensures
        is_product(
            b,
            turned(v, left, right, cosine, sine),
            turned(w, left, right, cosine, sine),
            rows,
            n,
        ),
{
    let v2 = turned(v, left, right, cosine, sine);
    let w2 = turned(w, left, right, cosine, sine);
    assert forall|i: int, j: int| 0 <= i < rows && 0 <= j < n implies #[trigger] w2(i, j)
        == vectors::dot(vectors::row(b, i), vectors::column(v2, j), n) by {
        let d = vectors::row(b, i);
        vectors::lemma_dot_commutes(d, vectors::column(v2, j), n);
        vectors::lemma_dot_commutes(d, vectors::column(v, left), n);
        vectors::lemma_dot_commutes(d, vectors::column(v, right), n);
        assert(w(i, left) == vectors::dot(d, vectors::column(v, left), n));
        assert(w(i, right) == vectors::dot(d, vectors::column(v, right), n));
        if j == left || j == right {
            lemma_turned_dot(v, left, right, cosine, sine, j, d, n);
        } else {
            assert(w(i, j) == vectors::dot(d, vectors::column(v, j), n));
            vectors::lemma_dot_equal(d, vectors::column(v2, j), d, vectors::column(v, j), n);
            vectors::lemma_dot_commutes(d, vectors::column(v, j), n);
        }
    }
}

/// The dot product of two columns after a rotation, through those before it.
proof fn lemma_turned_columns(
    v: spec_fn(int, int) -> real,
    n: int,
    left: int,
    right: int,
    cosine: real,
    sine: real,
    j: int,
    k: int,
)
    requires
        0 <= left < right < n,
        0 <= j < n,
        0 <= k < n,
        vectors::times(cosine, cosine) + vectors::times(sine, sine) == 1 as real,
        forall|j: int, k: int|
            0 <= j < n && 0 <= k < n ==> #[trigger] vectors::dot(
                vectors::column(v, j),
                vectors::column(v, k),
                n,
            ) == unit(j, k),
    ensures
        vectors::dot(
            vectors::column(turned(v, left, right, cosine, sine), j),
            vectors::column(turned(v, left, right, cosine, sine), k),
            n,
        ) == unit(j, k),
{
    let v2 = turned(v, left, right, cosine, sine);
    let cj = vectors::column(v2, j);
    let ck = vectors::column(v2, k);
    // Against a column before the rotation.
    assert forall|t: int| 0 <= t < n implies #[trigger] vectors::dot(
        ck,
        vectors::column(v, t),
        n,
    ) == if k == left {
        vectors::times(cosine, unit(left, t)) + vectors::times(-sine, unit(right, t))
    } else if k == right {
        vectors::times(sine, unit(left, t)) + vectors::times(cosine, unit(right, t))
    } else {
        unit(k, t)
    } by {
        if k == left || k == right {
            lemma_turned_dot(v, left, right, cosine, sine, k, vectors::column(v, t), n);
        } else {
            vectors::lemma_dot_equal(
                ck,
                vectors::column(v, t),
                vectors::column(v, k),
                vectors::column(v, t),
                n,
            );
        }
    }
    vectors::lemma_units(cosine);
    vectors::lemma_units(sine);
    vectors::lemma_units(-sine);
    vectors::lemma_commutes(cosine, sine);
    vectors::lemma_commutes(-sine, cosine);
    vectors::lemma_distributes(cosine, 0 as real, sine);
    vectors::lemma_distributes(sine, 0 as real, sine);
    vectors::lemma_distributes(-sine, 0 as real, sine);
    vectors::lemma_dot_commutes(vectors::column(v, left), ck, n);
    vectors::lemma_dot_commutes(vectors::column(v, right), ck, n);
    vectors::lemma_dot_commutes(vectors::column(v, j), ck, n);
    assert(0 as real - sine == -sine);
    if j == left || j == right {
        lemma_turned_dot(v, left, right, cosine, sine, j, ck, n);
    } else {
        vectors::lemma_dot_equal(cj, ck, vectors::column(v, j), ck, n);
    }
}

/// Factors of a product change places.
proof fn lemma_pairs(p: real, a: real, q: real, x: real)
    ensures
        vectors::times(vectors::times(p, a), vectors::times(q, x)) == vectors::times(
            vectors::times(p, q),
            vectors::times(a, x),
        ),
{
    vectors::lemma_associates(p, a, vectors::times(q, x));
    vectors::lemma_associates(a, q, x);
    vectors::lemma_commutes(a, q);
    vectors::lemma_associates(q, a, x);
    vectors::lemma_associates(p, q, vectors::times(a, x));
}

/// Two coordinates turned by an angle keep their products.
proof fn lemma_turned_pair(c: real, s: real, a: real, b: real, x: real, y: real)
    requires
        vectors::times(c, c) + vectors::times(s, s) == 1 as real,
    ensures
        vectors::times(
            vectors::times(c, a) + vectors::times(-s, b),
            vectors::times(c, x) + vectors::times(-s, y),
        ) + vectors::times(
            vectors::times(s, a) + vectors::times(c, b),
            vectors::times(s, x) + vectors::times(c, y),
        ) == vectors::times(a, x) + vectors::times(b, y),
{
    let ca = vectors::times(c, a);
    let sb = vectors::times(s, b);
    let cx = vectors::times(c, x);
    let sy = vectors::times(s, y);
    let sa = vectors::times(s, a);
    let cb = vectors::times(c, b);
    let sx = vectors::times(s, x);
    let cy = vectors::times(c, y);
    assert(0 as real - s == -s);
    vectors::lemma_units(b);
    vectors::lemma_units(y);
    vectors::lemma_distributes(b, 0 as real, s);
    vectors::lemma_distributes(y, 0 as real, s);
    assert(vectors::times(-s, b) == -sb);
    assert(vectors::times(-s, y) == -sy);
    assert(ca + vectors::times(-s, b) == ca - sb);
    assert(cx + vectors::times(-s, y) == cx - sy);
    vectors::lemma_distributes(cx - sy, ca, sb);
    vectors::lemma_distributes(ca, cx, sy);
    vectors::lemma_distributes(sb, cx, sy);
    vectors::lemma_distributes(sx + cy, sa, cb);
    vectors::lemma_distributes(sa, sx, cy);
    vectors::lemma_distributes(cb, sx, cy);
    lemma_pairs(c, a, c, x);
    lemma_pairs(s, a, s, x);
    lemma_pairs(s, b, s, y);
    lemma_pairs(c, b, c, y);
    lemma_pairs(c, a, s, y);
    lemma_pairs(s, a, c, y);
    lemma_pairs(s, b, c, x);
    lemma_pairs(c, b, s, x);
    vectors::lemma_commutes(c, s);
    let cc = vectors::times(c, c);
    let ss = vectors::times(s, s);
    let ax = vectors::times(a, x);
    let by = vectors::times(b, y);
    vectors::lemma_distributes(ax, cc, ss);
    vectors::lemma_distributes(by, cc, ss);
    vectors::lemma_units(ax);
    vectors::lemma_units(by);
}

/// Rotations keep the accumulated matrix orthogonal.
pub proof fn law_rotation_keeps_orthogonal(
    v: spec_fn(int, int) -> real,
    n: int,
    left: int,
    right: int,
    cosine: real,
    sine: real,
)
    requires
        orthogonal(v, n),
        0 <= left < right < n,
        vectors::times(cosine, cosine) + vectors::times(sine, sine) == 1 as real,
    ensures
        orthogonal(turned(v, left, right, cosine, sine), n),
{
    let v2 = turned(v, left, right, cosine, sine);
    assert forall|j: int, k: int| 0 <= j < n && 0 <= k < n implies #[trigger] vectors::dot(
        vectors::column(v2, j),
        vectors::column(v2, k),
        n,
    ) == unit(j, k) by {
        lemma_turned_columns(v, n, left, right, cosine, sine, j, k);
    }
    assert forall|j: int, k: int| 0 <= j < n && 0 <= k < n implies #[trigger] vectors::dot(
        vectors::row(v2, j),
        vectors::row(v2, k),
        n,
    ) == unit(j, k) by {
        let f = vectors::products(vectors::row(v2, j), vectors::row(v2, k));
        let g = vectors::products(vectors::row(v, j), vectors::row(v, k));
        lemma_turned_pair(cosine, sine, v(j, left), v(j, right), v(k, left), v(k, right));
        vectors::lemma_sum_two(f, g, n, left, right);
        assert(vectors::dot(vectors::row(v, j), vectors::row(v, k), n) == unit(j, k));
    }
}

/// One rotation: the columns that it turns, its cosine and its sine.
pub struct Rotation {
    pub left: int,
    pub right: int,
    pub cosine: real,
    pub sine: real,
}

impl Rotation {
    /// The rotation turns two of `n` columns by some angle.
    pub open spec fn valid(self, n: int) -> bool {
        &&& 0 <= self.left < self.right < n
        &&& vectors::times(self.cosine, self.cosine) + vectors::times(self.sine, self.sine)
            == 1 as real
    }
}

/// A matrix after a list of rotations.
pub open spec fn after(m: spec_fn(int, int) -> real, rotations: Seq<Rotation>) -> spec_fn(
    int,
    int,
) -> real
    decreases rotations.len(),
{
    if rotations.len() == 0 {
        m
    } else {
        let last = rotations.last();
        turned(
            after(m, rotations.drop_last()),
            last.left,
            last.right,
            last.cosine,
            last.sine,
        )
    }
}

/// The identity matrix.
pub open spec fn identity() -> spec_fn(int, int) -> real {
    |i: int, j: int| unit(i, j)
}

/// Whatever rotations are made, the accumulated ones are an orthogonal matrix,
/// and the turned matrix is the first one times it.
pub proof fn law_rotations(
    b: spec_fn(int, int) -> real,
    rows: int,
    n: int,
    rotations: Seq<Rotation>,
)
    requires
        0 <= n,
        forall|k: int| 0 <= k < rotations.len() ==> (#[trigger] rotations[k]).valid(n),
    ensures
        orthogonal(after(identity(), rotations), n),
        is_product(b, after(identity(), rotations), after(b, rotations), rows, n),
    decreases rotations.len(),
{
    if rotations.len() == 0 {
        let e = identity();
        assert forall|j: int, k: int| 0 <= j < n && 0 <= k < n implies #[trigger] vectors::dot(
            vectors::column(e, j),
            vectors::column(e, k),
            n,
        ) == unit(j, k) by {
            let f = vectors::products(vectors::column(e, j), vectors::column(e, k));
            vectors::lemma_units(0 as real);
            vectors::lemma_units(1 as real);
            vectors::lemma_sum_single(f, n, j);
        }
        assert forall|j: int, k: int| 0 <= j < n && 0 <= k < n implies #[trigger] vectors::dot(
            vectors::row(e, j),
            vectors::row(e, k),
            n,
        ) == unit(j, k) by {
            let f = vectors::products(vectors::row(e, j), vectors::row(e, k));
            vectors::lemma_units(0 as real);
            vectors::lemma_units(1 as real);
            vectors::lemma_sum_single(f, n, j);
        }
        assert forall|i: int, j: int| 0 <= i < rows && 0 <= j < n implies #[trigger] b(i, j)
            == vectors::dot(vectors::row(b, i), vectors::column(e, j), n) by {
            let f = vectors::products(vectors::row(b, i), vectors::column(e, j));
            assert forall|k: int| 0 <= k < n && k != j implies #[trigger] f(k) == 0 as real by {
                vectors::lemma_units(b(i, k));
            }
            vectors::lemma_units(b(i, j));
            vectors::lemma_sum_single(f, n, j);
        }
    } else {
        let before = rotations.drop_last();
        let last = rotations.last();
        assert forall|k: int| 0 <= k < before.len() implies (#[trigger] before[k]).valid(n) by {
            assert(rotations[k].valid(n));
        }
        assert(rotations[rotations.len() - 1].valid(n));
        law_rotations(b, rows, n, before);
        law_rotation_keeps_orthogonal(
            after(identity(), before),
            n,
            last.left,
            last.right,
            last.cosine,
            last.sine,
        );
        law_rotation_keeps_product(
            b,
            after(identity(), before),
            after(b, before),
            rows,
            n,
            last.left,
            last.right,
            last.cosine,
            last.sine,
        );
    }
}

/// A vector is what its coordinates in the orthogonal columns make.
proof fn lemma_coordinates(v: spec_fn(int, int) -> real, y: spec_fn(int) -> real, n: int, i: int)
    requires
        orthogonal(v, n),
        0 <= i < n,
    ensures
        vectors::applied(v, vectors::projected(v, y, n), n)(i) == y(i),
{
    let r = vectors::row(v, i);
    vectors::lemma_applied_dot(v, r, y, n, n);
    let e = vectors::applied(v, r, n);
    let f = vectors::products(e, y);
    assert(e(i) == 1 as real) by {
        assert(vectors::dot(vectors::row(v, i), r, n) == unit(i, i));
    }
    assert forall|k: int| 0 <= k < n && k != i implies #[trigger] f(k) == 0 as real by {
        assert(vectors::dot(vectors::row(v, k), r, n) == unit(k, i));
        vectors::lemma_units(y(k));
    }
    vectors::lemma_units(y(i));
    vectors::lemma_sum_single(f, n, i);
}

/// Orthogonal columns, against a combination of them: one of them counts.
proof fn lemma_column_counts(
    w: spec_fn(int, int) -> real,
    z: spec_fn(int) -> real,
    rows: int,
    n: int,
    j: int,
)
    requires
        0 <= rows,
        0 <= j < n,
        apart(w, rows, n),
    ensures
        vectors::dot(vectors::column(w, j), vectors::applied(w, z, n), rows) == vectors::times(
            z(j),
            vectors::square(vectors::column(w, j), rows),
        ),
{
    let u = vectors::column(w, j);
    vectors::lemma_dot_commutes(u, vectors::applied(w, z, n), rows);
    vectors::lemma_applied_dot(w, z, u, rows, n);
    let f = vectors::products(z, vectors::projected(w, u, rows));
    assert forall|k: int| 0 <= k < n && k != j implies #[trigger] f(k) == 0 as real by {
        assert(vectors::dot(vectors::column(w, k), u, rows) == 0 as real);
        vectors::lemma_units(z(k));
    }
    vectors::lemma_sum_single(f, n, j);
}

/// The columns of a matrix are orthogonal to each other.
pub open spec fn apart(w: spec_fn(int, int) -> real, rows: int, n: int) -> bool {
    forall|j: int, k: int|
        0 <= j < n && 0 <= k < n && j != k ==> #[trigger] vectors::dot(
            vectors::column(w, j),
            vectors::column(w, k),
            rows,
        ) == 0 as real
}

/// An orthogonal matrix keeps lengths.
proof fn lemma_keeps_length(v: spec_fn(int, int) -> real, z: spec_fn(int) -> real, n: int)
    requires
        0 <= n,
        orthogonal(v, n),
    ensures
        vectors::square(vectors::applied(v, z, n), n) == vectors::square(z, n),
{
    let x = vectors::applied(v, z, n);
    vectors::lemma_applied_dot(v, z, x, n, n);
    let p = vectors::projected(v, x, n);
    assert(apart(v, n, n));
    assert forall|j: int| 0 <= j < n implies #[trigger] p(j) == z(j) by {
        lemma_column_counts(v, z, n, n, j);
        assert(vectors::dot(vectors::column(v, j), vectors::column(v, j), n) == unit(j, j));
        vectors::lemma_units(z(j));
    }
    vectors::lemma_dot_equal(z, p, z, z, n);
}

/// The transpose of an orthogonal matrix keeps lengths.
proof fn lemma_coordinates_keep_length(
    v: spec_fn(int, int) -> real,
    y: spec_fn(int) -> real,
    n: int,
)
    requires
        0 <= n,
        orthogonal(v, n),
    ensures
        vectors::square(vectors::projected(v, y, n), n) == vectors::square(y, n),
{
    let z = vectors::projected(v, y, n);
    let x = vectors::applied(v, z, n);
    assert forall|i: int| 0 <= i < n implies #[trigger] x(i) == y(i) by {
        lemma_coordinates(v, y, n, i);
    }
    vectors::lemma_dot_equal(x, x, y, y, n);
    lemma_keeps_length(v, z, n);
}

/// A matrix times a combination of the columns of `v` is the same combination
/// of the columns of the product.
proof fn lemma_through_product(
    a: spec_fn(int, int) -> real,
    v: spec_fn(int, int) -> real,
    w: spec_fn(int, int) -> real,
    z: spec_fn(int) -> real,
    rows: int,
    n: int,
    i: int,
)
    requires
        0 <= n,
        0 <= i < rows,
        is_product(a, v, w, rows, n),
    ensures
        vectors::applied(a, vectors::applied(v, z, n), n)(i) == vectors::applied(w, z, n)(i),
{
    let r = vectors::row(a, i);
    let x = vectors::applied(v, z, n);
    vectors::lemma_dot_commutes(r, x, n);
    vectors::lemma_applied_dot(v, z, r, n, n);
    let p = vectors::projected(v, r, n);
    let q = vectors::row(w, i);
    assert forall|j: int| 0 <= j < n implies #[trigger] p(j) == q(j) by {
        vectors::lemma_dot_commutes(vectors::column(v, j), r, n);
        assert(w(i, j) == vectors::dot(r, vectors::column(v, j), n));
    }
    vectors::lemma_dot_equal(z, p, z, q, n);
    vectors::lemma_dot_commutes(z, q, n);
}

/// The squared length of the residual of `a x = b`.
pub open spec fn residual(
    a: spec_fn(int, int) -> real,
    x: spec_fn(int) -> real,
    b: spec_fn(int) -> real,
    rows: int,
    cols: int,
) -> real {
    vectors::square(vectors::minus(vectors::applied(a, x, cols), b), rows)
}

/// `x` leaves no larger residual than any other vector, and is no longer than
/// any that leaves as small a one.
pub open spec fn is_least(
    a: spec_fn(int, int) -> real,
    x: spec_fn(int) -> real,
    b: spec_fn(int) -> real,
    rows: int,
    cols: int,
) -> bool {
    forall|y: spec_fn(int) -> real|
        {
            &&& residual(a, x, b, rows, cols) <= #[trigger] residual(a, y, b, rows, cols)
            &&& residual(a, y, b, rows, cols) == residual(a, x, b, rows, cols) ==> vectors::square(
                x,
                cols,
            ) <= vectors::square(y, cols)
        }
}

/// `share` is `part` over `whole`, and zero where `whole` is zero.
pub open spec fn is_share(share: real, whole: real, part: real) -> bool {
    if whole == 0 as real {
        share == 0 as real
    } else {
        vectors::times(share, whole) == part
    }
}

/// What one coordinate adds to the squared residual.
spec fn cost(z: real, s: real, p: real) -> real {
    vectors::times(z, vectors::times(z, s)) - vectors::times(z, p) - vectors::times(z, p)
}

spec fn costs(
    z: spec_fn(int) -> real,
    s: spec_fn(int) -> real,
    p: spec_fn(int) -> real,
) -> spec_fn(int) -> real {
    |j: int| cost(z(j), s(j), p(j))
}

/// The share costs least, and where another number costs as little, the share
/// is that number or zero.
proof fn lemma_share_costs_least(c: real, z: real, s: real, p: real)
    requires
        s >= 0 as real,
        s == 0 as real ==> p == 0 as real,
        is_share(c, s, p),
    ensures
        cost(c, s, p) <= cost(z, s, p),
        cost(c, s, p) == cost(z, s, p) ==> vectors::times(c, c) <= vectors::times(z, z),
{
    vectors::lemma_units(c);
    vectors::lemma_units(z);
    if s == 0 as real {
        vectors::lemma_units(0 as real);
    } else {
        let d = z - c;
        let zs = vectors::times(z, s);
        vectors::lemma_distributes(s, z, c);
        vectors::lemma_distributes(zs - p, z, c);
        vectors::lemma_distributes(z, zs, p);
        vectors::lemma_distributes(c, zs, p);
        vectors::lemma_associates(c, z, s);
        vectors::lemma_commutes(c, z);
        vectors::lemma_associates(z, c, s);
        assert(vectors::times(d, vectors::times(d, s)) == cost(z, s, p) - cost(c, s, p));
        vectors::lemma_associates(d, d, s);
        vectors::lemma_units(d);
        vectors::lemma_positive(vectors::times(d, d), s);
    }
}

proof fn lemma_costs_sum(
    z: spec_fn(int) -> real,
    s: spec_fn(int) -> real,
    p: spec_fn(int) -> real,
    r: spec_fn(int) -> real,
    n: int,
)
    requires
        forall|j: int| 0 <= j < n ==> #[trigger] r(j) == vectors::times(z(j), s(j)),
    ensures
        vectors::sum(costs(z, s, p), n) == vectors::dot(z, r, n) - vectors::dot(z, p, n)
            - vectors::dot(z, p, n),
    decreases n,
{
    if n > 0 {
        lemma_costs_sum(z, s, p, r, n - 1);
        assert(r(n - 1) == vectors::times(z(n - 1), s(n - 1)));
    }
}

/// The squared lengths of the columns.
pub open spec fn squares(w: spec_fn(int, int) -> real, rows: int) -> spec_fn(int) -> real {
    |j: int| vectors::square(vectors::column(w, j), rows)
}

/// The residual of a combination of the columns of `v`, by its coordinates.
proof fn lemma_residual(
    a: spec_fn(int, int) -> real,
    v: spec_fn(int, int) -> real,
    w: spec_fn(int, int) -> real,
    z: spec_fn(int) -> real,
    y: spec_fn(int) -> real,
    b: spec_fn(int) -> real,
    rows: int,
    n: int,
)
    requires
        0 <= rows,
        0 <= n,
        is_product(a, v, w, rows, n),
        apart(w, rows, n),
        forall|i: int| 0 <= i < n ==> #[trigger] y(i) == vectors::applied(v, z, n)(i),
    ensures
        residual(a, y, b, rows, n) == vectors::sum(
            costs(z, squares(w, rows), vectors::projected(w, b, rows)),
            n,
        ) + vectors::square(b, rows),
{
    let image = vectors::applied(a, y, n);
    let same = vectors::applied(w, z, n);
    let x = vectors::applied(v, z, n);
    assert forall|i: int| 0 <= i < rows implies #[trigger] image(i) == same(i) by {
        lemma_through_product(a, v, w, z, rows, n, i);
        vectors::lemma_dot_equal(vectors::row(a, i), y, vectors::row(a, i), x, n);
    }
    vectors::lemma_square_minus(image, b, rows);
    vectors::lemma_dot_equal(image, image, same, same, rows);
    vectors::lemma_dot_equal(image, b, same, b, rows);
    vectors::lemma_applied_dot(w, z, b, rows, n);
    vectors::lemma_applied_dot(w, z, same, rows, n);
    let r = vectors::projected(w, same, rows);
    let s = squares(w, rows);
    assert forall|j: int| 0 <= j < n implies #[trigger] r(j) == vectors::times(z(j), s(j)) by {
        lemma_column_counts(w, z, rows, n, j);
    }
    lemma_costs_sum(z, s, vectors::projected(w, b, rows), r, n);
}

/// A column of length zero is orthogonal to everything.
proof fn lemma_zero_column(u: spec_fn(int) -> real, b: spec_fn(int) -> real, rows: int)
    requires
        vectors::square(u, rows) == 0 as real,
    ensures
        vectors::dot(u, b, rows) == 0 as real,
{
    let f = vectors::products(u, b);
    assert forall|k: int| 0 <= k < rows implies #[trigger] f(k) == 0 as real by {
        vectors::lemma_square_zero(u, rows, k);
        vectors::lemma_units(b(k));
    }
    vectors::lemma_sum_zeros(f, rows);
}

/// Least squares from a decomposition with at least as many rows as columns.
/// Let `w` be `a` times an orthogonal matrix `v`, with columns orthogonal to
/// each other. Let each coordinate be the product of its column with `b` over
/// the column's squared length, and zero for a column of zeros. Then `v` times
/// the coordinates is the shortest vector of least residual.
pub proof fn law_tall(
    a: spec_fn(int, int) -> real,
    v: spec_fn(int, int) -> real,
    w: spec_fn(int, int) -> real,
    c: spec_fn(int) -> real,
    b: spec_fn(int) -> real,
    rows: int,
    n: int,
)
    requires
        0 <= rows,
        0 <= n,
        orthogonal(v, n),
        is_product(a, v, w, rows, n),
        apart(w, rows, n),
        forall|j: int|
            0 <= j < n ==> is_share(
                #[trigger] c(j),
                squares(w, rows)(j),
                vectors::projected(w, b, rows)(j),
            ),
    ensures
        is_least(a, vectors::applied(v, c, n), b, rows, n),
{
    let x = vectors::applied(v, c, n);
    let s = squares(w, rows);
    let p = vectors::projected(w, b, rows);
    lemma_residual(a, v, w, c, x, b, rows, n);
    lemma_keeps_length(v, c, n);
    assert forall|y: spec_fn(int) -> real|
        {
            &&& residual(a, x, b, rows, n) <= #[trigger] residual(a, y, b, rows, n)
            &&& residual(a, y, b, rows, n) == residual(a, x, b, rows, n) ==> vectors::square(x, n)
                <= vectors::square(y, n)
        } by {
        let z = vectors::projected(v, y, n);
        assert forall|i: int| 0 <= i < n implies #[trigger] y(i) == vectors::applied(v, z, n)(
            i,
        ) by {
            lemma_coordinates(v, y, n, i);
        }
        lemma_residual(a, v, w, z, y, b, rows, n);
        lemma_coordinates_keep_length(v, y, n);
        let f = costs(c, s, p);
        let g = costs(z, s, p);
        assert forall|j: int| 0 <= j < n implies #[trigger] f(j) <= g(j) by {
            lemma_tall_costs(w, c, z, b, rows, n, j);
        }
        vectors::lemma_sum_order(f, g, n);
        if residual(a, y, b, rows, n) == residual(a, x, b, rows, n) {
            let cc = vectors::products(c, c);
            let zz = vectors::products(z, z);
            assert forall|j: int| 0 <= j < n implies #[trigger] cc(j) <= zz(j) by {
                lemma_tall_costs(w, c, z, b, rows, n, j);
                vectors::lemma_sum_tight(f, g, n, j);
            }
            vectors::lemma_sum_order(cc, zz, n);
        }
    }
}

proof fn lemma_tall_costs(
    w: spec_fn(int, int) -> real,
    c: spec_fn(int) -> real,
    z: spec_fn(int) -> real,
    b: spec_fn(int) -> real,
    rows: int,
    n: int,
    j: int,
)
    requires
        0 <= j < n,
        is_share(c(j), squares(w, rows)(j), vectors::projected(w, b, rows)(j)),
    ensures
        costs(c, squares(w, rows), vectors::projected(w, b, rows))(j) <= costs(
            z,
            squares(w, rows),
            vectors::projected(w, b, rows),
        )(j),
        costs(c, squares(w, rows), vectors::projected(w, b, rows))(j) == costs(
            z,
            squares(w, rows),
            vectors::projected(w, b, rows),
        )(j) ==> vectors::times(c(j), c(j)) <= vectors::times(z(j), z(j)),
{
    let u = vectors::column(w, j);
    vectors::lemma_square_not_negative(u, rows);
    if vectors::square(u, rows) == 0 as real {
        lemma_zero_column(u, b, rows);
    }
    lemma_share_costs_least(
        c(j),
        z(j),
        squares(w, rows)(j),
        vectors::projected(w, b, rows)(j),
    );
}

/// The transpose of a matrix.
pub open spec fn transposed(a: spec_fn(int, int) -> real) -> spec_fn(int, int) -> real {
    |i: int, j: int| a(j, i)
}

/// The image of a vector, in the coordinates of `v`: its products with the
/// columns of `w`.
proof fn lemma_image(
    a: spec_fn(int, int) -> real,
    v: spec_fn(int, int) -> real,
    w: spec_fn(int, int) -> real,
    y: spec_fn(int) -> real,
    m: int,
    n: int,
    j: int,
)
    requires
        0 <= m,
        0 <= n,
        0 <= j < m,
        is_product(transposed(a), v, w, n, m),
    ensures
        vectors::dot(vectors::column(v, j), vectors::applied(a, y, n), m) == vectors::projected(
            w,
            y,
            n,
        )(j),
{
    let u = vectors::column(v, j);
    vectors::lemma_dot_commutes(u, vectors::applied(a, y, n), m);
    vectors::lemma_applied_dot(a, y, u, m, n);
    let p = vectors::projected(a, u, m);
    let q = vectors::column(w, j);
    assert forall|k: int| 0 <= k < n implies #[trigger] p(k) == q(k) by {
        assert(w(k, j) == vectors::dot(vectors::row(transposed(a), k), u, m));
        vectors::lemma_dot_equal(
            vectors::column(a, k),
            u,
            vectors::row(transposed(a), k),
            u,
            m,
        );
    }
    vectors::lemma_dot_equal(y, p, y, q, n);
    vectors::lemma_dot_commutes(y, q, n);
}

proof fn lemma_dot_minus(
    u: spec_fn(int) -> real,
    a: spec_fn(int) -> real,
    b: spec_fn(int) -> real,
    n: int,
)
    ensures
        vectors::dot(u, vectors::minus(a, b), n) == vectors::dot(u, a, n) - vectors::dot(u, b, n),
    decreases n,
{
    if n > 0 {
        lemma_dot_minus(u, a, b, n - 1);
        vectors::lemma_distributes(u(n - 1), a(n - 1), b(n - 1));
    }
}

/// The squared residual, in the coordinates of `v`.
proof fn lemma_wide_residual(
    a: spec_fn(int, int) -> real,
    v: spec_fn(int, int) -> real,
    w: spec_fn(int, int) -> real,
    y: spec_fn(int) -> real,
    b: spec_fn(int) -> real,
    m: int,
    n: int,
)
    requires
        0 <= m,
        0 <= n,
        orthogonal(v, m),
        is_product(transposed(a), v, w, n, m),
    ensures
        residual(a, y, b, m, n) == vectors::square(
            vectors::minus(vectors::projected(w, y, n), vectors::projected(v, b, m)),
            m,
        ),
{
    let image = vectors::applied(a, y, n);
    let d = vectors::minus(image, b);
    lemma_coordinates_keep_length(v, d, m);
    let p = vectors::projected(v, d, m);
    let q = vectors::minus(vectors::projected(w, y, n), vectors::projected(v, b, m));
    assert forall|j: int| 0 <= j < m implies #[trigger] p(j) == q(j) by {
        lemma_dot_minus(vectors::column(v, j), image, b, m);
        lemma_image(a, v, w, y, m, n, j);
    }
    vectors::lemma_dot_equal(p, p, q, q, m);
}

/// One coordinate of the residual is least at the share, and where another
/// vector's is as small, the vectors agree in it.
proof fn lemma_wide_coordinate(
    w: spec_fn(int, int) -> real,
    g: spec_fn(int) -> real,
    y: spec_fn(int) -> real,
    beta: real,
    m: int,
    n: int,
    j: int,
)
    requires
        0 <= n,
        0 <= j < m,
        apart(w, n, m),
        is_share(g(j), squares(w, n)(j), beta),
    ensures
        ({
            let own = vectors::projected(w, vectors::applied(w, g, m), n)(j);
            let other = vectors::projected(w, y, n)(j);
            &&& vectors::times(own - beta, own - beta) <= vectors::times(
                other - beta,
                other - beta,
            )
            &&& vectors::times(own - beta, own - beta) == vectors::times(
                other - beta,
                other - beta,
            ) ==> own == other
        }),
{
    let x = vectors::applied(w, g, m);
    let u = vectors::column(w, j);
    let own = vectors::projected(w, x, n)(j);
    let other = vectors::projected(w, y, n)(j);
    if squares(w, n)(j) == 0 as real {
        lemma_zero_column(u, x, n);
        lemma_zero_column(u, y, n);
    } else {
        lemma_column_counts(w, g, n, m, j);
        assert(own == beta);
        vectors::lemma_units(0 as real);
        vectors::lemma_units(other - beta);
    }
}

/// Least squares from a decomposition with fewer rows than columns. Let `w` be
/// the transpose of `a` times an orthogonal matrix `v`, with columns orthogonal
/// to each other. Let each coordinate be the product of its column of `v` with
/// `b` over the squared length of its column of `w`, and zero for a column of
/// zeros. Then `w` times the coordinates is the shortest vector of least
/// residual.
pub proof fn law_wide(
    a: spec_fn(int, int) -> real,
    v: spec_fn(int, int) -> real,
    w: spec_fn(int, int) -> real,
    g: spec_fn(int) -> real,
    b: spec_fn(int) -> real,
    m: int,
    n: int,
)
    requires
        0 <= m,
        0 <= n,
        orthogonal(v, m),
        is_product(transposed(a), v, w, n, m),
        apart(w, n, m),
        forall|j: int|
            0 <= j < m ==> is_share(
                #[trigger] g(j),
                squares(w, n)(j),
                vectors::projected(v, b, m)(j),
            ),
    ensures
        is_least(a, vectors::applied(w, g, m), b, m, n),
{
    let x = vectors::applied(w, g, m);
    let beta = vectors::projected(v, b, m);
    let own = vectors::projected(w, x, n);
    lemma_wide_residual(a, v, w, x, b, m, n);
    assert forall|y: spec_fn(int) -> real|
        {
            &&& residual(a, x, b, m, n) <= #[trigger] residual(a, y, b, m, n)
            &&& residual(a, y, b, m, n) == residual(a, x, b, m, n) ==> vectors::square(x, n)
                <= vectors::square(y, n)
        } by {
        let other = vectors::projected(w, y, n);
        lemma_wide_residual(a, v, w, y, b, m, n);
        let f = vectors::products(vectors::minus(own, beta), vectors::minus(own, beta));
        let h = vectors::products(vectors::minus(other, beta), vectors::minus(other, beta));
        assert forall|j: int| 0 <= j < m implies #[trigger] f(j) <= h(j) by {
            assert(is_share(g(j), squares(w, n)(j), beta(j)));
            lemma_wide_coordinate(w, g, y, beta(j), m, n, j);
        }
        vectors::lemma_sum_order(f, h, m);
        if residual(a, y, b, m, n) == residual(a, x, b, m, n) {
            assert forall|j: int| 0 <= j < m implies #[trigger] own(j) == other(j) by {
                assert(is_share(g(j), squares(w, n)(j), beta(j)));
                lemma_wide_coordinate(w, g, y, beta(j), m, n, j);
                vectors::lemma_sum_tight(f, h, m, j);
                assert(f(j) == h(j));
            }
            // The difference to the other vector is orthogonal to the solution.
            vectors::lemma_applied_dot(w, g, y, n, m);
            vectors::lemma_applied_dot(w, g, x, n, m);
            vectors::lemma_dot_equal(g, own, g, other, m);
            vectors::lemma_square_minus(x, y, n);
            vectors::lemma_square_not_negative(vectors::minus(x, y), n);
        }
    }
}

/// A matrix with `rows` rows, and `weight` times the identity below it.
pub open spec fn extended(a: spec_fn(int, int) -> real, weight: real, rows: int) -> spec_fn(
    int,
    int,
) -> real {
    |i: int, j: int|
        if i < rows {
            a(i, j)
        } else if i - rows == j {
            weight
        } else {
            0 as real
        }
}

/// A vector with `rows` coordinates, and zeros behind it.
pub open spec fn padded(b: spec_fn(int) -> real, rows: int) -> spec_fn(int) -> real {
    |i: int|
        if i < rows {
            b(i)
        } else {
            0 as real
        }
}

/// The squared residual plus a weight times the squared length.
pub open spec fn objective(
    a: spec_fn(int, int) -> real,
    x: spec_fn(int) -> real,
    b: spec_fn(int) -> real,
    lambda: real,
    rows: int,
    cols: int,
) -> real {
    residual(a, x, b, rows, cols) + vectors::times(lambda, vectors::square(x, cols))
}

/// The squared residual of the ridge system is the ridge objective, whose
/// parameter is the square of the weight.
pub proof fn law_ridge_objective(
    a: spec_fn(int, int) -> real,
    x: spec_fn(int) -> real,
    b: spec_fn(int) -> real,
    weight: real,
    rows: int,
    cols: int,
)
    requires
        0 <= rows,
        0 <= cols,
    ensures
        residual(extended(a, weight, rows), x, padded(b, rows), rows + cols, cols) == objective(
            a,
            x,
            b,
            vectors::times(weight, weight),
            rows,
            cols,
        ),
{
    let e = extended(a, weight, rows);
    let d = vectors::minus(vectors::applied(e, x, cols), padded(b, rows));
    let top = vectors::minus(vectors::applied(a, x, cols), b);
    let f = vectors::products(d, d);
    let xx = vectors::products(x, x);
    let lambda = vectors::times(weight, weight);
    let g = |k: int| vectors::times(lambda, xx(k));
    assert forall|k: int| 0 <= k < cols implies #[trigger] g(k) == f(rows + k) by {
        let r = vectors::row(e, rows + k);
        let h = vectors::products(r, x);
        assert forall|j: int| 0 <= j < cols && j != k implies #[trigger] h(j) == 0 as real by {
            vectors::lemma_units(x(j));
        }
        vectors::lemma_sum_single(h, cols, k);
        assert(d(rows + k) == vectors::times(weight, x(k)));
        lemma_pairs(weight, x(k), weight, x(k));
    }
    vectors::lemma_sum_splits(f, g, rows, cols);
    vectors::lemma_sum_scales(xx, g, lambda, cols);
    assert forall|i: int| 0 <= i < rows implies #[trigger] d(i) == top(i) by {
        vectors::lemma_dot_equal(vectors::row(e, i), x, vectors::row(a, i), x, cols);
    }
    vectors::lemma_dot_equal(d, d, top, top, rows);
}

/// The least-squares solution of the ridge system minimizes the ridge objective.
pub proof fn law_ridge(
    a: spec_fn(int, int) -> real,
    x: spec_fn(int) -> real,
    b: spec_fn(int) -> real,
    weight: real,
    rows: int,
    cols: int,
)
    requires
        0 <= rows,
        0 <= cols,
        is_least(extended(a, weight, rows), x, padded(b, rows), rows + cols, cols),
    ensures
        forall|y: spec_fn(int) -> real|
            objective(a, x, b, vectors::times(weight, weight), rows, cols) <= #[trigger] objective(
                a,
                y,
                b,
                vectors::times(weight, weight),
                rows,
                cols,
            ),
{
    let lambda = vectors::times(weight, weight);
    law_ridge_objective(a, x, b, weight, rows, cols);
    assert forall|y: spec_fn(int) -> real|
        objective(a, x, b, lambda, rows, cols) <= #[trigger] objective(
            a,
            y,
            b,
            lambda,
            rows,
            cols,
        ) by {
        law_ridge_objective(a, y, b, weight, rows, cols);
    }
}

/// The tangent solves the quadratic equation of the angle.
proof fn lemma_tangent(zeta: real, root: real, tangent: real)
    requires
        vectors::times(root, root) == vectors::times(zeta, zeta) + 1 as real,
        zeta >= 0 as real ==> vectors::times(tangent, root + zeta) == 1 as real,
        zeta < 0 as real ==> vectors::times(tangent, root - zeta) == -1 as real,
    ensures
        vectors::times(tangent, tangent) + vectors::times(tangent, zeta) + vectors::times(
            tangent,
            zeta,
        ) == 1 as real,
{
    let t = tangent;
    let p = root + zeta;
    let m = root - zeta;
    vectors::lemma_distributes(m, root, zeta);
    vectors::lemma_distributes(root, root, zeta);
    vectors::lemma_distributes(zeta, root, zeta);
    vectors::lemma_commutes(root, zeta);
    assert(vectors::times(p, m) == 1 as real);
    vectors::lemma_commutes(p, m);
    vectors::lemma_units(t);
    vectors::lemma_units(m);
    vectors::lemma_units(p);
    if zeta >= 0 as real {
        vectors::lemma_associates(t, p, m);
        assert(t == m);
        assert(t + (zeta + zeta) == p);
    } else {
        vectors::lemma_associates(t, m, p);
        assert(0 as real - 1 as real == -1 as real);
        vectors::lemma_distributes(p, 0 as real, 1 as real);
        assert(t == -p);
        assert(0 as real - p == t);
        assert(0 as real - m == t + (zeta + zeta));
        vectors::lemma_distributes(0 as real - m, 0 as real, p);
        vectors::lemma_units(0 as real - m);
        vectors::lemma_distributes(p, 0 as real, m);
    }
    assert(vectors::times(t, t + (zeta + zeta)) == 1 as real);
    vectors::lemma_distributes(t, t, zeta + zeta);
    vectors::lemma_distributes(t, zeta, zeta);
}

/// The angle of a rotation, from the difference `gap` of two squared lengths
/// and the product `cross` of their vectors.
pub open spec fn is_angle(
    gap: real,
    cross: real,
    zeta: real,
    root: real,
    tangent: real,
    cosine: real,
    sine: real,
) -> bool {
    &&& vectors::times(zeta, cross + cross) == gap
    &&& root >= 0 as real
    &&& vectors::times(root, root) == vectors::times(zeta, zeta) + 1 as real
    &&& zeta >= 0 as real ==> vectors::times(tangent, root + zeta) == 1 as real
    &&& zeta < 0 as real ==> vectors::times(tangent, root - zeta) == -1 as real
    &&& vectors::times(
        vectors::times(cosine, cosine),
        1 as real + vectors::times(tangent, tangent),
    ) == 1 as real
    &&& sine == vectors::times(cosine, tangent)
}

proof fn lemma_angle(
    gap: real,
    cross: real,
    zeta: real,
    root: real,
    tangent: real,
    cosine: real,
    sine: real,
)
    requires
        is_angle(gap, cross, zeta, root, tangent, cosine, sine),
    ensures
        vectors::times(cosine, cosine) + vectors::times(sine, sine) == 1 as real,
        vectors::times(
            vectors::times(cosine, cosine) - vectors::times(sine, sine),
            cross,
        ) == vectors::times(vectors::times(cosine, sine), gap),
{
    let t = tangent;
    let cc = vectors::times(cosine, cosine);
    let ss = vectors::times(sine, sine);
    let tt = vectors::times(t, t);
    let tz = vectors::times(t, zeta);
    let half = vectors::times(zeta, cross);
    lemma_tangent(zeta, root, t);
    lemma_pairs(cosine, t, cosine, t);
    assert(ss == vectors::times(cc, tt));
    vectors::lemma_units(cc);
    vectors::lemma_distributes(cc, 1 as real, tt);
    vectors::lemma_associates(cosine, cosine, t);
    assert(vectors::times(cosine, sine) == vectors::times(cc, t));
    // One less the squared tangent, times the product, is the tangent times the
    // gap.
    vectors::lemma_distributes(zeta, cross, cross);
    vectors::lemma_distributes(t, half, half);
    vectors::lemma_associates(t, zeta, cross);
    assert(1 as real - tt == tz + tz);
    vectors::lemma_distributes(cross, tz, tz);
    assert(vectors::times(1 as real - tt, cross) == vectors::times(t, gap));
    vectors::lemma_associates(cc, 1 as real - tt, cross);
    vectors::lemma_associates(cc, t, gap);
}

/// The angle that the decomposition takes makes a rotation, and the two columns
/// that it turns are orthogonal afterwards.
pub proof fn law_rotation_orthogonalizes(
    w: spec_fn(int, int) -> real,
    rows: int,
    left: int,
    right: int,
    zeta: real,
    root: real,
    tangent: real,
    cosine: real,
    sine: real,
)
    requires
        left != right,
        is_angle(
            vectors::square(vectors::column(w, right), rows) - vectors::square(
                vectors::column(w, left),
                rows,
            ),
            vectors::dot(vectors::column(w, left), vectors::column(w, right), rows),
            zeta,
            root,
            tangent,
            cosine,
            sine,
        ),
    ensures
        vectors::times(cosine, cosine) + vectors::times(sine, sine) == 1 as real,
        vectors::dot(
            vectors::column(turned(w, left, right, cosine, sine), left),
            vectors::column(turned(w, left, right, cosine, sine), right),
            rows,
        ) == 0 as real,
{
    let l = vectors::column(w, left);
    let r = vectors::column(w, right);
    let ll = vectors::square(l, rows);
    let rr = vectors::square(r, rows);
    let cross = vectors::dot(l, r, rows);
    let gap = rr - ll;
    let k = vectors::column(turned(w, left, right, cosine, sine), right);
    lemma_angle(gap, cross, zeta, root, tangent, cosine, sine);
    lemma_turned_dot(w, left, right, cosine, sine, left, k, rows);
    lemma_turned_dot(w, left, right, cosine, sine, right, l, rows);
    lemma_turned_dot(w, left, right, cosine, sine, right, r, rows);
    vectors::lemma_dot_commutes(l, k, rows);
    vectors::lemma_dot_commutes(r, k, rows);
    vectors::lemma_dot_commutes(r, l, rows);
    let c = cosine;
    let s = sine;
    let lk = vectors::times(s, ll) + vectors::times(c, cross);
    let rk = vectors::times(s, cross) + vectors::times(c, rr);
    assert(0 as real - s == -s);
    vectors::lemma_distributes(rk, 0 as real, s);
    vectors::lemma_units(rk);
    vectors::lemma_distributes(c, vectors::times(s, ll), vectors::times(c, cross));
    vectors::lemma_distributes(s, vectors::times(s, cross), vectors::times(c, rr));
    vectors::lemma_associates(c, s, ll);
    vectors::lemma_associates(c, c, cross);
    vectors::lemma_associates(s, s, cross);
    vectors::lemma_associates(s, c, rr);
    vectors::lemma_commutes(s, c);
    let cs = vectors::times(c, s);
    vectors::lemma_distributes(cross, vectors::times(c, c), vectors::times(s, s));
    vectors::lemma_distributes(cs, rr, ll);
}

/// Rotations that leave orthogonal columns give the least-squares solution, for
/// matrices with at least as many rows as columns.
pub proof fn law_rotated_tall(
    a: spec_fn(int, int) -> real,
    rotations: Seq<Rotation>,
    c: spec_fn(int) -> real,
    b: spec_fn(int) -> real,
    rows: int,
    n: int,
)
    requires
        0 <= rows,
        0 <= n,
        forall|k: int| 0 <= k < rotations.len() ==> (#[trigger] rotations[k]).valid(n),
        apart(after(a, rotations), rows, n),
        forall|j: int|
            0 <= j < n ==> is_share(
                #[trigger] c(j),
                squares(after(a, rotations), rows)(j),
                vectors::projected(after(a, rotations), b, rows)(j),
            ),
    ensures
        is_least(a, vectors::applied(after(identity(), rotations), c, n), b, rows, n),
{
    law_rotations(a, rows, n, rotations);
    law_tall(a, after(identity(), rotations), after(a, rotations), c, b, rows, n);
}

/// Rotations that leave orthogonal columns give the least-squares solution, for
/// matrices with fewer rows than columns: it is their transpose that is turned.
pub proof fn law_rotated_wide(
    a: spec_fn(int, int) -> real,
    rotations: Seq<Rotation>,
    g: spec_fn(int) -> real,
    b: spec_fn(int) -> real,
    m: int,
    n: int,
)
    requires
        0 <= m,
        0 <= n,
        forall|k: int| 0 <= k < rotations.len() ==> (#[trigger] rotations[k]).valid(m),
        apart(after(transposed(a), rotations), n, m),
        forall|j: int|
            0 <= j < m ==> is_share(
                #[trigger] g(j),
                squares(after(transposed(a), rotations), n)(j),
                vectors::projected(after(identity(), rotations), b, m)(j),
            ),
    ensures
        is_least(a, vectors::applied(after(transposed(a), rotations), g, m), b, m, n),
{
    law_rotations(transposed(a), n, m, rotations);
    law_wide(a, after(identity(), rotations), after(transposed(a), rotations), g, b, m, n);
}

} // verus!
