//! Lengths in the plane, by their squares.

use vstd::prelude::*;

verus! {

/// The square of a way's length.
pub open spec fn square(v: (int, int)) -> int {
    v.0 * v.0 + v.1 * v.1
}

/// One way after another.
pub open spec fn plus(a: (int, int), b: (int, int)) -> (int, int) {
    (a.0 + b.0, a.1 + b.1)
}

/// The way from one place to another.
pub open spec fn way(p: (int, int), q: (int, int)) -> (int, int) {
    (q.0 - p.0, q.1 - p.1)
}

/// Lagrange's identity: what two ways go along each other and past each other.
pub proof fn lemma_lagrange(x: int, y: int, u: int, v: int)
    ensures
        (x * u + y * v) * (x * u + y * v) + (x * v - y * u) * (x * v - y * u) == (x * x + y * y) * (u
            * u + v * v),
{
    let (a, b, c, d) = (x * u, y * v, x * v, y * u);
    assert((a + b) * (a + b) == a * a + 2 * (a * b) + b * b) by (nonlinear_arith);
    assert((c - d) * (c - d) == c * c - 2 * (c * d) + d * d) by (nonlinear_arith);
    assert(a * b == c * d) by (nonlinear_arith)
        requires
            a == x * u,
            b == y * v,
            c == x * v,
            d == y * u,
    ;
    let (xx, yy, uu, vv) = (x * x, y * y, u * u, v * v);
    assert(a * a == xx * uu) by (nonlinear_arith)
        requires
            a == x * u,
            xx == x * x,
            uu == u * u,
    ;
    assert(b * b == yy * vv) by (nonlinear_arith)
        requires
            b == y * v,
            yy == y * y,
            vv == v * v,
    ;
    assert(c * c == xx * vv) by (nonlinear_arith)
        requires
            c == x * v,
            xx == x * x,
            vv == v * v,
    ;
    assert(d * d == yy * uu) by (nonlinear_arith)
        requires
            d == y * u,
            yy == y * y,
            uu == u * u,
    ;
    assert((xx + yy) * (uu + vv) == xx * uu + xx * vv + yy * uu + yy * vv) by (nonlinear_arith);
}

/// Two ways of lengths `r` and `q` at most go no farther along each other than `r * q`.
proof fn lemma_along(a: (int, int), b: (int, int), r: int, q: int)
    requires
        0 <= r,
        0 <= q,
        square(a) <= r * r,
        square(b) <= q * q,
    ensures
        a.0 * b.0 + a.1 * b.1 <= r * q,
{
    let (x, y, u, v) = (a.0, a.1, b.0, b.1);
    let d = x * u + y * v;
    let c = x * v - y * u;
    let (m, n) = (x * x + y * y, u * u + v * v);
    lemma_lagrange(x, y, u, v);
    assert(0 <= m && 0 <= n && 0 <= c * c) by (nonlinear_arith)
        requires
            m == x * x + y * y,
            n == u * u + v * v,
    ;
    assert(m * n <= (r * r) * (q * q)) by (nonlinear_arith)
        requires
            0 <= m <= r * r,
            0 <= n <= q * q,
    ;
    let k = r * q;
    assert((r * r) * (q * q) == k * k) by (nonlinear_arith)
        requires
            k == r * q,
    ;
    assert(0 <= k) by (nonlinear_arith)
        requires
            k == r * q,
            0 <= r,
            0 <= q,
    ;
    if d > k {
        assert(d * d > k * k) by (nonlinear_arith)
            requires
                d > k,
                k >= 0,
        ;
    }
}

/// A way after another is no longer than both together.
pub proof fn lemma_no_longer(a: (int, int), b: (int, int), r: int, q: int)
    requires
        0 <= r,
        0 <= q,
        square(a) <= r * r,
        square(b) <= q * q,
    ensures
        square(plus(a, b)) <= (r + q) * (r + q),
{
    lemma_along(a, b, r, q);
    let (x, y, u, v) = (a.0, a.1, b.0, b.1);
    assert((x + u) * (x + u) + (y + v) * (y + v) == x * x + y * y + (u * u + v * v) + 2 * (x * u + y
        * v)) by (nonlinear_arith);
    assert((r + q) * (r + q) == r * r + q * q + 2 * (r * q)) by (nonlinear_arith);
}

/// A way of length `r` at least, after one of length `q` at most, is no shorter than the rest.
pub proof fn lemma_no_shorter(a: (int, int), b: (int, int), r: int, q: int)
    requires
        0 <= q <= r,
        square(a) >= r * r,
        square(b) <= q * q,
    ensures
        square(plus(a, b)) >= (r - q) * (r - q),
{
    let d = r - q;
    let s = plus(a, b);
    if square(s) < d * d {
        let back = (-b.0, -b.1);
        let (u, v) = (b.0, b.1);
        assert((-u) * (-u) + (-v) * (-v) == u * u + v * v) by (nonlinear_arith);
        lemma_along(s, back, d, q);
        let (x, y) = (s.0, s.1);
        assert((x - u) * (x - u) + (y - v) * (y - v) == x * x + y * y + (u * u + v * v) + 2 * (x * (
        -u) + y * (-v))) by (nonlinear_arith);
        assert(a.0 == x - u && a.1 == y - v);
        assert(r * r == d * d + q * q + 2 * (d * q)) by (nonlinear_arith)
            requires
                d == r - q,
        ;
        assert(false);
    }
}

} // verus!
