//! What holds of rings whatever they look like: taking out the points at which a ring runs
//! straight on changes nothing else.

use crate::trace::{area2, area_to, collapsed, turning, turns, turns_at, Point};
use vstd::prelude::*;

verus! {

/// The index behind `i` in a ring of `n` points.
pub open spec fn behind(n: int, i: int) -> int {
    if i == n - 1 {
        0
    } else {
        i + 1
    }
}

/// The index before `i` in a ring of `n` points.
pub open spec fn ahead(n: int, i: int) -> int {
    if i == 0 {
        n - 1
    } else {
        i - 1
    }
}

/// Whether no two neighbouring points of a ring are the same.
pub open spec fn distinct_ring(pts: Seq<Point>) -> bool {
    forall|i: int|
        0 <= i < pts.len() ==> #[trigger] pts[i] != pts[behind(pts.len() as int, i)]
}

spec fn cross(a: (int, int), b: (int, int)) -> int {
    a.0 * b.1 - a.1 * b.0
}

spec fn dot(a: (int, int), b: (int, int)) -> int {
    a.0 * b.0 + a.1 * b.1
}

spec fn way(p: Point, q: Point) -> (int, int) {
    (q.0 - p.0, q.1 - p.1)
}

spec fn plus(a: (int, int), b: (int, int)) -> (int, int) {
    (a.0 + b.0, a.1 + b.1)
}

/// Ways along one line are along one line with each other.
proof fn lemma_parallel(v: (int, int), d: (int, int), e: (int, int))
    requires
        cross(v, d) == 0,
        cross(d, e) == 0,
        d != (0int, 0int),
    ensures
        cross(v, e) == 0,
{
    let (a, b, c, f, g, k) = (v.0, v.1, d.0, d.1, e.0, e.1);
    assert(a * f == b * c && c * k == f * g);
    assert(c * (a * k - b * g) == 0) by (nonlinear_arith)
        requires
            a * f == b * c,
            c * k == f * g,
    {
        assert(c * (a * k) == a * (c * k)) by (nonlinear_arith);
        assert(c * (b * g) == (b * c) * g) by (nonlinear_arith);
        assert(a * (f * g) == (a * f) * g) by (nonlinear_arith);
        assert(c * (a * k - b * g) == c * (a * k) - c * (b * g)) by (nonlinear_arith);
    }
    assert(f * (a * k - b * g) == 0) by (nonlinear_arith)
        requires
            a * f == b * c,
            c * k == f * g,
    {
        assert(f * (a * k) == (a * f) * k) by (nonlinear_arith);
        assert((b * c) * k == b * (c * k)) by (nonlinear_arith);
        assert(b * (f * g) == f * (b * g)) by (nonlinear_arith);
        assert(f * (a * k - b * g) == f * (a * k) - f * (b * g)) by (nonlinear_arith);
    }
    let z = a * k - b * g;
    if c != 0 {
        assert(z == 0) by (nonlinear_arith)
            requires
                c * z == 0,
                c != 0,
        ;
    } else {
        assert(z == 0) by (nonlinear_arith)
            requires
                f * z == 0,
                f != 0,
        ;
    }
}

/// Along one line, the senses of two pairs of ways give that of the third.
proof fn lemma_senses(a: (int, int), d: (int, int), e: (int, int))
    requires
        cross(a, d) == 0,
        d != (0int, 0int),
        dot(d, e) > 0,
        cross(d, e) == 0,
    ensures
        dot(a, d) < 0 <==> dot(a, e) < 0,
        dot(a, d) > 0 <==> dot(a, e) > 0,
{
    let (p, q, r) = (dot(a, d), dot(d, e), dot(a, e));
    let s = dot(d, d);
    lemma_square_positive(d);
    lemma_triple(a, d, e);
    assert(p * q == s * r);
    assert((p < 0 <==> r < 0) && (p > 0 <==> r > 0)) by (nonlinear_arith)
        requires
            p * q == s * r,
            q > 0,
            s > 0,
    ;
}

proof fn lemma_square_positive(d: (int, int))
    requires
        d != (0int, 0int),
    ensures
        dot(d, d) > 0,
{
    let (x, y) = (d.0, d.1);
    assert(x * x + y * y > 0) by (nonlinear_arith)
        requires
            x != 0 || y != 0,
    ;
}

proof fn lemma_triple(a: (int, int), d: (int, int), e: (int, int))
    ensures
        dot(a, d) * dot(d, e) == dot(d, d) * dot(a, e) + cross(a, d) * cross(d, e),
{
    let (x, y, u, v, m, n) = (a.0, a.1, d.0, d.1, e.0, e.1);
    let (xu, yv, um, vn) = (x * u, y * v, u * m, v * n);
    assert((xu + yv) * (um + vn) == xu * um + xu * vn + yv * um + yv * vn) by (nonlinear_arith);
    let (uu, vv, xm, yn) = (u * u, v * v, x * m, y * n);
    assert((uu + vv) * (xm + yn) == uu * xm + uu * yn + vv * xm + vv * yn) by (nonlinear_arith);
    let (xv, yu, un, vm) = (x * v, y * u, u * n, v * m);
    assert((xv - yu) * (un - vm) == xv * un - xv * vm - yu * un + yu * vm) by (nonlinear_arith);
    assert(xu * um == uu * xm) by (nonlinear_arith)
        requires
            xu == x * u,
            um == u * m,
            uu == u * u,
            xm == x * m,
    ;
    assert(yv * vn == vv * yn) by (nonlinear_arith)
        requires
            yv == y * v,
            vn == v * n,
            vv == v * v,
            yn == y * n,
    ;
    assert(xu * vn == xv * un) by (nonlinear_arith)
        requires
            xu == x * u,
            vn == v * n,
            xv == x * v,
            un == u * n,
    ;
    assert(yv * um == yu * vm) by (nonlinear_arith)
        requires
            yv == y * v,
            um == u * m,
            yu == y * u,
            vm == v * m,
    ;
    assert(uu * yn == yu * un) by (nonlinear_arith)
        requires
            uu == u * u,
            yn == y * n,
            yu == y * u,
            un == u * n,
    ;
    assert(vv * xm == xv * vm) by (nonlinear_arith)
        requires
            vv == v * v,
            xm == x * m,
            xv == x * v,
            vm == v * m,
    ;
}

/// Going straight on, two ways make one that is none, and turns against another just as the
/// first does.
proof fn lemma_joined(a: (int, int), d: (int, int), e: (int, int))
    requires
        d != (0int, 0int),
        e != (0int, 0int),
        cross(d, e) == 0,
        dot(d, e) >= 0,
    ensures
        plus(d, e) != (0int, 0int),
        cross(a, d) == 0 <==> cross(a, plus(d, e)) == 0,
        cross(a, d) == 0 ==> (dot(a, d) < 0 <==> dot(a, plus(d, e)) < 0),
{
    lemma_forward(d, e);
    let f = plus(d, e);
    lemma_sum(a, d, e);
    lemma_sum(d, d, e);
    lemma_square_positive(d);
    if f == (0int, 0int) {
        assert(dot(d, f) == 0) by {
            assert(d.0 * 0 == 0 && d.1 * 0 == 0) by (nonlinear_arith);
        }
    }
    if cross(a, d) == 0 {
        lemma_parallel(a, d, e);
        lemma_senses(a, d, e);
    }
    if cross(a, f) == 0 {
        assert(cross(d, d) == 0) by {
            assert(d.0 * d.1 == d.1 * d.0) by (nonlinear_arith);
        }
        assert(cross(f, d) == 0) by {
            assert(cross(f, d) == -cross(d, f)) by {
                assert(f.0 * d.1 == d.1 * f.0 && f.1 * d.0 == d.0 * f.1) by (nonlinear_arith);
            }
        }
        lemma_parallel(a, f, d);
    }
}

proof fn lemma_sum(a: (int, int), d: (int, int), e: (int, int))
    ensures
        cross(a, plus(d, e)) == cross(a, d) + cross(a, e),
        dot(a, plus(d, e)) == dot(a, d) + dot(a, e),
{
    assert(a.0 * (d.1 + e.1) == a.0 * d.1 + a.0 * e.1) by (nonlinear_arith);
    assert(a.1 * (d.0 + e.0) == a.1 * d.0 + a.1 * e.0) by (nonlinear_arith);
    assert(a.0 * (d.0 + e.0) == a.0 * d.0 + a.0 * e.0) by (nonlinear_arith);
    assert(a.1 * (d.1 + e.1) == a.1 * d.1 + a.1 * e.1) by (nonlinear_arith);
}

/// Two ways along one line that do not turn back lead the same way.
proof fn lemma_forward(d: (int, int), e: (int, int))
    requires
        d != (0int, 0int),
        e != (0int, 0int),
        cross(d, e) == 0,
        dot(d, e) >= 0,
    ensures
        dot(d, e) > 0,
{
    if dot(d, e) == 0 {
        lemma_triple(e, d, e);
        lemma_square_positive(d);
        lemma_square_positive(e);
        assert(cross(e, d) == -cross(d, e)) by {
            assert(e.0 * d.1 == d.1 * e.0 && e.1 * d.0 == d.0 * e.1) by (nonlinear_arith);
        }
        assert(dot(e, d) == dot(d, e)) by {
            assert(e.0 * d.0 == d.0 * e.0 && e.1 * d.1 == d.1 * e.1) by (nonlinear_arith);
        }
        let (s, t) = (dot(d, d), dot(e, e));
        assert(0int * 0int == 0) by (nonlinear_arith);
        assert(cross(e, d) * cross(d, e) == 0) by (nonlinear_arith)
            requires
                cross(d, e) == 0,
        ;
        assert(s * t > 0) by (nonlinear_arith)
            requires
                s > 0,
                t > 0,
        ;
    }
}

/// Turning is the same the other way round.
proof fn lemma_mirror(a: (int, int), b: (int, int))
    ensures
        cross(a, b) == -cross(b, a),
        dot(a, b) == dot(b, a),
{
    assert(a.0 * b.1 == b.1 * a.0 && a.1 * b.0 == b.0 * a.1) by (nonlinear_arith);
    assert(a.0 * b.0 == b.0 * a.0 && a.1 * b.1 == b.1 * a.1) by (nonlinear_arith);
}

/// A turn before or behind a straight point is a turn without it.
proof fn lemma_turn_kept(p: Point, c: Point, m: Point, n: Point)
    requires
        c != m,
        m != n,
        !turns(c, m, n),
    ensures
        turns(p, c, m) == turns(p, c, n),
        c != n,
{
    let (a, d, e) = (way(p, c), way(c, m), way(m, n));
    assert(way(c, n) == plus(d, e));
    lemma_joined(a, d, e);
}

proof fn lemma_turn_kept_behind(c: Point, m: Point, n: Point, q: Point)
    requires
        c != m,
        m != n,
        !turns(c, m, n),
    ensures
        turns(m, n, q) == turns(c, n, q),
{
    let (d, e, b) = (way(c, m), way(m, n), way(n, q));
    assert(way(c, n) == plus(e, d));
    lemma_mirror(d, e);
    lemma_joined(b, e, d);
    lemma_mirror(e, b);
    lemma_mirror(plus(e, d), b);
}

/// Whether point `j` of a ring without its point `i` has the neighbours that it had, but for
/// that point.
proof fn lemma_turns_without(pts: Seq<Point>, i: int, j: int)
    requires
        distinct_ring(pts),
        pts.len() >= 4,
        0 <= i < pts.len(),
        !turns_at(pts, i),
        0 <= j < pts.len() - 1,
    ensures
        turns_at(pts.remove(i), j) == turns_at(pts, if j < i { j } else { j + 1 }),
        pts.remove(i)[j] != pts.remove(i)[behind(pts.len() - 1, j)],
{
    let n = pts.len() as int;
    let q = pts.remove(i);
    let k = if j < i {
        j
    } else {
        j + 1
    };
    let (a, b) = (ahead(n, i), behind(n, i));
    assert(pts[a] != pts[behind(n, a)]);
    assert(pts[i] != pts[b]);
    assert(pts[k] != pts[behind(n, k)]);
    assert(q[j] == pts[k]);
    let (qa, qb) = (q[ahead(n - 1, j)], q[behind(n - 1, j)]);
    let before = if ahead(n, k) == i {
        pts[a]
    } else {
        pts[ahead(n, k)]
    };
    let after = if behind(n, k) == i {
        pts[b]
    } else {
        pts[behind(n, k)]
    };
    assert(qa == before);
    assert(qb == after);
    if behind(n, k) == i {
        assert(k == a);
        lemma_turn_kept(pts[ahead(n, k)], pts[k], pts[i], pts[b]);
    }
    if ahead(n, k) == i {
        assert(k == b);
        lemma_turn_kept_behind(pts[a], pts[i], pts[k], pts[behind(n, k)]);
    }
}

/// Without a straight point a ring has the same turning points.
proof fn lemma_turning_without(pts: Seq<Point>, i: int, k: int)
    requires
        distinct_ring(pts),
        pts.len() >= 4,
        0 <= i < pts.len(),
        !turns_at(pts, i),
        0 <= k <= pts.len() - 1,
    ensures
        turning(pts.remove(i), k) == turning(pts, if k <= i { k } else { k + 1 }),
    decreases k,
{
    let q = pts.remove(i);
    if k > 0 {
        lemma_turning_without(pts, i, k - 1);
        lemma_turns_without(pts, i, k - 1);
        if k - 1 < i {
            assert(q[k - 1] == pts[k - 1]);
        } else {
            assert(q[k - 1] == pts[k]);
            if k - 1 == i {
                assert(turning(pts, i + 1) == turning(pts, i));
            }
        }
    }
    if k == i + 1 {
        assert(turning(pts, k + 1 - 1) == turning(pts, i));
    }
}

/// What one side adds to the area.
spec fn side_area(pts: Seq<Point>, k: int) -> int {
    let p = pts[k];
    let q = pts[behind(pts.len() as int, k)];
    p.0 * q.1 - q.0 * p.1
}

/// Two sides that run straight on add as much as the one that joins them.
proof fn lemma_sides_join(c: Point, m: Point, n: Point)
    requires
        !turns(c, m, n),
    ensures
        (c.0 * m.1 - m.0 * c.1) + (m.0 * n.1 - n.0 * m.1) == c.0 * n.1 - n.0 * c.1,
{
    let (d, e) = (way(c, m), way(m, n));
    let (x, y) = (c.0 as int, c.1 as int);
    assert(cross(d, e) == 0);
    let (u, v, s, t) = (d.0, d.1, e.0, e.1);
    assert(m.0 == x + u && m.1 == y + v && n.0 == x + u + s && n.1 == y + v + t);
    assert(x * (y + v) - (x + u) * y == x * v - u * y) by (nonlinear_arith);
    assert((x + u) * (y + v + t) - (x + u + s) * (y + v) == x * t - s * y + (u * t - v * s))
        by (nonlinear_arith);
    assert(x * (y + v + t) - (x + u + s) * y == x * v + x * t - u * y - s * y)
        by (nonlinear_arith);
}

proof fn lemma_area_without(pts: Seq<Point>, i: int, k: int)
    requires
        pts.len() >= 4,
        0 <= i < pts.len(),
        !turns_at(pts, i),
        0 <= k <= pts.len() - 1,
    ensures
        i > 0 && k < i ==> area_to(pts.remove(i), k) == area_to(pts, k),
        i > 0 && k >= i ==> area_to(pts.remove(i), k) == area_to(pts, k + 1),
        i == 0 && k < pts.len() - 1 ==> area_to(pts.remove(i), k) == area_to(pts, k + 1)
            - side_area(pts, 0),
        i == 0 && k == pts.len() - 1 ==> area_to(pts.remove(i), k) == area_to(pts, k + 1),
    decreases k,
{
    let n = pts.len() as int;
    let q = pts.remove(i);
    lemma_sides_join(pts[ahead(n, i)], pts[i], pts[behind(n, i)]);
    if k > 0 {
        lemma_area_without(pts, i, k - 1);
        assert(area_to(q, k) == area_to(q, k - 1) + side_area(q, k - 1));
        assert(area_to(pts, k) == area_to(pts, k - 1) + side_area(pts, k - 1));
        assert(area_to(pts, k + 1) == area_to(pts, k) + side_area(pts, k));
        let j = if k - 1 < i {
            k - 1
        } else {
            k
        };
        assert(q[k - 1] == pts[j]);
        let b = behind(n, j);
        assert(q[behind(n - 1, k - 1)] == if b == i {
            pts[behind(n, i)]
        } else {
            pts[b]
        });
    } else {
        assert(area_to(pts, 1) == area_to(pts, 0) + side_area(pts, 0));
    }
}

proof fn lemma_turning_len(pts: Seq<Point>, k: int, i: int)
    requires
        0 <= k <= pts.len(),
    ensures
        turning(pts, k).len() <= k,
        0 <= i < k && !turns_at(pts, i) ==> turning(pts, k).len() < k,
    decreases k,
{
    if k > 0 {
        lemma_turning_len(pts, k - 1, i);
    }
}

proof fn lemma_turning_all(pts: Seq<Point>, k: int)
    requires
        0 <= k <= pts.len(),
        forall|i: int| 0 <= i < pts.len() ==> turns_at(pts, i),
    ensures
        turning(pts, k) == pts.take(k),
    decreases k,
{
    if k > 0 {
        lemma_turning_all(pts, k - 1);
        assert(pts.take(k) =~= pts.take(k - 1).push(pts[k - 1]));
    } else {
        assert(pts.take(0) =~= Seq::<Point>::empty());
    }
}

proof fn lemma_turning_points(pts: Seq<Point>)
    requires
        distinct_ring(pts),
        turning(pts, pts.len() as int).len() >= 3,
    ensures
        ({
            let r = turning(pts, pts.len() as int);
            turning(r, r.len() as int) == r && area2(r) == area2(pts)
        }),
    decreases pts.len(),
{
    let n = pts.len() as int;
    if forall|i: int| 0 <= i < n ==> turns_at(pts, i) {
        lemma_turning_all(pts, n);
        assert(pts.take(n) =~= pts);
    } else {
        let i = choose|i: int| 0 <= i < n && !turns_at(pts, i);
        lemma_turning_len(pts, n, i);
        let q = pts.remove(i);
        assert forall|j: int| 0 <= j < q.len() implies #[trigger] q[j] != q[behind(
            q.len() as int,
            j,
        )] by {
            lemma_turns_without(pts, i, j);
        }
        lemma_turning_without(pts, i, n - 1);
        if i == n - 1 {
            assert(turning(pts, n) == turning(pts, n - 1));
        }
        lemma_area_without(pts, i, n - 1);
        lemma_turning_points(q);
    }
}

/// Collapsing a ring once is enough, and keeps its signed area.
pub proof fn lemma_collapse(pts: Seq<Point>)
    requires
        distinct_ring(pts),
    ensures
        collapsed(collapsed(pts)) == collapsed(pts),
        area2(collapsed(pts)) == area2(pts),
{
    let out = turning(pts, pts.len() as int);
    if pts.len() >= 3 && out.len() >= 3 {
        lemma_turning_points(pts);
    }
}

} // verus!
