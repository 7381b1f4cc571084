//! What cells a strip covers: a polygon that runs along one edge and back along the other,
//! and what it covers at least when it grows wider and longer.

use crate::raster::{
    covers, crossed_at, crossed_by, crosses, crossing, crossings, point_before, scaled,
};
use crate::trace::Point;
use vstd::prelude::*;

verus! {

/// The strip whose edges stand over the places `x`, at `u` on one side and at `l` on the
/// other.
pub open spec fn strip(x: Seq<i64>, u: Seq<i64>, l: Seq<i64>) -> Seq<Point> {
    let e = x.len() as int;
    Seq::new(
        (2 * e) as nat,
        |j: int|
            if j < e {
                (x[j], u[j])
            } else {
                (x[2 * e - 1 - j], l[2 * e - 1 - j])
            },
    )
}

/// Whether the places of a strip stand in order and its edges on their sides.
pub open spec fn strip_ok(x: Seq<i64>, u: Seq<i64>, l: Seq<i64>) -> bool {
    &&& x.len() >= 2
    &&& u.len() == x.len()
    &&& l.len() == x.len()
    &&& forall|j: int, k: int| 0 <= j <= k < x.len() ==> #[trigger] x[j] <= #[trigger] x[k]
    &&& forall|k: int| 0 <= k < x.len() ==> #[trigger] u[k] <= l[k]
}

/// Whether the level `y` passes between two points.
spec fn differ(p: Point, q: Point, y: int) -> bool {
    (p.1 <= y) != (q.1 <= y)
}

/// How far right of `c` the side between the points crosses the level, up to a positive
/// factor.
spec fn beyond(p: Point, q: Point, y: int, c: int) -> int {
    if p.1 <= y {
        (p.0 - c) * (q.1 - y) + (q.0 - c) * (y - p.1)
    } else {
        (q.0 - c) * (p.1 - y) + (p.0 - c) * (y - q.1)
    }
}

/// Whether the side between the points crosses the level at `c` or left of it.
spec fn flips(p: Point, q: Point, y: int, c: int) -> bool {
    differ(p, q, y) && beyond(p, q, y, c) <= 0
}

/// Whether it crosses the level right at `c`.
spec fn hits(p: Point, q: Point, y: int, c: int) -> bool {
    differ(p, q, y) && beyond(p, q, y, c) == 0
}

/// How far below the level the side between two points lies at `c`, up to a positive factor.
spec fn under(p: Point, q: Point, y: int, c: int) -> int {
    (p.1 - y) * (q.0 - c) + (q.1 - y) * (c - p.0)
}

proof fn lemma_turned(p: Point, q: Point, y: int, c: int)
    ensures
        flips(p, q, y, c) == flips(q, p, y, c),
        hits(p, q, y, c) == hits(q, p, y, c),
{
}

/// Crossings are told as the raster tells them.
proof fn lemma_side(pts: Seq<Point>, y: int, px: int, i: int)
    requires
        crosses(pts, y, i),
    ensures
        crossing(pts, y, i).0 - scaled(px, crossing(pts, y, i).1) == beyond(
            point_before(pts, i),
            pts[i],
            y,
            1000 * px,
        ),
{
    let p = pts[i];
    let q = point_before(pts, i);
    let c = 1000 * px;
    let (a, b, s, t) = (p.0 as int, p.1 as int, q.0 as int, q.1 as int);
    if b <= y {
        let d = t - b;
        assert(a * d + (y - b) * (s - a) - c * d == (a - c) * (t - y) + (s - c) * (y - b))
            by (nonlinear_arith)
            requires
                d == t - b,
        ;
    } else {
        let d = b - t;
        assert(a * d + (y - b) * (a - s) - c * d == (s - c) * (b - y) + (a - c) * (y - t))
            by (nonlinear_arith)
            requires
                d == b - t,
        ;
    }
}

/// Whether an odd number of the first `n` sides cross the level at `c` or left of it.
spec fn odd(pts: Seq<Point>, y: int, c: int, n: int) -> bool
    decreases n,
{
    if n <= 0 {
        false
    } else {
        odd(pts, y, c, n - 1) != flips(point_before(pts, n - 1), pts[n - 1], y, c)
    }
}

/// Whether one of the first `n` sides crosses the level right at `c`.
spec fn met(pts: Seq<Point>, y: int, c: int, n: int) -> bool {
    exists|i: int| 0 <= i < n && hits(#[trigger] point_before(pts, i), pts[i], y, c)
}

proof fn lemma_crossed_push(cs: Seq<(int, int)>, x: (int, int), px: int, k: int)
    requires
        0 <= k <= cs.len(),
    ensures
        crossed_by(cs.push(x), px, k) == crossed_by(cs, px, k),
    decreases k,
{
    if k > 0 {
        lemma_crossed_push(cs, x, px, k - 1);
    }
}

proof fn lemma_counted(pts: Seq<Point>, y: int, px: int, n: int)
    requires
        0 <= n <= pts.len(),
    ensures
        (crossed_by(crossings(pts, y, n), px, crossings(pts, y, n).len() as int) % 2 == 1) == odd(
            pts,
            y,
            1000 * px,
            n,
        ),
        crossed_at(crossings(pts, y, n), px) == met(pts, y, 1000 * px, n),
    decreases n,
{
    let c = 1000 * px;
    let now = crossings(pts, y, n);
    if n > 0 {
        lemma_counted(pts, y, px, n - 1);
        let before = crossings(pts, y, n - 1);
        let i = n - 1;
        if crosses(pts, y, i) {
            lemma_side(pts, y, px, i);
            let x = crossing(pts, y, i);
            lemma_crossed_push(before, x, px, before.len() as int);
            assert(now[before.len() as int] == x);
            if crossed_at(now, px) {
                let k = choose|k: int| 0 <= k < now.len() && (#[trigger] now[k]).0 == scaled(
                    px,
                    now[k].1,
                );
                if k < before.len() {
                    assert(before[k] == now[k]);
                    assert(crossed_at(before, px));
                    let j = choose|j: int|
                        0 <= j < n - 1 && hits(#[trigger] point_before(pts, j), pts[j], y, c);
                    assert(hits(point_before(pts, j), pts[j], y, c));
                } else {
                    assert(hits(point_before(pts, i), pts[i], y, c));
                }
                assert(met(pts, y, c, n));
            }
            if met(pts, y, c, n) {
                let j = choose|j: int|
                    0 <= j < n && hits(#[trigger] point_before(pts, j), pts[j], y, c);
                if j < i {
                    assert(hits(point_before(pts, j), pts[j], y, c));
                    assert(met(pts, y, c, n - 1));
                    let k = choose|k: int|
                        0 <= k < before.len() && (#[trigger] before[k]).0 == scaled(
                            px,
                            before[k].1,
                        );
                    assert(now[k] == before[k]);
                } else {
                    assert(now[before.len() as int].0 == scaled(px, now[before.len() as int].1));
                }
                assert(crossed_at(now, px));
            }
        } else {
            if met(pts, y, c, n) {
                let j = choose|j: int|
                    0 <= j < n && hits(#[trigger] point_before(pts, j), pts[j], y, c);
                assert(j < i);
                assert(hits(point_before(pts, j), pts[j], y, c));
                assert(met(pts, y, c, n - 1));
            }
            if met(pts, y, c, n - 1) {
                let j = choose|j: int|
                    0 <= j < n - 1 && hits(#[trigger] point_before(pts, j), pts[j], y, c);
                assert(hits(point_before(pts, j), pts[j], y, c));
            }
        }
    }
}

/// Sides left of `c` cross it, sides right of it do not, and upright ones meet it where they
/// stand.
proof fn lemma_beyond(p: Point, q: Point, y: int, c: int)
    requires
        differ(p, q, y),
    ensures
        p.0 <= c && q.0 <= c ==> beyond(p, q, y, c) <= 0,
        p.0 > c && q.0 > c ==> beyond(p, q, y, c) > 0,
        p.0 < c && q.0 < c ==> beyond(p, q, y, c) < 0,
        p.0 == c && q.0 == c ==> beyond(p, q, y, c) == 0,
{
    let (lo, hi) = if p.1 <= y {
        (p, q)
    } else {
        (q, p)
    };
    let (a, b, s, t) = (lo.0 - c, hi.1 - y, hi.0 - c, y - lo.1);
    assert(a <= 0 && s <= 0 ==> a * b + s * t <= 0) by (nonlinear_arith)
        requires
            b > 0,
            t >= 0,
    ;
    assert(a > 0 && s > 0 ==> a * b + s * t > 0) by (nonlinear_arith)
        requires
            b > 0,
            t >= 0,
    ;
    assert(a < 0 && s < 0 ==> a * b + s * t < 0) by (nonlinear_arith)
        requires
            b > 0,
            t >= 0,
    ;
    assert(a == 0 && s == 0 ==> a * b + s * t == 0) by (nonlinear_arith);
}

/// Where a side crosses the level is told by how far below the level it lies at `c`.
proof fn lemma_under(p: Point, q: Point, y: int, c: int)
    requires
        p.0 <= c <= q.0,
        p.0 < q.0,
    ensures
        p.1 <= y && q.1 > y ==> beyond(p, q, y, c) == -under(p, q, y, c),
        p.1 > y && q.1 <= y ==> beyond(p, q, y, c) == under(p, q, y, c),
        p.1 <= y && q.1 <= y ==> under(p, q, y, c) <= 0,
        p.1 > y && q.1 > y ==> under(p, q, y, c) > 0,
{
    let (a, b, s, t) = (p.0 - c, p.1 - y, q.0 - c, q.1 - y);
    assert(under(p, q, y, c) == b * s + t * (-a));
    assert(a * t + s * (-b) == -(b * s + t * (-a))) by (nonlinear_arith);
    assert(s * b + a * (-t) == b * s + t * (-a)) by (nonlinear_arith);
    assert(b <= 0 && t <= 0 ==> b * s + t * (-a) <= 0) by (nonlinear_arith)
        requires
            a <= 0 <= s,
    ;
    assert(b > 0 && t > 0 ==> b * s + t * (-a) > 0) by (nonlinear_arith)
        requires
            a <= 0 <= s,
            a < s,
    ;
}

/// A side that stands before another at both ends stands before it between them.
proof fn lemma_under_order(p: Point, q: Point, s: Point, t: Point, y: int, c: int)
    requires
        p.0 == s.0,
        q.0 == t.0,
        p.0 <= c <= q.0,
        p.1 <= s.1,
        q.1 <= t.1,
    ensures
        under(p, q, y, c) <= under(s, t, y, c),
{
    let (a, b, d, e) = (p.1 - y, q.1 - y, s.1 - y, t.1 - y);
    let (m, n) = (q.0 - c, c - p.0);
    assert(a * m + b * n <= d * m + e * n) by (nonlinear_arith)
        requires
            a <= d,
            b <= e,
            m >= 0,
            n >= 0,
    ;
}

/// Which of the places of a strip is the last at `c` or left of it; none is -1.
spec fn last_left(x: Seq<i64>, c: int, k: int) -> int
    decreases k,
{
    if k <= 0 {
        -1
    } else if x[k - 1] <= c {
        k - 1
    } else {
        last_left(x, c, k - 1)
    }
}

proof fn lemma_last_left(x: Seq<i64>, c: int, k: int)
    requires
        0 <= k <= x.len(),
        forall|i: int, j: int| 0 <= i <= j < x.len() ==> #[trigger] x[i] <= #[trigger] x[j],
    ensures
        -1 <= last_left(x, c, k) < k,
        forall|j: int| 0 <= j <= last_left(x, c, k) ==> #[trigger] x[j] <= c,
        forall|j: int| last_left(x, c, k) < j < k ==> #[trigger] x[j] > c,
    decreases k,
{
    if k > 0 {
        if x[k - 1] <= c {
            assert forall|j: int| 0 <= j <= k - 1 implies #[trigger] x[j] <= c by {
                assert(x[j] <= x[k - 1]);
            }
        } else {
            lemma_last_left(x, c, k - 1);
        }
    }
}

/// Whether an edge of a strip stands at the level or before it, just right of `c`.
spec fn state(x: Seq<i64>, u: Seq<i64>, y: int, c: int, m: int) -> bool {
    (u[m] <= y) != flips((x[m], u[m]), (x[m + 1], u[m + 1]), y, c)
}

/// The sides of a strip up to place `k` of its first edge.
proof fn lemma_out(x: Seq<i64>, u: Seq<i64>, l: Seq<i64>, y: int, c: int, k: int)
    requires
        strip_ok(x, u, l),
        0 <= k < x.len(),
    ensures
        ({
            let m = last_left(x, c, x.len() as int);
            odd(strip(x, u, l), y, c, k + 1) == if m < 0 {
                false
            } else if k <= m {
                (l[0] <= y) != (u[k] <= y)
            } else {
                (l[0] <= y) != state(x, u, y, c, m)
            }
        }),
    decreases k,
{
    let pts = strip(x, u, l);
    let e = x.len() as int;
    let m = last_left(x, c, e);
    lemma_last_left(x, c, e);
    let q = point_before(pts, k);
    if k == 0 {
        assert(q == (x[0], l[0]));
        assert(odd(pts, y, c, 0) == false);
        if differ(q, pts[0], y) {
            lemma_beyond(q, pts[0], y, c);
        }
    } else {
        lemma_out(x, u, l, y, c, k - 1);
        assert(q == (x[k - 1], u[k - 1]));
        assert(x[k - 1] <= x[k]);
        if differ(q, pts[k], y) {
            lemma_beyond(q, pts[k], y, c);
        }
    }
}

/// The sides of a strip down to place `k` of its second edge.
proof fn lemma_back(x: Seq<i64>, u: Seq<i64>, l: Seq<i64>, y: int, c: int, k: int)
    requires
        strip_ok(x, u, l),
        0 <= k < x.len(),
    ensures
        ({
            let m = last_left(x, c, x.len() as int);
            let e = x.len() as int;
            odd(strip(x, u, l), y, c, 2 * e - k) == if m < 0 {
                false
            } else if m == e - 1 {
                (l[0] <= y) != (l[k] <= y)
            } else if k > m {
                (l[0] <= y) != state(x, u, y, c, m)
            } else {
                ((l[0] <= y) != state(x, u, y, c, m)) != ((l[k] <= y) != state(x, l, y, c, m))
            }
        }),
    decreases x.len() - k,
{
    let pts = strip(x, u, l);
    let e = x.len() as int;
    let m = last_left(x, c, e);
    lemma_last_left(x, c, e);
    let i = 2 * e - 1 - k;
    let q = point_before(pts, i);
    if k == e - 1 {
        lemma_out(x, u, l, y, c, e - 1);
        assert(q == (x[e - 1], u[e - 1]));
        if differ(q, pts[i], y) {
            lemma_beyond(q, pts[i], y, c);
        }
    } else {
        lemma_back(x, u, l, y, c, k + 1);
        assert(q == (x[k + 1], l[k + 1]));
        assert(x[k] <= x[k + 1]);
        lemma_turned(q, pts[i], y, c);
        if differ(q, pts[i], y) {
            lemma_beyond(q, pts[i], y, c);
        }
    }
}

/// The parity of a strip's crossings: odd where the edges stand on either side of the level.
proof fn lemma_odd(x: Seq<i64>, u: Seq<i64>, l: Seq<i64>, y: int, c: int)
    requires
        strip_ok(x, u, l),
    ensures
        ({
            let m = last_left(x, c, x.len() as int);
            odd(strip(x, u, l), y, c, 2 * x.len() as int) == (0 <= m < x.len() - 1 && state(
                x,
                u,
                y,
                c,
                m,
            ) != state(x, l, y, c, m))
        }),
{
    lemma_last_left(x, c, x.len() as int);
    lemma_back(x, u, l, y, c, 0);
}

/// Whether place `k` of a strip stands at `c`, with the level between its edges.
spec fn at_place(x: Seq<i64>, u: Seq<i64>, l: Seq<i64>, y: int, c: int, k: int) -> bool {
    0 <= k < x.len() && x[k] == c && u[k] <= y < l[k]
}

/// Whether the level lies between the edges of a strip at `c`, behind its place `m`.
spec fn behind_place(x: Seq<i64>, u: Seq<i64>, l: Seq<i64>, y: int, c: int, m: int) -> bool {
    &&& 0 <= m < x.len() - 1
    &&& x[m] <= c <= x[m + 1]
    &&& x[m] < x[m + 1]
    &&& under((x[m], u[m]), (x[m + 1], u[m + 1]), y, c) <= 0
    &&& under((x[m], l[m]), (x[m + 1], l[m + 1]), y, c) > 0
}

/// Whether the second edge of a strip crosses the level right at `c`, behind its place `m`.
spec fn on_edge(x: Seq<i64>, l: Seq<i64>, y: int, c: int, m: int) -> bool {
    0 <= m < x.len() - 1 && hits((x[m], l[m]), (x[m + 1], l[m + 1]), y, c)
}

/// Whether a strip holds the place `c` on the level `y`.
spec fn holds(x: Seq<i64>, u: Seq<i64>, l: Seq<i64>, y: int, c: int) -> bool {
    ||| exists|k: int| at_place(x, u, l, y, c, k)
    ||| exists|m: int| behind_place(x, u, l, y, c, m)
    ||| exists|m: int| on_edge(x, l, y, c, m)
}

/// Where a side meets the level at `c`, it stands there or lies over it.
proof fn lemma_hit(p: Point, q: Point, y: int, c: int)
    requires
        hits(p, q, y, c),
        p.0 <= q.0,
    ensures
        p.0 <= c <= q.0,
        p.0 < q.0 ==> under(p, q, y, c) == 0,
{
    lemma_beyond(p, q, y, c);
    if p.0 < q.0 {
        lemma_under(p, q, y, c);
    }
}

/// A first edge that meets the level at `c` puts `c` within the strip.
proof fn lemma_first_edge(x: Seq<i64>, u: Seq<i64>, l: Seq<i64>, y: int, c: int, m: int)
    requires
        strip_ok(x, u, l),
        0 <= m < x.len() - 1,
        hits((x[m], u[m]), (x[m + 1], u[m + 1]), y, c),
    ensures
        holds(x, u, l, y, c),
{
    let (p, q) = ((x[m], u[m]), (x[m + 1], u[m + 1]));
    let (s, t) = ((x[m], l[m]), (x[m + 1], l[m + 1]));
    assert(x[m] <= x[m + 1]);
    assert(u[m] <= l[m] && u[m + 1] <= l[m + 1]);
    lemma_hit(p, q, y, c);
    if x[m] < x[m + 1] {
        lemma_under_order(p, q, s, t, y, c);
        if under(s, t, y, c) > 0 {
            assert(behind_place(x, u, l, y, c, m));
        } else {
            lemma_under(s, t, y, c);
            assert(on_edge(x, l, y, c, m));
        }
    } else {
        let k = if u[m] <= y {
            m
        } else {
            m + 1
        };
        if l[k] > y {
            assert(at_place(x, u, l, y, c, k));
        } else {
            assert(differ(s, t, y));
            lemma_beyond(s, t, y, c);
            assert(on_edge(x, l, y, c, m));
        }
    }
}

/// What the crossings of a strip tell is what lies within it.
proof fn lemma_holds_if(x: Seq<i64>, u: Seq<i64>, l: Seq<i64>, y: int, c: int)
    requires
        strip_ok(x, u, l),
        odd(strip(x, u, l), y, c, 2 * x.len() as int) || met(
            strip(x, u, l),
            y,
            c,
            2 * x.len() as int,
        ),
    ensures
        holds(x, u, l, y, c),
{
    let pts = strip(x, u, l);
    let e = x.len() as int;
    if met(pts, y, c, 2 * e) {
        let i = choose|i: int|
            0 <= i < 2 * e && hits(#[trigger] point_before(pts, i), pts[i], y, c);
        let q = point_before(pts, i);
        if i == 0 {
            assert(q == (x[0], l[0]));
            assert(u[0] <= l[0]);
            lemma_beyond(q, pts[0], y, c);
            assert(at_place(x, u, l, y, c, 0));
        } else if i < e {
            assert(q == (x[i - 1], u[i - 1]));
            lemma_first_edge(x, u, l, y, c, i - 1);
        } else if i == e {
            assert(q == (x[e - 1], u[e - 1]));
            assert(u[e - 1] <= l[e - 1]);
            lemma_beyond(q, pts[e], y, c);
            assert(at_place(x, u, l, y, c, e - 1));
        } else {
            let m = 2 * e - 1 - i;
            assert(q == (x[m + 1], l[m + 1]));
            lemma_turned(q, pts[i], y, c);
            assert(on_edge(x, l, y, c, m));
        }
    } else {
        lemma_odd(x, u, l, y, c);
        let m = last_left(x, c, e);
        lemma_last_left(x, c, e);
        let (p, q) = ((x[m], u[m]), (x[m + 1], u[m + 1]));
        let (s, t) = ((x[m], l[m]), (x[m + 1], l[m + 1]));
        assert(u[m] <= l[m] && u[m + 1] <= l[m + 1]);
        lemma_under(p, q, y, c);
        lemma_under(s, t, y, c);
        lemma_under_order(p, q, s, t, y, c);
        assert(!hits(p, q, y, c)) by {
            assert(point_before(pts, m + 1) == p && pts[m + 1] == q);
        }
        assert(!hits(s, t, y, c)) by {
            let i = 2 * e - 1 - m;
            assert(point_before(pts, i) == t && pts[i] == s);
            lemma_turned(s, t, y, c);
        }
        assert(behind_place(x, u, l, y, c, m));
    }
}

/// From a place at `c` with the level between the edges on to the last such place: either a
/// side meets the level there, or it stays between the edges.
proof fn lemma_stays(x: Seq<i64>, u: Seq<i64>, l: Seq<i64>, y: int, c: int, k: int, m: int)
    requires
        strip_ok(x, u, l),
        at_place(x, u, l, y, c, k),
        k <= m < x.len(),
        x[m] == c,
    ensures
        met(strip(x, u, l), y, c, 2 * x.len() as int) || at_place(x, u, l, y, c, m),
    decreases m - k,
{
    let pts = strip(x, u, l);
    let e = x.len() as int;
    if m > k {
        assert(x[k] <= x[m - 1] <= x[m]);
        lemma_stays(x, u, l, y, c, k, m - 1);
        if at_place(x, u, l, y, c, m - 1) {
            assert(point_before(pts, m) == (x[m - 1], u[m - 1]) && pts[m] == (x[m], u[m]));
            let i = 2 * e - 1 - (m - 1);
            assert(point_before(pts, i) == (x[m], l[m]) && pts[i] == (x[m - 1], l[m - 1]));
            if differ(point_before(pts, m), pts[m], y) {
                lemma_beyond(point_before(pts, m), pts[m], y, c);
                assert(hits(point_before(pts, m), pts[m], y, c));
            } else if differ(point_before(pts, i), pts[i], y) {
                lemma_beyond(point_before(pts, i), pts[i], y, c);
                assert(hits(point_before(pts, i), pts[i], y, c));
            }
        }
    }
}

/// What lies within a strip its crossings tell.
proof fn lemma_holds_then(x: Seq<i64>, u: Seq<i64>, l: Seq<i64>, y: int, c: int)
    requires
        strip_ok(x, u, l),
        holds(x, u, l, y, c),
    ensures
        odd(strip(x, u, l), y, c, 2 * x.len() as int) || met(
            strip(x, u, l),
            y,
            c,
            2 * x.len() as int,
        ),
{
    let pts = strip(x, u, l);
    let e = x.len() as int;
    lemma_last_left(x, c, e);
    lemma_odd(x, u, l, y, c);
    if exists|m: int| on_edge(x, l, y, c, m) {
        let m = choose|m: int| on_edge(x, l, y, c, m);
        let i = 2 * e - 1 - m;
        assert(point_before(pts, i) == (x[m + 1], l[m + 1]) && pts[i] == (x[m], l[m]));
        lemma_turned((x[m], l[m]), (x[m + 1], l[m + 1]), y, c);
        assert(hits(point_before(pts, i), pts[i], y, c));
    } else if exists|k: int| at_place(x, u, l, y, c, k) {
        let k = choose|k: int| at_place(x, u, l, y, c, k);
        lemma_place_then(x, u, l, y, c, k);
    } else {
        let m = choose|m: int| behind_place(x, u, l, y, c, m);
        let (p, q) = ((x[m], u[m]), (x[m + 1], u[m + 1]));
        let (s, t) = ((x[m], l[m]), (x[m + 1], l[m + 1]));
        if c == x[m + 1] {
            let (a, b, d) = (u[m + 1] - y, l[m + 1] - y, c - x[m]);
            assert((a * d <= 0 ==> a <= 0) && (b * d > 0 ==> b > 0)) by (nonlinear_arith)
                requires
                    d > 0,
            ;
            assert((u[m] - y) * 0 == 0 && (l[m] - y) * 0 == 0);
            assert(at_place(x, u, l, y, c, m + 1));
            lemma_place_then(x, u, l, y, c, m + 1);
        } else {
            assert(last_left(x, c, e) == m) by {
                let n = last_left(x, c, e);
                if n < m {
                    assert(x[m] > c);
                } else if n > m {
                    assert(x[m + 1] <= x[n]);
                }
            }
            lemma_under(p, q, y, c);
            lemma_under(s, t, y, c);
            if hits(p, q, y, c) {
                assert(point_before(pts, m + 1) == p && pts[m + 1] == q);
            }
        }
    }
}

proof fn lemma_place_then(x: Seq<i64>, u: Seq<i64>, l: Seq<i64>, y: int, c: int, k: int)
    requires
        strip_ok(x, u, l),
        at_place(x, u, l, y, c, k),
    ensures
        odd(strip(x, u, l), y, c, 2 * x.len() as int) || met(
            strip(x, u, l),
            y,
            c,
            2 * x.len() as int,
        ),
{
    let pts = strip(x, u, l);
    let e = x.len() as int;
    lemma_last_left(x, c, e);
    lemma_odd(x, u, l, y, c);
    let m = last_left(x, c, e);
    assert(k <= m) by {
        if m < k {
            assert(x[k] > c);
        }
    }
    assert(x[k] <= x[m]);
    lemma_stays(x, u, l, y, c, k, m);
    if at_place(x, u, l, y, c, m) && !met(pts, y, c, 2 * e) {
        if m == e - 1 {
            assert(point_before(pts, e) == (x[m], u[m]) && pts[e] == (x[m], l[m]));
            lemma_beyond(point_before(pts, e), pts[e], y, c);
            assert(hits(point_before(pts, e), pts[e], y, c));
        } else {
            let (p, q) = ((x[m], u[m]), (x[m + 1], u[m + 1]));
            let (s, t) = ((x[m], l[m]), (x[m + 1], l[m + 1]));
            assert(point_before(pts, m + 1) == p && pts[m + 1] == q);
            assert(!hits(p, q, y, c));
            lemma_under(p, q, y, c);
            lemma_under(s, t, y, c);
            let (a, b, d) = (u[m] - y, l[m] - y, x[m + 1] - c);
            assert(a * d <= 0 && b * d > 0) by (nonlinear_arith)
                requires
                    a <= 0,
                    b > 0,
                    d > 0,
            ;
            assert((u[m + 1] - y) * 0 == 0 && (l[m + 1] - y) * 0 == 0);
        }
    }
}

/// Whether one strip stands within another: over the places from `o` on of the wider one, and
/// nowhere beyond its edges.
pub open spec fn strip_within(
    x: Seq<i64>,
    u: Seq<i64>,
    l: Seq<i64>,
    wx: Seq<i64>,
    wu: Seq<i64>,
    wl: Seq<i64>,
    o: int,
) -> bool {
    &&& 0 <= o
    &&& o + x.len() <= wx.len()
    &&& forall|k: int|
        0 <= k < x.len() ==> #[trigger] x[k] == wx[o + k] && wu[o + k] <= u[k] && l[k] <= wl[o + k]
}

proof fn lemma_holds_more(
    x: Seq<i64>,
    u: Seq<i64>,
    l: Seq<i64>,
    wx: Seq<i64>,
    wu: Seq<i64>,
    wl: Seq<i64>,
    o: int,
    y: int,
    c: int,
)
    requires
        strip_ok(x, u, l),
        strip_ok(wx, wu, wl),
        strip_within(x, u, l, wx, wu, wl, o),
        holds(x, u, l, y, c),
    ensures
        holds(wx, wu, wl, y, c),
{
    if exists|k: int| at_place(x, u, l, y, c, k) {
        let k = choose|k: int| at_place(x, u, l, y, c, k);
        assert(x[k] == wx[o + k]);
        assert(at_place(wx, wu, wl, y, c, o + k));
    } else {
        let m = if exists|m: int| behind_place(x, u, l, y, c, m) {
            choose|m: int| behind_place(x, u, l, y, c, m)
        } else {
            choose|m: int| on_edge(x, l, y, c, m)
        };
        let w = o + m;
        assert(x[m] == wx[w] && x[m + 1] == wx[w + 1]);
        assert(wu[w] <= u[m] && wu[w + 1] <= u[m + 1] && l[m] <= wl[w] && l[m + 1] <= wl[w + 1]);
        assert(u[m] <= l[m] && u[m + 1] <= l[m + 1]);
        assert(x[m] <= x[m + 1]);
        let (p, q) = ((x[m], u[m]), (x[m + 1], u[m + 1]));
        let (s, t) = ((x[m], l[m]), (x[m + 1], l[m + 1]));
        let (a, b) = ((wx[w], wu[w]), (wx[w + 1], wu[w + 1]));
        let (d, e) = ((wx[w], wl[w]), (wx[w + 1], wl[w + 1]));
        if on_edge(x, l, y, c, m) {
            lemma_hit(s, t, y, c);
        }
        if x[m] < x[m + 1] {
            lemma_under_order(a, b, p, q, y, c);
            lemma_under_order(p, q, s, t, y, c);
            lemma_under_order(s, t, d, e, y, c);
            if under(d, e, y, c) > 0 {
                assert(under(a, b, y, c) <= 0);
                assert(behind_place(wx, wu, wl, y, c, w));
            } else {
                lemma_under(d, e, y, c);
                assert(on_edge(wx, wl, y, c, w));
            }
        } else {
            let k = if l[m] <= y {
                m
            } else {
                m + 1
            };
            if wl[o + k] > y {
                assert(at_place(wx, wu, wl, y, c, o + k));
            } else {
                assert(differ(d, e, y));
                lemma_beyond(d, e, y, c);
                assert(on_edge(wx, wl, y, c, w));
            }
        }
    }
}

/// A strip covers every cell that one within it covers.
pub proof fn lemma_wider_covers(
    x: Seq<i64>,
    u: Seq<i64>,
    l: Seq<i64>,
    wx: Seq<i64>,
    wu: Seq<i64>,
    wl: Seq<i64>,
    o: int,
    px: int,
    py: int,
)
    requires
        strip_ok(x, u, l),
        strip_ok(wx, wu, wl),
        strip_within(x, u, l, wx, wu, wl, o),
        covers(strip(x, u, l), px, py),
    ensures
        covers(strip(wx, wu, wl), px, py),
{
    let (y, c) = (1000 * py + 500, 1000 * px);
    lemma_counted(strip(x, u, l), y, px, 2 * x.len() as int);
    lemma_counted(strip(wx, wu, wl), y, px, 2 * wx.len() as int);
    lemma_holds_if(x, u, l, y, c);
    lemma_holds_more(x, u, l, wx, wu, wl, o, y, c);
    lemma_holds_then(wx, wu, wl, y, c);
}

} // verus!
