//! What simplifying a ring keeps and drops, and how its curve leaves its points.

use crate::arith::{is_root, lemma_is_root};
use crate::curve::{before, behind, bend, fine, leg, pieces, pull, straightness};
use crate::plane::lemma_lagrange;
use crate::smooth::{
    farthest, kept_points, lemma_farthest_most, lemma_farthest_range, lemma_kept_ends,
    lemma_offset_nonneg, lemma_offset_self, lemma_simplify_holds, lemma_stray_monotone, offset,
    opposite, simplified, span_sq, strays,
};
use crate::text_laws::lemma_evenly;
use crate::trace::{on_lattice, Point};
use vstd::prelude::*;

verus! {

/// How far a point lies off a line: with how far it lies along the line it makes up its
/// whole distance, and it is never negative.
pub proof fn lemma_off_line(p: Point, a: Point, b: Point)
    ensures
        offset(p, a, b) >= 0,
        a == b ==> offset(p, a, b) == span_sq(a, p),
        a != b ==> ({
            let along = (p.0 - a.0) * (b.0 - a.0) + (p.1 - a.1) * (b.1 - a.1);
            offset(p, a, b) * offset(p, a, b) + along * along == span_sq(a, p) * span_sq(a, b)
        }),
{
    let (x, y, u, v) = (p.0 - a.0, p.1 - a.1, b.0 - a.0, b.1 - a.1);
    lemma_lagrange(x, y, u, v);
    lemma_offset_nonneg(p, a, b);
    let c = x * v - y * u;
    assert((-c) * (-c) == c * c) by (nonlinear_arith);
    assert((-x) * (-x) == x * x && (-y) * (-y) == y * y) by (nonlinear_arith);
}

/// A point strays from a level line where it is higher or lower by more than the tolerance,
/// from an upright one where it is farther left or right, and from a lone point where it is
/// farther away. The tolerance counts the 65536th parts of a cell's side.
pub proof fn lemma_stray(p: Point, a: Point, b: Point, eps: int)
    requires
        0 <= eps,
    ensures
        ({
            let s = strays(offset(p, a, b), a, b, eps);
            let (dx, dy) = ((p.0 - a.0) * 65_536, (p.1 - a.1) * 65_536);
            &&& a.1 == b.1 && a.0 != b.0 ==> (s <==> dy > eps || -dy > eps)
            &&& a.0 == b.0 && a.1 != b.1 ==> (s <==> dx > eps || -dx > eps)
            &&& a == b ==> (s <==> dx * dx + dy * dy > eps * eps)
        }),
{
    let (x, y, u, v) = (p.0 - a.0, p.1 - a.1, b.0 - a.0, b.1 - a.1);
    if a.1 == b.1 && a.0 != b.0 {
        lemma_one_way(y, u, eps);
        assert(x * v == 0) by (nonlinear_arith)
            requires
                v == 0,
        ;
        assert(v * v == 0) by (nonlinear_arith)
            requires
                v == 0,
        ;
        let o = offset(p, a, b);
        assert(o == y * u || o == -(y * u));
        lemma_sign(o, y * u);
    } else if a.0 == b.0 && a.1 != b.1 {
        lemma_one_way(x, v, eps);
        assert(y * u == 0) by (nonlinear_arith)
            requires
                u == 0,
        ;
        assert(u * u == 0) by (nonlinear_arith)
            requires
                u == 0,
        ;
        let o = offset(p, a, b);
        assert(o == x * v || o == -(x * v));
        lemma_sign(o, x * v);
    } else if a == b {
        assert((-x) * (-x) == x * x && (-y) * (-y) == y * y) by (nonlinear_arith);
        assert((x * 65_536) * (x * 65_536) == x * x * 4_294_967_296) by (nonlinear_arith);
        assert((y * 65_536) * (y * 65_536) == y * y * 4_294_967_296) by (nonlinear_arith);
    }
}

proof fn lemma_sign(o: int, c: int)
    requires
        o == c || o == -c,
    ensures
        (o * 65_536) * (o * 65_536) == (c * 65_536) * (c * 65_536),
{
    assert((o * 65_536) * (o * 65_536) == (c * 65_536) * (c * 65_536)) by (nonlinear_arith)
        requires
            o == c || o == -c,
    ;
}

proof fn lemma_one_way(y: int, u: int, eps: int)
    requires
        u != 0,
        0 <= eps,
    ensures
        ((y * u) * 65_536) * ((y * u) * 65_536) > eps * eps * (u * u) <==> y * 65_536 > eps || -(y
            * 65_536) > eps,
{
    let d = y * 65_536;
    let (q, e) = (d * d, eps * eps);
    let w = u * u;
    assert(((y * u) * 65_536) * ((y * u) * 65_536) == q * w) by (nonlinear_arith)
        requires
            d == y * 65_536,
            q == d * d,
            w == u * u,
    ;
    assert(w > 0) by (nonlinear_arith)
        requires
            w == u * u,
            u != 0,
    ;
    assert(q * w > e * w <==> q > e) by (nonlinear_arith)
        requires
            w > 0,
    ;
    assert(q > e <==> d > eps || -d > eps) by (nonlinear_arith)
        requires
            q == d * d,
            e == eps * eps,
            eps >= 0,
    ;
}

/// A stretch from which no point strays is replaced by its ends.
pub proof fn lemma_stretch_drops(pts: Seq<Point>, lo: int, hi: int, eps: int)
    requires
        0 <= lo < hi < pts.len(),
        forall|i: int|
            lo < i < hi ==> !strays(
                offset(#[trigger] pts[i], pts[lo], pts[hi]),
                pts[lo],
                pts[hi],
                eps,
            ),
    ensures
        kept_points(pts, lo, hi, eps) == seq![pts[lo], pts[hi]],
{
}

/// A stretch from which some point strays is parted at the point farthest off, the first of
/// several, and either side is simplified by itself.
pub proof fn lemma_stretch_parts(pts: Seq<Point>, lo: int, hi: int, eps: int, i: int)
    requires
        0 <= lo < i < hi < pts.len(),
        strays(offset(pts[i], pts[lo], pts[hi]), pts[lo], pts[hi], eps),
    ensures
        exists|m: int|
            {
                &&& lo < m < hi
                &&& forall|k: int|
                    lo < k < hi ==> offset(#[trigger] pts[k], pts[lo], pts[hi]) <= offset(
                        pts[m],
                        pts[lo],
                        pts[hi],
                    )
                &&& forall|k: int|
                    lo < k < m ==> offset(#[trigger] pts[k], pts[lo], pts[hi]) < offset(
                        pts[m],
                        pts[lo],
                        pts[hi],
                    )
                &&& kept_points(pts, lo, hi, eps) == kept_points(pts, lo, m, eps).drop_last()
                    + #[trigger] kept_points(pts, m, hi, eps)
            },
{
    let m = farthest(pts, lo, hi, hi);
    lemma_farthest_range(pts, lo, hi, hi);
    lemma_offset_self(pts[lo], pts[hi], eps);
    assert forall|k: int| lo < k < hi implies offset(#[trigger] pts[k], pts[lo], pts[hi]) <= offset(
        pts[m],
        pts[lo],
        pts[hi],
    ) by {
        lemma_farthest_most(pts, lo, hi, hi, k);
    }
    lemma_first_farthest(pts, lo, hi, hi);
    lemma_offset_nonneg(pts[i], pts[lo], pts[hi]);
    let o = offset(pts[m], pts[lo], pts[hi]);
    if !strays(o, pts[lo], pts[hi], eps) {
        lemma_stray_monotone(offset(pts[i], pts[lo], pts[hi]), o, pts[lo], pts[hi], eps);
    }
    assert(kept_points(pts, lo, hi, eps) == kept_points(pts, lo, m, eps).drop_last() + kept_points(
        pts,
        m,
        hi,
        eps,
    ));
}

proof fn lemma_first_farthest(pts: Seq<Point>, lo: int, hi: int, k: int)
    requires
        lo < hi,
        k <= hi,
    ensures
        forall|i: int|
            lo < i < farthest(pts, lo, hi, k) ==> offset(#[trigger] pts[i], pts[lo], pts[hi])
                < offset(pts[farthest(pts, lo, hi, k)], pts[lo], pts[hi]),
    decreases k - lo,
{
    if k > lo + 1 {
        lemma_first_farthest(pts, lo, hi, k - 1);
        lemma_farthest_range(pts, lo, hi, k - 1);
        let m = farthest(pts, lo, hi, k);
        if m == k - 1 {
            assert forall|i: int| lo < i < m implies offset(#[trigger] pts[i], pts[lo], pts[hi])
                < offset(pts[m], pts[lo], pts[hi]) by {
                lemma_farthest_most(pts, lo, hi, k - 1, i);
            }
        }
    }
}

/// The point of a ring opposite its first lies at least as far from it as any other, and
/// farther than all that come later.
pub proof fn lemma_opposite(ring: Seq<Point>, k: int)
    requires
        2 <= k <= ring.len(),
    ensures
        1 <= opposite(ring, k) < k,
        forall|i: int|
            1 <= i < k ==> span_sq(ring[0], #[trigger] ring[i]) <= span_sq(
                ring[0],
                ring[opposite(ring, k)],
            ),
        forall|i: int|
            opposite(ring, k) < i < k ==> span_sq(ring[0], #[trigger] ring[i]) < span_sq(
                ring[0],
                ring[opposite(ring, k)],
            ),
    decreases k,
{
    if k > 2 {
        lemma_opposite(ring, k - 1);
    }
}

/// Whether point `p` lies within `eps` of the line through two neighbouring points of a ring.
pub open spec fn held_round(ring: Seq<Point>, p: Point, eps: int) -> bool {
    exists|k: int| #[trigger] holds_at(ring, p, eps, k)
}

/// Whether point `p` lies within `eps` of the line through point `k` of a ring and the next.
pub open spec fn holds_at(ring: Seq<Point>, p: Point, eps: int, k: int) -> bool {
    let b = ring[if k == ring.len() - 1 {
        0
    } else {
        k + 1
    }];
    0 <= k < ring.len() && !strays(offset(p, ring[k], b), ring[k], b, eps)
}

/// A simplified ring keeps its first point and the one opposite, and no point of the ring lies
/// more than the tolerance off the line that replaces it.
pub proof fn lemma_ring_held(ring: Seq<Point>, eps: int, i: int)
    requires
        ring.len() >= 4,
        simplified(ring, eps) != ring,
        0 <= i < ring.len(),
    ensures
        simplified(ring, eps).len() >= 3,
        simplified(ring, eps)[0] == ring[0],
        simplified(ring, eps).contains(ring[opposite(ring, ring.len() as int)]),
        held_round(simplified(ring, eps), ring[i], eps),
{
    let n = ring.len() as int;
    let far = opposite(ring, n);
    lemma_opposite(ring, n);
    let a = kept_points(ring, 0, far, eps);
    let back = ring.subrange(far, n).push(ring[0]);
    let last = back.len() - 1;
    let b = kept_points(back, 0, last, eps);
    lemma_kept_ends(ring, 0, far, eps);
    lemma_kept_ends(back, 0, last, eps);
    let all = a + b.subrange(1, b.len() - 1);
    assert(simplified(ring, eps) == all);
    assert(all[0] == a[0]);
    let z = a.len() - 1;
    assert(all[z] == ring[far]);
    if i < far {
        lemma_simplify_holds(ring, 0, far, eps, i);
        let k = choose|k: int|
            0 <= k < a.len() - 1 && !strays(
                offset(ring[i], #[trigger] a[k], a[k + 1]),
                a[k],
                a[k + 1],
                eps,
            );
        assert(all[k] == a[k] && all[k + 1] == a[k + 1]);
        assert(holds_at(all, ring[i], eps, k));
    } else {
        assert(back[i - far] == ring[i]);
        lemma_simplify_holds(back, 0, last, eps, i - far);
        let k = choose|k: int|
            0 <= k < b.len() - 1 && !strays(
                offset(ring[i], #[trigger] b[k], b[k + 1]),
                b[k],
                b[k + 1],
                eps,
            );
        assert(b[0] == ring[far] && b.last() == ring[0]);
        if k > 0 {
            assert(all[z + k] == b[k]);
        }
        if k + 1 < b.len() - 1 {
            assert(all[z + k + 1] == b[k + 1]);
        }
        assert(holds_at(all, ring[i], eps, z + k));
    }
}

/// The length of a leg, to the part of two to the 32nd.
pub proof fn lemma_leg(p: Point, q: Point)
    ensures
        leg(p, q) >= 0,
        leg(p, q) * leg(p, q) <= span_sq(p, q) * 0x1_0000_0000_0000_0000,
        span_sq(p, q) * 0x1_0000_0000_0000_0000 < (leg(p, q) + 1) * (leg(p, q) + 1),
{
    let (x, y) = (q.0 - p.0, q.1 - p.1);
    assert(x * x >= 0 && y * y >= 0) by (nonlinear_arith);
    let n = span_sq(p, q) * 0x1_0000_0000_0000_0000;
    lemma_is_root(n);
    assert(is_root(n, leg(p, q)));
}

/// A way that turns at a right angle or back is not straight at all, and none is straighter
/// than a straight one.
pub proof fn lemma_straightness(p: Point, q: Point, r: Point)
    ensures
        straightness(p, q, r) <= 0x4000_0000,
        (q.0 - p.0) * (r.0 - q.0) + (q.1 - p.1) * (r.1 - q.1) <= 0 ==> straightness(p, q, r) == 0,
{
}

/// The curve leaves a point along the line between its neighbours, by a sixth of that line
/// scaled by how straight the way runs on, to the nearest thousandth.
pub proof fn lemma_pull(way: int, s: int)
    ensures
        -0x1_8000_0000 <= 2 * (pull(way, s) * 0x1_8000_0000 - way * 1000 * s) <= 0x1_8000_0000,
{
    lemma_evenly(way * 1000 * s, 0x1_8000_0000);
}

/// Where that stays between the ends of a piece its control points lie just there: the first
/// that much past its start, the second that much before its end.
pub proof fn lemma_controls(pts: Seq<Point>, i: int)
    requires
        on_lattice(pts),
        pts.len() >= 3,
        0 <= i < pts.len(),
    ensures
        ({
            let n = pts.len() as int;
            let j = (i + 1) % n;
            let (p, q, r, t) = (before(pts, i), pts[i], pts[j], behind(pts, i, 2));
            let g = pieces(pts)[i];
            let (x, y) = (
                q.0 * 1000 + pull(r.0 - p.0, bend(pts, i)),
                q.1 * 1000 + pull(r.1 - p.1, bend(pts, i)),
            );
            let (u, v) = (
                r.0 * 1000 - pull(t.0 - q.0, bend(pts, j)),
                r.1 * 1000 - pull(t.1 - q.1, bend(pts, j)),
            );
            &&& g.p == fine(r)
            &&& between(x, q.0 * 1000, r.0 * 1000) ==> g.c1.0 == x
            &&& between(y, q.1 * 1000, r.1 * 1000) ==> g.c1.1 == y
            &&& between(u, q.0 * 1000, r.0 * 1000) ==> g.c2.0 == u
            &&& between(v, q.1 * 1000, r.1 * 1000) ==> g.c2.1 == v
        }),
{
    let n = pts.len() as int;
    let j = (i + 1) % n;
    assert(0 <= j < n);
    assert(0 <= pts[i].0 <= 0x7fff_ffff && 0 <= pts[j].0 <= 0x7fff_ffff);
}

/// Whether `c` lies between `a` and `b`, whichever is the greater.
pub open spec fn between(c: int, a: int, b: int) -> bool {
    a <= c <= b || b <= c <= a
}

} // verus!
