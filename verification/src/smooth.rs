//! Simplifying outlines: dropping the steps of a pixel staircase that lie within a
//! tolerance of the line across them.

use crate::arith::square_root;
use crate::grid::MAX_SIDE;
use crate::trace::{on_lattice, Point};
use vstd::prelude::*;

verus! {

/// The tolerance's unit: so many make one cell's side.
pub const TOLERANCE_UNIT: u64 = 65_536;

/// The squared distance between two points.
pub open spec fn span_sq(a: Point, b: Point) -> int {
    (b.0 - a.0) * (b.0 - a.0) + (b.1 - a.1) * (b.1 - a.1)
}

/// Twice the signed area of the triangle over `a`, `b` and `p`.
pub open spec fn lean(p: Point, a: Point, b: Point) -> int {
    (p.0 - a.0) * (b.1 - a.1) - (p.1 - a.1) * (b.0 - a.0)
}

/// How far `p` lies off the line through `a` and `b`, on a scale that is the same for all
/// points: the doubled area over them, or the squared distance where `a` and `b` are one.
pub open spec fn offset(p: Point, a: Point, b: Point) -> int {
    if a == b {
        span_sq(p, a)
    } else if lean(p, a, b) < 0 {
        -lean(p, a, b)
    } else {
        lean(p, a, b)
    }
}

/// Whether a point of the given offset lies more than `eps` units off the line through `a`
/// and `b`.
pub open spec fn strays(o: int, a: Point, b: Point, eps: int) -> bool {
    if a == b {
        o * 4_294_967_296 > eps * eps
    } else {
        (o * 65_536) * (o * 65_536) > eps * eps * span_sq(a, b)
    }
}

/// The first point strictly between `lo` and `hi`, before `k`, that lies farthest off the
/// line through `lo` and `hi`; `lo` where none lies off it.
pub open spec fn farthest(pts: Seq<Point>, lo: int, hi: int, k: int) -> int
    decreases k - lo,
{
    if k <= lo + 1 {
        lo
    } else {
        let b = farthest(pts, lo, hi, k - 1);
        if offset(pts[k - 1], pts[lo], pts[hi]) > offset(pts[b], pts[lo], pts[hi]) {
            k - 1
        } else {
            b
        }
    }
}

pub proof fn lemma_farthest_range(pts: Seq<Point>, lo: int, hi: int, k: int)
    requires
        lo < hi,
        k <= hi,
    ensures
        lo <= farthest(pts, lo, hi, k),
        farthest(pts, lo, hi, k) < k || farthest(pts, lo, hi, k) == lo,
    decreases k - lo,
{
    if k > lo + 1 {
        lemma_farthest_range(pts, lo, hi, k - 1);
    }
}

/// What Douglas and Peucker keep of the points from `lo` to `hi`: the two ends, and where
/// a point between strays from the line through them, the farthest such point and what is
/// kept on either side of it.
pub open spec fn kept_points(pts: Seq<Point>, lo: int, hi: int, eps: int) -> Seq<Point>
    decreases hi - lo,
{
    let m = farthest(pts, lo, hi, hi);
    if lo < m < hi && strays(offset(pts[m], pts[lo], pts[hi]), pts[lo], pts[hi], eps) {
        kept_points(pts, lo, m, eps).drop_last() + kept_points(pts, m, hi, eps)
    } else {
        seq![pts[lo], pts[hi]]
    }
}

proof fn lemma_square_bound(x: int)
    by (nonlinear_arith)
    requires
        -0x7fff_ffff <= x <= 0x7fff_ffff,
    ensures
        0 <= x * x <= 0x3fff_ffff_ffff_ffff,
{
}

proof fn lemma_cross_bound(x: int, y: int)
    by (nonlinear_arith)
    requires
        -0x7fff_ffff <= x <= 0x7fff_ffff,
        -0x7fff_ffff <= y <= 0x7fff_ffff,
    ensures
        -0x3fff_ffff_ffff_ffff <= x * y <= 0x3fff_ffff_ffff_ffff,
{
}

fn span_of(a: Point, b: Point) -> (d: u128)
    requires
        0 <= a.0 <= MAX_SIDE,
        0 <= a.1 <= MAX_SIDE,
        0 <= b.0 <= MAX_SIDE,
        0 <= b.1 <= MAX_SIDE,
    ensures
        d == span_sq(a, b),
        d <= 0x7fff_ffff_ffff_fffe,
{
    let x: i64 = b.0 - a.0;
    let y: i64 = b.1 - a.1;
    proof {
        lemma_square_bound(x as int);
        lemma_square_bound(y as int);
    }
    (x * x + y * y) as u128
}

fn offset_of(p: Point, a: Point, b: Point) -> (o: u128)
    requires
        0 <= p.0 <= MAX_SIDE,
        0 <= p.1 <= MAX_SIDE,
        0 <= a.0 <= MAX_SIDE,
        0 <= a.1 <= MAX_SIDE,
        0 <= b.0 <= MAX_SIDE,
        0 <= b.1 <= MAX_SIDE,
    ensures
        o == offset(p, a, b),
        o <= 0x7fff_ffff_ffff_fffe,
{
    if a.0 == b.0 && a.1 == b.1 {
        proof {
            let (x, y, u, v) = (p.0 - a.0, p.1 - a.1, a.0 - p.0, a.1 - p.1);
            assert(x * x == u * u && y * y == v * v) by (nonlinear_arith)
                requires
                    x == -u,
                    y == -v,
            ;
        }
        span_of(p, a)
    } else {
        let px: i64 = p.0 - a.0;
        let py: i64 = p.1 - a.1;
        let bx: i64 = b.0 - a.0;
        let by: i64 = b.1 - a.1;
        proof {
            lemma_cross_bound(px as int, by as int);
            lemma_cross_bound(py as int, bx as int);
        }
        let c: i64 = px * by - py * bx;
        if c < 0 {
            (-c) as u128
        } else {
            c as u128
        }
    }
}

/// Whether a point of the given offset strays; see `strays`.
fn is_astray(o: u128, a: Point, b: Point, eps: u32) -> (r: bool)
    requires
        o <= 0x7fff_ffff_ffff_fffe,
        0 <= a.0 <= MAX_SIDE,
        0 <= a.1 <= MAX_SIDE,
        0 <= b.0 <= MAX_SIDE,
        0 <= b.1 <= MAX_SIDE,
    ensures
        r == strays(o as int, a, b, eps as int),
{
    let e: u128 = eps as u128;
    proof {
        assert(e * e <= 0xffff_ffff * 0xffff_ffff) by (nonlinear_arith)
            requires
                0 <= e <= 0xffff_ffff,
        ;
    }
    if a.0 == b.0 && a.1 == b.1 {
        o * 4_294_967_296 > e * e
    } else {
        let d: u128 = span_of(a, b);
        proof {
            let ee = e * e;
            assert(ee * d <= 0xffff_fffe_0000_0001 * 0x7fff_ffff_ffff_fffe) by (nonlinear_arith)
                requires
                    0 <= ee <= 0xffff_fffe_0000_0001,
                    0 <= d <= 0x7fff_ffff_ffff_fffe,
            ;
        }
        let s: u128 = square_root(e * e * d);
        let q: u128 = o * 65_536;
        proof {
            let m = e * e * d;
            if q > s {
                assert(q * q > m) by (nonlinear_arith)
                    requires
                        q >= s + 1,
                        m < (s + 1) * (s + 1),
                        s >= 0,
                ;
            } else {
                assert(q * q <= m) by (nonlinear_arith)
                    requires
                        0 <= q <= s,
                        s * s <= m,
                ;
            }
        }
        q > s
    }
}

/// What is kept holds at least the two ends.
pub(crate) proof fn lemma_kept_ends(pts: Seq<Point>, lo: int, hi: int, eps: int)
    requires
        lo < hi,
    ensures
        kept_points(pts, lo, hi, eps).len() >= 2,
        kept_points(pts, lo, hi, eps)[0] == pts[lo],
        kept_points(pts, lo, hi, eps).last() == pts[hi],
    decreases hi - lo,
{
    let m = farthest(pts, lo, hi, hi);
    if lo < m < hi && strays(offset(pts[m], pts[lo], pts[hi]), pts[lo], pts[hi], eps) {
        lemma_kept_ends(pts, lo, m, eps);
        lemma_kept_ends(pts, m, hi, eps);
    }
}

/// Simplifies the points from `lo` to `hi`; see `kept_points`.
fn dp(pts: &[Point], lo: usize, hi: usize, eps: u32, out: &mut Vec<Point>)
    requires
        lo < hi < pts@.len(),
        on_lattice(pts@),
    ensures
        final(out)@ == old(out)@ + kept_points(pts@, lo as int, hi as int, eps as int),
    decreases hi - lo,
{
    let ghost out0 = out@;
    let (a, b): (Point, Point) = (pts[lo], pts[hi]);
    let mut best: usize = lo;
    let mut most: u128 = 0;
    proof {
        assert(offset(a, a, b) == 0) by {
            let (x, y) = (a.0 - a.0, a.1 - a.1);
            let (u, v) = (b.0 - a.0, b.1 - a.1);
            assert(x * x + y * y == 0 && x * v - y * u == 0) by (nonlinear_arith)
                requires
                    x == 0,
                    y == 0,
            ;
        }
    }
    let mut k: usize = lo + 1;
    while k < hi
        invariant
            lo < k <= hi < pts@.len(),
            on_lattice(pts@),
            a == pts@[lo as int],
            b == pts@[hi as int],
            best == farthest(pts@, lo as int, hi as int, k as int),
            lo <= best < k,
            most == offset(pts@[best as int], a, b),
            most <= 0x7fff_ffff_ffff_fffe,
        decreases hi - k,
    {
        let o: u128 = offset_of(pts[k], a, b);
        if o > most {
            most = o;
            best = k;
        }
        k = k + 1;
    }
    if lo < best && is_astray(most, a, b, eps) {
        dp(pts, lo, best, eps, out);
        proof {
            lemma_kept_ends(pts@, lo as int, best as int, eps as int);
        }
        let ghost mid = out@;
        out.pop();
        proof {
            assert(out@ =~= out0 + kept_points(
                pts@,
                lo as int,
                best as int,
                eps as int,
            ).drop_last());
        }
        dp(pts, best, hi, eps, out);
        proof {
            assert(out@ =~= out0 + kept_points(pts@, lo as int, hi as int, eps as int));
        }
    } else {
        out.push(a);
        out.push(b);
        proof {
            assert(out@ =~= out0 + kept_points(pts@, lo as int, hi as int, eps as int));
        }
    }
}

/// The last of the points 1 up to `k` of a ring that lie farthest from its first.
pub open spec fn opposite(ring: Seq<Point>, k: int) -> int
    decreases k,
{
    if k <= 2 {
        1
    } else {
        let b = opposite(ring, k - 1);
        if span_sq(ring[0], ring[k - 1]) >= span_sq(ring[0], ring[b]) {
            k - 1
        } else {
            b
        }
    }
}

/// A ring simplified within `eps`: each half between the first point and the one opposite
/// is simplified by itself. Rings of under four points stay, and so do those of which fewer
/// than three points would be left.
pub open spec fn simplified(ring: Seq<Point>, eps: int) -> Seq<Point> {
    let n = ring.len() as int;
    if n < 4 {
        ring
    } else {
        let far = opposite(ring, n);
        let a = kept_points(ring, 0, far, eps);
        let back = ring.subrange(far, n).push(ring[0]);
        let b = kept_points(back, 0, back.len() - 1, eps);
        let all = a + b.subrange(1, b.len() - 1);
        if all.len() < 3 {
            ring
        } else {
            all
        }
    }
}

/// Simplifies a closed ring; `eps` counts `TOLERANCE_UNIT`ths of a cell's side.
pub fn simplify_ring(ring: &[Point], eps: u32) -> (r: Vec<Point>)
    requires
        on_lattice(ring@),
    ensures
        r@ == simplified(ring@, eps as int),
{
    let n: usize = ring.len();
    let mut whole: Vec<Point> = Vec::new();
    for i in 0..n
        invariant
            n == ring@.len(),
            whole@ == ring@.take(i as int),
    {
        whole.push(ring[i]);
        proof {
            assert(ring@.take(i + 1) =~= ring@.take(i as int).push(ring@[i as int]));
        }
    }
    proof {
        assert(ring@.take(n as int) =~= ring@);
    }
    if n < 4 {
        return whole;
    }
    let mut far: usize = 1;
    let mut most: u128 = span_of(ring[0], ring[1]);
    for k in 2..n
        invariant
            n == ring@.len(),
            n >= 4,
            on_lattice(ring@),
            1 <= far < k,
            far == opposite(ring@, k as int),
            most == span_sq(ring@[0], ring@[far as int]),
    {
        let d: u128 = span_of(ring[0], ring[k]);
        if d >= most {
            most = d;
            far = k;
        }
    }
    let mut all: Vec<Point> = Vec::new();
    dp(ring, 0, far, eps, &mut all);
    let mut back: Vec<Point> = Vec::new();
    for i in far..n
        invariant
            n == ring@.len(),
            far < n,
            back@ == ring@.subrange(far as int, i as int),
    {
        back.push(ring[i]);
        proof {
            assert(ring@.subrange(far as int, i + 1) =~= ring@.subrange(
                far as int,
                i as int,
            ).push(ring@[i as int]));
        }
    }
    back.push(ring[0]);
    let ghost chain = ring@.subrange(far as int, n as int).push(ring@[0]);
    let last: usize = back.len() - 1;
    let mut rest: Vec<Point> = Vec::new();
    proof {
        assert(back@ == chain);
        assert(on_lattice(back@)) by {
            assert forall|a: int| 0 <= a < back@.len() implies 0 <= (#[trigger] back@[a]).0
                <= MAX_SIDE && 0 <= back@[a].1 <= MAX_SIDE by {
                if a < n - far {
                    assert(back@[a] == ring@[far + a]);
                } else {
                    assert(back@[a] == ring@[0]);
                }
            }
        }
        lemma_kept_ends(chain, 0, last as int, eps as int);
        assert(Seq::<Point>::empty() + kept_points(ring@, 0, far as int, eps as int)
            =~= kept_points(ring@, 0, far as int, eps as int));
        assert(Seq::<Point>::empty() + kept_points(chain, 0, last as int, eps as int)
            =~= kept_points(chain, 0, last as int, eps as int));
    }
    dp(back.as_slice(), 0, last, eps, &mut rest);
    let ghost head = all@;
    let ghost b = rest@;
    for i in 1..rest.len() - 1
        invariant
            b == rest@,
            b.len() >= 2,
            all@ == head + b.subrange(1, i as int),
    {
        all.push(rest[i]);
        proof {
            assert(b.subrange(1, i + 1) =~= b.subrange(1, i as int).push(b[i as int]));
            assert(all@ =~= head + b.subrange(1, i + 1));
        }
    }
    if all.len() < 3 {
        whole
    } else {
        all
    }
}

/// Whether point `p` lies within `eps` of the line through two neighbouring kept points.
pub open spec fn held(kept: Seq<Point>, p: Point, eps: int) -> bool {
    exists|k: int|
        0 <= k < kept.len() - 1 && !strays(
            offset(p, #[trigger] kept[k], kept[k + 1]),
            kept[k],
            kept[k + 1],
            eps,
        )
}

pub proof fn lemma_farthest_most(pts: Seq<Point>, lo: int, hi: int, k: int, i: int)
    requires
        lo < i < k <= hi,
    ensures
        offset(pts[i], pts[lo], pts[hi]) <= offset(
            pts[farthest(pts, lo, hi, k)],
            pts[lo],
            pts[hi],
        ),
    decreases k - lo,
{
    if i < k - 1 {
        lemma_farthest_most(pts, lo, hi, k - 1, i);
    }
}

pub proof fn lemma_stray_monotone(o: int, q: int, a: Point, b: Point, eps: int)
    requires
        0 <= o <= q,
        !strays(q, a, b, eps),
    ensures
        !strays(o, a, b, eps),
{
    let (x, y) = (o * 65_536, q * 65_536);
    assert(x * x <= y * y) by (nonlinear_arith)
        requires
            0 <= x <= y,
    ;
}

pub proof fn lemma_offset_self(a: Point, b: Point, eps: int)
    ensures
        offset(a, a, b) == 0,
        !strays(0, a, b, eps),
{
    let (x, y) = (a.0 - a.0, a.1 - a.1);
    let (u, v) = (b.0 - a.0, b.1 - a.1);
    assert(x * x + y * y == 0 && x * v - y * u == 0) by (nonlinear_arith)
        requires
            x == 0,
            y == 0,
    ;
    assert(eps * eps >= 0) by (nonlinear_arith);
    let s = span_sq(a, b);
    assert(u * u >= 0 && v * v >= 0) by (nonlinear_arith);
    assert(eps * eps * s >= 0) by (nonlinear_arith)
        requires
            eps * eps >= 0,
            s >= 0,
    ;
}

/// No point is dropped that lies more than the tolerance off the line that replaces it:
/// every point from `lo` to `hi` lies within `eps` of the line through two neighbouring
/// kept points.
pub proof fn lemma_simplify_holds(pts: Seq<Point>, lo: int, hi: int, eps: int, i: int)
    requires
        0 <= lo < hi < pts.len(),
        lo <= i < hi,
    ensures
        held(kept_points(pts, lo, hi, eps), pts[i], eps),
    decreases hi - lo,
{
    let m = farthest(pts, lo, hi, hi);
    let kept = kept_points(pts, lo, hi, eps);
    lemma_farthest_range(pts, lo, hi, hi);
    lemma_offset_self(pts[lo], pts[hi], eps);
    if lo < m < hi && strays(offset(pts[m], pts[lo], pts[hi]), pts[lo], pts[hi], eps) {
        let a = kept_points(pts, lo, m, eps);
        let b = kept_points(pts, m, hi, eps);
        lemma_kept_ends(pts, lo, m, eps);
        lemma_kept_ends(pts, m, hi, eps);
        if i < m {
            lemma_simplify_holds(pts, lo, m, eps, i);
            let k = choose|k: int|
                0 <= k < a.len() - 1 && !strays(
                    offset(pts[i], #[trigger] a[k], a[k + 1]),
                    a[k],
                    a[k + 1],
                    eps,
                );
            assert(kept[k] == a[k]);
            if k + 1 < a.len() - 1 {
                assert(kept[k + 1] == a[k + 1]);
            } else {
                assert(kept[k + 1] == b[0]);
            }
        } else {
            lemma_simplify_holds(pts, m, hi, eps, i);
            let k = choose|k: int|
                0 <= k < b.len() - 1 && !strays(
                    offset(pts[i], #[trigger] b[k], b[k + 1]),
                    b[k],
                    b[k + 1],
                    eps,
                );
            let s = a.len() - 1;
            assert(kept[s + k] == b[k] && kept[s + k + 1] == b[k + 1]);
        }
    } else {
        assert(kept[0] == pts[lo] && kept[1] == pts[hi]);
        if i > lo {
            lemma_farthest_most(pts, lo, hi, hi, i);
            lemma_offset_nonneg(pts[i], pts[lo], pts[hi]);
            lemma_stray_monotone(
                offset(pts[i], pts[lo], pts[hi]),
                offset(pts[m], pts[lo], pts[hi]),
                pts[lo],
                pts[hi],
                eps,
            );
        }
    }
}

pub proof fn lemma_offset_nonneg(p: Point, a: Point, b: Point)
    ensures
        offset(p, a, b) >= 0,
{
    let (u, v) = (a.0 - p.0, a.1 - p.1);
    assert(u * u >= 0 && v * v >= 0) by (nonlinear_arith);
}

} // verus!
