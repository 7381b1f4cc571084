//! Curves through the points of an outline: sharp where the outline turns sharply, smooth
//! where it bends.

use crate::arith::{even_div, evenly, root, square_root};
use crate::grid::MAX_SIDE;
use crate::smooth::{
    farthest, kept_points, lemma_kept_ends, offset, opposite, simplified, simplify_ring, span_sq,
    strays,
};
use crate::trace::{on_lattice, Point};
use vstd::prelude::*;

verus! {

/// The straightness of a line that runs straight on.
pub const STRAIGHT: i64 = 0x4000_0000;

/// The straightness below which a corner is sharp: the cosine of one radian.
pub const SHARP: i64 = 580_145_183;

/// One piece of a curve: to `p`, drawn towards `c1` and then `c2`.
#[derive(Clone, Copy, Debug)]
pub struct Cubic {
    pub c1: Point,
    pub c2: Point,
    pub p: Point,
}

/// A closed curve.
pub struct Curve {
    pub start: Point,
    pub segs: Vec<Cubic>,
}

/// How far the second of two legs runs on in the direction of the first: their product.
pub open spec fn forward(p: Point, q: Point, r: Point) -> int {
    (q.0 - p.0) * (r.0 - q.0) + (q.1 - p.1) * (r.1 - q.1)
}

/// The distance between two points, on a scale of two to the 32nd.
pub open spec fn leg(p: Point, q: Point) -> int {
    root(span_sq(p, q) * 0x1_0000_0000_0000_0000)
}

/// How straight the way from `p` over `q` to `r` runs on: the cosine of its turn, and
/// nothing where it turns back.
pub open spec fn straightness(p: Point, q: Point, r: Point) -> int {
    if forward(p, q, r) <= 0 {
        0
    } else {
        let s = forward(p, q, r) * 0x1000_0000_0000_0000 / leg(p, q) * 0x4_0000_0000 / leg(q, r);
        if s > STRAIGHT {
            STRAIGHT as int
        } else {
            s
        }
    }
}

/// The point before point `i` of a ring.
pub open spec fn before(pts: Seq<Point>, i: int) -> Point {
    pts[if i == 0 {
        pts.len() - 1
    } else {
        i - 1
    }]
}

/// The point `k` behind point `i` of a ring.
pub open spec fn behind(pts: Seq<Point>, i: int, k: int) -> Point {
    pts[(i + k) % pts.len() as int]
}

/// How much the curve bends at point `i`: nothing at a sharp corner.
pub open spec fn bend(pts: Seq<Point>, i: int) -> int {
    let s = straightness(before(pts, i), pts[i], behind(pts, i, 1));
    if s < SHARP {
        0
    } else {
        s
    }
}

/// A coordinate between those of two points.
pub open spec fn within(c: int, a: int, b: int) -> int {
    let (lo, hi) = if a < b {
        (a, b)
    } else {
        (b, a)
    };
    if c < lo {
        lo
    } else if c > hi {
        hi
    } else {
        c
    }
}

/// A sixth of the way, scaled by the bend, in thousandths; halves go to the even neighbour.
pub open spec fn pull(way: int, s: int) -> int {
    evenly(way * 1000 * s, 6 * STRAIGHT)
}

/// A point in thousandths.
pub open spec fn fine(p: Point) -> Point {
    ((p.0 * 1000) as i64, (p.1 * 1000) as i64)
}

/// The piece of the curve from point `i` to the next: it leaves and arrives along the line
/// through the neighbours on either side, and stays between its two ends.
pub open spec fn piece(pts: Seq<Point>, i: int) -> Cubic {
    let (p, q, r, t) = (before(pts, i), pts[i], behind(pts, i, 1), behind(pts, i, 2));
    let (s, e) = (bend(pts, i), bend(pts, (i + 1) % pts.len() as int));
    Cubic {
        c1: (
            within(q.0 * 1000 + pull(r.0 - p.0, s), q.0 * 1000, r.0 * 1000) as i64,
            within(q.1 * 1000 + pull(r.1 - p.1, s), q.1 * 1000, r.1 * 1000) as i64,
        ),
        c2: (
            within(r.0 * 1000 - pull(t.0 - q.0, e), q.0 * 1000, r.0 * 1000) as i64,
            within(r.1 * 1000 - pull(t.1 - q.1, e), q.1 * 1000, r.1 * 1000) as i64,
        ),
        p: fine(r),
    }
}

/// The pieces of the curve through the points of a ring.
pub open spec fn pieces(pts: Seq<Point>) -> Seq<Cubic> {
    Seq::new(pts.len(), |i: int| piece(pts, i))
}

/// The curve of a ring that is simplified within `eps`, in thousandths: none where fewer
/// than three points are left.
pub open spec fn smoothed(ring: Seq<Point>, eps: int) -> Option<(Point, Seq<Cubic>)> {
    let pts = simplified(ring, eps);
    if pts.len() < 3 {
        None
    } else {
        Some((fine(pts[0]), pieces(pts)))
    }
}

/// Whether a point lies on the lattice.
spec fn placed(p: Point) -> bool {
    0 <= p.0 <= MAX_SIDE && 0 <= p.1 <= MAX_SIDE
}

proof fn lemma_product(a: int, b: int)
    by (nonlinear_arith)
    requires
        -0x7fff_ffff <= a <= 0x7fff_ffff,
        -0x7fff_ffff <= b <= 0x7fff_ffff,
    ensures
        -0x4000_0000_0000_0000 < a * b < 0x4000_0000_0000_0000,
        0 <= a * a < 0x4000_0000_0000_0000,
{
}

fn forward_of(p: Point, q: Point, r: Point) -> (f: i128)
    requires
        placed(p),
        placed(q),
        placed(r),
    ensures
        f == forward(p, q, r),
        -0x8000_0000_0000_0000 < f < 0x8000_0000_0000_0000,
{
    let (ax, ay) = ((q.0 - p.0) as i128, (q.1 - p.1) as i128);
    let (bx, by) = ((r.0 - q.0) as i128, (r.1 - q.1) as i128);
    proof {
        lemma_product(ax as int, bx as int);
        lemma_product(ay as int, by as int);
    }
    ax * bx + ay * by
}

fn leg_of(p: Point, q: Point) -> (n: i128)
    requires
        placed(p),
        placed(q),
    ensures
        n == leg(p, q),
        0 <= n <= 0xffff_ffff_ffff_ffff,
        p != q ==> n >= 0x1_0000_0000,
{
    let (ax, ay) = ((q.0 - p.0) as i128, (q.1 - p.1) as i128);
    proof {
        lemma_product(ax as int, ax as int);
        lemma_product(ay as int, ay as int);
    }
    let d: u128 = (ax * ax + ay * ay) as u128;
    let n: u128 = square_root(d * 0x1_0000_0000_0000_0000);
    proof {
        if p != q {
            assert(ax * ax + ay * ay >= 1) by (nonlinear_arith)
                requires
                    ax != 0 || ay != 0,
            ;
            assert(n >= 0x1_0000_0000) by (nonlinear_arith)
                requires
                    n >= 0,
                    (n + 1) * (n + 1) > 0x1_0000_0000_0000_0000,
            ;
        }
    }
    n as i128
}

fn straightness_of(p: Point, q: Point, r: Point) -> (s: i64)
    requires
        placed(p),
        placed(q),
        placed(r),
    ensures
        s == straightness(p, q, r),
        0 <= s <= STRAIGHT,
{
    let f: i128 = forward_of(p, q, r);
    if f <= 0 {
        return 0;
    }
    proof {
        lemma_zero_leg(p, q, r);
    }
    let a: i128 = leg_of(p, q);
    let b: i128 = leg_of(q, r);
    let n: i128 = f * 0x1000_0000_0000_0000;
    let t: i128 = n / a;
    proof {
        let (x, y) = (n as int, a as int);
        assert(0 <= x / y <= 0x8000_0000_0000_0000 * 0x1000_0000) by (nonlinear_arith)
            requires
                0 <= x <= 0x8000_0000_0000_0000 * 0x1000_0000_0000_0000,
                y >= 0x1_0000_0000,
        ;
    }
    let s: i128 = t * 0x4_0000_0000 / b;
    proof {
        let (x, y) = (t * 0x4_0000_0000, b as int);
        assert(0 <= x / y) by (nonlinear_arith)
            requires
                0 <= x,
                y > 0,
        ;
    }
    if s > STRAIGHT as i128 {
        STRAIGHT
    } else {
        s as i64
    }
}

proof fn lemma_zero_leg(p: Point, q: Point, r: Point)
    requires
        forward(p, q, r) > 0,
    ensures
        p != q,
        q != r,
{
    let (a, b, c, d) = (q.0 - p.0, r.0 - q.0, q.1 - p.1, r.1 - q.1);
    if p == q || q == r {
        assert(a * b + c * d == 0) by (nonlinear_arith)
            requires
                (a == 0 && c == 0) || (b == 0 && d == 0),
        ;
    }
}

/// The index `k` behind `i` in a ring of `n` points.
fn wrap(i: usize, k: usize, n: usize) -> (j: usize)
    requires
        i < n,
        k < n,
    ensures
        j == (i + k) % n as int,
        j < n,
{
    if k < n - i {
        proof {
            vstd::arithmetic::div_mod::lemma_small_mod((i + k) as nat, n as nat);
        }
        i + k
    } else {
        proof {
            vstd::arithmetic::div_mod::lemma_fundamental_div_mod_converse(
                i + k,
                n as int,
                1,
                i + k - n,
            );
        }
        k - (n - i)
    }
}

fn bend_of(pts: &[Point], i: usize) -> (s: i64)
    requires
        on_lattice(pts@),
        3 <= pts@.len(),
        i < pts@.len(),
    ensures
        s == bend(pts@, i as int),
        0 <= s <= STRAIGHT,
{
    let n: usize = pts.len();
    let p: Point = pts[if i == 0 { n - 1 } else { i - 1 }];
    let q: Point = pts[i];
    let r: Point = pts[wrap(i, 1, n)];
    let s: i64 = straightness_of(p, q, r);
    if s < SHARP {
        0
    } else {
        s
    }
}

fn pull_of(way: i64, s: i64) -> (p: i64)
    requires
        -MAX_SIDE <= way <= MAX_SIDE,
        0 <= s <= STRAIGHT,
    ensures
        p == pull(way as int, s as int),
        -0x1000_0000_0000 <= p <= 0x1000_0000_0000,
{
    let w: i128 = way as i128 * 1000;
    let t: i128 = s as i128;
    let den: i128 = 6 * STRAIGHT as i128;
    proof {
        let (x, y) = (w as int, t as int);
        assert(-0x1000_0000_0000 * 0x4000_0000 <= x * y <= 0x1000_0000_0000 * 0x4000_0000)
            by (nonlinear_arith)
            requires
                -0x1000_0000_0000 <= x <= 0x1000_0000_0000,
                0 <= y <= 0x4000_0000,
        ;
    }
    even_div(w * t, den) as i64
}

fn hold_within(c: i64, a: i64, b: i64) -> (r: i64)
    ensures
        r == within(c as int, a as int, b as int),
{
    let (lo, hi) = if a < b { (a, b) } else { (b, a) };
    if c < lo {
        lo
    } else if c > hi {
        hi
    } else {
        c
    }
}

/// Draws the curve through the points of a closed ring; see `pieces`. Coordinates come out
/// in thousandths.
pub fn catmull_rom_closed(pts: &[Point]) -> (c: Curve)
    requires
        on_lattice(pts@),
        3 <= pts@.len(),
    ensures
        c.start == fine(pts@[0]),
        c.segs@ == pieces(pts@),
{
    let n: usize = pts.len();
    let mut segs: Vec<Cubic> = Vec::new();
    for i in 0..n
        invariant
            n == pts@.len(),
            on_lattice(pts@),
            3 <= n,
            segs@.len() == i,
            forall|k: int| 0 <= k < i ==> #[trigger] segs@[k] == piece(pts@, k),
    {
        let p: Point = pts[if i == 0 { n - 1 } else { i - 1 }];
        let q: Point = pts[i];
        let r: Point = pts[wrap(i, 1, n)];
        let t: Point = pts[wrap(i, 2, n)];
        let s: i64 = bend_of(pts, i);
        let e: i64 = bend_of(pts, wrap(i, 1, n));
        let (qx, qy) = (q.0 * 1000, q.1 * 1000);
        let (rx, ry) = (r.0 * 1000, r.1 * 1000);
        let c1: Point = (
            hold_within(qx + pull_of(r.0 - p.0, s), qx, rx),
            hold_within(qy + pull_of(r.1 - p.1, s), qy, ry),
        );
        let c2: Point = (
            hold_within(rx - pull_of(t.0 - q.0, e), qx, rx),
            hold_within(ry - pull_of(t.1 - q.1, e), qy, ry),
        );
        segs.push(Cubic { c1, c2, p: (rx, ry) });
    }
    proof {
        assert(segs@ =~= pieces(pts@));
    }
    Curve { start: (pts[0].0 * 1000, pts[0].1 * 1000), segs }
}

proof fn lemma_kept_on_lattice(pts: Seq<Point>, lo: int, hi: int, eps: int)
    requires
        on_lattice(pts),
        0 <= lo < pts.len(),
        0 <= hi < pts.len(),
    ensures
        on_lattice(kept_points(pts, lo, hi, eps)),
    decreases hi - lo,
{
    let m = farthest(pts, lo, hi, hi);
    let kept = kept_points(pts, lo, hi, eps);
    if lo < m < hi && strays(offset(pts[m], pts[lo], pts[hi]), pts[lo], pts[hi], eps) {
        lemma_kept_on_lattice(pts, lo, m, eps);
        lemma_kept_on_lattice(pts, m, hi, eps);
        let a = kept_points(pts, lo, m, eps).drop_last();
        let b = kept_points(pts, m, hi, eps);
        lemma_kept_ends(pts, lo, m, eps);
        assert forall|k: int| 0 <= k < kept.len() implies placed(#[trigger] kept[k]) by {
            if k < a.len() {
                assert(kept[k] == kept_points(pts, lo, m, eps)[k]);
            } else {
                assert(kept[k] == b[k - a.len()]);
            }
        }
    }
}

proof fn lemma_simplified_on_lattice(ring: Seq<Point>, eps: int)
    requires
        on_lattice(ring),
    ensures
        on_lattice(simplified(ring, eps)),
{
    let n = ring.len() as int;
    if n >= 4 {
        let far = opposite(ring, n);
        lemma_opposite_range(ring, n);
        let a = kept_points(ring, 0, far, eps);
        let back = ring.subrange(far, n).push(ring[0]);
        let b = kept_points(back, 0, back.len() - 1, eps);
        lemma_kept_on_lattice(ring, 0, far, eps);
        assert(on_lattice(back)) by {
            assert forall|k: int| 0 <= k < back.len() implies placed(#[trigger] back[k]) by {
                if k < n - far {
                    assert(back[k] == ring[far + k]);
                }
            }
        }
        lemma_kept_on_lattice(back, 0, back.len() - 1, eps);
        lemma_kept_ends(back, 0, back.len() - 1, eps);
        let all = a + b.subrange(1, b.len() - 1);
        assert forall|k: int| 0 <= k < all.len() implies placed(#[trigger] all[k]) by {
            if k < a.len() {
                assert(all[k] == a[k]);
            } else {
                assert(all[k] == b[k - a.len() + 1]);
            }
        }
    }
}

proof fn lemma_opposite_range(ring: Seq<Point>, k: int)
    requires
        2 <= k,
    ensures
        1 <= opposite(ring, k) < k,
    decreases k,
{
    if k > 2 {
        lemma_opposite_range(ring, k - 1);
    }
}

/// Draws the outline of a ring as a curve: it is simplified within `eps` first. None where
/// fewer than three points are left.
pub fn smooth_ring(ring: &[Point], eps: u32) -> (c: Option<Curve>)
    requires
        on_lattice(ring@),
    ensures
        match smoothed(ring@, eps as int) {
            Some((start, segs)) => c matches Some(k) && k.start == start && k.segs@ == segs,
            None => c is None,
        },
{
    let pts: Vec<Point> = simplify_ring(ring, eps);
    if pts.len() < 3 {
        return None;
    }
    proof {
        lemma_simplified_on_lattice(ring@, eps as int);
    }
    Some(catmull_rom_closed(pts.as_slice()))
}

/// A curve never leaves the box of its ends: both control points of a piece lie between the
/// anchors that the piece joins. The pieces follow one another, and the last ends where the
/// curve starts.
pub proof fn lemma_no_overshoot(pts: Seq<Point>, i: int)
    requires
        on_lattice(pts),
        pts.len() >= 3,
        0 <= i < pts.len(),
    ensures
        pieces(pts)[i].p == fine(behind(pts, i, 1)),
        pieces(pts)[pts.len() - 1].p == fine(pts[0]),
        within(pieces(pts)[i].c1.0 as int, fine(pts[i]).0 as int, pieces(pts)[i].p.0 as int)
            == pieces(pts)[i].c1.0,
        within(pieces(pts)[i].c1.1 as int, fine(pts[i]).1 as int, pieces(pts)[i].p.1 as int)
            == pieces(pts)[i].c1.1,
        within(pieces(pts)[i].c2.0 as int, fine(pts[i]).0 as int, pieces(pts)[i].p.0 as int)
            == pieces(pts)[i].c2.0,
        within(pieces(pts)[i].c2.1 as int, fine(pts[i]).1 as int, pieces(pts)[i].p.1 as int)
            == pieces(pts)[i].c2.1,
{
    let n = pts.len() as int;
    assert((n - 1 + 1) % n == 0) by (nonlinear_arith)
        requires
            n > 0,
    ;
    let j = (i + 1) % n;
    assert(0 <= j < n);
    assert(placed(pts[i]) && placed(pts[j]));
}

/// A sharp corner stays sharp: the pieces that meet there run straight into it.
pub proof fn lemma_corner_stays_sharp(pts: Seq<Point>, i: int)
    requires
        on_lattice(pts),
        pts.len() >= 3,
        0 <= i < pts.len(),
        straightness(before(pts, i), pts[i], behind(pts, i, 1)) < SHARP,
    ensures
        pieces(pts)[i].c1 == fine(pts[i]),
        pieces(pts)[if i == 0 { pts.len() - 1 } else { i - 1 }].c2 == fine(pts[i]),
{
    let n = pts.len() as int;
    let h = if i == 0 {
        n - 1
    } else {
        i - 1
    };
    assert((h + 1) % n == i) by {
        if i == 0 {
            assert((n - 1 + 1) % n == 0) by (nonlinear_arith)
                requires
                    n > 0,
            ;
        } else {
            vstd::arithmetic::div_mod::lemma_small_mod(i as nat, n as nat);
        }
    }
    let j = (i + 1) % n;
    let g = (h + 2) % n;
    assert(0 <= j < n && 0 <= g < n);
    assert(placed(pts[i]) && placed(pts[j]) && placed(pts[h]));
    assert forall|way: int| #[trigger] pull(way, 0) == 0 by {
        assert(way * 1000 * 0 == 0) by (nonlinear_arith);
        let den = 6 * STRAIGHT as int;
        assert((2 * 0 + den) / (2 * den) == 0) by (nonlinear_arith)
            requires
                den > 0,
        ;
    }
    assert(bend(pts, i) == 0);
}

} // verus!
