//! Rasters of cut polygons.

use crate::svg::Ribbon;
use crate::trace::Point;
use vstd::prelude::*;

verus! {

/// The farthest a coordinate of a polygon may lie from 0, in thousandths of a pixel.
pub const MAX_POINT: i64 = 0x4_0000_0000_0000;

/// Whether all points of a polygon lie within reach.
pub open spec fn points_ok(pts: Seq<Point>) -> bool {
    forall|a: int|
        0 <= a < pts.len() ==> -MAX_POINT <= (#[trigger] pts[a]).0 <= MAX_POINT && -MAX_POINT
            <= pts[a].1 <= MAX_POINT
}

/// The point before point `i` of a closed polygon.
pub open spec fn point_before(pts: Seq<Point>, i: int) -> Point {
    if i == 0 {
        pts.last()
    } else {
        pts[i - 1]
    }
}

/// Whether the side that ends in point `i` crosses the level `yc`.
pub open spec fn crosses(pts: Seq<Point>, yc: int, i: int) -> bool {
    (pts[i].1 <= yc) != (point_before(pts, i).1 <= yc)
}

/// Where that side crosses it: at `crossing.0 / crossing.1`, the latter positive.
pub open spec fn crossing(pts: Seq<Point>, yc: int, i: int) -> (int, int) {
    let p = pts[i];
    let q = point_before(pts, i);
    if q.1 > p.1 {
        (p.0 * (q.1 - p.1) + (yc - p.1) * (q.0 - p.0), q.1 - p.1)
    } else {
        (p.0 * (p.1 - q.1) + (yc - p.1) * (p.0 - q.0), p.1 - q.1)
    }
}

/// Where the first `k` sides cross the level `yc`.
pub open spec fn crossings(pts: Seq<Point>, yc: int, k: int) -> Seq<(int, int)>
    decreases k,
{
    if k <= 0 {
        Seq::empty()
    } else if crosses(pts, yc, k - 1) {
        crossings(pts, yc, k - 1).push(crossing(pts, yc, k - 1))
    } else {
        crossings(pts, yc, k - 1)
    }
}

/// Column `px`, on the scale of a crossing with the denominator `d`.
pub open spec fn scaled(px: int, d: int) -> int {
    1000 * px * d
}

/// How many of the first `k` crossings lie at column `px` or left of it.
pub open spec fn crossed_by(cs: Seq<(int, int)>, px: int, k: int) -> nat
    decreases k,
{
    if k <= 0 {
        0
    } else {
        crossed_by(cs, px, k - 1) + if cs[k - 1].0 <= scaled(px, cs[k - 1].1) {
            1nat
        } else {
            0nat
        }
    }
}

/// Whether a crossing lies exactly at column `px`.
pub open spec fn crossed_at(cs: Seq<(int, int)>, px: int) -> bool {
    exists|k: int| 0 <= k < cs.len() && (#[trigger] cs[k]).0 == scaled(px, cs[k].1)
}

/// Whether column `px` lies within the polygon on a level with the given crossings: an odd
/// number of them lies left of it, or one right at it.
pub open spec fn within(cs: Seq<(int, int)>, px: int) -> bool {
    crossed_by(cs, px, cs.len() as int) % 2 == 1 || crossed_at(cs, px)
}

/// Whether the polygon covers the pixel in column `px` of row `py`: it is tested half a
/// pixel down. Fewer than three points cover nothing.
pub open spec fn covers(pts: Seq<Point>, px: int, py: int) -> bool {
    pts.len() >= 3 && within(crossings(pts, 1000 * py + 500, pts.len() as int), px)
}

/// Whether one of the first `k` polygons covers the pixel.
pub open spec fn covered(ribbons: Seq<Ribbon>, px: int, py: int, k: int) -> bool {
    exists|r: int| 0 <= r < k && covers((#[trigger] ribbons[r]).pts@, px, py)
}

/// A side changes the side of the level on which the outline runs, so the crossings of a
/// closed polygon come in pairs.
proof fn lemma_crossings_even(pts: Seq<Point>, yc: int, k: int)
    requires
        0 <= k <= pts.len(),
        pts.len() > 0,
    ensures
        k > 0 ==> (crossings(pts, yc, k).len() % 2 == 0) == ((pts[k - 1].1 <= yc) == (pts.last().1
            <= yc)),
        k == 0 ==> crossings(pts, yc, k).len() == 0,
    decreases k,
{
    if k > 0 {
        lemma_crossings_even(pts, yc, k - 1);
    }
}

/// Whether the list holds sound crossings.
spec fn sound(cs: Seq<(int, int)>) -> bool {
    forall|k: int|
        0 <= k < cs.len() ==> 0 < (#[trigger] cs[k]).1 <= 0x8_0000_0000_0000 && -0x80_0000_0000_0000_0000_0000_0000
            <= cs[k].0 <= 0x80_0000_0000_0000_0000_0000_0000
}

proof fn lemma_crossings_sound(pts: Seq<Point>, yc: int, k: int)
    requires
        0 <= k <= pts.len(),
        points_ok(pts),
        -MAX_POINT <= yc <= MAX_POINT,
    ensures
        sound(crossings(pts, yc, k)),
    decreases k,
{
    if k > 0 {
        lemma_crossings_sound(pts, yc, k - 1);
        if crosses(pts, yc, k - 1) {
            lemma_crossing_bound(pts, yc, k - 1);
        }
    }
}

proof fn lemma_crossing_bound(pts: Seq<Point>, yc: int, i: int)
    requires
        0 <= i < pts.len(),
        points_ok(pts),
        -MAX_POINT <= yc <= MAX_POINT,
        crosses(pts, yc, i),
    ensures
        0 < crossing(pts, yc, i).1 <= 0x8_0000_0000_0000,
        -0x80_0000_0000_0000_0000_0000_0000 <= crossing(pts, yc, i).0
            <= 0x80_0000_0000_0000_0000_0000_0000,
{
    let p = pts[i];
    let q = point_before(pts, i);
    let d = crossing(pts, yc, i).1;
    let e = if q.1 > p.1 {
        q.0 - p.0
    } else {
        p.0 - q.0
    };
    lemma_wide_product(p.0 as int, d);
    lemma_wide_product(yc - p.1, e);
}

proof fn lemma_wide_product(a: int, b: int)
    by (nonlinear_arith)
    requires
        -0x8_0000_0000_0000 <= a <= 0x8_0000_0000_0000,
        -0x8_0000_0000_0000 <= b <= 0x8_0000_0000_0000,
    ensures
        -0x40_0000_0000_0000_0000_0000_0000 <= a * b <= 0x40_0000_0000_0000_0000_0000_0000,
{
}

/// The views of a list of crossings.
spec fn cross_views(v: Seq<(i128, i128)>) -> Seq<(int, int)> {
    Seq::new(v.len(), |k: int| (v[k].0 as int, v[k].1 as int))
}

/// Where a polygon crosses a level.
fn find_crossings(pts: &Vec<Point>, yc: i64) -> (cs: Vec<(i128, i128)>)
    requires
        points_ok(pts@),
        -MAX_POINT <= yc <= MAX_POINT,
    ensures
        cross_views(cs@) == crossings(pts@, yc as int, pts@.len() as int),
        sound(cross_views(cs@)),
{
    let n: usize = pts.len();
    let mut cs: Vec<(i128, i128)> = Vec::new();
    for i in 0..n
        invariant
            n == pts@.len(),
            points_ok(pts@),
            -MAX_POINT <= yc <= MAX_POINT,
            cross_views(cs@) == crossings(pts@, yc as int, i as int),
    {
        let p: Point = pts[i];
        let q: Point = pts[if i == 0 { n - 1 } else { i - 1 }];
        if (p.1 <= yc) != (q.1 <= yc) {
            let ghost before = cs@;
            let px: i128 = p.0 as i128;
            let py: i128 = p.1 as i128;
            let qx: i128 = q.0 as i128;
            let qy: i128 = q.1 as i128;
            let y: i128 = yc as i128;
            proof {
                lemma_crossing_bound(pts@, yc as int, i as int);
                lemma_wide_product(px as int, qy - py);
                lemma_wide_product(px as int, py - qy);
                lemma_wide_product(y - py, qx - px);
                lemma_wide_product(y - py, px - qx);
            }
            let c: (i128, i128) = if qy > py {
                (px * (qy - py) + (y - py) * (qx - px), qy - py)
            } else {
                (px * (py - qy) + (y - py) * (px - qx), py - qy)
            };
            cs.push(c);
            proof {
                assert(cross_views(cs@) =~= cross_views(before).push(
                    crossing(pts@, yc as int, i as int),
                ));
            }
        }
    }
    proof {
        lemma_crossings_sound(pts@, yc as int, n as int);
    }
    cs
}

/// The first column that does not lie left of the crossing `a / b`, which counts
/// thousandths of a column.
fn first_column(a: i128, b: i128) -> (c: i128)
    requires
        0 < b <= 0x8_0000_0000_0000,
        -0x80_0000_0000_0000_0000_0000_0000 <= a <= 0x80_0000_0000_0000_0000_0000_0000,
    ensures
        forall|px: int| a <= #[trigger] scaled(px, b as int) <==> c <= px,
        forall|px: int| c < px ==> a < #[trigger] scaled(px, b as int),
        -0x80_0000_0000_0000_0000_0000_0000 <= c <= 0x80_0000_0000_0000_0000_0000_0000,
{
    let d: i128 = 1000 * b;
    let c: i128 = if a > 0 {
        (a - 1) / d + 1
    } else {
        -((-a) / d)
    };
    proof {
        let (ai, di) = (a as int, d as int);
        if a > 0 {
            let q = (ai - 1) / di;
            vstd::arithmetic::div_mod::lemma_fundamental_div_mod(ai - 1, di);
            assert(q >= 0 && q <= ai) by (nonlinear_arith)
                requires
                    q == (ai - 1) / di,
                    di >= 1,
                    ai >= 1,
            ;
            assert forall|px: int| ai <= #[trigger] scaled(px, b as int) <==> c <= px by {
                let m = (ai - 1) % di;
                assert(1000 * px * b == px * di) by (nonlinear_arith)
                    requires
                        di == 1000 * b,
                ;
                if px >= q + 1 {
                    assert(px * di >= ai) by (nonlinear_arith)
                        requires
                            px >= q + 1,
                            ai - 1 == di * q + m,
                            m < di,
                            di > 0,
                    ;
                } else {
                    assert(px * di < ai) by (nonlinear_arith)
                        requires
                            px <= q,
                            ai - 1 == di * q + m,
                            m >= 0,
                            di > 0,
                    ;
                }
            }
        } else {
            let q = (-ai) / di;
            vstd::arithmetic::div_mod::lemma_fundamental_div_mod(-ai, di);
            assert(q >= 0 && q <= -ai) by (nonlinear_arith)
                requires
                    q == (-ai) / di,
                    di >= 1,
                    ai <= 0,
            ;
            assert forall|px: int| ai <= #[trigger] scaled(px, b as int) <==> c <= px by {
                let m = (-ai) % di;
                assert(1000 * px * b == px * di) by (nonlinear_arith)
                    requires
                        di == 1000 * b,
                ;
                if px >= -q {
                    assert(px * di >= ai) by (nonlinear_arith)
                        requires
                            px >= -q,
                            -ai == di * q + m,
                            m >= 0,
                            di > 0,
                    ;
                } else {
                    assert(px * di < ai) by (nonlinear_arith)
                        requires
                            px <= -q - 1,
                            -ai == di * q + m,
                            m < di,
                            di > 0,
                    ;
                }
            }
        }
        assert forall|px: int| c < px implies a < #[trigger] scaled(px, b as int) by {
            assert(ai <= scaled(px - 1, b as int));
            let bi = b as int;
            assert(1000 * (px - 1) * bi < 1000 * px * bi) by (nonlinear_arith)
                requires
                    bi > 0,
            ;
        }
    }
    c
}

/// Whether a column lies within the polygon; see `within`.
fn is_within(cs: &Vec<(i128, i128)>, px: usize) -> (b: bool)
    requires
        sound(cross_views(cs@)),
        px <= 0x7fff_ffff,
    ensures
        b == within(cross_views(cs@), px as int),
{
    let ghost v = cross_views(cs@);
    let mut odd: bool = false;
    let mut here: bool = false;
    for k in 0..cs.len()
        invariant
            v == cross_views(cs@),
            sound(v),
            px <= 0x7fff_ffff,
            odd == (crossed_by(v, px as int, k as int) % 2 == 1),
            here == exists|j: int| 0 <= j < k && (#[trigger] v[j]).0 == scaled(px as int, v[j].1),
    {
        let (a, d) = cs[k];
        proof {
            assert(v[k as int] == (a as int, d as int));
            assert(0 <= 1000 * px * d <= 1000 * 0x7fff_ffff * 0x8_0000_0000_0000)
                by (nonlinear_arith)
                requires
                    0 <= px <= 0x7fff_ffff,
                    0 <= d <= 0x8_0000_0000_0000,
            ;
        }
        let t: i128 = 1000 * px as i128 * d;
        if a <= t {
            odd = !odd;
        }
        if a == t {
            here = true;
        }
    }
    odd || here
}

/// Left of all crossings and right of all of them lies outside.
proof fn lemma_outside(cs: Seq<(int, int)>, px: int, left: bool, k: int)
    requires
        0 <= k <= cs.len(),
        forall|j: int|
            0 <= j < cs.len() ==> if left {
                (#[trigger] cs[j]).0 > scaled(px, cs[j].1)
            } else {
                cs[j].0 < scaled(px, cs[j].1)
            },
    ensures
        crossed_by(cs, px, k) == if left {
            0
        } else {
            k
        },
    decreases k,
{
    if k > 0 {
        lemma_outside(cs, px, left, k - 1);
        assert(if left {
            cs[k - 1].0 > scaled(px, cs[k - 1].1)
        } else {
            cs[k - 1].0 < scaled(px, cs[k - 1].1)
        });
    }
}

/// Marks what one polygon covers of row `py`.
fn fill_row(mask: &mut Vec<bool>, w: usize, h: usize, pts: &Vec<Point>, py: usize)
    requires
        old(mask)@.len() == w * h,
        w <= 0x7fff_ffff,
        h <= 0x7fff_ffff,
        py < h,
        points_ok(pts@),
        pts@.len() >= 3,
    ensures
        final(mask)@.len() == w * h,
        forall|i: int|
            0 <= i < w * h ==> (#[trigger] final(mask)@[i] <==> old(mask)@[i] || (py * w <= i < py * w
                + w && covers(pts@, i - py * w, py as int))),
{
    let n: usize = mask.len();
    let ghost m0 = mask@;
    let yc: i64 = 1000 * (py as i64) + 500;
    let cs: Vec<(i128, i128)> = find_crossings(pts, yc);
    let ghost v = cross_views(cs@);
    proof {
        lemma_crossings_even(pts@, yc as int, pts@.len() as int);
        assert(py * w + w <= w * h && 0 <= py * w) by (nonlinear_arith)
            requires
                py < h,
                py >= 0,
                w >= 0,
        ;
    }
    if cs.len() == 0 || w == 0 {
        proof {
            assert forall|px: int| !within(v, px) || w == 0 by {}
        }
        return;
    }
    let (a0, b0) = cs[0];
    proof {
        assert(v[0] == (a0 as int, b0 as int));
    }
    let mut lo: i128 = first_column(a0, b0);
    let mut hi: i128 = lo;
    for k in 1..cs.len()
        invariant
            v == cross_views(cs@),
            sound(v),
            lo <= hi,
            forall|j: int, px: int|
                #![trigger v[j], scaled(px, v[j].1)]
                0 <= j < k && px < lo ==> v[j].0 > scaled(px, v[j].1),
            forall|j: int, px: int|
                #![trigger v[j], scaled(px, v[j].1)]
                0 <= j < k && px > hi ==> v[j].0 < scaled(px, v[j].1),
    {
        let (a, b) = cs[k];
        proof {
            assert(v[k as int] == (a as int, b as int));
        }
        let c: i128 = first_column(a, b);
        if c < lo {
            lo = c;
        }
        if c > hi {
            hi = c;
        }
    }
    let from: usize = if lo <= 0 {
        0
    } else if lo >= w as i128 {
        w
    } else {
        lo as usize
    };
    let upto: usize = if hi < 0 {
        0
    } else if hi >= (w - 1) as i128 {
        w
    } else {
        hi as usize + 1
    };
    let mut px: usize = from;
    while px < upto
        invariant
            n == w * h,
            mask@.len() == n,
            m0.len() == n,
            w <= 0x7fff_ffff,
            py * w + w <= w * h,
            0 <= py * w,
            v == cross_views(cs@),
            sound(v),
            upto <= w,
            from <= px,
            px <= upto || px == from,
            forall|i: int|
                0 <= i < n ==> (#[trigger] mask@[i] <==> m0[i] || (py * w + from <= i < py * w + px
                    && within(v, i - py * w))),
        decreases upto - px,
    {
        if is_within(&cs, px) {
            mask.set(py * w + px, true);
        }
        px = px + 1;
    }
    proof {
        assert forall|x: int| 0 <= x < w && #[trigger] within(v, x) implies from <= x < upto by {
            if x < from {
                lemma_outside_left(v, x, lo as int);
            }
            if x >= upto {
                lemma_outside_right(v, x, hi as int);
            }
        }
    }
}

proof fn lemma_outside_left(v: Seq<(int, int)>, px: int, lo: int)
    requires
        px < lo,
        forall|j: int, p: int|
            #![trigger v[j], scaled(p, v[j].1)]
            0 <= j < v.len() && p < lo ==> v[j].0 > scaled(p, v[j].1),
    ensures
        !within(v, px),
{
    assert forall|j: int| 0 <= j < v.len() implies (#[trigger] v[j]).0 > scaled(px, v[j].1) by {
        assert(scaled(px, v[j].1) == 1000 * px * v[j].1);
    }
    lemma_outside(v, px, true, v.len() as int);
}

proof fn lemma_outside_right(v: Seq<(int, int)>, px: int, hi: int)
    requires
        px > hi,
        v.len() % 2 == 0,
        forall|j: int, p: int|
            #![trigger v[j], scaled(p, v[j].1)]
            0 <= j < v.len() && p > hi ==> v[j].0 < scaled(p, v[j].1),
    ensures
        !within(v, px),
{
    assert forall|j: int| 0 <= j < v.len() implies (#[trigger] v[j]).0 < scaled(px, v[j].1) by {
        assert(scaled(px, v[j].1) == 1000 * px * v[j].1);
    }
    lemma_outside(v, px, false, v.len() as int);
}

/// What the ribbons cut out of a canvas: a pixel is marked where one of them covers it.
pub fn rasterize(ribbons: &[Ribbon], w: usize, h: usize) -> (mask: Vec<bool>)
    requires
        w <= 0x7fff_ffff,
        h <= 0x7fff_ffff,
        w * h <= usize::MAX,
        forall|r: int| 0 <= r < ribbons@.len() ==> points_ok((#[trigger] ribbons@[r]).pts@),
    ensures
        mask@.len() == w * h,
        forall|x: int, y: int|
            0 <= x < w && 0 <= y < h ==> #[trigger] mask@[y * w + x] == covered(
                ribbons@,
                x,
                y,
                ribbons@.len() as int,
            ),
{
    let n: usize = w * h;
    let mut mask: Vec<bool> = Vec::new();
    for i in 0..n
        invariant
            mask@.len() == i,
            forall|j: int| 0 <= j < i ==> !mask@[j],
    {
        mask.push(false);
    }
    proof {
        assert forall|x: int, y: int| 0 <= x < w && 0 <= y < h implies #[trigger] mask@[y * w + x]
            == covered(ribbons@, x, y, 0) by {
            lemma_pixel(w as int, h as int, x, y);
        }
    }
    for r in 0..ribbons.len()
        invariant
            w <= 0x7fff_ffff,
            h <= 0x7fff_ffff,
            mask@.len() == w * h,
            forall|r: int| 0 <= r < ribbons@.len() ==> points_ok((#[trigger] ribbons@[r]).pts@),
            forall|x: int, y: int|
                0 <= x < w && 0 <= y < h ==> #[trigger] mask@[y * w + x] == covered(
                    ribbons@,
                    x,
                    y,
                    r as int,
                ),
    {
        let pts: &Vec<Point> = &ribbons[r].pts;
        let ghost before = mask@;
        if pts.len() >= 3 {
            let (first, last) = rows_of(pts, h);
            let mut py: usize = first;
            while py < last
                invariant
                    w <= 0x7fff_ffff,
                    h <= 0x7fff_ffff,
                    mask@.len() == w * h,
                    before.len() == w * h,
                    points_ok(pts@),
                    pts@.len() >= 3,
                    first <= py,
                    py <= last || py == first,
                    last <= h,
                    forall|x: int, y: int|
                        0 <= x < w && 0 <= y < h ==> (#[trigger] mask@[y * w + x] <==> before[y * w
                            + x] || (first <= y < py && covers(pts@, x, y))),
                decreases last - py,
            {
                let ghost m1 = mask@;
                fill_row(&mut mask, w, h, pts, py);
                proof {
                    assert forall|x: int, y: int| 0 <= x < w && 0 <= y < h implies (
                    #[trigger] mask@[y * w + x] <==> before[y * w + x] || (first <= y < py + 1
                        && covers(pts@, x, y))) by {
                        lemma_pixel(w as int, h as int, x, y);
                        assert(m1[y * w + x] <==> before[y * w + x] || (first <= y < py && covers(
                            pts@,
                            x,
                            y,
                        )));
                        if y < py {
                            assert(y * w + x < py * w) by (nonlinear_arith)
                                requires
                                    y < py,
                                    x < w,
                                    w >= 0,
                            ;
                        } else if y > py {
                            assert(y * w + x >= py * w + w) by (nonlinear_arith)
                                requires
                                    y > py,
                                    x >= 0,
                                    w >= 0,
                            ;
                        }
                    }
                }
                py = py + 1;
            }
            proof {
                assert forall|x: int, y: int| 0 <= x < w && 0 <= y < h && covers(
                    pts@,
                    x,
                    y,
                ) implies first <= y < last by {
                    if !(first <= y < last) {
                        lemma_level_clear(pts@, 1000 * y + 500, pts@.len() as int);
                    }
                }
            }
        }
        proof {
            assert forall|x: int, y: int| 0 <= x < w && 0 <= y < h implies #[trigger] mask@[y * w
                + x] == covered(ribbons@, x, y, r + 1) by {
                assert(before[y * w + x] == covered(ribbons@, x, y, r as int));
                if covered(ribbons@, x, y, r + 1) && !covered(ribbons@, x, y, r as int) {
                    let q = choose|q: int| 0 <= q < r + 1 && covers((#[trigger] ribbons@[q]).pts@, x, y);
                    assert(q == r);
                }
                if covers(pts@, x, y) {
                    assert(covers(ribbons@[r as int].pts@, x, y));
                }
            }
        }
    }
    mask
}

proof fn lemma_pixel(w: int, h: int, x: int, y: int)
    by (nonlinear_arith)
    requires
        0 <= x < w,
        0 <= y < h,
    ensures
        0 <= y * w + x < w * h,
{
}

/// A level that all points lie above, or all below, is not crossed.
proof fn lemma_level_clear(pts: Seq<Point>, yc: int, k: int)
    requires
        0 <= k <= pts.len(),
        (forall|a: int| 0 <= a < pts.len() ==> (#[trigger] pts[a]).1 > yc) || (forall|a: int|
            0 <= a < pts.len() ==> (#[trigger] pts[a]).1 <= yc),
    ensures
        crossings(pts, yc, k).len() == 0,
    decreases k,
{
    if k > 0 {
        lemma_level_clear(pts, yc, k - 1);
        let i = k - 1;
        assert((pts[i].1 <= yc) == (pts[if i == 0 { pts.len() - 1 } else { i - 1 }].1 <= yc));
    }
}

/// The rows that a polygon can cover: from the first up to the last, which is left out.
fn rows_of(pts: &Vec<Point>, h: usize) -> (r: (usize, usize))
    requires
        points_ok(pts@),
        pts@.len() >= 3,
        h <= 0x7fff_ffff,
    ensures
        r.0 <= h,
        r.1 <= h,
        forall|y: int|
            0 <= y < r.0 ==> forall|a: int|
                0 <= a < pts@.len() ==> (#[trigger] pts@[a]).1 > #[trigger] (1000 * y + 500),
        forall|y: int|
            r.1 <= y < h ==> forall|a: int|
                0 <= a < pts@.len() ==> (#[trigger] pts@[a]).1 <= #[trigger] (1000 * y + 500),
{
    let mut lo: i64 = pts[0].1;
    let mut hi: i64 = pts[0].1;
    for i in 1..pts.len()
        invariant
            points_ok(pts@),
            -MAX_POINT <= lo <= hi <= MAX_POINT,
            forall|a: int| 0 <= a < i ==> lo <= (#[trigger] pts@[a]).1 <= hi,
    {
        let y: i64 = pts[i].1;
        if y < lo {
            lo = y;
        }
        if y > hi {
            hi = y;
        }
    }
    let first: usize = if lo <= 0 {
        0
    } else if lo / 1000 >= h as i64 {
        h
    } else {
        (lo / 1000) as usize
    };
    let last: usize = if hi < 0 {
        0
    } else if hi / 1000 >= h as i64 {
        h
    } else {
        (hi / 1000 + 1) as usize
    };
    (first, last)
}

} // verus!
