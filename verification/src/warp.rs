//! Crop and perspective: a rectangle filled from a quadrilateral of an image.

use crate::arith::floor_div;
use crate::lattice::MAX_CANVAS;
use crate::sampling::{lemma_pixel_itself, pixel_at, sample_pixels};
use vstd::prelude::*;

verus! {

/// How many parts a pixel has in the corners of a quadrilateral.
pub const PARTS: i64 = 250;

/// The longest side that is warped, in pixels.
pub const MAX_WARP: usize = 0x1_0000;

/// The largest coordinate of a corner.
pub const MAX_CORNER: i64 = 0x100_0000;

/// A perspective map, row by row of its matrix: a point of a rectangle, with a one behind
/// it, is taken to a point of the image and its divisor.
#[derive(Clone, Copy, Debug, PartialEq, Eq, Structural)]
pub struct Homography {
    pub xx: i128,
    pub xy: i128,
    pub x1: i128,
    pub yx: i128,
    pub yy: i128,
    pub y1: i128,
    pub dx: i128,
    pub dy: i128,
    pub d1: i128,
}

/// The sides of a quadrilateral that meet at its third corner, and how far it is from a
/// parallelogram.
pub open spec fn legs(q: Seq<(i64, i64)>) -> ((int, int), (int, int), (int, int)) {
    (
        (q[1].0 - q[2].0, q[1].1 - q[2].1),
        (q[3].0 - q[2].0, q[3].1 - q[2].1),
        (q[0].0 - q[1].0 + q[2].0 - q[3].0, q[0].1 - q[1].1 + q[2].1 - q[3].1),
    )
}

/// The area that two sides span, with its sign.
pub open spec fn span(a: (int, int), b: (int, int)) -> int {
    a.0 * b.1 - a.1 * b.0
}

/// The weights of the perspective: how much each side of the rectangle bends, and the common
/// divisor. No map is found where the divisor is zero: the second, third and fourth corner
/// then lie on a line.
pub open spec fn bends(q: Seq<(i64, i64)>) -> (int, int, int) {
    let (a, b, s) = legs(q);
    (span(s, b), span(a, s), span(a, b))
}

/// The map that takes the corners of a rectangle of `w` by `h` pixels, in order around it, to
/// those of a quadrilateral. Points of the rectangle count in halves of a pixel.
pub open spec fn is_homography(w: int, h: int, q: Seq<(i64, i64)>, m: Homography) -> bool {
    let (g, k, d) = bends(q);
    &&& d != 0
    &&& m.xx == ((q[1].0 - q[0].0) * d + g * q[1].0) * (2 * h)
    &&& m.xy == ((q[3].0 - q[0].0) * d + k * q[3].0) * (2 * w)
    &&& m.x1 == q[0].0 * d * (4 * w * h)
    &&& m.yx == ((q[1].1 - q[0].1) * d + g * q[1].1) * (2 * h)
    &&& m.yy == ((q[3].1 - q[0].1) * d + k * q[3].1) * (2 * w)
    &&& m.y1 == q[0].1 * d * (4 * w * h)
    &&& m.dx == g * (2 * h)
    &&& m.dy == k * (2 * w)
    &&& m.d1 == d * (4 * w * h)
}

/// Whether four corners can be mapped to.
pub open spec fn quad_ok(q: Seq<(i64, i64)>) -> bool {
    &&& q.len() == 4
    &&& forall|i: int|
        0 <= i < 4 ==> -MAX_CORNER <= (#[trigger] q[i]).0 <= MAX_CORNER && -MAX_CORNER <= q[i].1
            <= MAX_CORNER
}

proof fn lemma_span(a: int, b: int, c: int, d: int)
    by (nonlinear_arith)
    requires
        -0x400_0000 <= a <= 0x400_0000,
        -0x400_0000 <= b <= 0x400_0000,
        -0x400_0000 <= c <= 0x400_0000,
        -0x400_0000 <= d <= 0x400_0000,
    ensures
        -0x10_0000_0000_0000 <= a * d <= 0x10_0000_0000_0000,
        -0x10_0000_0000_0000 <= b * c <= 0x10_0000_0000_0000,
{
}

fn span_of(a: (i128, i128), b: (i128, i128)) -> (s: i128)
    requires
        -0x400_0000 <= a.0 <= 0x400_0000,
        -0x400_0000 <= a.1 <= 0x400_0000,
        -0x400_0000 <= b.0 <= 0x400_0000,
        -0x400_0000 <= b.1 <= 0x400_0000,
    ensures
        s == span((a.0 as int, a.1 as int), (b.0 as int, b.1 as int)),
        -0x20_0000_0000_0000 <= s <= 0x20_0000_0000_0000,
{
    proof {
        lemma_span(a.0 as int, a.1 as int, b.0 as int, b.1 as int);
    }
    a.0 * b.1 - a.1 * b.0
}

proof fn lemma_entry(p: int, d: int, g: int, q: int, n: int)
    requires
        -0x200_0000 <= p <= 0x200_0000,
        -0x20_0000_0000_0000 <= d <= 0x20_0000_0000_0000,
        -0x20_0000_0000_0000 <= g <= 0x20_0000_0000_0000,
        -0x100_0000 <= q <= 0x100_0000,
        0 <= n <= 0x4_0000_0000,
    ensures
        -0x4000_0000_0000_0000_0000 <= p * d <= 0x4000_0000_0000_0000_0000,
        -0x2000_0000_0000_0000_0000 <= g * q <= 0x2000_0000_0000_0000_0000,
        -0x2000_0000_0000_0000_0000 <= q * d <= 0x2000_0000_0000_0000_0000,
        -0x6000_0000_0000_0000_0000 * 0x4_0000_0000 <= (p * d + g * q) * n
            <= 0x6000_0000_0000_0000_0000 * 0x4_0000_0000,
        -0x2000_0000_0000_0000_0000 * 0x4_0000_0000 <= q * d * n <= 0x2000_0000_0000_0000_0000
            * 0x4_0000_0000,
        -0x20_0000_0000_0000 * 0x4_0000_0000 <= d * n <= 0x20_0000_0000_0000 * 0x4_0000_0000,
        -0x20_0000_0000_0000 * 0x4_0000_0000 <= g * n <= 0x20_0000_0000_0000 * 0x4_0000_0000,
{
    lemma_bound(p, d, 0x200_0000, 0x20_0000_0000_0000);
    lemma_bound(g, q, 0x20_0000_0000_0000, 0x100_0000);
    lemma_bound(q, d, 0x100_0000, 0x20_0000_0000_0000);
    lemma_bound(p * d + g * q, n, 0x6000_0000_0000_0000_0000, 0x4_0000_0000);
    lemma_bound(q * d, n, 0x2000_0000_0000_0000_0000, 0x4_0000_0000);
    lemma_bound(d, n, 0x20_0000_0000_0000, 0x4_0000_0000);
    lemma_bound(g, n, 0x20_0000_0000_0000, 0x4_0000_0000);
}

proof fn lemma_bound(a: int, b: int, m: int, n: int)
    by (nonlinear_arith)
    requires
        -m <= a <= m,
        -n <= b <= n,
    ensures
        -m * n <= a * b <= m * n,
{
}

/// Finds the map that takes a rectangle to a quadrilateral; none where the second, third and
/// fourth of its corners lie on a line. See `is_homography`.
pub fn homography(w: usize, h: usize, quad: &[(i64, i64)]) -> (m: Option<Homography>)
    requires
        0 < w <= MAX_WARP,
        0 < h <= MAX_WARP,
        quad_ok(quad@),
    ensures
        match m {
            Some(m) => is_homography(w as int, h as int, quad@, m) && map_ok(m),
            None => bends(quad@).2 == 0,
        },
{
    let p: (i128, i128) = (quad[0].0 as i128, quad[0].1 as i128);
    let q: (i128, i128) = (quad[1].0 as i128, quad[1].1 as i128);
    let r: (i128, i128) = (quad[2].0 as i128, quad[2].1 as i128);
    let t: (i128, i128) = (quad[3].0 as i128, quad[3].1 as i128);
    let a: (i128, i128) = (q.0 - r.0, q.1 - r.1);
    let b: (i128, i128) = (t.0 - r.0, t.1 - r.1);
    let s: (i128, i128) = (p.0 - q.0 + r.0 - t.0, p.1 - q.1 + r.1 - t.1);
    let g: i128 = span_of(s, b);
    let k: i128 = span_of(a, s);
    let d: i128 = span_of(a, b);
    if d == 0 {
        return None;
    }
    let w2: i128 = 2 * w as i128;
    let h2: i128 = 2 * h as i128;
    proof {
        assert(w2 * h2 == 4 * w * h) by (nonlinear_arith)
            requires
                w2 == 2 * w,
                h2 == 2 * h,
        ;
        lemma_bound(w2 as int, h2 as int, 0x2_0000, 0x2_0000);
        assert(w2 * h2 >= 0) by (nonlinear_arith)
            requires
                w2 >= 0,
                h2 >= 0,
        ;
        let n = w2 * h2;
        lemma_entry(q.0 - p.0, d as int, g as int, q.0 as int, h2 as int);
        lemma_entry(t.0 - p.0, d as int, k as int, t.0 as int, w2 as int);
        lemma_entry(q.1 - p.1, d as int, g as int, q.1 as int, h2 as int);
        lemma_entry(t.1 - p.1, d as int, k as int, t.1 as int, w2 as int);
        lemma_entry(0, d as int, 0, p.0 as int, n as int);
        lemma_entry(0, d as int, 0, p.1 as int, n as int);
    }
    let n: i128 = w2 * h2;
    let m: Homography = Homography {
        xx: ((q.0 - p.0) * d + g * q.0) * h2,
        xy: ((t.0 - p.0) * d + k * t.0) * w2,
        x1: p.0 * d * n,
        yx: ((q.1 - p.1) * d + g * q.1) * h2,
        yy: ((t.1 - p.1) * d + k * t.1) * w2,
        y1: p.1 * d * n,
        dx: g * h2,
        dy: k * w2,
        d1: d * n,
    };
    proof {
        lemma_map_bounds(w as int, h as int, quad@, m);
    }
    Some(m)
}

/// What a map takes the point `(x, y)` to: both coordinates and their divisor.
pub open spec fn mapped(m: Homography, x: int, y: int) -> (int, int, int) {
    (m.xx * x + m.xy * y + m.x1, m.yx * x + m.yy * y + m.y1, m.dx * x + m.dy * y + m.d1)
}

/// A coordinate in millionths of a pixel, rounded down; without a divisor it lies as far out
/// as can be told.
pub open spec fn coordinate(v: int, d: int) -> int {
    let (n, e) = if d < 0 {
        (-v * 4000, -d)
    } else if d == 0 {
        (v * 4000, 1)
    } else {
        (v * 4000, d)
    };
    let c = n / e;
    if c < -0x1000_0000_0000_0000 {
        -0x1000_0000_0000_0000
    } else if c > 0x1000_0000_0000_0000 {
        0x1000_0000_0000_0000
    } else {
        c
    }
}

fn coordinate_of(v: i128, d: i128) -> (c: i64)
    requires
        -0x8_0000_0000_0000_0000_0000_0000_0000 <= v <= 0x8_0000_0000_0000_0000_0000_0000_0000,
        -0x1_0000_0000_0000_0000_0000_0000 <= d <= 0x1_0000_0000_0000_0000_0000_0000,
    ensures
        c == coordinate(v as int, d as int),
        -0x1000_0000_0000_0000 <= c <= 0x1000_0000_0000_0000,
{
    let n: i128 = if d < 0 { -v * 4000 } else { v * 4000 };
    let e: i128 = if d < 0 {
        -d
    } else if d == 0 {
        1
    } else {
        d
    };
    let c: i128 = floor_div(n, e);
    if c < -0x1000_0000_0000_0000 {
        -0x1000_0000_0000_0000
    } else if c > 0x1000_0000_0000_0000 {
        0x1000_0000_0000_0000
    } else {
        c as i64
    }
}

/// Where the middle of pixel `i` of a rectangle that is `w` wide lies in the image, in
/// millionths of a pixel from the middle of its first.
pub open spec fn origin(m: Homography, w: int, i: int) -> (int, int) {
    let p = mapped(m, 2 * (i % w) + 1, 2 * (i / w) + 1);
    (coordinate(p.0, p.2) - 500_000, coordinate(p.1, p.2) - 500_000)
}

proof fn lemma_terms(a: int, b: int, c: int, x: int, y: int, big: int, side: int)
    requires
        -big <= a <= big,
        -big <= b <= big,
        -big * side <= c <= big * side,
        -side <= x <= side,
        -side <= y <= side,
    ensures
        -big * side <= a * x <= big * side,
        -big * side <= b * y <= big * side,
        -(3 * (big * side)) <= a * x + b * y + c <= 3 * (big * side),
{
    lemma_bound(a, x, big, side);
    lemma_bound(b, y, big, side);
    let p = big * side;
    assert(-big * side == -p) by (nonlinear_arith)
        requires
            p == big * side,
    ;
    assert(-p <= a * x <= p && -p <= b * y <= p && -p <= c <= p);
}

/// Whether a map's entries can be computed with.
pub open spec fn map_ok(m: Homography) -> bool {
    let big = 0x6000_0000_0000_0000_0000 * 0x2_0000int;
    let low = 0x20_0000_0000_0000 * 0x2_0000int;
    &&& -big <= m.xx <= big
    &&& -big <= m.xy <= big
    &&& -big * 0x2_0000 <= m.x1 <= big * 0x2_0000
    &&& -big <= m.yx <= big
    &&& -big <= m.yy <= big
    &&& -big * 0x2_0000 <= m.y1 <= big * 0x2_0000
    &&& -low <= m.dx <= low
    &&& -low <= m.dy <= low
    &&& -low * 0x2_0000 <= m.d1 <= low * 0x2_0000
}

/// Where a map takes the point `(x, y)`, which counts in halves of a pixel: a place of the
/// image in millionths of a pixel.
pub fn project(m: &Homography, x: i64, y: i64) -> (p: (i64, i64))
    requires
        map_ok(*m),
        -2 * MAX_WARP <= x <= 2 * MAX_WARP,
        -2 * MAX_WARP <= y <= 2 * MAX_WARP,
    ensures
        ({
            let v = mapped(*m, x as int, y as int);
            (p.0 as int, p.1 as int) == (coordinate(v.0, v.2), coordinate(v.1, v.2))
        }),
        -0x1000_0000_0000_0000 <= p.0 <= 0x1000_0000_0000_0000,
        -0x1000_0000_0000_0000 <= p.1 <= 0x1000_0000_0000_0000,
{
    let (u, v) = (x as i128, y as i128);
    proof {
        let big = 0x6000_0000_0000_0000_0000 * 0x2_0000int;
        lemma_terms(m.xx as int, m.xy as int, m.x1 as int, x as int, y as int, big, 0x2_0000);
        lemma_terms(m.yx as int, m.yy as int, m.y1 as int, x as int, y as int, big, 0x2_0000);
        let low = 0x20_0000_0000_0000 * 0x2_0000int;
        lemma_terms(m.dx as int, m.dy as int, m.d1 as int, x as int, y as int, low, 0x2_0000);
    }
    let d: i128 = m.dx * u + m.dy * v + m.d1;
    (coordinate_of(m.xx * u + m.xy * v + m.x1, d), coordinate_of(m.yx * u + m.yy * v + m.y1, d))
}

proof fn lemma_map_bounds(w: int, h: int, q: Seq<(i64, i64)>, m: Homography)
    requires
        0 < w <= MAX_WARP,
        0 < h <= MAX_WARP,
        quad_ok(q),
        is_homography(w, h, q, m),
    ensures
        map_ok(m),
{
    let (g, k, d) = bends(q);
    let (a, b, s) = legs(q);
    lemma_span(s.0, s.1, b.0, b.1);
    lemma_span(a.0, a.1, s.0, s.1);
    lemma_span(a.0, a.1, b.0, b.1);
    let (w2, h2) = (2 * w, 2 * h);
    let n = 4 * w * h;
    assert(0 <= n <= 0x2_0000 * 0x2_0000) by (nonlinear_arith)
        requires
            n == 4 * w * h,
            0 < w <= 0x1_0000,
            0 < h <= 0x1_0000,
    ;
    lemma_entry(q[1].0 - q[0].0, d, g, q[1].0 as int, h2);
    lemma_entry(q[3].0 - q[0].0, d, k, q[3].0 as int, w2);
    lemma_entry(q[1].1 - q[0].1, d, g, q[1].1 as int, h2);
    lemma_entry(q[3].1 - q[0].1, d, k, q[3].1 as int, w2);
    let big = 0x6000_0000_0000_0000_0000int;
    lemma_bound((q[1].0 - q[0].0) * d + g * q[1].0, h2, big, 0x2_0000);
    lemma_bound((q[3].0 - q[0].0) * d + k * q[3].0, w2, big, 0x2_0000);
    lemma_bound((q[1].1 - q[0].1) * d + g * q[1].1, h2, big, 0x2_0000);
    lemma_bound((q[3].1 - q[0].1) * d + k * q[3].1, w2, big, 0x2_0000);
    lemma_entry(0, d, 0, q[0].0 as int, n);
    lemma_entry(0, d, 0, q[0].1 as int, n);
    lemma_bound(q[0].0 * d, n, 0x2000_0000_0000_0000_0000, 0x4_0000_0000);
    lemma_bound(q[0].1 * d, n, 0x2000_0000_0000_0000_0000, 0x4_0000_0000);
    lemma_bound(g, h2, 0x20_0000_0000_0000, 0x2_0000);
    lemma_bound(k, w2, 0x20_0000_0000_0000, 0x2_0000);
    lemma_bound(d, n, 0x20_0000_0000_0000, 0x4_0000_0000);
}

/// Whether `out` is the rectangle that a map fills from an image.
pub open spec fn is_baked(
    px: Seq<[u8; 3]>,
    iw: int,
    ih: int,
    w: int,
    h: int,
    m: Homography,
    out: Seq<[u8; 3]>,
) -> bool {
    &&& out.len() == w * h
    &&& forall|i: int, ch: int|
        0 <= i < out.len() && 0 <= ch < 3 ==> #[trigger] out[i]@[ch] == pixel_at(
            px,
            iw,
            ih,
            origin(m, w, i).0,
            origin(m, w, i).1,
            ch,
        )
}

/// Fills a rectangle of `w` by `h` pixels from the quadrilateral of an image whose corners,
/// from the top left around, become its own. Corners count in `PARTS` of a pixel. None where
/// the second, third and fourth of them lie on a line.
pub fn bake(
    px: &[[u8; 3]],
    iw: usize,
    ih: usize,
    w: usize,
    h: usize,
    quad: &[(i64, i64)],
) -> (out: Option<Vec<[u8; 3]>>)
    requires
        0 < iw <= MAX_CANVAS,
        0 < ih <= MAX_CANVAS,
        px@.len() == iw * ih,
        0 < w <= MAX_WARP,
        0 < h <= MAX_WARP,
        w * h <= usize::MAX,
        quad_ok(quad@),
    ensures
        match out {
            Some(v) => exists|m: Homography| #[trigger]
                is_homography(w as int, h as int, quad@, m) && is_baked(
                    px@,
                    iw as int,
                    ih as int,
                    w as int,
                    h as int,
                    m,
                    v@,
                ),
            None => bends(quad@).2 == 0,
        },
{
    match homography(w, h, quad) {
        None => None,
        Some(m) => {
            let n: usize = w * h;
            let mut places: Vec<(i64, i64)> = Vec::new();
            for i in 0..n
                invariant
                    n == w * h,
                    0 < w <= MAX_WARP,
                    0 < h <= MAX_WARP,
                    map_ok(m),
                    places@.len() == i,
                    forall|j: int|
                        0 <= j < i ==> origin(m, w as int, j) == (
                            (#[trigger] places@[j]).0 as int,
                            places@[j].1 as int,
                        ),
            {
                proof {
                    let (a, b, c) = (i as int, w as int, h as int);
                    assert(a / b < c) by (nonlinear_arith)
                        requires
                            0 <= a < b * c,
                            b > 0,
                    ;
                }
                let (x, y) = project(&m, 2 * (i % w) as i64 + 1, 2 * (i / w) as i64 + 1);
                places.push((x - 500_000, y - 500_000));
            }
            let out: Vec<[u8; 3]> = sample_pixels(px, iw, ih, places.as_slice());
            proof {
                assert forall|i: int, ch: int|
                    0 <= i < out@.len() && 0 <= ch < 3 implies #[trigger] out@[i]@[ch] == pixel_at(
                    px@,
                    iw as int,
                    ih as int,
                    origin(m, w as int, i).0,
                    origin(m, w as int, i).1,
                    ch,
                ) by {
                    assert(origin(m, w as int, i) == (
                        places@[i].0 as int,
                        places@[i].1 as int,
                    ));
                }
                assert(is_baked(px@, iw as int, ih as int, w as int, h as int, m, out@));
            }
            Some(out)
        },
    }
}

/// The corners of the rectangle go to those of the quadrilateral, in order.
pub proof fn lemma_corners(w: int, h: int, q: Seq<(i64, i64)>, m: Homography)
    requires
        is_homography(w, h, q, m),
    ensures
        mapped(m, 0, 0).0 == q[0].0 * mapped(m, 0, 0).2,
        mapped(m, 0, 0).1 == q[0].1 * mapped(m, 0, 0).2,
        mapped(m, 2 * w, 0).0 == q[1].0 * mapped(m, 2 * w, 0).2,
        mapped(m, 2 * w, 0).1 == q[1].1 * mapped(m, 2 * w, 0).2,
        mapped(m, 2 * w, 2 * h).0 == q[2].0 * mapped(m, 2 * w, 2 * h).2,
        mapped(m, 2 * w, 2 * h).1 == q[2].1 * mapped(m, 2 * w, 2 * h).2,
        mapped(m, 0, 2 * h).0 == q[3].0 * mapped(m, 0, 2 * h).2,
        mapped(m, 0, 2 * h).1 == q[3].1 * mapped(m, 0, 2 * h).2,
{
    let (g, k, d) = bends(q);
    let (a, b, s) = legs(q);
    lemma_cramer(a.0, a.1, b.0, b.1, s.0, s.1);
    lemma_corner(
        w,
        h,
        (q[0].0 as int, q[1].0 as int, q[2].0 as int, q[3].0 as int),
        g,
        k,
        d,
    );
    lemma_corner(
        w,
        h,
        (q[0].1 as int, q[1].1 as int, q[2].1 as int, q[3].1 as int),
        g,
        k,
        d,
    );
}

proof fn lemma_cramer(a: int, b: int, c: int, d: int, x: int, y: int)
    ensures
        (x * d - y * c) * a + (a * y - b * x) * c == (a * d - b * c) * x,
        (x * d - y * c) * b + (a * y - b * x) * d == (a * d - b * c) * y,
{
    assert((x * d - y * c) * a == x * d * a - y * c * a) by (nonlinear_arith);
    assert((a * y - b * x) * c == a * y * c - b * x * c) by (nonlinear_arith);
    assert((a * d - b * c) * x == a * d * x - b * c * x) by (nonlinear_arith);
    assert(x * d * a == a * d * x && y * c * a == a * y * c && b * x * c == b * c * x)
        by (nonlinear_arith);
    assert((x * d - y * c) * b == x * d * b - y * c * b) by (nonlinear_arith);
    assert((a * y - b * x) * d == a * y * d - b * x * d) by (nonlinear_arith);
    assert((a * d - b * c) * y == a * d * y - b * c * y) by (nonlinear_arith);
    assert(a * y * d == a * d * y && y * c * b == b * c * y && x * d * b == b * x * d)
        by (nonlinear_arith);
}

proof fn lemma_side(p: int, q: int, g: int, d: int, n: int)
    ensures
        ((q - p) * d + g * q) * n + p * d * n == q * (g * n + d * n),
{
    assert((q - p) * d == q * d - p * d) by (nonlinear_arith);
    let u = q * d;
    let v = p * d;
    let z = g * q;
    assert((u - v + z) * n == u * n - v * n + z * n) by (nonlinear_arith);
    assert(q * (g * n + d * n) == q * (g * n) + q * (d * n)) by (nonlinear_arith);
    assert(q * (g * n) == z * n && q * (d * n) == u * n) by (nonlinear_arith)
        requires
            z == g * q,
            u == q * d,
    ;
}

/// The corners, for one coordinate of a quadrilateral.
proof fn lemma_corner(w: int, h: int, q: (int, int, int, int), g: int, k: int, d: int)
    requires
        g * (q.1 - q.2) + k * (q.3 - q.2) == d * (q.0 - q.1 + q.2 - q.3),
    ensures
        ({
            let (w2, h2, n) = (2 * w, 2 * h, 4 * w * h);
            let a = ((q.1 - q.0) * d + g * q.1) * h2;
            let b = ((q.3 - q.0) * d + k * q.3) * w2;
            let c = q.0 * d * n;
            let (dx, dy, d1) = (g * h2, k * w2, d * n);
            &&& a * 0 + b * 0 + c == q.0 * (dx * 0 + dy * 0 + d1)
            &&& a * w2 + b * 0 + c == q.1 * (dx * w2 + dy * 0 + d1)
            &&& a * w2 + b * h2 + c == q.2 * (dx * w2 + dy * h2 + d1)
            &&& a * 0 + b * h2 + c == q.3 * (dx * 0 + dy * h2 + d1)
        }),
{
    let (w2, h2, n) = (2 * w, 2 * h, 4 * w * h);
    assert(n == w2 * h2) by (nonlinear_arith)
        requires
            w2 == 2 * w,
            h2 == 2 * h,
            n == 4 * w * h,
    ;
    let a = ((q.1 - q.0) * d + g * q.1) * h2;
    let b = ((q.3 - q.0) * d + k * q.3) * w2;
    let c = q.0 * d * n;
    let (dx, dy, d1) = (g * h2, k * w2, d * n);
    let (e, f) = ((q.1 - q.0) * d + g * q.1, (q.3 - q.0) * d + k * q.3);
    assert(a * w2 == e * n && dx * w2 == g * n) by (nonlinear_arith)
        requires
            a == e * h2,
            dx == g * h2,
            n == w2 * h2,
    ;
    assert(b * h2 == f * n && dy * h2 == k * n) by (nonlinear_arith)
        requires
            b == f * w2,
            dy == k * w2,
            n == w2 * h2,
    ;
    assert(a * 0 == 0 && b * 0 == 0 && dx * 0 == 0 && dy * 0 == 0) by (nonlinear_arith);
    assert(c == q.0 * d1) by (nonlinear_arith)
        requires
            c == q.0 * d * n,
            d1 == d * n,
    ;
    lemma_side(q.0, q.1, g, d, n);
    lemma_side(q.0, q.3, k, d, n);
    assert((q.1 - q.0) * d == q.1 * d - q.0 * d) by (nonlinear_arith);
    assert((q.3 - q.0) * d == q.3 * d - q.0 * d) by (nonlinear_arith);
    assert(g * (q.1 - q.2) == g * q.1 - g * q.2) by (nonlinear_arith);
    assert(k * (q.3 - q.2) == k * q.3 - k * q.2) by (nonlinear_arith);
    assert(d * (q.0 - q.1 + q.2 - q.3) == q.0 * d - q.1 * d + q.2 * d - q.3 * d)
        by (nonlinear_arith);
    assert(q.2 * (g + k + d) == g * q.2 + k * q.2 + q.2 * d) by (nonlinear_arith);
    assert(e * n + f * n + c == (e + f + q.0 * d) * n) by (nonlinear_arith)
        requires
            c == q.0 * d * n,
    ;
    assert(q.2 * (g * n + k * n + d1) == (q.2 * (g + k + d)) * n) by (nonlinear_arith)
        requires
            d1 == d * n,
    ;
}

/// The corners of an upright crop of `w` by `h` pixels, whose top left pixel stands in column
/// `cx` of row `cy`.
pub open spec fn is_crop(q: Seq<(i64, i64)>, cx: int, cy: int, w: int, h: int) -> bool {
    &&& q.len() == 4
    &&& q[0].0 == 250 * cx && q[0].1 == 250 * cy
    &&& q[1].0 == 250 * (cx + w) && q[1].1 == 250 * cy
    &&& q[2].0 == 250 * (cx + w) && q[2].1 == 250 * (cy + h)
    &&& q[3].0 == 250 * cx && q[3].1 == 250 * (cy + h)
}

/// A quadrilateral is refused exactly where its second, third and fourth corner lie on a line;
/// an upright crop never is.
pub proof fn lemma_refused(q: Seq<(i64, i64)>, cx: int, cy: int, w: int, h: int)
    ensures
        bends(q).2 == 0 <==> (q[1].0 - q[2].0) * (q[3].1 - q[2].1) == (q[1].1 - q[2].1) * (q[3].0
            - q[2].0),
        is_crop(q, cx, cy, w, h) && w > 0 && h > 0 ==> bends(q).2 != 0,
{
    if is_crop(q, cx, cy, w, h) && w > 0 && h > 0 {
        let (a, b) = (q[1].1 - q[2].1, q[3].0 - q[2].0);
        assert(a == -250 * h && b == -250 * w);
        assert(0 * (q[3].1 - q[2].1) == 0);
        assert(a * b > 0) by (nonlinear_arith)
            requires
                a < 0,
                b < 0,
        ;
    }
}

/// One coordinate of a crop.
proof fn lemma_crop_coordinate(c: int, w: int, h: int, d: int, i: int)
    requires
        0 < w,
        0 < h,
        d != 0,
        0 <= i < w,
        -0x1000_0000 <= c <= 0x1000_0000,
        w <= 0x1000_0000,
    ensures
        coordinate(
            (250 * w * d) * (2 * h) * (2 * i + 1) + (250 * c) * d * (4 * w * h),
            d * (4 * w * h),
        ) == (c + i) * 1_000_000 + 500_000,
{
    let n = w * h;
    let v = (250 * w * d) * (2 * h) * (2 * i + 1) + (250 * c) * d * (4 * w * h);
    let e = d * (4 * w * h);
    let z = (c + i) * 1_000_000 + 500_000;
    assert((250 * w * d) * (2 * h) == 500 * (n * d)) by (nonlinear_arith)
        requires
            n == w * h,
    ;
    let nd = n * d;
    assert(500 * nd * (2 * i + 1) == 1000 * (nd * i) + 500 * nd) by (nonlinear_arith);
    assert((250 * c) * d * (4 * w * h) == 1000 * (nd * c)) by (nonlinear_arith)
        requires
            nd == w * h * d,
    ;
    assert(v == 1000 * (nd * i) + 500 * nd + 1000 * (nd * c));
    assert(e == 4 * nd) by (nonlinear_arith)
        requires
            e == d * (4 * w * h),
            nd == w * h * d,
    ;
    assert(z * e == v * 4000) by (nonlinear_arith)
        requires
            z == (c + i) * 1_000_000 + 500_000,
            e == 4 * nd,
            v == 1000 * (nd * i) + 500 * nd + 1000 * (nd * c),
    ;
    assert(n > 0 && nd != 0) by (nonlinear_arith)
        requires
            n == w * h,
            nd == n * d,
            w > 0,
            h > 0,
            d != 0,
    ;
    if e > 0 {
        vstd::arithmetic::div_mod::lemma_fundamental_div_mod_converse(v * 4000, e, z, 0);
    } else {
        assert(-v * 4000 == z * (-e)) by (nonlinear_arith)
            requires
                z * e == v * 4000,
        ;
        vstd::arithmetic::div_mod::lemma_fundamental_div_mod_converse(-v * 4000, -e, z, 0);
    }
}

/// Cropping takes nothing but the crop: filled from an upright rectangle of as many pixels,
/// the result is that part of the image, pixel for pixel. With the image's own corners it is
/// the image itself.
pub proof fn lemma_crop(
    px: Seq<[u8; 3]>,
    iw: int,
    ih: int,
    w: int,
    h: int,
    q: Seq<(i64, i64)>,
    m: Homography,
    out: Seq<[u8; 3]>,
    cx: int,
    cy: int,
    x: int,
    y: int,
    ch: int,
)
    requires
        px.len() == iw * ih,
        0 < w <= MAX_WARP,
        0 < h <= MAX_WARP,
        0 <= cx,
        cx + w <= iw <= MAX_CANVAS,
        0 <= cy,
        cy + h <= ih <= MAX_CANVAS,
        is_crop(q, cx, cy, w, h),
        is_homography(w, h, q, m),
        is_baked(px, iw, ih, w, h, m, out),
        0 <= x < w,
        0 <= y < h,
        0 <= ch < 3,
    ensures
        out.len() == w * h,
        out[y * w + x]@[ch] == px[(cy + y) * iw + cx + x]@[ch],
{
    let (g, k, d) = bends(q);
    let (a, b, s) = legs(q);
    assert(s == (0int, 0int));
    assert(a == (0int, -250 * h) && b == (-250 * w, 0int));
    assert(g == 0 && k == 0) by {
        assert(0 * b.1 - 0 * b.0 == 0 && a.0 * 0 - a.1 * 0 == 0);
    }
    let i = y * w + x;
    assert(0 <= i < w * h) by (nonlinear_arith)
        requires
            i == y * w + x,
            0 <= x < w,
            0 <= y < h,
    ;
    vstd::arithmetic::div_mod::lemma_fundamental_div_mod_converse(i, w, y, x);
    let (u, v) = (2 * x + 1, 2 * y + 1);
    let (w2, h2, n) = (2 * w, 2 * h, 4 * w * h);
    assert(m.xx == (250 * w * d) * h2) by {
        assert((q[1].0 - q[0].0) * d == 250 * w * d) by (nonlinear_arith)
            requires
                q[1].0 - q[0].0 == 250 * w,
        ;
        assert(0 * q[1].0 == 0);
    }
    assert(m.xy == 0) by {
        assert(0 * d == 0 && 0 * w2 == 0) by (nonlinear_arith);
        assert(0 * q[3].0 == 0);
    }
    assert(m.yx == 0) by {
        assert(0 * d == 0 && 0 * h2 == 0) by (nonlinear_arith);
        assert(0 * q[1].1 == 0);
    }
    assert(m.yy == (250 * h * d) * w2) by {
        assert((q[3].1 - q[0].1) * d == 250 * h * d) by (nonlinear_arith)
            requires
                q[3].1 - q[0].1 == 250 * h,
        ;
        assert(0 * q[3].1 == 0);
    }
    assert(m.dx == 0 && m.dy == 0) by {
        assert(0 * h2 == 0 && 0 * w2 == 0);
    }
    let p = mapped(m, u, v);
    assert(p.0 == (250 * w * d) * h2 * u + (250 * cx) * d * n) by {
        assert(0 * v == 0);
    }
    assert(p.1 == (250 * h * d) * w2 * v + (250 * cy) * d * n) by {
        assert(0 * u == 0);
    }
    assert(p.2 == d * n) by {
        assert(0 * u == 0 && 0 * v == 0);
    }
    lemma_crop_coordinate(cx, w, h, d, x);
    assert(d * n == d * (4 * h * w) && (250 * cy) * d * n == (250 * cy) * d * (4 * h * w))
        by (nonlinear_arith)
        requires
            n == 4 * w * h,
    ;
    lemma_crop_coordinate(cy, h, w, d, y);
    assert(origin(m, w, i) == ((cx + x) * 1_000_000, (cy + y) * 1_000_000));
    lemma_pixel_itself(px, iw, ih, cx + x, cy + y, ch);
    assert((cy + y) * iw + (cx + x) == (cy + y) * iw + cx + x);
}

/// A place is the quotient of a mapped coordinate and its divisor, in millionths of a pixel and
/// rounded down, as far as it can be told; it does not change where both change their sign.
pub proof fn lemma_coordinate(v: int, d: int)
    requires
        d > 0,
    ensures
        coordinate(-v, -d) == coordinate(v, d),
        -0x1000_0000_0000_0000 <= coordinate(v, d) <= 0x1000_0000_0000_0000,
        coordinate(v, d) > -0x1000_0000_0000_0000 ==> coordinate(v, d) * d <= 4000 * v,
        coordinate(v, d) < 0x1000_0000_0000_0000 ==> 4000 * v < (coordinate(v, d) + 1) * d,
{
    let n = v * 4000;
    let c = n / d;
    assert(c * d <= n < (c + 1) * d) by (nonlinear_arith)
        requires
            d > 0,
            c == n / d,
    ;
    let (lo, hi) = (-0x1000_0000_0000_0000int, 0x1000_0000_0000_0000int);
    assert(c > hi ==> hi * d <= n) by (nonlinear_arith)
        requires
            d > 0,
            c * d <= n,
    ;
    assert(c < lo ==> n < (lo + 1) * d) by (nonlinear_arith)
        requires
            d > 0,
            n < (c + 1) * d,
    ;
}

} // verus!
