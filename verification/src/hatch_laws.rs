//! What a hatching leaves standing: later angles keep their distance from what earlier ones
//! have cut.

use crate::arith::{lemma_is_root, root};
use crate::hatch::{
    cut_cells, gap2, in_disc, least, lemma_field_counts_cuts, lemma_gap2,
    lemma_hatch_keeps_clear, lemma_least_exists, lowered, Hatching,
};
use crate::lattice::{knot, middle, milli, segment_len, Lattice, PX, TURN};
use crate::line_laws::{lemma_outline_run, lemma_reach_bound};
use crate::plane::{lemma_lagrange, lemma_no_longer, lemma_no_shorter, plus, square, way};
use crate::sampling::{between, held, sampled};
use crate::strokes::{counts_of, Screening};
use crate::trace::Point;
use vstd::prelude::*;

verus! {

/// Whether a sine and a cosine belong to one angle, up to their rounding.
pub open spec fn is_turn(t: (i64, i64)) -> bool {
    square((t.0 as int, t.1 as int)) <= (TURN + 1) * (TURN + 1)
}

/// How far apart the cuts of two angles are at least: the least material and half a segment,
/// less what reading a distance between cells and writing a place in thousandths may add.
pub open spec fn seam(s: Hatching) -> int {
    s.c.material + segment_len(s.l.spacing as int) / 2 - 416_000
}

/// The way from where the map holds the value of cell `q` to a point of an outline, in
/// millionths of a pixel.
pub open spec fn from_cell(w: int, q: int, p: Point) -> (int, int) {
    (1000 * p.0 - (q % w) * PX, 1000 * p.1 - (q / w) * PX)
}

proof fn lemma_mean(a: int, b: int, f: int, m: int)
    requires
        a <= m,
        b <= m,
        0 <= f <= PX,
    ensures
        between(a, b, f) <= m * PX,
{
    assert(a * (PX - f) + b * f <= m * PX) by (nonlinear_arith)
        requires
            a <= m,
            b <= m,
            0 <= f <= PX,
    ;
}

/// Of the cells around a place of the canvas, one has no less than what is read there. It
/// lies no farther than a pixel along either side.
proof fn lemma_read_from(field: Seq<i64>, w: int, h: int, x: int, y: int) -> (c: (int, int))
    requires
        0 <= x < w * PX,
        0 <= y < h * PX,
    ensures
        0 <= c.0 < w,
        0 <= c.1 < h,
        -PX <= c.0 * PX - x <= PX,
        -PX <= c.1 * PX - y <= PX,
        field[c.1 * w + c.0] >= sampled(field, w, h, x, y),
{
    let (hx, hy) = (held(x, w), held(y, h));
    let (x0, y0) = (hx / (PX as int), hy / (PX as int));
    let x1 = if x0 + 1 < w {
        x0 + 1
    } else {
        x0
    };
    let y1 = if y0 + 1 < h {
        y0 + 1
    } else {
        y0
    };
    let (fx, fy) = (hx % (PX as int), hy % (PX as int));
    let (a, b) = (field[y0 * w + x0] as int, field[y0 * w + x1] as int);
    let (c, d) = (field[y1 * w + x0] as int, field[y1 * w + x1] as int);
    let m = sampled(field, w, h, x, y);
    if a < m && b < m && c < m && d < m {
        lemma_mean(a, b, fx, m - 1);
        lemma_mean(c, d, fx, m - 1);
        lemma_mean(between(a, b, fx), between(c, d, fx), fy, (m - 1) * PX);
        assert(false);
    }
    if a >= m {
        (x0, y0)
    } else if b >= m {
        (x1, y0)
    } else if c >= m {
        (x0, y1)
    } else {
        (x1, y1)
    }
}

/// No distance of a field exceeds the one from which on a cut has its full width.
proof fn lemma_field_top(s: Hatching, b: int, i: int)
    requires
        s.l.wf(),
        s.c.wf(),
        0 <= i < s.l.w * s.l.h,
    ensures
        s.field(b).len() == s.l.w * s.l.h,
        s.field(b)[i] <= s.radius(),
    decreases b,
{
    assert(s.l.w * s.l.h >= 0) by (nonlinear_arith);
    if b > 0 {
        lemma_field_top(s, b - 1, i);
        let before = s.field(b - 1);
        let mask = cut_cells(
            s.screen(b - 1, before).runs(),
            s.l.w as int,
            s.l.h as int,
        );
        let o = least(mask, s.l.w as int, s.radius(), i);
        assert(s.field(b)[i] == lowered(before[i], o));
        lemma_least_exists(mask, s.l.w as int, s.radius(), i);
        if o is Some {
            let q = choose|q: int| #[trigger]
                in_disc(mask, s.l.w as int, s.radius(), i, q) && gap2(s.l.w as int, i, q) == o->0;
            lemma_gap2(s.l.w as int, i, q);
            lemma_is_root(o->0 * (PX * PX));
        }
    }
}

/// The distance that a later angle is screened with is no longer than the way to a cell that
/// an earlier one has cut.
proof fn lemma_field_short(s: Hatching, a: int, b: int, i: int, q: int)
    requires
        s.l.wf(),
        s.c.wf(),
        0 <= a < b,
        0 <= i < s.l.w * s.l.h,
        0 <= q < s.l.w * s.l.h,
        cut_cells(s.screen(a, s.field(a)).runs(), s.l.w as int, s.l.h as int)[q],
    ensures
        s.field(b)[i] > 0 ==> s.field(b)[i] * s.field(b)[i] <= gap2(s.l.w as int, i, q) * (PX * PX),
{
    let w = s.l.w as int;
    let mask = cut_cells(s.screen(a, s.field(a)).runs(), w, s.l.h as int);
    let v = s.field(b)[i] as int;
    let g = gap2(w, i, q) * (PX * PX);
    let (x, y) = (i % w - q % w, i / w - q / w);
    assert(gap2(w, i, q) >= 0) by (nonlinear_arith)
        requires
            gap2(w, i, q) == x * x + y * y,
    ;
    if in_disc(mask, w, s.radius(), i, q) {
        lemma_field_counts_cuts(s, a, b, i, q);
        lemma_is_root(g);
        let r = root(g);
        if v > 0 {
            assert(v * v <= r * r) by (nonlinear_arith)
                requires
                    0 < v <= r,
            ;
        }
    } else {
        lemma_field_top(s, b, i);
        let r = s.radius();
        if v > 0 {
            assert(v * v <= r * r) by (nonlinear_arith)
                requires
                    0 < v <= r,
            ;
        }
    }
}

/// Both knots of a segment lie half a segment from its middle at most.
proof fn lemma_half_segment(r: int, s: int, k: int)
    requires
        s > 0,
        0 <= k,
        0 <= r,
    ensures
        -(s / 2 + 1) <= knot(r, s, k) - middle(r, s, k) <= s / 2 + 1,
        -(s / 2 + 1) <= knot(r, s, k + 1) - middle(r, s, k) <= s / 2 + 1,
{
    assert((k + 1) * s == k * s + s) by (nonlinear_arith);
}

proof fn lemma_floor(a: int, b: int, t: int)
    requires
        t > 0,
    ensures
        -t <= (b / t - a / t) * t - (b - a) <= t,
{
    let (p, q) = (a / t, b / t);
    assert(p * t <= a < p * t + t && q * t <= b < q * t + t) by (nonlinear_arith)
        requires
            t > 0,
            p == a / t,
            q == b / t,
    ;
    assert((q - p) * t == q * t - p * t) by (nonlinear_arith);
}

/// Two places of a screen are no farther apart on the canvas than across and along together,
/// but for the rounding.
proof fn lemma_placed(l: Lattice, u: int, v: int, du: int, dv: int, n: int)
    requires
        is_turn((l.sin, l.cos)),
        -n <= du <= n,
        -n <= dv <= n,
        (if du < 0 { -du } else { du }) + (if dv < 0 { -dv } else { dv }) <= n,
        0 <= n <= 1024 * TURN,
    ensures
        square(way(l.place(u, v), l.place(u + du, v + dv))) <= (n + 1026) * (n + 1026),
{
    let t = TURN as int;
    let (s, c) = (l.sin as int, l.cos as int);
    let (a, b) = (v * c - u * s, v * s + u * c);
    let (p, q) = ((v + dv) * c - (u + du) * s, (v + dv) * s + (u + du) * c);
    let (x, y) = (dv * c - du * s, dv * s + du * c);
    assert(p - a == x && q - b == y) by (nonlinear_arith)
        requires
            a == v * c - u * s,
            b == v * s + u * c,
            p == (v + dv) * c - (u + du) * s,
            q == (v + dv) * s + (u + du) * c,
            x == dv * c - du * s,
            y == dv * s + du * c,
    ;
    let d = way(l.place(u, v), l.place(u + du, v + dv));
    assert(d == (p / t - a / t, q / t - b / t));
    lemma_floor(a, p, t);
    lemma_floor(b, q, t);
    let e = (d.0 * t - x, d.1 * t - y);
    let (m, k) = (du * du + dv * dv, s * s + c * c);
    lemma_lagrange(dv, du, s, c);
    assert(x * x + y * y == m * k) by (nonlinear_arith)
        requires
            x == dv * c - du * s,
            y == dv * s + du * c,
            (dv * s + du * c) * (dv * s + du * c) + (dv * c - du * s) * (dv * c - du * s) == (dv
                * dv + du * du) * (s * s + c * c),
            m == du * du + dv * dv,
            k == s * s + c * c,
    ;
    assert(0 <= k) by (nonlinear_arith)
        requires
            k == s * s + c * c,
    ;
    let (f, g) = (if du < 0 { -du } else { du }, if dv < 0 { -dv } else { dv });
    assert(0 <= m <= n * n) by (nonlinear_arith)
        requires
            m == du * du + dv * dv,
            0 <= f,
            0 <= g,
            f + g <= n,
            f == du || f == -du,
            g == dv || g == -dv,
    ;
    let r = n * (t + 1);
    assert(m * k <= r * r) by (nonlinear_arith)
        requires
            0 <= m <= n * n,
            0 <= k <= (t + 1) * (t + 1),
            r == n * (t + 1),
    ;
    assert(square(e) <= (2 * t) * (2 * t)) by (nonlinear_arith)
        requires
            -t <= e.0 <= t,
            -t <= e.1 <= t,
            square(e) == e.0 * e.0 + e.1 * e.1,
            t > 0,
    ;
    assert(0 <= r) by (nonlinear_arith)
        requires
            r == n * (t + 1),
            n >= 0,
            t > 0,
    ;
    lemma_no_longer((x, y), e, r, 2 * t);
    let z = n + 1026;
    assert(r + 2 * t <= t * z) by (nonlinear_arith)
        requires
            r == n * (t + 1),
            n <= 1024 * t,
            z == n + 1026,
    ;
    let (o, w) = (r + 2 * t, t * z);
    assert(o * o <= w * w) by (nonlinear_arith)
        requires
            0 <= o <= w,
    ;
    assert(plus((x, y), e) == (d.0 * t, d.1 * t));
    let h = square(d);
    assert(square((d.0 * t, d.1 * t)) == h * (t * t)) by (nonlinear_arith)
        requires
            square((d.0 * t, d.1 * t)) == (d.0 * t) * (d.0 * t) + (d.1 * t) * (d.1 * t),
            h == d.0 * d.0 + d.1 * d.1,
    ;
    assert(w * w == (z * z) * (t * t)) by (nonlinear_arith)
        requires
            w == t * z,
    ;
    let tt = t * t;
    assert(h <= z * z) by (nonlinear_arith)
        requires
            h * tt <= (z * z) * tt,
            tt > 0,
    ;
}

/// Writing a place in thousandths moves it by half of one at most along either side.
proof fn lemma_written(l: Lattice, u: int, v: int)
    requires
        l.wf(),
        -0x1_0000_0000_0000 <= u <= 0x1_0000_0000_0000,
        -0x1_0000_0000_0000 <= v <= 0x1_0000_0000_0000,
    ensures
        ({
            let p = l.place(u, v);
            let q = milli(p);
            square((1000 * q.0 - p.0, 1000 * q.1 - p.1)) <= 708 * 708
        }),
{
    let t = TURN as int;
    let (s, c) = (l.sin as int, l.cos as int);
    let (a, b) = (v * c - u * s, v * s + u * c);
    let m = 0x1_0000_0000_0000int;
    assert(-2 * (m * t) <= a <= 2 * (m * t) && -2 * (m * t) <= b <= 2 * (m * t)) by (nonlinear_arith)
        requires
            a == v * c - u * s,
            b == v * s + u * c,
            -m <= u <= m,
            -m <= v <= m,
            -t <= s <= t,
            -t <= c <= t,
    ;
    assert(-2 * m <= a / t <= 2 * m && -2 * m <= b / t <= 2 * m) by (nonlinear_arith)
        requires
            t > 0,
            -2 * (m * t) <= a <= 2 * (m * t),
            -2 * (m * t) <= b <= 2 * (m * t),
    ;
    let p = l.place(u, v);
    let q = milli(p);
    let (x, y) = (1000 * q.0 - p.0, 1000 * q.1 - p.1);
    assert(x * x + y * y <= 708 * 708) by (nonlinear_arith)
        requires
            -500 <= x <= 500,
            -500 <= y <= 500,
    ;
}

/// The middle of a cut lies about as far from a cell that an earlier angle has cut as the
/// distance that is read there.
proof fn lemma_middle_far(s: Hatching, a: int, b: int, x: int, y: int, q: int)
    requires
        0 <= a < b,
        s.l.wf(),
        s.c.wf(),
        0 <= x < s.l.w * PX,
        0 <= y < s.l.h * PX,
        0 <= q < s.l.w * s.l.h,
        cut_cells(s.screen(a, s.field(a)).runs(), s.l.w as int, s.l.h as int)[q],
    ensures
        ({
            let read = sampled(s.field(b), s.l.w as int, s.l.h as int, x, y);
            read >= 1_414_214 ==> square(
                (x - (q % s.l.w as int) * PX, y - (q / s.l.w as int) * PX),
            ) >= (read - 1_414_214) * (read - 1_414_214)
        }),
{
    let (w, h) = (s.l.w as int, s.l.h as int);
    let read = sampled(s.field(b), w, h, x, y);
    if read >= 1_414_214 {
        let c = lemma_read_from(s.field(b), w, h, x, y);
        let ci = c.1 * w + c.0;
        vstd::arithmetic::div_mod::lemma_fundamental_div_mod_converse(ci, w, c.1, c.0);
        assert(0 <= ci < w * h) by (nonlinear_arith)
            requires
                ci == c.1 * w + c.0,
                0 <= c.0 < w,
                0 <= c.1 < h,
        ;
        lemma_field_short(s, a, b, ci, q);
        let f = s.field(b)[ci] as int;
        assert(f * f >= read * read) by (nonlinear_arith)
            requires
                f >= read,
                read > 0,
        ;
        let (gx, gy) = (c.0 - q % w, c.1 - q / w);
        let far = (gx * PX, gy * PX);
        assert(square(far) == gap2(w, ci, q) * (PX * PX)) by (nonlinear_arith)
            requires
                square(far) == (gx * PX) * (gx * PX) + (gy * PX) * (gy * PX),
                gap2(w, ci, q) == gx * gx + gy * gy,
        ;
        let v = (x - c.0 * PX, y - c.1 * PX);
        assert(square(v) <= 1_414_214 * 1_414_214) by (nonlinear_arith)
            requires
                -1_000_000 <= v.0 <= 1_000_000,
                -1_000_000 <= v.1 <= 1_000_000,
                square(v) == v.0 * v.0 + v.1 * v.1,
        ;
        lemma_no_shorter(far, v, read, 1_414_214);
        assert((c.0 - q % w) * PX == c.0 * PX - (q % w) * PX) by (nonlinear_arith);
        assert((c.1 - q / w) * PX == c.1 * PX - (q / w) * PX) by (nonlinear_arith);
        assert(plus(far, v) == (x - (q % w) * PX, y - (q / w) * PX));
    }
}

/// Every point of a run's outline belongs to a segment of the run: it lies half a cut and
/// half a segment from its middle at most, but for the rounding.
proof fn lemma_edge_near(t: Screening, i: int, a: int, b: int, j: int) -> (m: int)
    requires
        t.l.wf(),
        t.c.wf(),
        t.l.is_reach(t.r),
        is_turn((t.l.sin, t.l.cos)),
        0 <= i <= 2 * t.side(),
        0 <= a < b,
        0 <= j < 2 * (b - a + 1),
        forall|m: int| a <= m < b ==> #[trigger] t.half(i, m) > 0,
    ensures
        a <= m < b,
        ({
            let p = t.edge_point(i, a, b, j);
            let n = t.half(i, m) + t.step() / 2 + 1735;
            square(way(t.mid(i, m), (1000 * p.0, 1000 * p.1))) <= n * n
        }),
{
    lemma_reach_bound(t.l, t.r);
    let e = b - a + 1;
    let (k, left) = if j < e {
        (a + j, true)
    } else {
        (b - (j - e), false)
    };
    let m0 = if k > a {
        k - 1
    } else {
        a
    };
    let m1 = if k < b {
        k
    } else {
        b - 1
    };
    let m = if t.half(i, m0) >= t.half(i, m1) {
        m0
    } else {
        m1
    };
    let hw = t.half_at(i, a, b, k);
    assert(hw == t.half(i, m) && hw > 0);
    let step = t.step();
    lemma_half_segment(t.r, step, m);
    let du = if left {
        -hw
    } else {
        hw
    };
    let (u, v) = (t.across(i), middle(t.r, step, m));
    let dv = t.along(k) - v;
    let n = hw + step / 2 + 1;
    assert(hw <= t.c.most / 2);
    lemma_placed(t.l, u, v, du, dv, n);
    let (side, sp) = (t.side(), t.l.spacing as int);
    let z = t.r + sp - 1;
    assert(-z <= (i - side) * sp <= z) by (nonlinear_arith)
        requires
            side == z / sp,
            sp > 0,
            z >= 0,
            0 <= i <= 2 * side,
    ;
    lemma_along_bound(t.r, step, k);
    lemma_written(t.l, u + du, v + dv);
    let p = t.l.place(u + du, v + dv);
    let pt = milli(p);
    assert(pt == t.edge_point(i, a, b, j));
    let rest = (1000 * pt.0 - p.0, 1000 * pt.1 - p.1);
    lemma_no_longer(way(t.mid(i, m), p), rest, n + 1026, 708);
    assert(plus(way(t.mid(i, m), p), rest) == way(t.mid(i, m), (1000 * pt.0, 1000 * pt.1)));
    m
}

proof fn lemma_along_bound(r: int, s: int, k: int)
    requires
        s > 0,
        0 <= k,
        0 <= r,
    ensures
        -r <= knot(r, s, k) <= r,
{
    assert(0 <= k * s) by (nonlinear_arith)
        requires
            0 <= k,
            s > 0,
    ;
}

/// A cut leaves the least material to what the earlier angles have cut: every point of the
/// outlines of angle `b` lies at least `seam` from every cell that an earlier angle `a` has
/// cut. From a spacing of a pixel and two thirds on that is no less than the material.
pub proof fn lemma_hatch_gap(s: Hatching, a: int, b: int, n: int, j: int, q: int)
    requires
        0 <= a < b < s.turns.len(),
        s.l.wf(),
        s.c.wf(),
        s.l.is_reach(s.r),
        s.tones[b].len() == (2 * counts_of(s.l, s.r).0 + 1) * counts_of(s.l, s.r).1,
        s.lattice(b).wf(),
        is_turn(s.turns[b]),
        0 < s.l.w,
        0 < s.l.h,
        0 <= n < s.screen(b, s.field(b)).runs().len(),
        0 <= j < s.screen(b, s.field(b)).runs()[n].len(),
        0 <= q < s.l.w * s.l.h,
        cut_cells(s.screen(a, s.field(a)).runs(), s.l.w as int, s.l.h as int)[q],
    ensures
        seam(s) > 0 ==> square(
            from_cell(s.l.w as int, q, s.screen(b, s.field(b)).runs()[n][j]),
        ) >= seam(s) * seam(s),
        s.l.spacing >= 1_664_000 ==> square(
            from_cell(s.l.w as int, q, s.screen(b, s.field(b)).runs()[n][j]),
        ) >= s.c.material * s.c.material,
{
    let t = s.screen(b, s.field(b));
    let (w, h) = (s.l.w as int, s.l.h as int);
    let step = t.step();
    lemma_reach_bound(s.l, s.r);
    assert(t.segments() >= 0) by (nonlinear_arith)
        requires
            t.segments() == (2 * s.r + step - 1) / step,
            s.r > 0,
            step > 0,
    ;
    let (i, from, upto) = lemma_outline_run(t, 2 * t.side() + 1, n);
    let pt = t.runs()[n][j];
    assert(pt == t.edge_point(i, from, upto, j));
    let m = lemma_edge_near(t, i, from, upto, j);
    lemma_hatch_keeps_clear(s, b, i, m);
    let mid = t.mid(i, m);
    assert(t.half(i, m) > 0 && t.on_canvas(i, m));
    let read = sampled(s.field(b), w, h, mid.0, mid.1);
    lemma_middle_far(s, a, b, mid.0, mid.1, q);
    let far = (mid.0 - (q % w) * PX, mid.1 - (q / w) * PX);
    let v = way(mid, (1000 * pt.0, 1000 * pt.1));
    let off = t.half(i, m) + step / 2 + 1735;
    if seam(s) > 0 {
        assert(read - 1_414_214 - off >= seam(s));
        lemma_no_shorter(far, v, read - 1_414_214, off);
        let (x, y) = (read - 1_414_214 - off, seam(s));
        assert(x * x >= y * y) by (nonlinear_arith)
            requires
                x >= y,
                y > 0,
        ;
        assert(plus(far, v) == from_cell(w, q, pt));
    }
    if s.l.spacing >= 1_664_000 {
        let (x, y, g) = (s.c.material as int, seam(s), from_cell(w, q, pt));
        assert(x * x <= y * y) by (nonlinear_arith)
            requires
                0 <= x <= y,
        ;
        assert(square(g) >= 0) by (nonlinear_arith)
            requires
                square(g) == g.0 * g.0 + g.1 * g.1,
        ;
        if y > 0 {
            assert(square(g) >= y * y);
        } else {
            assert(x * x == 0) by (nonlinear_arith)
                requires
                    x == 0,
            ;
        }
        assert(square(g) >= x * x);
    }
}

} // verus!
