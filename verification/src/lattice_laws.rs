//! What a screen is laid out by: lines that cover the canvas, segments that tile the lines,
//! and the widths of cuts.

use crate::lattice::{
    extent, is_bridge, knot, most_cut, raw_width, segment_len, tamed_cut, Cut, Lattice,
};
use crate::strokes::counts_of;
use vstd::prelude::*;

verus! {

proof fn lemma_quotient(a: int, b: int)
    requires
        b > 0,
    ensures
        b * (a / b) <= a < b * (a / b + 1),
{
    let q = a / b;
    assert(b * q <= a < b * (q + 1)) by (nonlinear_arith)
        requires
            b > 0,
            q == a / b,
    ;
}

/// The width of a cut: what the tone asks for is its share of the spacing under the load. A
/// tone that asks for less than the least width is not cut. Another is cut as wide as it
/// asks for, less the beam, and no wider than the widest.
pub proof fn lemma_width(tone: int, spacing: int, c: Cut)
    requires
        c.wf(),
        0 <= tone,
        0 < spacing,
    ensures
        ({
            let unit = 0x100_0000_0000 * 1_000_000int;
            let asked = tone * spacing * c.load;
            let e = extent(tone, spacing, c);
            &&& 0 <= e <= c.most
            &&& asked < c.least * unit ==> e == 0
            &&& asked < c.kerf * unit ==> e == 0
            &&& asked >= c.least * unit && asked >= c.kerf * unit && asked < (c.most + c.kerf + 1)
                * unit ==> (e + c.kerf) * unit <= asked < (e + c.kerf + 1) * unit
            &&& asked >= c.least * unit && asked >= (c.most + c.kerf) * unit ==> e == c.most
        }),
{
    let unit = 0x100_0000_0000 * 1_000_000int;
    let asked = tone * spacing * c.load;
    let raw = raw_width(tone, spacing, c.load as int);
    assert(unit == 1_099_511_627_776_000_000);
    lemma_quotient(asked, unit);
    assert(raw == asked / unit);
    let (least, kerf, most) = (c.least as int, c.kerf as int, c.most as int);
    assert(raw < least <==> asked < least * unit) by (nonlinear_arith)
        requires
            unit * raw <= asked < unit * (raw + 1),
            unit > 0,
    ;
    assert(raw < kerf <==> asked < kerf * unit) by (nonlinear_arith)
        requires
            unit * raw <= asked < unit * (raw + 1),
            unit > 0,
    ;
    assert(raw < most + kerf <==> asked < (most + kerf) * unit) by (nonlinear_arith)
        requires
            unit * raw <= asked < unit * (raw + 1),
            unit > 0,
    ;
    assert(raw < most + kerf + 1 <==> asked < (most + kerf + 1) * unit) by (nonlinear_arith)
        requires
            unit * raw <= asked < unit * (raw + 1),
            unit > 0,
    ;
}

/// The widest cuts: of a translucent ink what the material leaves of the spacing, in
/// proportion to the load; of an opaque one what is asked for, if the material leaves it.
pub proof fn lemma_widest(spacing: int, material: int, load: int, asked: int)
    requires
        0 <= load <= 1_000_000,
    ensures
        spacing <= material ==> most_cut(spacing, material, load) == 0,
        spacing > material ==> 1_000_000 * most_cut(spacing, material, load) <= (spacing - material)
            * load < 1_000_000 * (most_cut(spacing, material, load) + 1),
        0 <= tamed_cut(asked, spacing, material),
        tamed_cut(asked, spacing, material) > 0 ==> tamed_cut(asked, spacing, material) <= asked
            && tamed_cut(asked, spacing, material) + material <= spacing,
        tamed_cut(asked, spacing, material) < asked ==> tamed_cut(asked, spacing, material)
            + material >= spacing,
        0 <= asked && asked + material <= spacing ==> tamed_cut(asked, spacing, material) == asked,
{
    lemma_quotient((spacing - material) * load, 1_000_000);
}

/// Bridges stand at every interval along a line, each as long as is asked for; on every other
/// line they are shifted by half an interval. Without an interval, or a length, there are
/// none.
pub proof fn lemma_bridges(c: Cut, line: int, k: int, o: int)
    requires
        c.wf(),
        0 <= o,
        o < c.interval || c.interval == 0,
    ensures
        c.interval == 0 || c.bridge == 0 ==> !is_bridge(c, line, o),
        c.interval > 0 && line % 2 == 0 ==> (is_bridge(c, line, k * c.interval + o) <==> o
            < c.bridge),
        c.interval > 0 && line % 2 != 0 ==> (is_bridge(
            c,
            line,
            k * c.interval + c.interval as int / 2 + o,
        ) <==> o < c.bridge),
{
    if c.interval > 0 {
        let n = c.interval as int;
        vstd::arithmetic::div_mod::lemma_fundamental_div_mod_converse(k * n + o, n, k, o);
        assert(k * n + n / 2 + o - n / 2 == k * n + o);
    }
}

/// A segment is half a spacing long, but never less than half a pixel nor more than four.
pub proof fn lemma_segment_length(spacing: int)
    requires
        0 < spacing,
    ensures
        500_000 <= segment_len(spacing) <= 4_000_000,
        segment_len(spacing) > 500_000 ==> 2 * segment_len(spacing) <= spacing,
        segment_len(spacing) < 4_000_000 ==> 2 * segment_len(spacing) + 1 >= spacing,
{
}

/// The segments tile their line from one end to the other, without gap or overlap; all but
/// the last are of one length, and the last is no longer.
pub proof fn lemma_segments_tile(l: Lattice, r: int, k: int)
    requires
        l.wf(),
        r > 0,
        0 <= k < counts_of(l, r).1,
    ensures
        ({
            let s = segment_len(l.spacing as int);
            let n = counts_of(l, r).1;
            &&& knot(r, s, 0) == -r
            &&& knot(r, s, n) == r
            &&& knot(r, s, k) < knot(r, s, k + 1) <= knot(r, s, k) + s
            &&& k + 1 < n ==> knot(r, s, k + 1) == knot(r, s, k) + s
        }),
{
    let s = segment_len(l.spacing as int);
    let n = counts_of(l, r).1;
    let a = 2 * r + s - 1;
    lemma_quotient(a, s);
    assert((n - 1) * s < 2 * r <= n * s) by (nonlinear_arith)
        requires
            s * n <= a < s * (n + 1),
            a == 2 * r + s - 1,
    ;
    assert((k + 1) * s == k * s + s) by (nonlinear_arith);
    assert(0 * s == 0) by (nonlinear_arith);
    assert(k * s <= (n - 1) * s) by (nonlinear_arith)
        requires
            k <= n - 1,
            s > 0,
    ;
    if k + 1 < n {
        assert((k + 1) * s <= (n - 1) * s) by (nonlinear_arith)
            requires
                k + 1 <= n - 1,
                s > 0,
        ;
    }
}

/// Lines cover the whole canvas, however it is turned: every place no farther from the centre
/// than a corner of the canvas lies within half a spacing of a line, beside a segment of it.
pub proof fn lemma_lines_everywhere(l: Lattice, r: int, u: int, v: int) -> (p: (int, int))
    requires
        l.wf(),
        l.is_reach(r),
        4 * (u * u + v * v) <= (l.w * l.w + l.h * l.h) * 1_000_000_000_000,
    ensures
        ({
            let (side, n) = counts_of(l, r);
            let s = segment_len(l.spacing as int);
            let off = u - (p.0 - side) * l.spacing;
            &&& 0 <= p.0 <= 2 * side
            &&& 0 <= p.1 < n
            &&& -l.spacing <= 2 * off <= l.spacing
            &&& knot(r, s, p.1) <= v <= knot(r, s, p.1 + 1)
        }),
{
    let (side, n) = counts_of(l, r);
    let sp = l.spacing as int;
    let s = segment_len(sp);
    let half = r - sp;
    let d = (l.w * l.w + l.h * l.h) * 1_000_000_000_000;
    assert(-half - 1 < u < half + 1 && -half - 1 < v < half + 1) by (nonlinear_arith)
        requires
            4 * (u * u + v * v) <= d,
            d < (2 * half + 2) * (2 * half + 2),
            half >= 0,
    ;
    lemma_quotient(r + sp - 1, sp);
    assert(side * sp >= r) by (nonlinear_arith)
        requires
            r + sp - 1 < sp * (side + 1),
    ;
    // The nearest line.
    let a = (2 * u + sp) / (2 * sp);
    lemma_quotient(2 * u + sp, 2 * sp);
    let i = a + side;
    let off = u - a * sp;
    assert(-sp <= 2 * off <= sp) by (nonlinear_arith)
        requires
            (2 * sp) * a <= 2 * u + sp < (2 * sp) * (a + 1),
            off == u - a * sp,
    ;
    assert(-side <= a <= side) by (nonlinear_arith)
        requires
            (2 * sp) * a <= 2 * u + sp < (2 * sp) * (a + 1),
            side * sp >= r,
            -r <= u <= r,
            sp > 0,
            u + sp <= r,
            u - sp >= -r,
    ;
    // The segment.
    lemma_quotient(2 * r + s - 1, s);
    assert((n - 1) * s < 2 * r <= n * s) by (nonlinear_arith)
        requires
            s * n <= 2 * r + s - 1 < s * (n + 1),
    ;
    let q = (v + r) / s;
    lemma_quotient(v + r, s);
    let k = if q < n {
        q
    } else {
        n - 1
    };
    assert(0 <= q) by (nonlinear_arith)
        requires
            s * q <= v + r < s * (q + 1),
            v + r >= 0,
            s > 0,
    ;
    assert(n >= 1) by (nonlinear_arith)
        requires
            2 * r <= n * s,
            r > 0,
            s > 0,
    ;
    assert(k * s <= v + r) by (nonlinear_arith)
        requires
            k <= q,
            s * q <= v + r,
            s > 0,
    ;
    if q < n {
        assert(v + r <= (k + 1) * s) by (nonlinear_arith)
            requires
                v + r < s * (q + 1),
                k == q,
        ;
    }
    (i, k)
}

/// The canvas turns about its centre. A step along a line goes the way of the angle, and a
/// step across the lines goes at a right angle to it, each as far as it is long.
pub proof fn lemma_turning(l: Lattice, u: int, v: int, d: int)
    ensures
        l.place(0, 0) == (l.w * 500_000, l.h * 500_000),
        ({
            let t = 0x4000_0000int;
            let p = l.place(u, v);
            let along = l.place(u, v + d);
            let across = l.place(u + d, v);
            &&& -t < (along.0 - p.0) * t - d * l.cos < t
            &&& -t < (along.1 - p.1) * t - d * l.sin < t
            &&& -t < (across.0 - p.0) * t + d * l.sin < t
            &&& -t < (across.1 - p.1) * t - d * l.cos < t
        }),
{
    let t = 0x4000_0000int;
    let (s, c) = (l.sin as int, l.cos as int);
    assert(0 * c - 0 * s == 0 && 0 * s + 0 * c == 0) by (nonlinear_arith);
    let (x, y) = (v * c - u * s, v * s + u * c);
    assert((v + d) * c - u * s == x + d * c && (v + d) * s + u * c == y + d * s && v * c - (u + d) * s
        == x - d * s && v * s + (u + d) * c == y + d * c) by (nonlinear_arith)
        requires
            x == v * c - u * s,
            y == v * s + u * c,
    ;
    lemma_step(x, d * c, t);
    lemma_step(y, d * s, t);
    lemma_step(x, -(d * s), t);
    lemma_step(y, d * c, t);
}

proof fn lemma_step(a: int, b: int, t: int)
    requires
        t > 0,
    ensures
        -t < ((a + b) / t - a / t) * t - b < t,
{
    let (p, q) = (a / t, (a + b) / t);
    lemma_quotient(a, t);
    lemma_quotient(a + b, t);
    assert(-t < (q - p) * t - b < t) by (nonlinear_arith)
        requires
            t * p <= a < t * (p + 1),
            t * q <= a + b < t * (q + 1),
    ;
}

} // verus!
