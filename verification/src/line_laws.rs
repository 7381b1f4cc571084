//! What line screens keep: a darker one cuts wherever a lighter one does, and at least as wide.

use crate::arith::evenly;
use crate::hatch::cut_cells;
use crate::lattice::{extent, is_bridge, lemma_extent_monotone, milli, Lattice, TURN};
use crate::raster::covers;
use crate::screen::tones_ok;
use crate::strip_laws::{lemma_wider_covers, strip, strip_ok};
use crate::strokes::{larger, Screening};
use vstd::prelude::*;

verus! {

/// Which run of a screening outline `n` belongs to: its line, and from which knot to which it
/// goes. All of its segments are cut.
proof fn lemma_line_run(t: Screening, i: int, k: int, n: int) -> (r: (int, int))
    requires
        0 <= k <= t.segments(),
        0 <= n < t.line_runs(i, k).len(),
    ensures
        0 <= r.0 < r.1 <= k,
        forall|m: int| r.0 <= m < r.1 ==> #[trigger] t.half(i, m) > 0,
        t.line_runs(i, k)[n] == t.outline(i, r.0, r.1),
    decreases k,
{
    let before = t.line_runs(i, k - 1);
    if n < before.len() {
        lemma_line_run(t, i, k - 1, n)
    } else {
        lemma_run_start(t, i, k - 1);
        (t.run_start(i, k - 1), k)
    }
}

proof fn lemma_run_start(t: Screening, i: int, k: int)
    requires
        0 <= k,
    ensures
        0 <= t.run_start(i, k) <= k,
        forall|m: int| t.run_start(i, k) <= m < k ==> #[trigger] t.half(i, m) > 0,
    decreases k,
{
    if k > 0 && t.half(i, k - 1) > 0 {
        lemma_run_start(t, i, k - 1);
    }
}

/// Which run of which line outline `n` is.
pub proof fn lemma_outline_run(t: Screening, i: int, n: int) -> (r: (int, int, int))
    requires
        0 <= t.segments(),
        0 <= n < t.runs_upto(i).len(),
    ensures
        0 <= r.0 < i,
        0 <= r.1 < r.2 <= t.segments(),
        forall|m: int| r.1 <= m < r.2 ==> #[trigger] t.half(r.0, m) > 0,
        t.runs_upto(i)[n] == t.outline(r.0, r.1, r.2),
    decreases i,
{
    let before = t.runs_upto(i - 1);
    if n < before.len() {
        lemma_outline_run(t, i - 1, n)
    } else {
        let (a, b) = lemma_line_run(t, i - 1, t.segments(), n - before.len());
        (i - 1, a, b)
    }
}

/// Half the diagonal of a canvas and a spacing are bounded.
pub proof fn lemma_reach_bound(l: Lattice, r: int)
    requires
        l.wf(),
        l.is_reach(r),
    ensures
        0 < r <= 0x4000_0000_0000,
{
    let (w, h, half) = (l.w as int, l.h as int, r - l.spacing);
    assert((w * w + h * h) * 1_000_000_000_000 <= 0x2_0000_0000_0000 * 1_000_000_000_000)
        by (nonlinear_arith)
        requires
            0 <= w <= 0x100_0000,
            0 <= h <= 0x100_0000,
    ;
    if half > 0x2000_0000_0000 {
        assert((2 * half) * (2 * half) > 0x4000_0000_0000 * 0x4000_0000_0000) by (nonlinear_arith)
            requires
                half > 0x2000_0000_0000,
        ;
        assert(0x4000_0000_0000int * 0x4000_0000_0000 > 0x2_0000_0000_0000int * 1_000_000_000_000);
    }
}

/// Whether one line screen is nowhere lighter than another on the same lattice.
pub open spec fn darker(s: Screening, t: Screening) -> bool {
    &&& s.l == t.l
    &&& s.c == t.c
    &&& s.r == t.r
    &&& s.room is None
    &&& t.room is None
    &&& s.tones.len() == t.tones.len()
    &&& forall|j: int| 0 <= j < s.tones.len() ==> #[trigger] s.tones[j] <= t.tones[j]
}

/// A darker screen cuts every segment at least as wide.
proof fn lemma_half_order(s: Screening, t: Screening, i: int, k: int)
    requires
        s.wf(),
        t.wf(),
        darker(s, t),
        0 <= i <= 2 * s.side(),
        0 <= k < s.segments(),
    ensures
        0 <= s.half(i, k) <= t.half(i, k),
{
    let m = s.segments();
    let n = 2 * s.side() + 1;
    let j = i * m + k;
    assert(0 <= j < n * m) by (nonlinear_arith)
        requires
            0 <= i < n,
            0 <= k < m,
            j == i * m + k,
    ;
    assert(s.tones[j] <= t.tones[j]);
    assert(tones_ok(s.tones) && 0 <= s.tones[j]);
    lemma_extent_monotone(
        s.tones[j] as int,
        t.tones[j] as int,
        s.l.spacing as int,
        s.c,
        s.c,
    );
}

/// Half the width of the cut at knot `k` of line `i`: the larger of those of the segments
/// that share the knot.
pub open spec fn knot_width(s: Screening, i: int, k: int) -> int {
    larger(
        if k > 0 {
            s.half(i, k - 1)
        } else {
            0
        },
        if k < s.segments() {
            s.half(i, k)
        } else {
            0
        },
    )
}

/// Half the width of the cut over segment `k` of line `i`, `f` nths of the way along it, in
/// nths.
pub open spec fn width_along(s: Screening, i: int, k: int, f: int, n: int) -> int {
    knot_width(s, i, k) * (n - f) + knot_width(s, i, k + 1) * f
}

/// Darker means more ink: at any angle, a screen that is nowhere lighter cuts every segment
/// that the lighter one cuts, and at every place along it at least as wide.
pub proof fn lemma_darker_wider(s: Screening, t: Screening, i: int, k: int, f: int, n: int)
    requires
        s.wf(),
        t.wf(),
        darker(s, t),
        0 <= i <= 2 * s.side(),
        0 <= k < s.segments(),
        s.half(i, k) > 0,
        0 <= f <= n,
    ensures
        t.half(i, k) > 0,
        width_along(s, i, k, f, n) <= width_along(t, i, k, f, n),
{
    lemma_half_order(s, t, i, k);
    if k > 0 {
        lemma_half_order(s, t, i, k - 1);
    }
    if k + 1 < s.segments() {
        lemma_half_order(s, t, i, k + 1);
    }
    let (a, b, c, d) = (
        knot_width(s, i, k),
        knot_width(s, i, k + 1),
        knot_width(t, i, k),
        knot_width(t, i, k + 1),
    );
    assert(a * (n - f) + b * f <= c * (n - f) + d * f) by (nonlinear_arith)
        requires
            a <= c,
            b <= d,
            0 <= f <= n,
    ;
}

/// The outline of a run has at its knots the widths that `knot_width` tells.
pub proof fn lemma_knot_width(s: Screening, i: int, a: int, b: int, k: int)
    requires
        s.wf(),
        darker(s, s),
        0 <= i <= 2 * s.side(),
        0 <= a <= k <= b <= s.segments(),
        a < b,
        a > 0 ==> s.half(i, a - 1) <= 0,
        b < s.segments() ==> s.half(i, b) <= 0,
    ensures
        s.half_at(i, a, b, k) == knot_width(s, i, k),
{
    if k > 0 {
        lemma_half_order(s, s, i, k - 1);
    }
    if k < s.segments() {
        lemma_half_order(s, s, i, k);
    }
}

/// Where the run that goes on over segments `a` to `b` ends.
proof fn lemma_run_end(t: Screening, i: int, a: int, b: int) -> (e: int)
    requires
        0 <= a < b <= t.segments(),
        forall|m: int| a <= m < b ==> #[trigger] t.half(i, m) > 0,
    ensures
        b <= e <= t.segments(),
        forall|m: int| a <= m < e ==> #[trigger] t.half(i, m) > 0,
        t.run_ends(i, e - 1),
    decreases t.segments() - b,
{
    if b < t.segments() && t.half(i, b) > 0 {
        lemma_run_end(t, i, a, b + 1)
    } else {
        assert(t.half(i, b - 1) > 0);
        b
    }
}

proof fn lemma_start_before(t: Screening, i: int, a: int, k: int)
    requires
        0 <= a <= k,
        forall|m: int| a <= m < k ==> #[trigger] t.half(i, m) > 0,
    ensures
        t.run_start(i, k) <= a,
    decreases k,
{
    if k > a {
        assert(t.half(i, k - 1) > 0);
        lemma_start_before(t, i, a, k - 1);
    } else if k > 0 && t.half(i, k - 1) > 0 {
        lemma_run_start(t, i, k - 1);
    }
}

/// A run that ends is among the outlines of its line, and so among all.
proof fn lemma_listed(t: Screening, i: int, e: int, k: int) -> (n: int)
    requires
        0 < e <= k,
        t.run_ends(i, e - 1),
    ensures
        0 <= n < t.line_runs(i, k).len(),
        t.line_runs(i, k)[n] == t.outline(i, t.run_start(i, e - 1), e),
    decreases k,
{
    if k == e {
        t.line_runs(i, k).len() - 1
    } else {
        lemma_listed(t, i, e, k - 1)
    }
}

proof fn lemma_listed_upto(t: Screening, i: int, n: int, m: int) -> (r: int)
    requires
        0 <= i < m,
        0 <= n < t.line_runs(i, t.segments()).len(),
    ensures
        0 <= r < t.runs_upto(m).len(),
        t.runs_upto(m)[r] == t.line_runs(i, t.segments())[n],
    decreases m,
{
    let before = t.runs_upto(m - 1);
    if i == m - 1 {
        before.len() + n
    } else {
        lemma_listed_upto(t, i, n, m - 1)
    }
}

proof fn lemma_evenly_order(a: int, b: int)
    requires
        a <= b,
    ensures
        evenly(a, 1000) <= evenly(b, 1000),
{
}

/// Where knot `k` of an unturned screen stands along the canvas.
#[verifier::opaque]
spec fn knot_x(s: Screening, k: int) -> i64 {
    evenly(s.l.w * 500_000 + s.along(k), 1000) as i64
}

/// Where an edge of its line `i` stands across the canvas, `d` behind the line.
#[verifier::opaque]
spec fn edge_y(s: Screening, i: int, d: int) -> i64 {
    evenly(s.l.h * 500_000 + s.across(i) + d, 1000) as i64
}

/// The places of the knots of an unturned run along the canvas.
spec fn run_x(s: Screening, a: int, b: int) -> Seq<i64> {
    Seq::new((b - a + 1) as nat, |j: int| knot_x(s, a + j))
}

/// Its edge before the line.
spec fn run_u(s: Screening, i: int, a: int, b: int) -> Seq<i64> {
    Seq::new((b - a + 1) as nat, |j: int| edge_y(s, i, -s.half_at(i, a, b, a + j)))
}

/// Its edge behind the line.
spec fn run_l(s: Screening, i: int, a: int, b: int) -> Seq<i64> {
    Seq::new((b - a + 1) as nat, |j: int| edge_y(s, i, s.half_at(i, a, b, a + j)))
}

proof fn lemma_whole_turn(a: int)
    ensures
        (a * TURN) / (TURN as int) == a,
{
    assert((a * 0x4000_0000) / 0x4000_0000 == a) by (nonlinear_arith);
}

/// Places on an unturned lattice.
proof fn lemma_unturned_place(s: Screening, i: int, d: int, k: int)
    requires
        s.l.sin == 0,
        s.l.cos == TURN,
    ensures
        milli(s.l.place(s.across(i) + d, s.along(k))) == (knot_x(s, k), edge_y(s, i, d)),
{
    reveal(knot_x);
    reveal(edge_y);
    let (u, v) = (s.across(i) + d, s.along(k));
    lemma_whole_turn(u);
    lemma_whole_turn(v);
    assert(u * 0 == 0 && v * 0 == 0);
    assert(s.l.place(u, v) == (s.l.w * 500_000 + v, s.l.h * 500_000 + u));
}

proof fn lemma_knot_order(s: Screening, p: int, q: int)
    requires
        s.wf(),
        0 <= p <= q,
    ensures
        knot_x(s, p) <= knot_x(s, q),
{
    reveal(knot_x);
    lemma_reach_bound(s.l, s.r);
    let step = s.step();
    assert(0 <= p * step <= q * step) by (nonlinear_arith)
        requires
            0 <= p <= q,
            step > 0,
    ;
    assert(-s.r <= s.along(p) <= s.along(q) <= s.r);
    lemma_evenly_order(s.l.w * 500_000 + s.along(p), s.l.w * 500_000 + s.along(q));
}

proof fn lemma_edge_order(s: Screening, i: int, d: int, e: int)
    requires
        s.wf(),
        0 <= i <= 2 * s.side(),
        -0x100_0000_0000 <= d <= e <= 0x100_0000_0000,
    ensures
        edge_y(s, i, d) <= edge_y(s, i, e),
{
    reveal(edge_y);
    lemma_reach_bound(s.l, s.r);
    let (side, sp) = (s.side(), s.l.spacing as int);
    let z = s.r + sp - 1;
    assert(-z <= (i - side) * sp <= z) by (nonlinear_arith)
        requires
            side == z / sp,
            sp > 0,
            z >= 0,
            0 <= i <= 2 * side,
    ;
    let y = s.l.h * 500_000 + s.across(i);
    lemma_evenly_order(y + d, y + e);
}

proof fn lemma_half_at_bound(s: Screening, i: int, a: int, b: int, k: int)
    requires
        s.wf(),
        s.room is None,
    ensures
        0 <= s.half_at(i, a, b, k) <= 0x100_0000_0000,
{
}

/// An unturned run is a strip.
proof fn lemma_unturned(s: Screening, i: int, a: int, b: int)
    requires
        s.wf(),
        s.room is None,
        s.l.sin == 0,
        s.l.cos == TURN,
        0 <= i <= 2 * s.side(),
        0 <= a < b <= s.segments(),
    ensures
        s.outline(i, a, b) == strip(run_x(s, a, b), run_u(s, i, a, b), run_l(s, i, a, b)),
        strip_ok(run_x(s, a, b), run_u(s, i, a, b), run_l(s, i, a, b)),
{
    let (x, u, l) = (run_x(s, a, b), run_u(s, i, a, b), run_l(s, i, a, b));
    let e = b - a + 1;
    assert forall|j: int| 0 <= j < 2 * e implies #[trigger] s.outline(i, a, b)[j] == strip(
        x,
        u,
        l,
    )[j] by {
        let k = if j < e {
            a + j
        } else {
            b - (j - e)
        };
        let hw = s.half_at(i, a, b, k);
        if j < e {
            lemma_unturned_place(s, i, -hw, k);
        } else {
            lemma_unturned_place(s, i, hw, k);
            assert(2 * e - 1 - j == k - a);
        }
    }
    assert(s.outline(i, a, b) =~= strip(x, u, l));
    assert forall|j: int, k: int| 0 <= j <= k < x.len() implies #[trigger] x[j] <= #[trigger] x[k] by {
        lemma_knot_order(s, a + j, a + k);
    }
    assert forall|k: int| 0 <= k < x.len() implies #[trigger] u[k] <= l[k] by {
        let hw = s.half_at(i, a, b, a + k);
        lemma_half_at_bound(s, i, a, b, a + k);
        lemma_edge_order(s, i, -hw, hw);
    }
}

/// The edges of a wider run stand no nearer to the line.
proof fn lemma_runs_order(
    s: Screening,
    t: Screening,
    i: int,
    a: int,
    b: int,
    f: int,
    e: int,
    k: int,
)
    requires
        s.wf(),
        t.wf(),
        darker(s, t),
        0 <= i <= 2 * s.side(),
        0 <= f <= a,
        a < b <= e <= s.segments(),
        a <= k <= b,
    ensures
        s.half_at(i, a, b, k) <= t.half_at(i, f, e, k),
{
    let m0 = if k > a {
        k - 1
    } else {
        a
    };
    let m1 = if k < b {
        k
    } else {
        b - 1
    };
    lemma_half_order(s, t, i, m0);
    lemma_half_order(s, t, i, m1);
}

proof fn lemma_same_lattice(s: Screening, t: Screening, i: int, k: int, d: int)
    requires
        s.l == t.l,
        s.r == t.r,
    ensures
        knot_x(s, k) == knot_x(t, k),
        edge_y(s, i, d) == edge_y(t, i, d),
{
    reveal(knot_x);
    reveal(edge_y);
}

/// What a run covers, a wider and longer one of a darker screen covers.
proof fn lemma_run_covers(
    s: Screening,
    t: Screening,
    i: int,
    a: int,
    b: int,
    f: int,
    e: int,
    px: int,
    py: int,
)
    requires
        s.wf(),
        t.wf(),
        darker(s, t),
        s.l.sin == 0,
        s.l.cos == TURN,
        0 <= i <= 2 * s.side(),
        0 <= f <= a,
        a < b <= e <= s.segments(),
        covers(s.outline(i, a, b), px, py),
    ensures
        covers(t.outline(i, f, e), px, py),
{
    lemma_unturned(s, i, a, b);
    lemma_unturned(t, i, f, e);
    let (x, u, l) = (run_x(s, a, b), run_u(s, i, a, b), run_l(s, i, a, b));
    let (wx, wu, wl) = (run_x(t, f, e), run_u(t, i, f, e), run_l(t, i, f, e));
    let o = a - f;
    assert forall|j: int| 0 <= j < x.len() implies #[trigger] x[j] == wx[o + j] && wu[o + j] <= u[j]
        && l[j] <= wl[o + j] by {
        let k = a + j;
        assert(f + (o + j) == k);
        let (p, q) = (s.half_at(i, a, b, k), t.half_at(i, f, e, k));
        lemma_runs_order(s, t, i, a, b, f, e, k);
        lemma_half_at_bound(s, i, a, b, k);
        lemma_half_at_bound(t, i, f, e, k);
        lemma_same_lattice(s, t, i, k, -p);
        lemma_same_lattice(s, t, i, k, p);
        lemma_edge_order(t, i, -q, -p);
        lemma_edge_order(t, i, p, q);
    }
    lemma_wider_covers(x, u, l, wx, wu, wl, o, px, py);
}

/// Darker means more ink: an unturned screen that is nowhere lighter covers every cell that
/// the lighter one covers. A turned one may lose a cell whose test point lies within a
/// thousandth of a pixel of an edge, since outlines are written in thousandths.
pub proof fn lemma_darker_covers(s: Screening, t: Screening, w: int, h: int, q: int)
    requires
        s.wf(),
        t.wf(),
        darker(s, t),
        s.l.sin == 0,
        s.l.cos == TURN,
        0 <= q < w * h,
        cut_cells(s.runs(), w, h)[q],
    ensures
        cut_cells(t.runs(), w, h)[q],
{
    let (px, py) = (q % w, q / w);
    let n = choose|n: int| 0 <= n < s.runs().len() && covers(#[trigger] s.runs()[n], px, py);
    lemma_reach_bound(s.l, s.r);
    let step = s.step();
    assert(s.segments() >= 0) by (nonlinear_arith)
        requires
            s.segments() == (2 * s.r + step - 1) / step,
            s.r > 0,
            step > 0,
    ;
    let (i, a, b) = lemma_outline_run(s, 2 * s.side() + 1, n);
    assert forall|m: int| a <= m < b implies #[trigger] t.half(i, m) > 0 by {
        assert(s.half(i, m) > 0);
        lemma_half_order(s, t, i, m);
    }
    let e = lemma_run_end(t, i, a, b);
    let f = t.run_start(i, e - 1);
    lemma_start_before(t, i, a, e - 1);
    lemma_run_start(t, i, e - 1);
    let k = lemma_listed(t, i, e, t.segments());
    let r = lemma_listed_upto(t, i, k, 2 * t.side() + 1);
    assert(t.runs()[r] == t.outline(i, f, e));
    lemma_run_covers(s, t, i, a, b, f, e, px, py);
    assert(covers(t.runs()[r], px, py));
}

/// The whole canvas is screened, and nothing else: a segment is cut just where its middle lies
/// on the canvas, between its left and right side and between its top and bottom, and no
/// bridge holds it. It is then as wide as its tone, and part of a run.
pub proof fn lemma_screened(s: Screening, i: int, k: int)
    requires
        s.wf(),
        s.room is None,
        0 <= i <= 2 * s.side(),
        0 <= k < s.segments(),
    ensures
        ({
            let u = (i - s.side()) * s.l.spacing;
            let v = (s.along(k) + s.along(k + 1)) / 2;
            let p = s.l.place(u, v);
            let on = 0 <= p.0 && p.0 < s.l.w * 1_000_000 && 0 <= p.1 && p.1 < s.l.h * 1_000_000;
            let held = is_bridge(s.c, i - s.side(), s.along(k));
            let e = extent(s.tones[i * s.segments() + k] as int, s.l.spacing as int, s.c);
            &&& on && !held ==> s.half(i, k) == e / 2
            &&& !on || held ==> s.half(i, k) == 0
            &&& on && !held && e >= 2 ==> exists|n: int, a: int, b: int|
                0 <= n < s.runs().len() && 0 <= a <= k && k < b <= s.segments() && (
                #[trigger] s.runs()[n]) == #[trigger] s.outline(i, a, b)
        }),
{
    let held = is_bridge(s.c, i - s.side(), s.along(k));
    if s.half(i, k) > 0 {
        assert forall|m: int| k <= m < k + 1 implies #[trigger] s.half(i, m) > 0 by {}
        let e = lemma_run_end(s, i, k, k + 1);
        let f = s.run_start(i, e - 1);
        lemma_start_before(s, i, k, e - 1);
        lemma_run_start(s, i, e - 1);
        let n = lemma_listed(s, i, e, s.segments());
        let r = lemma_listed_upto(s, i, n, 2 * s.side() + 1);
        assert(s.runs()[r] == s.outline(i, f, e));
    }
}

/// A limit on the room at a segment narrows its cut to that limit, never widens it, and
/// leaves every cut that has the room as it is.
pub proof fn lemma_room(s: Screening, free: Screening, i: int, k: int)
    requires
        s.room is Some,
        free == (Screening { room: None, ..s }),
    ensures
        ({
            let room = s.room->0[i * s.segments() + k];
            &&& s.half(i, k) <= free.half(i, k)
            &&& free.half(i, k) <= room ==> s.half(i, k) == free.half(i, k)
            &&& 0 <= room < free.half(i, k) ==> s.half(i, k) == room
            &&& room < 0 && free.half(i, k) >= 0 ==> s.half(i, k) == 0
        }),
{
}

/// The outline of a run goes up one side of its line and back down the other. At every knot it
/// stands as far from the line as the wider of the segments there is wide.
pub proof fn lemma_outline(s: Screening, i: int, a: int, b: int, k: int)
    requires
        0 <= a < b,
        a <= k <= b,
    ensures
        ({
            let u = (i - s.side()) * s.l.spacing;
            let before = s.half(
                i,
                if k == a {
                    a
                } else {
                    k - 1
                },
            );
            let after = s.half(
                i,
                if k == b {
                    b - 1
                } else {
                    k
                },
            );
            let d = if before > after {
                before
            } else {
                after
            };
            let n = b - a + 1;
            let pts = s.outline(i, a, b);
            &&& pts.len() == 2 * n
            &&& pts[k - a] == milli(s.l.place(u - d, s.along(k)))
            &&& pts[2 * n - 1 - (k - a)] == milli(s.l.place(u + d, s.along(k)))
        }),
{
    let n = b - a + 1;
    assert(s.outline(i, a, b)[k - a] == s.edge_point(i, a, b, k - a));
    assert(s.outline(i, a, b)[2 * n - 1 - (k - a)] == s.edge_point(
        i,
        a,
        b,
        2 * n - 1 - (k - a),
    ));
}

/// Places are written to the nearest thousandth of a pixel.
pub proof fn lemma_written_near(p: (int, int))
    requires
        -0x4000_0000_0000_0000 <= p.0 <= 0x4000_0000_0000_0000,
        -0x4000_0000_0000_0000 <= p.1 <= 0x4000_0000_0000_0000,
    ensures
        -500 <= 1000 * milli(p).0 - p.0 <= 500,
        -500 <= 1000 * milli(p).1 - p.1 <= 500,
{
}

} // verus!
