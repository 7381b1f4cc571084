//! The chamfer distance transform: how far each kept cell lies from the nearest cut, at 3
//! units for a step along a side and 4 for one across a corner.

use vstd::prelude::*;

verus! {

/// The distance of a cell that no cut is near.
pub const FAR: u16 = 65531;

/// The number of the cell in column `x` of row `y`.
pub open spec fn at(w: int, x: int, y: int) -> int {
    y * w + x
}

/// Whether the grid has a column `x` and a row `y`.
pub open spec fn inside(w: int, h: int, x: int, y: int) -> bool {
    0 <= x < w && 0 <= y < h
}

/// The length of the shortest way between two cells.
pub open spec fn cost(px: int, py: int, qx: int, qy: int) -> int {
    let dx = if px < qx {
        qx - px
    } else {
        px - qx
    };
    let dy = if py < qy {
        qy - py
    } else {
        py - qy
    };
    if dx < dy {
        3 * dy + dx
    } else {
        3 * dx + dy
    }
}

/// Whether the cell in column `x` of row `y` is cut.
pub open spec fn is_cut(keep: Seq<bool>, w: int, h: int, x: int, y: int) -> bool {
    inside(w, h, x, y) && !keep[at(w, x, y)]
}

/// Whether some cut lies no farther than `v` from the cell.
pub open spec fn cut_within(keep: Seq<bool>, w: int, h: int, x: int, y: int, v: int) -> bool {
    exists|qx: int, qy: int| #[trigger]
        is_cut(keep, w, h, qx, qy) && cost(x, y, qx, qy) <= v
}

/// Whether `v` is the distance from the cell in column `x` of row `y` to the nearest cut,
/// or `FAR` where none lies nearer than that.
pub open spec fn is_distance(
    keep: Seq<bool>,
    w: int,
    h: int,
    x: int,
    y: int,
    v: int,
) -> bool {
    &&& 0 <= v <= FAR
    &&& forall|qx: int, qy: int| #[trigger]
        is_cut(keep, w, h, qx, qy) ==> v <= cost(x, y, qx, qy)
    &&& v == FAR || cut_within(keep, w, h, x, y, v)
}

/// Whether the value at a cell does not exceed what its neighbours above and to the left
/// allow.
spec fn settled(f: Seq<u16>, w: int, h: int, x: int, y: int) -> bool {
    let v = f[at(w, x, y)];
    &&& y > 0 ==> v <= f[at(w, x, y - 1)] + 3
    &&& y > 0 && x > 0 ==> v <= f[at(w, x - 1, y - 1)] + 4
    &&& y > 0 && x + 1 < w ==> v <= f[at(w, x + 1, y - 1)] + 4
    &&& x > 0 ==> v <= f[at(w, x - 1, y)] + 3
}

/// Whether the value at a cell is the old one or comes from one of those neighbours.
spec fn caused(d: Seq<u16>, f: Seq<u16>, w: int, h: int, x: int, y: int) -> bool {
    let v = f[at(w, x, y)];
    ||| v == d[at(w, x, y)]
    ||| y > 0 && v == f[at(w, x, y - 1)] + 3
    ||| y > 0 && x > 0 && v == f[at(w, x - 1, y - 1)] + 4
    ||| y > 0 && x + 1 < w && v == f[at(w, x + 1, y - 1)] + 4
    ||| x > 0 && v == f[at(w, x - 1, y)] + 3
}

/// Whether `f` is `d` after one sweep in reading order.
spec fn swept(d: Seq<u16>, f: Seq<u16>, w: int, h: int) -> bool {
    &&& f.len() == d.len()
    &&& forall|x: int, y: int| #[trigger]
        inside(w, h, x, y) ==> f[at(w, x, y)] <= d[at(w, x, y)] && settled(f, w, h, x, y) && caused(
            d,
            f,
            w,
            h,
            x,
            y,
        )
}

proof fn lemma_at(w: int, h: int, x: int, y: int)
    requires
        inside(w, h, x, y),
    ensures
        0 <= at(w, x, y) < w * h,
        at(w, x, y - 1) == at(w, x, y) - w,
        at(w, x, y + 1) == at(w, x, y) + w,
        at(w, w - 1 - x, h - 1 - y) == w * h - 1 - at(w, x, y),
        at(w, x, y) / w == y,
        at(w, x, y) % w == x,
{
    assert(0 <= y * w + x < w * h) by (nonlinear_arith)
        requires
            0 <= x < w,
            0 <= y < h,
    ;
    assert((y - 1) * w == y * w - w && (y + 1) * w == y * w + w) by (nonlinear_arith);
    assert((h - 1 - y) * w == w * h - w - y * w) by (nonlinear_arith);
    vstd::arithmetic::div_mod::lemma_fundamental_div_mod_converse(y * w + x, w, y, x);
}

/// One sweep in reading order: every cell takes the least of its own value and those above
/// and to the left, each with the step's cost added.
fn sweep(d: &Vec<u16>, w: usize, h: usize) -> (f: Vec<u16>)
    requires
        d@.len() == w * h,
        forall|i: int| 0 <= i < d@.len() ==> #[trigger] d@[i] <= FAR,
    ensures
        swept(d@, f@, w as int, h as int),
        forall|i: int| 0 <= i < f@.len() ==> #[trigger] f@[i] <= FAR,
{
    let n: usize = d.len();
    let ghost wi = w as int;
    let ghost hi = h as int;
    let mut f: Vec<u16> = Vec::new();
    proof {
        assert(0 * w == 0) by (nonlinear_arith);
    }
    for y in 0..h
        invariant
            n == d@.len(),
            n == w * h,
            wi == w,
            hi == h,
            forall|i: int| 0 <= i < d@.len() ==> #[trigger] d@[i] <= FAR,
            f@.len() == y * w,
            forall|i: int| 0 <= i < f@.len() ==> #[trigger] f@[i] <= FAR,
            forall|cx: int, cy: int| #[trigger]
                inside(wi, hi, cx, cy) && cy < y ==> f@[at(wi, cx, cy)] <= d@[at(wi, cx, cy)]
                    && settled(f@, wi, hi, cx, cy) && caused(d@, f@, wi, hi, cx, cy),
    {
        for x in 0..w
            invariant
                n == d@.len(),
                n == w * h,
                wi == w,
                hi == h,
                y < h,
                forall|i: int| 0 <= i < d@.len() ==> #[trigger] d@[i] <= FAR,
                f@.len() == y * w + x,
                forall|i: int| 0 <= i < f@.len() ==> #[trigger] f@[i] <= FAR,
                forall|cx: int, cy: int| #[trigger]
                    inside(wi, hi, cx, cy) && (cy < y || (cy == y && cx < x)) ==> f@[at(
                        wi,
                        cx,
                        cy,
                    )] <= d@[at(wi, cx, cy)] && settled(f@, wi, hi, cx, cy) && caused(
                        d@,
                        f@,
                        wi,
                        hi,
                        cx,
                        cy,
                    ),
        {
            let i: usize = f.len();
            proof {
                assert(inside(wi, hi, x as int, y as int));
                lemma_at(wi, hi, x as int, y as int);
                assert(i == at(wi, x as int, y as int));
                if y > 0 {
                    assert(i >= w) by (nonlinear_arith)
                        requires
                            i == y * w + x,
                            y > 0,
                            x >= 0,
                    ;
                }
            }
            let mut best: u16 = d[i];
            if y > 0 {
                let up: u16 = f[i - w] + 3;
                if up < best {
                    best = up;
                }
                if x > 0 {
                    let diag: u16 = f[i - w - 1] + 4;
                    if diag < best {
                        best = diag;
                    }
                }
                if x + 1 < w {
                    let diag: u16 = f[i - w + 1] + 4;
                    if diag < best {
                        best = diag;
                    }
                }
            }
            if x > 0 {
                let left: u16 = f[i - 1] + 3;
                if left < best {
                    best = left;
                }
            }
            let ghost f0 = f@;
            f.push(best);
            proof {
                assert forall|cx: int, cy: int| #[trigger]
                    inside(wi, hi, cx, cy) && (cy < y || (cy == y && cx < x + 1)) implies f@[at(
                    wi,
                    cx,
                    cy,
                )] <= d@[at(wi, cx, cy)] && settled(f@, wi, hi, cx, cy) && caused(
                    d@,
                    f@,
                    wi,
                    hi,
                    cx,
                    cy,
                ) by {
                    lemma_at(wi, hi, cx, cy);
                    if cy > 0 {
                        lemma_at(wi, hi, cx, cy - 1);
                    }
                    if cy < y || (cy == y && cx < x) {
                        assert(at(wi, cx, cy) < i) by (nonlinear_arith)
                            requires
                                at(wi, cx, cy) == cy * wi + cx,
                                i == y * w + x,
                                wi == w,
                                0 <= cx < w,
                                0 <= x,
                                cy < y || (cy == y && cx < x),
                        ;
                        assert(settled(f0, wi, hi, cx, cy));
                        assert(f@[at(wi, cx, cy)] == f0[at(wi, cx, cy)]);
                        if cy > 0 {
                            assert(f@[at(wi, cx, cy - 1)] == f0[at(wi, cx, cy - 1)]);
                            if cx > 0 {
                                lemma_at(wi, hi, cx - 1, cy - 1);
                                assert(f@[at(wi, cx - 1, cy - 1)] == f0[at(wi, cx - 1, cy - 1)]);
                            }
                            if cx + 1 < wi {
                                assert(f@[at(wi, cx + 1, cy - 1)] == f0[at(wi, cx + 1, cy - 1)]);
                            }
                        }
                        if cx > 0 {
                            assert(f@[at(wi, cx - 1, cy)] == f0[at(wi, cx - 1, cy)]);
                        }
                    } else {
                        assert(cx == x && cy == y);
                    }
                }
            }
        }
        proof {
            assert((y + 1) * w == y * w + w) by (nonlinear_arith);
        }
    }
    proof {
        assert(h * w == w * h) by (nonlinear_arith);
    }
    f
}

/// The values in reverse.
fn reversed(d: &Vec<u16>) -> (r: Vec<u16>)
    ensures
        r@.len() == d@.len(),
        forall|i: int| 0 <= i < d@.len() ==> #[trigger] r@[i] == d@[d@.len() - 1 - i],
{
    let n: usize = d.len();
    let mut r: Vec<u16> = Vec::new();
    for i in 0..n
        invariant
            n == d@.len(),
            r@.len() == i,
            forall|j: int| 0 <= j < i ==> #[trigger] r@[j] == d@[n - 1 - j],
    {
        r.push(d[n - 1 - i]);
    }
    r
}

/// After a sweep, no cell lies farther than the way from a cut that goes down or right.
proof fn lemma_reach_forward(
    f: Seq<u16>,
    w: int,
    h: int,
    px: int,
    py: int,
    qx: int,
    qy: int,
)
    requires
        forall|x: int, y: int| #[trigger] inside(w, h, x, y) ==> settled(f, w, h, x, y),
        inside(w, h, px, py),
        inside(w, h, qx, qy),
        f[at(w, qx, qy)] == 0,
        py >= qy,
        px >= qx || qx - px <= py - qy,
    ensures
        f[at(w, px, py)] <= cost(px, py, qx, qy),
    decreases py - qy + (if px < qx { qx - px } else { px - qx }),
{
    assert(settled(f, w, h, px, py));
    if px > qx && py > qy {
        assert(inside(w, h, px - 1, py - 1));
        lemma_reach_forward(f, w, h, px - 1, py - 1, qx, qy);
    } else if px > qx {
        assert(inside(w, h, px - 1, py));
        lemma_reach_forward(f, w, h, px - 1, py, qx, qy);
    } else if px < qx {
        assert(inside(w, h, px + 1, py - 1));
        lemma_reach_forward(f, w, h, px + 1, py - 1, qx, qy);
    } else if py > qy {
        assert(inside(w, h, px, py - 1));
        lemma_reach_forward(f, w, h, px, py - 1, qx, qy);
    }
}

/// Whether the value at a cell does not exceed what its neighbours below and to the right
/// allow.
spec fn settled_back(b: Seq<u16>, w: int, h: int, x: int, y: int) -> bool {
    let v = b[at(w, x, y)];
    &&& y + 1 < h ==> v <= b[at(w, x, y + 1)] + 3
    &&& y + 1 < h && x + 1 < w ==> v <= b[at(w, x + 1, y + 1)] + 4
    &&& y + 1 < h && x > 0 ==> v <= b[at(w, x - 1, y + 1)] + 4
    &&& x + 1 < w ==> v <= b[at(w, x + 1, y)] + 3
}

/// After both sweeps, no cell lies farther than the shortest way from a cut.
proof fn lemma_reach(
    f: Seq<u16>,
    b: Seq<u16>,
    w: int,
    h: int,
    px: int,
    py: int,
    qx: int,
    qy: int,
)
    requires
        forall|x: int, y: int| #[trigger]
            inside(w, h, x, y) ==> settled(f, w, h, x, y) && settled_back(b, w, h, x, y) && b[at(
                w,
                x,
                y,
            )] <= f[at(w, x, y)],
        inside(w, h, px, py),
        inside(w, h, qx, qy),
        f[at(w, qx, qy)] == 0,
    ensures
        b[at(w, px, py)] <= cost(px, py, qx, qy),
    decreases
            (if px < qx {
                qx - px
            } else {
                px - qx
            }) + (if py < qy {
                qy - py
            } else {
                py - qy
            }),
{
    assert(settled_back(b, w, h, px, py));
    if py >= qy && (px >= qx || qx - px <= py - qy) {
        lemma_reach_forward(f, w, h, px, py, qx, qy);
    } else if py >= qy {
        assert(inside(w, h, px + 1, py));
        lemma_reach(f, b, w, h, px + 1, py, qx, qy);
    } else if px < qx {
        assert(inside(w, h, px + 1, py + 1));
        lemma_reach(f, b, w, h, px + 1, py + 1, qx, qy);
    } else if px > qx {
        assert(inside(w, h, px - 1, py + 1));
        lemma_reach(f, b, w, h, px - 1, py + 1, qx, qy);
    } else {
        assert(inside(w, h, px, py + 1));
        lemma_reach(f, b, w, h, px, py + 1, qx, qy);
    }
}

/// Whether the value at a cell is at least the distance to some cut.
spec fn grounded(keep: Seq<bool>, d: Seq<u16>, w: int, h: int, x: int, y: int) -> bool {
    d[at(w, x, y)] >= FAR || cut_within(keep, w, h, x, y, d[at(w, x, y)] as int)
}

/// A value that comes from a neighbour is grounded if the neighbour's is.
proof fn lemma_ground_step(
    keep: Seq<bool>,
    d: Seq<u16>,
    w: int,
    h: int,
    x: int,
    y: int,
    nx: int,
    ny: int,
    c: int,
)
    requires
        grounded(keep, d, w, h, nx, ny),
        d[at(w, x, y)] == d[at(w, nx, ny)] + c,
        -1 <= nx - x <= 1,
        -1 <= ny - y <= 1,
        c == 4 || (c == 3 && (nx == x || ny == y)),
    ensures
        grounded(keep, d, w, h, x, y),
{
    if d[at(w, nx, ny)] < FAR {
        let (qx, qy) = choose|qx: int, qy: int| #[trigger]
            is_cut(keep, w, h, qx, qy) && cost(nx, ny, qx, qy) <= d[at(w, nx, ny)];
        assert(is_cut(keep, w, h, qx, qy) && cost(x, y, qx, qy) <= d[at(w, x, y)]);
    }
}

/// A sweep keeps every value grounded.
proof fn lemma_grounded(
    keep: Seq<bool>,
    d: Seq<u16>,
    f: Seq<u16>,
    w: int,
    h: int,
    x: int,
    y: int,
)
    requires
        swept(d, f, w, h),
        forall|cx: int, cy: int| #[trigger]
            inside(w, h, cx, cy) ==> grounded(keep, d, w, h, cx, cy),
        inside(w, h, x, y),
    ensures
        grounded(keep, f, w, h, x, y),
    decreases y, x,
{
    assert(caused(d, f, w, h, x, y));
    assert(grounded(keep, d, w, h, x, y));
    let v = f[at(w, x, y)];
    if v == d[at(w, x, y)] {
    } else if y > 0 && v == f[at(w, x, y - 1)] + 3 {
        assert(inside(w, h, x, y - 1));
        lemma_grounded(keep, d, f, w, h, x, y - 1);
        lemma_ground_step(keep, f, w, h, x, y, x, y - 1, 3);
    } else if y > 0 && x > 0 && v == f[at(w, x - 1, y - 1)] + 4 {
        assert(inside(w, h, x - 1, y - 1));
        lemma_grounded(keep, d, f, w, h, x - 1, y - 1);
        lemma_ground_step(keep, f, w, h, x, y, x - 1, y - 1, 4);
    } else if y > 0 && x + 1 < w && v == f[at(w, x + 1, y - 1)] + 4 {
        assert(inside(w, h, x + 1, y - 1));
        lemma_grounded(keep, d, f, w, h, x + 1, y - 1);
        lemma_ground_step(keep, f, w, h, x, y, x + 1, y - 1, 4);
    } else {
        assert(inside(w, h, x - 1, y));
        lemma_grounded(keep, d, f, w, h, x - 1, y);
        lemma_ground_step(keep, f, w, h, x, y, x - 1, y, 3);
    }
}

/// Turning the sheet round turns the cuts round.
proof fn lemma_within_turned(
    keep: Seq<bool>,
    turned: Seq<bool>,
    w: int,
    h: int,
    x: int,
    y: int,
    v: int,
)
    requires
        keep.len() == w * h,
        turned.len() == w * h,
        forall|i: int| 0 <= i < keep.len() ==> #[trigger] turned[i] == keep[w * h - 1 - i],
        inside(w, h, x, y),
        cut_within(keep, w, h, x, y, v),
    ensures
        cut_within(turned, w, h, w - 1 - x, h - 1 - y, v),
{
    let (qx, qy) = choose|qx: int, qy: int| #[trigger]
        is_cut(keep, w, h, qx, qy) && cost(x, y, qx, qy) <= v;
    lemma_at(w, h, qx, qy);
    assert(inside(w, h, w - 1 - qx, h - 1 - qy));
    lemma_at(w, h, w - 1 - qx, h - 1 - qy);
    assert(is_cut(turned, w, h, w - 1 - qx, h - 1 - qy));
    assert(cost(w - 1 - x, h - 1 - y, w - 1 - qx, h - 1 - qy) == cost(x, y, qx, qy));
}

/// The distance of every cell to the nearest cut, in thirds of a cell's side.
pub fn distances(keep: &[bool], w: usize, h: usize) -> (d: Vec<u16>)
    requires
        keep@.len() == w * h,
    ensures
        d@.len() == w * h,
        forall|x: int, y: int| #[trigger]
            inside(w as int, h as int, x, y) ==> is_distance(
                keep@,
                w as int,
                h as int,
                x,
                y,
                d@[at(w as int, x, y)] as int,
            ),
{
    let n: usize = keep.len();
    let ghost wi = w as int;
    let ghost hi = h as int;
    let mut d: Vec<u16> = Vec::new();
    for i in 0..n
        invariant
            n == keep@.len(),
            d@.len() == i,
            forall|j: int| 0 <= j < i ==> #[trigger] d@[j] == if keep@[j] { FAR } else { 0u16 },
    {
        d.push(if keep[i] { FAR } else { 0 });
    }
    let f: Vec<u16> = sweep(&d, w, h);
    let g: Vec<u16> = reversed(&f);
    let s: Vec<u16> = sweep(&g, w, h);
    let b: Vec<u16> = reversed(&s);
    proof {
        let turned = Seq::new(keep@.len(), |i: int| keep@[n - 1 - i]);
        assert forall|x: int, y: int| #[trigger] inside(wi, hi, x, y) implies grounded(
            keep@,
            d@,
            wi,
            hi,
            x,
            y,
        ) by {
            lemma_at(wi, hi, x, y);
            if !keep@[at(wi, x, y)] {
                assert(is_cut(keep@, wi, hi, x, y) && cost(x, y, x, y) == 0);
            }
        }
        assert forall|x: int, y: int| #[trigger] inside(wi, hi, x, y) implies grounded(
            turned,
            g@,
            wi,
            hi,
            x,
            y,
        ) by {
            let (rx, ry) = (wi - 1 - x, hi - 1 - y);
            lemma_at(wi, hi, x, y);
            assert(inside(wi, hi, rx, ry));
            lemma_at(wi, hi, rx, ry);
            lemma_grounded(keep@, d@, f@, wi, hi, rx, ry);
            assert(g@[at(wi, x, y)] == f@[at(wi, rx, ry)]);
            if f@[at(wi, rx, ry)] < FAR {
                lemma_within_turned(keep@, turned, wi, hi, rx, ry, f@[at(wi, rx, ry)] as int);
            }
        }
        assert forall|x: int, y: int| #[trigger] inside(wi, hi, x, y) implies settled(
            f@,
            wi,
            hi,
            x,
            y,
        ) && settled_back(b@, wi, hi, x, y) && b@[at(wi, x, y)] <= f@[at(wi, x, y)] by {
            let (rx, ry) = (wi - 1 - x, hi - 1 - y);
            lemma_at(wi, hi, x, y);
            assert(inside(wi, hi, rx, ry));
            lemma_at(wi, hi, rx, ry);
            assert(settled(s@, wi, hi, rx, ry));
            assert(b@[at(wi, x, y)] == s@[at(wi, rx, ry)]);
            assert(g@[at(wi, rx, ry)] == f@[at(wi, x, y)]);
            if y + 1 < hi {
                assert(inside(wi, hi, x, y + 1));
                lemma_at(wi, hi, x, y + 1);
                assert(b@[at(wi, x, y + 1)] == s@[at(wi, rx, ry - 1)]);
                if x + 1 < wi {
                    lemma_at(wi, hi, x + 1, y + 1);
                    assert(b@[at(wi, x + 1, y + 1)] == s@[at(wi, rx - 1, ry - 1)]);
                }
                if x > 0 {
                    lemma_at(wi, hi, x - 1, y + 1);
                    assert(b@[at(wi, x - 1, y + 1)] == s@[at(wi, rx + 1, ry - 1)]);
                }
            }
            if x + 1 < wi {
                lemma_at(wi, hi, x + 1, y);
                assert(b@[at(wi, x + 1, y)] == s@[at(wi, rx - 1, ry)]);
            }
        }
        assert forall|x: int, y: int| #[trigger] inside(wi, hi, x, y) implies is_distance(
            keep@,
            wi,
            hi,
            x,
            y,
            b@[at(wi, x, y)] as int,
        ) by {
            let (rx, ry) = (wi - 1 - x, hi - 1 - y);
            lemma_at(wi, hi, x, y);
            assert(inside(wi, hi, rx, ry));
            lemma_at(wi, hi, rx, ry);
            let v = b@[at(wi, x, y)] as int;
            assert(v == s@[at(wi, rx, ry)]);
            lemma_grounded(turned, g@, s@, wi, hi, rx, ry);
            if v < FAR {
                assert forall|i: int| 0 <= i < n implies #[trigger] keep@[i] == turned[wi * hi - 1
                    - i] by {}
                lemma_within_turned(turned, keep@, wi, hi, rx, ry, v);
            }
            assert forall|qx: int, qy: int| #[trigger] is_cut(keep@, wi, hi, qx, qy) implies v
                <= cost(x, y, qx, qy) by {
                assert(inside(wi, hi, qx, qy));
                lemma_at(wi, hi, qx, qy);
                lemma_reach(f@, b@, wi, hi, x, y, qx, qy);
            }
        }
    }
    b
}

} // verus!
