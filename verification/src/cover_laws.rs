//! Which cells a polygon covers, how far cells lie apart, and how many are cut away.

use crate::chamfer::{cost, inside, is_cut, is_distance};
use crate::fragility::{kept_count, measured, Fragility};
use crate::raster::{covers, crossed_at, crossed_by, crosses, crossing, crossings, scaled, within};
use crate::trace::Point;
use vstd::prelude::*;

verus! {

/// The slanted box between two levels: its top runs from `x` to `u`, its bottom lies `s`
/// farther right.
pub open spec fn slanted(x: i64, u: i64, y: i64, v: i64, s: i64) -> Seq<Point> {
    seq![(x, y), (u, y), ((u + s) as i64, v), ((x + s) as i64, v)]
}

/// A slanted box covers just the cells whose middle line lies between its top and its bottom,
/// and whose column lies between its sides there. Points are in thousandths of a cell.
pub proof fn lemma_slanted_box(x: i64, u: i64, y: i64, v: i64, s: i64, px: int, py: int)
    requires
        x <= u,
        y < v,
        -0x4000_0000_0000 <= x,
        u <= 0x4000_0000_0000,
        -0x4000_0000_0000 <= s <= 0x4000_0000_0000,
    ensures
        covers(slanted(x, u, y, v, s), px, py) <==> {
            let c = 1000 * py + 500;
            let d = v - y;
            &&& y <= c < v
            &&& x * d + (c - y) * s <= 1000 * px * d <= u * d + (c - y) * s
        },
{
    let pts = slanted(x, u, y, v, s);
    let c = 1000 * py + 500;
    let d = v - y;
    let cs = crossings(pts, c, 4);
    reveal_with_fuel(crossings, 5);
    reveal_with_fuel(crossed_by, 3);
    assert(pts.len() == 4 && pts.last() == pts[3]);
    assert(!crosses(pts, c, 1) && !crosses(pts, c, 3));
    if y <= c < v {
        assert(crosses(pts, c, 0) && crosses(pts, c, 2));
        let (a, b) = (x * d + (c - y) * s, u * d + (c - y) * s);
        assert(crossing(pts, c, 0) == (a, d));
        assert((u + s) * d + (c - v) * s == b) by (nonlinear_arith)
            requires
                b == u * d + (c - y) * s,
                d == v - y,
        ;
        assert(crossing(pts, c, 2) == (b, d));
        assert(cs =~= seq![(a, d), (b, d)]);
        assert(a <= b) by (nonlinear_arith)
            requires
                a == x * d + (c - y) * s,
                b == u * d + (c - y) * s,
                x <= u,
                d > 0,
        ;
        let t = scaled(px, d);
        assert(crossed_by(cs, px, 2) == (if a <= t {
            1nat
        } else {
            0nat
        }) + (if b <= t {
            1nat
        } else {
            0nat
        }));
        if b == t {
            assert(cs[1].0 == scaled(px, cs[1].1));
        }
        assert(within(cs, px) <==> a <= t <= b);
    } else {
        assert(!crosses(pts, c, 0) && !crosses(pts, c, 2));
        assert(cs =~= Seq::empty());
        assert(!crossed_at(cs, px));
    }
}

/// A step to the side, up or down is three long, one across a corner four; the shortest way
/// goes across corners as far as it can.
pub proof fn lemma_way(x: int, y: int, a: int, b: int)
    requires
        0 <= a,
        0 <= b,
    ensures
        ({
            let far = cost(x, y, x + a, y + b);
            &&& b <= a ==> far == 4 * b + 3 * (a - b)
            &&& a <= b ==> far == 4 * a + 3 * (b - a)
            &&& cost(x, y, x - a, y + b) == far
            &&& cost(x, y, x + a, y - b) == far
            &&& cost(x, y, x - a, y - b) == far
        }),
{
}

/// The shortest way is no longer by way of a third cell.
pub proof fn lemma_way_direct(x: int, y: int, u: int, v: int, p: int, q: int)
    ensures
        cost(x, y, u, v) <= cost(x, y, p, q) + cost(p, q, u, v),
        cost(x, y, u, v) == cost(u, v, x, y),
        cost(x, y, u, v) == 0 <==> x == u && y == v,
{
}

/// A cell's distance is nothing just where it is cut, three where one beside it is, four
/// where only one across a corner is, and six or more where none of these is.
pub proof fn lemma_distance_near(keep: Seq<bool>, w: int, h: int, x: int, y: int, v: int)
    requires
        inside(w, h, x, y),
        is_distance(keep, w, h, x, y, v),
    ensures
        ({
            let side = is_cut(keep, w, h, x - 1, y) || is_cut(keep, w, h, x + 1, y) || is_cut(
                keep,
                w,
                h,
                x,
                y - 1,
            ) || is_cut(keep, w, h, x, y + 1);
            let corner = is_cut(keep, w, h, x - 1, y - 1) || is_cut(keep, w, h, x + 1, y - 1)
                || is_cut(keep, w, h, x - 1, y + 1) || is_cut(keep, w, h, x + 1, y + 1);
            &&& v == 0 <==> is_cut(keep, w, h, x, y)
            &&& !is_cut(keep, w, h, x, y) ==> (v == 3 <==> side)
            &&& !is_cut(keep, w, h, x, y) && !side ==> (v == 4 <==> corner)
            &&& !is_cut(keep, w, h, x, y) && !side && !corner ==> v >= 6
        }),
{
    if v < 6 {
        let (qx, qy) = choose|qx: int, qy: int| #[trigger]
            is_cut(keep, w, h, qx, qy) && cost(x, y, qx, qy) <= v;
        assert(is_cut(keep, w, h, qx, qy));
    }
}

proof fn lemma_cut_cells(keep: Seq<bool>, k: int)
    requires
        0 <= k <= keep.len(),
    ensures
        cut_cells(keep, k).finite(),
        cut_cells(keep, k).len() + kept_count(keep, k) == k,
    decreases k,
{
    let s = cut_cells(keep, k);
    if k <= 0 {
        assert(s =~= Set::empty());
    } else {
        lemma_cut_cells(keep, k - 1);
        let t = cut_cells(keep, k - 1);
        if keep[k - 1] {
            assert(s =~= t);
        } else {
            assert(s =~= t.insert(k - 1));
        }
    }
}

/// Those of the first `k` cells that are cut.
pub open spec fn cut_cells(keep: Seq<bool>, k: int) -> Set<int> {
    Set::new(|i: int| 0 <= i < k && !keep[i])
}

/// The readout tells how many cells the sheet has, and how many of them are cut.
pub proof fn lemma_removed(keep: Seq<bool>, w: int, h: int, f: Fragility)
    requires
        keep.len() == w * h,
        measured(keep, w, h, f),
    ensures
        f.total == w * h,
        cut_cells(keep, w * h).finite(),
        f.removed == cut_cells(keep, w * h).len(),
{
    lemma_cut_cells(keep, w * h);
}

} // verus!
