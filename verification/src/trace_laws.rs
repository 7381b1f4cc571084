//! What the outlines of a mask follow, and which of them are kept.

use crate::trace::{
    area2, area_to, cell_kept, collapsed, corners_of, has_side, rings_of, side_end, Point, Side,
};
use vstd::prelude::*;

verus! {

/// Outlines follow just the sides between a cell that is kept and one that is not: round a
/// kept cell, down its left side, right along its bottom, up its right side and left along
/// its top.
pub proof fn lemma_sides(keep: Seq<bool>, w: int, h: int, x: int, y: int)
    requires
        0 <= x < w <= 0x7fff_ffff,
        0 <= y < h <= 0x7fff_ffff,
    ensures
        ({
            let kept = keep[y * w + x];
            let left: Side = (x as i64, y as i64, 0);
            let bottom: Side = (x as i64, (y + 1) as i64, 1);
            let right: Side = ((x + 1) as i64, (y + 1) as i64, 2);
            let top: Side = ((x + 1) as i64, y as i64, 3);
            &&& has_side(keep, w, h, left) <==> kept && !(x > 0 && keep[y * w + (x - 1)])
            &&& has_side(keep, w, h, right) <==> kept && !(x < w - 1 && keep[y * w + (x + 1)])
            &&& has_side(keep, w, h, top) <==> kept && !(y > 0 && keep[(y - 1) * w + x])
            &&& has_side(keep, w, h, bottom) <==> kept && !(y < h - 1 && keep[(y + 1) * w + x])
            &&& side_end(left) == (bottom.0, bottom.1)
            &&& side_end(bottom) == (right.0, right.1)
            &&& side_end(right) == (top.0, top.1)
            &&& side_end(top) == (left.0, left.1)
        }),
{
}

/// Every side that is followed belongs to a kept cell.
pub proof fn lemma_sides_belong(keep: Seq<bool>, w: int, h: int, s: Side)
    requires
        has_side(keep, w, h, s),
    ensures
        s.2 == 0 ==> cell_kept(keep, w, h, s.0 as int, s.1 as int),
        s.2 == 1 ==> cell_kept(keep, w, h, s.0 as int, s.1 - 1),
        s.2 == 2 ==> cell_kept(keep, w, h, s.0 - 1, s.1 - 1),
        s.2 == 3 ==> cell_kept(keep, w, h, s.0 - 1, s.1 as int),
        s.2 < 4,
{
}

/// Twice the area of a rectangle: negative where it is gone round down its left side, as
/// material is, and positive the other way, as holes are.
pub proof fn lemma_rectangle_area(x: i64, y: i64, u: i64, v: i64)
    ensures
        area2(seq![(x, y), (x, v), (u, v), (u, y)]) == -2 * ((u - x) * (v - y)),
        area2(seq![(x, y), (u, y), (u, v), (x, v)]) == 2 * ((u - x) * (v - y)),
{
    let p = seq![(x, y), (x, v), (u, v), (u, y)];
    let q = seq![(x, y), (u, y), (u, v), (x, v)];
    reveal_with_fuel(area_to, 5);
    assert(area2(p) == (x * v - x * y) + (x * v - u * v) + (u * y - u * v) + (u * y - x * y));
    assert(area2(q) == (x * y - u * y) + (u * v - u * y) + (u * v - x * v) + (x * y - x * v));
    assert((u - x) * (v - y) == u * v - u * y - x * v + x * y) by (nonlinear_arith);
}

/// Moving a ring as a whole leaves its area as it is.
pub proof fn lemma_area_moved(pts: Seq<Point>, moved: Seq<Point>, dx: int, dy: int)
    requires
        moved.len() == pts.len(),
        forall|i: int|
            0 <= i < pts.len() ==> (#[trigger] moved[i]).0 == pts[i].0 + dx && moved[i].1
                == pts[i].1 + dy,
    ensures
        area2(moved) == area2(pts),
{
    if pts.len() > 0 {
        lemma_area_moved_to(pts, moved, dx, dy, pts.len() as int);
        assert(dx * 0 == 0 && dy * 0 == 0) by (nonlinear_arith);
    }
}

proof fn lemma_area_moved_to(pts: Seq<Point>, moved: Seq<Point>, dx: int, dy: int, k: int)
    requires
        0 < pts.len(),
        0 <= k <= pts.len(),
        moved.len() == pts.len(),
        forall|i: int|
            0 <= i < pts.len() ==> (#[trigger] moved[i]).0 == pts[i].0 + dx && moved[i].1
                == pts[i].1 + dy,
    ensures
        ({
            let q = pts[if k == pts.len() { 0 } else { k }];
            area_to(moved, k) == area_to(pts, k) + dx * (q.1 - pts[0].1) - dy * (q.0 - pts[0].0)
        }),
    decreases k,
{
    let q = pts[if k == pts.len() { 0 } else { k }];
    if k > 0 {
        lemma_area_moved_to(pts, moved, dx, dy, k - 1);
        let p = pts[k - 1];
        let (a, b, c, d) = (p.0 as int, p.1 as int, q.0 as int, q.1 as int);
        let (e, f) = (pts[0].0 as int, pts[0].1 as int);
        assert((a + dx) * (d + dy) - (c + dx) * (b + dy) == a * d - c * b + dx * (d - b) - dy * (c
            - a)) by (nonlinear_arith);
        assert(dx * (d - f) == dx * (b - f) + dx * (d - b)) by (nonlinear_arith);
        assert(dy * (c - e) == dy * (a - e) + dy * (c - a)) by (nonlinear_arith);
        assert(moved[k - 1].0 == p.0 + dx);
        let m = moved[if k == pts.len() { 0 } else { k }];
        assert(m.0 == q.0 + dx && m.1 == q.1 + dy);
    } else {
        assert(dx * 0 == 0 && dy * 0 == 0) by (nonlinear_arith);
    }
}

/// Rings are sorted out by which way round they go: those with negative area are outlines of
/// material, the others of holes. Every run that holds the least area is among its own kind,
/// and nothing else is.
pub proof fn lemma_rings_sorted(
    runs: Seq<Seq<Side>>,
    min_area2: int,
    outer: bool,
    ring: Seq<Point>,
)
    ensures
        rings_of(runs, min_area2, outer, runs.len() as int).contains(ring) <==> exists|r: int|
            0 <= r < runs.len() && #[trigger] runs[r].len() >= 3 && ring == collapsed(
                corners_of(runs[r]),
            ) && (area2(ring) <= -min_area2 || area2(ring) >= min_area2) && (outer <==> area2(ring)
                < 0),
{
    lemma_rings_sorted_to(runs, min_area2, outer, ring, runs.len() as int);
}

proof fn lemma_rings_sorted_to(
    runs: Seq<Seq<Side>>,
    min_area2: int,
    outer: bool,
    ring: Seq<Point>,
    k: int,
)
    requires
        0 <= k <= runs.len(),
    ensures
        rings_of(runs, min_area2, outer, k).contains(ring) <==> exists|r: int|
            0 <= r < k && #[trigger] runs[r].len() >= 3 && ring == collapsed(corners_of(runs[r]))
                && (area2(ring) <= -min_area2 || area2(ring) >= min_area2) && (outer <==> area2(
                ring,
            ) < 0),
    decreases k,
{
    if k > 0 {
        lemma_rings_sorted_to(runs, min_area2, outer, ring, k - 1);
        let rest = rings_of(runs, min_area2, outer, k - 1);
        let all = rings_of(runs, min_area2, outer, k);
        let last = collapsed(corners_of(runs[k - 1]));
        assert(runs[k - 1].len() >= 0);
        if all.len() > rest.len() {
            assert(all == rest.push(last));
            if rest.contains(ring) {
                assert(all[rest.index_of(ring)] == ring);
            }
            if ring == last {
                assert(all[rest.len() as int] == ring);
            }
            if all.contains(ring) {
                let i = all.index_of(ring);
                if i < rest.len() {
                    assert(rest[i] == ring);
                }
            }
        }
    }
}

} // verus!
