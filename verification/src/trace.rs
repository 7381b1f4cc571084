//! Tracing: the closed outlines of a mask, on the lattice of cell corners.

use crate::gap::lemma_cells_bound;
use crate::grid::MAX_SIDE;
use vstd::arithmetic::div_mod::lemma_fundamental_div_mod_converse;
use vstd::prelude::*;

verus! {

/// The farthest a coordinate may lie from 0.
pub const MAX_COORD: i64 = 0x2000_0000_0000_0000;

/// A corner of the lattice: its column and row.
pub type Point = (i64, i64);

/// Whether the cell in column `x` of row `y` is kept; outside the grid none is.
pub open spec fn cell_kept(keep: Seq<bool>, w: int, h: int, x: int, y: int) -> bool {
    0 <= x < w && 0 <= y < h && keep[y * w + x]
}

/// A side of a kept cell, as it is followed: the column and row of the corner that it starts
/// from, and whether it leads down, right, up or left for 0, 1, 2, 3.
pub type Side = (i64, i64, u8);

/// Whether a side is part of an outline: material lies on its left, and none on its right.
pub open spec fn has_side(keep: Seq<bool>, w: int, h: int, s: Side) -> bool {
    let x = s.0 as int;
    let y = s.1 as int;
    let nw = cell_kept(keep, w, h, x - 1, y - 1);
    let ne = cell_kept(keep, w, h, x, y - 1);
    let sw = cell_kept(keep, w, h, x - 1, y);
    let se = cell_kept(keep, w, h, x, y);
    if s.2 == 0 {
        se && !sw
    } else if s.2 == 1 {
        ne && !se
    } else if s.2 == 2 {
        nw && !ne
    } else if s.2 == 3 {
        sw && !nw
    } else {
        false
    }
}

/// The corner that a side leads to.
pub open spec fn side_end(s: Side) -> Point {
    if s.2 == 0 {
        (s.0, (s.1 + 1) as i64)
    } else if s.2 == 1 {
        ((s.0 + 1) as i64, s.1)
    } else if s.2 == 2 {
        (s.0, (s.1 - 1) as i64)
    } else {
        ((s.0 - 1) as i64, s.1)
    }
}

/// The side at the end of `s` that turns left, and so stays with its cell.
pub open spec fn left_of(s: Side) -> Side {
    let q = side_end(s);
    (q.0, q.1, if s.2 == 3 { 0 } else { (s.2 + 1) as u8 })
}

/// The side at the end of `s` that leads straight on.
pub open spec fn ahead_of(s: Side) -> Side {
    let q = side_end(s);
    (q.0, q.1, s.2)
}

/// The side at the end of `s` that turns right.
pub open spec fn right_of(s: Side) -> Side {
    let q = side_end(s);
    (q.0, q.1, if s.2 == 0 { 3 } else { (s.2 - 1) as u8 })
}

/// The side with which an outline goes on: to the left where it can, so that cells which
/// only touch in a corner keep their own outlines.
pub open spec fn next_side(keep: Seq<bool>, w: int, h: int, s: Side) -> Side {
    if has_side(keep, w, h, left_of(s)) {
        left_of(s)
    } else if has_side(keep, w, h, ahead_of(s)) {
        ahead_of(s)
    } else {
        right_of(s)
    }
}

/// Whether `p` is a corner of a grid of `w` by `h` cells.
pub open spec fn is_corner(w: int, h: int, p: Point) -> bool {
    0 <= p.0 <= w && 0 <= p.1 <= h
}

/// Whether `run` is a closed outline: sides of the mask, each followed by the next, the last
/// by the first, and none twice.
pub open spec fn is_run(keep: Seq<bool>, w: int, h: int, run: Seq<Side>) -> bool {
    &&& run.len() > 0
    &&& run.no_duplicates()
    &&& forall|a: int| 0 <= a < run.len() ==> has_side(keep, w, h, #[trigger] run[a])
    &&& forall|a: int|
        0 <= a < run.len() - 1 ==> next_side(keep, w, h, #[trigger] run[a]) == run[a + 1]
    &&& next_side(keep, w, h, run.last()) == run[0]
}

/// The sides on the first `k` runs.
pub open spec fn on_runs(runs: Seq<Seq<Side>>, k: int) -> Set<Side> {
    Set::new(|s: Side| exists|r: int| 0 <= r < k && #[trigger] runs[r].contains(s))
}

/// Whether side `s` comes before side `t`: by its corner in reading order, then by where it
/// leads.
pub open spec fn reads_before(s: Side, t: Side) -> bool {
    s.1 < t.1 || (s.1 == t.1 && (s.0 < t.0 || (s.0 == t.0 && s.2 < t.2)))
}

/// Whether run `r` is the one that follows the runs before it: it starts with the first side
/// that none of them holds, and holds none of theirs.
pub open spec fn run_ok(keep: Seq<bool>, w: int, h: int, runs: Seq<Seq<Side>>, r: int) -> bool {
    &&& is_run(keep, w, h, runs[r])
    &&& forall|a: int|
        0 <= a < runs[r].len() ==> !on_runs(runs, r).contains(#[trigger] runs[r][a])
    &&& forall|s: Side|
        reads_before(s, runs[r][0]) && #[trigger] has_side(keep, w, h, s) ==> on_runs(
            runs,
            r,
        ).contains(s)
}

/// Whether `runs` are all outlines of the mask: every side is on one of them.
pub open spec fn all_runs(keep: Seq<bool>, w: int, h: int, runs: Seq<Seq<Side>>) -> bool {
    &&& forall|r: int| 0 <= r < runs.len() ==> #[trigger] run_ok(keep, w, h, runs, r)
    &&& forall|s: Side| #[trigger]
        has_side(keep, w, h, s) ==> on_runs(runs, runs.len() as int).contains(s)
}

/// The corners that an outline passes.
pub open spec fn corners_of(run: Seq<Side>) -> Seq<Point> {
    Seq::new(run.len(), |a: int| (run[a].0, run[a].1))
}

/// Whether the way turns, or turns back, at `c` between `p` and `n`.
pub open spec fn turns(p: Point, c: Point, n: Point) -> bool {
    let ax = c.0 - p.0;
    let ay = c.1 - p.1;
    let bx = n.0 - c.0;
    let by = n.1 - c.1;
    ax * by - ay * bx != 0 || ax * bx + ay * by < 0
}

/// Whether the ring turns at its point `i`.
pub open spec fn turns_at(pts: Seq<Point>, i: int) -> bool {
    let n = pts.len() as int;
    turns(pts[if i == 0 { n - 1 } else { i - 1 }], pts[i], pts[if i == n - 1 { 0 } else { i + 1 }])
}

/// Those of the first `k` points of a ring at which it turns.
pub open spec fn turning(pts: Seq<Point>, k: int) -> Seq<Point>
    decreases k,
{
    if k <= 0 {
        Seq::empty()
    } else if turns_at(pts, k - 1) {
        turning(pts, k - 1).push(pts[k - 1])
    } else {
        turning(pts, k - 1)
    }
}

/// The ring without the points at which it runs straight on; a ring that would be left
/// with under three points stays.
pub open spec fn collapsed(pts: Seq<Point>) -> Seq<Point> {
    let out = turning(pts, pts.len() as int);
    if pts.len() < 3 || out.len() < 3 {
        pts
    } else {
        out
    }
}

/// Twice the signed area under the first `k` sides of a ring.
pub open spec fn area_to(pts: Seq<Point>, k: int) -> int
    decreases k,
{
    if k <= 0 {
        0
    } else {
        let p = pts[k - 1];
        let q = pts[if k == pts.len() { 0 } else { k }];
        area_to(pts, k - 1) + (p.0 * q.1 - q.0 * p.1)
    }
}

/// Twice the signed area of a ring.
pub open spec fn area2(pts: Seq<Point>) -> int {
    area_to(pts, pts.len() as int)
}

/// The rings left of the first `k` runs: collapsed, and not too small.
pub open spec fn rings_of(runs: Seq<Seq<Side>>, min_area2: int, outer: bool, k: int) -> Seq<
    Seq<Point>,
>
    decreases k,
{
    if k <= 0 {
        Seq::empty()
    } else {
        let rest = rings_of(runs, min_area2, outer, k - 1);
        let ring = collapsed(corners_of(runs[k - 1]));
        let a = area2(ring);
        if runs[k - 1].len() >= 3 && (a >= min_area2 || -a >= min_area2) && (a < 0) == outer {
            rest.push(ring)
        } else {
            rest
        }
    }
}

/// The views of a list of rings.
pub open spec fn ring_views(v: Seq<Vec<Point>>) -> Seq<Seq<Point>> {
    Seq::new(v.len(), |k: int| v[k]@)
}

/// Whether all points lie on the lattice.
pub open spec fn on_lattice(pts: Seq<Point>) -> bool {
    forall|a: int|
        0 <= a < pts.len() ==> 0 <= (#[trigger] pts[a]).0 <= MAX_SIDE && 0 <= pts[a].1 <= MAX_SIDE
}

/// Whether all points of all rings lie on the lattice.
pub open spec fn rings_ok(rings: Seq<Vec<Point>>) -> bool {
    forall|k: int| 0 <= k < rings.len() ==> on_lattice((#[trigger] rings[k])@)
}

fn kept_at(keep: &[bool], w: usize, h: usize, x: i64, y: i64) -> (b: bool)
    requires
        keep@.len() == w * h,
        w <= MAX_SIDE,
        h <= MAX_SIDE,
    ensures
        b == cell_kept(keep@, w as int, h as int, x as int, y as int),
{
    if x < 0 || y < 0 || x >= w as i64 || y >= h as i64 {
        false
    } else {
        let n: usize = keep.len();
        proof {
            assert(n == w * h);
            assert(0 <= y * w + x < w * h) by (nonlinear_arith)
                requires
                    0 <= x < w,
                    0 <= y < h,
            ;
            assert(0 <= y * w <= y * w + x);
        }
        keep[y as usize * w + x as usize]
    }
}

fn side_at(keep: &[bool], w: usize, h: usize, s: Side) -> (b: bool)
    requires
        keep@.len() == w * h,
        w < MAX_SIDE,
        h < MAX_SIDE,
        -1 <= s.0 <= w + 1,
        -1 <= s.1 <= h + 1,
    ensures
        b == has_side(keep@, w as int, h as int, s),
{
    let (x, y, d): (i64, i64, u8) = s;
    match d {
        0 => kept_at(keep, w, h, x, y) && !kept_at(keep, w, h, x - 1, y),
        1 => kept_at(keep, w, h, x, y - 1) && !kept_at(keep, w, h, x, y),
        2 => kept_at(keep, w, h, x - 1, y - 1) && !kept_at(keep, w, h, x, y - 1),
        3 => kept_at(keep, w, h, x - 1, y) && !kept_at(keep, w, h, x - 1, y - 1),
        _ => false,
    }
}

/// A side of an outline has its ends on the grid, and an outline always goes on.
proof fn lemma_goes_on(keep: Seq<bool>, w: int, h: int, s: Side)
    requires
        0 <= w < MAX_SIDE,
        0 <= h < MAX_SIDE,
        has_side(keep, w, h, s),
    ensures
        is_corner(w, h, (s.0, s.1)),
        is_corner(w, h, side_end(s)),
        has_side(keep, w, h, next_side(keep, w, h, s)),
{
}

/// Two sides are never followed by the same one.
proof fn lemma_next_injective(keep: Seq<bool>, w: int, h: int, s: Side, t: Side)
    requires
        0 <= w < MAX_SIDE,
        0 <= h < MAX_SIDE,
        has_side(keep, w, h, s),
        has_side(keep, w, h, t),
        next_side(keep, w, h, s) == next_side(keep, w, h, t),
    ensures
        s == t,
{
    lemma_goes_on(keep, w, h, s);
    lemma_goes_on(keep, w, h, t);
}

fn follow(keep: &[bool], w: usize, h: usize, s: Side) -> (t: Side)
    requires
        keep@.len() == w * h,
        w < MAX_SIDE,
        h < MAX_SIDE,
        has_side(keep@, w as int, h as int, s),
    ensures
        t == next_side(keep@, w as int, h as int, s),
        has_side(keep@, w as int, h as int, t),
{
    proof {
        lemma_goes_on(keep@, w as int, h as int, s);
    }
    let (x, y, d): (i64, i64, u8) = s;
    let q: Point = match d {
        0 => (x, y + 1),
        1 => (x + 1, y),
        2 => (x, y - 1),
        _ => (x - 1, y),
    };
    let left: Side = (q.0, q.1, if d == 3 { 0 } else { d + 1 });
    if side_at(keep, w, h, left) {
        return left;
    }
    let ahead: Side = (q.0, q.1, d);
    if side_at(keep, w, h, ahead) {
        return ahead;
    }
    (q.0, q.1, if d == 0 { 3 } else { d - 1 })
}

/// The number of a side on the lattice.
pub open spec fn side_index(w: int, s: Side) -> int {
    4 * (s.1 * (w + 1) + s.0) + s.2
}

/// Whether a side starts from a corner of the grid.
pub open spec fn on_grid(w: int, h: int, s: Side) -> bool {
    is_corner(w, h, (s.0, s.1)) && s.2 < 4
}

/// Whether `used` marks exactly the sides in `visited`.
pub open spec fn marks(used: Seq<bool>, w: int, h: int, visited: Set<Side>) -> bool {
    &&& used.len() == 4 * ((w + 1) * (h + 1))
    &&& forall|s: Side|
        on_grid(w, h, s) ==> used[side_index(w, s)] == #[trigger] visited.contains(s)
}

proof fn lemma_side_index(w: int, h: int, s: Side, t: Side)
    requires
        w >= 0,
        h >= 0,
        on_grid(w, h, s),
        on_grid(w, h, t),
    ensures
        0 <= side_index(w, s) < 4 * ((w + 1) * (h + 1)),
        side_index(w, s) == side_index(w, t) ==> s == t,
{
    let (px, py) = (s.0 as int, s.1 as int);
    assert(0 <= py * (w + 1) + px < (w + 1) * (h + 1)) by (nonlinear_arith)
        requires
            0 <= px <= w,
            0 <= py <= h,
    ;
    let (a, b) = (s.1 * (w + 1) + s.0, t.1 * (w + 1) + t.0);
    lemma_fundamental_div_mod_converse(a, w + 1, s.1 as int, s.0 as int);
    lemma_fundamental_div_mod_converse(b, w + 1, t.1 as int, t.0 as int);
}

fn index_of_side(w: usize, h: usize, s: Side) -> (i: usize)
    requires
        on_grid(w as int, h as int, s),
        4 * ((w + 1) * (h + 1)) <= usize::MAX,
    ensures
        i == side_index(w as int, s),
        i < 4 * ((w + 1) * (h + 1)),
{
    proof {
        lemma_side_index(w as int, h as int, s, s);
        let (px, py) = (s.0 as int, s.1 as int);
        assert(0 <= py * (w + 1)) by (nonlinear_arith)
            requires
                0 <= py,
                w >= 0,
        ;
        assert(w + 1 <= (w + 1) * (h + 1)) by (nonlinear_arith)
            requires
                w >= 0,
                h >= 0,
        ;
    }
    4 * (s.1 as usize * (w + 1) + s.0 as usize) + s.2 as usize
}

/// Whether a set of sides holds every side that leads into it.
spec fn whole(keep: Seq<bool>, w: int, h: int, visited: Set<Side>) -> bool {
    forall|s: Side| #[trigger]
        has_side(keep, w, h, s) && visited.contains(next_side(keep, w, h, s)) ==> visited.contains(
            s,
        )
}

/// Follows one outline from `start` and marks its sides.
fn walk(
    keep: &[bool],
    w: usize,
    h: usize,
    used: &mut Vec<bool>,
    start: Side,
    Ghost(visited): Ghost<Set<Side>>,
) -> (run: Vec<Side>)
    requires
        keep@.len() == w * h,
        w < MAX_SIDE,
        h < MAX_SIDE,
        4 * ((w + 1) * (h + 1)) <= usize::MAX,
        marks(old(used)@, w as int, h as int, visited),
        whole(keep@, w as int, h as int, visited),
        has_side(keep@, w as int, h as int, start),
        !visited.contains(start),
    ensures
        is_run(keep@, w as int, h as int, run@),
        run@[0] == start,
        forall|a: int| 0 <= a < run@.len() ==> !visited.contains(#[trigger] run@[a]),
        marks(
            final(used)@,
            w as int,
            h as int,
            visited.union(Set::new(|s: Side| run@.contains(s))),
        ),
{
    let ghost wi = w as int;
    let ghost hi = h as int;
    let total: usize = used.len();
    let mut run: Vec<Side> = Vec::new();
    let mut cur: Side = start;
    let ghost mut seen = visited;
    let mut go: bool = true;
    proof {
        assert(seen =~= visited.union(Set::new(|s: Side| run@.contains(s))));
    }
    while go
        invariant
            keep@.len() == w * h,
            w < MAX_SIDE,
            h < MAX_SIDE,
            4 * ((w + 1) * (h + 1)) <= usize::MAX,
            wi == w,
            hi == h,
            total == 4 * ((w + 1) * (h + 1)),
            has_side(keep@, wi, hi, start),
            !visited.contains(start),
            whole(keep@, wi, hi, visited),
            seen =~= visited.union(Set::new(|s: Side| run@.contains(s))),
            marks(used@, wi, hi, seen),
            run@.no_duplicates(),
            forall|a: int|
                0 <= a < run@.len() ==> has_side(keep@, wi, hi, #[trigger] run@[a])
                    && !visited.contains(run@[a]),
            forall|a: int|
                0 <= a < run@.len() - 1 ==> next_side(keep@, wi, hi, #[trigger] run@[a]) == run@[a
                    + 1],
            run@.len() > 0 ==> run@[0] == start,
            go && run@.len() == 0 ==> cur == start,
            go ==> has_side(keep@, wi, hi, cur) && !seen.contains(cur),
            go && run@.len() > 0 ==> next_side(keep@, wi, hi, run@.last()) == cur,
            !go ==> is_run(keep@, wi, hi, run@),
            run@.len() <= total,
        decreases total - run@.len() + if go { 1int } else { 0int },
    {
        let ghost run0 = run@;
        let ghost seen0 = seen;
        proof {
            lemma_goes_on(keep@, wi, hi, cur);
        }
        let at: usize = index_of_side(w, h, cur);
        used.set(at, true);
        run.push(cur);
        proof {
            seen = seen0.insert(cur);
            assert(!run0.contains(cur));
            assert forall|s: Side| on_grid(wi, hi, s) implies used@[side_index(wi, s)]
                == #[trigger] seen.contains(s) by {
                lemma_side_index(wi, hi, s, cur);
                assert(seen0.contains(s) || !seen0.contains(s));
            }
            assert(run@[run0.len() as int] == cur);
            assert(seen =~= visited.union(Set::new(|s: Side| run@.contains(s)))) by {
                assert forall|s: Side| run@.contains(s) == (run0.contains(s) || s == cur) by {
                    if run0.contains(s) {
                        assert(run@[run0.index_of(s)] == s);
                    }
                    if run@.contains(s) && s != cur {
                        assert(run0[run@.index_of(s)] == s);
                    }
                }
            }
            assert forall|a: int| 0 <= a < run@.len() - 1 implies next_side(
                keep@,
                wi,
                hi,
                #[trigger] run@[a],
            ) == run@[a + 1] by {
                if a < run0.len() - 1 {
                    assert(run@[a] == run0[a] && run@[a + 1] == run0[a + 1]);
                } else {
                    assert(run@[a] == run0.last());
                }
            }
            lemma_run_bound(keep@, wi, hi, run@);
        }
        let q: Side = follow(keep, w, h, cur);
        proof {
            lemma_goes_on(keep@, wi, hi, q);
        }
        let i: usize = index_of_side(w, h, q);
        proof {
            assert(used@[side_index(wi, q)] == seen.contains(q));
        }
        if used[i] {
            go = false;
            proof {
                assert(has_side(keep@, wi, hi, cur));
                assert(!visited.contains(q));
                let b = run@.index_of(q);
                if b > 0 {
                    assert(next_side(keep@, wi, hi, run@[b - 1]) == run@[b - 1 + 1]);
                    lemma_next_injective(keep@, wi, hi, run@[b - 1], cur);
                    assert(run@[b - 1] == run@[run@.len() - 1]);
                }
            }
        } else {
            cur = q;
        }
    }
    run
}

/// A run has no more sides than the lattice.
proof fn lemma_run_bound(keep: Seq<bool>, w: int, h: int, run: Seq<Side>)
    requires
        0 <= w < MAX_SIDE,
        0 <= h < MAX_SIDE,
        4 * ((w + 1) * (h + 1)) <= usize::MAX,
        run.no_duplicates(),
        forall|a: int| 0 <= a < run.len() ==> has_side(keep, w, h, #[trigger] run[a]),
    ensures
        run.len() <= 4 * ((w + 1) * (h + 1)),
{
    let idx = Seq::new(run.len(), |a: int| side_index(w, run[a]) as usize);
    assert forall|a: int| 0 <= a < idx.len() implies #[trigger] idx[a] < 4 * ((w + 1) * (h + 1))
        && idx[a] == side_index(w, run[a]) by {
        lemma_goes_on(keep, w, h, run[a]);
        lemma_side_index(w, h, run[a], run[a]);
    }
    assert forall|a: int, b: int| 0 <= a < idx.len() && 0 <= b < idx.len() && a != b implies idx[a]
        != idx[b] by {
        assert(run[a] != run[b]);
        lemma_goes_on(keep, w, h, run[a]);
        lemma_goes_on(keep, w, h, run[b]);
        lemma_side_index(w, h, run[a], run[b]);
        assert(idx[a] == side_index(w, run[a]) && idx[b] == side_index(w, run[b]));
    }
    assert((w + 1) * (h + 1) >= 0) by (nonlinear_arith)
        requires
            w >= 0,
            h >= 0,
    ;
    lemma_cells_bound(idx, 4 * ((w + 1) * (h + 1)));
}

/// Takes out the points at which a ring runs straight on.
pub fn collapse_collinear(pts: &[Point]) -> (r: Vec<Point>)
    requires
        forall|a: int|
            0 <= a < pts@.len() ==> -MAX_COORD <= (#[trigger] pts@[a]).0 <= MAX_COORD && -MAX_COORD
                <= pts@[a].1 <= MAX_COORD,
    ensures
        r@ == collapsed(pts@),
{
    let n: usize = pts.len();
    let mut out: Vec<Point> = Vec::new();
    for i in 0..n
        invariant
            n == pts@.len(),
            forall|a: int|
                0 <= a < pts@.len() ==> -MAX_COORD <= (#[trigger] pts@[a]).0 <= MAX_COORD
                    && -MAX_COORD <= pts@[a].1 <= MAX_COORD,
            out@ == turning(pts@, i as int),
    {
        let prev: Point = pts[if i == 0 { n - 1 } else { i - 1 }];
        let cur: Point = pts[i];
        let next: Point = pts[if i == n - 1 { 0 } else { i + 1 }];
        let ax: i128 = cur.0 as i128 - prev.0 as i128;
        let ay: i128 = cur.1 as i128 - prev.1 as i128;
        let bx: i128 = next.0 as i128 - cur.0 as i128;
        let by: i128 = next.1 as i128 - cur.1 as i128;
        proof {
            lemma_product_bound(ax as int, by as int);
            lemma_product_bound(ay as int, bx as int);
            lemma_product_bound(ax as int, bx as int);
            lemma_product_bound(ay as int, by as int);
        }
        if ax * by - ay * bx != 0 || ax * bx + ay * by < 0 {
            out.push(cur);
        }
    }
    if n < 3 || out.len() < 3 {
        copy_points(pts)
    } else {
        out
    }
}

proof fn lemma_product_bound(a: int, b: int)
    by (nonlinear_arith)
    requires
        -0x4000_0000_0000_0000 <= a <= 0x4000_0000_0000_0000,
        -0x4000_0000_0000_0000 <= b <= 0x4000_0000_0000_0000,
    ensures
        -0x1000_0000_0000_0000_0000_0000_0000_0000 <= a * b
            <= 0x1000_0000_0000_0000_0000_0000_0000_0000,
{
}

fn copy_points(pts: &[Point]) -> (r: Vec<Point>)
    ensures
        r@ == pts@,
{
    let mut r: Vec<Point> = Vec::new();
    for i in 0..pts.len()
        invariant
            r@ == pts@.take(i as int),
    {
        r.push(pts[i]);
        proof {
            assert(pts@.take(i + 1) =~= pts@.take(i as int).push(pts@[i as int]));
        }
    }
    proof {
        assert(pts@.take(pts@.len() as int) =~= pts@);
    }
    r
}

/// Twice the signed area of a ring. The outline of material winds negative, that of a hole
/// positive.
pub fn signed_area2(pts: &[Point]) -> (a: i128)
    requires
        forall|a: int|
            0 <= a < pts@.len() ==> 0 <= (#[trigger] pts@[a]).0 <= MAX_SIDE && 0 <= pts@[a].1
                <= MAX_SIDE,
    ensures
        a == area2(pts@),
{
    let n: usize = pts.len();
    let mut sum: i128 = 0;
    for i in 0..n
        invariant
            n == pts@.len(),
            forall|a: int|
                0 <= a < pts@.len() ==> 0 <= (#[trigger] pts@[a]).0 <= MAX_SIDE && 0 <= pts@[a].1
                    <= MAX_SIDE,
            sum == area_to(pts@, i as int),
            -0x4000_0000_0000_0000 * i <= sum <= 0x4000_0000_0000_0000 * i,
    {
        let p: Point = pts[i];
        let q: Point = pts[if i == n - 1 { 0 } else { i + 1 }];
        proof {
            lemma_side_bound(p.0 as int, q.1 as int);
            lemma_side_bound(q.0 as int, p.1 as int);
        }
        sum = sum + (p.0 as i128 * q.1 as i128 - q.0 as i128 * p.1 as i128);
    }
    sum
}

proof fn lemma_side_bound(a: int, b: int)
    by (nonlinear_arith)
    requires
        0 <= a <= 0x7fff_ffff,
        0 <= b <= 0x7fff_ffff,
    ensures
        0 <= a * b <= 0x4000_0000_0000_0000,
{
}

/// Follows all outlines of a mask; see `all_runs`.
/// The views of a list of runs.
spec fn run_views(v: Seq<Vec<Side>>) -> Seq<Seq<Side>> {
    Seq::new(v.len(), |k: int| v[k]@)
}

fn follow_all(keep: &[bool], w: usize, h: usize) -> (runs: Vec<Vec<Side>>)
    requires
        keep@.len() == w * h,
        w < MAX_SIDE,
        h < MAX_SIDE,
        4 * ((w + 1) * (h + 1)) <= usize::MAX,
    ensures
        all_runs(keep@, w as int, h as int, run_views(runs@)),
{
    let ghost wi = w as int;
    let ghost hi = h as int;
    let mut runs: Vec<Vec<Side>> = Vec::new();
    proof {
        assert(0 <= (w + 1) * (h + 1)) by (nonlinear_arith)
            requires
                w >= 0,
                h >= 0,
        ;
    }
    let corners: usize = (w + 1) * (h + 1);
    let total: usize = 4 * corners;
    let mut used: Vec<bool> = Vec::new();
    for i in 0..total
        invariant
            used@.len() == i,
            forall|j: int| 0 <= j < i ==> !used@[j],
    {
        used.push(false);
    }
    proof {
        assert forall|s: Side| on_grid(wi, hi, s) implies used@[side_index(wi, s)]
            == #[trigger] on_runs(run_views(runs@), 0).contains(s) by {
            lemma_side_index(wi, hi, s, s);
        }
    }
    for y in 0..h + 1
        invariant
            keep@.len() == w * h,
            w < MAX_SIDE,
            h < MAX_SIDE,
            4 * ((w + 1) * (h + 1)) <= usize::MAX,
            wi == w,
            hi == h,
            followed(keep@, wi, hi, used@, run_views(runs@), (0, y as i64, 0)),
    {
        for x in 0..w + 1
            invariant
                keep@.len() == w * h,
                w < MAX_SIDE,
                h < MAX_SIDE,
                4 * ((w + 1) * (h + 1)) <= usize::MAX,
                wi == w,
                hi == h,
                y <= h,
                followed(keep@, wi, hi, used@, run_views(runs@), (x as i64, y as i64, 0)),
        {
            for d in 0..4u8
                invariant
                    keep@.len() == w * h,
                    w < MAX_SIDE,
                    h < MAX_SIDE,
                    4 * ((w + 1) * (h + 1)) <= usize::MAX,
                    wi == w,
                    hi == h,
                    x <= w,
                    y <= h,
                    followed(keep@, wi, hi, used@, run_views(runs@), (x as i64, y as i64, d)),
            {
                let here: Side = (x as i64, y as i64, d);
                let at: usize = index_of_side(w, h, here);
                let ghost views0 = run_views(runs@);
                let ghost k = runs@.len() as int;
                let ghost visited = on_runs(views0, k);
                proof {
                    assert(used@[side_index(wi, here)] == visited.contains(here));
                    lemma_whole(keep@, wi, hi, views0);
                }
                if !used[at] && side_at(keep, w, h, here) {
                    let run: Vec<Side> = walk(keep, w, h, &mut used, here, Ghost(visited));
                    let ghost sides = run@;
                    runs.push(run);
                    proof {
                        let views = run_views(runs@);
                        assert(views =~= views0.push(sides));
                        lemma_runs_grow(views0, sides);
                        assert(on_runs(views, k + 1) =~= visited.union(
                            Set::new(|s: Side| sides.contains(s)),
                        ));
                        assert forall|r: int| 0 <= r < runs@.len() implies #[trigger] run_ok(
                            keep@,
                            wi,
                            hi,
                            views,
                            r,
                        ) by {
                            lemma_runs_prefix(views0, views, r);
                            if r < k {
                                assert(run_ok(keep@, wi, hi, views0, r));
                                assert(views[r] == views0[r]);
                            } else {
                                assert(views[r] == sides);
                            }
                        }
                        assert(sides[0] == here);
                        assert(sides.contains(here));
                    }
                }
                proof {
                    let views = run_views(runs@);
                    let n = runs@.len() as int;
                    assert forall|s: Side|
                        reads_before(s, (x as i64, y as i64, (d + 1) as u8)) && #[trigger] has_side(
                            keep@,
                            wi,
                            hi,
                            s,
                        ) implies on_runs(views, n).contains(s) by {
                        if s != here {
                            assert(reads_before(s, here));
                            assert(visited.contains(s));
                        }
                    }
                }
            }
            proof {
                assert forall|s: Side|
                    reads_before(s, ((x + 1) as i64, y as i64, 0)) && #[trigger] has_side(
                        keep@,
                        wi,
                        hi,
                        s,
                    ) implies on_runs(run_views(runs@), runs@.len() as int).contains(s) by {
                    assert(reads_before(s, (x as i64, y as i64, 4)));
                }
            }
        }
        proof {
            assert forall|s: Side|
                reads_before(s, (0, (y + 1) as i64, 0)) && #[trigger] has_side(
                    keep@,
                    wi,
                    hi,
                    s,
                ) implies on_runs(run_views(runs@), runs@.len() as int).contains(s) by {
                lemma_goes_on(keep@, wi, hi, s);
                assert(reads_before(s, ((w + 1) as i64, y as i64, 0)));
            }
        }
    }
    proof {
        assert forall|s: Side| #[trigger] has_side(keep@, wi, hi, s) implies on_runs(
            run_views(runs@),
            runs@.len() as int,
        ).contains(s) by {
            lemma_goes_on(keep@, wi, hi, s);
            assert(reads_before(s, (0, (h + 1) as i64, 0)));
        }
    }
    runs
}

/// Whether the runs are the first ones, they are marked, and every side before `t` is on one
/// of them.
spec fn followed(
    keep: Seq<bool>,
    w: int,
    h: int,
    used: Seq<bool>,
    runs: Seq<Seq<Side>>,
    t: Side,
) -> bool {
    &&& marks(used, w, h, on_runs(runs, runs.len() as int))
    &&& forall|r: int| 0 <= r < runs.len() ==> #[trigger] run_ok(keep, w, h, runs, r)
    &&& forall|s: Side|
        reads_before(s, t) && #[trigger] has_side(keep, w, h, s) ==> on_runs(
            runs,
            runs.len() as int,
        ).contains(s)
}

/// Whole outlines hold every side that leads into them.
proof fn lemma_whole(keep: Seq<bool>, w: int, h: int, runs: Seq<Seq<Side>>)
    requires
        0 <= w < MAX_SIDE,
        0 <= h < MAX_SIDE,
        forall|r: int| 0 <= r < runs.len() ==> #[trigger] run_ok(keep, w, h, runs, r),
    ensures
        whole(keep, w, h, on_runs(runs, runs.len() as int)),
{
    let visited = on_runs(runs, runs.len() as int);
    assert forall|s: Side| #[trigger]
        has_side(keep, w, h, s) && visited.contains(next_side(keep, w, h, s)) implies visited.contains(
        s,
    ) by {
        let t = next_side(keep, w, h, s);
        let r = choose|r: int| 0 <= r < runs.len() && #[trigger] runs[r].contains(t);
        let run = runs[r];
        assert(run_ok(keep, w, h, runs, r));
        let b = run.index_of(t);
        let a = if b == 0 {
            run.len() - 1
        } else {
            b - 1
        };
        if b > 0 {
            assert(next_side(keep, w, h, run[b - 1]) == run[b - 1 + 1]);
        }
        lemma_next_injective(keep, w, h, run[a], s);
        assert(runs[r].contains(s));
    }
}

/// The sides on one more run.
proof fn lemma_runs_grow(a: Seq<Seq<Side>>, run: Seq<Side>)
    ensures
        forall|s: Side| #[trigger]
            on_runs(a.push(run), (a.len() + 1) as int).contains(s) == (on_runs(a, a.len() as int).contains(s)
                || run.contains(s)),
{
    let b = a.push(run);
    let k = a.len() as int;
    assert forall|s: Side| #[trigger] on_runs(b, k + 1).contains(s) == (on_runs(a, k).contains(s)
        || run.contains(s)) by {
        if run.contains(s) {
            assert(b[k].contains(s));
        }
        if on_runs(a, k).contains(s) {
            let r = choose|r: int| 0 <= r < k && #[trigger] a[r].contains(s);
            assert(b[r].contains(s));
        }
        if on_runs(b, k + 1).contains(s) && !run.contains(s) {
            let r = choose|r: int| 0 <= r < k + 1 && #[trigger] b[r].contains(s);
            assert(a[r].contains(s));
        }
    }
}

/// Adding runs changes nothing of what the earlier ones visit.
proof fn lemma_runs_prefix(a: Seq<Seq<Side>>, b: Seq<Seq<Side>>, k: int)
    requires
        0 <= k <= a.len() <= b.len(),
        forall|r: int| 0 <= r < a.len() ==> #[trigger] a[r] == b[r],
    ensures
        on_runs(a, k) == on_runs(b, k),
{
    assert forall|p: Side| on_runs(a, k).contains(p) == on_runs(b, k).contains(p) by {
        if on_runs(a, k).contains(p) {
            let r = choose|r: int| 0 <= r < k && #[trigger] a[r].contains(p);
            assert(b[r].contains(p));
        }
        if on_runs(b, k).contains(p) {
            let r = choose|r: int| 0 <= r < k && #[trigger] b[r].contains(p);
            assert(a[r].contains(p));
        }
    }
    assert(on_runs(a, k) =~= on_runs(b, k));
}

fn corners_on(run: &Vec<Side>) -> (pts: Vec<Point>)
    ensures
        pts@ == corners_of(run@),
{
    let mut pts: Vec<Point> = Vec::new();
    for a in 0..run.len()
        invariant
            pts@.len() == a,
            forall|j: int| 0 <= j < a ==> #[trigger] pts@[j] == (run@[j].0, run@[j].1),
    {
        pts.push((run[a].0, run[a].1));
    }
    proof {
        assert(pts@ =~= corners_of(run@));
    }
    pts
}

proof fn lemma_turning_points(pts: Seq<Point>, k: int)
    requires
        0 <= k <= pts.len(),
    ensures
        forall|a: int|
            0 <= a < turning(pts, k).len() ==> pts.contains(#[trigger] turning(pts, k)[a]),
    decreases k,
{
    if k > 0 {
        lemma_turning_points(pts, k - 1);
        assert(pts.contains(pts[k - 1]));
        let r = turning(pts, k - 1);
        let s = turning(pts, k);
        assert forall|a: int| 0 <= a < s.len() implies pts.contains(#[trigger] s[a]) by {
            if a < r.len() {
                assert(s[a] == r[a]);
            }
        }
    }
}

/// Traces the outlines of a mask: first the rings that enclose material, then the holes.
/// Rings of a doubled area under `min_area2` are left out.
pub fn trace(keep: &[bool], w: usize, h: usize, min_area2: u64) -> (r: (
    Vec<Vec<Point>>,
    Vec<Vec<Point>>,
))
    requires
        keep@.len() == w * h,
        w < MAX_SIDE,
        h < MAX_SIDE,
        4 * ((w + 1) * (h + 1)) <= usize::MAX,
    ensures
        exists|runs: Seq<Seq<Side>>| #[trigger]
            all_runs(keep@, w as int, h as int, runs) && ring_views(r.0@) == rings_of(
                runs,
                min_area2 as int,
                true,
                runs.len() as int,
            ) && ring_views(r.1@) == rings_of(runs, min_area2 as int, false, runs.len() as int),
        rings_ok(r.0@),
        rings_ok(r.1@),
{
    let runs: Vec<Vec<Side>> = follow_all(keep, w, h);
    let ghost views = run_views(runs@);
    let mut outers: Vec<Vec<Point>> = Vec::new();
    let mut holes: Vec<Vec<Point>> = Vec::new();
    for k in 0..runs.len()
        invariant
            views == run_views(runs@),
            w < MAX_SIDE,
            h < MAX_SIDE,
            all_runs(keep@, w as int, h as int, views),
            ring_views(outers@) == rings_of(views, min_area2 as int, true, k as int),
            ring_views(holes@) == rings_of(views, min_area2 as int, false, k as int),
            rings_ok(outers@),
            rings_ok(holes@),
    {
        let run: Vec<Point> = corners_on(&runs[k]);
        proof {
            let sides = runs@[k as int]@;
            assert(views[k as int] == sides);
            assert(run_ok(keep@, w as int, h as int, views, k as int));
            assert forall|a: int| 0 <= a < run@.len() implies is_corner(
                w as int,
                h as int,
                #[trigger] run@[a],
            ) by {
                lemma_goes_on(keep@, w as int, h as int, sides[a]);
            }
            lemma_turning_points(run@, run@.len() as int);
        }
        let ring: Vec<Point> = collapse_collinear(run.as_slice());
        proof {
            assert forall|a: int| 0 <= a < ring@.len() implies 0 <= (#[trigger] ring@[a]).0
                <= MAX_SIDE && 0 <= ring@[a].1 <= MAX_SIDE by {
                assert(run@.contains(ring@[a]));
                let b = run@.index_of(ring@[a]);
                assert(is_corner(w as int, h as int, run@[b]));
            }
            assert(on_lattice(ring@));
        }
        let a: i128 = signed_area2(ring.as_slice());
        let m: i128 = min_area2 as i128;
        let ghost o0 = outers@;
        let ghost h0 = holes@;
        let ghost pts = ring@;
        if run.len() >= 3 && (a >= m || a <= -m) {
            if a < 0 {
                outers.push(ring);
                proof {
                    assert(ring_views(outers@) =~= ring_views(o0).push(pts));
                }
            } else {
                holes.push(ring);
                proof {
                    assert(ring_views(holes@) =~= ring_views(h0).push(pts));
                }
            }
        }
    }
    (outers, holes)
}

/// Every outline closes, whatever the mask: from each of its corners to the next, and from
/// the last to the first, it takes one step along a side, with material on its left and none
/// on its right.
pub proof fn lemma_outlines_close(
    keep: Seq<bool>,
    w: int,
    h: int,
    runs: Seq<Seq<Side>>,
    r: int,
    a: int,
)
    requires
        all_runs(keep, w, h, runs),
        0 <= r < runs.len(),
        0 <= a < runs[r].len(),
    ensures
        has_side(keep, w, h, runs[r][a]),
        side_end(runs[r][a]) == corners_of(runs[r])[if a == runs[r].len() - 1 { 0 } else { a + 1 }],
{
    assert(run_ok(keep, w, h, runs, r));
    let run = runs[r];
    assert(has_side(keep, w, h, run[a]));
    if a < run.len() - 1 {
        assert(next_side(keep, w, h, run[a]) == run[a + 1]);
    }
}

/// No side is traced twice, and none is left out.
pub proof fn lemma_sides_once(keep: Seq<bool>, w: int, h: int, runs: Seq<Seq<Side>>, s: Side)
    requires
        all_runs(keep, w, h, runs),
        has_side(keep, w, h, s),
    ensures
        exists|r: int| 0 <= r < runs.len() && #[trigger] runs[r].contains(s),
        forall|r: int, q: int|
            0 <= r < q < runs.len() && #[trigger] runs[r].contains(s) ==> !(
            #[trigger] runs[q].contains(s)),
{
    assert(on_runs(runs, runs.len() as int).contains(s));
    assert forall|r: int, q: int|
        0 <= r < q < runs.len() && #[trigger] runs[r].contains(s) implies !(
    #[trigger] runs[q].contains(s)) by {
        assert(run_ok(keep, w, h, runs, q));
        if runs[q].contains(s) {
            let a = runs[q].index_of(s);
            assert(!on_runs(runs, q).contains(runs[q][a]));
        }
    }
}

} // verus!
