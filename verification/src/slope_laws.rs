//! Which way a map is found to change.

use crate::blur::{
    blurred, blurred_across, blurred_at, column_of, kernel_ok, lemma_blur_between, lemma_cell,
    row_of,
};
use crate::orientation::{coarse, doubled, inner, products, sector, slope};
use crate::screen::tones_ok;
use vstd::prelude::*;

verus! {

/// A difference of tones is told in steps of 2048, towards nothing.
pub proof fn lemma_coarse(d: int)
    ensures
        d >= 0 ==> coarse(d) * 2048 <= d < (coarse(d) + 1) * 2048,
        coarse(-d) == -coarse(d),
{
}

/// Away from the edges a map changes at a cell by the difference of the cells right and left
/// of it, and by that of those below and above.
pub proof fn lemma_slope(map: Seq<i64>, w: int, h: int, x: int, y: int)
    requires
        1 <= x <= w - 2,
        1 <= y <= h - 2,
    ensures
        slope(map, w, h, y * w + x) == (
            coarse(map[y * w + x + 1] - map[y * w + x - 1]),
            coarse(map[(y + 1) * w + x] - map[(y - 1) * w + x]),
        ),
{
    lemma_cell(w, h, x, y);
}

proof fn lemma_inner(map: Seq<i64>, w: int, h: int, i: int) -> (xy: (int, int))
    requires
        3 <= w,
        3 <= h,
        map.len() == w * h,
        tones_ok(map),
        0 <= i < map.len(),
    ensures
        ({
            let (x, y) = xy;
            &&& 1 <= x <= w - 2
            &&& 1 <= y <= h - 2
            &&& slope(map, w, h, i) == (
                coarse(map[y * w + (x + 1)] - map[y * w + (x - 1)]),
                coarse(map[(y + 1) * w + x] - map[(y - 1) * w + x]),
            )
            &&& -0x2000_0000 <= slope(map, w, h, i).0 <= 0x2000_0000
            &&& -0x2000_0000 <= slope(map, w, h, i).1 <= 0x2000_0000
        }),
{
    assert(0 <= i / w < h) by (nonlinear_arith)
        requires
            0 <= i < w * h,
            w > 0,
    ;
    let x = inner(i % w, w);
    let y = inner(i / w, h);
    lemma_cell(w, h, x + 1, y);
    lemma_cell(w, h, x - 1, y);
    lemma_cell(w, h, x, y + 1);
    lemma_cell(w, h, x, y - 1);
    assert(0 <= map[y * w + (x + 1)] <= 0x100_0000_0000 && 0 <= map[y * w + (x - 1)]
        <= 0x100_0000_0000);
    assert(0 <= map[(y + 1) * w + x] <= 0x100_0000_0000 && 0 <= map[(y - 1) * w + x]
        <= 0x100_0000_0000);
    (x, y)
}

/// A blurred map lies between bounds that hold everywhere.
proof fn lemma_blurred_between(map: Seq<i64>, w: int, h: int, kernel: Seq<i64>, lo: i64, hi: i64, i: int)
    requires
        0 < w,
        0 < h,
        map.len() == w * h,
        kernel_ok(kernel),
        forall|j: int| 0 <= j < map.len() ==> lo <= #[trigger] map[j] <= hi,
        0 <= i < map.len(),
    ensures
        lo <= blurred(map, w, h, kernel)[i] <= hi,
{
    let across = blurred_across(map, w, kernel);
    assert forall|j: int| 0 <= j < across.len() implies lo <= #[trigger] across[j] <= hi by {
        assert(0 <= j / w < h) by (nonlinear_arith)
            requires
                0 <= j < w * h,
                w > 0,
        ;
        let line = row_of(map, w, j / w);
        assert forall|k: int| 0 <= k < line.len() implies lo <= #[trigger] line[k] <= hi by {
            lemma_cell(w, h, k, j / w);
        }
        lemma_blur_between(line, kernel, j % w, lo as int, hi as int);
    }
    assert(0 <= i % w < w);
    let col = column_of(across, w, h, i % w);
    assert forall|k: int| 0 <= k < col.len() implies lo <= #[trigger] col[k] <= hi by {
        lemma_cell(w, h, i % w, k);
    }
    lemma_blur_between(col, kernel, i / w, lo as int, hi as int);
    assert(blurred(map, w, h, kernel)[i] == blurred_at(col, kernel, i / w) as i64);
}

/// The bound on a product of slopes.
pub const MOST: i64 = 0x400_0000_0000_0000;

proof fn lemma_products(map: Seq<i64>, w: int, h: int, i: int)
    requires
        3 <= w,
        3 <= h,
        map.len() == w * h,
        tones_ok(map),
        0 <= i < map.len(),
    ensures
        ({
            let g = slope(map, w, h, i);
            &&& products(map, w, h, 0)[i] == g.0 * g.0
            &&& products(map, w, h, 1)[i] == g.1 * g.1
            &&& products(map, w, h, 2)[i] == g.0 * g.1
            &&& 0 <= g.0 * g.0 <= MOST
            &&& 0 <= g.1 * g.1 <= MOST
            &&& -MOST <= g.0 * g.1 <= MOST
        }),
{
    lemma_inner(map, w, h, i);
    let g = slope(map, w, h, i);
    let (a, b) = (g.0, g.1);
    assert(0 <= a * a <= MOST && 0 <= b * b <= MOST && -MOST <= a * b <= MOST) by (nonlinear_arith)
        requires
            -0x2000_0000 <= a <= 0x2000_0000,
            -0x2000_0000 <= b <= 0x2000_0000,
            MOST == 0x400_0000_0000_0000,
    ;
}

/// A map that changes from left to right only is told so at every cell: its direction lies on
/// the first axis, at nothing when doubled.
pub proof fn lemma_change_across(map: Seq<i64>, w: int, h: int, kernel: Seq<i64>, i: int)
    requires
        3 <= w,
        3 <= h,
        map.len() == w * h,
        tones_ok(map),
        kernel_ok(kernel),
        forall|x: int, y: int, z: int|
            #![trigger map[y * w + x], map[z * w + x]]
            0 <= x < w && 0 <= y < h && 0 <= z < h ==> map[y * w + x] == map[z * w + x],
        0 <= i < map.len(),
    ensures
        doubled(map, w, h, kernel, i).0 >= 0,
        doubled(map, w, h, kernel, i).1 == 0,
{
    let (p, q, r) = (products(map, w, h, 0), products(map, w, h, 1), products(map, w, h, 2));
    assert forall|j: int| 0 <= j < map.len() implies 0 <= #[trigger] p[j] <= MOST && q[j] == 0
        && r[j] == 0 by {
        lemma_products(map, w, h, j);
        let (x, y) = lemma_inner(map, w, h, j);
        assert(map[(y + 1) * w + x] == map[(y - 1) * w + x]);
        let g = slope(map, w, h, j);
        assert(g.1 == 0);
        assert(g.0 * g.1 == 0 && g.1 * g.1 == 0) by (nonlinear_arith)
            requires
                g.1 == 0,
        ;
    }
    assert forall|j: int| 0 <= j < q.len() implies 0 <= #[trigger] q[j] <= 0 by {
        assert(p[j] >= 0);
    }
    assert forall|j: int| 0 <= j < r.len() implies 0 <= #[trigger] r[j] <= 0 by {
        assert(p[j] >= 0);
    }
    lemma_blurred_between(p, w, h, kernel, 0, MOST, i);
    lemma_blurred_between(q, w, h, kernel, 0, 0, i);
    lemma_blurred_between(r, w, h, kernel, 0, 0, i);
}

/// A map that changes from top to bottom only is told so at every cell: its direction lies on
/// the second axis, half a turn from the first when doubled.
pub proof fn lemma_change_down(map: Seq<i64>, w: int, h: int, kernel: Seq<i64>, i: int)
    requires
        3 <= w,
        3 <= h,
        map.len() == w * h,
        tones_ok(map),
        kernel_ok(kernel),
        forall|x: int, y: int, z: int|
            #![trigger map[y * w + x], map[y * w + z]]
            0 <= x < w && 0 <= y < h && 0 <= z < w ==> map[y * w + x] == map[y * w + z],
        0 <= i < map.len(),
    ensures
        doubled(map, w, h, kernel, i).0 <= 0,
        doubled(map, w, h, kernel, i).1 == 0,
{
    let (p, q, r) = (products(map, w, h, 0), products(map, w, h, 1), products(map, w, h, 2));
    assert forall|j: int| 0 <= j < map.len() implies 0 <= #[trigger] q[j] <= MOST && p[j] == 0
        && r[j] == 0 by {
        lemma_products(map, w, h, j);
        let (x, y) = lemma_inner(map, w, h, j);
        assert(map[y * w + (x + 1)] == map[y * w + (x - 1)]);
        let g = slope(map, w, h, j);
        assert(g.0 == 0);
        assert(g.0 * g.1 == 0 && g.0 * g.0 == 0) by (nonlinear_arith)
            requires
                g.0 == 0,
        ;
    }
    assert forall|j: int| 0 <= j < p.len() implies 0 <= #[trigger] p[j] <= 0 by {
        assert(q[j] >= 0);
    }
    assert forall|j: int| 0 <= j < r.len() implies 0 <= #[trigger] r[j] <= 0 by {
        assert(q[j] >= 0);
    }
    lemma_blurred_between(q, w, h, kernel, 0, MOST, i);
    lemma_blurred_between(p, w, h, kernel, 0, 0, i);
    lemma_blurred_between(r, w, h, kernel, 0, 0, i);
}

/// Whether every cell of a map holds the value that `line` holds for its diagonal: where `down`
/// is 1 the diagonals run down to the left, where it is -1 down to the right.
pub open spec fn is_diagonal(map: Seq<i64>, w: int, h: int, line: spec_fn(int) -> i64, down: int) -> bool {
    forall|x: int, y: int|
        #![trigger map[y * w + x]]
        0 <= x < w && 0 <= y < h ==> map[y * w + x] == line(x + down * y)
}

/// A map that changes along a diagonal only is told so at every cell: a quarter of a turn from
/// the first axis when doubled, to one side or the other.
pub proof fn lemma_change_diagonal(
    map: Seq<i64>,
    w: int,
    h: int,
    kernel: Seq<i64>,
    line: spec_fn(int) -> i64,
    down: int,
    i: int,
)
    requires
        3 <= w,
        3 <= h,
        map.len() == w * h,
        tones_ok(map),
        kernel_ok(kernel),
        down == 1 || down == -1,
        is_diagonal(map, w, h, line, down),
        0 <= i < map.len(),
    ensures
        doubled(map, w, h, kernel, i).0 == 0,
        down == 1 ==> doubled(map, w, h, kernel, i).1 >= 0,
        down == -1 ==> doubled(map, w, h, kernel, i).1 <= 0,
{
    let (p, q, r) = (products(map, w, h, 0), products(map, w, h, 1), products(map, w, h, 2));
    assert forall|j: int| 0 <= j < map.len() implies #[trigger] p[j] == q[j] && r[j] == down * p[j]
        && 0 <= p[j] <= MOST by {
        lemma_products(map, w, h, j);
        let (x, y) = lemma_inner(map, w, h, j);
        assert(map[y * w + (x + 1)] == line(x + 1 + down * y));
        assert(map[y * w + (x - 1)] == line(x - 1 + down * y));
        assert(map[(y + 1) * w + x] == line(x + down * (y + 1)));
        assert(map[(y - 1) * w + x] == line(x + down * (y - 1)));
        assert(down * (y + 1) == down * y + down && down * (y - 1) == down * y - down)
            by (nonlinear_arith);
        let g = slope(map, w, h, j);
        assert(g.1 == down * g.0);
        let (a, b) = (g.0, g.1);
        assert(b * b == a * a && a * b == down * (a * a)) by (nonlinear_arith)
            requires
                b == down * a,
                down == 1 || down == -1,
        ;
    }
    assert(p =~= q) by {
        assert forall|j: int| 0 <= j < p.len() implies #[trigger] p[j] == q[j] by {}
    }
    if down == 1 {
        assert forall|j: int| 0 <= j < r.len() implies 0 <= #[trigger] r[j] <= MOST by {
            assert(p[j] == q[j]);
        }
        lemma_blurred_between(r, w, h, kernel, 0, MOST, i);
    } else {
        assert forall|j: int| 0 <= j < r.len() implies -MOST <= #[trigger] r[j] <= 0 by {
            assert(p[j] == q[j]);
        }
        lemma_blurred_between(r, w, h, kernel, (-MOST) as i64, 0, i);
    }
}

/// Whether direction `u` lies no farther round than `v`, both counted from the first axis
/// towards the second: one in the half turn before, or the turn from `u` to `v` not backwards.
pub open spec fn no_farther(u: (int, int), v: (int, int)) -> bool {
    let a = u.1 > 0 || (u.1 == 0 && u.0 >= 0);
    let b = v.1 > 0 || (v.1 == 0 && v.0 >= 0);
    (a && !b) || (a == b && u.0 * v.1 >= u.1 * v.0)
}

/// A direction falls to the last of the given ones that lies no farther round: none after
/// that one does. No direction at all falls to the first.
pub proof fn lemma_sector(dirs: Seq<(i64, i64)>, v: (int, int), j: int)
    requires
        dirs.len() > 0,
    ensures
        ({
            let k = sector(dirs, v, dirs.len() as int);
            &&& 0 <= k < dirs.len()
            &&& v == (0int, 0int) ==> k == 0
            &&& v != (0int, 0int) && k > 0 ==> no_farther((dirs[k].0 as int, dirs[k].1 as int), v)
            &&& v != (0int, 0int) && k < j < dirs.len() ==> !no_farther(
                (dirs[j].0 as int, dirs[j].1 as int),
                v,
            )
        }),
{
    lemma_sector_to(dirs, v, dirs.len() as int, j);
}

proof fn lemma_sector_to(dirs: Seq<(i64, i64)>, v: (int, int), n: int, j: int)
    requires
        0 < n <= dirs.len(),
    ensures
        ({
            let k = sector(dirs, v, n);
            &&& 0 <= k < n
            &&& v == (0int, 0int) ==> k == 0
            &&& v != (0int, 0int) && k > 0 ==> no_farther((dirs[k].0 as int, dirs[k].1 as int), v)
            &&& v != (0int, 0int) && k < j < n ==> !no_farther(
                (dirs[j].0 as int, dirs[j].1 as int),
                v,
            )
        }),
    decreases n,
{
    if n > 1 {
        lemma_sector_to(dirs, v, n - 1, j);
    }
}

} // verus!
