//! Which way a map changes at every cell, told by one of several directions.

use crate::blur::{blurred, gaussian, kernel_ok, lemma_flat_stays, values_ok};
use crate::lattice::MAX_CANVAS;
use crate::screen::{tones_ok, FULL};
use vstd::prelude::*;

verus! {

/// A difference of two tones, on a coarser scale.
pub open spec fn coarse(d: int) -> int {
    if d < 0 {
        -((-d) / 2048)
    } else {
        d / 2048
    }
}

/// The index nearest to `x` that has a neighbour on both sides.
pub open spec fn inner(x: int, n: int) -> int {
    if x < 1 {
        1
    } else if x > n - 2 {
        n - 2
    } else {
        x
    }
}

/// How a map changes at a cell: from left to right, and from top to bottom.
pub open spec fn slope(map: Seq<i64>, w: int, h: int, i: int) -> (int, int) {
    let (x, y) = (inner(i % w, w), inner(i / w, h));
    (
        coarse(map[y * w + x + 1] - map[y * w + x - 1]),
        coarse(map[(y + 1) * w + x] - map[(y - 1) * w + x]),
    )
}

/// The products of the slopes at every cell: of the first with itself, of the second, and of
/// both.
pub open spec fn products(map: Seq<i64>, w: int, h: int, which: int) -> Seq<i64> {
    Seq::new(
        map.len(),
        |i: int|
            {
                let g = slope(map, w, h, i);
                if which == 0 {
                    (g.0 * g.0) as i64
                } else if which == 1 {
                    (g.1 * g.1) as i64
                } else {
                    (g.0 * g.1) as i64
                }
            },
    )
}

/// The direction in which a map changes around a cell, at twice its angle.
pub open spec fn doubled(map: Seq<i64>, w: int, h: int, kernel: Seq<i64>, i: int) -> (int, int) {
    (
        blurred(products(map, w, h, 0), w, h, kernel)[i] - blurred(
            products(map, w, h, 1),
            w,
            h,
            kernel,
        )[i],
        2 * blurred(products(map, w, h, 2), w, h, kernel)[i],
    )
}

/// Whether a direction lies in the first half of a turn.
pub open spec fn first_half(v: (int, int)) -> bool {
    v.1 > 0 || (v.1 == 0 && v.0 >= 0)
}

/// Whether direction `u` comes no later in a turn than `v`.
pub open spec fn no_later(u: (int, int), v: (int, int)) -> bool {
    if first_half(u) != first_half(v) {
        first_half(u)
    } else {
        u.0 * v.1 - u.1 * v.0 >= 0
    }
}

/// The last of the first `k` directions that comes no later than `v`; the first one where
/// `v` has none.
pub open spec fn sector(dirs: Seq<(i64, i64)>, v: (int, int), k: int) -> int
    decreases k,
{
    if k <= 1 || v == (0int, 0int) {
        0
    } else if no_later((dirs[k - 1].0 as int, dirs[k - 1].1 as int), v) {
        k - 1
    } else {
        sector(dirs, v, k - 1)
    }
}

/// Whether directions lie within the scale.
pub open spec fn dirs_ok(dirs: Seq<(i64, i64)>) -> bool {
    &&& dirs.len() > 0
    &&& forall|k: int|
        0 <= k < dirs.len() ==> -0x4000_0000 <= (#[trigger] dirs[k]).0 <= 0x4000_0000
            && -0x4000_0000 <= dirs[k].1 <= 0x4000_0000
}

fn coarse_of(a: i64, b: i64) -> (c: i64)
    requires
        0 <= a <= FULL,
        0 <= b <= FULL,
    ensures
        c == coarse(a - b),
        -0x2000_0000 <= c <= 0x2000_0000,
{
    let d: i64 = a - b;
    if d < 0 {
        -((-d) / 2048)
    } else {
        d / 2048
    }
}

fn inner_of(x: usize, n: usize) -> (r: usize)
    requires
        3 <= n,
        x < n,
    ensures
        r == inner(x as int, n as int),
        1 <= r <= n - 2,
{
    if x < 1 {
        1
    } else if x > n - 2 {
        n - 2
    } else {
        x
    }
}

fn slope_at(map: &[i64], w: usize, h: usize, i: usize) -> (g: (i64, i64))
    requires
        3 <= w <= MAX_CANVAS,
        3 <= h <= MAX_CANVAS,
        map@.len() == w * h,
        tones_ok(map@),
        i < w * h,
    ensures
        (g.0 as int, g.1 as int) == slope(map@, w as int, h as int, i as int),
        -0x2000_0000 <= g.0 <= 0x2000_0000,
        -0x2000_0000 <= g.1 <= 0x2000_0000,
{
    let len: usize = map.len();
    proof {
        let (a, b, c) = (i as int, w as int, h as int);
        assert(a / b < c) by (nonlinear_arith)
            requires
                0 <= a < b * c,
                b > 0,
        ;
    }
    let x: usize = inner_of(i % w, w);
    let y: usize = inner_of(i / w, h);
    proof {
        lemma_around(w as int, h as int, x as int, y as int);
    }
    let at: usize = y * w + x;
    (coarse_of(map[at + 1], map[at - 1]), coarse_of(map[at + w], map[at - w]))
}

proof fn lemma_around(w: int, h: int, x: int, y: int)
    by (nonlinear_arith)
    requires
        1 <= x <= w - 2,
        1 <= y <= h - 2,
    ensures
        0 <= y * w,
        w <= y * w,
        y * w + x + w < w * h,
        (y + 1) * w + x == y * w + x + w,
        (y - 1) * w + x == y * w + x - w,
{
}

proof fn lemma_product(a: int, b: int)
    by (nonlinear_arith)
    requires
        -0x2000_0000 <= a <= 0x2000_0000,
        -0x2000_0000 <= b <= 0x2000_0000,
    ensures
        -0x400_0000_0000_0000 <= a * b <= 0x400_0000_0000_0000,
{
}

fn products_of(map: &[i64], w: usize, h: usize, which: u8) -> (r: Vec<i64>)
    requires
        3 <= w <= MAX_CANVAS,
        3 <= h <= MAX_CANVAS,
        map@.len() == w * h,
        tones_ok(map@),
    ensures
        r@ == products(map@, w as int, h as int, which as int),
        values_ok(r@),
{
    let n: usize = map.len();
    let ghost want = products(map@, w as int, h as int, which as int);
    let mut r: Vec<i64> = Vec::new();
    for i in 0..n
        invariant
            n == map@.len(),
            3 <= w <= MAX_CANVAS,
            3 <= h <= MAX_CANVAS,
            map@.len() == w * h,
            tones_ok(map@),
            want == products(map@, w as int, h as int, which as int),
            r@.len() == i,
            values_ok(r@),
            forall|j: int| 0 <= j < i ==> #[trigger] r@[j] == want[j],
    {
        let (a, b) = slope_at(map, w, h, i);
        proof {
            lemma_product(a as int, a as int);
            lemma_product(b as int, b as int);
            lemma_product(a as int, b as int);
        }
        r.push(
            if which == 0 {
                a * a
            } else if which == 1 {
                b * b
            } else {
                a * b
            },
        );
    }
    proof {
        assert(r@ =~= want);
    }
    r
}

fn in_first_half(v: (i128, i128)) -> (r: bool)
    ensures
        r == first_half((v.0 as int, v.1 as int)),
{
    v.1 > 0 || (v.1 == 0 && v.0 >= 0)
}

fn sector_of(dirs: &[(i64, i64)], v: (i128, i128)) -> (b: usize)
    requires
        dirs_ok(dirs@),
        -0x1_0000_0000_0000_0000 <= v.0 <= 0x1_0000_0000_0000_0000,
        -0x1_0000_0000_0000_0000 <= v.1 <= 0x1_0000_0000_0000_0000,
    ensures
        b == sector(dirs@, (v.0 as int, v.1 as int), dirs@.len() as int),
        b < dirs@.len(),
{
    let mut k: usize = dirs.len();
    if v.0 == 0 && v.1 == 0 {
        return 0;
    }
    let half: bool = in_first_half(v);
    while k > 1
        invariant
            1 <= k <= dirs@.len(),
            dirs_ok(dirs@),
            (v.0 as int, v.1 as int) != (0int, 0int),
            half == first_half((v.0 as int, v.1 as int)),
            -0x1_0000_0000_0000_0000 <= v.0 <= 0x1_0000_0000_0000_0000,
            -0x1_0000_0000_0000_0000 <= v.1 <= 0x1_0000_0000_0000_0000,
            sector(dirs@, (v.0 as int, v.1 as int), dirs@.len() as int) == sector(
                dirs@,
                (v.0 as int, v.1 as int),
                k as int,
            ),
        decreases k,
    {
        let d: (i64, i64) = dirs[k - 1];
        let u: (i128, i128) = (d.0 as i128, d.1 as i128);
        let before: bool = in_first_half(u);
        proof {
            lemma_cross(u.0 as int, v.1 as int);
            lemma_cross(u.1 as int, v.0 as int);
        }
        let reached: bool = if before != half { before } else { u.0 * v.1 - u.1 * v.0 >= 0 };
        if reached {
            return k - 1;
        }
        k = k - 1;
    }
    0
}

proof fn lemma_cross(a: int, b: int)
    by (nonlinear_arith)
    requires
        -0x4000_0000 <= a <= 0x4000_0000,
        -0x1_0000_0000_0000_0000 <= b <= 0x1_0000_0000_0000_0000,
    ensures
        -0x4000_0000 * 0x1_0000_0000_0000_0000 <= a * b <= 0x4000_0000 * 0x1_0000_0000_0000_0000,
{
}

/// The most angles that a hatch may have.
pub const MAX_BINS: u32 = 24;

/// How many angles a hatch has: as many as are asked for, but one at least and no more than
/// `MAX_BINS`.
pub fn bin_count(asked: u32) -> (n: usize)
    ensures
        1 <= n <= MAX_BINS,
        1 <= asked <= MAX_BINS ==> n == asked,
        asked < 1 ==> n == 1,
        asked > MAX_BINS ==> n == MAX_BINS,
{
    if asked < 1 {
        1
    } else if asked > MAX_BINS {
        MAX_BINS as usize
    } else {
        asked as usize
    }
}

/// The direction, among those of `dirs`, in which a map changes around every cell. The
/// directions stand in order over a whole turn, at twice their angle; the kernel says how
/// far around a cell its change is gathered.
pub fn orientation_bins(
    map: &[i64],
    w: usize,
    h: usize,
    kernel: &[i64],
    dirs: &[(i64, i64)],
) -> (bins: Vec<usize>)
    requires
        3 <= w <= MAX_CANVAS,
        3 <= h <= MAX_CANVAS,
        map@.len() == w * h,
        tones_ok(map@),
        kernel_ok(kernel@),
        dirs_ok(dirs@),
    ensures
        bins@.len() == w * h,
        forall|i: int|
            0 <= i < bins@.len() ==> #[trigger] bins@[i] == sector(
                dirs@,
                doubled(map@, w as int, h as int, kernel@, i),
                dirs@.len() as int,
            ),
        forall|i: int| 0 <= i < bins@.len() ==> #[trigger] bins@[i] < dirs@.len(),
{
    let pxx: Vec<i64> = products_of(map, w, h, 0);
    let pyy: Vec<i64> = products_of(map, w, h, 1);
    let pxy: Vec<i64> = products_of(map, w, h, 2);
    let xx: Vec<i64> = gaussian(pxx.as_slice(), w, h, kernel);
    let yy: Vec<i64> = gaussian(pyy.as_slice(), w, h, kernel);
    let xy: Vec<i64> = gaussian(pxy.as_slice(), w, h, kernel);
    let n: usize = map.len();
    let mut bins: Vec<usize> = Vec::new();
    for i in 0..n
        invariant
            n == w * h,
            dirs_ok(dirs@),
            xx@ == blurred(products(map@, w as int, h as int, 0), w as int, h as int, kernel@),
            yy@ == blurred(products(map@, w as int, h as int, 1), w as int, h as int, kernel@),
            xy@ == blurred(products(map@, w as int, h as int, 2), w as int, h as int, kernel@),
            xx@.len() == n,
            yy@.len() == n,
            xy@.len() == n,
            values_ok(xx@),
            values_ok(yy@),
            values_ok(xy@),
            bins@.len() == i,
            forall|j: int|
                0 <= j < i ==> #[trigger] bins@[j] == sector(
                    dirs@,
                    doubled(map@, w as int, h as int, kernel@, j),
                    dirs@.len() as int,
                ),
            forall|j: int| 0 <= j < i ==> #[trigger] bins@[j] < dirs@.len(),
    {
        let v: (i128, i128) = (xx[i] as i128 - yy[i] as i128, 2 * xy[i] as i128);
        bins.push(sector_of(dirs, v));
    }
    bins
}

/// A flat map takes the first direction everywhere.
pub proof fn lemma_flat_first(
    map: Seq<i64>,
    w: int,
    h: int,
    kernel: Seq<i64>,
    dirs: Seq<(i64, i64)>,
    v: i64,
    i: int,
)
    requires
        3 <= w,
        3 <= h,
        map.len() == w * h,
        kernel_ok(kernel),
        forall|j: int| 0 <= j < map.len() ==> #[trigger] map[j] == v,
        0 <= i < map.len(),
    ensures
        sector(dirs, doubled(map, w, h, kernel, i), dirs.len() as int) == 0,
{
    assert forall|j: int| 0 <= j < map.len() implies #[trigger] slope(map, w, h, j) == (
        0int,
        0int,
    ) by {
        assert(0 <= j / w < h) by (nonlinear_arith)
            requires
                0 <= j < w * h,
                w > 0,
        ;
        lemma_around(w, h, inner(j % w, w), inner(j / w, h));
    }
    assert(0int * 0int == 0) by (nonlinear_arith);
    assert forall|which: int, j: int| 0 <= j < map.len() implies #[trigger] products(
        map,
        w,
        h,
        which,
    )[j] == 0 by {
        assert(slope(map, w, h, j) == (0int, 0int));
    }
    lemma_flat_stays(products(map, w, h, 0), w, h, kernel, 0, i);
    lemma_flat_stays(products(map, w, h, 1), w, h, kernel, 0, i);
    lemma_flat_stays(products(map, w, h, 2), w, h, kernel, 0, i);
}

/// The map of one direction: what it holds where that direction is taken, nothing elsewhere.
pub fn mask_bin(map: &[i64], bins: &[usize], b: usize) -> (r: Vec<i64>)
    requires
        map@.len() == bins@.len(),
        tones_ok(map@),
    ensures
        r@.len() == map@.len(),
        tones_ok(r@),
        forall|i: int|
            0 <= i < r@.len() ==> #[trigger] r@[i] == if bins@[i] == b {
                map@[i]
            } else {
                0
            },
{
    let mut r: Vec<i64> = Vec::new();
    for i in 0..map.len()
        invariant
            map@.len() == bins@.len(),
            tones_ok(map@),
            r@.len() == i,
            tones_ok(r@),
            forall|j: int|
                0 <= j < i ==> #[trigger] r@[j] == if bins@[j] == b {
                    map@[j]
                } else {
                    0
                },
    {
        r.push(if bins[i] == b { map[i] } else { 0 });
    }
    r
}

} // verus!
