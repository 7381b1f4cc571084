//! Dot screens: one dot for each cell of a grid, its size by tone; and dots of diffused
//! tone.

use crate::arith::floor_div;
use crate::lattice::{
    ceil_div, cut_extent, extent, milli, place_of, to_milli, Cut, Lattice, MAX_CANVAS, MAX_PLACE,
    MAX_SPACING, PX, TURN,
};
use crate::raster::points_ok;
use crate::screen::{column_at, diffuse, dots_upto, tones_ok, FULL};
use crate::strokes::{across_of, counts_of, lemma_reach_unique, screen_counts};
use crate::svg::Ribbon;
use crate::trace::Point;
use vstd::prelude::*;

verus! {

/// A dot on the canvas: its centre and its radius.
#[derive(Clone, Copy, Debug, PartialEq, Eq, Structural)]
pub struct Dot {
    pub x: i64,
    pub y: i64,
    pub r: i64,
}

/// Where the cell in row `i` and column `j` of a dot screen has its centre; the screen has
/// `2 * n + 1` of each.
pub open spec fn cell_place(l: Lattice, n: int, i: int, j: int) -> (int, int) {
    l.place((i - n) * l.spacing, (j - n) * l.spacing)
}

/// The dot of a cell: none off the canvas, or where the tone is not cut.
pub open spec fn cell_dot(l: Lattice, c: Cut, tones: Seq<i64>, n: int, i: int, j: int) -> Option<
    Dot,
> {
    let p = cell_place(l, n, i, j);
    let r = extent(tones[i * (2 * n + 1) + j] as int, l.spacing as int, c) / 2;
    if 0 <= p.0 < l.w * PX && 0 <= p.1 < l.h * PX && r > 0 {
        Some(Dot { x: p.0 as i64, y: p.1 as i64, r: r as i64 })
    } else {
        None
    }
}

/// The dots of the first `j` cells of row `i`.
pub open spec fn row_dots(l: Lattice, c: Cut, tones: Seq<i64>, n: int, i: int, j: int) -> Seq<
    Dot,
>
    decreases j,
{
    if j <= 0 {
        Seq::empty()
    } else {
        match cell_dot(l, c, tones, n, i, j - 1) {
            Some(d) => row_dots(l, c, tones, n, i, j - 1).push(d),
            None => row_dots(l, c, tones, n, i, j - 1),
        }
    }
}

/// The dots of the first `i` rows.
pub open spec fn dots_to(l: Lattice, c: Cut, tones: Seq<i64>, n: int, i: int) -> Seq<Dot>
    decreases i,
{
    if i <= 0 {
        Seq::empty()
    } else {
        dots_to(l, c, tones, n, i - 1) + row_dots(l, c, tones, n, i - 1, 2 * n + 1)
    }
}

/// Where the centres of all cells of a dot screen lie on the canvas, row by row: the tone
/// is taken there.
pub fn dot_places(l: &Lattice) -> (places: Vec<(i64, i64)>)
    requires
        l.wf(),
    ensures
        forall|r: int|
            l.is_reach(r) ==> {
                let n = (#[trigger] counts_of(*l, r)).0;
                &&& places@.len() == (2 * n + 1) * (2 * n + 1)
                &&& forall|i: int, j: int|
                    #![trigger places@[i * (2 * n + 1) + j]]
                    0 <= i <= 2 * n && 0 <= j <= 2 * n ==> cell_place(*l, n, i, j) == (
                        places@[i * (2 * n + 1) + j].0 as int,
                        places@[i * (2 * n + 1) + j].1 as int,
                    )
            },
{
    let (n, segs, r) = screen_counts(l);
    let ghost m = 2 * n + 1;
    let mut places: Vec<(i64, i64)> = Vec::new();
    let mut i: u64 = 0;
    proof {
        assert(0 * m == 0) by (nonlinear_arith);
    }
    while i < 2 * n + 1
        invariant
            l.wf(),
            0 < r <= 0x20_0000_0000_0000,
            n == counts_of(*l, r as int).0,
            n <= 0x20_0000_0000_0000,
            m == 2 * n + 1,
            i <= m,
            places@.len() == i * m,
            forall|a: int, b: int|
                #![trigger places@[a * m + b]]
                0 <= a < i && 0 <= b < m ==> cell_place(*l, n as int, a, b) == (
                    places@[a * m + b].0 as int,
                    places@[a * m + b].1 as int,
                ),
        decreases m - i,
    {
        let u: i64 = across_of(l, n, r, i);
        let mut j: u64 = 0;
        while j < 2 * n + 1
            invariant
                l.wf(),
                0 < r <= 0x20_0000_0000_0000,
                n == counts_of(*l, r as int).0,
                n <= 0x20_0000_0000_0000,
                m == 2 * n + 1,
                i < m,
                j <= m,
                u == (i - n) * l.spacing,
                -0x22_0000_0000_0000 <= u <= 0x22_0000_0000_0000,
                places@.len() == i * m + j,
                forall|a: int, b: int|
                    #![trigger places@[a * m + b]]
                    (0 <= a < i && 0 <= b < m) || (a == i && 0 <= b < j) ==> cell_place(
                        *l,
                        n as int,
                        a,
                        b,
                    ) == (places@[a * m + b].0 as int, places@[a * m + b].1 as int),
            decreases m - j,
        {
            let ghost before = places@;
            let v: i64 = across_of(l, n, r, j);
            let p: (i64, i64) = place_of(l, u, v);
            places.push(p);
            proof {
                assert forall|a: int, b: int|
                    #![trigger places@[a * m + b]]
                    (0 <= a < i && 0 <= b < m) || (a == i && 0 <= b < j + 1) implies cell_place(
                    *l,
                    n as int,
                    a,
                    b,
                ) == (places@[a * m + b].0 as int, places@[a * m + b].1 as int) by {
                    if a < i || b < j {
                        assert(0 <= a * m + b < i * m + j) by (nonlinear_arith)
                            requires
                                0 <= a,
                                0 <= b < m,
                                a < i || (a == i && b < j),
                                0 <= j,
                        ;
                        assert(places@[a * m + b] == before[a * m + b]);
                    } else {
                        assert(places@[a * m + b] == p);
                    }
                }
            }
            j = j + 1;
        }
        proof {
            assert((i + 1) * m == i * m + m) by (nonlinear_arith);
        }
        i = i + 1;
    }
    proof {
        assert forall|q: int| l.is_reach(q) implies {
            let k = (#[trigger] counts_of(*l, q)).0;
            &&& places@.len() == (2 * k + 1) * (2 * k + 1)
            &&& forall|i: int, j: int|
                #![trigger places@[i * (2 * k + 1) + j]]
                0 <= i <= 2 * k && 0 <= j <= 2 * k ==> cell_place(*l, k, i, j) == (
                    places@[i * (2 * k + 1) + j].0 as int,
                    places@[i * (2 * k + 1) + j].1 as int,
                )
        } by {
            lemma_reach_unique(*l, r as int, q);
            assert(2 * n + 1 == m);
        }
    }
    places
}

/// Cuts a dot screen: the dots row by row. `tones` holds the tone at every centre that
/// `dot_places` gives.
pub fn generate_dots(l: &Lattice, c: &Cut, tones: &[i64]) -> (dots: Vec<Dot>)
    requires
        l.wf(),
        c.wf(),
        tones_ok(tones@),
        forall|r: int|
            l.is_reach(r) ==> {
                let n = (#[trigger] counts_of(*l, r)).0;
                tones@.len() == (2 * n + 1) * (2 * n + 1)
            },
    ensures
        forall|r: int|
            l.is_reach(r) ==> {
                let n = (#[trigger] counts_of(*l, r)).0;
                dots@ == dots_to(*l, *c, tones@, n, 2 * n + 1)
            },
{
    let (n, segs, r) = screen_counts(l);
    let total: usize = tones.len();
    let ghost m = 2 * n + 1;
    let mut dots: Vec<Dot> = Vec::new();
    let mut i: u64 = 0;
    let mut at: usize = 0;
    proof {
        assert(tones@.len() == (2 * counts_of(*l, r as int).0 + 1) * (2 * counts_of(
            *l,
            r as int,
        ).0 + 1));
        assert(0 * m == 0) by (nonlinear_arith);
    }
    while i < 2 * n + 1
        invariant
            total == tones@.len(),
            l.wf(),
            c.wf(),
            tones_ok(tones@),
            0 < r <= 0x20_0000_0000_0000,
            n == counts_of(*l, r as int).0,
            n <= 0x20_0000_0000_0000,
            m == 2 * n + 1,
            tones@.len() == m * m,
            i <= m,
            at == i * m,
            dots@ == dots_to(*l, *c, tones@, n as int, i as int),
        decreases m - i,
    {
        let ghost head = dots@;
        let u: i64 = across_of(l, n, r, i);
        let mut j: u64 = 0;
        while j < 2 * n + 1
            invariant
                total == tones@.len(),
                l.wf(),
                c.wf(),
                tones_ok(tones@),
                0 < r <= 0x20_0000_0000_0000,
                n == counts_of(*l, r as int).0,
                n <= 0x20_0000_0000_0000,
                m == 2 * n + 1,
                tones@.len() == m * m,
                i < m,
                j <= m,
                at == i * m + j,
                u == (i - n) * l.spacing,
                -0x22_0000_0000_0000 <= u <= 0x22_0000_0000_0000,
                dots@ == head + row_dots(*l, *c, tones@, n as int, i as int, j as int),
            decreases m - j,
        {
            proof {
                assert(i * m + j < m * m) by (nonlinear_arith)
                    requires
                        0 <= i < m,
                        0 <= j < m,
                ;
            }
            let v: i64 = across_of(l, n, r, j);
            let p: (i64, i64) = place_of(l, u, v);
            let rad: i64 = cut_extent(tones[at], l.spacing, c) / 2;
            let ghost before = dots@;
            if 0 <= p.0 && p.0 < l.w as i64 * PX && 0 <= p.1 && p.1 < l.h as i64 * PX && rad > 0 {
                dots.push(Dot { x: p.0, y: p.1, r: rad });
            }
            proof {
                assert(dots@ =~= head + row_dots(
                    *l,
                    *c,
                    tones@,
                    n as int,
                    i as int,
                    j + 1,
                ));
            }
            at = at + 1;
            j = j + 1;
        }
        proof {
            assert((i + 1) * m == i * m + m) by (nonlinear_arith);
        }
        i = i + 1;
    }
    proof {
        assert forall|q: int| l.is_reach(q) implies {
            let k = (#[trigger] counts_of(*l, q)).0;
            dots@ == dots_to(*l, *c, tones@, k, 2 * k + 1)
        } by {
            lemma_reach_unique(*l, r as int, q);
        }
    }
    dots
}

/// Dots never merge: on the screen, the centres of any two lie at least as far apart as both
/// radii and the least material take together.
pub proof fn lemma_dots_apart(
    l: Lattice,
    c: Cut,
    load: int,
    tones: Seq<i64>,
    n: int,
    a: (int, int),
    b: (int, int),
)
    requires
        l.wf(),
        c.wf(),
        c.material <= l.spacing,
        0 <= load <= crate::lattice::WHOLE,
        c.most == crate::lattice::most_cut(l.spacing as int, c.material as int, load),
        a != b,
        cell_dot(l, c, tones, n, a.0, a.1) is Some,
        cell_dot(l, c, tones, n, b.0, b.1) is Some,
    ensures
        ({
            let p = cell_dot(l, c, tones, n, a.0, a.1)->0;
            let q = cell_dot(l, c, tones, n, b.0, b.1)->0;
            let (u, v) = ((a.0 - b.0) * l.spacing, (a.1 - b.1) * l.spacing);
            let room = p.r + q.r + c.material;
            u * u + v * v >= room * room
        }),
{
    let s = l.spacing as int;
    let side = 2 * n + 1;
    let (ta, tb) = (tones[a.0 * side + a.1] as int, tones[b.0 * side + b.1] as int);
    crate::lattice::lemma_material_stands(ta, tb, s, c.material as int, load, c);
    let (x, y) = (a.0 - b.0, a.1 - b.1);
    let (u, v) = (x * s, y * s);
    let room = extent(ta, s, c) / 2 + extent(tb, s, c) / 2 + c.material;
    assert(u * u + v * v >= s * s) by (nonlinear_arith)
        requires
            u == x * s,
            v == y * s,
            x != 0 || y != 0,
            s > 0,
    ;
    assert(s * s >= room * room) by (nonlinear_arith)
        requires
            0 <= room <= s,
    ;
}

/// The pitch of diffused dots: the spacing, and at least one pixel.
pub open spec fn pitch(spacing: int) -> int {
    if spacing > PX {
        spacing
    } else {
        PX as int
    }
}

/// How many cells of the given pitch a side of `n` pixels takes, and at least one.
pub open spec fn cells_along(n: int, sp: int) -> int {
    if n == 0 {
        1
    } else {
        ceil_div(n * PX, sp)
    }
}

/// The size of the grid of diffused dots.
pub open spec fn noise_size(w: int, h: int, spacing: int) -> (int, int) {
    (cells_along(w, pitch(spacing)), cells_along(h, pitch(spacing)))
}

fn cells_of_side(n: usize, sp: i64) -> (k: usize)
    requires
        n <= MAX_CANVAS,
        PX <= sp <= MAX_SPACING,
    ensures
        k == cells_along(n as int, sp as int),
        1 <= k <= MAX_CANVAS,
{
    if n == 0 {
        1
    } else {
        let a: i64 = n as i64 * PX;
        let q: i64 = (a + sp - 1) / sp;
        proof {
            let (x, y, z) = (a as int, sp as int, n as int);
            assert(1 <= (x + y - 1) / y <= z) by (nonlinear_arith)
                requires
                    x == z * 1_000_000,
                    y >= 1_000_000,
                    z >= 1,
            ;
        }
        q as usize
    }
}

/// The size of the grid of diffused dots; see `noise_size`.
pub fn noise_grid(w: usize, h: usize, spacing: i64) -> (g: (usize, usize))
    requires
        w <= MAX_CANVAS,
        h <= MAX_CANVAS,
        0 < spacing <= MAX_SPACING,
    ensures
        (g.0 as int, g.1 as int) == noise_size(w as int, h as int, spacing as int),
        1 <= g.0 <= MAX_CANVAS,
        1 <= g.1 <= MAX_CANVAS,
{
    let sp: i64 = if spacing > PX { spacing } else { PX };
    (cells_of_side(w, sp), cells_of_side(h, sp))
}

/// Where cell `i` of a grid that is `gw` wide has its centre.
pub open spec fn noise_centre(gw: int, sp: int, i: int) -> (int, int) {
    ((2 * (i % gw) + 1) * sp / 2, (2 * (i / gw) + 1) * sp / 2)
}

/// Where cell `i` of the grid of diffused dots has its centre; see `noise_centre`.
pub fn noise_place(w: usize, h: usize, spacing: i64, i: usize) -> (p: (i64, i64))
    requires
        w <= MAX_CANVAS,
        h <= MAX_CANVAS,
        0 < spacing <= MAX_SPACING,
        i < noise_size(w as int, h as int, spacing as int).0 * noise_size(
            w as int,
            h as int,
            spacing as int,
        ).1,
    ensures
        (p.0 as int, p.1 as int) == noise_centre(
            noise_size(w as int, h as int, spacing as int).0,
            pitch(spacing as int),
            i as int,
        ),
{
    let (gw, gh) = noise_grid(w, h, spacing);
    let sp: i64 = if spacing > PX { spacing } else { PX };
    let x: i128 = (i % gw) as i128;
    let y: i128 = (i / gw) as i128;
    let s: i128 = sp as i128;
    proof {
        let (a, b, n) = (i as int, gw as int, gh as int);
        assert(a / b < n) by (nonlinear_arith)
            requires
                0 <= a < b * n,
                b > 0,
        ;
        lemma_cell_bound(x as int, w as int, s as int);
        lemma_cell_bound(y as int, h as int, s as int);
    }
    (((2 * x + 1) * s / 2) as i64, ((2 * y + 1) * s / 2) as i64)
}

proof fn lemma_cell_bound(x: int, n: int, s: int)
    requires
        0 <= n <= MAX_CANVAS,
        PX <= s <= MAX_SPACING,
        0 <= x < cells_along(n, s),
    ensures
        0 <= (2 * x + 1) * s <= 2 * n * PX + s,
{
    if n > 0 {
        let a = n * PX;
        let k = (a + s - 1) / s;
        assert(k * s <= a + s - 1) by (nonlinear_arith)
            requires
                k == (a + s - 1) / s,
                s > 0,
        ;
        assert((x + 1) * s <= k * s) by (nonlinear_arith)
            requires
                x + 1 <= k,
                s > 0,
        ;
        assert((2 * x + 1) * s == 2 * ((x + 1) * s) - s) by (nonlinear_arith);
        assert((2 * x + 1) * s >= 0) by (nonlinear_arith)
            requires
                x >= 0,
                s > 0,
        ;
    } else {
        assert((2 * x + 1) * s == s) by (nonlinear_arith)
            requires
                x == 0,
        ;
    }
}

/// The tone of a cell: tones that would be cut narrower than the least width count as none,
/// but never the full tone.
pub open spec fn live_tone(tone: i64, sp: int, least: int) -> i64 {
    if tone < FULL && tone * sp < least * FULL {
        0
    } else {
        tone
    }
}

/// The tones of all cells.
pub open spec fn live_tones(tones: Seq<i64>, sp: int, least: int) -> Seq<i64> {
    Seq::new(tones.len(), |i: int| live_tone(tones[i], sp, least))
}

/// The largest radius that keeps a dot clear of its neighbours.
pub open spec fn safe_radius(c: Cut) -> int {
    let r = c.most as int / 2 - c.kerf as int / 2;
    if r > 0 {
        r
    } else {
        0
    }
}

/// The radii from the lightest tone to the darkest, for the diameters that are asked for:
/// none above the safe radius, and none below the least unless that is above it too.
pub open spec fn radii(c: Cut, dot_min: int, dot_max: int) -> (int, int) {
    let safe = safe_radius(c);
    let hi = if dot_max / 2 < safe {
        dot_max / 2
    } else {
        safe
    };
    let lo = if c.least as int / 2 < hi {
        c.least as int / 2
    } else {
        hi
    };
    let small = if dot_min / 2 < lo {
        lo
    } else if dot_min / 2 > hi {
        hi
    } else {
        dot_min / 2
    };
    (small, hi)
}

/// The radius of a dot of the given tone.
pub open spec fn radius_of(range: (int, int), tone: int) -> int {
    range.0 + (range.1 - range.0) * tone / (FULL as int)
}

/// The dots of the first `k` of the cells that get one.
pub open spec fn noise_dots(
    cells: Seq<usize>,
    tones: Seq<i64>,
    gw: int,
    sp: int,
    range: (int, int),
    k: int,
) -> Seq<Dot>
    decreases k,
{
    if k <= 0 {
        Seq::empty()
    } else {
        let i = cells[k - 1] as int;
        let p = noise_centre(gw, sp, i);
        noise_dots(cells, tones, gw, sp, range, k - 1).push(
            Dot { x: p.0 as i64, y: p.1 as i64, r: radius_of(range, tones[i] as int) as i64 },
        )
    }
}

/// The dots of a diffused screen: none if there is no safe radius.
pub open spec fn noise_screen(
    c: Cut,
    tones: Seq<i64>,
    gw: int,
    gh: int,
    sp: int,
    dot_min: int,
    dot_max: int,
) -> Seq<Dot> {
    let live = live_tones(tones, sp, c.least as int);
    let cells = dots_upto(live, gw, gw * gh);
    if safe_radius(c) <= 0 {
        Seq::empty()
    } else {
        noise_dots(cells, live, gw, sp, radii(c, dot_min, dot_max), cells.len() as int)
    }
}

proof fn lemma_dots_range(tones: Seq<i64>, gw: int, gh: int, k: int)
    requires
        0 < gw,
        0 <= k <= gw * gh,
        gw * gh <= usize::MAX,
    ensures
        forall|q: int|
            0 <= q < dots_upto(tones, gw, k).len() ==> (#[trigger] dots_upto(tones, gw, k)[q]) < gw
                * gh,
    decreases k,
{
    if k > 0 {
        lemma_dots_range(tones, gw, gh, k - 1);
        let y = (k - 1) / gw;
        let step = (k - 1) % gw;
        let x = column_at(gw, y, step);
        vstd::arithmetic::div_mod::lemma_fundamental_div_mod(k - 1, gw);
        assert(0 <= y * gw + x < gw * gh) by (nonlinear_arith)
            requires
                0 <= x < gw,
                k - 1 == gw * y + step,
                0 <= step < gw,
                0 <= k - 1 < gw * gh,
                gw > 0,
        ;
        let before = dots_upto(tones, gw, k - 1);
        let now = dots_upto(tones, gw, k);
        assert forall|q: int| 0 <= q < now.len() implies (#[trigger] now[q]) < gw * gh by {
            if q < before.len() {
                assert(now[q] == before[q]);
            }
        }
    }
}

/// Cuts a screen of diffused dots, in the order in which the cells are visited. `tones`
/// holds the tone at the centre of every cell; `dot_min` and `dot_max` are the diameters of
/// the lightest and of the darkest dot.
pub fn generate_bluenoise(
    w: usize,
    h: usize,
    spacing: i64,
    c: &Cut,
    dot_min: i64,
    dot_max: i64,
    tones: &[i64],
) -> (dots: Vec<Dot>)
    requires
        w <= MAX_CANVAS,
        h <= MAX_CANVAS,
        0 < spacing <= MAX_SPACING,
        c.wf(),
        0 <= dot_min,
        0 <= dot_max,
        tones_ok(tones@),
        tones@.len() == noise_size(w as int, h as int, spacing as int).0 * noise_size(
            w as int,
            h as int,
            spacing as int,
        ).1,
    ensures
        dots@ == noise_screen(
            *c,
            tones@,
            noise_size(w as int, h as int, spacing as int).0,
            noise_size(w as int, h as int, spacing as int).1,
            pitch(spacing as int),
            dot_min as int,
            dot_max as int,
        ),
{
    let (gw, gh) = noise_grid(w, h, spacing);
    let sp: i64 = if spacing > PX { spacing } else { PX };
    let total: usize = tones.len();
    let mut live: Vec<i64> = Vec::new();
    for i in 0..tones.len()
        invariant
            tones_ok(tones@),
            PX <= sp <= MAX_SPACING,
            c.wf(),
            live@.len() == i,
            forall|j: int|
                0 <= j < i ==> #[trigger] live@[j] == live_tone(
                    tones@[j],
                    sp as int,
                    c.least as int,
                ),
    {
        let t: i128 = tones[i] as i128;
        let s: i128 = sp as i128;
        let m: i128 = c.least as i128;
        proof {
            lemma_tone_bound(t as int, s as int);
            lemma_tone_bound(m as int, FULL as int);
        }
        live.push(if tones[i] < FULL && t * s < m * FULL as i128 { 0 } else { tones[i] });
    }
    proof {
        assert(live@ =~= live_tones(tones@, sp as int, c.least as int));
    }
    let safe: i64 = if c.most / 2 > c.kerf / 2 { c.most / 2 - c.kerf / 2 } else { 0 };
    if safe <= 0 {
        return Vec::new();
    }
    let hi: i64 = if dot_max / 2 < safe { dot_max / 2 } else { safe };
    let lo: i64 = if c.least / 2 < hi { c.least / 2 } else { hi };
    let small: i64 = if dot_min / 2 < lo {
        lo
    } else if dot_min / 2 > hi {
        hi
    } else {
        dot_min / 2
    };
    let ghost range = radii(*c, dot_min as int, dot_max as int);
    let cells: Vec<usize> = diffuse(live.as_slice(), gw, gh);
    proof {
        lemma_dots_range(live@, gw as int, gh as int, gw * gh);
    }
    let mut dots: Vec<Dot> = Vec::new();
    for k in 0..cells.len()
        invariant
            w <= MAX_CANVAS,
            h <= MAX_CANVAS,
            0 < spacing <= MAX_SPACING,
            (gw as int, gh as int) == noise_size(w as int, h as int, spacing as int),
            sp == pitch(spacing as int),
            live@.len() == gw * gh,
            tones_ok(live@),
            forall|q: int| 0 <= q < cells@.len() ==> (#[trigger] cells@[q]) < gw * gh,
            range == (small as int, hi as int),
            0 <= small <= hi <= MAX_SPACING,
            dots@ == noise_dots(cells@, live@, gw as int, sp as int, range, k as int),
    {
        let i: usize = cells[k];
        let (x, y) = noise_place(w, h, spacing, i);
        let t: i128 = live[i] as i128;
        let d: i128 = (hi - small) as i128;
        proof {
            lemma_tone_bound(d as int, t as int);
            let (p, q) = (d as int, t as int);
            assert(0 <= p * q / 0x100_0000_0000 <= p) by (nonlinear_arith)
                requires
                    p >= 0,
                    0 <= q <= 0x100_0000_0000,
            ;
        }
        let r: i64 = small + (d * t / FULL as i128) as i64;
        dots.push(Dot { x, y, r });
    }
    dots
}

proof fn lemma_tone_bound(a: int, b: int)
    by (nonlinear_arith)
    requires
        0 <= a <= 0x100_0000_0000,
        0 <= b <= 0x100_0000_0000,
    ensures
        0 <= a * b <= 0x100_0000_0000 * 0x100_0000_0000,
{
}

proof fn lemma_radius(c: Cut, dot_min: int, dot_max: int, a: int)
    requires
        c.wf(),
        0 <= dot_min,
        0 <= dot_max,
        0 <= a <= FULL,
    ensures
        0 <= radius_of(radii(c, dot_min, dot_max), a) <= safe_radius(c),
        safe_radius(c) <= MAX_SPACING,
{
    let range = radii(c, dot_min, dot_max);
    lemma_part(range.1 - range.0, a);
}

/// Darker dots are never smaller, whatever sizes are asked for.
pub proof fn lemma_noise_sizes(c: Cut, dot_min: int, dot_max: int, a: int, b: int)
    requires
        c.wf(),
        0 <= dot_min,
        0 <= dot_max,
        0 <= a <= b <= FULL,
    ensures
        radius_of(radii(c, dot_min, dot_max), a) <= radius_of(radii(c, dot_min, dot_max), b),
{
    let range = radii(c, dot_min, dot_max);
    let d = range.1 - range.0;
    assert(d * a <= d * b) by (nonlinear_arith)
        requires
            d >= 0,
            a <= b,
    ;
}

/// The cell that is visited at place `k` of a grid.
spec fn visit(gw: int, k: int) -> int {
    (k / gw) * gw + column_at(gw, k / gw, k % gw)
}

proof fn lemma_visit(gw: int, k: int)
    requires
        0 < gw,
        0 <= k,
    ensures
        visit(gw, k) / gw == k / gw,
        visit(gw, k) % gw == column_at(gw, k / gw, k % gw),
        0 <= visit(gw, k),
{
    let (y, x) = (k / gw, column_at(gw, k / gw, k % gw));
    assert(0 <= y && 0 <= y * gw) by (nonlinear_arith)
        requires
            y == k / gw,
            0 <= k,
            0 < gw,
    ;
    assert(y * gw == gw * y) by (nonlinear_arith);
    vstd::arithmetic::div_mod::lemma_fundamental_div_mod_converse(y * gw + x, gw, y, x);
}

proof fn lemma_visits_differ(gw: int, j: int, k: int)
    requires
        0 < gw,
        0 <= j < k,
    ensures
        visit(gw, j) != visit(gw, k),
{
    lemma_visit(gw, j);
    lemma_visit(gw, k);
    vstd::arithmetic::div_mod::lemma_fundamental_div_mod(j, gw);
    vstd::arithmetic::div_mod::lemma_fundamental_div_mod(k, gw);
}

proof fn lemma_cells_differ(tones: Seq<i64>, gw: int, gh: int, k: int)
    requires
        0 < gw,
        0 <= k <= gw * gh,
        gw * gh <= usize::MAX,
    ensures
        forall|q: int|
            0 <= q < dots_upto(tones, gw, k).len() ==> exists|j: int|
                0 <= j < k && #[trigger] visit(gw, j) == #[trigger] dots_upto(tones, gw, k)[q],
        forall|p: int, q: int|
            0 <= p < q < dots_upto(tones, gw, k).len() ==> #[trigger] dots_upto(tones, gw, k)[p]
                != #[trigger] dots_upto(tones, gw, k)[q],
    decreases k,
{
    if k > 0 {
        lemma_cells_differ(tones, gw, gh, k - 1);
        lemma_dots_range(tones, gw, gh, k);
        let before = dots_upto(tones, gw, k - 1);
        let now = dots_upto(tones, gw, k);
        let last = visit(gw, k - 1);
        lemma_visit(gw, k - 1);
        let y = (k - 1) / gw;
        let x = column_at(gw, y, (k - 1) % gw);
        assert(last <= usize::MAX) by {
            vstd::arithmetic::div_mod::lemma_fundamental_div_mod(k - 1, gw);
            let step = (k - 1) % gw;
            assert(y * gw + x < gw * gh) by (nonlinear_arith)
                requires
                    0 <= x < gw,
                    k - 1 == gw * y + step,
                    0 <= step < gw,
                    0 <= k - 1 < gw * gh,
                    gw > 0,
            ;
        }
        assert forall|q: int| 0 <= q < now.len() implies exists|j: int|
            0 <= j < k && #[trigger] visit(gw, j) == #[trigger] now[q] by {
            if q < before.len() {
                assert(now[q] == before[q]);
                let j = choose|j: int| 0 <= j < k - 1 && #[trigger] visit(gw, j) == before[q];
                assert(0 <= j < k && visit(gw, j) == now[q]);
            } else {
                assert(visit(gw, k - 1) == now[q]);
            }
        }
        assert forall|p: int, q: int| 0 <= p < q < now.len() implies #[trigger] now[p]
            != #[trigger] now[q] by {
            assert(now[p] == before[p]);
            if q < before.len() {
                assert(now[q] == before[q]);
            } else {
                let j = choose|j: int| 0 <= j < k - 1 && #[trigger] visit(gw, j) == before[p];
                lemma_visits_differ(gw, j, k - 1);
            }
        }
    }
}

proof fn lemma_noise_dot(
    cells: Seq<usize>,
    tones: Seq<i64>,
    gw: int,
    sp: int,
    range: (int, int),
    k: int,
    a: int,
)
    requires
        0 <= a < k <= cells.len(),
    ensures
        noise_dots(cells, tones, gw, sp, range, k).len() == k,
        noise_dots(cells, tones, gw, sp, range, k)[a] == (Dot {
            x: noise_centre(gw, sp, cells[a] as int).0 as i64,
            y: noise_centre(gw, sp, cells[a] as int).1 as i64,
            r: radius_of(range, tones[cells[a] as int] as int) as i64,
        }),
    decreases k,
{
    if a < k - 1 {
        lemma_noise_dot(cells, tones, gw, sp, range, k - 1, a);
    } else if k > 1 {
        lemma_noise_dot(cells, tones, gw, sp, range, k - 1, 0);
    } else {
        assert(noise_dots(cells, tones, gw, sp, range, 0).len() == 0);
    }
}

proof fn lemma_centres_apart(sp: int, a: int, b: int)
    requires
        0 < sp,
        0 <= a < b,
    ensures
        (2 * b + 1) * sp / 2 - (2 * a + 1) * sp / 2 >= sp,
{
    let n = (b - a) * sp;
    assert(n >= sp) by (nonlinear_arith)
        requires
            n == (b - a) * sp,
            b - a >= 1,
            sp > 0,
    ;
    assert((2 * b + 1) * sp == (2 * a + 1) * sp + 2 * n) by (nonlinear_arith)
        requires
            n == (b - a) * sp,
    ;
}

/// Diffused dots never touch: the centres of any two lie at least a pitch apart, across or
/// down, and both radii together do not exceed the widest cut.
pub proof fn lemma_noise_apart(
    w: int,
    h: int,
    spacing: int,
    c: Cut,
    tones: Seq<i64>,
    dot_min: int,
    dot_max: int,
    a: int,
    b: int,
)
    requires
        0 <= w <= MAX_CANVAS,
        0 <= h <= MAX_CANVAS,
        0 < spacing <= MAX_SPACING,
        c.wf(),
        0 <= dot_min,
        0 <= dot_max,
        tones_ok(tones),
        tones.len() == noise_size(w, h, spacing).0 * noise_size(w, h, spacing).1,
        tones.len() <= usize::MAX,
        0 <= a < b < noise_screen(
            c,
            tones,
            noise_size(w, h, spacing).0,
            noise_size(w, h, spacing).1,
            pitch(spacing),
            dot_min,
            dot_max,
        ).len(),
    ensures
        ({
            let dots = noise_screen(
                c,
                tones,
                noise_size(w, h, spacing).0,
                noise_size(w, h, spacing).1,
                pitch(spacing),
                dot_min,
                dot_max,
            );
            let (p, q) = (dots[a], dots[b]);
            &&& p.x - q.x >= pitch(spacing) || q.x - p.x >= pitch(spacing) || p.y - q.y >= pitch(
                spacing,
            ) || q.y - p.y >= pitch(spacing)
            &&& 0 <= p.r
            &&& 0 <= q.r
            &&& p.r + q.r <= c.most
        }),
{
    let (gw, gh) = noise_size(w, h, spacing);
    let sp = pitch(spacing);
    lemma_cells_count(w, sp);
    lemma_cells_count(h, sp);
    let live = live_tones(tones, sp, c.least as int);
    let n = gw * gh;
    let cells = dots_upto(live, gw, n);
    let range = radii(c, dot_min, dot_max);
    lemma_cells_differ(live, gw, gh, n);
    lemma_dots_range(live, gw, gh, n);
    if cells.len() > 0 {
        lemma_noise_dot(cells, live, gw, sp, range, cells.len() as int, 0);
    }
    lemma_noise_dot(cells, live, gw, sp, range, cells.len() as int, a);
    lemma_noise_dot(cells, live, gw, sp, range, cells.len() as int, b);
    let (i, j) = (cells[a] as int, cells[b] as int);
    assert(i != j);
    lemma_centre_fits(w, h, spacing, i);
    lemma_centre_fits(w, h, spacing, j);
    lemma_radius(c, dot_min, dot_max, live[i] as int);
    lemma_radius(c, dot_min, dot_max, live[j] as int);
    let (xa, ya, xb, yb) = (i % gw, i / gw, j % gw, j / gw);
    vstd::arithmetic::div_mod::lemma_fundamental_div_mod(i, gw);
    vstd::arithmetic::div_mod::lemma_fundamental_div_mod(j, gw);
    if xa < xb {
        lemma_centres_apart(sp, xa, xb);
    } else if xb < xa {
        lemma_centres_apart(sp, xb, xa);
    } else if ya < yb {
        assert(0 <= ya) by (nonlinear_arith)
            requires
                ya == i / gw,
                0 <= i,
                0 < gw,
        ;
        lemma_centres_apart(sp, ya, yb);
    } else {
        assert(0 <= yb) by (nonlinear_arith)
            requires
                yb == j / gw,
                0 <= j,
                0 < gw,
        ;
        lemma_centres_apart(sp, yb, ya);
    }
}

proof fn lemma_cells_count(n: int, sp: int)
    requires
        0 <= n <= MAX_CANVAS,
        PX <= sp <= MAX_SPACING,
    ensures
        1 <= cells_along(n, sp) <= MAX_CANVAS,
{
    if n > 0 {
        let x = n * 1_000_000;
        assert(1 <= (x + sp - 1) / sp <= n) by (nonlinear_arith)
            requires
                x == n * 1_000_000,
                sp >= 1_000_000,
                n >= 1,
        ;
    }
}

proof fn lemma_centre_fits(w: int, h: int, spacing: int, i: int)
    requires
        0 <= w <= MAX_CANVAS,
        0 <= h <= MAX_CANVAS,
        0 < spacing <= MAX_SPACING,
        0 <= i < noise_size(w, h, spacing).0 * noise_size(w, h, spacing).1,
    ensures
        0 <= noise_centre(noise_size(w, h, spacing).0, pitch(spacing), i).0 <= i64::MAX,
        0 <= noise_centre(noise_size(w, h, spacing).0, pitch(spacing), i).1 <= i64::MAX,
{
    let (gw, gh) = noise_size(w, h, spacing);
    let sp = pitch(spacing);
    lemma_cells_count(w, sp);
    lemma_cells_count(h, sp);
    assert(0 <= i / gw < gh) by (nonlinear_arith)
        requires
            0 <= i < gw * gh,
            gw > 0,
    ;
    lemma_cell_bound(i % gw, w, sp);
    lemma_cell_bound(i / gw, h, sp);
}

proof fn lemma_part(d: int, a: int)
    requires
        d >= 0,
        0 <= a <= FULL,
    ensures
        0 <= d * a / (FULL as int) <= d,
{
    assert(0 <= d * a / 0x100_0000_0000 <= d) by (nonlinear_arith)
        requires
            d >= 0,
            0 <= a <= 0x100_0000_0000,
    ;
}

/// How many sides a dot of the given radius is drawn with: one for every pixel and a half of
/// its circumference, from eight to 48.
pub open spec fn sides(r: int) -> int {
    let n = ceil_div(r * 6_283_185_307, 1_500_000_000_000_000);
    if n < 8 {
        8
    } else if n > 48 {
        48
    } else {
        n
    }
}

/// How many sides a dot is drawn with; see `sides`.
pub fn sides_of(r: i64) -> (n: usize)
    requires
        0 <= r <= MAX_SPACING,
    ensures
        n == sides(r as int),
        8 <= n <= 48,
{
    let a: i128 = r as i128 * 6_283_185_307 + 1_500_000_000_000_000 - 1;
    let n: i128 = a / 1_500_000_000_000_000;
    if n < 8 {
        8
    } else if n > 48 {
        48
    } else {
        n as usize
    }
}

/// A corner of a dot's outline, in the given direction from its centre.
pub open spec fn dot_corner(d: Dot, u: (i64, i64)) -> Point {
    milli((d.x + d.r * u.0 / (TURN as int), d.y + d.r * u.1 / (TURN as int)))
}

/// Draws the outline of a dot: a corner in every one of the given directions.
pub fn emit_dot(d: &Dot, units: &[(i64, i64)]) -> (ribbon: Ribbon)
    requires
        -MAX_PLACE <= d.x <= MAX_PLACE,
        -MAX_PLACE <= d.y <= MAX_PLACE,
        0 <= d.r <= MAX_SPACING,
        forall|k: int|
            0 <= k < units@.len() ==> -TURN <= (#[trigger] units@[k]).0 <= TURN && -TURN
                <= units@[k].1 <= TURN,
    ensures
        ribbon.pts@ == Seq::new(units@.len(), |k: int| dot_corner(*d, units@[k])),
        points_ok(ribbon.pts@),
{
    let mut pts: Vec<Point> = Vec::new();
    for k in 0..units.len()
        invariant
            -MAX_PLACE <= d.x <= MAX_PLACE,
            -MAX_PLACE <= d.y <= MAX_PLACE,
            0 <= d.r <= MAX_SPACING,
            forall|k: int|
                0 <= k < units@.len() ==> -TURN <= (#[trigger] units@[k]).0 <= TURN && -TURN
                    <= units@[k].1 <= TURN,
            pts@.len() == k,
            forall|j: int| 0 <= j < k ==> #[trigger] pts@[j] == dot_corner(*d, units@[j]),
            points_ok(pts@),
    {
        let (x, y) = units[k];
        let r: i128 = d.r as i128;
        proof {
            lemma_spoke(r as int, x as int);
            lemma_spoke(r as int, y as int);
        }
        let p: i64 = d.x + floor_div(r * x as i128, TURN as i128) as i64;
        let q: i64 = d.y + floor_div(r * y as i128, TURN as i128) as i64;
        pts.push(to_milli((p, q)));
    }
    proof {
        assert(pts@ =~= Seq::new(units@.len(), |k: int| dot_corner(*d, units@[k])));
    }
    Ribbon { pts }
}

proof fn lemma_spoke(r: int, u: int)
    requires
        0 <= r <= MAX_SPACING,
        -TURN <= u <= TURN,
    ensures
        -0x100_0000_0000 * 0x4000_0000 <= r * u <= 0x100_0000_0000 * 0x4000_0000,
        -r <= r * u / (TURN as int) <= r,
{
    assert(-0x100_0000_0000 * 0x4000_0000 <= r * u <= 0x100_0000_0000 * 0x4000_0000 && -r
        * 0x4000_0000 <= r * u <= r * 0x4000_0000) by (nonlinear_arith)
        requires
            0 <= r <= 0x100_0000_0000,
            -0x4000_0000 <= u <= 0x4000_0000,
    ;
    let p = r * u;
    assert(-r <= p / 0x4000_0000 <= r) by (nonlinear_arith)
        requires
            -r * 0x4000_0000 <= p <= r * 0x4000_0000,
    ;
}

/// No corner of a dot lies farther from its centre, across or down, than the radius allows,
/// but for rounding to a thousandth.
pub proof fn lemma_dot_within(d: Dot, u: (i64, i64))
    requires
        -MAX_PLACE <= d.x <= MAX_PLACE,
        -MAX_PLACE <= d.y <= MAX_PLACE,
        0 <= d.r <= MAX_SPACING,
        -TURN <= u.0 <= TURN,
        -TURN <= u.1 <= TURN,
    ensures
        -d.r - 1000 <= dot_corner(d, u).0 * 1000 - d.x <= d.r + 1000,
        -d.r - 1000 <= dot_corner(d, u).1 * 1000 - d.y <= d.r + 1000,
{
    lemma_spoke(d.r as int, u.0 as int);
    lemma_spoke(d.r as int, u.1 as int);
}

} // verus!
