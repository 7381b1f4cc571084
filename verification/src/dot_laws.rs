//! What dot screens keep: a dot for every cell of the grid, and none besides.

use crate::dots::{
    cell_dot, cells_along, dot_corner, dots_to, live_tone, live_tones, noise_centre, noise_dots,
    noise_screen, noise_size, pitch, radii, radius_of, row_dots, safe_radius, sides, Dot,
};
use crate::lattice::{extent, Cut, Lattice};
use crate::screen::dots_upto;
use vstd::prelude::*;

verus! {

/// Whether a cell of a dot screen gets a dot: its centre lies on the canvas, and its tone is
/// cut at least two units wide.
pub open spec fn gets_dot(l: Lattice, c: Cut, tones: Seq<i64>, n: int, i: int, j: int) -> bool {
    let p = l.place((i - n) * l.spacing, (j - n) * l.spacing);
    &&& 0 <= p.0 && p.0 < l.w * 1_000_000
    &&& 0 <= p.1 && p.1 < l.h * 1_000_000
    &&& extent(tones[i * (2 * n + 1) + j] as int, l.spacing as int, c) >= 2
}

/// Whether `d` is the dot of the cell in row `i` and column `j`.
pub open spec fn dot_of_cell(
    l: Lattice,
    c: Cut,
    tones: Seq<i64>,
    n: int,
    i: int,
    j: int,
    d: Dot,
) -> bool {
    let p = l.place((i - n) * l.spacing, (j - n) * l.spacing);
    let e = extent(tones[i * (2 * n + 1) + j] as int, l.spacing as int, c);
    &&& d.x == p.0
    &&& d.y == p.1
    &&& 2 * d.r <= e <= 2 * d.r + 1
}

/// The cells that get dots, as far as column `j` of row `i`, in order.
pub open spec fn dotted(
    l: Lattice,
    c: Cut,
    tones: Seq<i64>,
    n: int,
    i: int,
    j: int,
) -> Seq<(int, int)>
    decreases i, j,
{
    if i < 0 || j < 0 || n < 0 {
        Seq::empty()
    } else if j == 0 {
        if i == 0 {
            Seq::empty()
        } else {
            dotted(l, c, tones, n, i - 1, 2 * n + 1)
        }
    } else if gets_dot(l, c, tones, n, i, j - 1) {
        dotted(l, c, tones, n, i, j - 1).push((i, j - 1))
    } else {
        dotted(l, c, tones, n, i, j - 1)
    }
}

/// A cell is listed just where it gets a dot, and none is listed twice.
pub proof fn lemma_dotted(l: Lattice, c: Cut, tones: Seq<i64>, n: int, i: int, j: int)
    requires
        0 <= n,
        0 <= i,
        0 <= j <= 2 * n + 1,
    ensures
        forall|a: int, b: int|
            #![trigger dotted(l, c, tones, n, i, j).contains((a, b))]
            dotted(l, c, tones, n, i, j).contains((a, b)) <==> 0 <= a && 0 <= b <= 2 * n && (a < i
                || (a == i && b < j)) && gets_dot(l, c, tones, n, a, b),
        dotted(l, c, tones, n, i, j).no_duplicates(),
    decreases i, j,
{
    let now = dotted(l, c, tones, n, i, j);
    if j == 0 {
        if i > 0 {
            lemma_dotted(l, c, tones, n, i - 1, 2 * n + 1);
        }
    } else {
        lemma_dotted(l, c, tones, n, i, j - 1);
        let before = dotted(l, c, tones, n, i, j - 1);
        if gets_dot(l, c, tones, n, i, j - 1) {
            assert(!before.contains((i, j - 1)));
            assert(now == before.push((i, j - 1)));
            assert forall|a: int, b: int| now.contains((a, b)) <==> before.contains((a, b)) || (a
                == i && b == j - 1) by {
                if now.contains((a, b)) {
                    let k = now.index_of((a, b));
                    assert(k < before.len() ==> before[k] == now[k]);
                }
                if before.contains((a, b)) {
                    let k = before.index_of((a, b));
                    assert(now[k] == (a, b));
                }
                if a == i && b == j - 1 {
                    assert(now[before.len() as int] == (a, b));
                }
            }
        }
    }
}

/// Whether `dots` are the dots of the listed cells, one for one.
pub open spec fn one_each(
    l: Lattice,
    c: Cut,
    tones: Seq<i64>,
    n: int,
    cells: Seq<(int, int)>,
    dots: Seq<Dot>,
) -> bool {
    &&& dots.len() == cells.len()
    &&& forall|k: int|
        0 <= k < dots.len() ==> dot_of_cell(
            l,
            c,
            tones,
            n,
            cells[k].0,
            cells[k].1,
            #[trigger] dots[k],
        )
}

/// A dot screen has one dot for every cell whose centre lies on the canvas and whose tone is
/// cut, and no other: the dots stand one for one for the cells that `dotted` lists.
pub proof fn lemma_dots_complete(l: Lattice, c: Cut, tones: Seq<i64>, n: int)
    requires
        l.wf(),
        c.wf(),
        0 <= n,
    ensures
        one_each(
            l,
            c,
            tones,
            n,
            dotted(l, c, tones, n, 2 * n, 2 * n + 1),
            dots_to(l, c, tones, n, 2 * n + 1),
        ),
{
    lemma_rows_complete(l, c, tones, n, 2 * n + 1);
}

proof fn lemma_rows_complete(l: Lattice, c: Cut, tones: Seq<i64>, n: int, i: int)
    requires
        l.wf(),
        c.wf(),
        0 <= n,
        0 <= i,
    ensures
        one_each(l, c, tones, n, dotted(l, c, tones, n, i, 0), dots_to(l, c, tones, n, i)),
        i > 0 ==> dotted(l, c, tones, n, i, 0) == dotted(l, c, tones, n, i - 1, 2 * n + 1),
    decreases i,
{
    if i > 0 {
        lemma_rows_complete(l, c, tones, n, i - 1);
        lemma_row_complete(l, c, tones, n, i - 1, 2 * n + 1);
    }
}

proof fn lemma_row_complete(l: Lattice, c: Cut, tones: Seq<i64>, n: int, i: int, j: int)
    requires
        l.wf(),
        c.wf(),
        0 <= n,
        0 <= i,
        0 <= j,
        one_each(l, c, tones, n, dotted(l, c, tones, n, i, 0), dots_to(l, c, tones, n, i)),
    ensures
        one_each(
            l,
            c,
            tones,
            n,
            dotted(l, c, tones, n, i, j),
            dots_to(l, c, tones, n, i) + row_dots(l, c, tones, n, i, j),
        ),
    decreases j,
{
    let head = dots_to(l, c, tones, n, i);
    if j == 0 {
        assert(head + row_dots(l, c, tones, n, i, 0) =~= head);
    } else {
        lemma_row_complete(l, c, tones, n, i, j - 1);
        let before = head + row_dots(l, c, tones, n, i, j - 1);
        let now = head + row_dots(l, c, tones, n, i, j);
        let (p, q) = (dotted(l, c, tones, n, i, j - 1), dotted(l, c, tones, n, i, j));
        let e = extent(tones[i * (2 * n + 1) + (j - 1)] as int, l.spacing as int, c);
        assert(0 <= e <= c.most);
        match cell_dot(l, c, tones, n, i, j - 1) {
            Some(d) => {
                assert(now =~= before.push(d));
                assert forall|k: int| 0 <= k < now.len() implies dot_of_cell(
                    l,
                    c,
                    tones,
                    n,
                    q[k].0,
                    q[k].1,
                    #[trigger] now[k],
                ) by {
                    if k < before.len() {
                        assert(now[k] == before[k] && q[k] == p[k]);
                    }
                }
            },
            None => {
                assert(now =~= before);
            },
        }
    }
}

/// Under one tone that is cut there are as many dots as centres of the grid on the canvas.
pub proof fn lemma_flat_dot_count(l: Lattice, c: Cut, tones: Seq<i64>, n: int, t: i64)
    requires
        l.wf(),
        c.wf(),
        0 <= n,
        tones.len() == (2 * n + 1) * (2 * n + 1),
        forall|j: int| 0 <= j < tones.len() ==> #[trigger] tones[j] == t,
        extent(t as int, l.spacing as int, c) >= 2,
    ensures
        dots_to(l, c, tones, n, 2 * n + 1).len() == dotted(l, c, tones, n, 2 * n, 2 * n + 1).len(),
        forall|a: int, b: int|
            0 <= a <= 2 * n && 0 <= b <= 2 * n ==> (#[trigger] gets_dot(l, c, tones, n, a, b) <==> {
                let p = l.place((a - n) * l.spacing, (b - n) * l.spacing);
                0 <= p.0 && p.0 < l.w * 1_000_000 && 0 <= p.1 && p.1 < l.h * 1_000_000
            }),
{
    lemma_dots_complete(l, c, tones, n);
    assert forall|a: int, b: int| 0 <= a <= 2 * n && 0 <= b <= 2 * n implies (#[trigger] gets_dot(
        l,
        c,
        tones,
        n,
        a,
        b,
    ) <==> {
        let p = l.place((a - n) * l.spacing, (b - n) * l.spacing);
        0 <= p.0 && p.0 < l.w * 1_000_000 && 0 <= p.1 && p.1 < l.h * 1_000_000
    }) by {
        let m = 2 * n + 1;
        assert(0 <= a * m + b < m * m) by (nonlinear_arith)
            requires
                0 <= a < m,
                0 <= b < m,
        ;
        assert(tones[a * m + b] == t);
    }
}

/// The grid of diffused dots covers the canvas, and has no row or column beyond it. Its pitch
/// is the spacing, and at least a pixel.
pub proof fn lemma_noise_grid(w: int, h: int, spacing: int)
    requires
        0 <= w,
        0 <= h,
        0 < spacing,
    ensures
        pitch(spacing) >= spacing,
        pitch(spacing) >= 1_000_000,
        pitch(spacing) == spacing || pitch(spacing) == 1_000_000,
        ({
            let g = noise_size(w, h, spacing);
            &&& g.0 >= 1 && g.1 >= 1
            &&& g.0 * pitch(spacing) >= w * 1_000_000
            &&& g.1 * pitch(spacing) >= h * 1_000_000
            &&& w > 0 ==> (g.0 - 1) * pitch(spacing) < w * 1_000_000
            &&& h > 0 ==> (g.1 - 1) * pitch(spacing) < h * 1_000_000
            &&& w == 0 ==> g.0 == 1
            &&& h == 0 ==> g.1 == 1
        }),
{
    lemma_cells_along(w, pitch(spacing));
    lemma_cells_along(h, pitch(spacing));
}

proof fn lemma_cells_along(n: int, sp: int)
    requires
        0 <= n,
        0 < sp,
    ensures
        cells_along(n, sp) >= 1,
        cells_along(n, sp) * sp >= n * 1_000_000,
        n > 0 ==> (cells_along(n, sp) - 1) * sp < n * 1_000_000,
{
    let a = n * 1_000_000;
    let q = (a + sp - 1) / sp;
    assert(q * sp >= a && (q - 1) * sp < a && (a > 0 ==> q >= 1)) by (nonlinear_arith)
        requires
            q == (a + sp - 1) / sp,
            sp > 0,
            a >= 0,
    ;
    if n == 0 {
        assert(1 * sp >= 0);
    }
}

/// Every cell that error diffusion picks gets one dot, at the middle of the cell, and no other
/// cell gets one. The radius goes in proportion to the tone, from that of the lightest dot to
/// that of the darkest.
pub proof fn lemma_noise_complete(
    c: Cut,
    tones: Seq<i64>,
    gw: int,
    gh: int,
    sp: int,
    dot_min: int,
    dot_max: int,
    k: int,
)
    requires
        c.wf(),
        crate::screen::tones_ok(tones),
        tones.len() == gw * gh,
        0 < gw,
        0 < gh,
        gw * gh <= usize::MAX,
        0 < sp,
        gw * sp <= 0x1000_0000_0000_0000,
        gh * sp <= 0x1000_0000_0000_0000,
        0 <= dot_min,
        0 <= dot_max,
        c.most as int / 2 > c.kerf as int / 2,
    ensures
        ({
            let dots = noise_screen(c, tones, gw, gh, sp, dot_min, dot_max);
            let live = live_tones(tones, sp, c.least as int);
            let cells = dots_upto(live, gw, gw * gh);
            let (lo, hi) = radii(c, dot_min, dot_max);
            &&& dots.len() == cells.len()
            &&& 0 <= k < dots.len() ==> {
                let q = cells[k] as int;
                let (x, y) = (q % gw, q / gw);
                let d = dots[k];
                &&& 2 * d.x <= (2 * x + 1) * sp <= 2 * d.x + 1
                &&& 2 * d.y <= (2 * y + 1) * sp <= 2 * d.y + 1
                &&& 0x100_0000_0000 * (d.r - lo) <= (hi - lo) * live[q] < 0x100_0000_0000 * (d.r
                    - lo + 1)
                &&& lo <= d.r <= hi
            }
        }),
{
    let live = live_tones(tones, sp, c.least as int);
    let cells = dots_upto(live, gw, gw * gh);
    let range = radii(c, dot_min, dot_max);
    lemma_noise_len(cells, live, gw, sp, range, cells.len() as int);
    if 0 <= k < cells.len() {
        let q = cells[k] as int;
        lemma_picked(live, gw, gh, gw * gh);
        assert(cells[k] < gw * gh);
        let d = noise_screen(c, tones, gw, gh, sp, dot_min, dot_max)[k];
        let centre = noise_centre(gw, sp, q);
        assert(d == (Dot {
            x: centre.0 as i64,
            y: centre.1 as i64,
            r: radius_of(range, live[q] as int) as i64,
        }));
        let (x, y) = (q % gw, q / gw);
        assert(0 <= x < gw && 0 <= y < gh) by (nonlinear_arith)
            requires
                0 <= q < gw * gh,
                gw > 0,
                x == q % gw,
                y == q / gw,
        ;
        assert(0 <= (2 * x + 1) * sp <= 2 * (gw * sp) && 0 <= (2 * y + 1) * sp <= 2 * (gh * sp))
            by (nonlinear_arith)
            requires
                0 <= x < gw,
                0 <= y < gh,
                0 < sp,
        ;
        let (lo, hi) = range;
        let t = live[q] as int;
        let full = 0x100_0000_0000int;
        assert(0 <= tones[q] <= full);
        assert(0 <= t <= full);
        let m = hi - lo;
        let z = m * t / full;
        assert(full * z <= m * t < full * (z + 1) && 0 <= z <= m) by (nonlinear_arith)
            requires
                z == m * t / full,
                full == 0x100_0000_0000,
                0 <= t <= full,
                0 <= m,
        ;
        assert(d.r == lo + z);
        assert(d.x == (2 * x + 1) * sp / 2 && d.y == (2 * y + 1) * sp / 2);
    }
}

proof fn lemma_picked(tones: Seq<i64>, gw: int, gh: int, k: int)
    requires
        0 < gw,
        0 <= k <= gw * gh,
        gw * gh <= usize::MAX,
    ensures
        forall|a: int|
            0 <= a < dots_upto(tones, gw, k).len() ==> (#[trigger] dots_upto(tones, gw, k)[a]) < gw
                * gh,
    decreases k,
{
    if k > 0 {
        lemma_picked(tones, gw, gh, k - 1);
        let (y, s) = ((k - 1) / gw, (k - 1) % gw);
        let x = crate::screen::column_at(gw, y, s);
        assert(0 <= s < gw && 0 <= y < gh) by (nonlinear_arith)
            requires
                0 <= k - 1 < gw * gh,
                gw > 0,
                y == (k - 1) / gw,
                s == (k - 1) % gw,
        ;
        assert(0 <= y * gw + x < gw * gh) by (nonlinear_arith)
            requires
                0 <= x < gw,
                0 <= y < gh,
        ;
        let before = dots_upto(tones, gw, k - 1);
        let now = dots_upto(tones, gw, k);
        assert forall|a: int| 0 <= a < now.len() implies (#[trigger] now[a]) < gw * gh by {
            if a < before.len() {
                assert(now[a] == before[a]);
            }
        }
    }
}

proof fn lemma_noise_len(
    cells: Seq<usize>,
    tones: Seq<i64>,
    gw: int,
    sp: int,
    range: (int, int),
    k: int,
)
    requires
        0 <= k <= cells.len(),
    ensures
        noise_dots(cells, tones, gw, sp, range, k).len() == k,
        forall|a: int|
            0 <= a < k ==> (#[trigger] noise_dots(cells, tones, gw, sp, range, k)[a]) == (Dot {
                x: noise_centre(gw, sp, cells[a] as int).0 as i64,
                y: noise_centre(gw, sp, cells[a] as int).1 as i64,
                r: radius_of(range, tones[cells[a] as int] as int) as i64,
            }),
    decreases k,
{
    if k > 0 {
        lemma_noise_len(cells, tones, gw, sp, range, k - 1);
    }
}

/// The radii of diffused dots: the darkest dot is as large as is asked for and as the widest
/// cut, less the beam, allows; the lightest as small as is asked for, but neither under the
/// least cut nor over the darkest.
pub proof fn lemma_noise_radii(c: Cut, dot_min: int, dot_max: int)
    requires
        c.wf(),
        0 <= dot_min,
        0 <= dot_max,
    ensures
        ({
            let safe = c.most as int / 2 - c.kerf as int / 2;
            let (lo, hi) = radii(c, dot_min, dot_max);
            &&& safe > 0 <==> safe_radius(c) > 0
            &&& safe > 0 ==> safe_radius(c) == safe
            &&& 0 <= lo <= hi <= dot_max / 2
            &&& safe > 0 ==> hi <= safe
            &&& safe > 0 && hi < safe ==> hi == dot_max / 2
            &&& lo < hi ==> lo >= c.least as int / 2 && lo >= dot_min / 2
            &&& lo > c.least as int / 2 ==> lo <= dot_min / 2
            &&& lo <= dot_min / 2 || lo <= c.least as int / 2
        }),
{
}

/// A tone is left out just where it would be cut narrower than the least width and is not
/// full; others stay as they are.
pub proof fn lemma_live(tone: i64, sp: int, least: int)
    ensures
        live_tone(tone, sp, least) == tone || live_tone(tone, sp, least) == 0,
        tone >= 0x100_0000_0000 ==> live_tone(tone, sp, least) == tone,
        tone * sp >= least * 0x100_0000_0000 ==> live_tone(tone, sp, least) == tone,
        tone < 0x100_0000_0000 && tone * sp < least * 0x100_0000_0000 ==> live_tone(tone, sp, least)
            == 0,
{
}

/// A dot is drawn with sides of a pixel and a half at most, as long as 48 of them are enough,
/// and with no more than that takes; it has eight at least.
pub proof fn lemma_dot_sides(r: int)
    requires
        0 <= r,
    ensures
        8 <= sides(r) <= 48,
        sides(r) < 48 ==> sides(r) * 1_500_000 * 1_000_000_000 >= r * 6_283_185_307,
        sides(r) > 8 ==> (sides(r) - 1) * 1_500_000 * 1_000_000_000 < r * 6_283_185_307,
{
    let a = r * 6_283_185_307;
    let b = 1_500_000_000_000_000int;
    let q = (a + b - 1) / b;
    assert(q * b >= a && (q - 1) * b < a) by (nonlinear_arith)
        requires
            q == (a + b - 1) / b,
            b == 1_500_000_000_000_000,
    ;
}

/// The corners of a dot lie in their directions, as far from its centre as its radius, but for
/// the rounding.
pub proof fn lemma_corner(d: Dot, u: (i64, i64))
    requires
        -0x80_0000_0000_0000 <= d.x <= 0x80_0000_0000_0000,
        -0x80_0000_0000_0000 <= d.y <= 0x80_0000_0000_0000,
        0 <= d.r <= 0x100_0000_0000,
        -0x4000_0000 <= u.0 <= 0x4000_0000,
        -0x4000_0000 <= u.1 <= 0x4000_0000,
    ensures
        ({
            let t = 0x4000_0000int;
            let p = dot_corner(d, u);
            &&& -501 * t <= (1000 * p.0 - d.x) * t - d.r * u.0 <= 501 * t
            &&& -501 * t <= (1000 * p.1 - d.y) * t - d.r * u.1 <= 501 * t
        }),
{
    let t = 0x4000_0000int;
    lemma_spoke_near(d.r * u.0, t, d.x as int, 1000 * dot_corner(d, u).0);
    lemma_spoke_near(d.r * u.1, t, d.y as int, 1000 * dot_corner(d, u).1);
    crate::dots::lemma_dot_within(d, u);
    let (a, b) = (d.r * u.0 / t, d.r * u.1 / t);
    assert(-0x100_0000_0000 <= a <= 0x100_0000_0000 && -0x100_0000_0000 <= b <= 0x100_0000_0000)
        by (nonlinear_arith)
        requires
            a == d.r * u.0 / t,
            b == d.r * u.1 / t,
            0 <= d.r <= 0x100_0000_0000,
            -t <= u.0 <= t,
            -t <= u.1 <= t,
            t == 0x4000_0000,
    ;
}

proof fn lemma_spoke_near(z: int, t: int, x: int, p: int)
    requires
        t > 0,
    ensures
        -500 <= p - (x + z / t) <= 500 ==> -501 * t <= (p - x) * t - z <= 501 * t,
{
    let q = z / t;
    let e = p - (x + q);
    if -500 <= e <= 500 {
        assert(-501 * t <= (p - x) * t - z <= 501 * t) by (nonlinear_arith)
            requires
                q == z / t,
                t > 0,
                p - x == q + e,
                -500 <= e <= 500,
        ;
    }
}

} // verus!
