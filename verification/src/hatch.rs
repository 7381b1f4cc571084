//! Hatching: line screens at several angles on one canvas, each of which narrows where it
//! comes near what the earlier ones have cut.

use crate::arith::{lemma_is_root, lemma_root, lemma_root_monotone, root, square_root};
use crate::lattice::{extent, segment, segment_len, Cut, Lattice, MAX_CANVAS, MAX_SPACING, PX, TURN};
use crate::raster::{covered, covers, rasterize};
use crate::sampling::{field_ok, lemma_sampled, lemma_sampled_flat, sample, sampled};
use crate::screen::{tones_ok, FULL};
use crate::strokes::{
    are_mids, bare, counts_of, lemma_reach_unique, lemma_same_runs, line_middles, outlines,
    ribbons_ok, screen_counts, generate_quads_prox, screening, Screening,
};
use crate::svg::Ribbon;
use crate::trace::Point;
use crate::waves::append_ribbons;
use vstd::prelude::*;

verus! {

/// The squared distance between two cells of a canvas that is `w` wide.
pub open spec fn gap2(w: int, i: int, q: int) -> int {
    (i % w - q % w) * (i % w - q % w) + (i / w - q / w) * (i / w - q / w)
}

/// Whether cell `q` is cut and lies within `radius` of cell `i`.
pub open spec fn in_disc(mask: Seq<bool>, w: int, radius: int, i: int, q: int) -> bool {
    &&& 0 <= q < mask.len()
    &&& mask[q]
    &&& gap2(w, i, q) * (PX * PX) <= radius * radius
}

/// Whether `o` is the squared distance to the nearest cut within `radius` of cell `i`.
pub open spec fn is_least(
    mask: Seq<bool>,
    w: int,
    radius: int,
    i: int,
    o: Option<int>,
) -> bool {
    match o {
        None => forall|q: int| !#[trigger] in_disc(mask, w, radius, i, q),
        Some(d) => {
            &&& exists|q: int| #[trigger] in_disc(mask, w, radius, i, q) && gap2(w, i, q) == d
            &&& forall|q: int| #[trigger] in_disc(mask, w, radius, i, q) ==> d <= gap2(w, i, q)
        },
    }
}

/// The squared distance to the nearest cut within `radius` of cell `i`.
pub open spec fn least(mask: Seq<bool>, w: int, radius: int, i: int) -> Option<int> {
    choose|o: Option<int>| is_least(mask, w, radius, i, o)
}

proof fn lemma_least(mask: Seq<bool>, w: int, radius: int, i: int, o: Option<int>)
    requires
        is_least(mask, w, radius, i, o),
    ensures
        least(mask, w, radius, i) == o,
{
    let p = least(mask, w, radius, i);
    assert(is_least(mask, w, radius, i, p));
    match (o, p) {
        (Some(a), Some(b)) => {
            let qa = choose|q: int| #[trigger]
                in_disc(mask, w, radius, i, q) && gap2(w, i, q) == a;
            let qb = choose|q: int| #[trigger]
                in_disc(mask, w, radius, i, q) && gap2(w, i, q) == b;
            assert(in_disc(mask, w, radius, i, qa) && in_disc(mask, w, radius, i, qb));
        },
        _ => {},
    }
}

/// What is left of a distance beside a cut whose squared distance is `o`.
pub open spec fn lowered(v: i64, o: Option<int>) -> i64 {
    match o {
        None => v,
        Some(d) => if root(d * (PX * PX)) < v {
            root(d * (PX * PX)) as i64
        } else {
            v
        },
    }
}

/// The distances of all cells to the nearest cut, once the cuts of `mask` are counted in.
pub open spec fn stamped(field: Seq<i64>, mask: Seq<bool>, w: int, radius: int) -> Seq<i64> {
    Seq::new(field.len(), |i: int| lowered(field[i], least(mask, w, radius, i)))
}

/// The squared distance to the nearest cut within `radius` of the cell at column `x` of row
/// `y`.
fn nearest_cut(mask: &[bool], w: usize, h: usize, radius: i64, x: usize, y: usize) -> (o: Option<
    u64,
>)
    requires
        0 < w <= MAX_CANVAS,
        0 < h <= MAX_CANVAS,
        mask@.len() == w * h,
        0 <= radius <= 4 * MAX_SPACING,
        x < w,
        y < h,
    ensures
        is_least(
            mask@,
            w as int,
            radius as int,
            y * w + x,
            match o {
                Some(d) => Some(d as int),
                None => None,
            },
        ),
        o matches Some(d) ==> d <= 2 * MAX_CANVAS * MAX_CANVAS,
{
    let ghost i = y * w + x;
    let len: usize = mask.len();
    let rad: usize = (radius / PX) as usize;
    let y0: usize = if y > rad { y - rad } else { 0 };
    let x0: usize = if x > rad { x - rad } else { 0 };
    let y1: usize = if h - y > rad { y + rad + 1 } else { h };
    let x1: usize = if w - x > rad { x + rad + 1 } else { w };
    let r: i128 = radius as i128;
    let mut best: Option<u64> = None;
    proof {
        lemma_cell(w as int, x as int, y as int);
        assert(r * r <= 0x400_0000_0000 * 0x400_0000_0000) by (nonlinear_arith)
            requires
                0 <= r <= 0x400_0000_0000,
        ;
    }
    let r2: i128 = r * r;
    let mut v: usize = y0;
    while v < y1
        invariant
            len == mask@.len(),
            0 < w <= MAX_CANVAS,
            0 < h <= MAX_CANVAS,
            mask@.len() == w * h,
            x < w,
            y < h,
            i == y * w + x,
            i % w as int == x,
            i / w as int == y,
            r2 == radius * radius,
            y0 <= v <= y1 <= h,
            x0 <= x1 <= w,
            seen(mask@, w as int, radius as int, i, x0 as int, x1 as int, y0 as int, v as int, 0, best),
        decreases y1 - v,
    {
        let mut u: usize = x0;
        while u < x1
            invariant
                len == mask@.len(),
                0 < w <= MAX_CANVAS,
                0 < h <= MAX_CANVAS,
                mask@.len() == w * h,
                x < w,
                y < h,
                i == y * w + x,
                i % w as int == x,
                i / w as int == y,
                r2 == radius * radius,
                y0 <= v < y1 <= h,
                x0 <= u <= x1 <= w,
                seen(
                    mask@,
                    w as int,
                    radius as int,
                    i,
                    x0 as int,
                    x1 as int,
                    y0 as int,
                    v as int,
                    u - x0,
                    best,
                ),
            decreases x1 - u,
        {
            proof {
                lemma_cell(w as int, u as int, v as int);
                assert(0 <= v * w + u < w * h) by (nonlinear_arith)
                    requires
                        0 <= u < w,
                        0 <= v < h,
                ;
            }
            let ghost q = v * w + u;
            let ghost before = best;
            if mask[v * w + u] {
                let dx: i64 = x as i64 - u as i64;
                let dy: i64 = y as i64 - v as i64;
                proof {
                    lemma_square(dx as int);
                    lemma_square(dy as int);
                    let d = (dx * dx + dy * dy) as int;
                    assert(d * 1_000_000_000_000 == d * (1_000_000 * 1_000_000));
                }
                let d: u64 = (dx * dx + dy * dy) as u64;
                if d as i128 * 1_000_000_000_000 <= r2 {
                    proof {
                        assert(in_disc(mask@, w as int, radius as int, i, q));
                    }
                    let closer: bool = match best {
                        None => true,
                        Some(b) => d < b,
                    };
                    if closer {
                        best = Some(d);
                    }
                }
            }
            proof {
                assert forall|p: int|
                    in_window(w as int, x0 as int, x1 as int, y0 as int, v as int, u + 1 - x0, p)
                        && #[trigger] in_disc(mask@, w as int, radius as int, i, p) implies best
                    is Some && best->0 <= gap2(w as int, i, p) by {
                    lemma_cell_of(w as int, p);
                    if p % w as int == u && p / w as int == v {
                        assert(p == q);
                    } else {
                        assert(in_window(
                            w as int,
                            x0 as int,
                            x1 as int,
                            y0 as int,
                            v as int,
                            u - x0,
                            p,
                        ));
                    }
                }
            }
            u = u + 1;
        }
        proof {
            assert forall|p: int|
                in_window(w as int, x0 as int, x1 as int, y0 as int, v + 1, 0, p)
                    && #[trigger] in_disc(mask@, w as int, radius as int, i, p) implies best is Some
                && best->0 <= gap2(w as int, i, p) by {
                assert(in_window(
                    w as int,
                    x0 as int,
                    x1 as int,
                    y0 as int,
                    v as int,
                    x1 - x0,
                    p,
                ));
            }
        }
        v = v + 1;
    }
    proof {
        assert forall|p: int| #[trigger] in_disc(mask@, w as int, radius as int, i, p) implies best
            is Some && best->0 <= gap2(w as int, i, p) by {
            lemma_cell_of(w as int, p);
            let (dx, dy) = (i % w as int - p % w as int, i / w as int - p / w as int);
            lemma_inside(dx, dy, radius as int, rad as int);
            lemma_inside(dy, dx, radius as int, rad as int);
            assert(0 <= p / w as int && p / (w as int) < h) by (nonlinear_arith)
                requires
                    0 <= p < w * h,
                    w > 0,
            ;
            assert(in_window(w as int, x0 as int, x1 as int, y0 as int, y1 as int, 0, p));
        }
        match best {
            None => {},
            Some(b) => {
                let q = choose|q: int| #[trigger]
                    in_disc(mask@, w as int, radius as int, i, q) && gap2(w as int, i, q) == b;
                assert(in_disc(mask@, w as int, radius as int, i, q));
            },
        }
    }
    best
}

/// Whether a cell lies in the rows from `y0` to `v` between the columns `x0` and `x1`, or
/// among the first `n` of row `v`.
spec fn in_window(w: int, x0: int, x1: int, y0: int, v: int, n: int, p: int) -> bool {
    let (x, y) = (p % w, p / w);
    x0 <= x < x1 && ((y0 <= y < v) || (y == v && x < x0 + n))
}

/// Whether `best` is the least squared distance to a cut among the cells of the window.
spec fn seen(
    mask: Seq<bool>,
    w: int,
    radius: int,
    i: int,
    x0: int,
    x1: int,
    y0: int,
    v: int,
    n: int,
    best: Option<u64>,
) -> bool {
    &&& forall|p: int|
        in_window(w, x0, x1, y0, v, n, p) && #[trigger] in_disc(mask, w, radius, i, p) ==> best
            is Some && best->0 <= gap2(w, i, p)
    &&& best matches Some(b) ==> {
        &&& b <= 2 * MAX_CANVAS * MAX_CANVAS
        &&& exists|q: int| #[trigger] in_disc(mask, w, radius, i, q) && gap2(w, i, q) == b
    }
}

proof fn lemma_square(d: int)
    by (nonlinear_arith)
    requires
        -0x100_0000 <= d <= 0x100_0000,
    ensures
        0 <= d * d <= 0x100_0000 * 0x100_0000,
{
}

proof fn lemma_cell(w: int, x: int, y: int)
    requires
        0 <= x < w,
        0 <= y,
    ensures
        (y * w + x) % w == x,
        (y * w + x) / w == y,
{
    assert(y * w == w * y) by (nonlinear_arith);
    vstd::arithmetic::div_mod::lemma_fundamental_div_mod_converse(y * w + x, w, y, x);
}

proof fn lemma_cell_of(w: int, p: int)
    requires
        0 < w,
        0 <= p,
    ensures
        p == (p / w) * w + p % w,
        0 <= p % w < w,
        0 <= p / w,
{
    vstd::arithmetic::div_mod::lemma_fundamental_div_mod(p, w);
    assert(w * (p / w) == (p / w) * w) by (nonlinear_arith);
    assert(0 <= p / w) by (nonlinear_arith)
        requires
            0 <= p,
            0 < w,
    ;
}

proof fn lemma_inside(dx: int, dy: int, radius: int, rad: int)
    requires
        0 <= radius,
        rad == radius / (PX as int),
        (dx * dx + dy * dy) * (PX * PX) <= radius * radius,
    ensures
        -rad <= dx <= rad,
{
    let a = if dx < 0 {
        -dx
    } else {
        dx
    };
    let s = a * 1_000_000;
    assert(a * a == dx * dx && dy * dy >= 0) by (nonlinear_arith)
        requires
            a == dx || a == -dx,
    ;
    assert(s * s <= radius * radius) by (nonlinear_arith)
        requires
            s == a * 1_000_000,
            a * a == dx * dx,
            (dx * dx + dy * dy) * (1_000_000 * 1_000_000) <= radius * radius,
            dy * dy >= 0,
    {
        assert(s * s == (a * a) * (1_000_000 * 1_000_000)) by (nonlinear_arith)
            requires
                s == a * 1_000_000,
        ;
    }
    assert(s <= radius) by (nonlinear_arith)
        requires
            s * s <= radius * radius,
            0 <= radius,
            0 <= s,
    ;
}

/// Counts the cuts of `mask` into the distances `field`; see `stamped`.
pub fn stamp_proximity(mask: &[bool], field: &mut Vec<i64>, w: usize, h: usize, radius: i64)
    requires
        0 < w <= MAX_CANVAS,
        0 < h <= MAX_CANVAS,
        mask@.len() == w * h,
        old(field)@.len() == w * h,
        0 <= radius <= 4 * MAX_SPACING,
    ensures
        final(field)@ == stamped(old(field)@, mask@, w as int, radius as int),
{
    let ghost before = field@;
    let ghost after = stamped(before, mask@, w as int, radius as int);
    let n: usize = field.len();
    for i in 0..n
        invariant
            0 < w <= MAX_CANVAS,
            0 < h <= MAX_CANVAS,
            mask@.len() == w * h,
            n == w * h,
            0 <= radius <= 4 * MAX_SPACING,
            before.len() == n,
            field@.len() == n,
            after == stamped(before, mask@, w as int, radius as int),
            forall|j: int| 0 <= j < i ==> #[trigger] field@[j] == after[j],
            forall|j: int| i <= j < n ==> #[trigger] field@[j] == before[j],
    {
        proof {
            lemma_cell_of(w as int, i as int);
            let (a, b, c) = (i as int, w as int, h as int);
            assert(a / b < c) by (nonlinear_arith)
                requires
                    0 <= a < b * c,
                    b > 0,
            ;
        }
        match nearest_cut(mask, w, h, radius, i % w, i / w) {
            None => {
                proof {
                    lemma_least(mask@, w as int, radius as int, i as int, None);
                }
            },
            Some(d) => {
                proof {
                    lemma_least(mask@, w as int, radius as int, i as int, Some(d as int));
                    assert(d * 1_000_000_000_000 == d * (1_000_000 * 1_000_000));
                }
                let far: u128 = square_root(d as u128 * 1_000_000_000_000);
                proof {
                    lemma_root(d * (PX * PX), far as int);
                }
                if field[i] > 0 && far < field[i] as u128 {
                    field.set(i, far as i64);
                } else if field[i] < 0 {
                    proof {
                        assert(root(d * (PX * PX)) >= field@[i as int]);
                    }
                }
            },
        }
    }
    proof {
        assert(field@ =~= after);
    }
}

/// A hatching: a lattice for each of the angles, and the tones at the middles of each. `r`
/// is how far the lines reach from the middle of the canvas.
pub ghost struct Hatching {
    pub l: Lattice,
    pub turns: Seq<(i64, i64)>,
    pub c: Cut,
    pub r: int,
    pub tones: Seq<Seq<i64>>,
}

impl Hatching {
    /// The lattice of an angle.
    pub open spec fn lattice(self, b: int) -> Lattice {
        Lattice {
            w: self.l.w,
            h: self.l.h,
            spacing: self.l.spacing,
            sin: self.turns[b].0,
            cos: self.turns[b].1,
        }
    }

    /// What a cut of an angle keeps free besides the least material: a segment and a pixel.
    pub open spec fn slack(self) -> int {
        segment_len(self.l.spacing as int) + PX
    }

    /// From which distance on a cut leaves the next one its full width.
    pub open spec fn radius(self) -> int {
        self.c.material + self.slack() + self.c.most as int / 2
    }

    /// How wide half a cut may be at every middle of an angle, for the given distances.
    pub open spec fn room(self, b: int, field: Seq<i64>) -> Seq<i64> {
        let s = bare(self.lattice(b), self.c, self.r);
        Seq::new(
            self.tones[b].len(),
            |j: int|
                {
                    let p = s.mid(j / s.segments(), j % s.segments());
                    (sampled(field, self.l.w as int, self.l.h as int, p.0, p.1)
                        - self.c.material - self.slack()) as i64
                },
        )
    }

    /// The screening of an angle.
    pub open spec fn screen(self, b: int, field: Seq<i64>) -> Screening {
        Screening {
            l: self.lattice(b),
            c: self.c,
            r: self.r,
            tones: self.tones[b],
            room: Some(self.room(b, field)),
        }
    }

    /// The distances to the nearest cut of the first `b` angles.
    pub open spec fn field(self, b: int) -> Seq<i64>
        decreases b,
    {
        if b <= 0 {
            Seq::new((self.l.w * self.l.h) as nat, |i: int| self.radius() as i64)
        } else {
            stamped(
                self.field(b - 1),
                cut_cells(
                    self.screen(b - 1, self.field(b - 1)).runs(),
                    self.l.w as int,
                    self.l.h as int,
                ),
                self.l.w as int,
                self.radius(),
            )
        }
    }

    /// The outlines of the first `b` angles.
    pub open spec fn runs_upto(self, b: int) -> Seq<Seq<Point>>
        decreases b,
    {
        if b <= 0 {
            Seq::empty()
        } else {
            self.runs_upto(b - 1) + self.screen(b - 1, self.field(b - 1)).runs()
        }
    }

    /// All outlines: a canvas less than three pixels wide or high has none.
    pub open spec fn runs(self) -> Seq<Seq<Point>> {
        if self.l.w < 3 || self.l.h < 3 {
            Seq::empty()
        } else {
            self.runs_upto(self.turns.len() as int)
        }
    }
}

/// The cells that one of the outlines covers.
pub open spec fn cut_cells(runs: Seq<Seq<Point>>, w: int, h: int) -> Seq<bool> {
    Seq::new(
        (w * h) as nat,
        |i: int|
            exists|k: int| 0 <= k < runs.len() && covers(#[trigger] runs[k], i % w, i / w),
    )
}

/// The hatching of a canvas.
pub open spec fn hatching(
    l: Lattice,
    turns: Seq<(i64, i64)>,
    c: Cut,
    r: int,
    tones: Seq<Vec<i64>>,
) -> Hatching {
    Hatching { l, turns, c, r, tones: Seq::new(tones.len(), |b: int| tones[b]@) }
}

/// How wide half a cut may be at every middle of a lattice; see `Hatching::room`.
fn rooms(l: &Lattice, c: &Cut, field: &[i64], Ghost(s): Ghost<Hatching>, Ghost(b): Ghost<int>) -> (
    room: Vec<i64>)
    requires
        l.wf(),
        c.wf(),
        0 < l.w,
        0 < l.h,
        field@.len() == l.w * l.h,
        field_ok(field@, 4 * MAX_SPACING),
        s.lattice(b) == *l,
        s.c == *c,
        l.is_reach(s.r),
        s.tones[b].len() == (2 * counts_of(*l, s.r).0 + 1) * counts_of(*l, s.r).1,
    ensures
        room@ == s.room(b, field@),
{
    let mids: Vec<(i64, i64)> = line_middles(l);
    let slack: i64 = segment(l.spacing) + PX;
    let ghost t = bare(*l, *c, s.r);
    let ghost want = s.room(b, field@);
    proof {
        assert(are_mids(t, mids@));
    }
    let mut room: Vec<i64> = Vec::new();
    for j in 0..mids.len()
        invariant
            l.wf(),
            c.wf(),
            0 < l.w,
            0 < l.h,
            field@.len() == l.w * l.h,
            field_ok(field@, 4 * MAX_SPACING),
            s.lattice(b) == *l,
            s.c == *c,
            l.is_reach(s.r),
            t == bare(*l, *c, s.r),
            are_mids(t, mids@),
            slack == s.slack(),
            slack <= 5_000_000,
            s.tones[b].len() == mids@.len(),
            want == s.room(b, field@),
            room@.len() == j,
            forall|k: int| 0 <= k < j ==> #[trigger] room@[k] == want[k],
    {
        let (x, y) = mids[j];
        proof {
            let m = t.segments();
            lemma_segments(*l, s.r);
            lemma_cell_of(m, j as int);
            let (a, k, n) = (j as int, j as int / m, 2 * t.side() + 1);
            assert(k < n) by (nonlinear_arith)
                requires
                    0 <= a < n * m,
                    k == a / m,
                    m > 0,
            ;
            assert(mids@[(j as int / m) * m + j as int % m] == mids@[j as int]);
        }
        room.push(sample(field, l.w, l.h, x, y) - c.material - slack);
    }
    proof {
        assert(room@ =~= want);
    }
    room
}

proof fn lemma_segments(l: Lattice, r: int)
    requires
        l.wf(),
        l.is_reach(r),
    ensures
        counts_of(l, r).1 >= 1,
{
    let b = segment_len(l.spacing as int);
    let a = 2 * r;
    assert((a + b - 1) / b >= 1) by (nonlinear_arith)
        requires
            a >= 1,
            b >= 1,
    ;
}

/// Hatches a canvas: the line screens of all angles one after the other, each narrowed
/// where the earlier ones have cut. `turns` gives the sine and the cosine of every angle,
/// and `tones` the tones at the middles of its lattice.
pub fn generate_hatch(l: &Lattice, turns: &[(i64, i64)], c: &Cut, tones: &[Vec<i64>]) -> (ribbons: Vec<
    Ribbon,
>)
    requires
        l.wf(),
        c.wf(),
        l.w * l.h <= usize::MAX,
        tones@.len() == turns@.len(),
        forall|b: int|
            0 <= b < turns@.len() ==> -TURN <= (#[trigger] turns@[b]).0 <= TURN && -TURN
                <= turns@[b].1 <= TURN,
        forall|b: int| 0 <= b < tones@.len() ==> tones_ok((#[trigger] tones@[b])@),
        forall|b: int, r: int|
            0 <= b < tones@.len() && l.is_reach(r) ==> (#[trigger] tones@[b])@.len() == (2
                * counts_of(*l, r).0 + 1) * (#[trigger] counts_of(*l, r)).1,
    ensures
        forall|r: int|
            l.is_reach(r) ==> outlines(ribbons@) == (#[trigger] hatching(
                *l,
                turns@,
                *c,
                r,
                tones@,
            )).runs(),
        ribbons_ok(ribbons@),
{
    let mut ribbons: Vec<Ribbon> = Vec::new();
    let (side, segs, r) = screen_counts(l);
    let ghost s = hatching(*l, turns@, *c, r as int, tones@);
    proof {
        assert(outlines(ribbons@) =~= Seq::<Seq<Point>>::empty());
        assert forall|q: int| l.is_reach(q) implies #[trigger] hatching(
            *l,
            turns@,
            *c,
            q,
            tones@,
        ) == s by {
            lemma_reach_unique(*l, r as int, q);
        }
    }
    if l.w < 3 || l.h < 3 {
        return ribbons;
    }
    let radius: i64 = c.material + segment(l.spacing) + PX + c.most / 2;
    let cells: usize = l.w * l.h;
    let mut field: Vec<i64> = Vec::new();
    for i in 0..cells
        invariant
            field@.len() == i,
            forall|j: int| 0 <= j < i ==> #[trigger] field@[j] == radius,
    {
        field.push(radius);
    }
    proof {
        assert(field@ =~= s.field(0));
    }
    for b in 0..turns.len()
        invariant
            l.wf(),
            c.wf(),
            3 <= l.w,
            3 <= l.h,
            l.w * l.h <= usize::MAX,
            l.is_reach(r as int),
            tones@.len() == turns@.len(),
            forall|b: int|
                0 <= b < turns@.len() ==> -TURN <= (#[trigger] turns@[b]).0 <= TURN && -TURN
                    <= turns@[b].1 <= TURN,
            forall|b: int| 0 <= b < tones@.len() ==> tones_ok((#[trigger] tones@[b])@),
            forall|b: int, r: int|
                0 <= b < tones@.len() && l.is_reach(r) ==> (#[trigger] tones@[b])@.len() == (2
                    * counts_of(*l, r).0 + 1) * (#[trigger] counts_of(*l, r)).1,
            s == hatching(*l, turns@, *c, r as int, tones@),
            radius == s.radius(),
            0 <= radius <= 4 * MAX_SPACING,
            field@ == s.field(b as int),
            field@.len() == l.w * l.h,
            field_ok(field@, 4 * MAX_SPACING),
            outlines(ribbons@) == s.runs_upto(b as int),
            ribbons_ok(ribbons@),
    {
        let lb: Lattice = Lattice {
            w: l.w,
            h: l.h,
            spacing: l.spacing,
            sin: turns[b].0,
            cos: turns[b].1,
        };
        proof {
            assert(turns@[b as int] == s.turns[b as int]);
            assert(s.tones[b as int] == tones@[b as int]@);
            assert forall|q: int| lb.is_reach(q) implies tones@[b as int]@.len() == (2 * counts_of(
                lb,
                q,
            ).0 + 1) * #[trigger] counts_of(lb, q).1 by {
                assert(l.is_reach(q));
                assert(counts_of(*l, q) == counts_of(lb, q));
            }
            assert(lb.is_reach(r as int));
            assert(counts_of(lb, r as int).1 >= 0) by {
                lemma_segments(lb, r as int);
            }
        }
        let room: Vec<i64> = rooms(&lb, c, field.as_slice(), Ghost(s), Ghost(b as int));
        let free: &[i64] = room.as_slice();
        let cuts: Vec<Ribbon> = generate_quads_prox(&lb, c, tones[b].as_slice(), Some(free));
        let ghost t = s.screen(b as int, field@);
        proof {
            let u = screening(lb, *c, r as int, tones@[b as int]@, Some(free));
            assert(u == t);
            assert(outlines(cuts@) == t.runs());
        }
        let mask: Vec<bool> = rasterize(cuts.as_slice(), l.w, l.h);
        proof {
            lemma_cut_cells(cuts@, mask@, l.w as int, l.h as int);
            lemma_stamped(field@, mask@, l.w as int, radius as int);
        }
        stamp_proximity(mask.as_slice(), &mut field, l.w, l.h, radius);
        append_ribbons(&mut ribbons, cuts);
    }
    ribbons
}

proof fn lemma_cut_cells(cuts: Seq<Ribbon>, mask: Seq<bool>, w: int, h: int)
    requires
        0 < w,
        0 < h,
        mask.len() == w * h,
        forall|x: int, y: int|
            0 <= x < w && 0 <= y < h ==> #[trigger] mask[y * w + x] == covered(
                cuts,
                x,
                y,
                cuts.len() as int,
            ),
    ensures
        mask == cut_cells(outlines(cuts), w, h),
{
    let want = cut_cells(outlines(cuts), w, h);
    assert(w * h >= 0) by (nonlinear_arith)
        requires
            0 < w,
            0 < h,
    ;
    assert forall|i: int| 0 <= i < w * h implies mask[i] == want[i] by {
        lemma_cell_of(w, i);
        let (x, y) = (i % w, i / w);
        assert(y < h) by (nonlinear_arith)
            requires
                0 <= i < w * h,
                y == i / w,
                w > 0,
        ;
        assert(mask[y * w + x] == covered(cuts, x, y, cuts.len() as int));
        let runs = outlines(cuts);
        if covered(cuts, x, y, cuts.len() as int) {
            let k = choose|k: int|
                0 <= k < cuts.len() && covers((#[trigger] cuts[k]).pts@, x, y);
            assert(covers(runs[k], x, y));
        }
        if exists|k: int| 0 <= k < runs.len() && covers(#[trigger] runs[k], x, y) {
            let k = choose|k: int| 0 <= k < runs.len() && covers(#[trigger] runs[k], x, y);
            assert(covers(cuts[k].pts@, x, y));
        }
    }
    assert(mask =~= want);
}

pub proof fn lemma_least_exists(mask: Seq<bool>, w: int, radius: int, i: int)
    ensures
        is_least(mask, w, radius, i, least(mask, w, radius, i)),
{
    if forall|q: int| !#[trigger] in_disc(mask, w, radius, i, q) {
        assert(is_least(mask, w, radius, i, None));
    } else {
        let q0 = choose|q: int| #[trigger] in_disc(mask, w, radius, i, q);
        assert(in_disc(mask, w, radius, i, q0));
        let d = lemma_least_below(mask, w, radius, i, q0);
        assert(is_least(mask, w, radius, i, Some(d)));
    }
}

pub proof fn lemma_gap2(w: int, i: int, q: int)
    ensures
        gap2(w, i, q) >= 0,
{
    let (a, b) = (i % w - q % w, i / w - q / w);
    assert(a * a + b * b >= 0) by (nonlinear_arith);
}

proof fn lemma_least_below(mask: Seq<bool>, w: int, radius: int, i: int, q0: int) -> (d: int)
    requires
        in_disc(mask, w, radius, i, q0),
    ensures
        is_least(mask, w, radius, i, Some(d)),
    decreases gap2(w, i, q0),
{
    lemma_gap2(w, i, q0);
    if exists|q: int| #[trigger] in_disc(mask, w, radius, i, q) && gap2(w, i, q) < gap2(w, i, q0) {
        let q = choose|q: int| #[trigger]
            in_disc(mask, w, radius, i, q) && gap2(w, i, q) < gap2(w, i, q0);
        lemma_gap2(w, i, q);
        lemma_least_below(mask, w, radius, i, q)
    } else {
        gap2(w, i, q0)
    }
}

/// A stamped field stays within its bounds.
proof fn lemma_stamped(field: Seq<i64>, mask: Seq<bool>, w: int, radius: int)
    requires
        field_ok(field, 4 * MAX_SPACING),
    ensures
        field_ok(stamped(field, mask, w, radius), 4 * MAX_SPACING),
{
    let after = stamped(field, mask, w, radius);
    assert forall|i: int| 0 <= i < after.len() implies 0 <= #[trigger] after[i] <= 4
        * MAX_SPACING by {
        assert(0 <= field[i] <= 4 * MAX_SPACING);
        lemma_least_exists(mask, w, radius, i);
        match least(mask, w, radius, i) {
            None => {},
            Some(d) => {
                let q = choose|q: int| #[trigger]
                    in_disc(mask, w, radius, i, q) && gap2(w, i, q) == d;
                lemma_gap2(w, i, q);
                lemma_is_root(d * (PX * PX));
            },
        }
    }
}

/// The distances that an angle is screened with count in every cut of the earlier angles:
/// none exceeds the distance to a cell that one of those has cut, and none grows as angles
/// are added.
pub proof fn lemma_field_counts_cuts(s: Hatching, a: int, b: int, i: int, q: int)
    requires
        0 <= a < b,
        0 <= i < s.l.w * s.l.h,
        in_disc(
            cut_cells(s.screen(a, s.field(a)).runs(), s.l.w as int, s.l.h as int),
            s.l.w as int,
            s.radius(),
            i,
            q,
        ),
    ensures
        s.field(b)[i] <= root(gap2(s.l.w as int, i, q) * (PX * PX)),
        s.field(b)[i] <= s.field(a)[i],
    decreases b,
{
    let w = s.l.w as int;
    let before = s.field(b - 1);
    let mask = cut_cells(s.screen(b - 1, before).runs(), w, s.l.h as int);
    lemma_field_len(s, b - 1);
    lemma_least_exists(mask, w, s.radius(), i);
    let o = least(mask, w, s.radius(), i);
    assert(s.field(b)[i] == lowered(before[i], o));
    if o is Some {
        let p = choose|p: int| #[trigger]
            in_disc(mask, w, s.radius(), i, p) && gap2(w, i, p) == o->0;
        lemma_gap2(w, i, p);
        lemma_is_root(o->0 * (PX * PX));
    }
    if a == b - 1 {
        assert(in_disc(mask, w, s.radius(), i, q));
        lemma_root_monotone(o->0 * (PX * PX), gap2(w, i, q) * (PX * PX));
    } else {
        lemma_field_counts_cuts(s, a, b - 1, i, q);
    }
}

proof fn lemma_field_len(s: Hatching, b: int)
    ensures
        s.field(b).len() == s.l.w * s.l.h,
    decreases b,
{
    assert(s.l.w * s.l.h >= 0) by (nonlinear_arith);
    if b > 0 {
        lemma_field_len(s, b - 1);
    }
}

proof fn lemma_field_ok(s: Hatching, b: int)
    requires
        s.l.wf(),
        s.c.wf(),
    ensures
        field_ok(s.field(b), 4 * MAX_SPACING),
    decreases b,
{
    if b > 0 {
        lemma_field_ok(s, b - 1);
        let before = s.field(b - 1);
        lemma_stamped(
            before,
            cut_cells(s.screen(b - 1, before).runs(), s.l.w as int, s.l.h as int),
            s.l.w as int,
            s.radius(),
        );
    }
}

/// A cut of a hatching leaves the least material, and a segment and a pixel more, to what
/// the earlier angles have cut: wherever it is cut at all, half its width stays that much
/// below the distance at its middle.
pub proof fn lemma_hatch_keeps_clear(s: Hatching, b: int, i: int, k: int)
    requires
        0 <= b < s.turns.len(),
        s.l.wf(),
        s.c.wf(),
        s.l.is_reach(s.r),
        s.tones[b].len() == (2 * counts_of(s.l, s.r).0 + 1) * counts_of(s.l, s.r).1,
        0 <= i <= 2 * counts_of(s.l, s.r).0,
        0 <= k < counts_of(s.l, s.r).1,
        0 < s.l.w,
        0 < s.l.h,
    ensures
        s.screen(b, s.field(b)).half(i, k) > 0 ==> s.screen(b, s.field(b)).half(i, k)
            + s.c.material + s.slack() <= sampled(
            s.field(b),
            s.l.w as int,
            s.l.h as int,
            s.screen(b, s.field(b)).mid(i, k).0,
            s.screen(b, s.field(b)).mid(i, k).1,
        ),
{
    let t = s.screen(b, s.field(b));
    let m = t.segments();
    let j = i * m + k;
    lemma_cell(m, k, i);
    let n = 2 * t.side() + 1;
    assert(j < n * m && 0 <= j) by (nonlinear_arith)
        requires
            0 <= i < n,
            0 <= k < m,
            j == i * m + k,
    ;
    let p = t.mid(i, k);
    lemma_field_len(s, b);
    lemma_field_ok(s, b);
    lemma_sampled(s.field(b), s.l.w as int, s.l.h as int, p.0, p.1, 4 * MAX_SPACING);
    assert(t.room == Some(s.room(b, s.field(b))));
    assert(bare(s.lattice(b), s.c, s.r).mid(i, k) == p);
    assert(s.room(b, s.field(b))[j] == sampled(s.field(b), s.l.w as int, s.l.h as int, p.0, p.1)
        - s.c.material - s.slack());
}

/// The first angle of a hatching is cut as a plain line screen: nothing narrows it.
pub proof fn lemma_first_angle_plain(s: Hatching)
    requires
        s.turns.len() > 0,
        s.l.wf(),
        s.c.wf(),
        s.l.is_reach(s.r),
        s.tones[0].len() == (2 * counts_of(s.l, s.r).0 + 1) * counts_of(s.l, s.r).1,
        tones_ok(s.tones[0]),
        0 < s.l.w,
        0 < s.l.h,
    ensures
        s.screen(0, s.field(0)).runs() == (Screening {
            l: s.lattice(0),
            c: s.c,
            r: s.r,
            tones: s.tones[0],
            room: None,
        }).runs(),
{
    let t = s.screen(0, s.field(0));
    let plain = Screening { l: s.lattice(0), c: s.c, r: s.r, tones: s.tones[0], room: None };
    let m = t.segments();
    let n = 2 * t.side() + 1;
    lemma_field_len(s, 0);
    assert forall|i: int, k: int| 0 <= i <= 2 * t.side() && 0 <= k < t.segments() implies
        #[trigger] t.half(i, k) == plain.half(i, k) by {
        let j = i * m + k;
        lemma_cell(m, k, i);
        assert(j < n * m && 0 <= j) by (nonlinear_arith)
            requires
                0 <= i < n,
                0 <= k < m,
                j == i * m + k,
        ;
        let p = t.mid(i, k);
        lemma_sampled_flat(
            s.field(0),
            s.l.w as int,
            s.l.h as int,
            p.0,
            p.1,
            s.radius() as i64,
        );
        assert(bare(s.lattice(0), s.c, s.r).mid(i, k) == p);
        assert(s.room(0, s.field(0))[j] == s.c.most / 2);
        assert(0 <= s.tones[0][j] <= FULL);
        assert(extent(s.tones[0][j] as int, s.l.spacing as int, s.c) <= s.c.most);
    }
    lemma_same_runs(t, plain);
}

/// Far from what the earlier angles have cut a cell keeps the whole distance: where none of
/// them has cut a cell within the radius of it, nothing is counted against it.
pub proof fn lemma_open_field(s: Hatching, b: int, i: int)
    requires
        0 <= b,
        0 <= i < s.l.w * s.l.h,
        forall|a: int, q: int|
            0 <= a < b ==> !#[trigger] in_disc(
                cut_cells(s.screen(a, s.field(a)).runs(), s.l.w as int, s.l.h as int),
                s.l.w as int,
                s.radius(),
                i,
                q,
            ),
    ensures
        s.field(b)[i] == s.radius() as i64,
    decreases b,
{
    lemma_field_len(s, b);
    if b > 0 {
        lemma_open_field(s, b - 1, i);
        lemma_field_len(s, b - 1);
        let w = s.l.w as int;
        let mask = cut_cells(s.screen(b - 1, s.field(b - 1)).runs(), w, s.l.h as int);
        assert forall|q: int| !#[trigger] in_disc(mask, w, s.radius(), i, q) by {
            assert(0 <= b - 1 < b);
        }
        assert(is_least(mask, w, s.radius(), i, None));
        lemma_least(mask, w, s.radius(), i, None);
    }
}

/// Every angle is cut in full where there is room: a segment whose middle lies the radius or
/// more from all that is cut before it is cut as wide as on a plain line screen.
pub proof fn lemma_open_cut(s: Hatching, b: int, i: int, k: int)
    requires
        0 <= b < s.turns.len(),
        s.l.wf(),
        s.c.wf(),
        s.l.is_reach(s.r),
        s.tones[b].len() == (2 * counts_of(s.l, s.r).0 + 1) * counts_of(s.l, s.r).1,
        tones_ok(s.tones[b]),
        0 <= i <= 2 * counts_of(s.l, s.r).0,
        0 <= k < counts_of(s.l, s.r).1,
        0 < s.l.w,
        0 < s.l.h,
        ({
            let p = s.screen(b, s.field(b)).mid(i, k);
            sampled(s.field(b), s.l.w as int, s.l.h as int, p.0, p.1) >= s.radius()
        }),
    ensures
        s.screen(b, s.field(b)).half(i, k) == (Screening {
            l: s.lattice(b),
            c: s.c,
            r: s.r,
            tones: s.tones[b],
            room: None,
        }).half(i, k),
        s.radius() == s.c.material + segment_len(s.l.spacing as int) + 1_000_000 + s.c.most as int
            / 2,
{
    let t = s.screen(b, s.field(b));
    let m = t.segments();
    let j = i * m + k;
    lemma_cell(m, k, i);
    let n = 2 * t.side() + 1;
    assert(j < n * m && 0 <= j) by (nonlinear_arith)
        requires
            0 <= i < n,
            0 <= k < m,
            j == i * m + k,
    ;
    let p = t.mid(i, k);
    lemma_field_len(s, b);
    lemma_field_ok(s, b);
    lemma_sampled(s.field(b), s.l.w as int, s.l.h as int, p.0, p.1, 4 * MAX_SPACING);
    assert(bare(s.lattice(b), s.c, s.r).mid(i, k) == p);
    assert(s.room(b, s.field(b))[j] >= s.c.most as int / 2);
    assert(0 <= s.tones[b][j] <= FULL);
    assert(extent(s.tones[b][j] as int, s.l.spacing as int, s.c) <= s.c.most);
}

/// All angles are cut, one after the other: the outlines of a hatching are those of the first
/// angle, then of the second, and so on, and none is left out.
pub proof fn lemma_all_angles(s: Hatching, b: int, n: int)
    requires
        s.l.w >= 3,
        s.l.h >= 3,
        0 <= b < s.turns.len(),
        0 <= n < s.screen(b, s.field(b)).runs().len(),
    ensures
        exists|k: int|
            0 <= k < s.runs().len() && #[trigger] s.runs()[k] == s.screen(b, s.field(b)).runs()[n],
{
    let k = s.runs_upto(b).len() + n;
    assert(s.runs_upto(b + 1)[k] == s.screen(b, s.field(b)).runs()[n]);
    lemma_runs_kept(s, b + 1, s.turns.len() as int, k);
    assert(s.runs()[k] == s.screen(b, s.field(b)).runs()[n]);
}

proof fn lemma_runs_kept(s: Hatching, a: int, b: int, k: int)
    requires
        0 < a <= b,
        0 <= k < s.runs_upto(a).len(),
    ensures
        k < s.runs_upto(b).len(),
        s.runs_upto(b)[k] == s.runs_upto(a)[k],
    decreases b - a,
{
    if a < b {
        lemma_runs_kept(s, a, b - 1, k);
    }
}

} // verus!
