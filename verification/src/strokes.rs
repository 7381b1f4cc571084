//! Line screens: along every line the stretches that are cut, and the outline of each run.

use crate::lattice::{
    bridge_at, ceil_div, cut_extent, extent, is_bridge, knot, max_cut_for, middle, milli, most_cut,
    place_of, reach, segment, segment_len, to_milli, Cut, Lattice, MAX_SPACING, PX, WHOLE,
};
use crate::raster::points_ok;
use crate::screen::tones_ok;
use crate::svg::Ribbon;
use crate::trace::Point;
use vstd::prelude::*;

verus! {

/// A line screen that is being cut: `tones` holds the tone at the middle of every segment,
/// line by line, and `room`, where there is one, the most that half a cut may take there.
pub ghost struct Screening {
    pub l: Lattice,
    pub c: Cut,
    pub r: int,
    pub tones: Seq<i64>,
    pub room: Option<Seq<i64>>,
}

/// The larger of two numbers.
pub open spec fn larger(x: int, y: int) -> int {
    if x >= y {
        x
    } else {
        y
    }
}

impl Screening {
    /// The length of a segment.
    pub open spec fn step(self) -> int {
        segment_len(self.l.spacing as int)
    }

    /// How many lines lie on either side of the one through the centre.
    pub open spec fn side(self) -> int {
        ceil_div(self.r, self.l.spacing as int)
    }

    /// How many segments a line has.
    pub open spec fn segments(self) -> int {
        ceil_div(2 * self.r, self.step())
    }

    /// How far line `i` lies from the centre.
    pub open spec fn across(self, i: int) -> int {
        (i - self.side()) * self.l.spacing
    }

    /// Where knot `k` stands along a line.
    pub open spec fn along(self, k: int) -> int {
        knot(self.r, self.step(), k)
    }

    /// Where the middle of segment `k` of line `i` lies on the canvas.
    pub open spec fn mid(self, i: int, k: int) -> (int, int) {
        self.l.place(self.across(i), middle(self.r, self.step(), k))
    }

    /// Whether that middle lies on the canvas.
    pub open spec fn on_canvas(self, i: int, k: int) -> bool {
        let p = self.mid(i, k);
        0 <= p.0 < self.l.w * PX && 0 <= p.1 < self.l.h * PX
    }

    /// Half the width of the cut along segment `k` of line `i`: none off the canvas or on a
    /// bridge.
    pub open spec fn half(self, i: int, k: int) -> int {
        let j = i * self.segments() + k;
        if !self.on_canvas(i, k) || is_bridge(self.c, i - self.side(), self.along(k)) {
            0
        } else {
            let e = extent(self.tones[j] as int, self.l.spacing as int, self.c) / 2;
            match self.room {
                None => e,
                Some(room) => {
                    let most = if room[j] > 0 {
                        room[j] as int
                    } else {
                        0
                    };
                    if e < most {
                        e
                    } else {
                        most
                    }
                },
            }
        }
    }

    /// Where the run of cut segments that holds segment `k` of line `i` starts.
    pub open spec fn run_start(self, i: int, k: int) -> int
        decreases k,
    {
        if k <= 0 || self.half(i, k - 1) <= 0 {
            k
        } else {
            self.run_start(i, k - 1)
        }
    }

    /// Half the width at knot `k` of the run from `a` to `b`: the larger of those of the two
    /// segments that share the knot, at an end that of the only one.
    pub open spec fn half_at(self, i: int, a: int, b: int, k: int) -> int {
        larger(
            self.half(
                i,
                if k > a {
                    k - 1
                } else {
                    a
                },
            ),
            self.half(
                i,
                if k < b {
                    k
                } else {
                    b - 1
                },
            ),
        )
    }

    /// Point `j` of the outline of the run of line `i` from knot `a` to knot `b`: up one
    /// edge and down the other.
    pub open spec fn edge_point(self, i: int, a: int, b: int, j: int) -> Point {
        let n = b - a + 1;
        if j < n {
            let k = a + j;
            milli(self.l.place(self.across(i) - self.half_at(i, a, b, k), self.along(k)))
        } else {
            let k = b - (j - n);
            milli(self.l.place(self.across(i) + self.half_at(i, a, b, k), self.along(k)))
        }
    }

    /// The outline of a run: one closed polygon that the laser cuts in one pass.
    pub open spec fn outline(self, i: int, a: int, b: int) -> Seq<Point> {
        Seq::new((2 * (b - a + 1)) as nat, |j: int| self.edge_point(i, a, b, j))
    }

    /// Whether a run of line `i` ends with segment `k`.
    pub open spec fn run_ends(self, i: int, k: int) -> bool {
        self.half(i, k) > 0 && (k + 1 >= self.segments() || self.half(i, k + 1) <= 0)
    }

    /// The outlines of the runs of line `i` that end within its first `k` segments.
    pub open spec fn line_runs(self, i: int, k: int) -> Seq<Seq<Point>>
        decreases k,
    {
        if k <= 0 {
            Seq::empty()
        } else if self.run_ends(i, k - 1) {
            self.line_runs(i, k - 1).push(self.outline(i, self.run_start(i, k - 1), k))
        } else {
            self.line_runs(i, k - 1)
        }
    }

    /// The outlines of all runs of the first `i` lines.
    pub open spec fn runs_upto(self, i: int) -> Seq<Seq<Point>>
        decreases i,
    {
        if i <= 0 {
            Seq::empty()
        } else {
            self.runs_upto(i - 1) + self.line_runs(i - 1, self.segments())
        }
    }

    /// The outlines of all runs.
    pub open spec fn runs(self) -> Seq<Seq<Point>> {
        self.runs_upto(2 * self.side() + 1)
    }

    /// Whether the screening can be carried out.
    pub open spec fn wf(self) -> bool {
        &&& self.l.wf()
        &&& self.c.wf()
        &&& self.l.is_reach(self.r)
        &&& self.r <= 0x20_0000_0000_0000
        &&& tones_ok(self.tones)
        &&& self.tones.len() == (2 * self.side() + 1) * self.segments()
        &&& self.room matches Some(room) ==> room.len() == self.tones.len()
    }
}

/// The counts of a line screen: how many lines on either side, and how many segments each.
pub open spec fn counts_of(l: Lattice, r: int) -> (int, int) {
    (ceil_div(r, l.spacing as int), ceil_div(2 * r, segment_len(l.spacing as int)))
}

proof fn lemma_ceil(a: int, b: int)
    requires
        a > 0,
        b > 0,
    ensures
        ceil_div(a, b) >= 1,
        (ceil_div(a, b) - 1) * b < a <= ceil_div(a, b) * b,
        ceil_div(a, b) <= a,
{
    let q = ceil_div(a, b);
    vstd::arithmetic::div_mod::lemma_fundamental_div_mod(a + b - 1, b);
    let m = (a + b - 1) % b;
    assert(q >= 1 && (q - 1) * b < a && a <= q * b && q <= a) by (nonlinear_arith)
        requires
            a > 0,
            b > 0,
            a + b - 1 == b * q + m,
            0 <= m < b,
    ;
}

/// How many lines lie on either side of the centre, how many segments each has, and how far
/// it reaches.
pub fn screen_counts(l: &Lattice) -> (n: (u64, u64, i64))
    requires
        l.wf(),
    ensures
        l.is_reach(n.2 as int),
        0 < n.2 <= 0x20_0000_0000_0000,
        counts_of(*l, n.2 as int) == (n.0 as int, n.1 as int),
        1 <= n.0 <= 0x20_0000_0000_0000,
        1 <= n.1 <= 0x40_0000_0000_0000,
{
    let r: i64 = reach(l);
    let s: i64 = segment(l.spacing);
    proof {
        lemma_ceil(r as int, l.spacing as int);
        lemma_ceil(2 * r, s as int);
    }
    let side: i64 = (r + l.spacing - 1) / l.spacing;
    let segs: i64 = (2 * r + s - 1) / s;
    (side as u64, segs as u64, r)
}

/// The place of line `i` across the screen stays within reach.
proof fn lemma_across(l: Lattice, r: int, i: int)
    requires
        l.wf(),
        0 < r <= 0x20_0000_0000_0000,
        0 <= i <= 2 * counts_of(l, r).0,
    ensures
        -0x22_0000_0000_0000 <= (i - counts_of(l, r).0) * l.spacing <= 0x22_0000_0000_0000,
{
    let n = counts_of(l, r).0;
    let s = l.spacing as int;
    lemma_ceil(r, s);
    assert(-(n * s) <= (i - n) * s <= n * s) by (nonlinear_arith)
        requires
            0 <= i <= 2 * n,
            s > 0,
    ;
    assert(n * s < r + s) by (nonlinear_arith)
        requires
            (n - 1) * s < r,
    ;
}

/// The knots of a line stay within its reach.
proof fn lemma_along(l: Lattice, r: int, k: int)
    requires
        l.wf(),
        0 < r <= 0x20_0000_0000_0000,
        0 <= k <= counts_of(l, r).1,
    ensures
        -r <= knot(r, segment_len(l.spacing as int), k) <= r,
        0 <= k * segment_len(l.spacing as int) <= 2 * r + 4_000_000,
{
    let m = counts_of(l, r).1;
    let s = segment_len(l.spacing as int);
    lemma_ceil(2 * r, s);
    assert(0 <= k * s <= m * s) by (nonlinear_arith)
        requires
            0 <= k <= m,
            s > 0,
    ;
    assert(m * s < 2 * r + s) by (nonlinear_arith)
        requires
            (m - 1) * s < 2 * r,
    ;
}

pub(crate) fn across_of(l: &Lattice, side: u64, r: i64, i: u64) -> (u: i64)
    requires
        l.wf(),
        0 < r <= 0x20_0000_0000_0000,
        side == counts_of(*l, r as int).0,
        side <= 0x20_0000_0000_0000,
        i <= 2 * side,
    ensures
        u == (i - side) * l.spacing,
        -0x22_0000_0000_0000 <= u <= 0x22_0000_0000_0000,
{
    proof {
        lemma_across(*l, r as int, i as int);
    }
    (i as i64 - side as i64) * l.spacing
}

pub(crate) fn knot_of(l: &Lattice, segs: u64, r: i64, k: u64) -> (v: i64)
    requires
        l.wf(),
        0 < r <= 0x20_0000_0000_0000,
        segs == counts_of(*l, r as int).1,
        segs <= 0x40_0000_0000_0000,
        k <= segs,
    ensures
        v == knot(r as int, segment_len(l.spacing as int), k as int),
        -r <= v <= r,
{
    let s: i64 = segment(l.spacing);
    proof {
        lemma_along(*l, r as int, k as int);
    }
    let v: i64 = k as i64 * s - r;
    if v < r {
        v
    } else {
        r
    }
}

/// `(a + b) / 2`, rounded down.
pub(crate) fn mean(a: i64, b: i64) -> (m: i64)
    requires
        -0x20_0000_0000_0000 <= a <= 0x20_0000_0000_0000,
        -0x20_0000_0000_0000 <= b <= 0x20_0000_0000_0000,
    ensures
        m == (a + b) / 2,
        -0x20_0000_0000_0000 <= m <= 0x20_0000_0000_0000,
{
    let s: i64 = a + b;
    if s >= 0 {
        s / 2
    } else {
        -((1 - s) / 2)
    }
}

fn mid_of(l: &Lattice, side: u64, segs: u64, r: i64, i: u64, k: u64) -> (p: (i64, i64))
    requires
        l.wf(),
        0 < r <= 0x20_0000_0000_0000,
        counts_of(*l, r as int) == (side as int, segs as int),
        side <= 0x20_0000_0000_0000,
        segs <= 0x40_0000_0000_0000,
        i <= 2 * side,
        k < segs,
    ensures
        (p.0 as int, p.1 as int) == l.place(
            (i - side) * l.spacing,
            middle(r as int, segment_len(l.spacing as int), k as int),
        ),
{
    let u: i64 = across_of(l, side, r, i);
    let v: i64 = mean(knot_of(l, segs, r, k), knot_of(l, segs, r, k + 1));
    place_of(l, u, v)
}

/// Whether `mids` are the middles of all segments, line by line.
pub open spec fn are_mids(s: Screening, mids: Seq<(i64, i64)>) -> bool {
    &&& mids.len() == (2 * s.side() + 1) * s.segments()
    &&& forall|i: int, k: int|
        #![trigger mids[i * s.segments() + k]]
        0 <= i <= 2 * s.side() && 0 <= k < s.segments() ==> s.mid(i, k) == (
            mids[i * s.segments() + k].0 as int,
            mids[i * s.segments() + k].1 as int,
        )
}

/// The screening of a lattice, without tones.
pub open spec fn bare(l: Lattice, c: Cut, r: int) -> Screening {
    Screening { l, c, r, tones: Seq::empty(), room: None }
}

/// Where the middles of all segments lie on the canvas, line by line: the tone is taken
/// there.
pub fn line_middles(l: &Lattice) -> (mids: Vec<(i64, i64)>)
    requires
        l.wf(),
    ensures
        forall|c: Cut, r: int| l.is_reach(r) ==> #[trigger] are_mids(bare(*l, c, r), mids@),
{
    let (side, segs, r) = screen_counts(l);
    let ghost m = segs as int;
    let mut mids: Vec<(i64, i64)> = Vec::new();
    let mut i: u64 = 0;
    proof {
        assert(0 * m == 0) by (nonlinear_arith);
    }
    while i < 2 * side + 1
        invariant
            l.wf(),
            0 < r <= 0x20_0000_0000_0000,
            counts_of(*l, r as int) == (side as int, segs as int),
            side <= 0x20_0000_0000_0000,
            segs <= 0x40_0000_0000_0000,
            m == segs,
            i <= 2 * side + 1,
            mids@.len() == i * m,
            forall|a: int, k: int|
                #![trigger mids@[a * m + k]]
                0 <= a < i && 0 <= k < m ==> (
                    mids@[a * m + k].0 as int,
                    mids@[a * m + k].1 as int,
                ) == l.place(
                    (a - side) * l.spacing,
                    middle(r as int, segment_len(l.spacing as int), k),
                ),
        decreases 2 * side + 1 - i,
    {
        let mut k: u64 = 0;
        while k < segs
            invariant
                l.wf(),
                0 < r <= 0x20_0000_0000_0000,
                counts_of(*l, r as int) == (side as int, segs as int),
                side <= 0x20_0000_0000_0000,
                segs <= 0x40_0000_0000_0000,
                m == segs,
                i <= 2 * side,
                k <= segs,
                mids@.len() == i * m + k,
                forall|a: int, b: int|
                    #![trigger mids@[a * m + b]]
                    (0 <= a < i && 0 <= b < m) || (a == i && 0 <= b < k) ==> (
                        mids@[a * m + b].0 as int,
                        mids@[a * m + b].1 as int,
                    ) == l.place(
                        (a - side) * l.spacing,
                        middle(r as int, segment_len(l.spacing as int), b),
                    ),
            decreases segs - k,
        {
            let ghost before = mids@;
            let p: (i64, i64) = mid_of(l, side, segs, r, i, k);
            mids.push(p);
            proof {
                assert forall|a: int, b: int|
                    #![trigger mids@[a * m + b]]
                    (0 <= a < i && 0 <= b < m) || (a == i && 0 <= b < k + 1) implies (
                    mids@[a * m + b].0 as int,
                    mids@[a * m + b].1 as int,
                ) == l.place(
                    (a - side) * l.spacing,
                    middle(r as int, segment_len(l.spacing as int), b),
                ) by {
                    if a < i || b < k {
                        assert(0 <= a * m + b < i * m + k) by (nonlinear_arith)
                            requires
                                0 <= a,
                                0 <= b < m,
                                a < i || (a == i && b < k),
                                0 <= k,
                        ;
                        assert(mids@[a * m + b] == before[a * m + b]);
                    } else {
                        assert(mids@[a * m + b] == p);
                    }
                }
            }
            k = k + 1;
        }
        proof {
            assert((i + 1) * m == i * m + m) by (nonlinear_arith);
        }
        i = i + 1;
    }
    proof {
        assert forall|c: Cut, q: int| l.is_reach(q) implies #[trigger] are_mids(
            bare(*l, c, q),
            mids@,
        ) by {
            lemma_reach_unique(*l, r as int, q);
        }
    }
    mids
}

/// There is one reach only.
pub proof fn lemma_reach_unique(l: Lattice, a: int, b: int)
    requires
        l.is_reach(a),
        l.is_reach(b),
    ensures
        a == b,
{
    let (x, y) = (a - l.spacing, b - l.spacing);
    let d = (l.w * l.w + l.h * l.h) * 1_000_000_000_000;
    if x < y {
        assert(false) by (nonlinear_arith)
            requires
                0 <= x < y,
                (2 * y) * (2 * y) <= d,
                d < (2 * x + 2) * (2 * x + 2),
        ;
    }
    if y < x {
        assert(false) by (nonlinear_arith)
            requires
                0 <= y < x,
                (2 * x) * (2 * x) <= d,
                d < (2 * y + 2) * (2 * y + 2),
        ;
    }
}

/// Half the width of a cut; see `Screening::half`.
fn half_of(
    l: &Lattice,
    c: &Cut,
    tones: &[i64],
    room: Option<&[i64]>,
    side: u64,
    segs: u64,
    r: i64,
    i: u64,
    k: u64,
    j: usize,
    Ghost(s): Ghost<Screening>,
) -> (hw: i64)
    requires
        s.wf(),
        s.l == *l,
        s.c == *c,
        s.r == r,
        s.tones == tones@,
        s.room == (match room {
            Some(v) => Some(v@),
            None => None,
        }),
        0 < r <= 0x20_0000_0000_0000,
        counts_of(*l, r as int) == (side as int, segs as int),
        side <= 0x20_0000_0000_0000,
        segs <= 0x40_0000_0000_0000,
        i <= 2 * side,
        k < segs,
        j == i * segs + k,
        j < tones@.len(),
    ensures
        hw == s.half(i as int, k as int),
        0 <= hw <= MAX_SPACING,
{
    let p: (i64, i64) = mid_of(l, side, segs, r, i, k);
    let off: bool = p.0 < 0 || p.0 >= l.w as i64 * PX || p.1 < 0 || p.1 >= l.h as i64 * PX;
    let v: i64 = knot_of(l, segs, r, k);
    if off || bridge_at(c, i as i64 - side as i64, v) {
        0
    } else {
        let e: i64 = cut_extent(tones[j], l.spacing, c) / 2;
        match room {
            None => e,
            Some(m) => {
                let most: i64 = if m[j] > 0 { m[j] } else { 0 };
                if e < most {
                    e
                } else {
                    most
                }
            },
        }
    }
}

/// The larger of the half widths of the segments on either side of knot `k`, of those
/// between knots `a` and `b`.
pub(crate) fn knot_half(halves: &Vec<i64>, a: usize, b: usize, k: usize) -> (hw: i64)
    requires
        a < b <= halves@.len(),
        a <= k <= b,
    ensures
        hw == larger(
            halves@[if k > a {
                k - 1
            } else {
                a as int
            }] as int,
            halves@[if k < b {
                k as int
            } else {
                b - 1
            }] as int,
        ),
{
    let before: i64 = halves[if k > a { k - 1 } else { a }];
    let after: i64 = halves[if k < b { k } else { b - 1 }];
    if before >= after {
        before
    } else {
        after
    }
}

/// The outline of one run; see `Screening::outline`.
fn outline_of(
    l: &Lattice,
    halves: &Vec<i64>,
    side: u64,
    segs: u64,
    r: i64,
    i: u64,
    a: u64,
    b: u64,
    Ghost(s): Ghost<Screening>,
) -> (pts: Vec<Point>)
    requires
        s.wf(),
        s.l == *l,
        s.r == r,
        0 < r <= 0x20_0000_0000_0000,
        counts_of(*l, r as int) == (side as int, segs as int),
        side <= 0x20_0000_0000_0000,
        segs <= 0x40_0000_0000_0000,
        i <= 2 * side,
        a < b <= segs,
        halves@.len() == segs,
        forall|k: int|
            0 <= k < segs ==> #[trigger] halves@[k] == s.half(i as int, k) && 0 <= halves@[k]
                <= MAX_SPACING,
    ensures
        pts@ == s.outline(i as int, a as int, b as int),
        points_ok(pts@),
{
    let len: usize = halves.len();
    let u: i64 = across_of(l, side, r, i);
    let mut pts: Vec<Point> = Vec::new();
    let mut k: u64 = a;
    while k <= b
        invariant
            len == segs,
            s.wf(),
            s.l == *l,
            s.r == r,
            0 < r <= 0x20_0000_0000_0000,
            counts_of(*l, r as int) == (side as int, segs as int),
            segs <= 0x40_0000_0000_0000,
            a < b <= segs,
            a <= k <= b + 1,
            halves@.len() == segs,
            forall|k: int|
                0 <= k < segs ==> #[trigger] halves@[k] == s.half(i as int, k) && 0 <= halves@[k]
                    <= MAX_SPACING,
            u == s.across(i as int),
            -0x22_0000_0000_0000 <= u <= 0x22_0000_0000_0000,
            pts@.len() == k - a,
            forall|j: int|
                0 <= j < pts@.len() ==> #[trigger] pts@[j] == s.edge_point(
                    i as int,
                    a as int,
                    b as int,
                    j,
                ),
            points_ok(pts@),
        decreases b + 1 - k,
    {
        let hw: i64 = knot_half(halves, a as usize, b as usize, k as usize);
        let v: i64 = knot_of(l, segs, r, k);
        pts.push(to_milli(place_of(l, u - hw, v)));
        k = k + 1;
    }
    let ghost n = b - a + 1;
    let mut left: u64 = b + 1;
    while left > a
        invariant
            len == segs,
            s.wf(),
            s.l == *l,
            s.r == r,
            0 < r <= 0x20_0000_0000_0000,
            counts_of(*l, r as int) == (side as int, segs as int),
            segs <= 0x40_0000_0000_0000,
            a < b <= segs,
            a <= left <= b + 1,
            n == b - a + 1,
            halves@.len() == segs,
            forall|k: int|
                0 <= k < segs ==> #[trigger] halves@[k] == s.half(i as int, k) && 0 <= halves@[k]
                    <= MAX_SPACING,
            u == s.across(i as int),
            -0x22_0000_0000_0000 <= u <= 0x22_0000_0000_0000,
            pts@.len() == n + (b + 1 - left),
            forall|j: int|
                0 <= j < pts@.len() ==> #[trigger] pts@[j] == s.edge_point(
                    i as int,
                    a as int,
                    b as int,
                    j,
                ),
            points_ok(pts@),
        decreases left,
    {
        left = left - 1;
        let hw: i64 = knot_half(halves, a as usize, b as usize, left as usize);
        let v: i64 = knot_of(l, segs, r, left);
        pts.push(to_milli(place_of(l, u + hw, v)));
    }
    proof {
        assert(pts@ =~= s.outline(i as int, a as int, b as int));
    }
    pts
}

/// The outlines of a list of ribbons.
pub open spec fn outlines(v: Seq<Ribbon>) -> Seq<Seq<Point>> {
    Seq::new(v.len(), |k: int| v[k].pts@)
}

/// Whether all ribbons lie within reach.
pub open spec fn ribbons_ok(v: Seq<Ribbon>) -> bool {
    forall|k: int| 0 <= k < v.len() ==> points_ok((#[trigger] v[k]).pts@)
}

/// Cuts a line screen: for every run of cut segments one closed outline, line by line.
/// `tones` holds the tone at every middle that `line_middles` gives.
pub fn generate_quads_prox(l: &Lattice, c: &Cut, tones: &[i64], room: Option<&[i64]>) -> (ribbons: Vec<
    Ribbon,
>)
    requires
        l.wf(),
        c.wf(),
        tones_ok(tones@),
        forall|r: int|
            l.is_reach(r) ==> tones@.len() == (2 * counts_of(*l, r).0 + 1) * #[trigger] counts_of(
                *l,
                r,
            ).1,
        room matches Some(v) ==> v@.len() == tones@.len(),
    ensures
        forall|r: int|
            l.is_reach(r) ==> outlines(ribbons@) == (#[trigger] screening(
                *l,
                *c,
                r,
                tones@,
                room,
            )).runs(),
        ribbons_ok(ribbons@),
{
    let (side, segs, r) = screen_counts(l);
    let ghost s = screening(*l, *c, r as int, tones@, room);
    let ghost m = segs as int;
    proof {
        assert(tones@.len() == (2 * counts_of(*l, r as int).0 + 1) * counts_of(*l, r as int).1);
        assert(s.wf());
        assert(0 * m == 0) by (nonlinear_arith);
    }
    let total: usize = tones.len();
    let mut ribbons: Vec<Ribbon> = Vec::new();
    let mut i: u64 = 0;
    let mut j: usize = 0;
    while i < 2 * side + 1
        invariant
            total == tones@.len(),
            s.wf(),
            s == screening(*l, *c, r as int, tones@, room),
            0 < r <= 0x20_0000_0000_0000,
            counts_of(*l, r as int) == (side as int, segs as int),
            side <= 0x20_0000_0000_0000,
            segs <= 0x40_0000_0000_0000,
            m == segs,
            i <= 2 * side + 1,
            j == i * m,
            tones@.len() == (2 * side + 1) * m,
            outlines(ribbons@) == s.runs_upto(i as int),
            ribbons_ok(ribbons@),
        decreases 2 * side + 1 - i,
    {
        let ghost head = outlines(ribbons@);
        let mut halves: Vec<i64> = Vec::new();
        let mut k: u64 = 0;
        while k < segs
            invariant
                total == tones@.len(),
                s.wf(),
                s == screening(*l, *c, r as int, tones@, room),
                0 < r <= 0x20_0000_0000_0000,
                counts_of(*l, r as int) == (side as int, segs as int),
                side <= 0x20_0000_0000_0000,
                segs <= 0x40_0000_0000_0000,
                m == segs,
                i <= 2 * side,
                k <= segs,
                j == i * m + k,
                tones@.len() == (2 * side + 1) * m,
                halves@.len() == k,
                forall|b: int|
                    0 <= b < k ==> #[trigger] halves@[b] == s.half(i as int, b) && 0 <= halves@[b]
                        <= MAX_SPACING,
            decreases segs - k,
        {
            proof {
                assert(i * m + k < (2 * side + 1) * m) by (nonlinear_arith)
                    requires
                        i <= 2 * side,
                        0 <= k < m,
                ;
            }
            let hw: i64 = half_of(l, c, tones, room, side, segs, r, i, k, j, Ghost(s));
            halves.push(hw);
            j = j + 1;
            k = k + 1;
        }
        let len: usize = halves.len();
        let mut start: u64 = 0;
        let mut k: u64 = 0;
        while k < segs
            invariant
                len == segs,
                s.wf(),
                s.l == *l,
                s.r == r,
                0 < r <= 0x20_0000_0000_0000,
                counts_of(*l, r as int) == (side as int, segs as int),
                side <= 0x20_0000_0000_0000,
                segs <= 0x40_0000_0000_0000,
                i <= 2 * side,
                k <= segs,
                halves@.len() == segs,
                forall|b: int|
                    0 <= b < segs ==> #[trigger] halves@[b] == s.half(i as int, b) && 0
                        <= halves@[b] <= MAX_SPACING,
                start <= k,
                start == s.run_start(i as int, k as int),
                outlines(ribbons@) == head + s.line_runs(i as int, k as int),
                ribbons_ok(ribbons@),
            decreases segs - k,
        {
            let cut: bool = halves[k as usize] > 0;
            let more: bool = k + 1 < segs && halves[(k + 1) as usize] > 0;
            proof {
                assert(halves@[k as int] == s.half(i as int, k as int));
                if k + 1 < segs {
                    assert(halves@[k + 1] == s.half(i as int, k + 1));
                }
            }
            if cut && !more {
                let ghost before = ribbons@;
                let pts: Vec<Point> = outline_of(
                    l,
                    &halves,
                    side,
                    segs,
                    r,
                    i,
                    start,
                    k + 1,
                    Ghost(s),
                );
                let ghost o = pts@;
                ribbons.push(Ribbon { pts });
                proof {
                    assert(outlines(ribbons@) =~= outlines(before).push(o));
                    assert(outlines(ribbons@) =~= head + s.line_runs(i as int, k + 1));
                    assert(ribbons_ok(ribbons@)) by {
                        assert forall|q: int| 0 <= q < ribbons@.len() implies points_ok(
                            (#[trigger] ribbons@[q]).pts@,
                        ) by {
                            if q < before.len() {
                                assert(ribbons@[q] == before[q]);
                            }
                        }
                    }
                }
            }
            if !cut {
                start = k + 1;
            }
            k = k + 1;
        }
        proof {
            assert((i + 1) * m == i * m + m) by (nonlinear_arith);
        }
        i = i + 1;
    }
    proof {
        assert forall|q: int| l.is_reach(q) implies outlines(ribbons@) == (#[trigger] screening(
            *l,
            *c,
            q,
            tones@,
            room,
        )).runs() by {
            lemma_reach_unique(*l, r as int, q);
        }
    }
    ribbons
}

/// Cuts a line screen; see `generate_quads_prox`.
pub fn generate_quads_capped(l: &Lattice, c: &Cut, tones: &[i64]) -> (ribbons: Vec<Ribbon>)
    requires
        l.wf(),
        c.wf(),
        tones_ok(tones@),
        forall|r: int|
            l.is_reach(r) ==> tones@.len() == (2 * counts_of(*l, r).0 + 1) * #[trigger] counts_of(
                *l,
                r,
            ).1,
    ensures
        forall|r: int|
            l.is_reach(r) ==> outlines(ribbons@) == (#[trigger] screening(
                *l,
                *c,
                r,
                tones@,
                None,
            )).runs(),
        ribbons_ok(ribbons@),
{
    generate_quads_prox(l, c, tones, None)
}

/// The limits of a screen whose cuts may take all but the least material of a spacing.
pub open spec fn uncapped(l: Lattice, c: Cut) -> Cut {
    Cut {
        least: c.least,
        most: most_cut(l.spacing as int, c.material as int, WHOLE as int) as i64,
        kerf: c.kerf,
        load: c.load,
        interval: c.interval,
        bridge: c.bridge,
        material: c.material,
    }
}

/// Cuts a line screen whose cuts may take all but the least material of a spacing.
pub fn generate_quads(l: &Lattice, c: &Cut, tones: &[i64]) -> (ribbons: Vec<Ribbon>)
    requires
        l.wf(),
        c.wf(),
        tones_ok(tones@),
        forall|r: int|
            l.is_reach(r) ==> tones@.len() == (2 * counts_of(*l, r).0 + 1) * #[trigger] counts_of(
                *l,
                r,
            ).1,
    ensures
        forall|r: int|
            l.is_reach(r) ==> outlines(ribbons@) == (#[trigger] screening(
                *l,
                uncapped(*l, *c),
                r,
                tones@,
                None,
            )).runs(),
        ribbons_ok(ribbons@),
{
    let most: i64 = max_cut_for(l.spacing, c.material, WHOLE);
    let d: Cut = Cut {
        least: c.least,
        most,
        kerf: c.kerf,
        load: c.load,
        interval: c.interval,
        bridge: c.bridge,
        material: c.material,
    };
    generate_quads_capped(l, &d, tones)
}

/// The screening of a lattice with the given tones.
pub open spec fn screening(
    l: Lattice,
    c: Cut,
    r: int,
    tones: Seq<i64>,
    room: Option<&[i64]>,
) -> Screening {
    Screening {
        l,
        c,
        r,
        tones,
        room: match room {
            Some(v) => Some(v@),
            None => None,
        },
    }
}

/// Every cut of a line screen keeps clear of the next line: the far edge of a cut lies at
/// most half the widest cut from its line, so that between two lines at least the least
/// material is left.
pub proof fn lemma_lines_clear(s: Screening, i: int, k: int, j: int, load: int)
    requires
        s.wf(),
        s.c.material <= s.l.spacing,
        0 <= load <= crate::lattice::WHOLE,
        s.c.most == crate::lattice::most_cut(s.l.spacing as int, s.c.material as int, load),
        s.room is None,
    ensures
        (s.across(i + 1) - s.half(i + 1, j)) - (s.across(i) + s.half(i, k)) >= s.c.material,
{
    let (a, b) = (s.tones[i * s.segments() + k], s.tones[(i + 1) * s.segments() + j]);
    crate::lattice::lemma_material_stands(
        a as int,
        b as int,
        s.l.spacing as int,
        s.c.material as int,
        load,
        s.c,
    );
    let n = s.side();
    let sp = s.l.spacing as int;
    assert((i + 1 - n) * sp == (i - n) * sp + sp) by (nonlinear_arith);
    lemma_half_bounds(s, i, k);
    lemma_half_bounds(s, i + 1, j);
}

proof fn lemma_half_bounds(s: Screening, i: int, k: int)
    requires
        s.c.wf(),
        s.room is None,
    ensures
        s.half(i, k) <= extent(
            s.tones[i * s.segments() + k] as int,
            s.l.spacing as int,
            s.c,
        ) / 2,
        0 <= s.half(i, k) <= s.c.most / 2,
{
}

/// Whether two screens of one lattice cut every segment equally wide.
pub open spec fn same_halves(s: Screening, t: Screening) -> bool {
    &&& s.l == t.l
    &&& s.c == t.c
    &&& s.r == t.r
    &&& forall|i: int, k: int|
        0 <= i <= 2 * s.side() && 0 <= k < s.segments() ==> #[trigger] s.half(i, k) == t.half(i, k)
}

proof fn lemma_same_start(s: Screening, t: Screening, i: int, k: int)
    requires
        same_halves(s, t),
        0 <= i <= 2 * s.side(),
        0 <= k <= s.segments(),
    ensures
        s.run_start(i, k) == t.run_start(i, k),
        0 <= s.run_start(i, k) <= k,
    decreases k,
{
    if k > 0 {
        assert(s.half(i, k - 1) == t.half(i, k - 1));
        if s.half(i, k - 1) > 0 {
            lemma_same_start(s, t, i, k - 1);
        }
    }
}

proof fn lemma_same_line(s: Screening, t: Screening, i: int, k: int)
    requires
        same_halves(s, t),
        0 <= i <= 2 * s.side(),
        0 <= k <= s.segments(),
    ensures
        s.line_runs(i, k) == t.line_runs(i, k),
    decreases k,
{
    if k > 0 {
        lemma_same_line(s, t, i, k - 1);
        lemma_same_start(s, t, i, k - 1);
        assert(s.half(i, k - 1) == t.half(i, k - 1));
        if k < s.segments() {
            assert(s.half(i, k) == t.half(i, k));
        }
        let a = s.run_start(i, k - 1);
        assert forall|j: int| 0 <= j < 2 * (k - a + 1) implies s.edge_point(i, a, k, j)
            == t.edge_point(i, a, k, j) by {
            let n = k - a + 1;
            let q = if j < n {
                a + j
            } else {
                k - (j - n)
            };
            let m = if q > a {
                q - 1
            } else {
                a
            };
            let p = if q < k {
                q
            } else {
                k - 1
            };
            assert(s.half(i, m) == t.half(i, m));
            assert(s.half(i, p) == t.half(i, p));
        }
        assert(s.outline(i, a, k) =~= t.outline(i, a, k));
    }
}

proof fn lemma_same_upto(s: Screening, t: Screening, i: int)
    requires
        same_halves(s, t),
        0 <= i <= 2 * s.side() + 1,
        s.segments() >= 0,
    ensures
        s.runs_upto(i) == t.runs_upto(i),
    decreases i,
{
    if i > 0 {
        lemma_same_upto(s, t, i - 1);
        lemma_same_line(s, t, i - 1, s.segments());
    }
}

/// Screens that cut every segment equally wide have the same outlines.
pub proof fn lemma_same_runs(s: Screening, t: Screening)
    requires
        same_halves(s, t),
        s.l.spacing > 0,
        s.l.is_reach(s.r),
    ensures
        s.runs() == t.runs(),
{
    lemma_ceil(s.r, s.l.spacing as int);
    lemma_ceil(2 * s.r, segment_len(s.l.spacing as int));
    lemma_same_upto(s, t, 2 * s.side() + 1);
}

} // verus!
