//! Wavy screens: lines that swing from side to side, stroked across the way they run.

use crate::arith::{floor_div, square_root};
use crate::lattice::{
    bridge_at, cut_extent, extent, is_bridge, knot, middle, milli, place_of, segment_len, to_milli,
    Cut, Lattice, MAX_PLACE, MAX_SPACING, PX, TURN,
};
use crate::raster::points_ok;
use crate::screen::{cut_runs, lemma_runs, runs_in, tones_ok};
use crate::strokes::{
    across_of, counts_of, knot_half, knot_of, larger, lemma_reach_unique, mean, outlines,
    ribbons_ok, screen_counts,
};
use crate::svg::Ribbon;
use crate::trace::Point;
use vstd::prelude::*;

verus! {

/// How far the lines swing: as far as is asked for, but no farther than leaves neighbouring
/// lines clear of each other.
pub open spec fn swing_of(asked: int, spacing: int, most: int) -> int {
    let room = (spacing - most) / 2;
    let a = if asked < room {
        asked
    } else {
        room
    };
    if a > 0 {
        a
    } else {
        0
    }
}

/// How far the lines swing; see `swing_of`.
pub fn swing_limit(asked: i64, spacing: i64, most: i64) -> (a: i64)
    requires
        -MAX_SPACING <= asked <= MAX_SPACING,
        0 < spacing <= MAX_SPACING,
        0 <= most <= MAX_SPACING,
    ensures
        a == swing_of(asked as int, spacing as int, most as int),
        0 <= a <= MAX_SPACING,
{
    if spacing <= most {
        0
    } else {
        let room: i64 = (spacing - most) / 2;
        let a: i64 = if asked < room { asked } else { room };
        if a > 0 {
            a
        } else {
            0
        }
    }
}

/// A wavy screen that is being cut: `mids` and `knots` hold the sine of the wave at the
/// middle of every segment and at every knot, and `tones` the tone at every middle, line by
/// line.
pub ghost struct Waving {
    pub l: Lattice,
    pub c: Cut,
    pub r: int,
    pub swing: int,
    pub mids: Seq<i64>,
    pub knots: Seq<i64>,
    pub tones: Seq<i64>,
}

impl Waving {
    /// How many lines lie on either side of the one through the centre.
    pub open spec fn side(self) -> int {
        counts_of(self.l, self.r).0
    }

    /// How many segments a line has.
    pub open spec fn segments(self) -> int {
        counts_of(self.l, self.r).1
    }

    /// Where knot `k` stands along a line.
    pub open spec fn along(self, k: int) -> int {
        knot(self.r, segment_len(self.l.spacing as int), k)
    }

    /// How far a wave with the given sine is off its line.
    pub open spec fn shift(self, sine: i64) -> int {
        self.swing * sine / (TURN as int)
    }

    /// Where the middle of segment `k` of line `i` lies on the canvas.
    pub open spec fn mid(self, i: int, k: int) -> (int, int) {
        self.l.place(
            (i - self.side()) * self.l.spacing + self.shift(self.mids[k]),
            middle(self.r, segment_len(self.l.spacing as int), k),
        )
    }

    /// Half the width of the cut along segment `k` of line `i`: none off the canvas or on a
    /// bridge.
    pub open spec fn half(self, i: int, k: int) -> int {
        let p = self.mid(i, k);
        let on = 0 <= p.0 < self.l.w * PX && 0 <= p.1 < self.l.h * PX;
        if !on || is_bridge(self.c, i - self.side(), self.along(k)) {
            0
        } else {
            extent(
                self.tones[i * self.segments() + k] as int,
                self.l.spacing as int,
                self.c,
            ) / 2
        }
    }

    /// Which segments of line `i` are cut.
    pub open spec fn cuts(self, i: int) -> Seq<bool> {
        Seq::new(self.segments() as nat, |k: int| self.half(i, k) > 0)
    }

    /// Where knot `k` of line `i` lies on the canvas.
    pub open spec fn centre(self, i: int, k: int) -> (int, int) {
        self.l.place(
            (i - self.side()) * self.l.spacing + self.shift(self.knots[k]),
            self.along(k),
        )
    }

    /// Half the width at knot `k` of the run from `a` to `b`: the larger of those of the two
    /// segments that share the knot, at an end that of the only one.
    pub open spec fn half_at(self, i: int, a: int, b: int, k: int) -> int {
        larger(
            self.half(
                i,
                if k > a {
                    k - 1
                } else {
                    a
                },
            ),
            self.half(
                i,
                if k < b {
                    k
                } else {
                    b - 1
                },
            ),
        )
    }

    /// The way the line runs at knot `k` of the run from `a` to `b`: from the knot before
    /// to the knot after, as far as the run has them.
    pub open spec fn heading(self, i: int, a: int, b: int, k: int) -> (int, int) {
        let p = self.centre(
            i,
            if k > a {
                k - 1
            } else {
                a
            },
        );
        let n = self.centre(
            i,
            if k < b {
                k + 1
            } else {
                b
            },
        );
        (n.0 - p.0, n.1 - p.1)
    }

    /// Whether `v` lies half a width off the knot, square to the way the line runs: to its
    /// left, or to its right.
    pub open spec fn is_edge(
        self,
        i: int,
        a: int,
        b: int,
        k: int,
        left: bool,
        v: Point,
    ) -> bool {
        let c = self.centre(i, k);
        let t = self.heading(i, a, b, k);
        let hw = self.half_at(i, a, b, k);
        exists|len: int| #[trigger]
            is_length(t, len) && v == milli(
                if left {
                    (c.0 + hw * t.1 / len, c.1 - hw * t.0 / len)
                } else {
                    (c.0 - hw * t.1 / len, c.1 + hw * t.0 / len)
                },
            )
    }

    /// Whether `pts` is the outline of the run of line `i` from knot `a` to knot `b`: up its
    /// left edge and down its right.
    pub open spec fn is_outline(self, i: int, a: int, b: int, pts: Seq<Point>) -> bool {
        let n = b - a + 1;
        &&& pts.len() == 2 * n
        &&& forall|j: int|
            0 <= j < n ==> self.is_edge(i, a, b, a + j, true, #[trigger] pts[j])
        &&& forall|j: int|
            n <= j < 2 * n ==> self.is_edge(i, a, b, b - (j - n), false, #[trigger] pts[j])
    }

    /// Whether `v` are the outlines of the runs of line `i`, in order.
    pub open spec fn are_runs(self, i: int, v: Seq<Seq<Point>>) -> bool {
        let runs = runs_in(self.cuts(i), self.segments());
        &&& v.len() == runs.len()
        &&& forall|q: int|
            0 <= q < v.len() ==> self.is_outline(
                i,
                runs[q].0 as int,
                runs[q].1 as int,
                #[trigger] v[q],
            )
    }

    /// Whether the wave can be cut.
    pub open spec fn wf(self) -> bool {
        &&& self.l.wf()
        &&& self.c.wf()
        &&& self.l.is_reach(self.r)
        &&& 0 < self.r <= 0x20_0000_0000_0000
        &&& 0 <= self.swing <= MAX_SPACING
        &&& sines_ok(self.mids)
        &&& sines_ok(self.knots)
        &&& self.mids.len() == self.segments()
        &&& self.knots.len() == self.segments() + 1
        &&& tones_ok(self.tones)
        &&& self.tones.len() == (2 * self.side() + 1) * self.segments()
    }
}

/// Whether all entries are sines.
pub open spec fn sines_ok(v: Seq<i64>) -> bool {
    forall|k: int| 0 <= k < v.len() ==> -TURN <= #[trigger] v[k] <= TURN
}

/// Whether `len` is the length of a way, rounded down; at least one.
pub open spec fn is_length(t: (int, int), len: int) -> bool {
    let d = t.0 * t.0 + t.1 * t.1;
    if d < 1 {
        len == 1
    } else {
        len >= 1 && len * len <= d < (len + 1) * (len + 1)
    }
}

/// Whether the outlines belong to the lines, one list after the other.
pub open spec fn waves_upto(s: Waving, i: int, v: Seq<Seq<Point>>) -> bool
    decreases i,
{
    if i <= 0 {
        v.len() == 0
    } else {
        exists|n: int|
            0 <= n <= v.len() && waves_upto(s, i - 1, #[trigger] v.take(n)) && s.are_runs(
                i - 1,
                v.skip(n),
            )
    }
}

fn shift_of(swing: i64, sine: i64) -> (d: i64)
    requires
        0 <= swing <= MAX_SPACING,
        -TURN <= sine <= TURN,
    ensures
        d == swing * sine / (TURN as int),
        -MAX_SPACING <= d <= MAX_SPACING,
{
    let a: i128 = swing as i128;
    let b: i128 = sine as i128;
    proof {
        assert(-(0x100_0000_0000 * 0x4000_0000) <= a * b <= 0x100_0000_0000 * 0x4000_0000)
            by (nonlinear_arith)
            requires
                0 <= a <= 0x100_0000_0000,
                -0x4000_0000 <= b <= 0x4000_0000,
        ;
    }
    floor_div(a * b, TURN as i128) as i64
}

/// Whether `mids` are the middles of all segments of the wave, line by line.
pub open spec fn are_wave_mids(s: Waving, mids: Seq<(i64, i64)>) -> bool {
    &&& mids.len() == (2 * s.side() + 1) * s.segments()
    &&& forall|i: int, k: int|
        #![trigger mids[i * s.segments() + k]]
        0 <= i <= 2 * s.side() && 0 <= k < s.segments() ==> s.mid(i, k) == (
            mids[i * s.segments() + k].0 as int,
            mids[i * s.segments() + k].1 as int,
        )
}

fn wave_mid(
    l: &Lattice,
    swing: i64,
    mids: &[i64],
    side: u64,
    segs: u64,
    r: i64,
    i: u64,
    k: u64,
    Ghost(s): Ghost<Waving>,
) -> (p: (i64, i64))
    requires
        l.wf(),
        s.l == *l,
        s.r == r,
        s.swing == swing,
        s.mids == mids@,
        0 <= swing <= MAX_SPACING,
        sines_ok(mids@),
        mids@.len() == segs,
        0 < r <= 0x20_0000_0000_0000,
        counts_of(*l, r as int) == (side as int, segs as int),
        side <= 0x20_0000_0000_0000,
        segs <= 0x40_0000_0000_0000,
        i <= 2 * side,
        k < segs,
    ensures
        s.mid(i as int, k as int) == (p.0 as int, p.1 as int),
{
    let len: usize = mids.len();
    let u: i64 = across_of(l, side, r, i) + shift_of(swing, mids[k as usize]);
    let v: i64 = mean(knot_of(l, segs, r, k), knot_of(l, segs, r, k + 1));
    place_of(l, u, v)
}

/// Where the middles of all segments of a wavy screen lie on the canvas, line by line: the
/// tone is taken there. `mids` holds the sine of the wave at each segment's middle.
pub fn wave_middles(l: &Lattice, swing: i64, mids: &[i64]) -> (places: Vec<(i64, i64)>)
    requires
        l.wf(),
        0 <= swing <= MAX_SPACING,
        sines_ok(mids@),
        forall|r: int| l.is_reach(r) ==> mids@.len() == (#[trigger] counts_of(*l, r)).1,
    ensures
        forall|s: Waving|
            s.l == *l && s.swing == swing && s.mids == mids@ && l.is_reach(s.r)
                ==> #[trigger] are_wave_mids(s, places@),
{
    let (side, segs, r) = screen_counts(l);
    let ghost m = segs as int;
    let ghost s = Waving {
        l: *l,
        c: arbitrary(),
        r: r as int,
        swing: swing as int,
        mids: mids@,
        knots: Seq::empty(),
        tones: Seq::empty(),
    };
    let mut places: Vec<(i64, i64)> = Vec::new();
    let mut i: u64 = 0;
    proof {
        assert(mids@.len() == counts_of(*l, r as int).1);
        assert(0 * m == 0) by (nonlinear_arith);
    }
    while i < 2 * side + 1
        invariant
            l.wf(),
            s.l == *l,
            s.r == r,
            s.swing == swing,
            s.mids == mids@,
            0 <= swing <= MAX_SPACING,
            sines_ok(mids@),
            mids@.len() == segs,
            0 < r <= 0x20_0000_0000_0000,
            counts_of(*l, r as int) == (side as int, segs as int),
            side <= 0x20_0000_0000_0000,
            segs <= 0x40_0000_0000_0000,
            m == segs,
            i <= 2 * side + 1,
            places@.len() == i * m,
            forall|a: int, k: int|
                #![trigger places@[a * m + k]]
                0 <= a < i && 0 <= k < m ==> s.mid(a, k) == (
                    places@[a * m + k].0 as int,
                    places@[a * m + k].1 as int,
                ),
        decreases 2 * side + 1 - i,
    {
        let mut k: u64 = 0;
        while k < segs
            invariant
                l.wf(),
                s.l == *l,
                s.r == r,
                s.swing == swing,
                s.mids == mids@,
                0 <= swing <= MAX_SPACING,
                sines_ok(mids@),
                mids@.len() == segs,
                0 < r <= 0x20_0000_0000_0000,
                counts_of(*l, r as int) == (side as int, segs as int),
                side <= 0x20_0000_0000_0000,
                segs <= 0x40_0000_0000_0000,
                m == segs,
                i <= 2 * side,
                k <= segs,
                places@.len() == i * m + k,
                forall|a: int, b: int|
                    #![trigger places@[a * m + b]]
                    (0 <= a < i && 0 <= b < m) || (a == i && 0 <= b < k) ==> s.mid(a, b) == (
                        places@[a * m + b].0 as int,
                        places@[a * m + b].1 as int,
                    ),
            decreases segs - k,
        {
            let ghost before = places@;
            let p: (i64, i64) = wave_mid(l, swing, mids, side, segs, r, i, k, Ghost(s));
            places.push(p);
            proof {
                assert forall|a: int, b: int|
                    #![trigger places@[a * m + b]]
                    (0 <= a < i && 0 <= b < m) || (a == i && 0 <= b < k + 1) implies s.mid(
                    a,
                    b,
                ) == (places@[a * m + b].0 as int, places@[a * m + b].1 as int) by {
                    if a < i || b < k {
                        assert(0 <= a * m + b < i * m + k) by (nonlinear_arith)
                            requires
                                0 <= a,
                                0 <= b < m,
                                a < i || (a == i && b < k),
                                0 <= k,
                        ;
                        assert(places@[a * m + b] == before[a * m + b]);
                    } else {
                        assert(places@[a * m + b] == p);
                    }
                }
            }
            k = k + 1;
        }
        proof {
            assert((i + 1) * m == i * m + m) by (nonlinear_arith);
        }
        i = i + 1;
    }
    proof {
        assert forall|t: Waving|
            t.l == *l && t.swing == swing && t.mids == mids@ && l.is_reach(
                t.r,
            ) implies #[trigger] are_wave_mids(t, places@) by {
            lemma_reach_unique(*l, r as int, t.r);
            assert forall|a: int, b: int|
                #![trigger places@[a * t.segments() + b]]
                0 <= a <= 2 * t.side() && 0 <= b < t.segments() implies t.mid(a, b) == (
                places@[a * t.segments() + b].0 as int,
                places@[a * t.segments() + b].1 as int,
            ) by {
                assert(t.mid(a, b) == s.mid(a, b));
                assert(places@[a * m + b] == places@[a * t.segments() + b]);
            }
        }
    }
    places
}

/// One edge of a wave at knot `k`.
fn edge_of(
    c: (i64, i64),
    p: (i64, i64),
    n: (i64, i64),
    hw: i64,
    left: bool,
) -> (v: Point)
    requires
        -4 * MAX_PLACE <= c.0 <= 4 * MAX_PLACE,
        -4 * MAX_PLACE <= c.1 <= 4 * MAX_PLACE,
        -4 * MAX_PLACE <= p.0 <= 4 * MAX_PLACE,
        -4 * MAX_PLACE <= p.1 <= 4 * MAX_PLACE,
        -4 * MAX_PLACE <= n.0 <= 4 * MAX_PLACE,
        -4 * MAX_PLACE <= n.1 <= 4 * MAX_PLACE,
        0 <= hw <= MAX_SPACING,
    ensures
        ({
            let t = (n.0 - p.0, n.1 - p.1);
            exists|len: int| #[trigger]
                is_length(t, len) && v == milli(
                    if left {
                        (c.0 + hw * t.1 / len, c.1 - hw * t.0 / len)
                    } else {
                        (c.0 - hw * t.1 / len, c.1 + hw * t.0 / len)
                    },
                )
        }),
        -crate::raster::MAX_POINT <= v.0 <= crate::raster::MAX_POINT,
        -crate::raster::MAX_POINT <= v.1 <= crate::raster::MAX_POINT,
{
    let tx: i128 = n.0 as i128 - p.0 as i128;
    let ty: i128 = n.1 as i128 - p.1 as i128;
    proof {
        lemma_way_square(tx as int);
        lemma_way_square(ty as int);
    }
    let d: u128 = (tx * tx + ty * ty) as u128;
    let root: u128 = square_root(d);
    let len: i128 = if root < 1 { 1 } else { root as i128 };
    let h: i128 = hw as i128;
    proof {
        let (x, y, g) = (tx as int, ty as int, len as int);
        lemma_root_covers(x, d as int, g, root as int);
        lemma_root_covers(y, d as int, g, root as int);
        lemma_offset_bound(h as int, x, g);
        lemma_offset_bound(h as int, y, g);
        if d >= 1 {
            assert(root >= 1) by {
                if root == 0 {
                    assert((root + 1) * (root + 1) == 1) by (nonlinear_arith)
                        requires
                            root == 0,
                    ;
                }
            }
        } else {
            assert(root * root <= 0);
            assert(root == 0) by (nonlinear_arith)
                requires
                    root * root <= 0,
                    root >= 0,
            ;
        }
        assert(is_length((x, y), g));
    }
    let dx: i64 = floor_div(h * ty, len) as i64;
    let dy: i64 = floor_div(h * tx, len) as i64;
    if left {
        to_milli((c.0 + dx, c.1 - dy))
    } else {
        to_milli((c.0 - dx, c.1 + dy))
    }
}

proof fn lemma_way_square(x: int)
    by (nonlinear_arith)
    requires
        -0x1000_0000_0000_0000 <= x <= 0x1000_0000_0000_0000,
    ensures
        0 <= x * x <= 0x1000_0000_0000_0000 * 0x1000_0000_0000_0000,
{
}

proof fn lemma_root_covers(x: int, d: int, len: int, root: int)
    requires
        x * x <= d,
        root * root <= d < (root + 1) * (root + 1),
        root >= 0,
        len == if root < 1 {
            1
        } else {
            root
        },
    ensures
        -len <= x <= len,
{
    assert(-root <= x <= root) by (nonlinear_arith)
        requires
            x * x <= d,
            d < (root + 1) * (root + 1),
            root >= 0,
    ;
}

proof fn lemma_offset_bound(h: int, x: int, len: int)
    requires
        0 <= h <= 0x100_0000_0000,
        len >= 1,
        -len <= x <= len,
        -0x1000_0000_0000_0000 <= x <= 0x1000_0000_0000_0000,
    ensures
        -h - 1 <= h * x / len <= h,
        -0x100_0000_0000 * 0x1000_0000_0000_0000 <= h * x <= 0x100_0000_0000
            * 0x1000_0000_0000_0000,
{
    assert(-(h * len) <= h * x <= h * len) by (nonlinear_arith)
        requires
            h >= 0,
            -len <= x <= len,
    ;
    assert(-h - 1 <= h * x / len <= h) by (nonlinear_arith)
        requires
            -(h * len) <= h * x <= h * len,
            len >= 1,
            h >= 0,
    ;
    assert(-0x100_0000_0000 * 0x1000_0000_0000_0000 <= h * x <= 0x100_0000_0000
        * 0x1000_0000_0000_0000) by (nonlinear_arith)
        requires
            0 <= h <= 0x100_0000_0000,
            -0x1000_0000_0000_0000 <= x <= 0x1000_0000_0000_0000,
    ;
}

/// The outline of one run of a wave; see `Waving::is_outline`.
fn wave_outline(
    centres: &Vec<(i64, i64)>,
    halves: &Vec<i64>,
    i: u64,
    a: usize,
    b: usize,
    Ghost(s): Ghost<Waving>,
) -> (pts: Vec<Point>)
    requires
        s.segments() >= 0,
        centres@.len() == s.segments() + 1,
        halves@.len() == s.segments(),
        a < b <= s.segments(),
        forall|k: int|
            0 <= k < centres@.len() ==> s.centre(i as int, k) == (
                (#[trigger] centres@[k]).0 as int,
                centres@[k].1 as int,
            ) && -4 * MAX_PLACE <= centres@[k].0 <= 4 * MAX_PLACE && -4 * MAX_PLACE
                <= centres@[k].1 <= 4 * MAX_PLACE,
        forall|k: int|
            0 <= k < halves@.len() ==> #[trigger] halves@[k] == s.half(i as int, k) && 0
                <= halves@[k] <= MAX_SPACING,
    ensures
        s.is_outline(i as int, a as int, b as int, pts@),
        points_ok(pts@),
{
    let total: usize = centres.len();
    let mut pts: Vec<Point> = Vec::new();
    let ghost n = b - a + 1;
    let mut k: usize = a;
    while k <= b
        invariant
            total == centres@.len(),
            centres@.len() == s.segments() + 1,
            halves@.len() == s.segments(),
            a < b <= s.segments(),
            a <= k <= b + 1,
            forall|k: int|
                0 <= k < centres@.len() ==> s.centre(i as int, k) == (
                    (#[trigger] centres@[k]).0 as int,
                    centres@[k].1 as int,
                ) && -4 * MAX_PLACE <= centres@[k].0 <= 4 * MAX_PLACE && -4 * MAX_PLACE
                    <= centres@[k].1 <= 4 * MAX_PLACE,
            forall|k: int|
                0 <= k < halves@.len() ==> #[trigger] halves@[k] == s.half(i as int, k) && 0
                    <= halves@[k] <= MAX_SPACING,
            pts@.len() == k - a,
            forall|j: int|
                0 <= j < pts@.len() ==> s.is_edge(
                    i as int,
                    a as int,
                    b as int,
                    a + j,
                    true,
                    #[trigger] pts@[j],
                ),
            points_ok(pts@),
        decreases b + 1 - k,
    {
        let c: (i64, i64) = centres[k];
        let p: (i64, i64) = centres[if k > a { k - 1 } else { a }];
        let m: (i64, i64) = centres[if k < b { k + 1 } else { b }];
        let hw: i64 = knot_half(halves, a, b, k);
        let v: Point = edge_of(c, p, m, hw, true);
        proof {
            let t = s.heading(i as int, a as int, b as int, k as int);
            assert(t == (m.0 - p.0, m.1 - p.1));
            let way = (m.0 - p.0, m.1 - p.1);
            let g = choose|g: int| #[trigger]
                is_length(way, g) && v == milli(
                    if true {
                        (c.0 + hw * way.1 / g, c.1 - hw * way.0 / g)
                    } else {
                        (c.0 - hw * way.1 / g, c.1 + hw * way.0 / g)
                    },
                );
            assert(hw == s.half_at(i as int, a as int, b as int, k as int));
            assert(is_length(t, g));
            assert(s.is_edge(i as int, a as int, b as int, k as int, true, v));
        }
        pts.push(v);
        k = k + 1;
    }
    let mut left: usize = b + 1;
    while left > a
        invariant
            total == centres@.len(),
            centres@.len() == s.segments() + 1,
            halves@.len() == s.segments(),
            a < b <= s.segments(),
            a <= left <= b + 1,
            n == b - a + 1,
            forall|k: int|
                0 <= k < centres@.len() ==> s.centre(i as int, k) == (
                    (#[trigger] centres@[k]).0 as int,
                    centres@[k].1 as int,
                ) && -4 * MAX_PLACE <= centres@[k].0 <= 4 * MAX_PLACE && -4 * MAX_PLACE
                    <= centres@[k].1 <= 4 * MAX_PLACE,
            forall|k: int|
                0 <= k < halves@.len() ==> #[trigger] halves@[k] == s.half(i as int, k) && 0
                    <= halves@[k] <= MAX_SPACING,
            pts@.len() == n + (b + 1 - left),
            forall|j: int|
                0 <= j < n ==> s.is_edge(
                    i as int,
                    a as int,
                    b as int,
                    a + j,
                    true,
                    #[trigger] pts@[j],
                ),
            forall|j: int|
                n <= j < pts@.len() ==> s.is_edge(
                    i as int,
                    a as int,
                    b as int,
                    b - (j - n),
                    false,
                    #[trigger] pts@[j],
                ),
            points_ok(pts@),
        decreases left,
    {
        left = left - 1;
        let c: (i64, i64) = centres[left];
        let p: (i64, i64) = centres[if left > a { left - 1 } else { a }];
        let m: (i64, i64) = centres[if left < b { left + 1 } else { b }];
        let hw: i64 = knot_half(halves, a, b, left);
        let v: Point = edge_of(c, p, m, hw, false);
        proof {
            let t = s.heading(i as int, a as int, b as int, left as int);
            assert(t == (m.0 - p.0, m.1 - p.1));
            let way = (m.0 - p.0, m.1 - p.1);
            let g = choose|g: int| #[trigger]
                is_length(way, g) && v == milli(
                    if false {
                        (c.0 + hw * way.1 / g, c.1 - hw * way.0 / g)
                    } else {
                        (c.0 - hw * way.1 / g, c.1 + hw * way.0 / g)
                    },
                );
            assert(hw == s.half_at(i as int, a as int, b as int, left as int));
            assert(is_length(t, g));
            assert(s.is_edge(i as int, a as int, b as int, left as int, false, v));
        }
        pts.push(v);
    }
    pts
}

/// Cuts one line of a wavy screen.
fn wave_line(
    l: &Lattice,
    c: &Cut,
    swing: i64,
    mids: &[i64],
    knots: &[i64],
    tones: &[i64],
    side: u64,
    segs: u64,
    r: i64,
    i: u64,
    from: usize,
    Ghost(s): Ghost<Waving>,
) -> (ribbons: Vec<Ribbon>)
    requires
        s.wf(),
        s.l == *l,
        s.c == *c,
        s.r == r,
        s.swing == swing,
        s.mids == mids@,
        s.knots == knots@,
        s.tones == tones@,
        counts_of(*l, r as int) == (side as int, segs as int),
        side <= 0x20_0000_0000_0000,
        1 <= segs <= 0x40_0000_0000_0000,
        i <= 2 * side,
        from == i * segs,
    ensures
        s.are_runs(i as int, outlines(ribbons@)),
        ribbons_ok(ribbons@),
{
    let total: usize = tones.len();
    let len: usize = knots.len();
    let mut halves: Vec<i64> = Vec::new();
    let mut cut: Vec<bool> = Vec::new();
    let mut k: u64 = 0;
    proof {
        assert(i * segs + segs <= (2 * side + 1) * segs) by (nonlinear_arith)
            requires
                i <= 2 * side,
                segs >= 0,
        ;
    }
    while k < segs
        invariant
            total == tones@.len(),
            len == knots@.len(),
            s.wf(),
            s.l == *l,
            s.c == *c,
            s.r == r,
            s.swing == swing,
            s.mids == mids@,
            s.knots == knots@,
            s.tones == tones@,
            counts_of(*l, r as int) == (side as int, segs as int),
            side <= 0x20_0000_0000_0000,
            1 <= segs <= 0x40_0000_0000_0000,
            i <= 2 * side,
            from == i * segs,
            from + segs <= tones@.len(),
            k <= segs,
            halves@.len() == k,
            cut@.len() == k,
            forall|b: int|
                0 <= b < k ==> #[trigger] halves@[b] == s.half(i as int, b) && 0 <= halves@[b]
                    <= MAX_SPACING,
            forall|b: int| 0 <= b < k ==> #[trigger] cut@[b] == (s.half(i as int, b) > 0),
        decreases segs - k,
    {
        let p: (i64, i64) = wave_mid(l, swing, mids, side, segs, r, i, k, Ghost(s));
        let off: bool = p.0 < 0 || p.0 >= l.w as i64 * PX || p.1 < 0 || p.1 >= l.h as i64 * PX;
        let v: i64 = knot_of(l, segs, r, k);
        let hw: i64 = if off || bridge_at(c, i as i64 - side as i64, v) {
            0
        } else {
            cut_extent(tones[from + k as usize], l.spacing, c) / 2
        };
        halves.push(hw);
        cut.push(hw > 0);
        k = k + 1;
    }
    let mut centres: Vec<(i64, i64)> = Vec::new();
    let u: i64 = across_of(l, side, r, i);
    let mut k: u64 = 0;
    while k <= segs
        invariant
            len == knots@.len(),
            s.wf(),
            s.l == *l,
            s.r == r,
            s.swing == swing,
            s.knots == knots@,
            counts_of(*l, r as int) == (side as int, segs as int),
            1 <= segs <= 0x40_0000_0000_0000,
            u == (i - side) * l.spacing,
            -0x22_0000_0000_0000 <= u <= 0x22_0000_0000_0000,
            k <= segs + 1,
            centres@.len() == k,
            forall|b: int|
                0 <= b < k ==> s.centre(i as int, b) == (
                    (#[trigger] centres@[b]).0 as int,
                    centres@[b].1 as int,
                ) && -4 * MAX_PLACE <= centres@[b].0 <= 4 * MAX_PLACE && -4 * MAX_PLACE
                    <= centres@[b].1 <= 4 * MAX_PLACE,
        decreases segs + 1 - k,
    {
        let x: i64 = u + shift_of(swing, knots[k as usize]);
        let v: i64 = knot_of(l, segs, r, k);
        centres.push(place_of(l, x, v));
        k = k + 1;
    }
    proof {
        assert(cut@ =~= s.cuts(i as int));
        lemma_runs(cut@);
    }
    let runs: Vec<(usize, usize)> = cut_runs(cut.as_slice());
    let mut ribbons: Vec<Ribbon> = Vec::new();
    for q in 0..runs.len()
        invariant
            s.wf(),
            cut@.len() == s.segments(),
            centres@.len() == s.segments() + 1,
            halves@.len() == s.segments(),
            forall|b: int|
                0 <= b < centres@.len() ==> s.centre(i as int, b) == (
                    (#[trigger] centres@[b]).0 as int,
                    centres@[b].1 as int,
                ) && -4 * MAX_PLACE <= centres@[b].0 <= 4 * MAX_PLACE && -4 * MAX_PLACE
                    <= centres@[b].1 <= 4 * MAX_PLACE,
            forall|b: int|
                0 <= b < halves@.len() ==> #[trigger] halves@[b] == s.half(i as int, b) && 0
                    <= halves@[b] <= MAX_SPACING,
            forall|j: int|
                0 <= j < runs@.len() ==> crate::screen::is_cut_run(
                    cut@,
                    (#[trigger] runs@[j]).0 as int,
                    runs@[j].1 as int,
                ),
            ribbons@.len() == q,
            forall|j: int|
                0 <= j < q ==> s.is_outline(
                    i as int,
                    runs@[j].0 as int,
                    runs@[j].1 as int,
                    (#[trigger] ribbons@[j]).pts@,
                ) && points_ok(ribbons@[j].pts@),
    {
        let (a, b) = runs[q];
        proof {
            assert(crate::screen::is_cut_run(
                cut@,
                runs@[q as int].0 as int,
                runs@[q as int].1 as int,
            ));
        }
        let pts: Vec<Point> = wave_outline(&centres, &halves, i, a, b, Ghost(s));
        ribbons.push(Ribbon { pts });
    }
    proof {
        let v = outlines(ribbons@);
        assert forall|q: int| 0 <= q < v.len() implies s.is_outline(
            i as int,
            runs@[q].0 as int,
            runs@[q].1 as int,
            #[trigger] v[q],
        ) by {
            assert(v[q] == ribbons@[q].pts@);
        }
    }
    ribbons
}

/// Cuts a wavy screen: for every run of cut segments one closed outline, line by line.
/// `mids` and `knots` hold the sine of the wave at the middles and at the knots of a line,
/// `tones` the tone at every middle that `wave_middles` gives.
pub fn generate_wavy(
    l: &Lattice,
    c: &Cut,
    swing: i64,
    mids: &[i64],
    knots: &[i64],
    tones: &[i64],
) -> (ribbons: Vec<Ribbon>)
    requires
        l.wf(),
        c.wf(),
        0 <= swing <= MAX_SPACING,
        sines_ok(mids@),
        sines_ok(knots@),
        tones_ok(tones@),
        forall|r: int|
            l.is_reach(r) ==> {
                let n = #[trigger] counts_of(*l, r);
                &&& mids@.len() == n.1
                &&& knots@.len() == n.1 + 1
                &&& tones@.len() == (2 * n.0 + 1) * n.1
            },
    ensures
        forall|s: Waving|
            s.l == *l && s.c == *c && s.swing == swing && s.mids == mids@ && s.knots == knots@
                && s.tones == tones@ && l.is_reach(s.r) ==> #[trigger] waves_upto(
                s,
                2 * s.side() + 1,
                outlines(ribbons@),
            ),
        ribbons_ok(ribbons@),
{
    let (side, segs, r) = screen_counts(l);
    let ghost s = Waving {
        l: *l,
        c: *c,
        r: r as int,
        swing: swing as int,
        mids: mids@,
        knots: knots@,
        tones: tones@,
    };
    let ghost m = segs as int;
    let total: usize = tones.len();
    proof {
        assert(counts_of(*l, r as int) == (side as int, segs as int));
        assert(s.wf());
        assert(0 * m == 0) by (nonlinear_arith);
    }
    let mut ribbons: Vec<Ribbon> = Vec::new();
    let mut i: u64 = 0;
    let mut from: usize = 0;
    while i < 2 * side + 1
        invariant
            total == tones@.len(),
            s.wf(),
            s.l == *l,
            s.c == *c,
            s.r == r,
            s.swing == swing,
            s.mids == mids@,
            s.knots == knots@,
            s.tones == tones@,
            counts_of(*l, r as int) == (side as int, segs as int),
            side <= 0x20_0000_0000_0000,
            1 <= segs <= 0x40_0000_0000_0000,
            m == segs,
            i <= 2 * side + 1,
            from == i * m,
            waves_upto(s, i as int, outlines(ribbons@)),
            ribbons_ok(ribbons@),
        decreases 2 * side + 1 - i,
    {
        let ghost before = outlines(ribbons@);
        let ghost b0 = ribbons@;
        proof {
            assert(i * m + m <= (2 * side + 1) * m && (i + 1) * m == i * m + m)
                by (nonlinear_arith)
                requires
                    i <= 2 * side,
                    m >= 0,
            ;
        }
        let line: Vec<Ribbon> = wave_line(
            l,
            c,
            swing,
            mids,
            knots,
            tones,
            side,
            segs,
            r,
            i,
            from,
            Ghost(s),
        );
        let ghost lv = line@;
        append_ribbons(&mut ribbons, line);
        proof {
            let all = outlines(ribbons@);
            let n = before.len() as int;
            assert(all =~= before + outlines(lv));
            assert(all.take(n) =~= before);
            assert(all.skip(n) =~= outlines(lv));
            assert(waves_upto(s, i as int, all.take(n)));
            assert(s.are_runs(i as int, all.skip(n)));
            assert(waves_upto(s, i + 1, all));
        }
        from = from + segs as usize;
        i = i + 1;
    }
    proof {
        assert forall|t: Waving|
            t.l == *l && t.c == *c && t.swing == swing && t.mids == mids@ && t.knots == knots@
                && t.tones == tones@ && l.is_reach(t.r) implies #[trigger] waves_upto(
            t,
            2 * t.side() + 1,
            outlines(ribbons@),
        ) by {
            lemma_reach_unique(*l, r as int, t.r);
            assert(t == s);
        }
    }
    ribbons
}

/// Puts ribbons behind others.
pub fn append_ribbons(all: &mut Vec<Ribbon>, more: Vec<Ribbon>)
    requires
        ribbons_ok(old(all)@),
        ribbons_ok(more@),
    ensures
        outlines(final(all)@) == outlines(old(all)@) + outlines(more@),
        ribbons_ok(final(all)@),
{
    let ghost a0 = all@;
    let ghost m0 = more@;
    let mut rest: Vec<Ribbon> = more;
    all.append(&mut rest);
    proof {
        assert(all@ == a0 + m0);
        assert(outlines(all@) =~= outlines(a0) + outlines(m0));
        assert forall|k: int| 0 <= k < all@.len() implies points_ok((#[trigger] all@[k]).pts@) by {
            if k < a0.len() {
                assert(all@[k] == a0[k]);
            } else {
                assert(all@[k] == m0[k - a0.len()]);
            }
        }
    }
}

/// Waves run side by side: neighbouring lines are one spacing apart at every knot, and even
/// where one swings towards the other the widest cuts do not reach each other.
pub proof fn lemma_waves_apart(s: Waving, asked: int, i: int, a: i64, b: i64)
    requires
        s.wf(),
        s.c.most <= s.l.spacing,
        s.swing == swing_of(asked, s.l.spacing as int, s.c.most as int),
        -TURN <= a <= TURN,
        -TURN <= b <= TURN,
    ensures
        ((i + 1 - s.side()) * s.l.spacing + s.shift(a)) - ((i - s.side()) * s.l.spacing
            + s.shift(a)) == s.l.spacing,
        ((i + 1 - s.side()) * s.l.spacing + s.shift(a)) - ((i - s.side()) * s.l.spacing
            + s.shift(b)) >= s.c.most,
{
    let n = s.side();
    let sp = s.l.spacing as int;
    assert((i + 1 - n) * sp == (i - n) * sp + sp) by (nonlinear_arith);
    lemma_shift_bound(s.swing, a as int);
    lemma_shift_bound(s.swing, b as int);
}

proof fn lemma_shift_bound(swing: int, sine: int)
    requires
        0 <= swing,
        -0x4000_0000 <= sine <= 0x4000_0000,
    ensures
        -swing <= swing * sine / (TURN as int) <= swing,
{
    assert(-(swing * 0x4000_0000) <= swing * sine <= swing * 0x4000_0000) by (nonlinear_arith)
        requires
            0 <= swing,
            -0x4000_0000 <= sine <= 0x4000_0000,
    ;
    let x = swing * sine;
    assert(-swing <= x / 0x4000_0000 <= swing);
}

proof fn lemma_length_unique(t: (int, int), a: int, b: int)
    requires
        is_length(t, a),
        is_length(t, b),
    ensures
        a == b,
{
    let d = t.0 * t.0 + t.1 * t.1;
    if a < b {
        assert(false) by (nonlinear_arith)
            requires
                1 <= a < b,
                b * b <= d,
                d < (a + 1) * (a + 1),
        ;
    }
    if b < a {
        assert(false) by (nonlinear_arith)
            requires
                1 <= b < a,
                a * a <= d,
                d < (b + 1) * (b + 1),
        ;
    }
}

proof fn lemma_edge_unique(s: Waving, i: int, a: int, b: int, k: int, left: bool, u: Point, v: Point)
    requires
        s.is_edge(i, a, b, k, left, u),
        s.is_edge(i, a, b, k, left, v),
    ensures
        u == v,
{
    let c = s.centre(i, k);
    let t = s.heading(i, a, b, k);
    let hw = s.half_at(i, a, b, k);
    let x = choose|len: int| #[trigger]
        is_length(t, len) && u == milli(
            if left {
                (c.0 + hw * t.1 / len, c.1 - hw * t.0 / len)
            } else {
                (c.0 - hw * t.1 / len, c.1 + hw * t.0 / len)
            },
        );
    let y = choose|len: int| #[trigger]
        is_length(t, len) && v == milli(
            if left {
                (c.0 + hw * t.1 / len, c.1 - hw * t.0 / len)
            } else {
                (c.0 - hw * t.1 / len, c.1 + hw * t.0 / len)
            },
        );
    lemma_length_unique(t, x, y);
}

/// A wavy screen is cut in one way only.
pub proof fn lemma_waves_unique(s: Waving, i: int, u: Seq<Seq<Point>>, v: Seq<Seq<Point>>)
    requires
        waves_upto(s, i, u),
        waves_upto(s, i, v),
    ensures
        u == v,
    decreases i,
{
    if i > 0 {
        let m = choose|n: int|
            0 <= n <= u.len() && waves_upto(s, i - 1, #[trigger] u.take(n)) && s.are_runs(
                i - 1,
                u.skip(n),
            );
        let n = choose|n: int|
            0 <= n <= v.len() && waves_upto(s, i - 1, #[trigger] v.take(n)) && s.are_runs(
                i - 1,
                v.skip(n),
            );
        lemma_waves_unique(s, i - 1, u.take(m), v.take(n));
        assert(u.take(m).len() == m && v.take(n).len() == n);
        let (p, q) = (u.skip(m), v.skip(n));
        let runs = runs_in(s.cuts(i - 1), s.segments());
        assert forall|k: int| 0 <= k < p.len() implies p[k] == q[k] by {
            let (a, b) = (runs[k].0 as int, runs[k].1 as int);
            assert(s.is_outline(i - 1, a, b, p[k]) && s.is_outline(i - 1, a, b, q[k]));
            let e = b - a + 1;
            assert forall|j: int| 0 <= j < p[k].len() implies p[k][j] == q[k][j] by {
                let left = j < e;
                let at = if left {
                    a + j
                } else {
                    b - (j - e)
                };
                assert(s.is_edge(i - 1, a, b, at, left, p[k][j]));
                assert(s.is_edge(i - 1, a, b, at, left, q[k][j]));
                lemma_edge_unique(s, i - 1, a, b, at, left, p[k][j], q[k][j]);
            }
            assert(p[k] =~= q[k]);
        }
        assert(p =~= q);
        assert(u =~= u.take(m) + p);
        assert(v =~= v.take(n) + q);
    }
}

} // verus!
