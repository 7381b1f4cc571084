//! The screen: rotated lines and dots over a canvas, how wide each is cut, and the outlines
//! that the laser follows. Lengths count millionths of a pixel.

use crate::arith::evenly;
use crate::arith::square_root;
use crate::raster::MAX_POINT;
use crate::screen::FULL;
use crate::trace::Point;
use vstd::prelude::*;

verus! {

/// One pixel.
pub const PX: i64 = 1_000_000;

/// The unit of sine and cosine.
pub const TURN: i64 = 0x4000_0000;

/// The unit of loads.
pub const WHOLE: i64 = 1_000_000;

/// The longest side of a canvas, in pixels.
pub const MAX_CANVAS: usize = 0x100_0000;

/// The widest spacing of a screen.
pub const MAX_SPACING: i64 = 0x100_0000_0000;

/// The farthest a place of a screen may lie from its centre.
pub const MAX_PLACE: i64 = 0x80_0000_0000_0000;

/// A screen over a canvas: lines `spacing` apart, turned by an angle about the centre.
#[derive(Clone, Copy, Debug, PartialEq, Eq, Structural)]
pub struct Lattice {
    pub w: usize,
    pub h: usize,
    pub spacing: i64,
    pub sin: i64,
    pub cos: i64,
}

/// What limits a cut.
#[derive(Clone, Copy, Debug, PartialEq, Eq, Structural)]
pub struct Cut {
    /// Cuts that would be narrower are left out.
    pub least: i64,
    /// The widest cut.
    pub most: i64,
    /// The width of the beam.
    pub kerf: i64,
    /// The scale of cuts.
    pub load: i64,
    /// The distance between bridges along a line; none at 0.
    pub interval: i64,
    /// The length of a bridge.
    pub bridge: i64,
    /// The least material between cuts.
    pub material: i64,
}

impl Lattice {
    /// Whether the lattice is one that can be screened.
    pub open spec fn wf(self) -> bool {
        &&& self.w <= MAX_CANVAS
        &&& self.h <= MAX_CANVAS
        &&& 0 < self.spacing <= MAX_SPACING
        &&& -TURN <= self.sin <= TURN
        &&& -TURN <= self.cos <= TURN
    }

    /// Where the place `u` across the lines and `v` along them lies on the canvas.
    pub open spec fn place(self, u: int, v: int) -> (int, int) {
        (
            self.w * 500_000 + (v * self.cos - u * self.sin) / (TURN as int),
            self.h * 500_000 + (u * self.cos + v * self.sin) / (TURN as int),
        )
    }

    /// Whether `r` is half the diagonal of the canvas and one spacing, rounded down.
    pub open spec fn is_reach(self, r: int) -> bool {
        let d = (self.w * self.w + self.h * self.h) * 1_000_000_000_000;
        let half = r - self.spacing;
        &&& half >= 0
        &&& (2 * half) * (2 * half) <= d
        &&& d < (2 * half + 2) * (2 * half + 2)
    }
}

impl Cut {
    /// Whether the limits are in order.
    pub open spec fn wf(self) -> bool {
        &&& 0 <= self.least <= MAX_SPACING
        &&& 0 <= self.most <= MAX_SPACING
        &&& 0 <= self.kerf <= MAX_SPACING
        &&& 0 <= self.load <= WHOLE
        &&& 0 <= self.interval <= MAX_SPACING
        &&& 0 <= self.bridge <= MAX_SPACING
        &&& 0 <= self.material <= MAX_SPACING
    }
}

/// How wide a tone asks to be cut: its share of the spacing, scaled by the load. The divisor
/// is full ink times the whole load.
pub open spec fn raw_width(tone: int, spacing: int, load: int) -> int {
    tone * spacing * load / 1_099_511_627_776_000_000
}

/// How wide a tone is cut: not at all below the least width; else what it asks for less the
/// beam's own width, and at most the widest.
pub open spec fn extent(tone: int, spacing: int, c: Cut) -> int {
    let raw = raw_width(tone, spacing, c.load as int);
    if raw < c.least {
        0
    } else if raw - c.kerf < 0 {
        0
    } else if raw - c.kerf > c.most {
        c.most as int
    } else {
        raw - c.kerf
    }
}

/// How wide a tone is cut; see `extent`.
pub fn cut_extent(tone: i64, spacing: i64, c: &Cut) -> (e: i64)
    requires
        0 <= tone <= FULL,
        0 < spacing <= MAX_SPACING,
        c.wf(),
    ensures
        e == extent(tone as int, spacing as int, *c),
        0 <= e <= c.most,
{
    let t: i128 = tone as i128;
    let s: i128 = spacing as i128;
    let l: i128 = c.load as i128;
    proof {
        let ts = t * s;
        assert(0 <= ts <= 0x100_0000_0000 * 0x100_0000_0000) by (nonlinear_arith)
            requires
                0 <= t <= 0x100_0000_0000,
                0 <= s <= 0x100_0000_0000,
                ts == t * s,
        ;
        assert(0 <= ts * l <= 0x100_0000_0000 * 0x100_0000_0000 * 1_000_000) by (nonlinear_arith)
            requires
                0 <= ts <= 0x100_0000_0000 * 0x100_0000_0000,
                0 <= l <= 1_000_000,
        ;
    }
    let raw: i128 = t * s * l / 1_099_511_627_776_000_000;
    if raw < c.least as i128 {
        0
    } else {
        let w: i128 = raw - c.kerf as i128;
        if w < 0 {
            0
        } else if w > c.most as i128 {
            c.most
        } else {
            w as i64
        }
    }
}

/// A darker tone is never cut narrower, nor a tone under a greater load.
pub proof fn lemma_extent_monotone(a: int, b: int, spacing: int, c: Cut, d: Cut)
    requires
        0 <= a <= b,
        0 < spacing,
        c.wf(),
        d.wf(),
        c.load <= d.load,
        d == (Cut { load: d.load, ..c }),
    ensures
        extent(a, spacing, c) <= extent(b, spacing, d),
{
    let (x, y) = (a * spacing * c.load, b * spacing * d.load);
    assert(x <= y) by (nonlinear_arith)
        requires
            0 <= a <= b,
            0 < spacing,
            0 <= c.load <= d.load,
            x == a * spacing * c.load,
            y == b * spacing * d.load,
    ;
    vstd::arithmetic::div_mod::lemma_div_is_ordered(x, y, FULL * WHOLE);
}

/// The widest cut of an untamed ink: what the material leaves of the spacing, scaled by the
/// load.
pub open spec fn most_cut(spacing: int, material: int, load: int) -> int {
    if spacing <= material {
        0
    } else {
        (spacing - material) * load / (WHOLE as int)
    }
}

/// The widest cut of an untamed ink; see `most_cut`.
pub fn max_cut_for(spacing: i64, material: i64, load: i64) -> (m: i64)
    requires
        0 < spacing <= MAX_SPACING,
        0 <= material <= MAX_SPACING,
        0 <= load <= WHOLE,
    ensures
        m == most_cut(spacing as int, material as int, load as int),
        0 <= m <= MAX_SPACING,
{
    if spacing <= material {
        0
    } else {
        let a: i128 = (spacing - material) as i128;
        let l: i128 = load as i128;
        proof {
            assert(0 <= a * l <= 0x100_0000_0000 * 1_000_000) by (nonlinear_arith)
                requires
                    0 <= a <= 0x100_0000_0000,
                    0 <= l <= 1_000_000,
            ;
        }
        (a * l / WHOLE as i128) as i64
    }
}

/// The widest cut of a tamed ink: what its own limit asks for, as far as that leaves the
/// least material.
pub open spec fn tamed_cut(asked: int, spacing: int, material: int) -> int {
    let most = if asked < spacing - material {
        asked
    } else {
        spacing - material
    };
    if most < 0 {
        0
    } else {
        most
    }
}

/// The widest cut of a tamed ink; see `tamed_cut`.
pub fn tamed_cut_for(asked: i64, spacing: i64, material: i64) -> (m: i64)
    requires
        0 < spacing <= MAX_SPACING,
        0 <= material <= MAX_SPACING,
    ensures
        m == tamed_cut(asked as int, spacing as int, material as int),
        0 <= m <= MAX_SPACING,
{
    let most: i64 = if asked < spacing - material { asked } else { spacing - material };
    if most < 0 {
        0
    } else {
        most
    }
}

/// Cuts on neighbouring lines leave the least material standing between them: two cuts a
/// spacing apart, each no wider than the widest, are at least that far from each other.
pub proof fn lemma_material_stands(
    a: int,
    b: int,
    spacing: int,
    material: int,
    load: int,
    c: Cut,
)
    requires
        0 <= material <= spacing,
        0 <= load <= WHOLE,
        c.wf(),
        c.most == most_cut(spacing, material, load),
    ensures
        spacing - extent(a, spacing, c) / 2 - extent(b, spacing, c) / 2 >= material,
{
    let m = spacing - material;
    assert(m * load / (WHOLE as int) <= m) by (nonlinear_arith)
        requires
            m >= 0,
            0 <= load <= 1_000_000,
            WHOLE == 1_000_000,
    ;
}

/// Whether a bridge holds the line at `v`: on every other line bridges are shifted by half
/// their distance.
pub open spec fn is_bridge(c: Cut, line: int, v: int) -> bool {
    let phase = if line % 2 == 0 {
        0
    } else {
        c.interval as int / 2
    };
    c.interval > 0 && c.bridge > 0 && (v - phase) % (c.interval as int) < c.bridge
}

/// Whether a bridge holds the line; see `is_bridge`.
pub fn bridge_at(c: &Cut, line: i64, v: i64) -> (b: bool)
    requires
        c.wf(),
        -MAX_PLACE < line < MAX_PLACE,
        -0x100_0000_0000_0000 < v < 0x100_0000_0000_0000,
    ensures
        b == is_bridge(*c, line as int, v as int),
{
    if c.interval <= 0 || c.bridge <= 0 {
        return false;
    }
    let even: bool = line % 2 == 0;
    let phase: i64 = if even { 0 } else { c.interval / 2 };
    let d: i64 = v - phase;
    let n: i64 = c.interval;
    let r: i64 = modulo(d, n);
    r < c.bridge
}

/// `a` modulo `n`, from 0 up to `n`.
fn modulo(a: i64, n: i64) -> (r: i64)
    requires
        n > 0,
        a > i64::MIN,
    ensures
        r == a as int % (n as int),
        0 <= r < n,
{
    if a >= 0 {
        a % n
    } else {
        let m: i64 = -a;
        let q: i64 = m / n;
        let k: i64 = m % n;
        proof {
            vstd::arithmetic::div_mod::lemma_fundamental_div_mod(m as int, n as int);
            if k == 0 {
                assert(a == n * (-q) + 0) by (nonlinear_arith)
                    requires
                        m == n * q + k,
                        k == 0,
                        a == -m,
                ;
                vstd::arithmetic::div_mod::lemma_fundamental_div_mod_converse(
                    a as int,
                    n as int,
                    -(q as int),
                    0,
                );
            } else {
                assert(a == n * (-q - 1) + (n - k)) by (nonlinear_arith)
                    requires
                        m == n * q + k,
                        a == -m,
                ;
                vstd::arithmetic::div_mod::lemma_fundamental_div_mod_converse(
                    a as int,
                    n as int,
                    -(q as int) - 1,
                    n - k,
                );
            }
        }
        if k == 0 {
            0
        } else {
            n - k
        }
    }
}

/// Bridges on neighbouring lines never stand side by side, as long as they are no longer
/// than half their distance.
pub proof fn lemma_bridges_staggered(c: Cut, line: int, v: int)
    requires
        c.interval % 2 == 0,
        2 * c.bridge <= c.interval,
    ensures
        !(is_bridge(c, line, v) && is_bridge(c, line + 1, v)),
{
    let n = c.interval as int;
    if c.interval > 0 && c.bridge > 0 {
        let half = n / 2;
        let a = v % n;
        let b = (v - half) % n;
        vstd::arithmetic::div_mod::lemma_fundamental_div_mod(v, n);
        vstd::arithmetic::div_mod::lemma_fundamental_div_mod(v - half, n);
        let (p, q) = (v / n, (v - half) / n);
        assert(a - b == half || a - b == half - n) by (nonlinear_arith)
            requires
                n > 0,
                n == 2 * half,
                v == n * p + a,
                v - half == n * q + b,
                0 <= a < n,
                0 <= b < n,
        ;
    }
}

/// Half the diagonal of the canvas and one spacing; see `is_reach`.
pub fn reach(l: &Lattice) -> (r: i64)
    requires
        l.wf(),
    ensures
        l.is_reach(r as int),
        0 < r <= 0x20_0000_0000_0000,
{
    let w: u128 = l.w as u128;
    let h: u128 = l.h as u128;
    proof {
        assert(0 <= w * w <= 0x1_0000_0000_0000 && 0 <= h * h <= 0x1_0000_0000_0000)
            by (nonlinear_arith)
            requires
                0 <= w <= 0x100_0000,
                0 <= h <= 0x100_0000,
        ;
    }
    let d: u128 = (w * w + h * h) * 1_000_000_000_000;
    let s: u128 = square_root(d);
    proof {
        assert(s <= 0x20_0000_0000_0000) by {
            if s > 0x20_0000_0000_0000 {
                assert(s * s > 0x20_0000_0000_0000 * 0x20_0000_0000_0000) by (nonlinear_arith)
                    requires
                        s > 0x20_0000_0000_0000,
                ;
            }
        }
        let half = (s / 2) as int;
        let si = s as int;
        assert((2 * half) * (2 * half) <= si * si) by (nonlinear_arith)
            requires
                0 <= 2 * half <= si,
        ;
        assert((si + 1) * (si + 1) <= (2 * half + 2) * (2 * half + 2)) by (nonlinear_arith)
            requires
                0 <= si + 1 <= 2 * half + 2,
        ;
    }
    (s / 2) as i64 + l.spacing
}

/// The length of a segment along a line: half the spacing, from half a pixel to four.
pub open spec fn segment_len(spacing: int) -> int {
    if spacing / 2 < 500_000 {
        500_000
    } else if spacing / 2 > 4_000_000 {
        4_000_000
    } else {
        spacing / 2
    }
}

/// The length of a segment along a line.
pub fn segment(spacing: i64) -> (s: i64)
    requires
        0 < spacing,
    ensures
        s == segment_len(spacing as int),
        500_000 <= s <= 4_000_000,
{
    if spacing / 2 < 500_000 {
        500_000
    } else if spacing / 2 > 4_000_000 {
        4_000_000
    } else {
        spacing / 2
    }
}

/// How often `b` goes into `a`, rounded up.
pub open spec fn ceil_div(a: int, b: int) -> int {
    (a + b - 1) / b
}

/// Where knot `k` stands along a line that reaches from `-r` to `r`.
pub open spec fn knot(r: int, s: int, k: int) -> int {
    if k * s - r < r {
        k * s - r
    } else {
        r
    }
}

/// The middle of segment `k`.
pub open spec fn middle(r: int, s: int, k: int) -> int {
    (knot(r, s, k) + knot(r, s, k + 1)) / 2
}

/// Where a place of the screen lies on the canvas; see `Lattice::place`.
pub fn place_of(l: &Lattice, u: i64, v: i64) -> (p: (i64, i64))
    requires
        l.wf(),
        -MAX_PLACE <= u <= MAX_PLACE,
        -MAX_PLACE <= v <= MAX_PLACE,
    ensures
        l.place(u as int, v as int) == (p.0 as int, p.1 as int),
        -4 * MAX_PLACE <= p.0 <= 4 * MAX_PLACE,
        -4 * MAX_PLACE <= p.1 <= 4 * MAX_PLACE,
{
    let (a, b): (i128, i128) = (u as i128, v as i128);
    let (s, c): (i128, i128) = (l.sin as i128, l.cos as i128);
    proof {
        lemma_turn_bound(b as int, c as int);
        lemma_turn_bound(a as int, s as int);
        lemma_turn_bound(a as int, c as int);
        lemma_turn_bound(b as int, s as int);
    }
    let x: i128 = floor_turn(b * c - a * s);
    let y: i128 = floor_turn(a * c + b * s);
    (l.w as i64 * 500_000 + x as i64, l.h as i64 * 500_000 + y as i64)
}

proof fn lemma_turn_bound(a: int, b: int)
    by (nonlinear_arith)
    requires
        -0x80_0000_0000_0000 <= a <= 0x80_0000_0000_0000,
        -0x4000_0000 <= b <= 0x4000_0000,
    ensures
        -0x80_0000_0000_0000 * 0x4000_0000 <= a * b <= 0x80_0000_0000_0000 * 0x4000_0000,
{
}

/// `a / TURN`, rounded down.
fn floor_turn(a: i128) -> (q: i128)
    requires
        -0x2000_0000_0000_0000 * 0x4000_0000 <= a <= 0x2000_0000_0000_0000 * 0x4000_0000,
    ensures
        q == a as int / (TURN as int),
{
    if a >= 0 {
        a / TURN as i128
    } else {
        -((TURN as i128 - 1 - a) / TURN as i128)
    }
}

/// A place on the canvas in thousandths of a pixel, rounded to nearest, and to the even
/// neighbour from half way.
pub open spec fn milli(p: (int, int)) -> Point {
    (evenly(p.0, 1000) as i64, evenly(p.1, 1000) as i64)
}

/// A place on the canvas in thousandths of a pixel; see `milli`.
pub fn to_milli(p: (i64, i64)) -> (q: Point)
    requires
        -8 * MAX_PLACE <= p.0 <= 8 * MAX_PLACE,
        -8 * MAX_PLACE <= p.1 <= 8 * MAX_PLACE,
    ensures
        q == milli((p.0 as int, p.1 as int)),
        -MAX_POINT <= q.0 <= MAX_POINT,
        -MAX_POINT <= q.1 <= MAX_POINT,
{
    (even_thousand(p.0), even_thousand(p.1))
}

fn even_thousand(a: i64) -> (q: i64)
    requires
        -0x2000_0000_0000_0000 <= a <= 0x2000_0000_0000_0000,
    ensures
        q == evenly(a as int, 1000),
{
    let q: i64 = floor_thousand(a);
    let r: i64 = a - 1000 * q;
    if r < 500 || (r == 500 && q % 2 == 0) {
        q
    } else {
        q + 1
    }
}

fn floor_thousand(a: i64) -> (q: i64)
    requires
        -0x2000_0000_0000_0000 <= a <= 0x2000_0000_0000_1000,
    ensures
        q == a as int / 1000,
{
    if a >= 0 {
        a / 1000
    } else {
        -((999 - a) / 1000)
    }
}

} // verus!
