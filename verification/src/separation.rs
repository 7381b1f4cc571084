//! Separation into inks: 8-bit colour to exact shares of cyan, magenta, yellow and black,
//! and on to the channels of an ink set.

use crate::inks::{Ink, Inks};
use crate::number::Number;
use vstd::prelude::*;

verus! {

/// The ink of one pixel: `c`, `m` and `y` count parts of `unit`, `k` parts of 255.
#[derive(Clone, Copy, Debug, PartialEq, Eq, Structural)]
pub struct Cmyk {
    pub c: u8,
    pub m: u8,
    pub y: u8,
    pub k: u8,
    pub unit: u8,
}

impl Cmyk {
    /// Whether no share exceeds the whole.
    pub open spec fn wf(self) -> bool {
        self.unit > 0 && self.c <= self.unit && self.m <= self.unit && self.y <= self.unit
    }
}

/// The greatest of three.
pub open spec fn max3(r: u8, g: u8, b: u8) -> u8 {
    if r >= g && r >= b {
        r
    } else if g >= b {
        g
    } else {
        b
    }
}

/// The inks of a colour: black is what all channels lack, the others what each lacks of
/// the brightest. Pure black is all black ink.
pub open spec fn separated(r: u8, g: u8, b: u8) -> Cmyk {
    let top = max3(r, g, b);
    if top == 0 {
        Cmyk { c: 0, m: 0, y: 0, k: 255, unit: 1 }
    } else {
        Cmyk {
            c: (top - r) as u8,
            m: (top - g) as u8,
            y: (top - b) as u8,
            k: (255 - top) as u8,
            unit: top,
        }
    }
}

/// The inks of a colour; see `separated`.
pub fn rgb_to_cmyk(r: u8, g: u8, b: u8) -> (s: Cmyk)
    ensures
        s == separated(r, g, b),
        s.wf(),
{
    let top: u8 = if r >= g && r >= b {
        r
    } else if g >= b {
        g
    } else {
        b
    };
    if top == 0 {
        Cmyk { c: 0, m: 0, y: 0, k: 255, unit: 1 }
    } else {
        Cmyk { c: top - r, m: top - g, y: top - b, k: 255 - top, unit: top }
    }
}

/// The light that a share of ink and the black over it leave, of 255, rounded to nearest.
pub open spec fn passed(ink: u8, unit: u8, k: u8) -> int {
    (2 * (unit - ink) * (255 - k) + unit) / (2 * unit)
}

fn pass(ink: u8, unit: u8, k: u8) -> (v: u8)
    requires
        unit > 0,
        ink <= unit,
    ensures
        v == passed(ink, unit, k),
{
    let a: u32 = unit as u32 - ink as u32;
    let b: u32 = 255 - k as u32;
    proof {
        assert(0 <= a * b <= 255 * unit && 0 <= 2 * (unit - ink) * (255 - k) && 2 * a * b == 2 * (
        unit - ink) * (255 - k)) by (nonlinear_arith)
            requires
                a == unit - ink,
                b == 255 - k,
                ink <= unit,
                0 <= k <= 255,
                0 <= ink,
                unit <= 255,
        ;
        assert(2 * a * b == 2 * (a * b)) by (nonlinear_arith);
        let u = unit as int;
        let p = a * b;
        assert((2 * p + u) / (2 * u) <= 255) by (nonlinear_arith)
            requires
                p <= 255 * u,
                u > 0,
        ;
    }
    ((2 * (a * b) + unit as u32) / (2 * unit as u32)) as u8
}

/// The colour that the inks of a pixel print.
pub fn cmyk_to_rgb(s: Cmyk) -> (rgb: [u8; 3])
    requires
        s.wf(),
    ensures
        rgb@[0] == passed(s.c, s.unit, s.k),
        rgb@[1] == passed(s.m, s.unit, s.k),
        rgb@[2] == passed(s.y, s.unit, s.k),
{
    [pass(s.c, s.unit, s.k), pass(s.m, s.unit, s.k), pass(s.y, s.unit, s.k)]
}

/// Separating a colour loses nothing: its inks print the very same colour.
pub proof fn lemma_separation_inverts(r: u8, g: u8, b: u8)
    ensures
        separated(r, g, b).wf(),
        passed(separated(r, g, b).c, separated(r, g, b).unit, separated(r, g, b).k) == r,
        passed(separated(r, g, b).m, separated(r, g, b).unit, separated(r, g, b).k) == g,
        passed(separated(r, g, b).y, separated(r, g, b).unit, separated(r, g, b).k) == b,
{
    let s = separated(r, g, b);
    if max3(r, g, b) > 0 {
        lemma_pass_back(r, s.unit);
        lemma_pass_back(g, s.unit);
        lemma_pass_back(b, s.unit);
        assert(s.unit - r == s.c && s.unit - g == s.m && s.unit - b == s.y);
        assert(255 - s.unit == s.k);
    } else {
        assert(passed(0, 1, 255) == 0) by (nonlinear_arith);
    }
}

proof fn lemma_pass_back(v: u8, unit: u8)
    requires
        unit > 0,
        v <= unit,
    ensures
        passed((unit - v) as u8, unit, (255 - unit) as u8) == v,
{
    let u = unit as int;
    let x = v as int;
    assert((2 * x * u + u) / (2 * u) == x) by (nonlinear_arith)
        requires
            u > 0,
            x >= 0,
    ;
}

/// The colour that can be printed nearest to the given one, and its inks.
pub fn snap_to_cmyk(r: u8, g: u8, b: u8) -> (s: ([u8; 3], Cmyk))
    ensures
        s.0@[0] == r,
        s.0@[1] == g,
        s.0@[2] == b,
        s.1 == separated(r, g, b),
{
    let s: Cmyk = rgb_to_cmyk(r, g, b);
    proof {
        lemma_separation_inverts(r, g, b);
    }
    (cmyk_to_rgb(s), s)
}

/// A share in whole percent, rounded to nearest.
pub open spec fn percent_of(part: u8, whole: u8) -> int {
    (200 * part + whole) / (2 * whole)
}

/// A share in whole percent, rounded to nearest.
pub fn percent(part: u8, whole: u8) -> (p: u32)
    requires
        whole > 0,
    ensures
        p == percent_of(part, whole),
{
    (200 * part as u32 + whole as u32) / (2 * whole as u32)
}

/// A share of full ink.
#[derive(Clone, Copy, Debug, PartialEq, Eq, Structural)]
pub struct Share {
    pub part: u8,
    pub whole: u8,
}

/// What orange takes: the magenta and yellow that lie over each other, less the cyan.
pub open spec fn orange_part(s: Cmyk) -> int {
    let both = if s.m < s.y {
        s.m
    } else {
        s.y
    };
    if both > s.c {
        both - s.c
    } else {
        0
    }
}

/// What green takes: the cyan and yellow that lie over each other, less the magenta.
pub open spec fn green_part(s: Cmyk) -> int {
    let both = if s.c < s.y {
        s.c
    } else {
        s.y
    };
    if both > s.m {
        both - s.m
    } else {
        0
    }
}

/// How much of an ink an ink set puts on a pixel. The extended set moves what orange and
/// green can print out of the inks that would be mixed for it.
pub open spec fn density_of(inks: Inks, ink: Ink, s: Cmyk) -> Share {
    let o = if inks == Inks::Cmykog {
        orange_part(s)
    } else {
        0
    };
    let g = if inks == Inks::Cmykog {
        green_part(s)
    } else {
        0
    };
    match ink {
        Ink::Cyan => Share { part: (s.c - g) as u8, whole: s.unit },
        Ink::Magenta => Share { part: (s.m - o) as u8, whole: s.unit },
        Ink::Yellow => Share { part: (s.y - o - g) as u8, whole: s.unit },
        Ink::Orange => Share { part: o as u8, whole: s.unit },
        Ink::Green => Share { part: g as u8, whole: s.unit },
        Ink::Black => Share { part: s.k, whole: 255 },
    }
}

/// The extended set moves ink and loses none: orange comes whole out of magenta, green out
/// of cyan, and both out of yellow; no pixel gets both.
pub proof fn lemma_extended_keeps_ink(s: Cmyk)
    requires
        s.wf(),
    ensures
        ({
            let o = density_of(Inks::Cmykog, Ink::Orange, s).part;
            let g = density_of(Inks::Cmykog, Ink::Green, s).part;
            &&& density_of(Inks::Cmykog, Ink::Cyan, s).part + g == s.c
            &&& density_of(Inks::Cmykog, Ink::Magenta, s).part + o == s.m
            &&& density_of(Inks::Cmykog, Ink::Yellow, s).part + o + g == s.y
            &&& o == 0 || g == 0
            &&& density_of(Inks::Cmykog, Ink::Black, s) == density_of(Inks::Cmyk, Ink::Black, s)
        }),
{
}

fn density(inks: Inks, ink: Ink, s: Cmyk) -> (d: Share)
    requires
        s.wf(),
    ensures
        d == density_of(inks, ink, s),
{
    let (o, g): (u8, u8) = match inks {
        Inks::Cmyk => (0, 0),
        Inks::Cmykog => {
            let my: u8 = if s.m < s.y { s.m } else { s.y };
            let cy: u8 = if s.c < s.y { s.c } else { s.y };
            (if my > s.c { my - s.c } else { 0 }, if cy > s.m { cy - s.m } else { 0 })
        },
    };
    match ink {
        Ink::Cyan => Share { part: s.c - g, whole: s.unit },
        Ink::Magenta => Share { part: s.m - o, whole: s.unit },
        Ink::Yellow => Share { part: s.y - o - g, whole: s.unit },
        Ink::Orange => Share { part: o, whole: s.unit },
        Ink::Green => Share { part: g, whole: s.unit },
        Ink::Black => Share { part: s.k, whole: 255 },
    }
}

/// The separation of an image: the inks of every pixel, row by row.
pub struct Layers {
    pub pixels: Vec<Cmyk>,
}

impl Layers {
    /// Whether every pixel's inks are sound.
    pub open spec fn wf(self) -> bool {
        forall|i: int| 0 <= i < self.pixels@.len() ==> (#[trigger] self.pixels@[i]).wf()
    }
}

/// Separates an image.
pub fn separate(pixels: &[[u8; 3]]) -> (r: Layers)
    ensures
        r.wf(),
        r.pixels@.len() == pixels@.len(),
        forall|i: int|
            0 <= i < pixels@.len() ==> #[trigger] r.pixels@[i] == separated(
                pixels@[i]@[0],
                pixels@[i]@[1],
                pixels@[i]@[2],
            ),
{
    let mut out: Vec<Cmyk> = Vec::new();
    for i in 0..pixels.len()
        invariant
            out@.len() == i,
            forall|j: int|
                0 <= j < i ==> #[trigger] out@[j] == separated(
                    pixels@[j]@[0],
                    pixels@[j]@[1],
                    pixels@[j]@[2],
                ) && out@[j].wf(),
    {
        let p: [u8; 3] = pixels[i];
        out.push(rgb_to_cmyk(p[0], p[1], p[2]));
    }
    Layers { pixels: out }
}

/// One screened ink: how much of it each pixel gets, and how it is screened.
pub struct Channel {
    pub density: Vec<Share>,
    pub ink: Ink,
    /// The screen's angle in degrees.
    pub angle: Number,
    /// The scale of the cut width; 1 is the full budget.
    pub load: Number,
}

/// The entry at `i`, or `fallback` past the end.
pub open spec fn entry_or(v: Seq<Number>, i: int, fallback: Number) -> Number {
    if i < v.len() {
        v[i]
    } else {
        fallback
    }
}

/// Whether `ch` is the channel of the ink at place `i` of the set.
pub open spec fn is_channel(
    layers: Layers,
    inks: Inks,
    angles: Seq<Number>,
    loads: Seq<Number>,
    i: int,
    ch: Channel,
) -> bool {
    &&& ch.ink == inks.inks()[i]
    &&& ch.angle == entry_or(angles, i, Number::nil())
    &&& ch.load == entry_or(loads, i, Number::unit())
    &&& ch.density@.len() == layers.pixels@.len()
    &&& forall|j: int|
        0 <= j < layers.pixels@.len() ==> #[trigger] ch.density@[j] == density_of(
            inks,
            ch.ink,
            layers.pixels@[j],
        )
}

/// The channels of an ink set, in spray order. A missing angle is 0, a missing load 1.
pub fn channels(layers: &Layers, inks: Inks, angles: &[Number], loads: &[Number]) -> (r: Vec<
    Channel,
>)
    requires
        layers.wf(),
    ensures
        r@.len() == inks.inks().len(),
        forall|i: int|
            0 <= i < r@.len() ==> is_channel(
                *layers,
                inks,
                angles@,
                loads@,
                i,
                #[trigger] r@[i],
            ),
{
    let set: Vec<Ink> = inks.specs();
    let mut out: Vec<Channel> = Vec::new();
    for i in 0..set.len()
        invariant
            layers.wf(),
            set@ == inks.inks(),
            out@.len() == i,
            forall|j: int|
                0 <= j < i ==> is_channel(*layers, inks, angles@, loads@, j, #[trigger] out@[j]),
    {
        let ink: Ink = set[i];
        let mut map: Vec<Share> = Vec::new();
        for j in 0..layers.pixels.len()
            invariant
                layers.wf(),
                map@.len() == j,
                forall|k: int|
                    0 <= k < j ==> #[trigger] map@[k] == density_of(
                        inks,
                        ink,
                        layers.pixels@[k],
                    ),
        {
            map.push(density(inks, ink, layers.pixels[j]));
        }
        let angle: Number = if i < angles.len() { angles[i] } else { Number::zero() };
        let load: Number = if i < loads.len() { loads[i] } else { Number::one() };
        out.push(Channel { density: map, ink, angle, load });
    }
    out
}

} // verus!
