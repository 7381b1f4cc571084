//! The settings of a job: every knob that a preset holds.

use crate::inks::Inks;
use crate::number::Number;
use crate::paper::Paper;
use crate::screen::Shape;
use vstd::prelude::*;

verus! {

/// What a job makes.
#[derive(Clone, Copy, Debug, PartialEq, Eq, Structural)]
pub enum Mode {
    Halftone,
    Stencil,
}

/// How many knobs are numbers.
pub const NUMBERS: usize = 28;

/// How many knobs are switches.
pub const FLAGS: usize = 4;

/// The place of a number: the swing of wavy lines, of the spacing.
pub const WAVE_AMP_FRAC: usize = 0;

/// The place of a number: the length of a wave, of the spacing.
pub const WAVE_LEN_FRAC: usize = 1;

/// The place of a number: the width of wavy lines, of the spacing.
pub const WAVE_WIDTH_FRAC: usize = 2;

/// The place of a number: the smallest diffused dot.
pub const BN_DOT_MIN_PX: usize = 3;

/// The place of a number: the largest diffused dot.
pub const BN_DOT_MAX_PX: usize = 4;

/// The place of a number: the distance between screen lines.
pub const SPACING_PX: usize = 5;

/// The place of a number: the least material left standing between cuts.
pub const MIN_MATERIAL_PX: usize = 6;

/// The place of a number: the least width that is cut.
pub const MIN_CUT_PX: usize = 7;

/// The place of a number: the width of the beam.
pub const KERF_PX: usize = 8;

/// The place of a number: the distance between bridges along a line.
pub const BRIDGE_INTERVAL_PX: usize = 9;

/// The place of a number: the length of a bridge along a line.
pub const HT_BRIDGE_PX: usize = 10;

/// The place of a number: the strength of the spray curve.
pub const SCURVE: usize = 11;

/// The place of a number: the radius of the edge-preserving filter.
pub const BILATERAL_PX: usize = 12;

/// The place of a number: the density below which black is not cut.
pub const K_DEEP_CLIP: usize = 13;

/// The place of a number: the curve of black.
pub const K_GAMMA: usize = 14;

/// The place of a number: the greatest width of black, of the spacing.
pub const K_WIDTH_FRAC: usize = 15;

/// The place of a number: how much black gives way to the colours under it.
pub const UCR: usize = 16;

/// The place of a number: the finer blur of contours.
pub const DOG_SIGMA1: usize = 17;

/// The place of a number: the coarser blur of contours.
pub const DOG_SIGMA2: usize = 18;

/// The place of a number: the contrast from which contours are drawn.
pub const DOG_THRESHOLD: usize = 19;

/// The place of a number: the blank border of a sheet.
pub const MARGIN_MM: usize = 20;

/// The place of a number: the density that counts as none.
pub const WHITE_POINT: usize = 21;

/// The place of a number: the density that counts as full.
pub const BLACK_POINT: usize = 22;

/// The place of a number: the curve of the tones between.
pub const GAMMA: usize = 23;

/// The place of a number: the blur before colours are counted.
pub const COARSEN_PX: usize = 24;

/// The place of a number: the side of the smallest feature that stays.
pub const MIN_FEATURE_PX: usize = 25;

/// The place of a number: the width of a stencil's bridges.
pub const BRIDGE_PX: usize = 26;

/// The place of a number: the tolerance of smoothed outlines.
pub const SMOOTH_PX: usize = 27;

/// The place of a switch: whether black is drawn as contours.
pub const K_CONTOUR: usize = 0;

/// The place of a switch: whether the angles turn together.
pub const ANGLES_LOCKED: usize = 1;

/// The place of a switch: whether the levels are picked from the image.
pub const AUTO_LEVELS: usize = 2;

/// The place of a switch: whether islands are bridged.
pub const BRIDGES: usize = 3;

/// The settings of a job.
pub struct Settings {
    pub mode: Mode,
    pub shape: Shape,
    /// The numbers, each at its place.
    pub numbers: Vec<Number>,
    pub hatch_bins: u32,
    /// The switches, each at its place.
    pub flags: Vec<bool>,
    /// The sheet, or none for raw pixels.
    pub paper: Option<Paper>,
    pub inks: Inks,
    /// One screen angle for each ink.
    pub angles: Vec<Number>,
    /// One load for each ink.
    pub loads: Vec<Number>,
    pub colors: usize,
}

/// What settings say, apart from how they are held.
pub struct Model {
    pub mode: Mode,
    pub shape: Shape,
    pub numbers: Seq<Number>,
    pub hatch_bins: u32,
    pub flags: Seq<bool>,
    pub paper: Option<Paper>,
    pub inks: Inks,
    pub angles: Seq<Number>,
    pub loads: Seq<Number>,
    pub colors: usize,
}

impl Model {
    /// Whether there is a number and a switch for each place, and an angle and a load for
    /// each ink.
    pub open spec fn wf(self) -> bool {
        &&& self.numbers.len() == NUMBERS
        &&& self.flags.len() == FLAGS
        &&& self.angles.len() == self.inks.inks().len()
        &&& self.loads.len() == self.inks.inks().len()
    }
}

/// A whole number of degrees; only the angles that inks start out with.
pub open spec fn degrees(d: u32) -> Number {
    Number {
        bits: if d == 15 {
            0x4170_0000
        } else if d == 30 {
            0x41f0_0000
        } else if d == 45 {
            0x4234_0000
        } else if d == 60 {
            0x4270_0000
        } else if d == 75 {
            0x4296_0000
        } else {
            0
        },
    }
}

/// The angles that an ink set starts out with.
pub open spec fn start_angles(inks: Inks) -> Seq<Number> {
    Seq::new(inks.angles().len(), |i: int| degrees(inks.angles()[i]))
}

/// The loads that an ink set starts out with.
pub open spec fn start_loads(inks: Inks) -> Seq<Number> {
    Seq::new(inks.inks().len(), |i: int| Number::unit())
}

/// The angles that an ink set starts out with.
pub fn first_angles(inks: Inks) -> (r: Vec<Number>)
    ensures
        r@ == start_angles(inks),
        r@.len() == inks.inks().len(),
{
    let d: Vec<u32> = inks.default_angles();
    let mut r: Vec<Number> = Vec::new();
    for i in 0..d.len()
        invariant
            d@ == inks.angles(),
            r@.len() == i,
            forall|j: int| 0 <= j < i ==> #[trigger] r@[j] == degrees(d@[j]),
    {
        let bits: u32 = match d[i] {
            15 => 0x4170_0000,
            30 => 0x41f0_0000,
            45 => 0x4234_0000,
            60 => 0x4270_0000,
            75 => 0x4296_0000,
            _ => 0,
        };
        r.push(Number { bits });
    }
    proof {
        assert(r@ =~= start_angles(inks));
    }
    r
}

/// The loads that an ink set starts out with.
pub fn first_loads(inks: Inks) -> (r: Vec<Number>)
    ensures
        r@ == start_loads(inks),
{
    let n: usize = inks.count();
    let mut r: Vec<Number> = Vec::new();
    for i in 0..n
        invariant
            n == inks.inks().len(),
            r@.len() == i,
            forall|j: int| 0 <= j < i ==> #[trigger] r@[j] == Number::unit(),
    {
        r.push(Number::one());
    }
    proof {
        assert(r@ =~= start_loads(inks));
    }
    r
}

/// The bits of the number that stands at place `i` to start with.
pub open spec fn start_bits(i: int) -> u32 {
    if i == WAVE_AMP_FRAC {
        0x3eb3_3333
    } else if i == WAVE_LEN_FRAC {
        0x4080_0000
    } else if i == WAVE_WIDTH_FRAC {
        0x3f19_999a
    } else if i == BN_DOT_MIN_PX {
        0x4100_0000
    } else if i == BN_DOT_MAX_PX {
        0x4100_0000
    } else if i == SPACING_PX {
        0x4100_0000
    } else if i == MIN_MATERIAL_PX {
        0x3f80_0000
    } else if i == MIN_CUT_PX {
        0x3f00_0000
    } else if i == KERF_PX {
        0x0000_0000
    } else if i == BRIDGE_INTERVAL_PX {
        0x0000_0000
    } else if i == HT_BRIDGE_PX {
        0x4000_0000
    } else if i == SCURVE {
        0x0000_0000
    } else if i == BILATERAL_PX {
        0x0000_0000
    } else if i == K_DEEP_CLIP {
        0x3f40_0000
    } else if i == K_GAMMA {
        0x4000_0000
    } else if i == K_WIDTH_FRAC {
        0x3ecc_cccd
    } else if i == UCR {
        0x3f4c_cccd
    } else if i == DOG_SIGMA1 {
        0x3f80_0000
    } else if i == DOG_SIGMA2 {
        0x4000_0000
    } else if i == DOG_THRESHOLD {
        0x3d4c_cccd
    } else if i == MARGIN_MM {
        0x4120_0000
    } else if i == WHITE_POINT {
        0x0000_0000
    } else if i == BLACK_POINT {
        0x3f80_0000
    } else if i == GAMMA {
        0x3f80_0000
    } else if i == COARSEN_PX {
        0x0000_0000
    } else if i == MIN_FEATURE_PX {
        0x4040_0000
    } else if i == BRIDGE_PX {
        0x3f80_0000
    } else {
        0x3fc0_0000
    }
}

/// The settings to start with.
pub open spec fn start_model() -> Model {
    Model {
        mode: Mode::Halftone,
        shape: Shape::Lines,
        numbers: Seq::new(NUMBERS as nat, |i: int| Number { bits: start_bits(i) }),
        hatch_bins: 6,
        flags: Seq::new(FLAGS as nat, |i: int| false),
        paper: Some(Paper::A4),
        inks: Inks::Cmyk,
        angles: start_angles(Inks::Cmyk),
        loads: start_loads(Inks::Cmyk),
        colors: 4,
    }
}

impl Settings {
    /// What the settings say.
    pub open spec fn model(self) -> Model {
        Model {
            mode: self.mode,
            shape: self.shape,
            numbers: self.numbers@,
            hatch_bins: self.hatch_bins,
            flags: self.flags@,
            paper: self.paper,
            inks: self.inks,
            angles: self.angles@,
            loads: self.loads@,
            colors: self.colors,
        }
    }

    /// The settings to start with.
    pub fn new() -> (s: Settings)
        ensures
            s.model() == start_model(),
            s.model().wf(),
    {
        let numbers: Vec<Number> = vec![
            Number { bits: 0x3eb3_3333 },
            Number { bits: 0x4080_0000 },
            Number { bits: 0x3f19_999a },
            Number { bits: 0x4100_0000 },
            Number { bits: 0x4100_0000 },
            Number { bits: 0x4100_0000 },
            Number { bits: 0x3f80_0000 },
            Number { bits: 0x3f00_0000 },
            Number { bits: 0x0000_0000 },
            Number { bits: 0x0000_0000 },
            Number { bits: 0x4000_0000 },
            Number { bits: 0x0000_0000 },
            Number { bits: 0x0000_0000 },
            Number { bits: 0x3f40_0000 },
            Number { bits: 0x4000_0000 },
            Number { bits: 0x3ecc_cccd },
            Number { bits: 0x3f4c_cccd },
            Number { bits: 0x3f80_0000 },
            Number { bits: 0x4000_0000 },
            Number { bits: 0x3d4c_cccd },
            Number { bits: 0x4120_0000 },
            Number { bits: 0x0000_0000 },
            Number { bits: 0x3f80_0000 },
            Number { bits: 0x3f80_0000 },
            Number { bits: 0x0000_0000 },
            Number { bits: 0x4040_0000 },
            Number { bits: 0x3f80_0000 },
            Number { bits: 0x3fc0_0000 },
        ];
        let flags: Vec<bool> = vec![false, false, false, false];
        proof {
            assert(numbers@ =~= start_model().numbers);
            assert(flags@ =~= start_model().flags);
        }
        Settings {
            mode: Mode::Halftone,
            shape: Shape::Lines,
            numbers,
            hatch_bins: 6,
            flags,
            paper: Some(Paper::A4),
            inks: Inks::Cmyk,
            angles: first_angles(Inks::Cmyk),
            loads: first_loads(Inks::Cmyk),
            colors: 4,
        }
    }

    /// Takes another ink set, with the angles and loads that it starts out with. Taking the
    /// set that is there already changes nothing.
    pub fn choose_inks(&mut self, inks: Inks)
        requires
            old(self).model().wf(),
        ensures
            final(self).model() == if inks == old(self).inks {
                old(self).model()
            } else {
                Model {
                    inks,
                    angles: start_angles(inks),
                    loads: start_loads(inks),
                    ..old(self).model()
                }
            },
            final(self).model().wf(),
    {
        if inks != self.inks {
            self.inks = inks;
            self.angles = first_angles(inks);
            self.loads = first_loads(inks);
        }
    }
}

/// One line of a preset: a remark, or a knob.
#[derive(Clone, Copy, Debug, PartialEq, Eq, Structural)]
pub enum Knob {
    Note(usize),
    Mode,
    Shape,
    Number(usize),
    HatchBins,
    Flag(usize),
    Paper,
    Inks,
    Angles,
    Loads,
    Colors,
}

/// How many lines a preset has.
pub const LINES: usize = 43;

/// What stands on line `j` of a preset.
pub open spec fn knob_on(j: int) -> Knob {
    if j == 0 {
        Knob::Note(0)
    } else if j == 1 {
        Knob::Mode
    } else if j == 2 {
        Knob::Note(1)
    } else if j == 3 {
        Knob::Shape
    } else if j == 4 {
        Knob::Number(0)
    } else if j == 5 {
        Knob::Number(1)
    } else if j == 6 {
        Knob::Number(2)
    } else if j == 7 {
        Knob::HatchBins
    } else if j == 8 {
        Knob::Number(3)
    } else if j == 9 {
        Knob::Number(4)
    } else if j == 10 {
        Knob::Number(5)
    } else if j == 11 {
        Knob::Number(6)
    } else if j == 12 {
        Knob::Number(7)
    } else if j == 13 {
        Knob::Number(8)
    } else if j == 14 {
        Knob::Number(9)
    } else if j == 15 {
        Knob::Number(10)
    } else if j == 16 {
        Knob::Number(11)
    } else if j == 17 {
        Knob::Number(12)
    } else if j == 18 {
        Knob::Flag(0)
    } else if j == 19 {
        Knob::Number(13)
    } else if j == 20 {
        Knob::Number(14)
    } else if j == 21 {
        Knob::Number(15)
    } else if j == 22 {
        Knob::Number(16)
    } else if j == 23 {
        Knob::Number(17)
    } else if j == 24 {
        Knob::Number(18)
    } else if j == 25 {
        Knob::Number(19)
    } else if j == 26 {
        Knob::Paper
    } else if j == 27 {
        Knob::Number(20)
    } else if j == 28 {
        Knob::Inks
    } else if j == 29 {
        Knob::Angles
    } else if j == 30 {
        Knob::Flag(1)
    } else if j == 31 {
        Knob::Loads
    } else if j == 32 {
        Knob::Number(21)
    } else if j == 33 {
        Knob::Number(22)
    } else if j == 34 {
        Knob::Number(23)
    } else if j == 35 {
        Knob::Flag(2)
    } else if j == 36 {
        Knob::Note(2)
    } else if j == 37 {
        Knob::Colors
    } else if j == 38 {
        Knob::Number(24)
    } else if j == 39 {
        Knob::Number(25)
    } else if j == 40 {
        Knob::Flag(3)
    } else if j == 41 {
        Knob::Number(26)
    } else {
        Knob::Number(27)
    }
}

/// What stands on line `j` of a preset.
pub fn knob_at(j: usize) -> (k: Knob)
    requires
        j < LINES,
    ensures
        k == knob_on(j as int),
{
    match j {
        0 => Knob::Note(0),
        1 => Knob::Mode,
        2 => Knob::Note(1),
        3 => Knob::Shape,
        4 => Knob::Number(0),
        5 => Knob::Number(1),
        6 => Knob::Number(2),
        7 => Knob::HatchBins,
        8 => Knob::Number(3),
        9 => Knob::Number(4),
        10 => Knob::Number(5),
        11 => Knob::Number(6),
        12 => Knob::Number(7),
        13 => Knob::Number(8),
        14 => Knob::Number(9),
        15 => Knob::Number(10),
        16 => Knob::Number(11),
        17 => Knob::Number(12),
        18 => Knob::Flag(0),
        19 => Knob::Number(13),
        20 => Knob::Number(14),
        21 => Knob::Number(15),
        22 => Knob::Number(16),
        23 => Knob::Number(17),
        24 => Knob::Number(18),
        25 => Knob::Number(19),
        26 => Knob::Paper,
        27 => Knob::Number(20),
        28 => Knob::Inks,
        29 => Knob::Angles,
        30 => Knob::Flag(1),
        31 => Knob::Loads,
        32 => Knob::Number(21),
        33 => Knob::Number(22),
        34 => Knob::Number(23),
        35 => Knob::Flag(2),
        36 => Knob::Note(2),
        37 => Knob::Colors,
        38 => Knob::Number(24),
        39 => Knob::Number(25),
        40 => Knob::Flag(3),
        41 => Knob::Number(26),
        _ => Knob::Number(27),
    }
}

/// The name of what stands on line `j`: the knob's key, or the remark.
pub open spec fn name_on(j: int) -> Seq<char> {
    if j == 0 {
        "# laser_halftone preset v1"@
    } else if j == 1 {
        "mode"@
    } else if j == 2 {
        "# --- halftone ---"@
    } else if j == 3 {
        "shape"@
    } else if j == 4 {
        "wave_amp_frac"@
    } else if j == 5 {
        "wave_len_frac"@
    } else if j == 6 {
        "wave_width_frac"@
    } else if j == 7 {
        "hatch_bins"@
    } else if j == 8 {
        "bn_dot_min_px"@
    } else if j == 9 {
        "bn_dot_max_px"@
    } else if j == 10 {
        "spacing_px"@
    } else if j == 11 {
        "min_material_px"@
    } else if j == 12 {
        "min_cut_px"@
    } else if j == 13 {
        "kerf_px"@
    } else if j == 14 {
        "bridge_interval_px"@
    } else if j == 15 {
        "ht_bridge_px"@
    } else if j == 16 {
        "scurve"@
    } else if j == 17 {
        "bilateral_px"@
    } else if j == 18 {
        "k_contour"@
    } else if j == 19 {
        "k_deep_clip"@
    } else if j == 20 {
        "k_gamma"@
    } else if j == 21 {
        "k_width_frac"@
    } else if j == 22 {
        "ucr"@
    } else if j == 23 {
        "dog_sigma1"@
    } else if j == 24 {
        "dog_sigma2"@
    } else if j == 25 {
        "dog_threshold"@
    } else if j == 26 {
        "paper"@
    } else if j == 27 {
        "margin_mm"@
    } else if j == 28 {
        "inks"@
    } else if j == 29 {
        "angles"@
    } else if j == 30 {
        "angles_locked"@
    } else if j == 31 {
        "loads"@
    } else if j == 32 {
        "white_point"@
    } else if j == 33 {
        "black_point"@
    } else if j == 34 {
        "gamma"@
    } else if j == 35 {
        "auto_levels"@
    } else if j == 36 {
        "# --- stencil ---"@
    } else if j == 37 {
        "colors"@
    } else if j == 38 {
        "coarsen_px"@
    } else if j == 39 {
        "min_feature_px"@
    } else if j == 40 {
        "bridges"@
    } else if j == 41 {
        "bridge_px"@
    } else {
        "smooth_px"@
    }
}

/// The name of what stands on line `j`: the knob's key, or the remark.
pub fn name_at(j: usize) -> (s: &'static str)
    requires
        j < LINES,
    ensures
        s@ == name_on(j as int),
{
    match j {
        0 => "# laser_halftone preset v1",
        1 => "mode",
        2 => "# --- halftone ---",
        3 => "shape",
        4 => "wave_amp_frac",
        5 => "wave_len_frac",
        6 => "wave_width_frac",
        7 => "hatch_bins",
        8 => "bn_dot_min_px",
        9 => "bn_dot_max_px",
        10 => "spacing_px",
        11 => "min_material_px",
        12 => "min_cut_px",
        13 => "kerf_px",
        14 => "bridge_interval_px",
        15 => "ht_bridge_px",
        16 => "scurve",
        17 => "bilateral_px",
        18 => "k_contour",
        19 => "k_deep_clip",
        20 => "k_gamma",
        21 => "k_width_frac",
        22 => "ucr",
        23 => "dog_sigma1",
        24 => "dog_sigma2",
        25 => "dog_threshold",
        26 => "paper",
        27 => "margin_mm",
        28 => "inks",
        29 => "angles",
        30 => "angles_locked",
        31 => "loads",
        32 => "white_point",
        33 => "black_point",
        34 => "gamma",
        35 => "auto_levels",
        36 => "# --- stencil ---",
        37 => "colors",
        38 => "coarsen_px",
        39 => "min_feature_px",
        40 => "bridges",
        41 => "bridge_px",
        _ => "smooth_px",
    }
}

/// A number by which the names are told apart.
spec fn print_of(s: Seq<char>) -> int {
    let n = s.len() as int;
    n + 2 * (s[0] as u32) + 4 * (s[n - 1] as u32) + 2 * (s[n / 2] as u32) + 3 * (s[n / 3] as u32)
        + 2 * (s[2 * n / 3] as u32)
}

/// That number for the name on line `j`.
spec fn print_on(j: int) -> int {
    if j == 0 {
        1050
    } else if j == 1 {
        1359
    } else if j == 2 {
        1004
    } else if j == 3 {
        1369
    } else if j == 4 {
        1340
    } else if j == 5 {
        1324
    } else if j == 6 {
        1396
    } else if j == 7 {
        1361
    } else if j == 8 {
        1422
    } else if j == 9 {
        1406
    } else if j == 10 {
        1443
    } else if j == 11 {
        1400
    } else if j == 12 {
        1459
    } else if j == 13 {
        1437
    } else if j == 14 {
        1447
    } else if j == 15 {
        1444
    } else if j == 16 {
        1455
    } else if j == 17 {
        1480
    } else if j == 18 {
        1454
    } else if j == 19 {
        1398
    } else if j == 20 {
        1330
    } else if j == 21 {
        1334
    } else if j == 22 {
        1416
    } else if j == 23 {
        1107
    } else if j == 24 {
        1111
    } else if j == 25 {
        1419
    } else if j == 26 {
        1402
    } else if j == 27 {
        1372
    } else if j == 28 {
        1432
    } else if j == 29 {
        1387
    } else if j == 30 {
        1322
    } else if j == 31 {
        1408
    } else if j == 32 {
        1473
    } else if j == 33 {
        1380
    } else if j == 34 {
        1326
    } else if j == 35 {
        1450
    } else if j == 36 {
        775
    } else if j == 37 {
        1438
    } else if j == 38 {
        1452
    } else if j == 39 {
        1478
    } else if j == 40 {
        1384
    } else if j == 41 {
        1381
    } else {
        1474
    }
}

/// The line on which a name with that number stands.
spec fn line_with(p: int) -> int {
    if p == 1050 {
        0
    } else if p == 1359 {
        1
    } else if p == 1004 {
        2
    } else if p == 1369 {
        3
    } else if p == 1340 {
        4
    } else if p == 1324 {
        5
    } else if p == 1396 {
        6
    } else if p == 1361 {
        7
    } else if p == 1422 {
        8
    } else if p == 1406 {
        9
    } else if p == 1443 {
        10
    } else if p == 1400 {
        11
    } else if p == 1459 {
        12
    } else if p == 1437 {
        13
    } else if p == 1447 {
        14
    } else if p == 1444 {
        15
    } else if p == 1455 {
        16
    } else if p == 1480 {
        17
    } else if p == 1454 {
        18
    } else if p == 1398 {
        19
    } else if p == 1330 {
        20
    } else if p == 1334 {
        21
    } else if p == 1416 {
        22
    } else if p == 1107 {
        23
    } else if p == 1111 {
        24
    } else if p == 1419 {
        25
    } else if p == 1402 {
        26
    } else if p == 1372 {
        27
    } else if p == 1432 {
        28
    } else if p == 1387 {
        29
    } else if p == 1322 {
        30
    } else if p == 1408 {
        31
    } else if p == 1473 {
        32
    } else if p == 1380 {
        33
    } else if p == 1326 {
        34
    } else if p == 1450 {
        35
    } else if p == 775 {
        36
    } else if p == 1438 {
        37
    } else if p == 1452 {
        38
    } else if p == 1478 {
        39
    } else if p == 1384 {
        40
    } else if p == 1381 {
        41
    } else {
        42
    }
}

proof fn lemma_name_print(j: int)
    requires
        0 <= j < LINES,
    ensures
        name_on(j).len() > 0,
        print_of(name_on(j)) == print_on(j),
        knob_on(j) is Note <==> name_on(j)[0] == '#',
        !(knob_on(j) is Note) ==> name_is_plain(name_on(j)),
        name_is_line(name_on(j)),
{
    reveal(name_is_plain);
    reveal(name_is_line);
    if j == 0 {
        reveal_strlit("# laser_halftone preset v1");
    } else if j == 1 {
        reveal_strlit("mode");
    } else if j == 2 {
        reveal_strlit("# --- halftone ---");
    } else if j == 3 {
        reveal_strlit("shape");
    } else if j == 4 {
        reveal_strlit("wave_amp_frac");
    } else if j == 5 {
        reveal_strlit("wave_len_frac");
    } else if j == 6 {
        reveal_strlit("wave_width_frac");
    } else if j == 7 {
        reveal_strlit("hatch_bins");
    } else if j == 8 {
        reveal_strlit("bn_dot_min_px");
    } else if j == 9 {
        reveal_strlit("bn_dot_max_px");
    } else if j == 10 {
        reveal_strlit("spacing_px");
    } else if j == 11 {
        reveal_strlit("min_material_px");
    } else if j == 12 {
        reveal_strlit("min_cut_px");
    } else if j == 13 {
        reveal_strlit("kerf_px");
    } else if j == 14 {
        reveal_strlit("bridge_interval_px");
    } else if j == 15 {
        reveal_strlit("ht_bridge_px");
    } else if j == 16 {
        reveal_strlit("scurve");
    } else if j == 17 {
        reveal_strlit("bilateral_px");
    } else if j == 18 {
        reveal_strlit("k_contour");
    } else if j == 19 {
        reveal_strlit("k_deep_clip");
    } else if j == 20 {
        reveal_strlit("k_gamma");
    } else if j == 21 {
        reveal_strlit("k_width_frac");
    } else if j == 22 {
        reveal_strlit("ucr");
    } else if j == 23 {
        reveal_strlit("dog_sigma1");
    } else if j == 24 {
        reveal_strlit("dog_sigma2");
    } else if j == 25 {
        reveal_strlit("dog_threshold");
    } else if j == 26 {
        reveal_strlit("paper");
    } else if j == 27 {
        reveal_strlit("margin_mm");
    } else if j == 28 {
        reveal_strlit("inks");
    } else if j == 29 {
        reveal_strlit("angles");
    } else if j == 30 {
        reveal_strlit("angles_locked");
    } else if j == 31 {
        reveal_strlit("loads");
    } else if j == 32 {
        reveal_strlit("white_point");
    } else if j == 33 {
        reveal_strlit("black_point");
    } else if j == 34 {
        reveal_strlit("gamma");
    } else if j == 35 {
        reveal_strlit("auto_levels");
    } else if j == 36 {
        reveal_strlit("# --- stencil ---");
    } else if j == 37 {
        reveal_strlit("colors");
    } else if j == 38 {
        reveal_strlit("coarsen_px");
    } else if j == 39 {
        reveal_strlit("min_feature_px");
    } else if j == 40 {
        reveal_strlit("bridges");
    } else if j == 41 {
        reveal_strlit("bridge_px");
    } else if j == 42 {
        reveal_strlit("smooth_px");
    }
}

/// Whether a name holds neither white space nor an equals sign.
#[verifier::opaque]
pub open spec fn name_is_plain(s: Seq<char>) -> bool {
    forall|k: int| 0 <= k < s.len() ==> !crate::chars::is_white(#[trigger] s[k]) && s[k] != '='
}

/// Whether a name stands on one line, without white space about it.
#[verifier::opaque]
pub open spec fn name_is_line(s: Seq<char>) -> bool {
    &&& forall|k: int| 0 <= k < s.len() ==> #[trigger] s[k] != '\n'
    &&& s.len() > 0 ==> !crate::chars::is_white(s[0]) && !crate::chars::is_white(s.last())
}

/// The line on which the number at place `i` stands.
pub open spec fn number_line(i: int) -> int {
    if i == 0 {
        4
    } else if i == 1 {
        5
    } else if i == 2 {
        6
    } else if i == 3 {
        8
    } else if i == 4 {
        9
    } else if i == 5 {
        10
    } else if i == 6 {
        11
    } else if i == 7 {
        12
    } else if i == 8 {
        13
    } else if i == 9 {
        14
    } else if i == 10 {
        15
    } else if i == 11 {
        16
    } else if i == 12 {
        17
    } else if i == 13 {
        19
    } else if i == 14 {
        20
    } else if i == 15 {
        21
    } else if i == 16 {
        22
    } else if i == 17 {
        23
    } else if i == 18 {
        24
    } else if i == 19 {
        25
    } else if i == 20 {
        27
    } else if i == 21 {
        32
    } else if i == 22 {
        33
    } else if i == 23 {
        34
    } else if i == 24 {
        38
    } else if i == 25 {
        39
    } else if i == 26 {
        41
    } else {
        42
    }
}

/// The line on which the switch at place `i` stands.
pub open spec fn flag_line(i: int) -> int {
    if i == 0 {
        18
    } else if i == 1 {
        30
    } else if i == 2 {
        35
    } else {
        40
    }
}

/// Every number and every switch has a line.
pub proof fn lemma_lines(i: int)
    ensures
        0 <= i < NUMBERS ==> 0 <= number_line(i) < LINES && knob_on(number_line(i))
            == Knob::Number(i as usize),
        0 <= i < FLAGS ==> 0 <= flag_line(i) < LINES && knob_on(flag_line(i)) == Knob::Flag(
            i as usize,
        ),
{
}

/// The names of a preset's lines are all different; remarks start with a number sign, and
/// keys are single words.
pub proof fn lemma_names(i: int, j: int)
    requires
        0 <= i < LINES,
        0 <= j < LINES,
    ensures
        name_on(i) == name_on(j) ==> i == j,
        name_on(j).len() > 0,
        knob_on(j) is Note <==> name_on(j)[0] == '#',
        !(knob_on(j) is Note) ==> name_is_plain(name_on(j)),
        name_is_line(name_on(j)),
{
    lemma_name_print(i);
    lemma_name_print(j);
    lemma_print_line(i);
    lemma_print_line(j);
}

proof fn lemma_print_line(j: int)
    requires
        0 <= j < LINES,
    ensures
        line_with(print_on(j)) == j,
{
}

} // verus!
