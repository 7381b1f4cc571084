//! Paper sizes, and how artwork is placed on a sheet.

use crate::grid::MAX_SIDE;
use crate::lattice::MAX_SPACING;
use vstd::prelude::*;
use vstd::string::*;

verus! {

/// ISO A paper sizes, portrait.
#[derive(Clone, Copy, Debug, PartialEq, Eq, Structural)]
pub enum Paper {
    A2,
    A3,
    A4,
    A5,
}

impl Paper {
    /// Width and height in millimetres, portrait.
    pub open spec fn size(self) -> (u32, u32) {
        match self {
            Paper::A2 => (420, 594),
            Paper::A3 => (297, 420),
            Paper::A4 => (210, 297),
            Paper::A5 => (148, 210),
        }
    }

    /// Width and height in millimetres, portrait.
    pub fn dims(self) -> (r: (u32, u32))
        ensures
            r == self.size(),
    {
        match self {
            Paper::A2 => (420, 594),
            Paper::A3 => (297, 420),
            Paper::A4 => (210, 297),
            Paper::A5 => (148, 210),
        }
    }

    /// The size that `s` names: an `A` of either case and the digit, nothing else.
    pub open spec fn named(s: Seq<char>) -> Option<Paper> {
        if s.len() == 2 && (s[0] == 'A' || s[0] == 'a') {
            if s[1] == '2' {
                Some(Paper::A2)
            } else if s[1] == '3' {
                Some(Paper::A3)
            } else if s[1] == '4' {
                Some(Paper::A4)
            } else if s[1] == '5' {
                Some(Paper::A5)
            } else {
                None
            }
        } else {
            None
        }
    }

    /// Reads a paper size, whatever the case.
    pub fn parse(s: &str) -> (r: Option<Paper>)
        ensures
            r == Paper::named(s@),
    {
        if s.unicode_len() != 2 {
            return None;
        }
        let a: char = s.get_char(0);
        let d: char = s.get_char(1);
        if a != 'A' && a != 'a' {
            return None;
        }
        if d == '2' {
            Some(Paper::A2)
        } else if d == '3' {
            Some(Paper::A3)
        } else if d == '4' {
            Some(Paper::A4)
        } else if d == '5' {
            Some(Paper::A5)
        } else {
            None
        }
    }
}

/// One millimetre, in nanometres.
pub const MM: u64 = 1_000_000;

/// How artwork is placed on a sheet. Lengths are in nanometres; one pixel of the artwork
/// takes `scale_nm / scale_px` of them.
#[derive(Clone, Copy, Debug, PartialEq, Eq, Structural)]
pub struct PaperLayout {
    pub paper_w: u64,
    pub paper_h: u64,
    pub scale_nm: u64,
    pub scale_px: u64,
    pub off_x: u64,
    pub off_y: u64,
    pub art_w: u64,
    pub art_h: u64,
}

/// `a / b`, rounded to nearest.
pub open spec fn rounded(a: int, b: int) -> int {
    (2 * a + b) / (2 * b)
}

/// `a / b`, rounded to nearest.
pub fn round_div(a: u64, b: u64) -> (r: u64)
    requires
        0 < b <= 0x1000_0000_0000_0000,
        a <= 0x6fff_ffff_ffff_ffff,
    ensures
        r == rounded(a as int, b as int),
        r <= a + 1,
{
    let r: u64 = (2 * a + b) / (2 * b);
    proof {
        assert((2 * a + b) / (2 * b) <= a + 1) by (nonlinear_arith)
            requires
                b > 0,
                a >= 0,
        ;
    }
    r
}

/// The margin that is kept: none below zero, and never so much that less than two
/// millimetres of the shorter side are left.
pub open spec fn margin_kept(short: int, margin: int) -> int {
    let most = short / 2 - MM;
    if margin < 0 {
        0
    } else if margin > most {
        most
    } else {
        margin
    }
}

/// Whether `l` places artwork of `w` by `h` pixels on the paper, with at least the given
/// margin on all sides: turned as the artwork is, as large as fits, and centred.
pub open spec fn is_layout(paper: Paper, margin: int, w: int, h: int, l: PaperLayout) -> bool {
    let short = paper.size().0 * MM;
    let long = paper.size().1 * MM;
    let m = margin_kept(short, margin);
    let inner_w = l.paper_w - 2 * m;
    let inner_h = l.paper_h - 2 * m;
    &&& l.paper_w == if w > h { long } else { short }
    &&& l.paper_h == if w > h { short } else { long }
    &&& if inner_w * h <= inner_h * w {
        l.scale_nm == inner_w && l.scale_px == w
    } else {
        l.scale_nm == inner_h && l.scale_px == h
    }
    &&& l.art_w == rounded(w * l.scale_nm, l.scale_px as int)
    &&& l.art_h == rounded(h * l.scale_nm, l.scale_px as int)
    &&& l.off_x == (l.paper_w - l.art_w) / 2
    &&& l.off_y == (l.paper_h - l.art_h) / 2
    &&& l.art_w <= inner_w
    &&& l.art_h <= inner_h
}

/// Whether a layout's lengths are those of a sheet of at most a metre that holds its
/// artwork.
pub open spec fn layout_ok(l: PaperLayout) -> bool {
    &&& l.paper_w <= 1_000_000_000
    &&& l.paper_h <= 1_000_000_000
    &&& l.art_w <= l.paper_w
    &&& l.art_h <= l.paper_h
    &&& l.off_x <= l.paper_w
    &&& l.off_y <= l.paper_h
    &&& l.scale_nm <= 1_000_000_000
    &&& 0 < l.scale_px <= MAX_SIDE
}

impl PaperLayout {
    /// Fits artwork of `w_px` by `h_px` pixels onto the paper, with `margin` nanometres of
    /// blank space on every side.
    pub fn fit(paper: Paper, margin: i64, w_px: usize, h_px: usize) -> (l: PaperLayout)
        requires
            0 < w_px <= MAX_SIDE,
            0 < h_px <= MAX_SIDE,
        ensures
            is_layout(paper, margin as int, w_px as int, h_px as int, l),
            layout_ok(l),
    {
        let (pw, ph) = paper.dims();
        let short: u64 = pw as u64 * MM;
        let long: u64 = ph as u64 * MM;
        let (paper_w, paper_h): (u64, u64) = if w_px > h_px {
            (long, short)
        } else {
            (short, long)
        };
        let most: u64 = short / 2 - MM;
        let m: u64 = if margin < 0 {
            0
        } else if margin as u64 > most {
            most
        } else {
            margin as u64
        };
        let inner_w: u64 = paper_w - 2 * m;
        let inner_h: u64 = paper_h - 2 * m;
        let w: u64 = w_px as u64;
        let h: u64 = h_px as u64;
        proof {
            lemma_area_bound(inner_w as int, h as int);
            lemma_area_bound(inner_h as int, w as int);
            lemma_area_bound(inner_w as int, w as int);
            lemma_area_bound(inner_h as int, h as int);
        }
        let by_width: bool = inner_w * h <= inner_h * w;
        let (scale_nm, scale_px): (u64, u64) = if by_width {
            (inner_w, w)
        } else {
            (inner_h, h)
        };
        let art_w: u64 = round_div(w * scale_nm, scale_px);
        let art_h: u64 = round_div(h * scale_nm, scale_px);
        proof {
            if by_width {
                lemma_rounded_within(w * inner_w, inner_w as int, w as int);
                assert(h * inner_w <= inner_h * w) by (nonlinear_arith)
                    requires
                        inner_w * h <= inner_h * w,
                ;
                lemma_rounded_within(h * inner_w, inner_h as int, w as int);
            } else {
                assert(w * inner_h <= inner_w * h && h * inner_h <= inner_h * h)
                    by (nonlinear_arith)
                    requires
                        inner_w * h > inner_h * w,
                ;
                lemma_rounded_within(w * inner_h, inner_w as int, h as int);
                lemma_rounded_within(h * inner_h, inner_h as int, h as int);
            }
        }
        PaperLayout {
            paper_w,
            paper_h,
            scale_nm,
            scale_px,
            off_x: (paper_w - art_w) / 2,
            off_y: (paper_h - art_h) / 2,
            art_w,
            art_h,
        }
    }
}

proof fn lemma_area_bound(a: int, b: int)
    by (nonlinear_arith)
    requires
        0 <= a <= 600_000_000,
        0 <= b <= 0x7fff_ffff,
    ensures
        0 <= a * b <= 0x6fff_ffff_ffff_ffff,
        a * b == b * a,
{
}

proof fn lemma_rounded_within(a: int, q: int, b: int)
    requires
        b > 0,
        0 <= q,
        a <= q * b || a <= b * q,
    ensures
        rounded(a, b) <= q,
{
    assert((2 * a + b) / (2 * b) <= q) by (nonlinear_arith)
        requires
            b > 0,
            a <= q * b || a <= b * q,
    ;
}

/// A placed artwork is centred and keeps its margin: what is blank on one side is blank on
/// the other, to the nanometre, and neither is less than the margin that is kept.
pub proof fn lemma_layout_centred(paper: Paper, margin: int, w: int, h: int, l: PaperLayout)
    requires
        is_layout(paper, margin, w, h, l),
    ensures
        0 <= l.paper_w - (2 * l.off_x + l.art_w) <= 1,
        0 <= l.paper_h - (2 * l.off_y + l.art_h) <= 1,
        l.off_x >= margin_kept(paper.size().0 * MM, margin),
        l.off_y >= margin_kept(paper.size().0 * MM, margin),
{
}

/// The radius of the punch holes in nanometres: the least material on the sheet, given in
/// millionths of a pixel, and at least two millimetres.
pub open spec fn punch_hole(layout: Option<PaperLayout>, material: int) -> int {
    match layout {
        None => 2_000_000,
        Some(l) => {
            let r = rounded(material * l.scale_nm, l.scale_px * 1_000_000);
            if r < 2_000_000 {
                2_000_000
            } else {
                r
            }
        },
    }
}

/// The radius of the punch holes; see `punch_hole`.
pub fn punch_radius(layout: Option<PaperLayout>, material: i64) -> (r: i64)
    requires
        layout matches Some(l) ==> layout_ok(l),
        0 <= material <= MAX_SPACING,
    ensures
        r == punch_hole(layout, material as int),
        r >= 2_000_000,
{
    match layout {
        None => 2_000_000,
        Some(l) => {
            let a: u128 = material as u128;
            let b: u128 = l.scale_nm as u128;
            let d: u128 = l.scale_px as u128 * 1_000_000;
            proof {
                assert(0 <= a * b <= 0x100_0000_0000 * 1_000_000_000) by (nonlinear_arith)
                    requires
                        0 <= a <= 0x100_0000_0000,
                        0 <= b <= 1_000_000_000,
                ;
            }
            let r: u128 = (2 * (a * b) + d) / (2 * d);
            proof {
                let (x, y) = ((2 * (a * b) + d) as int, (2 * d) as int);
                assert(0 <= x / y <= 0x100_0000_0000 * 1000 + 1) by (nonlinear_arith)
                    requires
                        0 <= x <= 2 * (0x100_0000_0000 * 1_000_000_000) + y,
                        y >= 2_000_000,
                ;
            }
            if r < 2_000_000 {
                2_000_000
            } else {
                r as i64
            }
        },
    }
}

} // verus!
