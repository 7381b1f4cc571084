//! A screened job: one sheet for each ink, every sheet cut from its own tones and limits.

use crate::dots::{dots_to, generate_bluenoise, generate_dots, noise_screen, noise_size, pitch, Dot};
use crate::hatch::{generate_hatch, hatching};
use crate::lattice::{
    extent, max_cut_for, most_cut, raw_width, tamed_cut, tamed_cut_for, Cut, Lattice, MAX_SPACING,
    TURN, WHOLE,
};
use crate::screen::{tones_ok, FULL};
use crate::strokes::{
    counts_of, generate_quads_capped, lemma_reach_unique, outlines, ribbons_ok, screen_counts,
    screening,
};
use crate::svg::Ribbon;
use crate::trace::Point;
use crate::waves::{generate_wavy, lemma_waves_unique, sines_ok, waves_upto, Waving};
use vstd::prelude::*;

verus! {

/// What limits the widest cut of a sheet.
#[derive(Clone, Copy, Debug, PartialEq, Eq, Structural)]
pub enum Width {
    /// A translucent ink: what the material leaves of the spacing, scaled by the ink's load.
    Loaded { load: i64 },
    /// An opaque ink: the width that is asked for, as far as the material allows.
    Tamed { asked: i64 },
}

/// What a sheet is screened with, and the tones it is screened by.
pub enum Pattern {
    /// Straight lines; the tones at their middles.
    Lines { tones: Vec<i64> },
    /// Waves; their sines at the middles and knots of a line, and the tones at the middles.
    Waves { swing: i64, mids: Vec<i64>, knots: Vec<i64>, tones: Vec<i64> },
    /// Dots on a lattice; the tones at their places.
    Dots { tones: Vec<i64> },
    /// Diffused dots; the least and the greatest diameter, and the tones of the cells.
    Noise { dot_min: i64, dot_max: i64, tones: Vec<i64> },
    /// Lines along the contours; the angles, and the tones of each.
    Hatch { turns: Vec<(i64, i64)>, tones: Vec<Vec<i64>> },
}

/// One sheet of a job.
pub struct Sheet {
    pub lattice: Lattice,
    pub width: Width,
    pub pattern: Pattern,
}

/// The cuts of a sheet.
pub enum Cuts {
    Ribbons(Vec<Ribbon>),
    Dots(Vec<Dot>),
}

/// The limits of a sheet whose widest cut is limited in the given way.
pub open spec fn limits(base: Cut, spacing: int, width: Width) -> Cut {
    match width {
        Width::Loaded { load } => Cut {
            least: base.least,
            most: most_cut(spacing, base.material as int, load as int) as i64,
            kerf: base.kerf,
            load,
            interval: base.interval,
            bridge: base.bridge,
            material: base.material,
        },
        Width::Tamed { asked } => Cut {
            least: base.least,
            most: tamed_cut(asked as int, spacing, base.material as int) as i64,
            kerf: base.kerf,
            load: base.load,
            interval: base.interval,
            bridge: base.bridge,
            material: base.material,
        },
    }
}

/// Whether a load is one that a cut can have.
pub open spec fn width_ok(width: Width) -> bool {
    match width {
        Width::Loaded { load } => 0 <= load <= WHOLE,
        Width::Tamed { .. } => true,
    }
}

/// The limits of a sheet; see `limits`.
pub fn limits_of(base: &Cut, spacing: i64, width: Width) -> (c: Cut)
    requires
        base.wf(),
        0 < spacing <= MAX_SPACING,
        width_ok(width),
    ensures
        c == limits(*base, spacing as int, width),
        c.wf(),
{
    let (most, load): (i64, i64) = match width {
        Width::Loaded { load } => (max_cut_for(spacing, base.material, load), load),
        Width::Tamed { asked } => (tamed_cut_for(asked, spacing, base.material), base.load),
    };
    Cut {
        least: base.least,
        most,
        kerf: base.kerf,
        load,
        interval: base.interval,
        bridge: base.bridge,
        material: base.material,
    }
}

/// Whether the pattern holds a tone for every place that is screened on the lattice.
pub open spec fn pattern_ok(l: Lattice, p: Pattern) -> bool {
    match p {
        Pattern::Lines { tones } => {
            &&& tones_ok(tones@)
            &&& forall|r: int|
                l.is_reach(r) ==> tones@.len() == (2 * counts_of(l, r).0 + 1)
                    * #[trigger] counts_of(l, r).1
        },
        Pattern::Waves { swing, mids, knots, tones } => {
            &&& 0 <= swing <= MAX_SPACING
            &&& sines_ok(mids@)
            &&& sines_ok(knots@)
            &&& tones_ok(tones@)
            &&& forall|r: int|
                l.is_reach(r) ==> {
                    let n = #[trigger] counts_of(l, r);
                    &&& mids@.len() == n.1
                    &&& knots@.len() == n.1 + 1
                    &&& tones@.len() == (2 * n.0 + 1) * n.1
                }
        },
        Pattern::Dots { tones } => {
            &&& tones_ok(tones@)
            &&& forall|r: int|
                l.is_reach(r) ==> {
                    let n = (#[trigger] counts_of(l, r)).0;
                    tones@.len() == (2 * n + 1) * (2 * n + 1)
                }
        },
        Pattern::Noise { dot_min, dot_max, tones } => {
            let n = noise_size(l.w as int, l.h as int, l.spacing as int);
            &&& 0 <= dot_min
            &&& 0 <= dot_max
            &&& tones_ok(tones@)
            &&& tones@.len() == n.0 * n.1
        },
        Pattern::Hatch { turns, tones } => {
            &&& l.w * l.h <= usize::MAX
            &&& tones@.len() == turns@.len()
            &&& forall|b: int|
                0 <= b < turns@.len() ==> -TURN <= (#[trigger] turns@[b]).0 <= TURN && -TURN
                    <= turns@[b].1 <= TURN
            &&& forall|b: int| 0 <= b < tones@.len() ==> tones_ok((#[trigger] tones@[b])@)
            &&& forall|b: int, r: int|
                0 <= b < tones@.len() && l.is_reach(r) ==> (#[trigger] tones@[b])@.len() == (2
                    * counts_of(l, r).0 + 1) * (#[trigger] counts_of(l, r)).1
        },
    }
}

/// Whether a sheet can be screened.
pub open spec fn sheet_ok(s: Sheet) -> bool {
    s.lattice.wf() && width_ok(s.width) && pattern_ok(s.lattice, s.pattern)
}

/// Whether `v` are the outlines of all lines of a wavy screen.
pub open spec fn waves_cut(s: Waving, v: Seq<Seq<Point>>) -> bool {
    waves_upto(s, 2 * s.side() + 1, v)
}

/// Whether `cuts` is what the pattern gives on the lattice within the limits `c`.
pub open spec fn pattern_cut(l: Lattice, c: Cut, p: Pattern, cuts: Cuts) -> bool {
    match (p, cuts) {
        (Pattern::Lines { tones }, Cuts::Ribbons(v)) => exists|r: int| #[trigger]
            l.is_reach(r) && outlines(v@) == screening(l, c, r, tones@, None).runs(),
        (Pattern::Waves { swing, mids, knots, tones }, Cuts::Ribbons(v)) => exists|r: int| #[trigger]
            l.is_reach(r) && waves_cut(
                Waving { l, c, r, swing: swing as int, mids: mids@, knots: knots@, tones: tones@ },
                outlines(v@),
            ),
        (Pattern::Dots { tones }, Cuts::Dots(v)) => exists|r: int| #[trigger]
            l.is_reach(r) && v@ == dots_to(
                l,
                c,
                tones@,
                counts_of(l, r).0,
                2 * counts_of(l, r).0 + 1,
            ),
        (Pattern::Noise { dot_min, dot_max, tones }, Cuts::Dots(v)) => {
            let n = noise_size(l.w as int, l.h as int, l.spacing as int);
            v@ == noise_screen(
                c,
                tones@,
                n.0,
                n.1,
                pitch(l.spacing as int),
                dot_min as int,
                dot_max as int,
            )
        },
        (Pattern::Hatch { turns, tones }, Cuts::Ribbons(v)) => exists|r: int| #[trigger]
            l.is_reach(r) && outlines(v@) == hatching(l, turns@, c, r, tones@).runs(),
        _ => false,
    }
}

/// Whether `cuts` are the cuts of a sheet: they depend on nothing but the sheet and what is
/// common to all.
pub open spec fn sheet_cut(base: Cut, s: Sheet, cuts: Cuts) -> bool {
    pattern_cut(
        s.lattice,
        limits(base, s.lattice.spacing as int, s.width),
        s.pattern,
        cuts,
    )
}

/// Cuts one sheet.
fn generate_sheet(base: &Cut, s: &Sheet) -> (cuts: Cuts)
    requires
        base.wf(),
        sheet_ok(*s),
    ensures
        sheet_cut(*base, *s, cuts),
        cuts matches Cuts::Ribbons(v) ==> ribbons_ok(v@),
{
    let l: &Lattice = &s.lattice;
    let c: Cut = limits_of(base, l.spacing, s.width);
    let (side, segs, r) = screen_counts(l);
    match &s.pattern {
        Pattern::Lines { tones } => {
            let v: Vec<Ribbon> = generate_quads_capped(l, &c, tones.as_slice());
            proof {
                assert(outlines(v@) == screening(*l, c, r as int, tones@, None).runs());
            }
            Cuts::Ribbons(v)
        },
        Pattern::Waves { swing, mids, knots, tones } => {
            let v: Vec<Ribbon> = generate_wavy(
                l,
                &c,
                *swing,
                mids.as_slice(),
                knots.as_slice(),
                tones.as_slice(),
            );
            proof {
                let t = Waving {
                    l: *l,
                    c,
                    r: r as int,
                    swing: *swing as int,
                    mids: mids@,
                    knots: knots@,
                    tones: tones@,
                };
                assert(waves_upto(t, 2 * t.side() + 1, outlines(v@)));
                assert(waves_cut(t, outlines(v@)));
            }
            Cuts::Ribbons(v)
        },
        Pattern::Dots { tones } => {
            let v: Vec<Dot> = generate_dots(l, &c, tones.as_slice());
            proof {
                let n = counts_of(*l, r as int).0;
                assert(v@ == dots_to(*l, c, tones@, n, 2 * n + 1));
            }
            Cuts::Dots(v)
        },
        Pattern::Noise { dot_min, dot_max, tones } => {
            Cuts::Dots(
                generate_bluenoise(
                    l.w,
                    l.h,
                    l.spacing,
                    &c,
                    *dot_min,
                    *dot_max,
                    tones.as_slice(),
                ),
            )
        },
        Pattern::Hatch { turns, tones } => {
            let v: Vec<Ribbon> = generate_hatch(l, turns.as_slice(), &c, tones.as_slice());
            proof {
                assert(outlines(v@) == hatching(*l, turns@, c, r as int, tones@).runs());
            }
            Cuts::Ribbons(v)
        },
    }
}

/// Whether `cuts` are the cuts of all sheets of a job.
pub open spec fn job_cut(base: Cut, sheets: Seq<Sheet>, cuts: Seq<Cuts>) -> bool {
    &&& cuts.len() == sheets.len()
    &&& forall|i: int| 0 <= i < cuts.len() ==> sheet_cut(base, sheets[i], #[trigger] cuts[i])
}

/// Cuts all sheets of a job.
pub fn generate_all(base: &Cut, sheets: &[Sheet]) -> (cuts: Vec<Cuts>)
    requires
        base.wf(),
        forall|i: int| 0 <= i < sheets@.len() ==> sheet_ok(#[trigger] sheets@[i]),
    ensures
        job_cut(*base, sheets@, cuts@),
        forall|i: int|
            0 <= i < cuts@.len() ==> (#[trigger] cuts@[i] matches Cuts::Ribbons(v) ==> ribbons_ok(
                v@,
            )),
{
    let mut cuts: Vec<Cuts> = Vec::new();
    for i in 0..sheets.len()
        invariant
            base.wf(),
            forall|i: int| 0 <= i < sheets@.len() ==> sheet_ok(#[trigger] sheets@[i]),
            cuts@.len() == i,
            forall|k: int|
                0 <= k < i ==> sheet_cut(*base, sheets@[k], #[trigger] cuts@[k]),
            forall|k: int|
                0 <= k < i ==> (#[trigger] cuts@[k] matches Cuts::Ribbons(v) ==> ribbons_ok(v@)),
    {
        cuts.push(generate_sheet(base, &sheets[i]));
    }
    cuts
}

/// Whether two sheets are screened alike: on one lattice, in one way, by the same tones.
pub open spec fn same_sheet(a: Sheet, b: Sheet) -> bool {
    &&& a.lattice == b.lattice
    &&& a.width == b.width
    &&& match (a.pattern, b.pattern) {
        (Pattern::Lines { tones }, Pattern::Lines { tones: t }) => tones@ == t@,
        (
            Pattern::Waves { swing, mids, knots, tones },
            Pattern::Waves { swing: s, mids: m, knots: k, tones: t },
        ) => swing == s && mids@ == m@ && knots@ == k@ && tones@ == t@,
        (Pattern::Dots { tones }, Pattern::Dots { tones: t }) => tones@ == t@,
        (
            Pattern::Noise { dot_min, dot_max, tones },
            Pattern::Noise { dot_min: lo, dot_max: hi, tones: t },
        ) => dot_min == lo && dot_max == hi && tones@ == t@,
        (Pattern::Hatch { turns, tones }, Pattern::Hatch { turns: u, tones: t }) => {
            &&& turns@ == u@
            &&& tones@.len() == t@.len()
            &&& forall|b: int| 0 <= b < tones@.len() ==> (#[trigger] tones@[b])@ == t@[b]@
        },
        _ => false,
    }
}

/// Whether two sheets have the same cuts.
pub open spec fn same_cuts(a: Cuts, b: Cuts) -> bool {
    match (a, b) {
        (Cuts::Ribbons(v), Cuts::Ribbons(u)) => outlines(v@) == outlines(u@),
        (Cuts::Dots(v), Cuts::Dots(u)) => v@ == u@,
        _ => false,
    }
}

proof fn lemma_same_cuts(base: Cut, s: Sheet, t: Sheet, a: Cuts, b: Cuts)
    requires
        same_sheet(s, t),
        sheet_cut(base, s, a),
        sheet_cut(base, t, b),
    ensures
        same_cuts(a, b),
{
    let l = s.lattice;
    let c = limits(base, l.spacing as int, s.width);
    match (s.pattern, t.pattern, a, b) {
        (
            Pattern::Lines { tones },
            Pattern::Lines { tones: other },
            Cuts::Ribbons(v),
            Cuts::Ribbons(u),
        ) => {
            let r = choose|r: int| #[trigger]
                l.is_reach(r) && outlines(v@) == screening(l, c, r, tones@, None).runs();
            let q = choose|r: int| #[trigger]
                l.is_reach(r) && outlines(u@) == screening(l, c, r, other@, None).runs();
            lemma_reach_unique(l, r, q);
        },
        (
            Pattern::Waves { swing, mids, knots, tones },
            Pattern::Waves { swing: s2, mids: m2, knots: k2, tones: t2 },
            Cuts::Ribbons(v),
            Cuts::Ribbons(u),
        ) => {
            let r = choose|r: int| #[trigger]
                l.is_reach(r) && waves_cut(
                    Waving {
                        l,
                        c,
                        r,
                        swing: swing as int,
                        mids: mids@,
                        knots: knots@,
                        tones: tones@,
                    },
                    outlines(v@),
                );
            let q = choose|r: int| #[trigger]
                l.is_reach(r) && waves_cut(
                    Waving { l, c, r, swing: s2 as int, mids: m2@, knots: k2@, tones: t2@ },
                    outlines(u@),
                );
            lemma_reach_unique(l, r, q);
            let x = Waving {
                l,
                c,
                r,
                swing: swing as int,
                mids: mids@,
                knots: knots@,
                tones: tones@,
            };
            lemma_waves_unique(x, 2 * x.side() + 1, outlines(v@), outlines(u@));
        },
        (
            Pattern::Dots { tones },
            Pattern::Dots { tones: other },
            Cuts::Dots(v),
            Cuts::Dots(u),
        ) => {
            let r = choose|r: int| #[trigger]
                l.is_reach(r) && v@ == dots_to(
                    l,
                    c,
                    tones@,
                    counts_of(l, r).0,
                    2 * counts_of(l, r).0 + 1,
                );
            let q = choose|r: int| #[trigger]
                l.is_reach(r) && u@ == dots_to(
                    l,
                    c,
                    other@,
                    counts_of(l, r).0,
                    2 * counts_of(l, r).0 + 1,
                );
            lemma_reach_unique(l, r, q);
        },
        (
            Pattern::Hatch { turns, tones },
            Pattern::Hatch { turns: u2, tones: t2 },
            Cuts::Ribbons(v),
            Cuts::Ribbons(u),
        ) => {
            let r = choose|r: int| #[trigger]
                l.is_reach(r) && outlines(v@) == hatching(l, turns@, c, r, tones@).runs();
            let q = choose|r: int| #[trigger]
                l.is_reach(r) && outlines(u@) == hatching(l, u2@, c, r, t2@).runs();
            lemma_reach_unique(l, r, q);
            assert(hatching(l, turns@, c, r, tones@).tones =~= hatching(l, u2@, c, q, t2@).tones);
        },
        _ => {},
    }
}

/// Each ink stands alone: whatever changes on sheet `k` of a job, its load or its tones, the
/// cuts of all other sheets stay as they are.
pub proof fn lemma_sheets_apart(
    base: Cut,
    s: Seq<Sheet>,
    t: Seq<Sheet>,
    k: int,
    a: Seq<Cuts>,
    b: Seq<Cuts>,
)
    requires
        s.len() == t.len(),
        forall|i: int| 0 <= i < s.len() && i != k ==> same_sheet(#[trigger] s[i], t[i]),
        job_cut(base, s, a),
        job_cut(base, t, b),
    ensures
        forall|i: int| 0 <= i < a.len() && i != k ==> same_cuts(#[trigger] a[i], b[i]),
{
    assert forall|i: int| 0 <= i < a.len() && i != k implies same_cuts(#[trigger] a[i], b[i]) by {
        assert(same_sheet(s[i], t[i]));
        assert(sheet_cut(base, t[i], b[i]));
        lemma_same_cuts(base, s[i], t[i], a[i], b[i]);
    }
}

/// A lower load never cuts wider, and the whole load changes nothing: the widest cut is then
/// all that the material leaves of the spacing, and a tone asks for its share of the spacing.
pub proof fn lemma_load_narrows(base: Cut, spacing: int, tone: int, load: i64, more: i64)
    requires
        base.wf(),
        0 < spacing <= MAX_SPACING,
        0 <= tone <= FULL,
        0 <= load <= more <= WHOLE,
    ensures
        ({
            let c = limits(base, spacing, Width::Loaded { load });
            let d = limits(base, spacing, Width::Loaded { load: more });
            &&& c.most <= d.most
            &&& extent(tone, spacing, c) <= extent(tone, spacing, d)
            &&& more == WHOLE && base.material <= spacing ==> d.most == spacing - base.material
            &&& more == WHOLE ==> raw_width(tone, spacing, d.load as int) == tone * spacing / (
            FULL as int)
        }),
{
    let m = spacing - base.material;
    if m > 0 {
        assert(0 <= m * load / 1_000_000 <= m * more / 1_000_000 <= m) by (nonlinear_arith)
            requires
                m > 0,
                0 <= load <= more <= 1_000_000,
        ;
        if more == WHOLE {
            assert(m * more / 1_000_000 == m) by (nonlinear_arith)
                requires
                    more == 1_000_000,
            ;
        }
    }
    let (x, y) = (tone * spacing * load, tone * spacing * more);
    assert(0 <= x <= y) by (nonlinear_arith)
        requires
            0 <= tone,
            0 < spacing,
            0 <= load <= more,
            x == tone * spacing * load,
            y == tone * spacing * more,
    ;
    let z = tone * spacing;
    if more == WHOLE {
        assert(y == z * 1_000_000);
    }
}

/// What limits the widest cut changes nothing else: the least cut, the kerf, the bridges and
/// the material stay as they are, and so does the load where none is given.
pub proof fn lemma_limits_keep(base: Cut, spacing: int, width: Width)
    ensures
        ({
            let c = limits(base, spacing, width);
            &&& c.least == base.least
            &&& c.kerf == base.kerf
            &&& c.interval == base.interval
            &&& c.bridge == base.bridge
            &&& c.material == base.material
            &&& width matches Width::Loaded { load } ==> c.load == load
            &&& width is Tamed ==> c.load == base.load
        }),
{
}

} // verus!
