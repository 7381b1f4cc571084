//! What wavy screens share with straight ones, and how far they swing.

use crate::lattice::{extent, is_bridge};
use crate::screen::{in_some_run, is_cut_run, lemma_runs, runs_in};
use crate::strokes::Screening;
use crate::trace::Point;
use crate::waves::{swing_of, Waving};
use vstd::prelude::*;

verus! {

/// Waves swing as far as is asked for, but no farther than leaves neighbouring lines of the
/// widest cut clear of each other; where even straight lines have no room, not at all.
pub proof fn lemma_swing(asked: int, spacing: int, most: int)
    ensures
        ({
            let a = swing_of(asked, spacing, most);
            &&& 0 <= a
            &&& a > 0 ==> a <= asked && 2 * a + most <= spacing
            &&& a < asked ==> 2 * (a + 1) + most > spacing
        }),
{
}

/// A wave is off its line by the swing's share of the sine: by the whole swing at the crests,
/// to one side and to the other, and not at all in between where the sine is nothing.
pub proof fn lemma_shift(s: Waving, sine: i64)
    ensures
        s.shift(sine) * 0x4000_0000 <= s.swing * sine < (s.shift(sine) + 1) * 0x4000_0000,
        sine == 0x4000_0000 ==> s.shift(sine) == s.swing,
        sine == 0 ==> s.shift(sine) == 0,
        sine == -0x4000_0000 ==> s.shift(sine) == -s.swing,
{
    let (a, b) = (s.swing, sine as int);
    assert(b == 0 ==> a * b == 0) by (nonlinear_arith);
    assert(b == 0x4000_0000 ==> a * b == 0x4000_0000 * a) by (nonlinear_arith);
    assert(b == -0x4000_0000 ==> a * b == -0x4000_0000 * a) by (nonlinear_arith);
}

/// The whole canvas is screened, and nothing else: a segment is cut just where its middle,
/// moved with the wave, lies on the canvas, between its left and right side and between its
/// top and bottom, and no bridge holds it. It is then as wide as its tone.
pub proof fn lemma_wave_screened(s: Waving, i: int, k: int)
    requires
        s.wf(),
        0 <= i <= 2 * s.side(),
        0 <= k < s.segments(),
    ensures
        ({
            let u = (i - s.side()) * s.l.spacing + s.shift(s.mids[k]);
            let v = (s.along(k) + s.along(k + 1)) / 2;
            let p = s.l.place(u, v);
            let on = 0 <= p.0 && p.0 < s.l.w * 1_000_000 && 0 <= p.1 && p.1 < s.l.h * 1_000_000;
            let held = is_bridge(s.c, i - s.side(), s.along(k));
            let e = extent(s.tones[i * s.segments() + k] as int, s.l.spacing as int, s.c);
            &&& on && !held ==> s.half(i, k) == e / 2
            &&& !on || held ==> s.half(i, k) == 0
        }),
{
}

/// Every segment that is cut is part of an outline of its line, and an outline takes in
/// nothing but segments that are cut.
pub proof fn lemma_wave_runs(s: Waving, i: int, v: Seq<Seq<Point>>)
    requires
        s.wf(),
        s.segments() <= usize::MAX,
        s.are_runs(i, v),
    ensures
        forall|k: int|
            0 <= k < s.segments() && #[trigger] s.half(i, k) > 0 ==> exists|q: int, a: int, b: int|
                0 <= q < v.len() && 0 <= a <= k && k < b <= s.segments() && #[trigger] s.is_outline(
                    i,
                    a,
                    b,
                    v[q],
                ),
        forall|q: int| 0 <= q < v.len() ==> #[trigger] outlines_some(s, i, v[q]),
{
    let cut = s.cuts(i);
    lemma_runs(cut);
    let r = runs_in(cut, cut.len() as int);
    assert forall|k: int| 0 <= k < s.segments() && #[trigger] s.half(i, k) > 0 implies exists|
        q: int,
        a: int,
        b: int,
    |
        0 <= q < v.len() && 0 <= a <= k && k < b <= s.segments() && #[trigger] s.is_outline(
            i,
            a,
            b,
            v[q],
        ) by {
        assert(cut[k]);
        assert(in_some_run(r, k));
        let q = choose|q: int| 0 <= q < r.len() && (#[trigger] r[q]).0 <= k < r[q].1;
        assert(s.is_outline(i, r[q].0 as int, r[q].1 as int, v[q]));
    }
    assert forall|q: int| 0 <= q < v.len() implies #[trigger] outlines_some(s, i, v[q]) by {
        let (a, b) = (r[q].0 as int, r[q].1 as int);
        assert(is_cut_run(cut, a, b));
        assert forall|k: int| a <= k < b implies #[trigger] s.half(i, k) > 0 by {
            assert(cut[k]);
        }
        assert(s.is_outline(i, a, b, v[q]));
        assert(outlines_cuts(s, i, a, b, v[q]));
    }
}

/// Whether `pts` is the outline of the segments from `a` up to `b` of line `i`, and all of
/// them are cut.
pub open spec fn outlines_cuts(s: Waving, i: int, a: int, b: int, pts: Seq<Point>) -> bool {
    &&& 0 <= a < b <= s.segments()
    &&& s.is_outline(i, a, b, pts)
    &&& forall|k: int| a <= k < b ==> #[trigger] s.half(i, k) > 0
}

/// Whether `pts` is the outline of some segments of line `i` that are all cut.
pub open spec fn outlines_some(s: Waving, i: int, pts: Seq<Point>) -> bool {
    exists|a: int, b: int| #[trigger] outlines_cuts(s, i, a, b, pts)
}

/// Waves that do not swing are straight lines: every segment lies where that of the plain
/// screen lies, and is cut as wide.
pub proof fn lemma_still_waves(s: Waving, t: Screening, i: int, k: int)
    requires
        s.wf(),
        s.swing == 0,
        t == (Screening { l: s.l, c: s.c, r: s.r, tones: s.tones, room: None }),
        0 <= k < s.segments(),
    ensures
        s.half(i, k) == t.half(i, k),
        s.mid(i, k) == t.mid(i, k),
        s.centre(i, k) == s.l.place((i - t.side()) * s.l.spacing, t.along(k)),
{
    let (a, b) = (s.mids[k] as int, s.knots[k] as int);
    assert(0 * a == 0 && 0 * b == 0) by (nonlinear_arith);
}

/// Along a wave every knot lies where its own sine puts it.
pub proof fn lemma_knots_on_wave(s: Waving, i: int, k: int)
    ensures
        s.centre(i, k) == s.l.place(
            (i - s.side()) * s.l.spacing + s.swing * s.knots[k] / 0x4000_0000int,
            s.along(k),
        ),
{
}

/// The two edges of an outline lie on either side of the line, square to the way it runs, and
/// as far from it as the wider of the segments that meet there.
pub proof fn lemma_wave_edges(s: Waving, i: int, a: int, b: int, k: int)
    requires
        a < b,
        a <= k <= b,
    ensures
        s.half_at(i, a, b, k) >= s.half(
            i,
            if k == a {
                a
            } else {
                k - 1
            },
        ),
        s.half_at(i, a, b, k) >= s.half(
            i,
            if k == b {
                b - 1
            } else {
                k
            },
        ),
        a < k < b ==> s.half_at(i, a, b, k) == s.half(i, k - 1) || s.half_at(i, a, b, k) == s.half(
            i,
            k,
        ),
        k == a ==> s.half_at(i, a, b, k) == s.half(i, a),
        k == b ==> s.half_at(i, a, b, k) == s.half(i, b - 1),
        a < k < b ==> s.heading(i, a, b, k) == (
            s.centre(i, k + 1).0 - s.centre(i, k - 1).0,
            s.centre(i, k + 1).1 - s.centre(i, k - 1).1,
        ),
        k == a ==> s.heading(i, a, b, k) == (
            s.centre(i, a + 1).0 - s.centre(i, a).0,
            s.centre(i, a + 1).1 - s.centre(i, a).1,
        ),
        k == b ==> s.heading(i, a, b, k) == (
            s.centre(i, b).0 - s.centre(i, b - 1).0,
            s.centre(i, b).1 - s.centre(i, b - 1).1,
        ),
{
}

} // verus!
