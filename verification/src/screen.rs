//! Screening: which stretches of a screen line are cut, and where dots are placed.

use crate::chamfer::at;
use vstd::prelude::*;

verus! {

/// How black is screened. Black paint is opaque, so both ways keep it thin.
#[derive(Clone, Copy, Debug, PartialEq, Eq, Structural)]
pub enum KMode {
    /// A trimmed line screen that fires in true blacks only.
    Tonal,
    /// Lines along the edges of the image.
    Contour,
}

/// The mark into which a channel is screened.
#[derive(Clone, Copy, Debug, PartialEq, Eq, Structural)]
pub enum Shape {
    /// Straight lines; width carries tone.
    Lines,
    /// Lines that swing from side to side.
    Wavy,
    /// One circle for each cell of a grid; its size carries tone.
    Dots,
    /// Dots whose frequency carries tone, placed by error diffusion.
    BlueNoise,
    /// Lines that follow the edges of the image.
    Hatch,
}

/// Whether the stretches from `a` up to `b` are a whole run: all cut, and bounded by a
/// stretch that is not or by the end of the line.
pub open spec fn is_cut_run(cut: Seq<bool>, a: int, b: int) -> bool {
    &&& 0 <= a < b <= cut.len()
    &&& forall|i: int| a <= i < b ==> #[trigger] cut[i]
    &&& a > 0 ==> !cut[a - 1]
    &&& b < cut.len() ==> !cut[b]
}

/// Where the run that holds stretch `k` starts.
pub open spec fn run_from(cut: Seq<bool>, k: int) -> int
    decreases k,
{
    if k <= 0 || !cut[k - 1] {
        k
    } else {
        run_from(cut, k - 1)
    }
}

/// The runs that end within the first `k` stretches: where each starts, and where it is
/// over.
pub open spec fn runs_in(cut: Seq<bool>, k: int) -> Seq<(usize, usize)>
    decreases k,
{
    if k <= 0 {
        Seq::empty()
    } else if cut[k - 1] && (k >= cut.len() || !cut[k]) {
        runs_in(cut, k - 1).push((run_from(cut, k - 1) as usize, k as usize))
    } else {
        runs_in(cut, k - 1)
    }
}

/// Parts a screen line into runs: each stretch of consecutive cuts is one pass of the
/// laser.
pub fn cut_runs(cut: &[bool]) -> (r: Vec<(usize, usize)>)
    ensures
        r@ == runs_in(cut@, cut@.len() as int),
{
    let n: usize = cut.len();
    let mut r: Vec<(usize, usize)> = Vec::new();
    let mut start: usize = 0;
    for k in 0..n
        invariant
            n == cut@.len(),
            start <= k,
            start == run_from(cut@, k as int),
            r@ == runs_in(cut@, k as int),
    {
        if cut[k] {
            if k + 1 >= n || !cut[k + 1] {
                r.push((start, k + 1));
            }
        } else {
            start = k + 1;
        }
    }
    r
}

proof fn lemma_run_from(cut: Seq<bool>, k: int)
    requires
        0 <= k < cut.len(),
        cut[k],
    ensures
        0 <= run_from(cut, k) <= k,
        forall|i: int| run_from(cut, k) <= i <= k ==> #[trigger] cut[i],
        run_from(cut, k) > 0 ==> !cut[run_from(cut, k) - 1],
    decreases k,
{
    if k > 0 && cut[k - 1] {
        lemma_run_from(cut, k - 1);
    }
}

proof fn lemma_runs_sound(cut: Seq<bool>, k: int)
    requires
        0 <= k <= cut.len(),
        cut.len() <= usize::MAX,
    ensures
        forall|j: int|
            0 <= j < runs_in(cut, k).len() ==> is_cut_run(
                cut,
                (#[trigger] runs_in(cut, k)[j]).0 as int,
                runs_in(cut, k)[j].1 as int,
            ) && runs_in(cut, k)[j].1 <= k,
        forall|i: int, j: int|
            0 <= i < j < runs_in(cut, k).len() ==> (#[trigger] runs_in(cut, k)[i]).1 < (
            #[trigger] runs_in(cut, k)[j]).0,
        forall|c: int|
            0 <= c < k && #[trigger] cut[c] && !in_open_run(cut, k, c) ==> in_some_run(
                runs_in(cut, k),
                c,
            ),
    decreases k,
{
    if k > 0 {
        lemma_runs_sound(cut, k - 1);
        let before = runs_in(cut, k - 1);
        let now = runs_in(cut, k);
        if cut[k - 1] && (k >= cut.len() || !cut[k]) {
            lemma_run_from(cut, k - 1);
            let f = run_from(cut, k - 1);
            let last = (f as usize, k as usize);
            assert(now == before.push(last));
            assert forall|j: int| 0 <= j < now.len() implies is_cut_run(
                cut,
                (#[trigger] now[j]).0 as int,
                now[j].1 as int,
            ) && now[j].1 <= k by {
                if j < before.len() {
                    assert(now[j] == before[j]);
                }
            }
            assert forall|i: int, j: int| 0 <= i < j < now.len() implies (#[trigger] now[i]).1 < (
            #[trigger] now[j]).0 by {
                assert(now[i] == before[i]);
                if j < before.len() {
                    assert(now[j] == before[j]);
                } else {
                    let e = before[i].1 as int;
                    assert(is_cut_run(cut, before[i].0 as int, e));
                    if e >= f {
                        assert(e <= k - 1);
                        assert(cut[e]);
                        assert(!cut[e]);
                    }
                }
            }
            assert forall|c: int| 0 <= c < k && #[trigger] cut[c] && !in_open_run(
                cut,
                k,
                c,
            ) implies in_some_run(now, c) by {
                if c >= f {
                    assert(now[before.len() as int] == last);
                } else {
                    assert(!in_open_run(cut, k - 1, c)) by {
                        if in_open_run(cut, k - 1, c) {
                            assert(cut[f - 1]);
                        }
                    }
                    let j = choose|j: int|
                        0 <= j < before.len() && (#[trigger] before[j]).0 <= c < before[j].1;
                    assert(now[j] == before[j]);
                }
            }
        } else {
            assert forall|c: int| 0 <= c < k && #[trigger] cut[c] && !in_open_run(
                cut,
                k,
                c,
            ) implies in_some_run(now, c) by {
                if c < k - 1 {
                    assert(!in_open_run(cut, k - 1, c)) by {
                        if in_open_run(cut, k - 1, c) {
                            assert(k - 1 < cut.len() && cut[k - 1]);
                            assert(k < cut.len() && cut[k]);
                            assert forall|i: int| c <= i <= k implies #[trigger] cut[i] by {}
                        }
                    }
                } else {
                    assert(k < cut.len() && cut[k]);
                    assert forall|i: int| c <= i <= k implies #[trigger] cut[i] by {}
                }
            }
        }
    }
}

/// Whether stretch `c` belongs to a run that goes on at stretch `k`.
spec fn in_open_run(cut: Seq<bool>, k: int, c: int) -> bool {
    k < cut.len() && forall|i: int| c <= i <= k ==> #[trigger] cut[i]
}

/// Whether some run holds stretch `c`.
pub open spec fn in_some_run(runs: Seq<(usize, usize)>, c: int) -> bool {
    exists|j: int| 0 <= j < runs.len() && (#[trigger] runs[j]).0 <= c < runs[j].1
}

/// Runs are whole, come in order with a gap between them, and hold every stretch that is
/// cut: each is one continuous pass, and none can be joined with the next.
pub proof fn lemma_runs(cut: Seq<bool>)
    requires
        cut.len() <= usize::MAX,
    ensures
        ({
            let r = runs_in(cut, cut.len() as int);
            &&& forall|j: int|
                0 <= j < r.len() ==> is_cut_run(cut, (#[trigger] r[j]).0 as int, r[j].1 as int)
            &&& forall|i: int, j: int|
                0 <= i < j < r.len() ==> (#[trigger] r[i]).1 < (#[trigger] r[j]).0
            &&& forall|c: int| 0 <= c < cut.len() && #[trigger] cut[c] ==> in_some_run(r, c)
        }),
{
    lemma_runs_sound(cut, cut.len() as int);
    let r = runs_in(cut, cut.len() as int);
    assert forall|c: int| 0 <= c < cut.len() && #[trigger] cut[c] implies in_some_run(r, c) by {
        assert(!in_open_run(cut, cut.len() as int, c));
    }
}

/// The unit of tone: full ink.
pub const FULL: i64 = 0x100_0000_0000;

/// Whether rows are visited left to right.
pub open spec fn rightward(y: int) -> bool {
    y % 2 == 0
}

/// The column at place `step` of row `y`; every other row is visited backwards.
pub open spec fn column_at(gw: int, y: int, step: int) -> int {
    if rightward(y) {
        step
    } else {
        gw - 1 - step
    }
}

/// The error that a cell with the given signal leaves: what its dot, or its lack of one,
/// is too little or too much.
pub open spec fn leftover(signal: int) -> int {
    if 2 * signal >= FULL {
        signal - FULL
    } else {
        signal
    }
}

/// The signal at place `step` of row `y`: the cell's tone, and of the errors left before it
/// seven sixteenths of that at the place before, and from the row above three of that over
/// the place before, five of that straight above and one of that over the place after.
pub open spec fn signal_at(tones: Seq<i64>, gw: int, y: int, step: int) -> int
    decreases y, step,
{
    let x = column_at(gw, y, step);
    if y < 0 || step < 0 {
        0
    } else {
        let before = if step > 0 {
            leftover(signal_at(tones, gw, y, step - 1))
        } else {
            0
        };
        let over_before = if y > 0 && step > 0 {
            leftover(signal_at(tones, gw, y - 1, gw - step))
        } else {
            0
        };
        let over = if y > 0 {
            leftover(signal_at(tones, gw, y - 1, gw - 1 - step))
        } else {
            0
        };
        let over_after = if y > 0 && step + 1 < gw {
            leftover(signal_at(tones, gw, y - 1, gw - 2 - step))
        } else {
            0
        };
        tones[at(gw, x, y)] + (7 * before + 3 * over_before + 5 * over + over_after) / 16
    }
}

/// Whether place `step` of row `y` gets a dot: its signal is at least half of full ink.
pub open spec fn dot_at(tones: Seq<i64>, gw: int, y: int, step: int) -> bool {
    2 * signal_at(tones, gw, y, step) >= FULL
}

/// The cells that get dots among the first `k` places of the grid, in the order visited.
pub open spec fn dots_upto(tones: Seq<i64>, gw: int, k: int) -> Seq<usize>
    decreases k,
{
    if k <= 0 {
        Seq::empty()
    } else {
        let y = (k - 1) / gw;
        let step = (k - 1) % gw;
        if dot_at(tones, gw, y, step) {
            dots_upto(tones, gw, k - 1).push(at(gw, column_at(gw, y, step), y) as usize)
        } else {
            dots_upto(tones, gw, k - 1)
        }
    }
}

/// Whether no tone exceeds full ink or falls below none.
pub open spec fn tones_ok(tones: Seq<i64>) -> bool {
    forall|i: int| 0 <= i < tones.len() ==> 0 <= #[trigger] tones[i] <= FULL
}

/// The error left anywhere is at most half of full ink, and so a signal never strays more
/// than that beyond none and full.
pub proof fn lemma_error_bounded(tones: Seq<i64>, gw: int, gh: int, y: int, step: int)
    requires
        tones_ok(tones),
        tones.len() == gw * gh,
        0 <= y < gh,
        0 <= step < gw,
    ensures
        -FULL <= 2 * leftover(signal_at(tones, gw, y, step)) <= FULL,
        -FULL <= 2 * signal_at(tones, gw, y, step) <= 3 * FULL,
    decreases y, step,
{
    let x = column_at(gw, y, step);
    assert(0 <= y * gw + x < gw * gh) by (nonlinear_arith)
        requires
            0 <= x < gw,
            0 <= y < gh,
    ;
    assert(0 <= tones[at(gw, x, y)] <= FULL);
    if step > 0 {
        lemma_error_bounded(tones, gw, gh, y, step - 1);
    }
    if y > 0 {
        if step > 0 {
            lemma_error_bounded(tones, gw, gh, y - 1, gw - step);
        }
        lemma_error_bounded(tones, gw, gh, y - 1, gw - 1 - step);
        if step + 1 < gw {
            lemma_error_bounded(tones, gw, gh, y - 1, gw - 2 - step);
        }
    }
}

/// `a / 16`, rounded down.
fn sixteenth(a: i64) -> (q: i64)
    requires
        -0x1000_0000_0000_0000 < a < 0x1000_0000_0000_0000,
    ensures
        q == a as int / 16,
{
    if a >= 0 {
        a / 16
    } else {
        -((15 - a) / 16)
    }
}

/// Places dots by serpentine error diffusion over a grid of tones: the cells that get one,
/// in the order visited.
pub fn diffuse(tones: &[i64], gw: usize, gh: usize) -> (dots: Vec<usize>)
    requires
        tones@.len() == gw * gh,
        tones_ok(tones@),
    ensures
        dots@ == dots_upto(tones@, gw as int, gw * gh),
{
    let n: usize = tones.len();
    let ghost w = gw as int;
    let ghost h = gh as int;
    let mut dots: Vec<usize> = Vec::new();
    let mut above: Vec<i64> = Vec::new();
    proof {
        assert(0 * gw == 0) by (nonlinear_arith);
    }
    for y in 0..gh
        invariant
            n == tones@.len(),
            n == gw * gh,
            tones_ok(tones@),
            w == gw,
            h == gh,
            y > 0 ==> above@.len() == gw,
            y > 0 ==> forall|s: int|
                0 <= s < gw ==> #[trigger] above@[s] == leftover(signal_at(tones@, w, y - 1, s)),
            dots@ == dots_upto(tones@, w, y * gw),
    {
        let mut row: Vec<i64> = Vec::new();
        for step in 0..gw
            invariant
                n == tones@.len(),
                n == gw * gh,
                tones_ok(tones@),
                w == gw,
                h == gh,
                y < gh,
                y > 0 ==> above@.len() == gw,
                y > 0 ==> forall|s: int|
                    0 <= s < gw ==> #[trigger] above@[s] == leftover(
                        signal_at(tones@, w, y - 1, s),
                    ),
                row@.len() == step,
                forall|s: int|
                    0 <= s < step ==> #[trigger] row@[s] == leftover(
                        signal_at(tones@, w, y as int, s),
                    ),
                dots@ == dots_upto(tones@, w, y * gw + step),
        {
            let x: usize = if y % 2 == 0 { step } else { gw - 1 - step };
            proof {
                assert(0 <= y * gw + x < gw * gh && y * gw + step < gw * gh && 0 <= y * gw)
                    by (nonlinear_arith)
                    requires
                        x < gw,
                        step < gw,
                        y < gh,
                        x >= 0,
                        y >= 0,
                ;
                lemma_error_bounded(tones@, w, h, y as int, step as int);
                if step > 0 {
                    lemma_error_bounded(tones@, w, h, y as int, step - 1);
                }
                if y > 0 {
                    if step > 0 {
                        lemma_error_bounded(tones@, w, h, y - 1, w - step);
                    }
                    lemma_error_bounded(tones@, w, h, y - 1, w - 1 - step);
                    if step + 1 < gw {
                        lemma_error_bounded(tones@, w, h, y - 1, w - 2 - step);
                    }
                }
            }
            let i: usize = y * gw + x;
            let before: i64 = if step > 0 { row[step - 1] } else { 0 };
            let over_before: i64 = if y > 0 && step > 0 { above[gw - step] } else { 0 };
            let over: i64 = if y > 0 { above[gw - 1 - step] } else { 0 };
            let over_after: i64 = if y > 0 && step + 1 < gw { above[gw - 2 - step] } else { 0 };
            let signal: i64 = tones[i] + sixteenth(
                7 * before + 3 * over_before + 5 * over + over_after,
            );
            proof {
                assert(signal == signal_at(tones@, w, y as int, step as int));
                vstd::arithmetic::div_mod::lemma_fundamental_div_mod_converse(
                    y * gw + step,
                    w,
                    y as int,
                    step as int,
                );
            }
            if 2 * signal >= FULL {
                dots.push(i);
                row.push(signal - FULL);
            } else {
                row.push(signal);
            }
        }
        above = row;
        proof {
            assert((y + 1) * gw == y * gw + gw) by (nonlinear_arith);
        }
    }
    proof {
        assert(gh * gw == gw * gh) by (nonlinear_arith);
    }
    dots
}

proof fn lemma_blank_signal(tones: Seq<i64>, gw: int, gh: int, full: i64, y: int, step: int)
    requires
        tones.len() == gw * gh,
        full == 0 || full == FULL,
        forall|i: int| 0 <= i < tones.len() ==> #[trigger] tones[i] == full,
        0 <= y < gh,
        0 <= step < gw,
    ensures
        signal_at(tones, gw, y, step) == full,
    decreases y, step,
{
    let x = column_at(gw, y, step);
    assert(0 <= y * gw + x < gw * gh) by (nonlinear_arith)
        requires
            0 <= x < gw,
            0 <= y < gh,
    ;
    if step > 0 {
        lemma_blank_signal(tones, gw, gh, full, y, step - 1);
    }
    if y > 0 {
        if step > 0 {
            lemma_blank_signal(tones, gw, gh, full, y - 1, gw - step);
        }
        lemma_blank_signal(tones, gw, gh, full, y - 1, gw - 1 - step);
        if step + 1 < gw {
            lemma_blank_signal(tones, gw, gh, full, y - 1, gw - 2 - step);
        }
    }
}

/// Where there is no ink at all no dot is placed, and where all is full ink every cell gets
/// one.
pub proof fn lemma_flat_tone(tones: Seq<i64>, gw: int, gh: int, full: i64, y: int, step: int)
    requires
        tones.len() == gw * gh,
        full == 0 || full == FULL,
        forall|i: int| 0 <= i < tones.len() ==> #[trigger] tones[i] == full,
        0 <= y < gh,
        0 <= step < gw,
    ensures
        dot_at(tones, gw, y, step) <==> full == FULL,
{
    lemma_blank_signal(tones, gw, gh, full, y, step);
}

} // verus!
