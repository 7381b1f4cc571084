//! What error diffusion keeps: the dots carry the ink that was asked for, but for the error
//! that is lost at the edges of the grid.

use crate::chamfer::at;
use crate::screen::{
    column_at, dot_at, dots_upto, leftover, lemma_error_bounded, rightward, signal_at, tones_ok,
    FULL,
};
use vstd::prelude::*;

verus! {

/// How much ink the first `k` cells of a grid ask for.
pub open spec fn asked(tones: Seq<i64>, k: int) -> int
    decreases k,
{
    if k <= 0 {
        0
    } else {
        asked(tones, k - 1) + tones[k - 1]
    }
}

/// The ink, in 32nds of full ink, that a grid may lose or gain at its edges, and by rounding
/// down to a unit in every cell.
pub open spec fn lost(gw: int, gh: int) -> int {
    FULL * (9 * gw + 11 * gh) + 32 * (gw * gh)
}

/// The error left at place `s` of row `y`; none off the row.
spec fn error(tones: Seq<i64>, gw: int, y: int, s: int) -> int {
    leftover(signal_at(tones, gw, y, s))
}

/// The errors left at the first `k` places of row `y`; none above the grid.
spec fn errors(tones: Seq<i64>, gw: int, y: int, k: int) -> int
    decreases k,
{
    if k <= 0 || y < 0 {
        0
    } else {
        errors(tones, gw, y, k - 1) + error(tones, gw, y, k - 1)
    }
}

/// What the first `k` places of row `y` ask for, in the order visited.
spec fn row_asked(tones: Seq<i64>, gw: int, y: int, k: int) -> int {
    if rightward(y) {
        asked(tones, y * gw + k) - asked(tones, y * gw)
    } else {
        asked(tones, y * gw + gw) - asked(tones, y * gw + gw - k)
    }
}

/// Sixteen times the error that the first `k` places of row `y` are handed.
spec fn handed(tones: Seq<i64>, gw: int, y: int, k: int) -> int {
    if k <= 0 {
        0
    } else {
        7 * errors(tones, gw, y, k - 1) + 3 * (errors(tones, gw, y - 1, gw) - errors(
            tones,
            gw,
            y - 1,
            gw - k + 1,
        )) + 5 * (errors(tones, gw, y - 1, gw) - errors(tones, gw, y - 1, gw - k)) + (errors(
            tones,
            gw,
            y - 1,
            gw - 1,
        ) - errors(tones, gw, y - 1, gw - 1 - k))
    }
}

/// The dots among the first `k` places of row `y` and all rows above.
spec fn placed(tones: Seq<i64>, gw: int, y: int, k: int) -> int {
    dots_upto(tones, gw, y * gw + k).len() as int
}

/// Within a row: what is left is what was asked for and handed on, less the dots, but for
/// the rounding.
proof fn lemma_row(tones: Seq<i64>, gw: int, gh: int, y: int, k: int)
    requires
        tones.len() == gw * gh,
        0 <= y < gh,
        0 <= k <= gw,
    ensures
        0 <= handed(tones, gw, y, k) - 16 * (errors(tones, gw, y, k) - row_asked(tones, gw, y, k)
            + FULL * (placed(tones, gw, y, k) - placed(tones, gw, y, 0))) <= 15 * k,
    decreases k,
{
    if k > 0 {
        let s = k - 1;
        lemma_row(tones, gw, gh, y, s);
        vstd::arithmetic::div_mod::lemma_fundamental_div_mod_converse(y * gw + s, gw, y, s);
        let x = column_at(gw, y, s);
        assert(0 <= y * gw) by (nonlinear_arith)
            requires
                0 <= y,
                0 < gw,
        ;
        assert(row_asked(tones, gw, y, k) == row_asked(tones, gw, y, s) + tones[at(gw, x, y)]);
        let before = if s > 0 {
            error(tones, gw, y, s - 1)
        } else {
            0
        };
        let over_before = if y > 0 && s > 0 {
            error(tones, gw, y - 1, gw - s)
        } else {
            0
        };
        let over = if y > 0 {
            error(tones, gw, y - 1, gw - 1 - s)
        } else {
            0
        };
        let over_after = if y > 0 && s + 1 < gw {
            error(tones, gw, y - 1, gw - 2 - s)
        } else {
            0
        };
        let sum = 7 * before + 3 * over_before + 5 * over + over_after;
        assert(signal_at(tones, gw, y, s) == tones[at(gw, x, y)] + sum / 16);
        assert(handed(tones, gw, y, k) == handed(tones, gw, y, s) + sum) by {
            assert(errors(tones, gw, y, s) == errors(tones, gw, y, s - 1) + before);
            if y > 0 {
                if s > 0 {
                    assert(errors(tones, gw, y - 1, gw - s + 1) == errors(
                        tones,
                        gw,
                        y - 1,
                        gw - s,
                    ) + over_before);
                }
                assert(errors(tones, gw, y - 1, gw - s) == errors(tones, gw, y - 1, gw - 1 - s)
                    + over);
                if s + 1 < gw {
                    assert(errors(tones, gw, y - 1, gw - 1 - s) == errors(
                        tones,
                        gw,
                        y - 1,
                        gw - 2 - s,
                    ) + over_after);
                }
            }
        }
        assert(placed(tones, gw, y, k) == placed(tones, gw, y, s) + if dot_at(tones, gw, y, s) {
            1int
        } else {
            0
        });
        assert(errors(tones, gw, y, k) == errors(tones, gw, y, s) + error(tones, gw, y, s));
    }
}

proof fn lemma_errors_bound(tones: Seq<i64>, gw: int, gh: int, y: int, k: int)
    requires
        tones_ok(tones),
        tones.len() == gw * gh,
        0 <= y < gh,
        0 <= k <= gw,
    ensures
        -(FULL * k) <= 2 * errors(tones, gw, y, k) <= FULL * k,
    decreases k,
{
    if k > 0 {
        lemma_errors_bound(tones, gw, gh, y, k - 1);
        lemma_error_bounded(tones, gw, gh, y, k - 1);
    }
}

/// After `m` rows: what the dots miss of the ink asked for is nine sixteenths of the errors
/// in the last row, and what was lost at the ends of the rows.
proof fn lemma_rows(tones: Seq<i64>, gw: int, gh: int, m: int)
    requires
        tones_ok(tones),
        tones.len() == gw * gh,
        0 < gw,
        0 <= m <= gh,
    ensures
        ({
            let d = 32 * (asked(tones, m * gw) - FULL * placed(tones, gw, m, 0)) - 18 * errors(
                tones,
                gw,
                m - 1,
                gw,
            );
            -(11 * (FULL * m) + 30 * (m * gw)) <= d <= 11 * (FULL * m) + 30 * (m * gw)
        }),
    decreases m,
{
    if m > 0 {
        let y = m - 1;
        lemma_rows(tones, gw, gh, y);
        lemma_row(tones, gw, gh, y, gw);
        assert(m * gw == y * gw + gw) by (nonlinear_arith)
            requires
                m == y + 1,
        ;
        let last = error(tones, gw, y, gw - 1);
        lemma_error_bounded(tones, gw, gh, y, gw - 1);
        assert(errors(tones, gw, y, gw) == errors(tones, gw, y, gw - 1) + last);
        if y > 0 {
            lemma_error_bounded(tones, gw, gh, y - 1, gw - 1);
            lemma_error_bounded(tones, gw, gh, y - 1, 0);
            let up = error(tones, gw, y - 1, gw - 1);
            assert(errors(tones, gw, y - 1, gw) == errors(tones, gw, y - 1, gw - 1) + up);
            assert(errors(tones, gw, y - 1, 1) == errors(tones, gw, y - 1, 0) + error(
                tones,
                gw,
                y - 1,
                0,
            ));
        }
        assert(placed(tones, gw, y, gw) == placed(tones, gw, m, 0));
        assert(row_asked(tones, gw, y, gw) == asked(tones, m * gw) - asked(tones, y * gw));
        assert(30 * (m * gw) == 30 * (y * gw) + 30 * gw);
    } else {
        assert(0 * gw == 0) by (nonlinear_arith);
    }
}

/// The dots of a grid carry the ink that its tones ask for: they differ by no more than what
/// is lost at the edges.
pub proof fn lemma_ink_kept(tones: Seq<i64>, gw: int, gh: int)
    requires
        tones_ok(tones),
        tones.len() == gw * gh,
        0 < gw,
        0 <= gh,
    ensures
        -lost(gw, gh) <= 32 * (FULL * dots_upto(tones, gw, gw * gh).len() - asked(tones, gw * gh))
            <= lost(gw, gh),
{
    lemma_rows(tones, gw, gh, gh);
    assert(gh * gw == gw * gh && 0 <= gw * gh) by (nonlinear_arith)
        requires
            0 < gw,
            0 <= gh,
    ;
    if gh > 0 {
        lemma_errors_bound(tones, gw, gh, gh - 1, gw);
    }
}

/// A flat tone asks for as much ink in every cell.
proof fn lemma_flat_asked(tones: Seq<i64>, t: i64, k: int)
    requires
        0 <= k <= tones.len(),
        forall|i: int| 0 <= i < tones.len() ==> #[trigger] tones[i] == t,
    ensures
        asked(tones, k) == t * k,
    decreases k,
{
    if k > 0 {
        lemma_flat_asked(tones, t, k - 1);
        assert(t * (k - 1) + t == t * k) by (nonlinear_arith);
    } else {
        assert(t * 0 == 0) by (nonlinear_arith);
    }
}

/// Over a flat tone the number of dots is the tone times the number of cells, but for what
/// is lost at the edges.
pub proof fn lemma_flat_dots(tones: Seq<i64>, gw: int, gh: int, t: i64)
    requires
        0 <= t <= FULL,
        forall|i: int| 0 <= i < tones.len() ==> #[trigger] tones[i] == t,
        tones.len() == gw * gh,
        0 < gw,
        0 <= gh,
    ensures
        -lost(gw, gh) <= 32 * (FULL * dots_upto(tones, gw, gw * gh).len() - t * (gw * gh)) <= lost(
            gw,
            gh,
        ),
{
    lemma_ink_kept(tones, gw, gh);
    lemma_flat_asked(tones, t, gw * gh);
}

/// Darker means more dots: where more ink is asked for than the edges can lose on both grids,
/// more dots are placed.
pub proof fn lemma_darker_more_dots(light: Seq<i64>, dark: Seq<i64>, gw: int, gh: int)
    requires
        tones_ok(light),
        tones_ok(dark),
        light.len() == gw * gh,
        dark.len() == gw * gh,
        0 < gw,
        0 <= gh,
        32 * (asked(dark, gw * gh) - asked(light, gw * gh)) > 2 * lost(gw, gh),
    ensures
        dots_upto(dark, gw, gw * gh).len() > dots_upto(light, gw, gw * gh).len(),
{
    lemma_ink_kept(light, gw, gh);
    lemma_ink_kept(dark, gw, gh);
}

/// The signal at column `x` of row `y`.
pub open spec fn signal_in(tones: Seq<i64>, gw: int, x: int, y: int) -> int {
    signal_at(
        tones,
        gw,
        y,
        if y % 2 == 0 {
            x
        } else {
            gw - 1 - x
        },
    )
}

/// The error that column `x` of row `y` leaves: its signal, less full ink where that is at
/// least half of full ink. Off the grid there is none.
pub open spec fn error_in(tones: Seq<i64>, gw: int, x: int, y: int) -> int {
    if !(0 <= x < gw && 0 <= y) {
        0
    } else if 2 * signal_in(tones, gw, x, y) >= 0x100_0000_0000 {
        signal_in(tones, gw, x, y) - 0x100_0000_0000
    } else {
        signal_in(tones, gw, x, y)
    }
}

/// Every cell hands its error on: seven sixteenths to the next in its row, and to the row below
/// three to the cell behind, five to the one straight below and one to the one ahead. Even
/// rows run from left to right, odd ones back.
pub proof fn lemma_error_spread(tones: Seq<i64>, gw: int, gh: int, x: int, y: int)
    requires
        tones.len() == gw * gh,
        0 <= x < gw,
        0 <= y < gh,
    ensures
        ({
            let d: int = if y % 2 == 0 {
                1
            } else {
                -1
            };
            let handed = 7 * error_in(tones, gw, x - d, y) + 3 * error_in(tones, gw, x - d, y - 1)
                + 5 * error_in(tones, gw, x, y - 1) + error_in(tones, gw, x + d, y - 1);
            let got = signal_in(tones, gw, x, y) - tones[y * gw + x];
            16 * got <= handed < 16 * (got + 1)
        }),
{
}

} // verus!
