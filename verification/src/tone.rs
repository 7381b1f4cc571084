//! Tones: stretching them between two levels, and holding an opaque ink back.

use crate::number::Number;
use crate::screen::{tones_ok, FULL};
use vstd::prelude::*;

verus! {

/// The largest level that a tone is stretched to.
pub const MAX_LEVEL: i64 = 0x4_0000_0000_0000;

/// A tone between two levels: none up to the white point, full from the black point on, and
/// in proportion between. Where the levels do not leave a range, the white point is a
/// threshold.
pub open spec fn levelled(i: int, wp: int, bp: int) -> int {
    if bp <= wp {
        if i >= wp {
            FULL as int
        } else {
            0
        }
    } else if i <= wp {
        0
    } else if i >= bp {
        FULL as int
    } else {
        (i - wp) * FULL / (bp - wp)
    }
}

/// Stretches a tone between two levels; see `levelled`.
pub fn levels(i: i64, wp: i64, bp: i64) -> (t: i64)
    requires
        0 <= i <= FULL,
        -MAX_LEVEL <= wp <= MAX_LEVEL,
        -MAX_LEVEL <= bp <= MAX_LEVEL,
    ensures
        t == levelled(i as int, wp as int, bp as int),
        0 <= t <= FULL,
{
    if bp <= wp {
        if i >= wp {
            FULL
        } else {
            0
        }
    } else if i <= wp {
        0
    } else if i >= bp {
        FULL
    } else {
        let a: i128 = (i - wp) as i128;
        let d: i128 = (bp - wp) as i128;
        proof {
            lemma_part(a as int, d as int);
        }
        (a * FULL as i128 / d) as i64
    }
}

proof fn lemma_part(a: int, d: int)
    by (nonlinear_arith)
    requires
        0 <= a <= d,
        0 < d <= 0x8_0000_0000_0000,
    ensures
        0 <= a * 0x100_0000_0000 <= 0x8_0000_0000_0000 * 0x100_0000_0000,
        0 <= a * 0x100_0000_0000 / d <= 0x100_0000_0000,
{
}

/// A darker tone never comes out lighter, whatever the levels.
pub proof fn lemma_levels_monotone(a: int, b: int, wp: int, bp: int)
    requires
        a <= b,
    ensures
        levelled(a, wp, bp) <= levelled(b, wp, bp),
        0 <= levelled(a, wp, bp) <= FULL,
{
    if bp > wp && wp < a < bp {
        let d = bp - wp;
        let x = a - wp;
        assert(0 <= x * 0x100_0000_0000 / d <= 0x100_0000_0000) by (nonlinear_arith)
            requires
                0 <= x <= d,
                0 < d,
        ;
        if b < bp {
            let y = b - wp;
            assert(x * 0x100_0000_0000 / d <= y * 0x100_0000_0000 / d) by (nonlinear_arith)
                requires
                    0 <= x <= y,
                    0 < d,
            ;
        }
    } else if bp > wp && wp < b < bp {
        let d = bp - wp;
        let y = b - wp;
        assert(0 <= y * 0x100_0000_0000 / d) by (nonlinear_arith)
            requires
                0 <= y,
                0 < d,
        ;
    }
}

/// The deep shadows of a tone: none below the threshold, the rest stretched over the whole
/// range.
pub open spec fn clipped(d: int, tk: int) -> int {
    if d < tk || tk >= FULL {
        0
    } else {
        levelled(d, tk, FULL as int)
    }
}

/// Keeps the deep shadows of a tone; see `clipped`.
pub fn deep_clip(d: i64, tk: i64) -> (t: i64)
    requires
        0 <= d <= FULL,
        -MAX_LEVEL <= tk <= MAX_LEVEL,
    ensures
        t == clipped(d as int, tk as int),
        0 <= t <= FULL,
{
    if d < tk || tk >= FULL {
        0
    } else {
        levels(d, tk, FULL)
    }
}

/// The least of what the first `k` maps hold at a cell; none where there are no maps.
pub open spec fn least_under(under: Seq<Vec<i64>>, i: int, k: int) -> int
    decreases k,
{
    if k <= 0 {
        0
    } else if k == 1 {
        under[0]@[i] as int
    } else {
        let m = least_under(under, i, k - 1);
        if under[k - 1]@[i] < m {
            under[k - 1]@[i] as int
        } else {
            m
        }
    }
}

/// An opaque ink where others already overlap: pulled back by a share `ucr` of what all of
/// them hold.
pub open spec fn pulled_back(k: int, least: int, ucr: int) -> int {
    let t = k - least * ucr / (FULL as int);
    if t < 0 {
        0
    } else {
        t
    }
}

/// Whether maps of tones all have the given size.
pub open spec fn maps_ok(under: Seq<Vec<i64>>, n: int) -> bool {
    forall|k: int|
        0 <= k < under.len() ==> (#[trigger] under[k])@.len() == n && tones_ok(under[k]@)
}

fn least_at(under: &[Vec<i64>], i: usize) -> (m: i64)
    requires
        forall|k: int|
            0 <= k < under@.len() ==> i < (#[trigger] under@[k])@.len() && tones_ok(under@[k]@),
    ensures
        m == least_under(under@, i as int, under@.len() as int),
        0 <= m <= FULL,
{
    let mut m: i64 = 0;
    for k in 0..under.len()
        invariant
            forall|k: int|
                0 <= k < under@.len() ==> i < (#[trigger] under@[k])@.len() && tones_ok(
                    under@[k]@,
                ),
            m == least_under(under@, i as int, k as int),
            0 <= m <= FULL,
    {
        let v: i64 = under[k][i];
        proof {
            assert(0 <= under@[k as int]@[i as int] <= FULL);
        }
        if k == 0 || v < m {
            m = v;
        }
    }
    m
}

/// The tones of an opaque ink: pulled back where the inks under it overlap into dark, and of
/// what is left the deep shadows.
pub fn effective_k(k_map: &[i64], under: &[Vec<i64>], ucr: i64, tk: i64) -> (map: Vec<i64>)
    requires
        tones_ok(k_map@),
        maps_ok(under@, k_map@.len() as int),
        0 <= ucr <= FULL,
        -MAX_LEVEL <= tk <= MAX_LEVEL,
    ensures
        map@.len() == k_map@.len(),
        tones_ok(map@),
        forall|i: int|
            0 <= i < map@.len() ==> #[trigger] map@[i] == clipped(
                pulled_back(
                    k_map@[i] as int,
                    least_under(under@, i, under@.len() as int),
                    ucr as int,
                ),
                tk as int,
            ),
{
    let mut map: Vec<i64> = Vec::new();
    for i in 0..k_map.len()
        invariant
            tones_ok(k_map@),
            maps_ok(under@, k_map@.len() as int),
            0 <= ucr <= FULL,
            -MAX_LEVEL <= tk <= MAX_LEVEL,
            map@.len() == i,
            tones_ok(map@),
            forall|j: int|
                0 <= j < i ==> #[trigger] map@[j] == clipped(
                    pulled_back(
                        k_map@[j] as int,
                        least_under(under@, j, under@.len() as int),
                        ucr as int,
                    ),
                    tk as int,
                ),
    {
        let m: i128 = least_at(under, i) as i128;
        let u: i128 = ucr as i128;
        proof {
            assert(0 <= m * u <= 0x100_0000_0000 * 0x100_0000_0000) by (nonlinear_arith)
                requires
                    0 <= m <= 0x100_0000_0000,
                    0 <= u <= 0x100_0000_0000,
            ;
        }
        let t: i64 = k_map[i] - (m * u / FULL as i128) as i64;
        map.push(deep_clip(if t < 0 { 0 } else { t }, tk));
    }
    map
}

/// Where the inks underneath hold more, an opaque ink never gets more.
pub proof fn lemma_removal_monotone(k: int, a: int, b: int, ucr: int, tk: int)
    requires
        0 <= a <= b,
        0 <= ucr,
    ensures
        clipped(pulled_back(k, b, ucr), tk) <= clipped(pulled_back(k, a, ucr), tk),
{
    assert(a * ucr / 0x100_0000_0000 <= b * ucr / 0x100_0000_0000) by (nonlinear_arith)
        requires
            0 <= a <= b,
            0 <= ucr,
    ;
    lemma_levels_monotone(pulled_back(k, b, ucr), pulled_back(k, a, ucr), tk, FULL as int);
}

/// The ink that a colour channel stands for: the darker, the more.
pub open spec fn channel_ink(c: int) -> int {
    (255 - c) * FULL / 255
}

/// The ink of every channel value, stretched between two levels.
pub fn channel_levels(wp: i64, bp: i64) -> (table: Vec<i64>)
    requires
        -MAX_LEVEL <= wp <= MAX_LEVEL,
        -MAX_LEVEL <= bp <= MAX_LEVEL,
    ensures
        table@.len() == 256,
        tones_ok(table@),
        forall|c: int|
            0 <= c < 256 ==> #[trigger] table@[c] == levelled(
                channel_ink(c),
                wp as int,
                bp as int,
            ),
{
    let mut table: Vec<i64> = Vec::new();
    for c in 0..256usize
        invariant
            -MAX_LEVEL <= wp <= MAX_LEVEL,
            -MAX_LEVEL <= bp <= MAX_LEVEL,
            table@.len() == c,
            tones_ok(table@),
            forall|j: int|
                0 <= j < c ==> #[trigger] table@[j] == levelled(
                    channel_ink(j),
                    wp as int,
                    bp as int,
                ),
    {
        table.push(levels((255 - c as i64) * FULL / 255, wp, bp));
    }
    table
}

/// Whether levels leave an image as it is: they span the whole range with a gamma of 1, or
/// they do not span any.
pub open spec fn levels_idle(wp: Number, bp: Number, gamma: Number) -> bool {
    ||| wp.same(Number::nil()) && bp.same(Number::unit()) && gamma.same(Number::unit())
    ||| bp.le(wp)
}

/// Whether levels leave an image as it is; see `levels_idle`.
pub fn are_levels_idle(wp: Number, bp: Number, gamma: Number) -> (r: bool)
    ensures
        r == levels_idle(wp, bp, gamma),
{
    let (zero, one): (Number, Number) = (Number::zero(), Number::one());
    (wp.equals(zero) && bp.equals(one) && gamma.equals(one)) || bp.at_most(wp)
}

/// Replaces every channel value of an image by what the table holds for it.
pub fn apply_levels(pixels: &[[u8; 3]], table: &[u8]) -> (r: Vec<[u8; 3]>)
    requires
        table@.len() == 256,
    ensures
        r@.len() == pixels@.len(),
        forall|i: int, ch: int|
            0 <= i < r@.len() && 0 <= ch < 3 ==> #[trigger] r@[i]@[ch]
                == table@[pixels@[i]@[ch] as int],
{
    let n: usize = table.len();
    let mut r: Vec<[u8; 3]> = Vec::new();
    for i in 0..pixels.len()
        invariant
            n == 256,
            table@.len() == n,
            r@.len() == i,
            forall|j: int, ch: int|
                0 <= j < i && 0 <= ch < 3 ==> #[trigger] r@[j]@[ch]
                    == table@[pixels@[j]@[ch] as int],
    {
        let p: [u8; 3] = pixels[i];
        let q: [u8; 3] = [table[p[0] as usize], table[p[1] as usize], table[p[2] as usize]];
        let ghost before = r@;
        r.push(q);
        proof {
            assert forall|j: int, ch: int| 0 <= j < i + 1 && 0 <= ch < 3 implies
                #[trigger] r@[j]@[ch] == table@[pixels@[j]@[ch] as int] by {
                if j < i {
                    assert(r@[j] == before[j]);
                } else {
                    assert(ch == 0 || ch == 1 || ch == 2);
                }
            }
        }
    }
    r
}

} // verus!
