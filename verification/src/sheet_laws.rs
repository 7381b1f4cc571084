//! How artwork lies on its sheet, how sheets look one over the other, and where levels lie.

use crate::fragility::Fragility;
use crate::inks::Ink;
use crate::order::{before, ordered};
use crate::paper::{is_layout, margin_kept, punch_hole, rounded, Paper, PaperLayout};
use crate::preview::{
    cut_percent, inked, is_levels, lemma_share_key, let_through, permille_at, share_key,
    share_keys, stacked, translucent,
};
use crate::separation::{Channel, Share};
use crate::stencil::{mask_of, seen_at, top_layer, Color};
use crate::text::ten_to;
use crate::text_laws::lemma_evenly;
use vstd::prelude::*;

verus! {

/// Rounding to nearest is off by half at most.
pub proof fn lemma_rounded_near(a: int, b: int)
    requires
        b > 0,
    ensures
        -b <= 2 * (rounded(a, b) * b - a) <= b,
{
    let r = (2 * a + b) / (2 * b);
    assert(r * (2 * b) <= 2 * a + b < (r + 1) * (2 * b)) by (nonlinear_arith)
        requires
            b > 0,
            r == (2 * a + b) / (2 * b),
    ;
    assert(r * (2 * b) == 2 * (r * b) && (r + 1) * (2 * b) == 2 * (r * b) + 2 * b)
        by (nonlinear_arith);
}

/// Folding a sheet in half along its long side gives the next size, to the millimetre that
/// is cut off.
pub proof fn lemma_sizes_fold()
    ensures
        Paper::A3.size().1 == Paper::A2.size().0,
        Paper::A4.size().1 == Paper::A3.size().0,
        Paper::A5.size().1 == Paper::A4.size().0,
        Paper::A3.size().0 == Paper::A2.size().1 as int / 2,
        Paper::A4.size().0 == Paper::A3.size().1 as int / 2,
        Paper::A5.size().0 == Paper::A4.size().1 as int / 2,
        Paper::A4.size() == (210u32, 297u32),
{
}

/// The sheet is turned as the artwork is: upright unless the artwork is wider than high.
pub proof fn lemma_turned(paper: Paper, margin: int, w: int, h: int, l: PaperLayout)
    requires
        is_layout(paper, margin, w, h, l),
    ensures
        w > h ==> l.paper_w == paper.size().1 * 1_000_000 && l.paper_h == paper.size().0
            * 1_000_000 && l.paper_w > l.paper_h,
        w <= h ==> l.paper_w == paper.size().0 * 1_000_000 && l.paper_h == paper.size().1
            * 1_000_000 && l.paper_w < l.paper_h,
{
}

/// A margin that leaves two millimetres of the short side is kept as it is, a wider one is
/// narrowed to that, and there is none below nothing.
pub proof fn lemma_margin(short: int, margin: int)
    requires
        short >= 2_000_000,
    ensures
        margin <= 0 ==> margin_kept(short, margin) == 0,
        0 <= margin && 2 * margin + 2_000_000 <= short ==> margin_kept(short, margin) == margin,
        2 * margin + 2_000_000 > short ==> 0 <= short - 2_000_000 - 2 * margin_kept(short, margin)
            <= 1,
{
}

/// The artwork keeps its proportions, to half a nanometre of either side, and is as large as
/// fits: in one direction it reaches from margin to margin, in the other no farther.
pub proof fn lemma_fills(paper: Paper, margin: int, w: int, h: int, l: PaperLayout)
    requires
        is_layout(paper, margin, w, h, l),
        0 < w,
        0 < h,
    ensures
        ({
            let m = margin_kept(paper.size().0 * 1_000_000, margin);
            &&& l.art_w + 2 * m == l.paper_w || l.art_h + 2 * m == l.paper_h
            &&& l.art_w + 2 * m <= l.paper_w
            &&& l.art_h + 2 * m <= l.paper_h
            &&& -(w + h) <= 2 * (l.art_w * h - l.art_h * w) <= w + h
        }),
{
    let m = margin_kept(paper.size().0 * 1_000_000, margin);
    let (iw, ih) = (l.paper_w - 2 * m, l.paper_h - 2 * m);
    if iw * h <= ih * w {
        lemma_exact(w, iw);
        lemma_rounded_near(h * iw, w);
        let r = l.art_h as int;
        assert(h * iw == iw * h) by (nonlinear_arith);
        assert(r <= ih) by (nonlinear_arith)
            requires
                2 * (r * w - h * iw) <= w,
                h * iw <= ih * w,
                w > 0,
        ;
    } else {
        lemma_exact(h, ih);
        lemma_rounded_near(w * ih, h);
        let r = l.art_w as int;
        assert(w * ih == ih * w) by (nonlinear_arith);
        assert(r <= iw) by (nonlinear_arith)
            requires
                2 * (r * h - w * ih) <= h,
                w * ih <= iw * h,
                h > 0,
        ;
    }
}

proof fn lemma_exact(w: int, q: int)
    requires
        w > 0,
    ensures
        rounded(w * q, w) == q,
{
    assert((2 * (w * q) + w) / (2 * w) == q) by (nonlinear_arith)
        requires
            w > 0,
    ;
}

/// Punch holes have a radius of the least material, as it comes out on the sheet to the
/// nearest nanometre, but two millimetres at least; without a sheet just that.
pub proof fn lemma_hole(l: PaperLayout, material: int)
    requires
        l.scale_px > 0,
    ensures
        punch_hole(None, material) == 2_000_000,
        punch_hole(Some(l), material) >= 2_000_000,
        punch_hole(Some(l), material) > 2_000_000 ==> -(l.scale_px * 1_000_000) <= 2 * (punch_hole(
            Some(l),
            material,
        ) * (l.scale_px * 1_000_000) - material * l.scale_nm) <= l.scale_px * 1_000_000,
        punch_hole(Some(l), material) == 2_000_000 ==> 2 * (material * l.scale_nm) <= 4_000_001 * (
        l.scale_px * 1_000_000),
{
    let (a, b) = (material * l.scale_nm, l.scale_px * 1_000_000);
    lemma_rounded_near(a, b);
    let r = rounded(a, b);
    assert(r <= 2_000_000 ==> r * b <= 2_000_000 * b) by (nonlinear_arith)
        requires
            b > 0,
    ;
}

proof fn lemma_lone(masks: Seq<Seq<bool>>, inks: Seq<Ink>, j: int, ch: int, b: int, c: int, k: int)
    requires
        0 <= b <= c,
        0 <= k,
        forall|i: int|
            0 <= i < k ==> (#[trigger] masks[i])[j] == (i == b || i == c),
    ensures
        k <= b ==> let_through(masks, inks, j, ch, k) == 1 && inked(masks, j, k) == 0,
        b < k && (k <= c || b == c) ==> let_through(masks, inks, j, ch, k)
            == inks[b].rgb_spec()@[ch] && inked(masks, j, k) == 1,
        b < c < k ==> let_through(masks, inks, j, ch, k) == inks[b].rgb_spec()@[ch]
            * inks[c].rgb_spec()@[ch] && inked(masks, j, k) == 2,
    decreases k,
{
    if k > 0 {
        lemma_lone(masks, inks, j, ch, b, c, k - 1);
        let t = let_through(masks, inks, j, ch, k - 1);
        let s = if masks[k - 1][j] {
            inks[k - 1].rgb_spec()@[ch] as nat
        } else {
            1
        };
        assert(masks[k - 1][j] == (k - 1 == b || k - 1 == c));
        assert(s == 1 ==> t * s == t) by (nonlinear_arith);
        assert(t == 1 ==> t * s == s) by (nonlinear_arith);
    }
}

/// Where one sheet alone is open the paper shows its ink: of the light in every channel as
/// many tenths as that ink lets through. Sheets that are not open there change nothing.
pub proof fn lemma_one_ink(masks: Seq<Seq<bool>>, inks: Seq<Ink>, j: int, ch: int, b: int)
    requires
        masks.len() == inks.len(),
        0 <= ch < 3,
        0 <= b < inks.len(),
        forall|i: int| 0 <= i < masks.len() ==> (#[trigger] masks[i])[j] == (i == b),
    ensures
        stacked(masks, inks, j, ch) == 255 * inks[b].rgb_spec()@[ch] / 10,
{
    lemma_lone(masks, inks, j, ch, b, b, inks.len() as int);
    reveal_with_fuel(ten_to, 3);
}

/// Where two sheets are open each ink takes its part of what the other lets through, in
/// whichever order they lie.
pub proof fn lemma_two_inks(masks: Seq<Seq<bool>>, inks: Seq<Ink>, j: int, ch: int, b: int, c: int)
    requires
        masks.len() == inks.len(),
        0 <= ch < 3,
        0 <= b < c < inks.len(),
        forall|i: int| 0 <= i < masks.len() ==> (#[trigger] masks[i])[j] == (i == b || i == c),
    ensures
        stacked(masks, inks, j, ch) == 255 * (inks[b].rgb_spec()@[ch] * inks[c].rgb_spec()@[ch])
            / 100,
{
    lemma_lone(masks, inks, j, ch, b, c, inks.len() as int);
    reveal_with_fuel(ten_to, 3);
}

/// What the inks look like: each of the first three takes all of one channel and nothing of
/// the others, and black takes all.
pub proof fn lemma_inks(ch: int)
    requires
        0 <= ch < 3,
    ensures
        Ink::Cyan.rgb_spec()@[ch] == if ch == 0 {
            0int
        } else {
            10
        },
        Ink::Magenta.rgb_spec()@[ch] == if ch == 1 {
            0int
        } else {
            10
        },
        Ink::Yellow.rgb_spec()@[ch] == if ch == 2 {
            0int
        } else {
            10
        },
        Ink::Black.rgb_spec()@[ch] == 0,
{
}

/// A permille of a sorted list is the entry nearest to that part of the way through it.
pub proof fn lemma_permille(len: int, pm: int)
    requires
        0 < len,
        0 <= pm <= 1000,
    ensures
        0 <= permille_at(len, pm) < len,
        -1000 <= 2 * (1000 * permille_at(len, pm) - pm * (len - 1)) <= 1000,
        pm == 0 ==> permille_at(len, pm) == 0,
        pm == 1000 ==> permille_at(len, pm) == len - 1,
{
    let a = pm * (len - 1);
    lemma_rounded_near(a, 1000);
    assert(0 <= a <= 1000 * (len - 1)) by (nonlinear_arith)
        requires
            a == pm * (len - 1),
            0 <= pm <= 1000,
            len >= 1,
    ;
    assert(pm == 0 ==> a == 0) by (nonlinear_arith)
        requires
            a == pm * (len - 1),
    ;
    assert(pm == 1000 ==> a == 1000 * (len - 1)) by (nonlinear_arith)
        requires
            a == pm * (len - 1),
    ;
}

/// Whether share `a` is less than share `b`.
pub open spec fn less(a: Share, b: Share) -> bool {
    a.part * b.whole < b.part * a.whole
}

/// The levels are shares of the map itself: as many pixels as the permille asks for hold no
/// more ink than the white point, and the rest no less; so for the black point. A map whose
/// white point is not less than its black point has none.
pub proof fn lemma_levels_ranked(
    map: Seq<Share>,
    lo: int,
    hi: int,
    order: Seq<usize>,
    r: Option<(Share, Share)>,
    a: int,
)
    requires
        0 < map.len(),
        0 <= lo <= 1000,
        0 <= hi <= 1000,
        forall|i: int| 0 <= i < map.len() ==> (#[trigger] map[i]).whole > 0,
        is_levels(map, lo, hi, order, r),
        0 <= a < map.len(),
    ensures
        ordered(share_keys(map), order, 0, map.len() as int),
        ({
            let (i, j) = (permille_at(map.len() as int, lo), permille_at(map.len() as int, hi));
            let (w, b) = (map[order[i] as int], map[order[j] as int]);
            &&& r == if less(w, b) {
                Some((w, b))
            } else {
                None
            }
            &&& a <= i ==> !less(w, map[order[a] as int])
            &&& a >= i ==> !less(map[order[a] as int], w)
            &&& a <= j ==> !less(b, map[order[a] as int])
            &&& a >= j ==> !less(map[order[a] as int], b)
        }),
{
    let n = map.len() as int;
    let (i, j) = (permille_at(n, lo), permille_at(n, hi));
    lemma_permille(n, lo);
    lemma_permille(n, hi);
    let keys = share_keys(map);
    let (w, b, s) = (map[order[i] as int], map[order[j] as int], map[order[a] as int]);
    lemma_share_key(w, b);
    lemma_share_key(w, s);
    lemma_share_key(s, w);
    lemma_share_key(b, s);
    lemma_share_key(s, b);
    assert forall|x: int| 0 <= x < n implies keys[#[trigger] order[x] as int] == share_key(
        map[order[x] as int],
    ) by {
        lemma_key_fits(map[order[x] as int]);
    }
    if a < i {
        assert(before(keys, order[a] as int, order[i] as int));
    } else if i < a {
        assert(before(keys, order[i] as int, order[a] as int));
    }
    if a < j {
        assert(before(keys, order[a] as int, order[j] as int));
    } else if j < a {
        assert(before(keys, order[j] as int, order[a] as int));
    }
    assert(keys[order[a] as int] == share_key(s));
    assert(keys[order[i] as int] == share_key(w));
    assert(keys[order[j] as int] == share_key(b));
}

proof fn lemma_key_fits(s: Share)
    requires
        s.whole > 0,
    ensures
        0 <= share_key(s) <= 255 * 0x100_0000_0000,
{
    let (p, q) = (s.part as int, s.whole as int);
    assert(0 <= p * 0x100_0000_0000 / q <= 255 * 0x100_0000_0000) by (nonlinear_arith)
        requires
            0 <= p <= 255,
            0 < q,
    ;
}

/// A stack of sheets shows at every cell the colour of the last sheet that covers it, and
/// white paper where none does.
pub proof fn lemma_topmost(palette: Seq<Color>, masks: Seq<Seq<bool>>, j: int, t: int)
    requires
        palette.len() == masks.len(),
        forall|k: int| 0 <= k < masks.len() ==> j < (#[trigger] masks[k]).len(),
    ensures
        (forall|k: int| 0 <= k < masks.len() ==> !(#[trigger] masks[k])[j]) ==> seen_at(
            palette,
            masks,
            j,
        ) == (255u8, 255u8, 255u8),
        0 <= t < masks.len() && masks[t][j] && (forall|k: int|
            t < k < masks.len() ==> !(#[trigger] masks[k])[j]) ==> seen_at(palette, masks, j) == (
            palette[t].r,
            palette[t].g,
            palette[t].b,
        ),
{
    lemma_top(masks, j, masks.len() as int);
}

proof fn lemma_top(masks: Seq<Seq<bool>>, j: int, n: int)
    requires
        0 <= n <= masks.len(),
        forall|k: int| 0 <= k < masks.len() ==> j < (#[trigger] masks[k]).len(),
    ensures
        ({
            let t = top_layer(masks, j, n);
            &&& -1 <= t < n
            &&& t >= 0 ==> masks[t][j]
            &&& forall|k: int| t < k < n ==> !(#[trigger] masks[k])[j]
        }),
    decreases n,
{
    if n > 0 {
        lemma_top(masks, j, n - 1);
    }
}

/// Sheets cut from labels show at every cell the colour of its label.
pub proof fn lemma_labels_seen(
    palette: Seq<Color>,
    labels: Seq<u8>,
    masks: Seq<Seq<bool>>,
    j: int,
)
    requires
        palette.len() == masks.len(),
        forall|k: int| 0 <= k < masks.len() ==> #[trigger] masks[k] == mask_of(labels, k),
        0 <= j < labels.len(),
        labels[j] < palette.len(),
    ensures
        seen_at(palette, masks, j) == (
            palette[labels[j] as int].r,
            palette[labels[j] as int].g,
            palette[labels[j] as int].b,
        ),
{
    let t = labels[j] as int;
    assert(masks[t][j]);
    assert forall|k: int| t < k < masks.len() implies !(#[trigger] masks[k])[j] by {}
    lemma_topmost(palette, masks, j, t);
}

/// Black is trimmed under all inks but itself, each once and in order.
pub proof fn lemma_translucent(channels: Seq<Channel>, k: int)
    requires
        0 <= k <= channels.len() <= usize::MAX,
    ensures
        forall|i: int|
            0 <= i < k ==> (translucent(channels, k).contains(i as usize) <==> (
            #[trigger] channels[i]).ink != Ink::Black),
        forall|a: int|
            0 <= a < translucent(channels, k).len() ==> (#[trigger] translucent(channels, k)[a])
                < k,
        forall|a: int, b: int|
            0 <= a < b < translucent(channels, k).len() ==> (#[trigger] translucent(
                channels,
                k,
            )[a]) < (#[trigger] translucent(channels, k)[b]),
    decreases k,
{
    let t = translucent(channels, k);
    if k > 0 {
        lemma_translucent(channels, k - 1);
        let s = translucent(channels, k - 1);
        if channels[k - 1].ink != Ink::Black {
            assert(t == s.push((k - 1) as usize));
            assert(t[s.len() as int] == k - 1);
            assert forall|i: int| 0 <= i < k implies (t.contains(i as usize) <==> (
            #[trigger] channels[i]).ink != Ink::Black) by {
                if i < k - 1 && s.contains(i as usize) {
                    assert(t[s.index_of(i as usize)] == i);
                }
                if i < k - 1 && t.contains(i as usize) {
                    let a = t.index_of(i as usize);
                    assert(a < s.len());
                    assert(s[a] == i);
                }
            }
        } else {
            assert(t == s);
            assert(!t.contains((k - 1) as usize)) by {
                if t.contains((k - 1) as usize) {
                    let a = t.index_of((k - 1) as usize);
                    assert(s[a] < k - 1);
                }
            }
        }
    }
}

/// The share of a sheet that is told to be cut away is off by half a percent at most.
pub proof fn lemma_cut_percent(f: Fragility)
    ensures
        f.total == 0 ==> cut_percent(f) == 0,
        f.total > 0 ==> -(f.total as int) <= 2 * (cut_percent(f) * f.total - 100 * f.removed)
            <= f.total,
{
    if f.total > 0 {
        lemma_evenly(100 * f.removed, f.total as int);
    }
}

} // verus!
