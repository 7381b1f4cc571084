//! What a stack of screened sheets looks like, how stiff each is, and how channels are
//! screened.

use crate::arith::{even_div, evenly};
use crate::fragility::{measure, measured, Fragility};
use crate::grid::mask_views;
use crate::inks::Ink;
use crate::order::{order_by_key, ordered};
use crate::paper::{round_div, rounded};
use crate::raster::{covered, points_ok, rasterize};
use crate::separation::{Channel, Share};
use crate::svg::Ribbon;
use crate::text::{decimal, fixed, hex_byte, push_decimal, push_fixed, push_hex, ten_to};
use vstd::prelude::*;
use vstd::string::*;

verus! {

/// How many of the first `k` sheets are cut open over pixel `j`, and so let ink through.
pub open spec fn inked(masks: Seq<Seq<bool>>, j: int, k: int) -> nat
    decreases k,
{
    if k <= 0 {
        0
    } else {
        inked(masks, j, k - 1) + if masks[k - 1][j] {
            1nat
        } else {
            0nat
        }
    }
}

/// The product of the tenths of light in channel `ch` that those inks let through.
pub open spec fn let_through(
    masks: Seq<Seq<bool>>,
    inks: Seq<Ink>,
    j: int,
    ch: int,
    k: int,
) -> nat
    decreases k,
{
    if k <= 0 {
        1
    } else {
        let_through(masks, inks, j, ch, k - 1) * if masks[k - 1][j] {
            inks[k - 1].rgb_spec()@[ch] as nat
        } else {
            1
        }
    }
}

/// The light of channel `ch` that the stack leaves at pixel `j`, of 255: white paper, less
/// what each ink over it takes.
pub open spec fn stacked(masks: Seq<Seq<bool>>, inks: Seq<Ink>, j: int, ch: int) -> int {
    let n = inks.len() as int;
    255 * let_through(masks, inks, j, ch, n) as int / ten_to(inked(masks, j, n)) as int
}

/// Where nothing is sprayed the paper stays white, and where black is sprayed nothing else
/// shows.
pub proof fn lemma_stack_extremes(masks: Seq<Seq<bool>>, inks: Seq<Ink>, j: int, ch: int, b: int)
    requires
        masks.len() == inks.len(),
        0 <= ch < 3,
    ensures
        (forall|k: int| 0 <= k < inks.len() ==> !(#[trigger] masks[k])[j]) ==> stacked(
            masks,
            inks,
            j,
            ch,
        ) == 255,
        0 <= b < inks.len() && inks[b] == Ink::Black && masks[b][j] ==> stacked(
            masks,
            inks,
            j,
            ch,
        ) == 0,
{
    let n = inks.len() as int;
    if forall|k: int| 0 <= k < inks.len() ==> !(#[trigger] masks[k])[j] {
        lemma_blank_stack(masks, inks, j, ch, n);
        assert(ten_to(0) == 1);
    }
    if 0 <= b < inks.len() && inks[b] == Ink::Black && masks[b][j] {
        lemma_black_stack(masks, inks, j, ch, b, n);
        lemma_ten_positive(inked(masks, j, n));
        let d = ten_to(inked(masks, j, n)) as int;
        assert(0int / d == 0) by (nonlinear_arith)
            requires
                d > 0,
        ;
    }
}

proof fn lemma_ten_positive(k: nat)
    ensures
        ten_to(k) > 0,
    decreases k,
{
    if k > 0 {
        lemma_ten_positive((k - 1) as nat);
    }
}

proof fn lemma_blank_stack(masks: Seq<Seq<bool>>, inks: Seq<Ink>, j: int, ch: int, k: int)
    requires
        0 <= k <= masks.len(),
        forall|i: int| 0 <= i < masks.len() ==> !(#[trigger] masks[i])[j],
    ensures
        inked(masks, j, k) == 0,
        let_through(masks, inks, j, ch, k) == 1,
    decreases k,
{
    if k > 0 {
        lemma_blank_stack(masks, inks, j, ch, k - 1);
    }
}

proof fn lemma_black_stack(masks: Seq<Seq<bool>>, inks: Seq<Ink>, j: int, ch: int, b: int, k: int)
    requires
        0 <= b < k <= masks.len(),
        masks.len() == inks.len(),
        0 <= ch < 3,
        inks[b] == Ink::Black,
        masks[b][j],
    ensures
        let_through(masks, inks, j, ch, k) == 0,
    decreases k,
{
    let before = let_through(masks, inks, j, ch, k - 1);
    if b == k - 1 {
        assert(Ink::Black.rgb_spec()@[ch] == 0);
        assert(before * 0 == 0) by (nonlinear_arith);
    } else {
        lemma_black_stack(masks, inks, j, ch, b, k - 1);
        let t = if masks[k - 1][j] {
            inks[k - 1].rgb_spec()@[ch] as nat
        } else {
            1nat
        };
        assert(0 * t == 0) by (nonlinear_arith);
    }
}

/// The light that `k` inks let through at most, in units of as many tenths, where none of
/// them is clear.
spec fn dimmed(k: nat) -> nat
    decreases k,
{
    if k == 0 {
        1
    } else {
        7 * dimmed((k - 1) as nat)
    }
}

/// Sixteen inks that are not clear leave nothing of the light.
proof fn lemma_dimmed(k: nat)
    ensures
        k >= 16 ==> 255 * dimmed(k) < ten_to(k),
        k <= 15 ==> 1 <= ten_to(k) <= 1_000_000_000_000_000,
    decreases k,
{
    if k == 16 {
        reveal_with_fuel(dimmed, 17);
        reveal_with_fuel(ten_to, 17);
    } else if k > 16 {
        lemma_dimmed((k - 1) as nat);
    } else {
        reveal_with_fuel(ten_to, 17);
    }
}

/// Equal fractions have equal whole parts.
proof fn lemma_same_quotient(a: int, b: int, c: int, d: int)
    requires
        b > 0,
        d > 0,
        a * d == c * b,
    ensures
        a / b == c / d,
{
    let q = a / b;
    assert(q * b <= a < (q + 1) * b) by (nonlinear_arith)
        requires
            b > 0,
            q == a / b,
    ;
    assert(q * d <= c < (q + 1) * d) by (nonlinear_arith)
        requires
            b > 0,
            d > 0,
            a * d == c * b,
            q * b <= a < (q + 1) * b,
    ;
    assert(c / d == q) by (nonlinear_arith)
        requires
            d > 0,
            q * d <= c < (q + 1) * d,
    ;
}

/// Whether `num` of `den` is the light `n` of `d`, or both leave nothing of 255.
spec fn same_light(num: int, den: int, n: int, d: int) -> bool {
    num * d == n * den || (255 * num < den && 255 * n < d)
}

/// Another ink that lets `t` tenths through keeps the two the same, where the first takes
/// it up if there is anything left to take and the ink is not clear.
proof fn lemma_same_light(num: int, den: int, n: int, d: int, t: int)
    requires
        0 <= num,
        0 <= n,
        den > 0,
        d > 0,
        0 <= t <= 10,
        same_light(num, den, n, d),
    ensures
        255 * num < den || t == 10 ==> same_light(num, den, n * t, d * 10),
        255 * num >= den ==> same_light(num * t, den * 10, n * t, d * 10),
{
    if 255 * num < den {
        assert(255 * n < d) by (nonlinear_arith)
            requires
                den > 0,
                d > 0,
                255 * num < den,
                num * d == n * den || 255 * n < d,
        ;
        assert(255 * (n * t) < d * 10) by (nonlinear_arith)
            requires
                255 * n < d,
                0 <= n,
                0 <= t <= 10,
        ;
    } else {
        assert(num * d == n * den);
        assert(num * t * (d * 10) == n * t * (den * 10)) by (nonlinear_arith)
            requires
                num * d == n * den,
        ;
        if t == 10 {
            assert(num * (d * 10) == n * 10 * den) by (nonlinear_arith)
                requires
                    num * d == n * den,
            ;
        }
    }
}

/// The light of channel `ch` at pixel `j`; see `stacked`.
fn light_at(masks: &Vec<Vec<bool>>, inks: &[Ink], j: usize, ch: usize) -> (v: u8)
    requires
        masks@.len() == inks@.len(),
        ch < 3,
        forall|k: int| 0 <= k < masks@.len() ==> j < (#[trigger] masks@[k])@.len(),
    ensures
        v == stacked(mask_views(masks@), inks@, j as int, ch as int),
{
    let ghost v = mask_views(masks@);
    let mut num: u64 = 1;
    let mut den: u64 = 1;
    let ghost mut m: nat = 0;
    proof {
        assert(ten_to(0) == 1);
        assert(dimmed(0) == 1);
    }
    for k in 0..inks.len()
        invariant
            v == mask_views(masks@),
            masks@.len() == inks@.len(),
            ch < 3,
            forall|k: int| 0 <= k < masks@.len() ==> j < (#[trigger] masks@[k])@.len(),
            same_light(
                num as int,
                den as int,
                let_through(v, inks@, j as int, ch as int, k as int) as int,
                ten_to(inked(v, j as int, k as int)) as int,
            ),
            m <= 16,
            num <= dimmed(m),
            num <= den,
            den == ten_to(m),
            1 <= den <= 10_000_000_000_000_000,
    {
        let mask: &Vec<bool> = &masks[k];
        let ghost n = let_through(v, inks@, j as int, ch as int, k as int) as int;
        let ghost d = ten_to(inked(v, j as int, k as int)) as int;
        proof {
            assert(v[k as int] == mask@);
            lemma_ten_positive(inked(v, j as int, k as int));
            lemma_dimmed(m);
        }
        if mask[j] {
            let rgb: [u8; 3] = inks[k].rgb_tenths();
            let t: u64 = rgb[ch] as u64;
            proof {
                assert(t <= 7 || t == 10);
                lemma_same_light(num as int, den as int, n, d, t as int);
                assert(num * t <= den * 10 && num * t >= 0) by (nonlinear_arith)
                    requires
                        0 <= num <= den,
                        0 <= t <= 10,
                ;
            }
            if t < 10 && 255 * num >= den {
                proof {
                    assert(num * t <= 7 * dimmed(m)) by (nonlinear_arith)
                        requires
                            0 <= num <= dimmed(m),
                            0 <= t <= 7,
                    ;
                }
                num = num * t;
                den = den * 10;
                proof {
                    m = m + 1;
                    assert(ten_to(m) == 10 * ten_to((m - 1) as nat));
                    assert(dimmed(m) == 7 * dimmed((m - 1) as nat));
                }
            }
        }
    }
    proof {
        let (p, q) = (num as int, den as int);
        let n = let_through(v, inks@, j as int, ch as int, inks@.len() as int) as int;
        let d = ten_to(inked(v, j as int, inks@.len() as int)) as int;
        lemma_ten_positive(inked(v, j as int, inks@.len() as int));
        if p * d == n * q {
            assert(255 * p * d == 255 * n * q) by (nonlinear_arith)
                requires
                    p * d == n * q,
            ;
            lemma_same_quotient(255 * p, q, 255 * n, d);
        } else {
            assert(255 * p / q == 0 && 255 * n / d == 0) by (nonlinear_arith)
                requires
                    0 <= 255 * p < q,
                    0 <= 255 * n < d,
            ;
        }
        assert(255 * p / q <= 255) by (nonlinear_arith)
            requires
                p <= q,
                q >= 1,
        ;
    }
    (255 * num / den) as u8
}

/// Whether `mask` marks what the ribbons cut.
pub open spec fn is_cut_mask(ribbons: Seq<Ribbon>, w: int, h: int, mask: Seq<bool>) -> bool {
    &&& mask.len() == w * h
    &&& forall|x: int, y: int|
        0 <= x < w && 0 <= y < h ==> #[trigger] mask[y * w + x] == covered(
            ribbons,
            x,
            y,
            ribbons.len() as int,
        )
}

/// A mask with cut and kept exchanged.
pub open spec fn inverted(mask: Seq<bool>) -> Seq<bool> {
    Seq::new(mask.len(), |i: int| !mask[i])
}

fn invert(mask: &Vec<bool>) -> (r: Vec<bool>)
    ensures
        r@ == inverted(mask@),
{
    let mut r: Vec<bool> = Vec::new();
    for i in 0..mask.len()
        invariant
            r@.len() == i,
            forall|j: int| 0 <= j < i ==> #[trigger] r@[j] == !mask@[j],
    {
        r.push(!mask[i]);
    }
    proof {
        assert(r@ =~= inverted(mask@));
    }
    r
}

/// Whether `masks` are what the sheets cut, `pixels` what the stack looks like, and `stiff`
/// the readout of each sheet's material.
pub open spec fn is_preview(
    sheets: Seq<Vec<Ribbon>>,
    inks: Seq<Ink>,
    w: int,
    h: int,
    masks: Seq<Seq<bool>>,
    pixels: Seq<[u8; 3]>,
    stiff: Seq<Fragility>,
) -> bool {
    &&& masks.len() == sheets.len()
    &&& forall|k: int| 0 <= k < masks.len() ==> is_cut_mask(sheets[k]@, w, h, #[trigger] masks[k])
    &&& pixels.len() == w * h
    &&& forall|j: int, ch: int|
        0 <= j < pixels.len() && 0 <= ch < 3 ==> #[trigger] pixels[j]@[ch] == stacked(
            masks,
            inks,
            j,
            ch,
        )
    &&& stiff.len() == sheets.len()
    &&& forall|k: int|
        0 <= k < stiff.len() ==> measured(inverted(masks[k]), w, h, #[trigger] stiff[k])
}

/// Renders the sheets of a job: what they look like sprayed over each other, and how stiff
/// each is.
pub fn render_preview(sheets: &[Vec<Ribbon>], inks: &[Ink], w: usize, h: usize) -> (r: (
    Vec<[u8; 3]>,
    Vec<Fragility>,
))
    requires
        sheets@.len() == inks@.len(),
        w <= 0x7fff_ffff,
        h <= 0x7fff_ffff,
        w * h <= usize::MAX,
        forall|k: int, i: int|
            0 <= k < sheets@.len() && 0 <= i < sheets@[k]@.len() ==> points_ok(
                (#[trigger] sheets@[k]@[i]).pts@,
            ),
    ensures
        exists|masks: Seq<Seq<bool>>| #[trigger]
            is_preview(sheets@, inks@, w as int, h as int, masks, r.0@, r.1@),
{
    let n: usize = w * h;
    let mut masks: Vec<Vec<bool>> = Vec::new();
    let mut stiff: Vec<Fragility> = Vec::new();
    for k in 0..sheets.len()
        invariant
            w <= 0x7fff_ffff,
            h <= 0x7fff_ffff,
            w * h <= usize::MAX,
            forall|k: int, i: int|
                0 <= k < sheets@.len() && 0 <= i < sheets@[k]@.len() ==> points_ok(
                    (#[trigger] sheets@[k]@[i]).pts@,
                ),
            masks@.len() == k,
            stiff@.len() == k,
            forall|i: int|
                0 <= i < k ==> is_cut_mask(
                    sheets@[i]@,
                    w as int,
                    h as int,
                    (#[trigger] masks@[i])@,
                ),
            forall|i: int|
                0 <= i < k ==> measured(
                    inverted(masks@[i]@),
                    w as int,
                    h as int,
                    #[trigger] stiff@[i],
                ),
    {
        let mask: Vec<bool> = rasterize(sheets[k].as_slice(), w, h);
        let keep: Vec<bool> = invert(&mask);
        stiff.push(measure(keep.as_slice(), w, h));
        masks.push(mask);
    }
    let mut pixels: Vec<[u8; 3]> = Vec::new();
    let ghost v = mask_views(masks@);
    for j in 0..n
        invariant
            n == w * h,
            v == mask_views(masks@),
            masks@.len() == inks@.len(),
            forall|i: int| 0 <= i < masks@.len() ==> (#[trigger] masks@[i])@.len() == n,
            pixels@.len() == j,
            forall|i: int, ch: int|
                0 <= i < j && 0 <= ch < 3 ==> #[trigger] pixels@[i]@[ch] == stacked(
                    v,
                    inks@,
                    i,
                    ch,
                ),
    {
        let red: u8 = light_at(&masks, inks, j, 0);
        let green: u8 = light_at(&masks, inks, j, 1);
        let blue: u8 = light_at(&masks, inks, j, 2);
        let ghost before = pixels@;
        pixels.push([red, green, blue]);
        proof {
            assert forall|i: int, ch: int| 0 <= i < j + 1 && 0 <= ch < 3 implies
                #[trigger] pixels@[i]@[ch] == stacked(v, inks@, i, ch) by {
                if i < j {
                    assert(pixels@[i] == before[i]);
                } else {
                    assert(ch == 0 || ch == 1 || ch == 2);
                }
            }
        }
    }
    let r: (Vec<[u8; 3]>, Vec<Fragility>) = (pixels, stiff);
    proof {
        assert forall|k: int| 0 <= k < v.len() implies is_cut_mask(
            sheets@[k]@,
            w as int,
            h as int,
            #[trigger] v[k],
        ) by {
            assert(v[k] == masks@[k]@);
        }
        assert forall|k: int| 0 <= k < r.1@.len() implies measured(
            inverted(v[k]),
            w as int,
            h as int,
            #[trigger] r.1@[k],
        ) by {
            assert(v[k] == masks@[k]@);
        }
        assert(is_preview(sheets@, inks@, w as int, h as int, v, r.0@, r.1@));
    }
    r
}

/// The key by which shares of ink are ordered: it grows with the share, and equal shares
/// have equal keys.
pub open spec fn share_key(s: Share) -> int {
    s.part * 0x100_0000_0000 / s.whole as int
}

/// The keys order as the shares do.
pub proof fn lemma_share_key(a: Share, b: Share)
    requires
        a.whole > 0,
        b.whole > 0,
    ensures
        share_key(a) < share_key(b) <==> a.part * b.whole < b.part * a.whole,
{
    let (p, q, r, s) = (a.part as int, a.whole as int, b.part as int, b.whole as int);
    let ka = p * 0x100_0000_0000 / q;
    let kb = r * 0x100_0000_0000 / s;
    if p * s < r * q {
        assert(ka < kb) by (nonlinear_arith)
            requires
                0 <= p <= 255,
                0 < q <= 255,
                0 <= r <= 255,
                0 < s <= 255,
                p * s + 1 <= r * q,
                ka == p * 0x100_0000_0000 / q,
                kb == r * 0x100_0000_0000 / s,
        ;
    } else {
        assert(kb <= ka) by (nonlinear_arith)
            requires
                0 <= p <= 255,
                0 < q <= 255,
                0 <= r <= 255,
                0 < s <= 255,
                p * s >= r * q,
                ka == p * 0x100_0000_0000 / q,
                kb == r * 0x100_0000_0000 / s,
        ;
    }
}

/// The keys of a density map.
pub open spec fn share_keys(map: Seq<Share>) -> Seq<i128> {
    Seq::new(map.len(), |i: int| share_key(map[i]) as i128)
}

/// The place of a permille in a sorted list of `len` entries, rounded to nearest.
pub open spec fn permille_at(len: int, pm: int) -> int {
    let i = rounded(pm * (len - 1), 1000);
    if i < len - 1 {
        i
    } else {
        len - 1
    }
}

/// Whether `r` holds the shares at the two permilles of a density map, the white and the
/// black point; none if the first is not below the second.
pub open spec fn is_levels(
    map: Seq<Share>,
    lo: int,
    hi: int,
    order: Seq<usize>,
    r: Option<(Share, Share)>,
) -> bool {
    let w = map[order[permille_at(map.len() as int, lo)] as int];
    let b = map[order[permille_at(map.len() as int, hi)] as int];
    &&& ordered(share_keys(map), order, 0, map.len() as int)
    &&& r == if share_key(w) >= share_key(b) {
        None
    } else {
        Some((w, b))
    }
}

/// Picks the white and the black point of one ink from its density map: the shares at the
/// permilles `lo` and `hi`, so that a few stray pixels do not set the range. A map without
/// range has none.
pub fn auto_levels(map: &[Share], lo: u32, hi: u32) -> (r: Option<(Share, Share)>)
    requires
        map@.len() > 0,
        lo <= 1000,
        hi <= 1000,
        map@.len() <= 0xffff_ffff_ffff,
        forall|i: int| 0 <= i < map@.len() ==> (#[trigger] map@[i]).whole > 0,
    ensures
        exists|order: Seq<usize>| #[trigger] is_levels(map@, lo as int, hi as int, order, r),
{
    let n: usize = map.len();
    let mut keys: Vec<i128> = Vec::new();
    for i in 0..n
        invariant
            n == map@.len(),
            forall|i: int| 0 <= i < map@.len() ==> (#[trigger] map@[i]).whole > 0,
            keys@.len() == i,
            forall|j: int| 0 <= j < i ==> #[trigger] keys@[j] == share_key(map@[j]),
    {
        let s: Share = map[i];
        keys.push(s.part as i128 * 0x100_0000_0000 / s.whole as i128);
    }
    proof {
        assert(keys@ =~= share_keys(map@));
    }
    let order: Vec<usize> = order_by_key(keys.as_slice());
    let a: usize = place_of(n, lo);
    let b: usize = place_of(n, hi);
    let w: usize = order[a];
    let k: usize = order[b];
    let r: Option<(Share, Share)> = if keys[w] >= keys[k] {
        None
    } else {
        Some((map[w], map[k]))
    };
    proof {
        assert(is_levels(map@, lo as int, hi as int, order@, r));
    }
    r
}

fn place_of(len: usize, pm: u32) -> (i: usize)
    requires
        0 < len <= 0xffff_ffff_ffff,
        pm <= 1000,
    ensures
        i == permille_at(len as int, pm as int),
        i < len,
{
    let top: u64 = (len - 1) as u64;
    proof {
        assert(pm * top <= 1000 * top && 0 <= pm * top) by (nonlinear_arith)
            requires
                0 <= pm <= 1000,
                top >= 0,
        ;
    }
    let i: u64 = round_div(pm as u64 * top, 1000);
    if i < top {
        i as usize
    } else {
        top as usize
    }
}

/// How a channel is screened.
pub enum Screen {
    /// An opaque ink: trimmed under the inks at the given places.
    Tamed { under: Vec<usize> },
    /// A translucent ink, with white and black point where they are picked.
    Plain { levels: Option<(Share, Share)> },
}

/// The places of the translucent inks among the first `k` channels.
pub open spec fn translucent(channels: Seq<Channel>, k: int) -> Seq<usize>
    decreases k,
{
    if k <= 0 {
        Seq::empty()
    } else if channels[k - 1].ink is Black {
        translucent(channels, k - 1)
    } else {
        translucent(channels, k - 1).push((k - 1) as usize)
    }
}

/// Whether `s` is how the channel is screened: black under the translucent inks, the others
/// plainly, with the points at 5 and 995 permille if they are picked.
pub open spec fn is_screen(channels: Seq<Channel>, auto: bool, i: int, s: Screen) -> bool {
    let ch = channels[i];
    match s {
        Screen::Tamed { under } => ch.ink is Black && under@ == translucent(
            channels,
            channels.len() as int,
        ),
        Screen::Plain { levels } => !(ch.ink is Black) && if auto {
            exists|order: Seq<usize>| #[trigger] is_levels(ch.density@, 5, 995, order, levels)
        } else {
            levels is None
        },
    }
}

proof fn lemma_same_translucent(a: Seq<Channel>, b: Seq<Channel>, k: int)
    requires
        0 <= k <= a.len(),
        a.len() == b.len(),
        forall|j: int| 0 <= j < a.len() ==> (#[trigger] a[j]).ink == b[j].ink,
    ensures
        translucent(a, k) == translucent(b, k),
    decreases k,
{
    if k > 0 {
        lemma_same_translucent(a, b, k - 1);
        assert(a[k - 1].ink == b[k - 1].ink);
    }
}

/// How a channel is screened is decided by the inks and the densities alone: loads and
/// angles change nothing.
pub proof fn lemma_plan_ignores_loads(
    a: Seq<Channel>,
    b: Seq<Channel>,
    auto: bool,
    i: int,
    s: Screen,
)
    requires
        a.len() == b.len(),
        forall|j: int|
            0 <= j < a.len() ==> (#[trigger] a[j]).ink == b[j].ink && a[j].density@
                == b[j].density@,
        0 <= i < a.len(),
    ensures
        is_screen(a, auto, i, s) == is_screen(b, auto, i, s),
{
    lemma_same_translucent(a, b, a.len() as int);
    assert(a[i].ink == b[i].ink && a[i].density@ == b[i].density@);
}

/// Decides how every channel of a job is screened.
pub fn plan_screens(channels: &[Channel], auto: bool) -> (r: Vec<Screen>)
    requires
        auto ==> forall|i: int|
            0 <= i < channels@.len() ==> 0 < (#[trigger] channels@[i]).density@.len()
                <= 0xffff_ffff_ffff,
        auto ==> forall|i: int, j: int|
            0 <= i < channels@.len() && 0 <= j < channels@[i].density@.len() ==> (
            #[trigger] channels@[i].density@[j]).whole > 0,
    ensures
        r@.len() == channels@.len(),
        forall|i: int|
            0 <= i < r@.len() ==> is_screen(channels@, auto, i, #[trigger] r@[i]),
{
    let mut r: Vec<Screen> = Vec::new();
    for i in 0..channels.len()
        invariant
            auto ==> forall|i: int|
                0 <= i < channels@.len() ==> 0 < (#[trigger] channels@[i]).density@.len()
                    <= 0xffff_ffff_ffff,
            auto ==> forall|i: int, j: int|
                0 <= i < channels@.len() && 0 <= j < channels@[i].density@.len() ==> (
                #[trigger] channels@[i].density@[j]).whole > 0,
            r@.len() == i,
            forall|k: int| 0 <= k < i ==> is_screen(channels@, auto, k, #[trigger] r@[k]),
    {
        let ch: &Channel = &channels[i];
        if ch.ink.tamed() {
            let mut under: Vec<usize> = Vec::new();
            for k in 0..channels.len()
                invariant
                    under@ == translucent(channels@, k as int),
            {
                if !channels[k].ink.tamed() {
                    under.push(k);
                }
            }
            r.push(Screen::Tamed { under });
        } else if auto {
            let levels: Option<(Share, Share)> = auto_levels(ch.density.as_slice(), 5, 995);
            r.push(Screen::Plain { levels });
        } else {
            r.push(Screen::Plain { levels: None });
        }
    }
    r
}

/// An ink's colour as a web colour.
pub open spec fn ink_fill(ink: Ink) -> Seq<char> {
    let c = ink.rgb_spec()@;
    seq!['#'] + hex_byte((255 * c[0] / 10) as u8) + hex_byte((255 * c[1] / 10) as u8) + hex_byte(
        (255 * c[2] / 10) as u8,
    )
}

/// An ink's colour as a web colour.
pub fn fill_of_ink(ink: Ink) -> (s: String)
    ensures
        s@ == ink_fill(ink),
{
    let c: [u8; 3] = ink.rgb_tenths();
    let mut s: String = String::new();
    s.push('#');
    push_hex(&mut s, (255 * c[0] as u32 / 10) as u8);
    push_hex(&mut s, (255 * c[1] as u32 / 10) as u8);
    push_hex(&mut s, (255 * c[2] as u32 / 10) as u8);
    proof {
        assert(s@ =~= ink_fill(ink));
    }
    s
}

/// An ink's name in capitals.
pub open spec fn capitals(ink: Ink) -> Seq<char> {
    match ink {
        Ink::Cyan => "CYAN"@,
        Ink::Magenta => "MAGENTA"@,
        Ink::Yellow => "YELLOW"@,
        Ink::Orange => "ORANGE"@,
        Ink::Green => "GREEN"@,
        Ink::Black => "BLACK"@,
    }
}

/// The label of sheet `i` of `n`, counted from 0: the ink's name and the sheet's number.
pub open spec fn sheet_label(ink: Ink, i: int, n: int) -> Seq<char> {
    capitals(ink) + seq![' '] + decimal((i + 1) as nat) + seq!['/'] + decimal(n as nat)
}

/// The label of sheet `i` of `n`; see `sheet_label`.
pub fn label_of(ink: Ink, i: usize, n: usize) -> (s: String)
    requires
        i < n,
    ensures
        s@ == sheet_label(ink, i as int, n as int),
{
    let name: &str = match ink {
        Ink::Cyan => "CYAN",
        Ink::Magenta => "MAGENTA",
        Ink::Yellow => "YELLOW",
        Ink::Orange => "ORANGE",
        Ink::Green => "GREEN",
        Ink::Black => "BLACK",
    };
    let mut s: String = String::from_str(name);
    s.push(' ');
    push_decimal(&mut s, (i + 1) as u64);
    s.push('/');
    push_decimal(&mut s, n as u64);
    proof {
        assert(s@ =~= sheet_label(ink, i as int, n as int));
    }
    s
}

/// How stiff a sheet is.
#[derive(Clone, Copy, Debug, PartialEq, Eq, Structural)]
pub enum Grade {
    /// It will lift or tear when sprayed: the neck is under one cell.
    Fragile,
    /// The neck is under two cells.
    Thin,
    /// It holds.
    Stiff,
}

/// How stiff a sheet is, by its neck.
pub fn grade(f: &Fragility) -> (g: Grade)
    ensures
        g == if f.neck_thirds >= 6 {
            Grade::Stiff
        } else if f.neck_thirds >= 3 {
            Grade::Thin
        } else {
            Grade::Fragile
        },
{
    if f.neck_thirds >= 6 {
        Grade::Stiff
    } else if f.neck_thirds >= 3 {
        Grade::Thin
    } else {
        Grade::Fragile
    }
}

/// The percentage of a sheet that is cut away, halves to the even neighbour; a sheet without
/// cells has none.
pub open spec fn cut_percent(f: Fragility) -> int {
    if f.total == 0 {
        0
    } else {
        evenly(100 * f.removed, f.total as int)
    }
}

/// What is told of a sheet: how much is cut away, how wide its neck is, and whether it is
/// fragile.
pub open spec fn stiffness_words(suffix: Seq<char>, f: Fragility) -> Seq<char> {
    "layer "@ + suffix + ": cut "@ + decimal(cut_percent(f) as nat) + "%, neck "@ + fixed(
        evenly(10 * f.neck_thirds, 3),
        1,
    ) + "px"@ + if f.neck_thirds < 3 {
        "  <- fragile"@
    } else {
        ""@
    }
}

/// What is told of a sheet; see `stiffness_words`.
pub fn stiffness_line(suffix: &str, f: &Fragility) -> (s: String)
    requires
        f.removed <= f.total <= 0xff_ffff_ffff_ffff,
    ensures
        s@ == stiffness_words(suffix@, *f),
{
    let mut s: String = String::from_str("layer ");
    s.append(suffix);
    s.append(": cut ");
    let percent: u64 = if f.total == 0 {
        0
    } else {
        even_div(100 * f.removed as i128, f.total as i128) as u64
    };
    push_decimal(&mut s, percent);
    s.append("%, neck ");
    push_fixed(&mut s, even_div(10 * f.neck_thirds as i128, 3) as i64, 1);
    s.append("px");
    if f.neck_thirds < 3 {
        s.append("  <- fragile");
    } else {
        s.append("");
    }
    s
}

} // verus!
