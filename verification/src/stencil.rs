//! Stencils: an image in a few colours, one sheet for each.

use crate::bridge::{bridge_islands, bridged, tab_width, Warning};
use crate::cluster::{cluster_count, clustered, find_nearest, kmeans_lab, nearest_center};
use crate::grid::{mask_views, MAX_SIDE};
use crate::lab::{lab_bounded, lab_of, labs_of, pixels_to_lab, rgb_to_lab, Lab};
use crate::order::{order_by_key, ordered};
use crate::regions::{merge_small_regions, merged};
use crate::separation::{percent, percent_of, separated, snap_to_cmyk, Cmyk};
use crate::svg::{outline_text, polygons_to_svg};
use crate::text::{decimal, hex_byte, push_decimal, push_hex};
use crate::trace::{all_runs, ring_views, rings_of, rings_ok, trace, Point, Side};
use vstd::prelude::*;
use vstd::string::*;

verus! {

/// What a stencil is cut by.
#[derive(Clone, Copy, Debug, PartialEq, Eq, Structural)]
pub struct Params {
    /// How many colours to make.
    pub colors: usize,
    /// The width of bridge tabs, in cells.
    pub bridge_px: usize,
    /// Regions of fewer cells are absorbed by what surrounds them.
    pub min_area: usize,
    /// Rings of a smaller doubled area are left out.
    pub min_area2: u64,
    /// Whether islands are bridged to the frame.
    pub bridges: bool,
}

/// A colour of the palette.
#[derive(Clone, Copy, Debug, PartialEq, Eq, Structural)]
pub struct Color {
    pub r: u8,
    pub g: u8,
    pub b: u8,
    /// The inks that print it.
    pub cmyk: Cmyk,
    /// How it is seen.
    pub lab: Lab,
}

/// One traced layer: its colour, the rings round material and the rings round holes.
pub struct Layer {
    pub color: Color,
    pub outers: Vec<Vec<Point>>,
    pub holes: Vec<Vec<Point>>,
}

/// The palette entry for a colour.
pub open spec fn color_of(rgb: [u8; 3]) -> Color {
    let (r, g, b) = (rgb@[0], rgb@[1], rgb@[2]);
    Color { r, g, b, cmyk: separated(r, g, b), lab: lab_of(r, g, b) }
}

/// The luminance of a colour, in ten-thousandths of a channel's step.
pub open spec fn luminance(rgb: [u8; 3]) -> int {
    2126 * rgb@[0] + 7152 * rgb@[1] + 722 * rgb@[2]
}

/// The luminance of a palette entry; see `luminance`.
pub fn luma(c: &Color) -> (l: u32)
    ensures
        l == 2126 * c.r + 7152 * c.g + 722 * c.b,
{
    2126 * c.r as u32 + 7152 * c.g as u32 + 722 * c.b as u32
}

/// The luminance of every colour.
pub open spec fn luminances(centers: Seq<[u8; 3]>) -> Seq<i128> {
    Seq::new(centers.len(), |i: int| luminance(centers[i]) as i128)
}

/// Whether `centers` are the clusters that the pixels fall into; no pixels make one black.
pub open spec fn are_centers(pixels: Seq<[u8; 3]>, n: int, centers: Seq<[u8; 3]>) -> bool {
    if pixels.len() == 0 {
        centers == seq![[0u8, 0u8, 0u8]]
    } else {
        centers.len() == cluster_count(pixels.len() as int, n) && clustered(pixels, n, centers)
    }
}

/// Whether `palette` holds the clusters' colours, darkest first.
pub open spec fn sorted_palette(
    pixels: Seq<[u8; 3]>,
    n: int,
    centers: Seq<[u8; 3]>,
    order: Seq<usize>,
    palette: Seq<Color>,
) -> bool {
    &&& are_centers(pixels, n, centers)
    &&& ordered(luminances(centers), order, 0, centers.len() as int)
    &&& palette.len() == centers.len()
    &&& forall|k: int|
        0 <= k < palette.len() ==> #[trigger] palette[k] == color_of(centers[order[k] as int])
}

/// The seen colours of a palette.
pub open spec fn palette_labs(palette: Seq<Color>) -> Seq<Lab> {
    Seq::new(palette.len(), |k: int| palette[k].lab)
}

/// Whether `labels` names for every pixel the palette entry that looks nearest, the first
/// of several.
pub open spec fn labelled(pixels: Seq<[u8; 3]>, palette: Seq<Color>, labels: Seq<u8>) -> bool {
    &&& labels.len() == pixels.len()
    &&& forall|i: int|
        0 <= i < labels.len() ==> #[trigger] labels[i] as int == nearest_center(
            palette_labs(palette),
            labs_of(pixels)[i],
        ) % 256
}

/// Whether `palette` and `labels` are what quantizing the pixels to `n` colours gives.
pub open spec fn quantized(
    pixels: Seq<[u8; 3]>,
    n: int,
    palette: Seq<Color>,
    labels: Seq<u8>,
) -> bool {
    &&& exists|centers: Seq<[u8; 3]>, order: Seq<usize>|
        sorted_palette(pixels, n, centers, order, palette)
    &&& labelled(pixels, palette, labels)
}

/// Quantizes the pixels to `n` colours: the palette, darkest first, and each pixel's place
/// in it.
pub fn quantize(pixels: &[[u8; 3]], n: usize) -> (r: (Vec<Color>, Vec<u8>))
    ensures
        quantized(pixels@, n as int, r.0@, r.1@),
        r.0@.len() > 0,
{
    let centers: Vec<[u8; 3]> = kmeans_lab(pixels, n);
    let mut keys: Vec<i128> = Vec::new();
    for i in 0..centers.len()
        invariant
            keys@.len() == i,
            forall|j: int| 0 <= j < i ==> #[trigger] keys@[j] == luminance(centers@[j]),
    {
        let c: [u8; 3] = centers[i];
        keys.push(2126 * c[0] as i128 + 7152 * c[1] as i128 + 722 * c[2] as i128);
    }
    proof {
        assert(keys@ =~= luminances(centers@));
    }
    let order: Vec<usize> = order_by_key(keys.as_slice());
    let mut palette: Vec<Color> = Vec::new();
    let mut seen: Vec<Lab> = Vec::new();
    for k in 0..order.len()
        invariant
            order@.len() == centers@.len(),
            forall|a: int| 0 <= a < order@.len() ==> (#[trigger] order@[a]) < centers@.len(),
            palette@.len() == k,
            seen@.len() == k,
            forall|j: int|
                0 <= j < k ==> #[trigger] palette@[j] == color_of(centers@[order@[j] as int]),
            forall|j: int|
                0 <= j < k ==> #[trigger] seen@[j] == palette@[j].lab && lab_bounded(seen@[j]),
    {
        let c: [u8; 3] = centers[order[k]];
        let (rgb, cmyk) = snap_to_cmyk(c[0], c[1], c[2]);
        let lab: Lab = rgb_to_lab(rgb[0], rgb[1], rgb[2]);
        palette.push(Color { r: rgb[0], g: rgb[1], b: rgb[2], cmyk, lab });
        seen.push(lab);
    }
    proof {
        assert(seen@ =~= palette_labs(palette@));
        assert(sorted_palette(pixels@, n as int, centers@, order@, palette@));
    }
    let labs: Vec<Lab> = pixels_to_lab(pixels);
    let mut labels: Vec<u8> = Vec::new();
    for i in 0..labs.len()
        invariant
            labs@ == labs_of(pixels@),
            forall|i: int| 0 <= i < labs@.len() ==> lab_bounded(#[trigger] labs@[i]),
            seen@ == palette_labs(palette@),
            seen@.len() > 0,
            forall|j: int| 0 <= j < seen@.len() ==> lab_bounded(#[trigger] seen@[j]),
            labels@.len() == i,
            forall|j: int|
                0 <= j < i ==> #[trigger] labels@[j] as int == nearest_center(
                    palette_labs(palette@),
                    labs_of(pixels@)[j],
                ) % 256,
    {
        let b: usize = find_nearest(&seen, &labs[i]);
        labels.push((b % 256) as u8);
    }
    (palette, labels)
}

/// The mask of one label.
pub open spec fn mask_of(labels: Seq<u8>, i: int) -> Seq<bool> {
    Seq::new(labels.len(), |j: int| labels[j] as int == i)
}

/// The mask of layer `i`: material where the label is `i`, and nowhere else.
pub fn stack_mask(labels: &[u8], i: usize) -> (r: Vec<bool>)
    ensures
        r@ == mask_of(labels@, i as int),
{
    let mut r: Vec<bool> = Vec::new();
    for j in 0..labels.len()
        invariant
            r@.len() == j,
            forall|k: int| 0 <= k < j ==> #[trigger] r@[k] == (labels@[k] as int == i),
    {
        r.push(labels[j] as usize == i);
    }
    proof {
        assert(r@ =~= mask_of(labels@, i as int));
    }
    r
}

/// The masks part the sheet: every cell belongs to the mask of its label, and to that one
/// only.
pub proof fn lemma_masks_disjoint(labels: Seq<u8>, i: int, k: int, j: int)
    requires
        0 <= j < labels.len(),
    ensures
        mask_of(labels, labels[j] as int)[j],
        mask_of(labels, i)[j] && mask_of(labels, k)[j] ==> i == k,
{
}

/// Whether `b` is the raster `a` with its small regions absorbed.
pub open spec fn cleaned(a: Seq<u8>, b: Seq<u8>, w: int, min_area: int) -> bool {
    if min_area <= 1 {
        b == a
    } else {
        merged(a, b, w, min_area)
    }
}

/// Whether `keep` is the mask of layer `i`, bridged if asked for, and `told` what bridging
/// had to tell.
pub open spec fn layer_mask(
    labels: Seq<u8>,
    w: int,
    p: Params,
    i: int,
    keep: Seq<bool>,
    told: Seq<Warning>,
) -> bool {
    if p.bridges {
        bridged(mask_of(labels, i), keep, w, tab_width(p.bridge_px as int), told)
    } else {
        keep == mask_of(labels, i) && told.len() == 0
    }
}

/// All that was told, one layer after the other.
pub open spec fn told_upto(told: Seq<Seq<Warning>>, k: int) -> Seq<Warning>
    decreases k,
{
    if k <= 0 {
        Seq::empty()
    } else {
        told_upto(told, k - 1) + told[k - 1]
    }
}

/// Whether `masks` are the sheets that cutting the pixels leaves, and `told` what bridging
/// each had to tell.
pub open spec fn sheets(
    pixels: Seq<[u8; 3]>,
    w: int,
    p: Params,
    palette: Seq<Color>,
    raw: Seq<u8>,
    labels: Seq<u8>,
    masks: Seq<Seq<bool>>,
    told: Seq<Seq<Warning>>,
) -> bool {
    &&& quantized(pixels, p.colors as int, palette, raw)
    &&& cleaned(raw, labels, w, p.min_area as int)
    &&& masks.len() == palette.len()
    &&& told.len() == palette.len()
    &&& forall|i: int|
        0 <= i < masks.len() ==> layer_mask(labels, w, p, i, #[trigger] masks[i], told[i])
}

/// Cuts the sheet of layer `i`.
fn cut_sheet(
    labels: &Vec<u8>,
    w: usize,
    h: usize,
    p: &Params,
    i: usize,
    warn: &mut Vec<Warning>,
) -> (keep: Vec<bool>)
    requires
        labels@.len() == w * h,
    ensures
        keep@.len() == w * h,
        exists|told: Seq<Warning>| #[trigger]
            layer_mask(labels@, w as int, *p, i as int, keep@, told) && final(warn)@ == old(
                warn,
            )@ + told,
{
    let mut keep: Vec<bool> = stack_mask(labels.as_slice(), i);
    if p.bridges {
        let ghost mask = keep@;
        let ghost before = warn@;
        bridge_islands(&mut keep, w, h, p.bridge_px, warn);
        proof {
            let told = choose|t: Seq<Warning>| #[trigger]
                bridged(mask, keep@, w as int, tab_width(p.bridge_px as int), t) && warn@ == before
                    + t;
            assert(layer_mask(labels@, w as int, *p, i as int, keep@, told));
        }
    } else {
        proof {
            let told = Seq::<Warning>::empty();
            assert(layer_mask(labels@, w as int, *p, i as int, keep@, told));
            assert(warn@ =~= warn@ + told);
        }
    }
    keep
}

/// Cuts an image into sheets, darkest first: the palette, and for each colour the mask of
/// the material that its sheet keeps.
pub fn stencil_masks(
    pixels: &[[u8; 3]],
    w: usize,
    h: usize,
    p: &Params,
    warn: &mut Vec<Warning>,
) -> (r: (Vec<Color>, Vec<Vec<bool>>))
    requires
        pixels@.len() == w * h,
    ensures
        forall|k: int| 0 <= k < r.1@.len() ==> (#[trigger] r.1@[k])@.len() == w * h,
        exists|raw: Seq<u8>, labels: Seq<u8>, told: Seq<Seq<Warning>>| #[trigger]
            sheets(
                pixels@,
                w as int,
                *p,
                r.0@,
                raw,
                labels,
                mask_views(r.1@),
                told,
            ) && final(warn)@ == old(warn)@ + told_upto(told, told.len() as int),
{
    let ghost w0 = warn@;
    let (palette, mut labels) = quantize(pixels, p.colors);
    let ghost raw = labels@;
    merge_small_regions(&mut labels, w, h, p.min_area);
    let mut masks: Vec<Vec<bool>> = Vec::new();
    let ghost mut told: Seq<Seq<Warning>> = Seq::empty();
    for i in 0..palette.len()
        invariant
            labels@.len() == w * h,
            masks@.len() == i,
            told.len() == i,
            forall|k: int| 0 <= k < i ==> (#[trigger] masks@[k])@.len() == w * h,
            forall|k: int|
                0 <= k < i ==> layer_mask(
                    labels@,
                    w as int,
                    *p,
                    k,
                    (#[trigger] masks@[k])@,
                    told[k],
                ),
            warn@ == w0 + told_upto(told, i as int),
    {
        let ghost before = warn@;
        let ghost told0 = told;
        let keep: Vec<bool> = cut_sheet(&labels, w, h, p, i, warn);
        let ghost mask = keep@;
        masks.push(keep);
        proof {
            let here = choose|t: Seq<Warning>| #[trigger]
                layer_mask(labels@, w as int, *p, i as int, mask, t) && warn@ == before + t;
            told = told0.push(here);
            lemma_told_prefix(told0, told, i as int);
            assert(told[i as int] == here);
            assert(warn@ =~= w0 + told_upto(told, i + 1));
            assert(masks@[i as int]@ == mask);
        }
    }
    let r: (Vec<Color>, Vec<Vec<bool>>) = (palette, masks);
    proof {
        let views = mask_views(r.1@);
        assert forall|k: int| 0 <= k < views.len() implies layer_mask(
            labels@,
            w as int,
            *p,
            k,
            #[trigger] views[k],
            told[k],
        ) by {
            assert(r.1@[k]@ == views[k]);
        }
        assert(sheets(pixels@, w as int, *p, r.0@, raw, labels@, views, told));
    }
    r
}

proof fn lemma_told_prefix(a: Seq<Seq<Warning>>, b: Seq<Seq<Warning>>, k: int)
    requires
        0 <= k <= a.len() <= b.len(),
        forall|i: int| 0 <= i < a.len() ==> #[trigger] a[i] == b[i],
    ensures
        told_upto(a, k) == told_upto(b, k),
    decreases k,
{
    if k > 0 {
        lemma_told_prefix(a, b, k - 1);
        assert(a[k - 1] == b[k - 1]);
    }
}

/// Whether `layer` is the traced outline of a mask.
pub open spec fn traced(
    keep: Seq<bool>,
    w: int,
    h: int,
    min_area2: int,
    color: Color,
    layer: Layer,
) -> bool {
    &&& layer.color == color
    &&& exists|runs: Seq<Seq<Side>>| #[trigger]
        all_runs(keep, w, h, runs) && ring_views(layer.outers@) == rings_of(
            runs,
            min_area2,
            true,
            runs.len() as int,
        ) && ring_views(layer.holes@) == rings_of(runs, min_area2, false, runs.len() as int)
}

/// Whether `layers` are the traced outlines of the masks.
pub open spec fn all_traced(
    masks: Seq<Seq<bool>>,
    w: int,
    h: int,
    min_area2: int,
    palette: Seq<Color>,
    layers: Seq<Layer>,
) -> bool {
    &&& layers.len() == masks.len()
    &&& forall|k: int|
        0 <= k < layers.len() ==> traced(
            masks[k],
            w,
            h,
            min_area2,
            palette[k],
            #[trigger] layers[k],
        )
}

/// Cuts an image into sheets, darkest first, and traces each.
pub fn stencils(
    pixels: &[[u8; 3]],
    w: usize,
    h: usize,
    p: &Params,
    warn: &mut Vec<Warning>,
) -> (r: Vec<Layer>)
    requires
        pixels@.len() == w * h,
        w < MAX_SIDE,
        h < MAX_SIDE,
        4 * ((w + 1) * (h + 1)) <= usize::MAX,
    ensures
        exists|
            palette: Seq<Color>,
            raw: Seq<u8>,
            labels: Seq<u8>,
            masks: Seq<Seq<bool>>,
            told: Seq<Seq<Warning>>,
        | #[trigger]
            sheets(pixels@, w as int, *p, palette, raw, labels, masks, told) && all_traced(
                masks,
                w as int,
                h as int,
                p.min_area2 as int,
                palette,
                r@,
            ) && final(warn)@ == old(warn)@ + told_upto(told, told.len() as int),
        forall|k: int|
            0 <= k < r@.len() ==> rings_ok((#[trigger] r@[k]).outers@) && rings_ok(r@[k].holes@),
{
    let (palette, masks) = stencil_masks(pixels, w, h, p, warn);
    let ghost views = mask_views(masks@);
    let mut layers: Vec<Layer> = Vec::new();
    proof {
        let (raw, labels, told) = choose|
            raw: Seq<u8>,
            labels: Seq<u8>,
            told: Seq<Seq<Warning>>,
        | #[trigger]
            sheets(pixels@, w as int, *p, palette@, raw, labels, views, told) && warn@ == old(
                warn,
            )@ + told_upto(told, told.len() as int);
        assert(masks@.len() == views.len());
    }
    for k in 0..palette.len()
        invariant
            w < MAX_SIDE,
            h < MAX_SIDE,
            4 * ((w + 1) * (h + 1)) <= usize::MAX,
            palette@.len() == masks@.len(),
            views == mask_views(masks@),
            forall|j: int| 0 <= j < masks@.len() ==> (#[trigger] masks@[j])@.len() == w * h,
            layers@.len() == k,
            forall|j: int|
                0 <= j < k ==> traced(
                    views[j],
                    w as int,
                    h as int,
                    p.min_area2 as int,
                    palette@[j],
                    #[trigger] layers@[j],
                ),
            forall|j: int|
                0 <= j < k ==> rings_ok((#[trigger] layers@[j]).outers@) && rings_ok(
                    layers@[j].holes@,
                ),
    {
        let keep: &Vec<bool> = &masks[k];
        proof {
            assert(masks@[k as int]@.len() == w * h);
            assert(views[k as int] == keep@);
        }
        let (outers, holes) = trace(keep.as_slice(), w, h, p.min_area2);
        layers.push(Layer { color: palette[k], outers, holes });
    }
    layers
}

/// The last of the first `k` masks that covers cell `j`, or -1.
pub open spec fn top_layer(masks: Seq<Seq<bool>>, j: int, k: int) -> int
    decreases k,
{
    if k <= 0 {
        -1
    } else if j < masks[k - 1].len() && masks[k - 1][j] {
        k - 1
    } else {
        top_layer(masks, j, k - 1)
    }
}

/// How many sheets a preview shows: as many as have both a colour and a mask.
pub open spec fn shown(palette: Seq<Color>, masks: Seq<Seq<bool>>) -> int {
    if palette.len() < masks.len() {
        palette.len() as int
    } else {
        masks.len() as int
    }
}

/// The colour of the topmost sheet over cell `j`; bare paper is white.
pub open spec fn seen_at(palette: Seq<Color>, masks: Seq<Seq<bool>>, j: int) -> (u8, u8, u8) {
    let t = top_layer(masks, j, shown(palette, masks));
    if t < 0 {
        (255, 255, 255)
    } else {
        (palette[t].r, palette[t].g, palette[t].b)
    }
}

/// What the sprayed sheets look like together, pixel by pixel.
pub fn preview(palette: &[Color], masks: &[Vec<bool>], w: usize, h: usize) -> (r: Vec<[u8; 3]>)
    requires
        w * h <= usize::MAX,
    ensures
        r@.len() == w * h,
        forall|j: int|
            0 <= j < r@.len() ==> seen_at(palette@, mask_views(masks@), j) == (
                #[trigger] r@[j]@[0],
                r@[j]@[1],
                r@[j]@[2],
            ),
{
    let n: usize = w * h;
    let layers: usize = if palette.len() < masks.len() { palette.len() } else { masks.len() };
    let ghost views = mask_views(masks@);
    let mut out: Vec<[u8; 3]> = Vec::new();
    for j in 0..n
        invariant
            layers == shown(palette@, views),
            views == mask_views(masks@),
            out@.len() == j,
            forall|i: int|
                0 <= i < j ==> seen_at(palette@, views, i) == (
                    #[trigger] out@[i]@[0],
                    out@[i]@[1],
                    out@[i]@[2],
                ),
    {
        let mut k: usize = layers;
        let mut rgb: [u8; 3] = [255, 255, 255];
        let mut found: bool = false;
        while k > 0 && !found
            invariant
                layers == shown(palette@, views),
                views == mask_views(masks@),
                k <= layers,
                found ==> seen_at(palette@, views, j as int) == (rgb@[0], rgb@[1], rgb@[2]),
                !found ==> rgb@[0] == 255 && rgb@[1] == 255 && rgb@[2] == 255 && top_layer(
                    views,
                    j as int,
                    layers as int,
                ) == top_layer(views, j as int, k as int),
            decreases k + if found { 0int } else { 1int },
        {
            k = k - 1;
            let mask: &Vec<bool> = &masks[k];
            proof {
                assert(views[k as int] == mask@);
            }
            if j < mask.len() && mask[j] {
                rgb = [palette[k].r, palette[k].g, palette[k].b];
                found = true;
            }
        }
        out.push(rgb);
    }
    out
}

/// A colour as a web colour.
pub open spec fn web_color(c: Color) -> Seq<char> {
    seq!['#'] + hex_byte(c.r) + hex_byte(c.g) + hex_byte(c.b)
}

/// The inks of a colour in whole percent.
pub open spec fn cmyk_words(s: Cmyk) -> Seq<char> {
    seq!['C'] + decimal(percent_of(s.c, s.unit) as nat) + seq![' ', 'M'] + decimal(
        percent_of(s.m, s.unit) as nat,
    ) + seq![' ', 'Y'] + decimal(percent_of(s.y, s.unit) as nat) + seq![' ', 'K'] + decimal(
        percent_of(s.k, 255) as nat,
    )
}

/// A colour as a web colour.
pub fn fill_of(c: &Color) -> (s: String)
    ensures
        s@ == web_color(*c),
{
    let mut s: String = String::new();
    s.push('#');
    push_hex(&mut s, c.r);
    push_hex(&mut s, c.g);
    push_hex(&mut s, c.b);
    proof {
        assert(s@ =~= web_color(*c));
    }
    s
}

/// The document of a layer: its outlines in its colour, smoothed within `smooth_eps`.
pub fn layer_svg(layer: &Layer, w: usize, h: usize, smooth_eps: u32) -> (s: String)
    requires
        rings_ok(layer.outers@),
        rings_ok(layer.holes@),
    ensures
        s@ == outline_text(
            layer.outers@,
            layer.holes@,
            w as int,
            h as int,
            web_color(layer.color),
            smooth_eps as int,
        ),
{
    let fill: String = fill_of(&layer.color);
    polygons_to_svg(
        layer.outers.as_slice(),
        layer.holes.as_slice(),
        w,
        h,
        fill.as_str(),
        smooth_eps,
    )
}

/// The inks of a colour in whole percent, as in `C0 M0 Y0 K100`.
pub fn cmyk_str(c: &Cmyk) -> (s: String)
    requires
        c.wf(),
    ensures
        s@ == cmyk_words(*c),
{
    let mut s: String = String::new();
    s.push('C');
    push_decimal(&mut s, percent(c.c, c.unit) as u64);
    s.push(' ');
    s.push('M');
    push_decimal(&mut s, percent(c.m, c.unit) as u64);
    s.push(' ');
    s.push('Y');
    push_decimal(&mut s, percent(c.y, c.unit) as u64);
    s.push(' ');
    s.push('K');
    push_decimal(&mut s, percent(c.k, 255) as u64);
    proof {
        assert(s@ =~= cmyk_words(*c));
    }
    s
}

/// One line of the palette file.
pub open spec fn palette_line(i: int, c: Color) -> Seq<char> {
    decimal(i as nat) + seq!['\t'] + web_color(c) + seq!['\t'] + cmyk_words(c.cmyk) + seq!['\n']
}

/// The lines for the first `k` colours.
pub open spec fn palette_lines(palette: Seq<Color>, k: int) -> Seq<char>
    decreases k,
{
    if k <= 0 {
        Seq::empty()
    } else {
        palette_lines(palette, k - 1) + palette_line(k - 1, palette[k - 1])
    }
}

/// The palette file: the heading, then a line for each colour.
pub fn palette_text(heading: &str, palette: &[Color]) -> (s: String)
    requires
        forall|k: int| 0 <= k < palette@.len() ==> (#[trigger] palette@[k]).cmyk.wf(),
    ensures
        s@ == heading@ + palette_lines(palette@, palette@.len() as int),
{
    let mut s: String = String::from_str(heading);
    for i in 0..palette.len()
        invariant
            forall|k: int| 0 <= k < palette@.len() ==> (#[trigger] palette@[k]).cmyk.wf(),
            s@ == heading@ + palette_lines(palette@, i as int),
    {
        let c: Color = palette[i];
        let fill: String = fill_of(&c);
        let inks: String = cmyk_str(&c.cmyk);
        push_decimal(&mut s, i as u64);
        s.push('\t');
        s.append(fill.as_str());
        s.push('\t');
        s.append(inks.as_str());
        s.push('\n');
        proof {
            assert(s@ =~= heading@ + palette_lines(palette@, i + 1));
        }
    }
    s
}

/// The heading of the palette file beside traced sheets.
pub fn palette_heading() -> (s: &'static str)
    ensures
        s@ == "layer\trgb_hex\tcmyk\n"@,
{
    "layer\trgb_hex\tcmyk\n"
}

/// The heading of the palette file beside raster sheets.
pub fn raster_heading() -> (s: &'static str)
    ensures
        s@ == "layer\trgb_hex\n"@,
{
    "layer\trgb_hex\n"
}

/// The four bytes of cell `j` of a raster sheet: the colour where material stays, nothing
/// where it is cut away.
pub open spec fn sheet_byte(c: Color, keep: bool, ch: int) -> u8 {
    if !keep {
        0
    } else if ch == 0 {
        c.r
    } else if ch == 1 {
        c.g
    } else if ch == 2 {
        c.b
    } else {
        255
    }
}

/// A raster sheet: red, green, blue and opacity of every cell.
pub fn sheet_pixels(c: &Color, mask: &[bool]) -> (r: Vec<u8>)
    requires
        4 * mask@.len() <= usize::MAX,
    ensures
        r@.len() == 4 * mask@.len(),
        forall|j: int, ch: int|
            0 <= j < mask@.len() && 0 <= ch < 4 ==> #[trigger] r@[4 * j + ch] == sheet_byte(
                *c,
                mask@[j],
                ch,
            ),
{
    let mut r: Vec<u8> = Vec::new();
    for j in 0..mask.len()
        invariant
            4 * mask@.len() <= usize::MAX,
            r@.len() == 4 * j,
            forall|i: int, ch: int|
                0 <= i < j && 0 <= ch < 4 ==> #[trigger] r@[4 * i + ch] == sheet_byte(
                    *c,
                    mask@[i],
                    ch,
                ),
    {
        let keep: bool = mask[j];
        let ghost r0 = r@;
        r.push(if keep { c.r } else { 0 });
        r.push(if keep { c.g } else { 0 });
        r.push(if keep { c.b } else { 0 });
        r.push(if keep { 255 } else { 0 });
        proof {
            assert forall|i: int, ch: int| 0 <= i < j + 1 && 0 <= ch < 4 implies #[trigger] r@[4 * i
                + ch] == sheet_byte(*c, mask@[i], ch) by {
                if i < j {
                    assert(r@[4 * i + ch] == r0[4 * i + ch]);
                } else {
                    assert(ch == 0 || ch == 1 || ch == 2 || ch == 3);
                }
            }
        }
    }
    r
}

} // verus!
