//! Reading a map between its cells.

use crate::lattice::{MAX_CANVAS, MAX_SPACING, PX};
use crate::screen::{tones_ok, FULL};
use crate::separation::Share;
use vstd::prelude::*;

verus! {

/// The place nearest to `x` on a side of `n` cells.
pub open spec fn held(x: int, n: int) -> int {
    if x < 0 {
        0
    } else if x > (n - 1) * PX {
        (n - 1) * PX
    } else {
        x
    }
}

/// The value between two cells, a share of `f` millionths from the first.
pub open spec fn between(a: int, b: int, f: int) -> int {
    a * (PX - f) + b * f
}

/// The values of the four cells around a place of the canvas, each weighed by its nearness;
/// all weights together are a million times a million.
pub open spec fn blend(field: Seq<i64>, w: int, h: int, x: int, y: int) -> int {
    let (hx, hy) = (held(x, w), held(y, h));
    let (x0, y0) = (hx / (PX as int), hy / (PX as int));
    let x1 = if x0 + 1 < w {
        x0 + 1
    } else {
        x0
    };
    let y1 = if y0 + 1 < h {
        y0 + 1
    } else {
        y0
    };
    let (fx, fy) = (hx % (PX as int), hy % (PX as int));
    let top = between(field[y0 * w + x0] as int, field[y0 * w + x1] as int, fx);
    let bottom = between(field[y1 * w + x0] as int, field[y1 * w + x1] as int, fx);
    between(top, bottom, fy)
}

/// The value of a field at a place of the canvas, from the four cells around it.
pub open spec fn sampled(field: Seq<i64>, w: int, h: int, x: int, y: int) -> int {
    blend(field, w, h, x, y) / 1_000_000_000_000
}

/// Whether all distances of a field lie between zero and `most`.
pub open spec fn field_ok(field: Seq<i64>, most: int) -> bool {
    forall|i: int| 0 <= i < field.len() ==> 0 <= #[trigger] field[i] <= most
}

fn hold(x: i64, n: usize) -> (r: i64)
    requires
        0 < n <= MAX_CANVAS,
    ensures
        r == held(x as int, n as int),
        0 <= r <= (n - 1) * PX,
{
    let top: i64 = (n as i64 - 1) * PX;
    if x < 0 {
        0
    } else if x > top {
        top
    } else {
        x
    }
}

fn mix(a: i128, b: i128, f: i64) -> (r: i128)
    requires
        0 <= a <= 0x400_0000_0000 * 1_000_000,
        0 <= b <= 0x400_0000_0000 * 1_000_000,
        0 <= f < PX,
    ensures
        r == between(a as int, b as int, f as int),
        forall|m: int| 0 <= a <= m && 0 <= b <= m ==> 0 <= r <= #[trigger] (m * PX),
{
    let g: i128 = f as i128;
    proof {
        lemma_mix(a as int, b as int, g as int, 0x400_0000_0000int * 1_000_000);
        assert forall|m: int| 0 <= a <= m && 0 <= b <= m implies 0 <= between(
            a as int,
            b as int,
            f as int,
        ) <= #[trigger] (m * PX) by {
            lemma_mix(a as int, b as int, g as int, m);
        }
    }
    a * (1_000_000 - g) + b * g
}

proof fn lemma_mix(a: int, b: int, f: int, m: int)
    by (nonlinear_arith)
    requires
        0 <= a <= m,
        0 <= b <= m,
        0 <= f < 1_000_000,
    ensures
        0 <= a * (1_000_000 - f) <= m * (1_000_000 - f),
        0 <= b * f <= m * f,
        m * (1_000_000 - f) + m * f == m * 1_000_000,
{
}

/// The value of a field at a place of the canvas; see `sampled`.
pub fn sample(field: &[i64], w: usize, h: usize, x: i64, y: i64) -> (v: i64)
    requires
        0 < w <= MAX_CANVAS,
        0 < h <= MAX_CANVAS,
        field@.len() == w * h,
        field_ok(field@, 4 * MAX_SPACING),
    ensures
        v == sampled(field@, w as int, h as int, x as int, y as int),
        0 <= v <= 4 * MAX_SPACING,
{
    let len: usize = field.len();
    let hx: i64 = hold(x, w);
    let hy: i64 = hold(y, h);
    let x0: usize = (hx / PX) as usize;
    let y0: usize = (hy / PX) as usize;
    let x1: usize = if x0 + 1 < w { x0 + 1 } else { x0 };
    let y1: usize = if y0 + 1 < h { y0 + 1 } else { y0 };
    let fx: i64 = hx % PX;
    let fy: i64 = hy % PX;
    proof {
        lemma_index(w as int, h as int, x0 as int, y0 as int);
        lemma_index(w as int, h as int, x1 as int, y0 as int);
        lemma_index(w as int, h as int, x0 as int, y1 as int);
        lemma_index(w as int, h as int, x1 as int, y1 as int);
    }
    let top: i128 = mix(field[y0 * w + x0] as i128, field[y0 * w + x1] as i128, fx);
    let bottom: i128 = mix(field[y1 * w + x0] as i128, field[y1 * w + x1] as i128, fx);
    proof {
        assert(0x400_0000_0000 * PX == 0x400_0000_0000 * 1_000_000);
        assert(top <= 0x400_0000_0000int * PX);
        assert(bottom <= 0x400_0000_0000int * PX);
    }
    let all: i128 = mix(top, bottom, fy);
    proof {
        assert(all <= (0x400_0000_0000int * 1_000_000) * PX);
    }
    (all / 1_000_000_000_000) as i64
}

proof fn lemma_index(w: int, h: int, x: int, y: int)
    by (nonlinear_arith)
    requires
        0 <= x < w,
        0 <= y < h,
    ensures
        0 <= y * w <= y * w + x < w * h,
{
}

/// What is read lies within the bounds of the map.
pub proof fn lemma_sampled(field: Seq<i64>, w: int, h: int, x: int, y: int, m: int)
    requires
        0 < w,
        0 < h,
        field.len() == w * h,
        field_ok(field, m),
    ensures
        0 <= sampled(field, w, h, x, y) <= m,
{
    let (hx, hy) = (held(x, w), held(y, h));
    let (x0, y0) = (hx / (PX as int), hy / (PX as int));
    let x1 = if x0 + 1 < w {
        x0 + 1
    } else {
        x0
    };
    let y1 = if y0 + 1 < h {
        y0 + 1
    } else {
        y0
    };
    let (fx, fy) = (hx % (PX as int), hy % (PX as int));
    lemma_index(w, h, x0, y0);
    lemma_index(w, h, x1, y0);
    lemma_index(w, h, x0, y1);
    lemma_index(w, h, x1, y1);
    let (a, b) = (field[y0 * w + x0] as int, field[y0 * w + x1] as int);
    let (c, d) = (field[y1 * w + x0] as int, field[y1 * w + x1] as int);
    lemma_mix(a, b, fx, m);
    lemma_mix(c, d, fx, m);
    lemma_mix(between(a, b, fx), between(c, d, fx), fy, m * 1_000_000);
    let all = between(between(a, b, fx), between(c, d, fx), fy);
    assert(0 <= all <= m * 1_000_000 * 1_000_000);
    assert(sampled(field, w, h, x, y) == all / 1_000_000_000_000);
}

/// Where all cells are the same, so is everything between them.
pub proof fn lemma_sampled_flat(field: Seq<i64>, w: int, h: int, x: int, y: int, v: i64)
    requires
        0 < w,
        0 < h,
        field.len() == w * h,
        forall|i: int| 0 <= i < field.len() ==> #[trigger] field[i] == v,
    ensures
        sampled(field, w, h, x, y) == v,
{
    let (hx, hy) = (held(x, w), held(y, h));
    let (x0, y0) = (hx / (PX as int), hy / (PX as int));
    let x1 = if x0 + 1 < w {
        x0 + 1
    } else {
        x0
    };
    let y1 = if y0 + 1 < h {
        y0 + 1
    } else {
        y0
    };
    let (fx, fy) = (hx % (PX as int), hy % (PX as int));
    lemma_index(w, h, x0, y0);
    lemma_index(w, h, x1, y0);
    lemma_index(w, h, x0, y1);
    lemma_index(w, h, x1, y1);
    let a = v as int;
    lemma_between_same(a, fx);
    lemma_between_same(a * 1_000_000, fy);
}

proof fn lemma_between_same(a: int, f: int)
    ensures
        between(a, a, f) == a * 1_000_000,
{
    assert(a * (1_000_000 - f) + a * f == a * 1_000_000) by (nonlinear_arith);
}

/// At a cell's own place its value is read.
pub proof fn lemma_sampled_at_cell(field: Seq<i64>, w: int, h: int, x: int, y: int)
    requires
        0 <= x < w,
        0 <= y < h,
        field.len() == w * h,
    ensures
        sampled(field, w, h, x * PX, y * PX) == field[y * w + x],
{
    assert(held(x * PX, w) == x * PX && held(y * PX, h) == y * PX);
    let a = field[y * w + x] as int;
    let x1 = if x + 1 < w {
        x + 1
    } else {
        x
    };
    let y1 = if y + 1 < h {
        y + 1
    } else {
        y
    };
    let b = field[y * w + x1] as int;
    let c = between(field[y1 * w + x] as int, field[y1 * w + x1] as int, 0);
    assert(between(a, b, 0) == a * 1_000_000 && between(a * 1_000_000, c, 0) == a * 1_000_000
        * 1_000_000) by {
        assert(b * 0 == 0 && c * 0 == 0) by (nonlinear_arith);
    }
}

/// Reads a map at all the given places.
pub fn sample_all(map: &[i64], w: usize, h: usize, places: &[(i64, i64)]) -> (v: Vec<i64>)
    requires
        0 < w <= MAX_CANVAS,
        0 < h <= MAX_CANVAS,
        map@.len() == w * h,
        tones_ok(map@),
    ensures
        v@.len() == places@.len(),
        tones_ok(v@),
        forall|i: int|
            0 <= i < v@.len() ==> #[trigger] v@[i] == sampled(
                map@,
                w as int,
                h as int,
                places@[i].0 as int,
                places@[i].1 as int,
            ),
{
    let mut v: Vec<i64> = Vec::new();
    for i in 0..places.len()
        invariant
            0 < w <= MAX_CANVAS,
            0 < h <= MAX_CANVAS,
            map@.len() == w * h,
            field_ok(map@, FULL as int),
            v@.len() == i,
            tones_ok(v@),
            forall|j: int|
                0 <= j < i ==> #[trigger] v@[j] == sampled(
                    map@,
                    w as int,
                    h as int,
                    places@[j].0 as int,
                    places@[j].1 as int,
                ),
    {
        let (x, y) = places[i];
        proof {
            assert(field_ok(map@, 4 * MAX_SPACING));
            lemma_sampled(map@, w as int, h as int, x as int, y as int, FULL as int);
        }
        v.push(sample(map, w, h, x, y));
    }
    v
}

/// An ink's share as a tone.
pub open spec fn share_tone(s: Share) -> int {
    s.part * FULL / s.whole as int
}

/// The density of an ink as a map of tones.
pub fn density_map(density: &[Share]) -> (map: Vec<i64>)
    requires
        forall|i: int|
            0 <= i < density@.len() ==> (#[trigger] density@[i]).part <= density@[i].whole
                && density@[i].whole > 0,
    ensures
        map@.len() == density@.len(),
        forall|i: int| 0 <= i < map@.len() ==> #[trigger] map@[i] == share_tone(density@[i]),
        tones_ok(map@),
{
    let mut map: Vec<i64> = Vec::new();
    for i in 0..density.len()
        invariant
            forall|i: int|
                0 <= i < density@.len() ==> (#[trigger] density@[i]).part <= density@[i].whole
                    && density@[i].whole > 0,
            map@.len() == i,
            forall|j: int| 0 <= j < i ==> #[trigger] map@[j] == share_tone(density@[j]),
            tones_ok(map@),
    {
        let s: Share = density[i];
        proof {
            let (a, b) = (s.part as int, s.whole as int);
            assert(0 <= a * 0x100_0000_0000 / b <= 0x100_0000_0000) by (nonlinear_arith)
                requires
                    0 <= a <= b,
                    b > 0,
            ;
        }
        map.push(s.part as i64 * FULL / s.whole as i64);
    }
    map
}

/// One channel of the pixels of an image.
pub open spec fn channel_of(px: Seq<[u8; 3]>, ch: int) -> Seq<i64> {
    Seq::new(px.len(), |i: int| px[i]@[ch] as i64)
}

/// A channel of an image at a place between its pixels, rounded to nearest.
pub open spec fn pixel_at(px: Seq<[u8; 3]>, w: int, h: int, x: int, y: int, ch: int) -> int {
    let v = blend(channel_of(px, ch), w, h, x, y);
    (2 * v + 1_000_000_000_000) / 2_000_000_000_000
}

fn channel_at(px: &[[u8; 3]], w: usize, h: usize, x: i64, y: i64, ch: usize) -> (v: u8)
    requires
        0 < w <= MAX_CANVAS,
        0 < h <= MAX_CANVAS,
        px@.len() == w * h,
        ch < 3,
    ensures
        v == pixel_at(px@, w as int, h as int, x as int, y as int, ch as int),
{
    let len: usize = px.len();
    let hx: i64 = hold(x, w);
    let hy: i64 = hold(y, h);
    let x0: usize = (hx / PX) as usize;
    let y0: usize = (hy / PX) as usize;
    let x1: usize = if x0 + 1 < w { x0 + 1 } else { x0 };
    let y1: usize = if y0 + 1 < h { y0 + 1 } else { y0 };
    let fx: i64 = hx % PX;
    let fy: i64 = hy % PX;
    proof {
        lemma_index(w as int, h as int, x0 as int, y0 as int);
        lemma_index(w as int, h as int, x1 as int, y0 as int);
        lemma_index(w as int, h as int, x0 as int, y1 as int);
        lemma_index(w as int, h as int, x1 as int, y1 as int);
    }
    let top: i128 = mix(px[y0 * w + x0][ch] as i128, px[y0 * w + x1][ch] as i128, fx);
    let bottom: i128 = mix(px[y1 * w + x0][ch] as i128, px[y1 * w + x1][ch] as i128, fx);
    proof {
        assert(top <= 255int * PX);
        assert(bottom <= 255int * PX);
    }
    let all: i128 = mix(top, bottom, fy);
    proof {
        assert(all <= (255int * 1_000_000) * PX);
        assert(all == blend(
            channel_of(px@, ch as int),
            w as int,
            h as int,
            x as int,
            y as int,
        ));
    }
    ((2 * all + 1_000_000_000_000) / 2_000_000_000_000) as u8
}

/// Reads the pixels of an image at all the given places; see `pixel_at`.
pub fn sample_pixels(px: &[[u8; 3]], w: usize, h: usize, places: &[(i64, i64)]) -> (v: Vec<
    [u8; 3],
>)
    requires
        0 < w <= MAX_CANVAS,
        0 < h <= MAX_CANVAS,
        px@.len() == w * h,
    ensures
        v@.len() == places@.len(),
        forall|i: int, ch: int|
            0 <= i < v@.len() && 0 <= ch < 3 ==> #[trigger] v@[i]@[ch] == pixel_at(
                px@,
                w as int,
                h as int,
                places@[i].0 as int,
                places@[i].1 as int,
                ch,
            ),
{
    let mut v: Vec<[u8; 3]> = Vec::new();
    for i in 0..places.len()
        invariant
            0 < w <= MAX_CANVAS,
            0 < h <= MAX_CANVAS,
            px@.len() == w * h,
            v@.len() == i,
            forall|j: int, ch: int|
                0 <= j < i && 0 <= ch < 3 ==> #[trigger] v@[j]@[ch] == pixel_at(
                    px@,
                    w as int,
                    h as int,
                    places@[j].0 as int,
                    places@[j].1 as int,
                    ch,
                ),
    {
        let (x, y) = places[i];
        let r: u8 = channel_at(px, w, h, x, y, 0);
        let g: u8 = channel_at(px, w, h, x, y, 1);
        let b: u8 = channel_at(px, w, h, x, y, 2);
        let ghost before = v@;
        v.push([r, g, b]);
        proof {
            assert forall|j: int, ch: int| 0 <= j < i + 1 && 0 <= ch < 3 implies
                #[trigger] v@[j]@[ch] == pixel_at(
                px@,
                w as int,
                h as int,
                places@[j].0 as int,
                places@[j].1 as int,
                ch,
            ) by {
                if j < i {
                    assert(v@[j] == before[j]);
                } else {
                    assert(ch == 0 || ch == 1 || ch == 2);
                }
            }
        }
    }
    v
}

/// At the middle of a pixel its own colour is read, whatever the shape of the image.
pub proof fn lemma_pixel_itself(px: Seq<[u8; 3]>, w: int, h: int, x: int, y: int, ch: int)
    requires
        0 <= x < w,
        0 <= y < h,
        px.len() == w * h,
        0 <= ch < 3,
    ensures
        pixel_at(px, w, h, x * 1_000_000, y * 1_000_000, ch) == px[y * w + x]@[ch],
{
    let field = channel_of(px, ch);
    lemma_index(w, h, x, y);
    let v = px[y * w + x]@[ch] as int;
    assert(field[y * w + x] == v);
    assert(held(x * PX, w) == x * PX && held(y * PX, h) == y * PX);
    let x1 = if x + 1 < w {
        x + 1
    } else {
        x
    };
    let y1 = if y + 1 < h {
        y + 1
    } else {
        y
    };
    let b = field[y * w + x1] as int;
    let c = between(field[y1 * w + x] as int, field[y1 * w + x1] as int, 0);
    assert(between(v, b, 0) == v * 1_000_000 && between(v * 1_000_000, c, 0) == v * 1_000_000
        * 1_000_000) by {
        assert(b * 0 == 0 && c * 0 == 0) by (nonlinear_arith);
    }
}

/// Between the middles of two pixels of a row, or of a column, what is read goes over from
/// one colour to the other in proportion to the way, rounded to nearest.
pub proof fn lemma_pixels_between(
    px: Seq<[u8; 3]>,
    w: int,
    h: int,
    x: int,
    y: int,
    f: int,
    ch: int,
)
    requires
        0 <= x < w,
        0 <= y < h,
        px.len() == w * h,
        0 <= ch < 3,
        0 <= f < 1_000_000,
    ensures
        x + 1 < w ==> {
            let (a, b) = (px[y * w + x]@[ch], px[y * w + x + 1]@[ch]);
            let v = pixel_at(px, w, h, x * 1_000_000 + f, y * 1_000_000, ch);
            2_000_000 * v - 1_000_000 <= 2 * (1_000_000 * a + (b - a) * f) < 2_000_000 * v + 1_000_000
        },
        y + 1 < h ==> {
            let (a, b) = (px[y * w + x]@[ch], px[(y + 1) * w + x]@[ch]);
            let v = pixel_at(px, w, h, x * 1_000_000, y * 1_000_000 + f, ch);
            2_000_000 * v - 1_000_000 <= 2 * (1_000_000 * a + (b - a) * f) < 2_000_000 * v + 1_000_000
        },
{
    let field = channel_of(px, ch);
    lemma_index(w, h, x, y);
    let a = px[y * w + x]@[ch] as int;
    assert(field[y * w + x] == a);
    let x1 = if x + 1 < w {
        x + 1
    } else {
        x
    };
    let y1 = if y + 1 < h {
        y + 1
    } else {
        y
    };
    lemma_index(w, h, x1, y);
    lemma_index(w, h, x, y1);
    lemma_index(w, h, x1, y1);
    if x + 1 < w {
        let b = px[y * w + x + 1]@[ch] as int;
        assert(field[y * w + x1] == b);
        assert(held(x * PX + f, w) == x * PX + f && held(y * PX, h) == y * PX);
        assert((x * PX + f) / (PX as int) == x && (x * PX + f) % (PX as int) == f);
        let c = between(field[y1 * w + x] as int, field[y1 * w + x1] as int, f);
        let t = between(a, b, f);
        assert(t == 1_000_000 * a + (b - a) * f) by (nonlinear_arith)
            requires
                t == a * (1_000_000 - f) + b * f,
        ;
        assert(c * 0 == 0) by (nonlinear_arith);
        assert(blend(field, w, h, x * PX + f, y * PX) == t * 1_000_000);
    }
    if y + 1 < h {
        let b = px[(y + 1) * w + x]@[ch] as int;
        assert(field[y1 * w + x] == b);
        assert(held(x * PX, w) == x * PX && held(y * PX + f, h) == y * PX + f);
        assert((y * PX + f) / (PX as int) == y && (y * PX + f) % (PX as int) == f);
        let (r, q) = (field[y * w + x1] as int, field[y1 * w + x1] as int);
        assert(r * 0 == 0 && q * 0 == 0) by (nonlinear_arith);
        let (m, n) = (between(a, r, 0), between(b, q, 0));
        assert(m == a * 1_000_000 && n == b * 1_000_000);
        let t = between(m, n, f);
        assert(t == 1_000_000 * (1_000_000 * a + (b - a) * f)) by (nonlinear_arith)
            requires
                t == m * (1_000_000 - f) + n * f,
                m == a * 1_000_000,
                n == b * 1_000_000,
        ;
        assert(blend(field, w, h, x * PX, y * PX + f) == t);
    }
}

/// Beyond the outermost middles of an image the colour of the nearest pixel is read.
pub proof fn lemma_pixels_beyond(px: Seq<[u8; 3]>, w: int, h: int, x: int, y: int, ch: int)
    requires
        0 < w,
        0 < h,
    ensures
        x < 0 ==> pixel_at(px, w, h, x, y, ch) == pixel_at(px, w, h, 0, y, ch),
        y < 0 ==> pixel_at(px, w, h, x, y, ch) == pixel_at(px, w, h, x, 0, ch),
        x > (w - 1) * 1_000_000 ==> pixel_at(px, w, h, x, y, ch) == pixel_at(
            px,
            w,
            h,
            (w - 1) * 1_000_000,
            y,
            ch,
        ),
        y > (h - 1) * 1_000_000 ==> pixel_at(px, w, h, x, y, ch) == pixel_at(
            px,
            w,
            h,
            x,
            (h - 1) * 1_000_000,
            ch,
        ),
{
}

} // verus!
