//! Smoothing that keeps edges: every pixel becomes the mean of those around it, each weighed
//! by how near and how alike it is.

use crate::lattice::MAX_CANVAS;
use vstd::prelude::*;

verus! {

/// The largest weight.
pub const MAX_SHARE: i64 = 0x4000_0000;

/// The farthest that a pixel reaches.
pub const MAX_REACH: usize = 0x1000;

/// The greatest squared difference of two colours.
pub const MAX_UNLIKE: usize = 195_075;

/// The pixels around one at `(x, y)` are taken row by row; this is number `k`.
pub open spec fn around(x: int, y: int, rad: int, k: int) -> (int, int) {
    let side = 2 * rad + 1;
    (x + k % side - rad, y + k / side - rad)
}

/// The squared difference of two colours.
pub open spec fn unlike(a: [u8; 3], b: [u8; 3]) -> int {
    (a@[0] - b@[0]) * (a@[0] - b@[0]) + (a@[1] - b@[1]) * (a@[1] - b@[1]) + (a@[2] - b@[2]) * (
    a@[2] - b@[2])
}

/// The weight of number `k` of the pixels around one: its nearness times its likeness, and
/// nothing off the image.
pub open spec fn weight(
    px: Seq<[u8; 3]>,
    w: int,
    h: int,
    rad: int,
    near: Seq<i64>,
    alike: Seq<i64>,
    x: int,
    y: int,
    k: int,
) -> int {
    let q = around(x, y, rad, k);
    if 0 <= q.0 < w && 0 <= q.1 < h {
        near[k] * alike[unlike(px[q.1 * w + q.0], px[y * w + x])]
    } else {
        0
    }
}

/// The colour of number `k` of the pixels around one.
pub open spec fn colour(
    px: Seq<[u8; 3]>,
    w: int,
    rad: int,
    x: int,
    y: int,
    ch: int,
    k: int,
) -> int {
    let q = around(x, y, rad, k);
    px[q.1 * w + q.0]@[ch] as int
}

/// The weights of the first `k` pixels around one, added up.
pub open spec fn weights_to(
    px: Seq<[u8; 3]>,
    w: int,
    h: int,
    rad: int,
    near: Seq<i64>,
    alike: Seq<i64>,
    x: int,
    y: int,
    k: int,
) -> int
    decreases k,
{
    if k <= 0 {
        0
    } else {
        weights_to(px, w, h, rad, near, alike, x, y, k - 1) + weight(
            px,
            w,
            h,
            rad,
            near,
            alike,
            x,
            y,
            k - 1,
        )
    }
}

/// The weighted colours of the first `k` pixels around one, added up.
pub open spec fn colours_to(
    px: Seq<[u8; 3]>,
    w: int,
    h: int,
    rad: int,
    near: Seq<i64>,
    alike: Seq<i64>,
    x: int,
    y: int,
    ch: int,
    k: int,
) -> int
    decreases k,
{
    if k <= 0 {
        0
    } else {
        colours_to(px, w, h, rad, near, alike, x, y, ch, k - 1) + weight(
            px,
            w,
            h,
            rad,
            near,
            alike,
            x,
            y,
            k - 1,
        ) * colour(px, w, rad, x, y, ch, k - 1)
    }
}

/// A pixel, smoothed: the weighted mean, rounded to nearest.
pub open spec fn smoothed_at(
    px: Seq<[u8; 3]>,
    w: int,
    h: int,
    rad: int,
    near: Seq<i64>,
    alike: Seq<i64>,
    x: int,
    y: int,
    ch: int,
) -> int {
    let n = (2 * rad + 1) * (2 * rad + 1);
    let (a, t) = (
        colours_to(px, w, h, rad, near, alike, x, y, ch, n),
        weights_to(px, w, h, rad, near, alike, x, y, n),
    );
    (2 * a + t) / (2 * t)
}

/// Whether the weights can be smoothed with: by nearness one for every pixel around, by
/// likeness one for every squared difference, and the pixel itself counts.
pub open spec fn weights_ok(rad: int, near: Seq<i64>, alike: Seq<i64>) -> bool {
    &&& 0 <= rad <= MAX_REACH
    &&& near.len() == (2 * rad + 1) * (2 * rad + 1)
    &&& alike.len() == MAX_UNLIKE + 1
    &&& forall|k: int| 0 <= k < near.len() ==> 0 <= #[trigger] near[k] <= MAX_SHARE
    &&& forall|k: int| 0 <= k < alike.len() ==> 0 <= #[trigger] alike[k] <= MAX_SHARE
    &&& near[rad * (2 * rad + 1) + rad] > 0
    &&& alike[0] > 0
}

proof fn lemma_unlike(a: [u8; 3], b: [u8; 3])
    ensures
        0 <= unlike(a, b) <= MAX_UNLIKE,
        a == b ==> unlike(a, b) == 0,
{
    lemma_diff(a@[0] - b@[0]);
    lemma_diff(a@[1] - b@[1]);
    lemma_diff(a@[2] - b@[2]);
}

proof fn lemma_diff(d: int)
    by (nonlinear_arith)
    requires
        -255 <= d <= 255,
    ensures
        0 <= d * d <= 65_025,
        d == 0 ==> d * d == 0,
{
}

proof fn lemma_weight(a: int, b: int)
    by (nonlinear_arith)
    requires
        0 <= a <= 0x4000_0000,
        0 <= b <= 0x4000_0000,
    ensures
        0 <= a * b <= 0x1000_0000_0000_0000,
        a > 0 && b > 0 ==> a * b > 0,
{
}

pub proof fn lemma_place(w: int, h: int, x: int, y: int)
    by (nonlinear_arith)
    requires
        0 <= x < w,
        0 <= y < h,
    ensures
        0 <= y * w <= y * w + x < w * h,
{
}

/// The sums stay within what the weights and colours allow.
pub proof fn lemma_sums(
    px: Seq<[u8; 3]>,
    w: int,
    h: int,
    rad: int,
    near: Seq<i64>,
    alike: Seq<i64>,
    x: int,
    y: int,
    ch: int,
    k: int,
)
    requires
        weights_ok(rad, near, alike),
        px.len() == w * h,
        0 <= x < w,
        0 <= y < h,
        0 <= ch < 3,
        0 <= k <= near.len(),
    ensures
        0 <= weights_to(px, w, h, rad, near, alike, x, y, k) <= k * 0x1000_0000_0000_0000,
        0 <= colours_to(px, w, h, rad, near, alike, x, y, ch, k) <= 255 * weights_to(
            px,
            w,
            h,
            rad,
            near,
            alike,
            x,
            y,
            k,
        ),
        k > rad * (2 * rad + 1) + rad ==> weights_to(px, w, h, rad, near, alike, x, y, k) > 0,
    decreases k,
{
    if k > 0 {
        lemma_sums(px, w, h, rad, near, alike, x, y, ch, k - 1);
        let q = around(x, y, rad, k - 1);
        let g = weight(px, w, h, rad, near, alike, x, y, k - 1);
        if 0 <= q.0 < w && 0 <= q.1 < h {
            lemma_unlike(px[q.1 * w + q.0], px[y * w + x]);
            lemma_weight(
                near[k - 1] as int,
                alike[unlike(px[q.1 * w + q.0], px[y * w + x])] as int,
            );
        }
        let c = colour(px, w, rad, x, y, ch, k - 1);
        assert(0 <= g * c <= 255 * g) by (nonlinear_arith)
            requires
                0 <= g,
                0 <= c <= 255,
        ;
        assert(k * 0x1000_0000_0000_0000 == (k - 1) * 0x1000_0000_0000_0000
            + 0x1000_0000_0000_0000) by (nonlinear_arith);
        let mid = rad * (2 * rad + 1) + rad;
        if k - 1 == mid {
            let side = 2 * rad + 1;
            assert(rad * side == side * rad) by (nonlinear_arith);
            vstd::arithmetic::div_mod::lemma_fundamental_div_mod_converse(mid, side, rad, rad);
            assert(q == (x, y));
            lemma_unlike(px[y * w + x], px[y * w + x]);
            lemma_weight(near[k - 1] as int, alike[0] as int);
        }
    } else {
        let mid = rad * (2 * rad + 1) + rad;
        assert(mid >= 0) by (nonlinear_arith)
            requires
                mid == rad * (2 * rad + 1) + rad,
                rad >= 0,
        ;
    }
}

fn unlike_of(a: [u8; 3], b: [u8; 3]) -> (d: usize)
    ensures
        d == unlike(a, b),
        d <= MAX_UNLIKE,
{
    let r: i64 = a[0] as i64 - b[0] as i64;
    let g: i64 = a[1] as i64 - b[1] as i64;
    let u: i64 = a[2] as i64 - b[2] as i64;
    proof {
        lemma_diff(r as int);
        lemma_diff(g as int);
        lemma_diff(u as int);
    }
    (r * r + g * g + u * u) as usize
}

fn smooth_pixel(
    px: &[[u8; 3]],
    w: usize,
    h: usize,
    rad: usize,
    near: &[i64],
    alike: &[i64],
    x: usize,
    y: usize,
) -> (c: [u8; 3])
    requires
        0 < w <= MAX_CANVAS,
        0 < h <= MAX_CANVAS,
        px@.len() == w * h,
        weights_ok(rad as int, near@, alike@),
        x < w,
        y < h,
    ensures
        forall|ch: int|
            0 <= ch < 3 ==> #[trigger] c@[ch] == smoothed_at(
                px@,
                w as int,
                h as int,
                rad as int,
                near@,
                alike@,
                x as int,
                y as int,
                ch,
            ),
{
    let len: usize = px.len();
    let n: usize = near.len();
    let likes: usize = alike.len();
    let side: usize = 2 * rad + 1;
    proof {
        lemma_place(w as int, h as int, x as int, y as int);
        lemma_window(rad as int);
    }
    let own: [u8; 3] = px[y * w + x];
    let mut total: u128 = 0;
    let mut sums: [u128; 3] = [0, 0, 0];
    let mut k: usize = 0;
    while k < n
        invariant
            len == px@.len(),
            n == near@.len(),
            likes == alike@.len(),
            side == 2 * rad + 1,
            0 < w <= MAX_CANVAS,
            0 < h <= MAX_CANVAS,
            px@.len() == w * h,
            weights_ok(rad as int, near@, alike@),
            n <= 0x400_8001,
            x < w,
            y < h,
            own == px@[y * w + x],
            k <= n,
            total == weights_to(
                px@,
                w as int,
                h as int,
                rad as int,
                near@,
                alike@,
                x as int,
                y as int,
                k as int,
            ),
            forall|ch: int|
                0 <= ch < 3 ==> #[trigger] sums@[ch] == colours_to(
                    px@,
                    w as int,
                    h as int,
                    rad as int,
                    near@,
                    alike@,
                    x as int,
                    y as int,
                    ch,
                    k as int,
                ),
        decreases n - k,
    {
        proof {
            let (wi, hi, ri) = (w as int, h as int, rad as int);
            let (xi, yi) = (x as int, y as int);
            lemma_step(px@, wi, hi, ri, near@, alike@, xi, yi, 0, k as int);
            lemma_step(px@, wi, hi, ri, near@, alike@, xi, yi, 1, k as int);
            lemma_step(px@, wi, hi, ri, near@, alike@, xi, yi, 2, k as int);
            assert(sums@[0] >= 0 && sums@[1] >= 0 && sums@[2] >= 0);
            let (a, b) = (k as int, side as int);
            assert(0 <= a / b < side) by (nonlinear_arith)
                requires
                    0 <= a < b * b,
                    b > 0,
                    side == b,
            ;
        }
        let qx: i64 = x as i64 + (k % side) as i64 - rad as i64;
        let qy: i64 = y as i64 + (k / side) as i64 - rad as i64;
        if 0 <= qx && qx < w as i64 && 0 <= qy && qy < h as i64 {
            proof {
                lemma_place(w as int, h as int, qx as int, qy as int);
            }
            let p: [u8; 3] = px[qy as usize * w + qx as usize];
            let d: usize = unlike_of(p, own);
            let g: u128 = near[k] as u128 * alike[d] as u128;
            total = total + g;
            sums[0] = sums[0] + g * p[0] as u128;
            sums[1] = sums[1] + g * p[1] as u128;
            sums[2] = sums[2] + g * p[2] as u128;
        }
        k = k + 1;
    }
    proof {
        let (wi, hi, ri) = (w as int, h as int, rad as int);
        let (xi, yi) = (x as int, y as int);
        lemma_sums(px@, wi, hi, ri, near@, alike@, xi, yi, 0, n as int);
        lemma_sums(px@, wi, hi, ri, near@, alike@, xi, yi, 1, n as int);
        lemma_sums(px@, wi, hi, ri, near@, alike@, xi, yi, 2, n as int);
        lemma_mean(sums@[0] as int, total as int);
        lemma_mean(sums@[1] as int, total as int);
        lemma_mean(sums@[2] as int, total as int);
    }
    let r: u8 = ((2 * sums[0] + total) / (2 * total)) as u8;
    let g: u8 = ((2 * sums[1] + total) / (2 * total)) as u8;
    let b: u8 = ((2 * sums[2] + total) / (2 * total)) as u8;
    let c: [u8; 3] = [r, g, b];
    proof {
        assert forall|ch: int| 0 <= ch < 3 implies #[trigger] c@[ch] == smoothed_at(
            px@,
            w as int,
            h as int,
            rad as int,
            near@,
            alike@,
            x as int,
            y as int,
            ch,
        ) by {
            assert(ch == 0 || ch == 1 || ch == 2);
            assert(sums@[ch] >= 0);
        }
    }
    c
}

pub proof fn lemma_window(rad: int)
    requires
        0 <= rad <= MAX_REACH,
    ensures
        rad * (2 * rad + 1) + rad < (2 * rad + 1) * (2 * rad + 1) <= 0x400_8001,
{
    assert(rad * (2 * rad + 1) + rad < (2 * rad + 1) * (2 * rad + 1) && (2 * rad + 1) * (2 * rad
        + 1) <= 0x2001 * 0x2001) by (nonlinear_arith)
        requires
            0 <= rad <= 0x1000,
    ;
}

proof fn lemma_mean(a: int, t: int)
    requires
        0 <= a <= 255 * t,
        0 < t <= 0x400_8001 * 0x1000_0000_0000_0000,
    ensures
        0 <= (2 * a + t) / (2 * t) <= 255,
{
    assert(0 <= (2 * a + t) / (2 * t) <= 255) by (nonlinear_arith)
        requires
            0 <= a <= 255 * t,
            0 < t,
    ;
}

/// What one step adds stays within bounds.
proof fn lemma_step(
    px: Seq<[u8; 3]>,
    w: int,
    h: int,
    rad: int,
    near: Seq<i64>,
    alike: Seq<i64>,
    x: int,
    y: int,
    ch: int,
    k: int,
)
    requires
        weights_ok(rad, near, alike),
        px.len() == w * h,
        0 <= x < w,
        0 <= y < h,
        0 <= ch < 3,
        0 <= k < near.len(),
    ensures
        weights_to(px, w, h, rad, near, alike, x, y, k) <= k * 0x1000_0000_0000_0000,
        weights_to(px, w, h, rad, near, alike, x, y, k) <= 0x400_8001 * 0x1000_0000_0000_0000,
        colours_to(px, w, h, rad, near, alike, x, y, ch, k) <= 255 * 0x400_8001
            * 0x1000_0000_0000_0000,
        0 <= weight(px, w, h, rad, near, alike, x, y, k) <= 0x1000_0000_0000_0000,
        0 <= weight(px, w, h, rad, near, alike, x, y, k) * colour(px, w, rad, x, y, ch, k) <= 255
            * 0x1000_0000_0000_0000,
{
    lemma_sums(px, w, h, rad, near, alike, x, y, ch, k);
    lemma_window(rad);
    let q = around(x, y, rad, k);
    let g = weight(px, w, h, rad, near, alike, x, y, k);
    if 0 <= q.0 < w && 0 <= q.1 < h {
        lemma_unlike(px[q.1 * w + q.0], px[y * w + x]);
        lemma_weight(near[k] as int, alike[unlike(px[q.1 * w + q.0], px[y * w + x])] as int);
    }
    let c = colour(px, w, rad, x, y, ch, k);
    assert(0 <= g * c <= 255 * 0x1000_0000_0000_0000) by (nonlinear_arith)
        requires
            0 <= g <= 0x1000_0000_0000_0000,
            0 <= c <= 255,
    ;
    assert(k * 0x1000_0000_0000_0000 <= 0x400_8001 * 0x1000_0000_0000_0000) by (nonlinear_arith)
        requires
            0 <= k <= 0x400_8001,
    ;
}

/// Smooths an image; see `smoothed_at`. `near` holds the weights of the pixels up to `rad`
/// around one, row by row, and `alike` those of squared differences in colour.
pub fn bilateral(
    px: &[[u8; 3]],
    w: usize,
    h: usize,
    rad: usize,
    near: &[i64],
    alike: &[i64],
) -> (out: Vec<[u8; 3]>)
    requires
        0 < w <= MAX_CANVAS,
        0 < h <= MAX_CANVAS,
        px@.len() == w * h,
        weights_ok(rad as int, near@, alike@),
    ensures
        out@.len() == px@.len(),
        forall|i: int, ch: int|
            0 <= i < out@.len() && 0 <= ch < 3 ==> #[trigger] out@[i]@[ch] == smoothed_at(
                px@,
                w as int,
                h as int,
                rad as int,
                near@,
                alike@,
                i % w as int,
                i / w as int,
                ch,
            ),
{
    let n: usize = px.len();
    let mut out: Vec<[u8; 3]> = Vec::new();
    for i in 0..n
        invariant
            n == px@.len(),
            0 < w <= MAX_CANVAS,
            0 < h <= MAX_CANVAS,
            px@.len() == w * h,
            weights_ok(rad as int, near@, alike@),
            out@.len() == i,
            forall|j: int, ch: int|
                0 <= j < i && 0 <= ch < 3 ==> #[trigger] out@[j]@[ch] == smoothed_at(
                    px@,
                    w as int,
                    h as int,
                    rad as int,
                    near@,
                    alike@,
                    j % w as int,
                    j / w as int,
                    ch,
                ),
    {
        proof {
            let (a, b, c) = (i as int, w as int, h as int);
            assert(a / b < c) by (nonlinear_arith)
                requires
                    0 <= a < b * c,
                    b > 0,
            ;
        }
        out.push(smooth_pixel(px, w, h, rad, near, alike, i % w, i / w));
    }
    out
}

/// A flat image stays as it is, whatever the weights.
pub proof fn lemma_flat_stays(
    px: Seq<[u8; 3]>,
    w: int,
    h: int,
    rad: int,
    near: Seq<i64>,
    alike: Seq<i64>,
    x: int,
    y: int,
    ch: int,
    v: [u8; 3],
)
    requires
        weights_ok(rad, near, alike),
        px.len() == w * h,
        0 <= x < w,
        0 <= y < h,
        0 <= ch < 3,
        forall|i: int| 0 <= i < px.len() ==> #[trigger] px[i] == v,
    ensures
        smoothed_at(px, w, h, rad, near, alike, x, y, ch) == v@[ch],
{
    let n = (2 * rad + 1) * (2 * rad + 1);
    lemma_window(rad);
    lemma_sums(px, w, h, rad, near, alike, x, y, ch, n);
    lemma_flat_sums(px, w, h, rad, near, alike, x, y, ch, v, n);
    let t = weights_to(px, w, h, rad, near, alike, x, y, n);
    let c = v@[ch] as int;
    assert((2 * (c * t) + t) / (2 * t) == c) by (nonlinear_arith)
        requires
            t > 0,
    ;
}

proof fn lemma_flat_sums(
    px: Seq<[u8; 3]>,
    w: int,
    h: int,
    rad: int,
    near: Seq<i64>,
    alike: Seq<i64>,
    x: int,
    y: int,
    ch: int,
    v: [u8; 3],
    k: int,
)
    requires
        px.len() == w * h,
        0 <= ch < 3,
        forall|i: int| 0 <= i < px.len() ==> #[trigger] px[i] == v,
    ensures
        colours_to(px, w, h, rad, near, alike, x, y, ch, k) == v@[ch] * weights_to(
            px,
            w,
            h,
            rad,
            near,
            alike,
            x,
            y,
            k,
        ),
    decreases k,
{
    let c = v@[ch] as int;
    if k > 0 {
        lemma_flat_sums(px, w, h, rad, near, alike, x, y, ch, v, k - 1);
        let q = around(x, y, rad, k - 1);
        let g = weight(px, w, h, rad, near, alike, x, y, k - 1);
        let t = weights_to(px, w, h, rad, near, alike, x, y, k - 1);
        let d = colour(px, w, rad, x, y, ch, k - 1);
        if 0 <= q.0 < w && 0 <= q.1 < h {
            lemma_place(w, h, q.0, q.1);
            assert(d == c);
        }
        assert(c * (t + g) == c * t + g * d) by (nonlinear_arith)
            requires
                d == c || g == 0,
        ;
    } else {
        assert(c * 0 == 0) by (nonlinear_arith);
    }
}

} // verus!
