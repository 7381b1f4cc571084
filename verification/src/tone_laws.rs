//! What levels, blurs and edge-keeping smoothing do to maps and images.

use crate::bilateral::{
    around, colour, colours_to, lemma_place, lemma_sums, lemma_window, smoothed_at, unlike,
    weight, weights_ok, weights_to,
};
use crate::blur::{
    blurred, blurred_across, blurred_at, blurred_down, column_of, edge, kernel_ok,
    lemma_blur_between, lemma_cell, reflected, row_of, sum_to, values_ok, weight_to, MAX_VALUE,
};
use crate::tone::{channel_ink, clipped, least_under, levelled, pulled_back};
use vstd::prelude::*;

verus! {

/// Levels in order send the white point and what lies below it to nothing, the black point
/// and what lies above it to full, and in between a tone to its share of the way, rounded
/// down. Levels out of order make a step at the white point.
pub proof fn lemma_levels(i: int, wp: int, bp: int)
    ensures
        wp < bp && i <= wp ==> levelled(i, wp, bp) == 0,
        wp < bp && i >= bp ==> levelled(i, wp, bp) == 0x100_0000_0000,
        wp < i < bp ==> levelled(i, wp, bp) * (bp - wp) <= (i - wp) * 0x100_0000_0000 < (levelled(
            i,
            wp,
            bp,
        ) + 1) * (bp - wp),
        bp <= wp && i < wp ==> levelled(i, wp, bp) == 0,
        bp <= wp && i >= wp ==> levelled(i, wp, bp) == 0x100_0000_0000,
{
    if wp < i < bp {
        let (a, d) = ((i - wp) * 0x100_0000_0000, bp - wp);
        assert((a / d) * d <= a < (a / d + 1) * d) by (nonlinear_arith)
            requires
                d > 0,
        ;
    }
}

/// A darker tone never comes out lighter, whatever the levels.
pub proof fn lemma_levels_keep_order(i: int, j: int, wp: int, bp: int)
    requires
        i <= j,
    ensures
        levelled(i, wp, bp) <= levelled(j, wp, bp),
        0 <= levelled(i, wp, bp) <= 0x100_0000_0000,
{
    if wp < i < bp {
        let (a, d) = ((i - wp) * 0x100_0000_0000, bp - wp);
        let b = (j - wp) * 0x100_0000_0000;
        assert(0 <= a / d <= 0x100_0000_0000) by (nonlinear_arith)
            requires
                d > 0,
                0 <= a <= d * 0x100_0000_0000,
        ;
        assert(a / d <= b / d) by (nonlinear_arith)
            requires
                d > 0,
                a <= b,
        ;
    } else if wp < j < bp {
        let (b, d) = ((j - wp) * 0x100_0000_0000, bp - wp);
        assert(0 <= b / d) by (nonlinear_arith)
            requires
                d > 0,
                0 <= b,
        ;
    }
}

/// Keeping the deep shadows drops every tone below the threshold, and stretches what is left
/// so that the threshold comes to nothing and full ink stays full.
pub proof fn lemma_deep(d: int, tk: int)
    requires
        0 <= d <= 0x100_0000_0000,
    ensures
        d <= tk ==> clipped(d, tk) == 0,
        d == 0x100_0000_0000 && tk < 0x100_0000_0000 ==> clipped(d, tk) == 0x100_0000_0000,
        tk < d < 0x100_0000_0000 ==> clipped(d, tk) * (0x100_0000_0000 - tk) <= (d - tk)
            * 0x100_0000_0000 < (clipped(d, tk) + 1) * (0x100_0000_0000 - tk),
{
    lemma_levels(d, tk, 0x100_0000_0000);
}

/// The least tone of several maps at a cell is no more than that of any of them, and is that
/// of one of them.
pub proof fn lemma_least(under: Seq<Vec<i64>>, i: int)
    requires
        0 < under.len(),
    ensures
        forall|k: int|
            0 <= k < under.len() ==> least_under(under, i, under.len() as int) <= (
            #[trigger] under[k])@[i],
        exists|k: int|
            0 <= k < under.len() && least_under(under, i, under.len() as int) == (
            #[trigger] under[k])@[i],
{
    lemma_least_of(under, i, under.len() as int);
}

proof fn lemma_least_of(under: Seq<Vec<i64>>, i: int, n: int)
    requires
        0 < n <= under.len(),
    ensures
        forall|k: int| 0 <= k < n ==> least_under(under, i, n) <= (#[trigger] under[k])@[i],
        exists|k: int| 0 <= k < n && least_under(under, i, n) == (#[trigger] under[k])@[i],
    decreases n,
{
    if n > 1 {
        lemma_least_of(under, i, n - 1);
        let j = choose|k: int|
            0 <= k < n - 1 && least_under(under, i, n - 1) == (#[trigger] under[k])@[i];
        let m = if under[n - 1]@[i] < least_under(under, i, n - 1) {
            n - 1
        } else {
            j
        };
        assert(least_under(under, i, n) == under[m]@[i]);
    } else {
        assert(least_under(under, i, n) == under[0]@[i]);
    }
}

/// What is taken from the black where other inks lie: the share asked for of the least of
/// them, rounded down, and never more than there is.
pub proof fn lemma_pulled_back(k: int, least: int, ucr: int)
    requires
        0 <= k,
        0 <= least,
        0 <= ucr,
    ensures
        0 <= pulled_back(k, least, ucr) <= k,
        0 < pulled_back(k, least, ucr) ==> (k - pulled_back(k, least, ucr)) * 0x100_0000_0000
            <= least * ucr < (k - pulled_back(k, least, ucr) + 1) * 0x100_0000_0000,
        pulled_back(k, least, ucr) == 0 ==> k * 0x100_0000_0000 <= least * ucr,
        ucr == 0 ==> pulled_back(k, least, ucr) == k,
{
    let p = least * ucr;
    assert(0 <= p) by (nonlinear_arith)
        requires
            p == least * ucr,
            0 <= least,
            0 <= ucr,
    ;
    assert(ucr == 0 ==> p == 0) by (nonlinear_arith)
        requires
            p == least * ucr,
    ;
}

/// An edge is where the narrow blur is darker than the wide one by more than the threshold.
pub proof fn lemma_edge(a: i64, b: i64, threshold: i64)
    ensures
        a > b + threshold ==> edge(a, b, threshold) == 0x100_0000_0000,
        a <= b + threshold ==> edge(a, b, threshold) == 0,
{
}

/// Beyond either end a line goes on as its mirror image.
pub proof fn lemma_mirrored(i: int, n: int)
    requires
        0 <= i < n,
    ensures
        reflected(i, n) == i,
        reflected(-1 - i, n) == i,
        reflected(n + i, n) == n - 1 - i,
{
}

/// Whether the kernel centred at `c` stays within a line of `n` places.
pub open spec fn reaches(kernel: Seq<i64>, c: int, n: int) -> bool {
    kernel.len() as int / 2 <= c && c - kernel.len() as int / 2 + kernel.len() <= n
}

/// Whether `u` is what one of `t` parts of `s` comes to, rounded down.
pub open spec fn is_share(u: int, s: int, t: int) -> bool {
    u * t <= s < (u + 1) * t
}

/// The weight that the kernel centred at `c` lays on place `p`: nothing out of its reach.
pub open spec fn laid_on(kernel: Seq<i64>, c: int, p: int) -> int {
    let j = p - c + kernel.len() as int / 2;
    if 0 <= j < kernel.len() {
        kernel[j] as int
    } else {
        0
    }
}

proof fn lemma_lone_sum(line: Seq<i64>, p: int, kernel: Seq<i64>, c: int, k: int)
    requires
        0 <= p < line.len(),
        forall|i: int| 0 <= i < line.len() && i != p ==> #[trigger] line[i] == 0,
        reaches(kernel, c, line.len() as int),
        0 <= k <= kernel.len(),
    ensures
        sum_to(line, kernel, c, k) == if p - c + kernel.len() as int / 2 < k {
            line[p] * laid_on(kernel, c, p)
        } else {
            0
        },
    decreases k,
{
    let r = kernel.len() as int / 2;
    assert(line[p] * 0 == 0) by (nonlinear_arith);
    if k > 0 {
        lemma_lone_sum(line, p, kernel, c, k - 1);
        let at = c + k - 1 - r;
        assert(reflected(at, line.len() as int) == at);
        if at != p {
            assert(line[at] == 0);
            assert(line[at] * kernel[k - 1] == 0) by (nonlinear_arith)
                requires
                    line[at] == 0,
            ;
        }
    }
}

/// A lone value is spread by the kernel about its own place: every place takes the share
/// that the kernel, centred there, lays on it.
pub proof fn lemma_lone_value(line: Seq<i64>, p: int, kernel: Seq<i64>, c: int)
    requires
        0 <= p < line.len(),
        forall|i: int| 0 <= i < line.len() && i != p ==> #[trigger] line[i] == 0,
        kernel_ok(kernel),
        reaches(kernel, c, line.len() as int),
    ensures
        is_share(
            blurred_at(line, kernel, c),
            line[p] * laid_on(kernel, c, p),
            weight_to(kernel, kernel.len() as int),
        ),
{
    let t = weight_to(kernel, kernel.len() as int);
    lemma_lone_sum(line, p, kernel, c, kernel.len() as int);
    let s = sum_to(line, kernel, c, kernel.len() as int);
    assert(line[p] * 0 == 0) by (nonlinear_arith);
    assert(s == line[p] * laid_on(kernel, c, p));
    assert((s / t) * t <= s < (s / t + 1) * t) by (nonlinear_arith)
        requires
            t > 0,
    ;
}

/// A lone dot is spread both ways about its own place: by the kernel laid along its row, and
/// what comes of that by the kernel laid along the column.
pub proof fn lemma_lone_dot(
    map: Seq<i64>,
    w: int,
    h: int,
    kernel: Seq<i64>,
    px: int,
    py: int,
    x: int,
    y: int,
)
    requires
        0 <= px < w,
        0 <= py < h,
        map.len() == w * h,
        values_ok(map),
        kernel_ok(kernel),
        forall|i: int| 0 <= i < map.len() && i != py * w + px ==> #[trigger] map[i] == 0,
        0 <= x < w,
        0 <= y < h,
        reaches(kernel, x, w),
        reaches(kernel, y, h),
    ensures
        exists|u: int| #[trigger]
            is_share(
                u,
                map[py * w + px] * laid_on(kernel, x, px),
                weight_to(kernel, kernel.len() as int),
            ) && is_share(
                blurred(map, w, h, kernel)[y * w + x] as int,
                u * laid_on(kernel, y, py),
                weight_to(kernel, kernel.len() as int),
            ),
{
    let t = weight_to(kernel, kernel.len() as int);
    let across = blurred_across(map, w, kernel);
    lemma_cell(w, h, px, py);
    lemma_cell(w, h, x, y);
    lemma_cell(w, h, x, py);
    assert forall|yy: int| 0 <= yy < h implies -MAX_VALUE <= blurred_at(
        #[trigger] row_of(map, w, yy),
        kernel,
        x,
    ) <= MAX_VALUE && (yy != py ==> blurred_at(row_of(map, w, yy), kernel, x) == 0) by {
        let line = row_of(map, w, yy);
        assert forall|i: int| 0 <= i < line.len() implies -MAX_VALUE <= #[trigger] line[i]
            <= MAX_VALUE && (yy != py ==> line[i] == 0) by {
            lemma_cell(w, h, i, yy);
        }
        lemma_blur_between(line, kernel, x, -MAX_VALUE as int, MAX_VALUE as int);
        if yy != py {
            lemma_blur_between(line, kernel, x, 0, 0);
        }
    }
    let line = row_of(map, w, py);
    assert forall|i: int| 0 <= i < line.len() && i != px implies #[trigger] line[i] == 0 by {
        lemma_cell(w, h, i, py);
    }
    lemma_lone_value(line, px, kernel, x);
    let u = blurred_at(line, kernel, x);
    let col = column_of(across, w, h, x);
    assert forall|i: int| 0 <= i < col.len() implies #[trigger] col[i] == blurred_at(
        row_of(map, w, i),
        kernel,
        x,
    ) by {
        lemma_cell(w, h, x, i);
    }
    assert forall|i: int| 0 <= i < col.len() && i != py implies #[trigger] col[i] == 0 by {}
    assert(col[py] == u);
    lemma_lone_value(col, py, kernel, y);
    assert forall|i: int| 0 <= i < col.len() implies -MAX_VALUE <= #[trigger] col[i]
        <= MAX_VALUE by {
        assert(col[i] == blurred_at(row_of(map, w, i), kernel, x));
    }
    lemma_blur_between(col, kernel, y, -MAX_VALUE as int, MAX_VALUE as int);
    assert(blurred_down(across, w, h, kernel)[y * w + x] == blurred_at(col, kernel, y));
    assert(is_share(u, map[py * w + px] * laid_on(kernel, x, px), t));
}

/// The pixels around one are those of the square with it in the middle, row by row.
pub proof fn lemma_square_around(x: int, y: int, rad: int, dx: int, dy: int)
    requires
        -rad <= dx <= rad,
        -rad <= dy <= rad,
    ensures
        around(x, y, rad, (dy + rad) * (2 * rad + 1) + dx + rad) == (x + dx, y + dy),
{
    let (s, q, r) = (2 * rad + 1, dy + rad, dx + rad);
    assert(q * s == s * q) by (nonlinear_arith);
    vstd::arithmetic::div_mod::lemma_fundamental_div_mod_converse(q * s + r, s, q, r);
}

/// Colours differ by the sum of the squares of all three differences: by nothing only where
/// they are the same, and as much one way as the other.
pub proof fn lemma_difference(a: [u8; 3], b: [u8; 3])
    ensures
        unlike(a, b) == unlike(b, a),
        unlike(a, b) == 0 <==> a@[0] == b@[0] && a@[1] == b@[1] && a@[2] == b@[2],
        a@[1] == b@[1] && a@[2] == b@[2] ==> unlike(a, b) == (a@[0] - b@[0]) * (a@[0] - b@[0]),
        a@[0] == b@[0] && a@[2] == b@[2] ==> unlike(a, b) == (a@[1] - b@[1]) * (a@[1] - b@[1]),
        a@[0] == b@[0] && a@[1] == b@[1] ==> unlike(a, b) == (a@[2] - b@[2]) * (a@[2] - b@[2]),
{
    let (p, q, r) = (a@[0] - b@[0], a@[1] - b@[1], a@[2] - b@[2]);
    assert(p * p == (-p) * (-p) && q * q == (-q) * (-q) && r * r == (-r) * (-r))
        by (nonlinear_arith);
    assert(p * p >= 0 && q * q >= 0 && r * r >= 0) by (nonlinear_arith);
    assert(p != 0 ==> p * p > 0) by (nonlinear_arith);
    assert(q != 0 ==> q * q > 0) by (nonlinear_arith);
    assert(r != 0 ==> r * r > 0) by (nonlinear_arith);
    assert(0int * 0int == 0);
}

/// Smoothing keeps edges: where every pixel in reach either has the colour of the one in the
/// middle or is too unlike it to weigh anything, that one stays as it is.
pub proof fn lemma_edges_kept(
    px: Seq<[u8; 3]>,
    w: int,
    h: int,
    rad: int,
    near: Seq<i64>,
    alike: Seq<i64>,
    x: int,
    y: int,
    ch: int,
)
    requires
        weights_ok(rad, near, alike),
        px.len() == w * h,
        0 <= x < w,
        0 <= y < h,
        0 <= ch < 3,
        forall|qx: int, qy: int|
            #![trigger px[qy * w + qx]]
            0 <= qx < w && 0 <= qy < h && x - rad <= qx <= x + rad && y - rad <= qy <= y + rad
                ==> px[qy * w + qx]@[ch] == px[y * w + x]@[ch] || alike[unlike(
                px[qy * w + qx],
                px[y * w + x],
            )] == 0,
    ensures
        smoothed_at(px, w, h, rad, near, alike, x, y, ch) == px[y * w + x]@[ch],
{
    let n = (2 * rad + 1) * (2 * rad + 1);
    let c = px[y * w + x]@[ch] as int;
    lemma_window(rad);
    lemma_sums(px, w, h, rad, near, alike, x, y, ch, n);
    lemma_kept_sums(px, w, h, rad, near, alike, x, y, ch, n);
    let t = weights_to(px, w, h, rad, near, alike, x, y, n);
    assert((2 * (c * t) + t) / (2 * t) == c) by (nonlinear_arith)
        requires
            t > 0,
    ;
}

proof fn lemma_kept_sums(
    px: Seq<[u8; 3]>,
    w: int,
    h: int,
    rad: int,
    near: Seq<i64>,
    alike: Seq<i64>,
    x: int,
    y: int,
    ch: int,
    k: int,
)
    requires
        0 <= rad,
        px.len() == w * h,
        0 <= ch < 3,
        0 <= k <= (2 * rad + 1) * (2 * rad + 1),
        forall|qx: int, qy: int|
            #![trigger px[qy * w + qx]]
            0 <= qx < w && 0 <= qy < h && x - rad <= qx <= x + rad && y - rad <= qy <= y + rad
                ==> px[qy * w + qx]@[ch] == px[y * w + x]@[ch] || alike[unlike(
                px[qy * w + qx],
                px[y * w + x],
            )] == 0,
    ensures
        colours_to(px, w, h, rad, near, alike, x, y, ch, k) == px[y * w + x]@[ch] * weights_to(
            px,
            w,
            h,
            rad,
            near,
            alike,
            x,
            y,
            k,
        ),
    decreases k,
{
    let c = px[y * w + x]@[ch] as int;
    if k > 0 {
        lemma_kept_sums(px, w, h, rad, near, alike, x, y, ch, k - 1);
        let s = 2 * rad + 1;
        let q = around(x, y, rad, k - 1);
        let j = k - 1;
        assert(0 <= j % s < s && 0 <= j / s < s) by (nonlinear_arith)
            requires
                0 <= j < s * s,
                s > 0,
        ;
        let g = weight(px, w, h, rad, near, alike, x, y, k - 1);
        let t = weights_to(px, w, h, rad, near, alike, x, y, k - 1);
        let d = colour(px, w, rad, x, y, ch, k - 1);
        if 0 <= q.0 < w && 0 <= q.1 < h {
            lemma_place(w, h, q.0, q.1);
            let e = alike[unlike(px[q.1 * w + q.0], px[y * w + x])];
            assert(d == c || e == 0);
            assert(e == 0 ==> near[k - 1] * e == 0) by (nonlinear_arith);
        }
        assert(c * (t + g) == c * t + g * d) by (nonlinear_arith)
            requires
                d == c || g == 0,
        ;
    } else {
        assert(c * 0 == 0) by (nonlinear_arith);
    }
}

/// A colour channel stands for the ink that it lacks of white, rounded down: none for white,
/// full for black.
pub proof fn lemma_channel_ink(c: int)
    requires
        0 <= c <= 255,
    ensures
        255 * channel_ink(c) <= (255 - c) * 0x100_0000_0000 < 255 * (channel_ink(c) + 1),
        channel_ink(255) == 0,
        channel_ink(0) == 0x100_0000_0000,
{
}

} // verus!
