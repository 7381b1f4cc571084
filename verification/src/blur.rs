//! Blurring maps with a kernel, and the edges that two blurs show.

use crate::arith::floor_div;
use crate::lattice::MAX_CANVAS;
use crate::screen::FULL;
use vstd::prelude::*;

verus! {

/// The largest weight of a kernel.
pub const MAX_WEIGHT: i64 = 0x4000_0000;

/// The most weights that a kernel has.
pub const MAX_TAPS: usize = 0x100_0000;

/// The largest value of a map that is blurred.
pub const MAX_VALUE: i64 = 0x4000_0000_0000_0000;

/// Index `i` of a line of `n` values that goes on reflected beyond its ends.
pub open spec fn reflected(i: int, n: int) -> int {
    let a = if i < 0 {
        -i - 1
    } else {
        i
    };
    let b = if a >= n {
        2 * n - a - 1
    } else {
        a
    };
    if b < 0 {
        0
    } else if b > n - 1 {
        n - 1
    } else {
        b
    }
}

/// The sum of the first `k` weights of a kernel.
pub open spec fn weight_to(kernel: Seq<i64>, k: int) -> int
    decreases k,
{
    if k <= 0 {
        0
    } else {
        weight_to(kernel, k - 1) + kernel[k - 1]
    }
}

/// The weighted sum of the values around `c` under the first `k` weights of a kernel.
pub open spec fn sum_to(line: Seq<i64>, kernel: Seq<i64>, c: int, k: int) -> int
    decreases k,
{
    if k <= 0 {
        0
    } else {
        sum_to(line, kernel, c, k - 1) + line[reflected(
            c + k - 1 - kernel.len() as int / 2,
            line.len() as int,
        )] * kernel[k - 1]
    }
}

/// A value of a line, blurred.
pub open spec fn blurred_at(line: Seq<i64>, kernel: Seq<i64>, c: int) -> int {
    sum_to(line, kernel, c, kernel.len() as int) / weight_to(kernel, kernel.len() as int)
}

/// Whether a kernel can be blurred with.
pub open spec fn kernel_ok(kernel: Seq<i64>) -> bool {
    &&& 0 < kernel.len() <= MAX_TAPS
    &&& forall|k: int| 0 <= k < kernel.len() ==> 0 <= #[trigger] kernel[k] <= MAX_WEIGHT
    &&& weight_to(kernel, kernel.len() as int) > 0
}

/// Whether a map's values can be blurred.
pub open spec fn values_ok(map: Seq<i64>) -> bool {
    forall|i: int| 0 <= i < map.len() ==> -MAX_VALUE <= #[trigger] map[i] <= MAX_VALUE
}

proof fn lemma_sum_bound(line: Seq<i64>, kernel: Seq<i64>, c: int, k: int, lo: int, hi: int)
    requires
        0 < line.len(),
        0 <= k <= kernel.len(),
        forall|j: int| 0 <= j < kernel.len() ==> 0 <= #[trigger] kernel[j] <= MAX_WEIGHT,
        forall|i: int| 0 <= i < line.len() ==> lo <= #[trigger] line[i] <= hi,
    ensures
        lo * weight_to(kernel, k) <= sum_to(line, kernel, c, k) <= hi * weight_to(kernel, k),
        0 <= weight_to(kernel, k) <= k * MAX_WEIGHT,
    decreases k,
{
    if k > 0 {
        lemma_sum_bound(line, kernel, c, k - 1, lo, hi);
        let v = line[reflected(
            c + k - 1 - kernel.len() as int / 2,
            line.len() as int,
        )] as int;
        let g = kernel[k - 1] as int;
        let t = weight_to(kernel, k - 1);
        assert(lo * (t + g) <= lo * t + v * g && hi * t + v * g <= hi * (t + g))
            by (nonlinear_arith)
            requires
                lo <= v <= hi,
                0 <= g,
        ;
        assert(k * MAX_WEIGHT == (k - 1) * MAX_WEIGHT + MAX_WEIGHT) by (nonlinear_arith);
    } else {
        assert(lo * 0 == 0 && hi * 0 == 0) by (nonlinear_arith);
    }
}

/// A blurred value lies between the least and the greatest of its line.
pub proof fn lemma_blur_between(line: Seq<i64>, kernel: Seq<i64>, c: int, lo: int, hi: int)
    requires
        0 < line.len(),
        kernel_ok(kernel),
        forall|i: int| 0 <= i < line.len() ==> lo <= #[trigger] line[i] <= hi,
    ensures
        lo <= blurred_at(line, kernel, c) <= hi,
{
    let n = kernel.len() as int;
    lemma_sum_bound(line, kernel, c, n, lo, hi);
    let (s, t) = (sum_to(line, kernel, c, n), weight_to(kernel, n));
    assert(lo <= s / t <= hi) by (nonlinear_arith)
        requires
            lo * t <= s <= hi * t,
            t > 0,
    ;
}

fn total_weight(kernel: &[i64]) -> (t: i128)
    requires
        kernel_ok(kernel@),
    ensures
        t == weight_to(kernel@, kernel@.len() as int),
        0 < t <= MAX_TAPS * MAX_WEIGHT,
{
    let mut t: i128 = 0;
    for k in 0..kernel.len()
        invariant
            kernel_ok(kernel@),
            t == weight_to(kernel@, k as int),
            0 <= t <= k * MAX_WEIGHT,
    {
        proof {
            assert((k + 1) * MAX_WEIGHT == k * MAX_WEIGHT + MAX_WEIGHT) by (nonlinear_arith);
            assert(k * MAX_WEIGHT <= MAX_TAPS * MAX_WEIGHT) by (nonlinear_arith)
                requires
                    k <= MAX_TAPS,
            ;
        }
        t = t + kernel[k] as i128;
    }
    proof {
        let n = kernel@.len() as int;
        assert(n * MAX_WEIGHT <= MAX_TAPS * MAX_WEIGHT) by (nonlinear_arith)
            requires
                n <= MAX_TAPS,
        ;
    }
    t
}

fn reflect(i: i64, n: usize) -> (r: usize)
    requires
        0 < n <= MAX_CANVAS,
        -0x1000_0000_0000 <= i <= 0x1000_0000_0000,
    ensures
        r == reflected(i as int, n as int),
        r < n,
{
    let m: i64 = n as i64;
    let a: i64 = if i < 0 { -i - 1 } else { i };
    let b: i64 = if a >= m { 2 * m - a - 1 } else { a };
    if b < 0 {
        0
    } else if b > m - 1 {
        n - 1
    } else {
        b as usize
    }
}

/// A line, blurred.
pub open spec fn blurred_line(line: Seq<i64>, kernel: Seq<i64>) -> Seq<i64> {
    Seq::new(line.len(), |c: int| blurred_at(line, kernel, c) as i64)
}

fn blur_line(line: &[i64], kernel: &[i64]) -> (r: Vec<i64>)
    requires
        line@.len() <= MAX_CANVAS,
        kernel_ok(kernel@),
        values_ok(line@),
    ensures
        r@ == blurred_line(line@, kernel@),
        values_ok(r@),
{
    let n: usize = line.len();
    let taps: usize = kernel.len();
    let total: i128 = total_weight(kernel);
    let mut r: Vec<i64> = Vec::new();
    for c in 0..n
        invariant
            n == line@.len(),
            n <= MAX_CANVAS,
            taps == kernel@.len(),
            kernel_ok(kernel@),
            values_ok(line@),
            total == weight_to(kernel@, taps as int),
            0 < total <= MAX_TAPS * MAX_WEIGHT,
            r@.len() == c,
            values_ok(r@),
            forall|j: int| 0 <= j < c ==> #[trigger] r@[j] == blurred_at(line@, kernel@, j),
    {
        let mut acc: i128 = 0;
        let mut k: usize = 0;
        while k < taps
            invariant
                0 < n,
                n == line@.len(),
                n <= MAX_CANVAS,
                c < n,
                taps == kernel@.len(),
                kernel_ok(kernel@),
                values_ok(line@),
                k <= taps,
                acc == sum_to(line@, kernel@, c as int, k as int),
            decreases taps - k,
        {
            let i: usize = reflect(c as i64 + k as i64 - (taps / 2) as i64, n);
            let v: i128 = line[i] as i128;
            let g: i128 = kernel[k] as i128;
            proof {
                lemma_product(v as int, g as int);
                lemma_sum_fits(line@, kernel@, c as int, k as int);
            }
            acc = acc + v * g;
            k = k + 1;
        }
        proof {
            lemma_sum_fits(line@, kernel@, c as int, taps as int);
            lemma_blur_between(line@, kernel@, c as int, -MAX_VALUE as int, MAX_VALUE as int);
        }
        r.push(floor_div(acc, total) as i64);
    }
    proof {
        assert(r@ =~= blurred_line(line@, kernel@));
    }
    r
}

proof fn lemma_product(v: int, g: int)
    by (nonlinear_arith)
    requires
        -0x4000_0000_0000_0000 <= v <= 0x4000_0000_0000_0000,
        0 <= g <= 0x4000_0000,
    ensures
        -0x4000_0000_0000_0000 * 0x4000_0000 <= v * g <= 0x4000_0000_0000_0000 * 0x4000_0000,
{
}

proof fn lemma_sum_fits(line: Seq<i64>, kernel: Seq<i64>, c: int, k: int)
    requires
        0 < line.len(),
        kernel_ok(kernel),
        values_ok(line),
        0 <= k <= kernel.len(),
    ensures
        -0x4000_0000_0000_0000 * 0x40_0000_0000_0000 <= sum_to(line, kernel, c, k)
            <= 0x4000_0000_0000_0000 * 0x40_0000_0000_0000,
{
    lemma_sum_bound(line, kernel, c, k, -MAX_VALUE as int, MAX_VALUE as int);
    let t = weight_to(kernel, k);
    assert(k * MAX_WEIGHT <= 0x40_0000_0000_0000) by (nonlinear_arith)
        requires
            0 <= k <= 0x100_0000,
            MAX_WEIGHT == 0x4000_0000,
    ;
    assert(MAX_VALUE * t <= 0x4000_0000_0000_0000 * 0x40_0000_0000_0000 && -MAX_VALUE * t
        >= -0x4000_0000_0000_0000 * 0x40_0000_0000_0000) by (nonlinear_arith)
        requires
            0 <= t <= 0x40_0000_0000_0000,
            MAX_VALUE == 0x4000_0000_0000_0000,
    ;
}

/// Row `y` of a map that is `w` wide.
pub open spec fn row_of(map: Seq<i64>, w: int, y: int) -> Seq<i64> {
    Seq::new(w as nat, |x: int| map[y * w + x])
}

/// Column `x` of a map that is `w` wide and `h` high.
pub open spec fn column_of(map: Seq<i64>, w: int, h: int, x: int) -> Seq<i64> {
    Seq::new(h as nat, |y: int| map[y * w + x])
}

/// A map blurred along its rows.
pub open spec fn blurred_across(map: Seq<i64>, w: int, kernel: Seq<i64>) -> Seq<i64> {
    Seq::new(map.len(), |i: int| blurred_at(row_of(map, w, i / w), kernel, i % w) as i64)
}

/// A map blurred down its columns.
pub open spec fn blurred_down(map: Seq<i64>, w: int, h: int, kernel: Seq<i64>) -> Seq<i64> {
    Seq::new(map.len(), |i: int| blurred_at(column_of(map, w, h, i % w), kernel, i / w) as i64)
}

/// A map blurred both ways, along its rows first.
pub open spec fn blurred(map: Seq<i64>, w: int, h: int, kernel: Seq<i64>) -> Seq<i64> {
    blurred_down(blurred_across(map, w, kernel), w, h, kernel)
}

pub proof fn lemma_cell(w: int, h: int, x: int, y: int)
    requires
        0 <= x < w,
        0 <= y < h,
    ensures
        0 <= y * w + x < w * h,
        (y * w + x) % w == x,
        (y * w + x) / w == y,
{
    assert(0 <= y * w + x < w * h) by (nonlinear_arith)
        requires
            0 <= x < w,
            0 <= y < h,
    ;
    assert(y * w == w * y) by (nonlinear_arith);
    vstd::arithmetic::div_mod::lemma_fundamental_div_mod_converse(y * w + x, w, y, x);
}

fn blur_across(map: &[i64], w: usize, h: usize, kernel: &[i64]) -> (r: Vec<i64>)
    requires
        0 < w <= MAX_CANVAS,
        0 < h <= MAX_CANVAS,
        map@.len() == w * h,
        kernel_ok(kernel@),
        values_ok(map@),
    ensures
        r@ == blurred_across(map@, w as int, kernel@),
        values_ok(r@),
{
    let len: usize = map.len();
    let ghost want = blurred_across(map@, w as int, kernel@);
    let mut r: Vec<i64> = Vec::new();
    for y in 0..h
        invariant
            len == map@.len(),
            0 < w <= MAX_CANVAS,
            0 < h <= MAX_CANVAS,
            map@.len() == w * h,
            kernel_ok(kernel@),
            values_ok(map@),
            want == blurred_across(map@, w as int, kernel@),
            r@.len() == y * w,
            values_ok(r@),
            forall|i: int| 0 <= i < r@.len() ==> #[trigger] r@[i] == want[i],
    {
        let mut row: Vec<i64> = Vec::new();
        for x in 0..w
            invariant
                len == map@.len(),
                0 < w <= MAX_CANVAS,
                map@.len() == w * h,
                y < h,
                values_ok(map@),
                row@.len() == x,
                forall|j: int| 0 <= j < x ==> #[trigger] row@[j] == map@[y * w + j],
                values_ok(row@),
        {
            proof {
                lemma_cell(w as int, h as int, x as int, y as int);
                assert(y * w <= y * w + x) by (nonlinear_arith)
                    requires
                        0 <= x,
                ;
            }
            row.push(map[y * w + x]);
        }
        proof {
            assert(row@ =~= row_of(map@, w as int, y as int));
        }
        let done: Vec<i64> = blur_line(row.as_slice(), kernel);
        for x in 0..w
            invariant
                0 < w <= MAX_CANVAS,
                map@.len() == w * h,
                y < h,
                done@ == blurred_line(row_of(map@, w as int, y as int), kernel@),
                values_ok(done@),
                want == blurred_across(map@, w as int, kernel@),
                r@.len() == y * w + x,
                values_ok(r@),
                forall|i: int| 0 <= i < r@.len() ==> #[trigger] r@[i] == want[i],
        {
            proof {
                lemma_cell(w as int, h as int, x as int, y as int);
                assert(done@.len() == w);
                assert(want[y * w + x] == done@[x as int]);
            }
            r.push(done[x]);
        }
        proof {
            assert((y + 1) * w == y * w + w) by (nonlinear_arith);
        }
    }
    proof {
        assert(h * w == w * h) by (nonlinear_arith);
        assert(r@ =~= want);
    }
    r
}

fn blur_down(map: &[i64], w: usize, h: usize, kernel: &[i64]) -> (r: Vec<i64>)
    requires
        0 < w <= MAX_CANVAS,
        0 < h <= MAX_CANVAS,
        map@.len() == w * h,
        kernel_ok(kernel@),
        values_ok(map@),
    ensures
        r@ == blurred_down(map@, w as int, h as int, kernel@),
        values_ok(r@),
{
    let len: usize = map.len();
    let ghost want = blurred_down(map@, w as int, h as int, kernel@);
    let mut r: Vec<i64> = Vec::new();
    for i in 0..len
        invariant
            len == map@.len(),
            r@.len() == i,
            forall|j: int| 0 <= j < i ==> #[trigger] r@[j] == map@[j],
    {
        r.push(map[i]);
    }
    for x in 0..w
        invariant
            len == map@.len(),
            0 < w <= MAX_CANVAS,
            0 < h <= MAX_CANVAS,
            map@.len() == w * h,
            kernel_ok(kernel@),
            values_ok(map@),
            values_ok(r@),
            want == blurred_down(map@, w as int, h as int, kernel@),
            r@.len() == w * h,
            forall|i: int|
                0 <= i < w * h && i % w as int <= x - 1 ==> #[trigger] r@[i] == want[i],
    {
        let mut column: Vec<i64> = Vec::new();
        for y in 0..h
            invariant
                len == map@.len(),
                0 < w <= MAX_CANVAS,
                map@.len() == w * h,
                x < w,
                values_ok(map@),
                column@.len() == y,
                forall|j: int| 0 <= j < y ==> #[trigger] column@[j] == map@[j * w + x],
                values_ok(column@),
        {
            proof {
                lemma_cell(w as int, h as int, x as int, y as int);
                assert(y * w <= y * w + x) by (nonlinear_arith)
                    requires
                        0 <= x,
                ;
            }
            column.push(map[y * w + x]);
        }
        proof {
            assert(column@ =~= column_of(map@, w as int, h as int, x as int));
        }
        let done: Vec<i64> = blur_line(column.as_slice(), kernel);
        for y in 0..h
            invariant
                len == map@.len(),
                0 < w <= MAX_CANVAS,
                map@.len() == w * h,
                x < w,
                done@ == blurred_line(column_of(map@, w as int, h as int, x as int), kernel@),
                values_ok(done@),
                values_ok(r@),
                want == blurred_down(map@, w as int, h as int, kernel@),
                r@.len() == w * h,
                forall|i: int|
                    0 <= i < w * h && (i % w as int <= x - 1 || (i % w as int == x && i / (w as int)
                        < y)) ==> #[trigger] r@[i] == want[i],
        {
            proof {
                lemma_cell(w as int, h as int, x as int, y as int);
                assert(y * w <= y * w + x) by (nonlinear_arith)
                    requires
                        0 <= x,
                ;
                assert(done@.len() == h);
                assert(want[y * w + x] == done@[y as int]);
            }
            let ghost before = r@;
            r.set(y * w + x, done[y]);
            proof {
                assert forall|i: int|
                    0 <= i < w * h && (i % w as int <= x - 1 || (i % w as int == x && i / (w as int)
                        < y + 1)) implies #[trigger] r@[i] == want[i] by {
                    if i != y * w + x {
                        assert(r@[i] == before[i]);
                        vstd::arithmetic::div_mod::lemma_fundamental_div_mod(i, w as int);
                        if i % w as int == x && i / (w as int) == y {
                            assert(w * y == y * w) by (nonlinear_arith);
                        }
                    }
                }
            }
        }
        proof {
            assert forall|i: int| 0 <= i < w * h && i % w as int <= x implies #[trigger] r@[i]
                == want[i] by {
                assert(i / (w as int) < h) by (nonlinear_arith)
                    requires
                        0 <= i < w * h,
                        w > 0,
                ;
            }
        }
    }
    proof {
        assert forall|i: int| 0 <= i < w * h implies r@[i] == want[i] by {
            assert(i % w as int <= w - 1);
        }
        assert(r@ =~= want);
    }
    r
}

/// Blurs a map both ways with a kernel; see `blurred`.
pub fn gaussian(map: &[i64], w: usize, h: usize, kernel: &[i64]) -> (r: Vec<i64>)
    requires
        0 < w <= MAX_CANVAS,
        0 < h <= MAX_CANVAS,
        map@.len() == w * h,
        kernel_ok(kernel@),
        values_ok(map@),
    ensures
        r@ == blurred(map@, w as int, h as int, kernel@),
        values_ok(r@),
{
    let across: Vec<i64> = blur_across(map, w, h, kernel);
    blur_down(across.as_slice(), w, h, kernel)
}

/// Where one blur of a map is darker than a wider one by more than the threshold.
pub open spec fn edge(a: i64, b: i64, threshold: i64) -> i64 {
    if a - b > threshold {
        FULL
    } else {
        0
    }
}

/// The edges of a map: full ink where the blur with the narrow kernel is darker than that
/// with the wide one by more than the threshold, none elsewhere.
pub fn dog_edges(
    map: &[i64],
    w: usize,
    h: usize,
    narrow: &[i64],
    wide: &[i64],
    threshold: i64,
) -> (r: Vec<i64>)
    requires
        0 < w <= MAX_CANVAS,
        0 < h <= MAX_CANVAS,
        map@.len() == w * h,
        kernel_ok(narrow@),
        kernel_ok(wide@),
        values_ok(map@),
    ensures
        r@.len() == w * h,
        forall|i: int|
            0 <= i < r@.len() ==> #[trigger] r@[i] == edge(
                blurred(map@, w as int, h as int, narrow@)[i],
                blurred(map@, w as int, h as int, wide@)[i],
                threshold,
            ),
{
    let a: Vec<i64> = gaussian(map, w, h, narrow);
    let b: Vec<i64> = gaussian(map, w, h, wide);
    let mut r: Vec<i64> = Vec::new();
    for i in 0..a.len()
        invariant
            a@.len() == b@.len(),
            r@.len() == i,
            forall|j: int| 0 <= j < i ==> #[trigger] r@[j] == edge(a@[j], b@[j], threshold),
    {
        let d: i128 = a[i] as i128 - b[i] as i128;
        r.push(if d > threshold as i128 { FULL } else { 0 });
    }
    r
}

/// A flat map has no edges, whatever the kernels.
pub proof fn lemma_flat_no_edges(
    map: Seq<i64>,
    w: int,
    h: int,
    narrow: Seq<i64>,
    wide: Seq<i64>,
    threshold: i64,
    v: i64,
    i: int,
)
    requires
        0 < w,
        0 < h,
        map.len() == w * h,
        kernel_ok(narrow),
        kernel_ok(wide),
        threshold >= 0,
        forall|j: int| 0 <= j < map.len() ==> #[trigger] map[j] == v,
        0 <= i < map.len(),
    ensures
        blurred(map, w, h, narrow)[i] == v,
        edge(blurred(map, w, h, narrow)[i], blurred(map, w, h, wide)[i], threshold) == 0,
{
    lemma_flat_stays(map, w, h, narrow, v, i);
    lemma_flat_stays(map, w, h, wide, v, i);
}

/// A flat map stays as it is.
pub proof fn lemma_flat_stays(map: Seq<i64>, w: int, h: int, kernel: Seq<i64>, v: i64, i: int)
    requires
        0 < w,
        0 < h,
        map.len() == w * h,
        kernel_ok(kernel),
        forall|j: int| 0 <= j < map.len() ==> #[trigger] map[j] == v,
        0 <= i < map.len(),
    ensures
        blurred(map, w, h, kernel)[i] == v,
{
    let across = blurred_across(map, w, kernel);
    assert forall|j: int| 0 <= j < across.len() implies #[trigger] across[j] == v by {
        lemma_row_col(w, h, j);
        let row = row_of(map, w, j / w);
        assert forall|x: int| 0 <= x < row.len() implies v <= #[trigger] row[x] <= v by {
            lemma_cell(w, h, x, j / w);
        }
        lemma_blur_between(row, kernel, j % w, v as int, v as int);
    }
    lemma_row_col(w, h, i);
    let column = column_of(across, w, h, i % w);
    assert forall|y: int| 0 <= y < column.len() implies v <= #[trigger] column[y] <= v by {
        lemma_cell(w, h, i % w, y);
    }
    lemma_blur_between(column, kernel, i / w, v as int, v as int);
}

proof fn lemma_row_col(w: int, h: int, i: int)
    requires
        0 < w,
        0 <= i < w * h,
    ensures
        0 <= i % w < w,
        0 <= i / w < h,
{
    assert(0 <= i / w < h) by (nonlinear_arith)
        requires
            0 <= i < w * h,
            w > 0,
    ;
}

} // verus!
