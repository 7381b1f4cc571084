//! What the stiffness readout says of stripes: how wide their strands are, and that wider
//! strands never read a thinner neck.

use crate::chamfer::{at, cost, inside, is_cut, is_distance, FAR};
use crate::fragility::{
    bucket, count_upto, is_ridge, is_thinnest, kept_count, measured, near, neck, ridges,
    twentieth, Fragility, REACH,
};
use vstd::prelude::*;

verus! {

/// A sheet of `w` by `h` cells cut into upright strands of `m` columns, with `c` columns cut
/// away after each.
pub open spec fn stripes(w: int, h: int, m: int, c: int) -> Seq<bool> {
    Seq::new((w * h) as nat, |i: int| (i % w) % (m + c) < m)
}

/// Half the width of a strand, rounded up: how far its middle lies from the cuts.
pub open spec fn middle(m: int) -> int {
    (m + 1) / 2
}

/// Whether column `x` belongs to a strand.
spec fn kept_col(m: int, c: int, x: int) -> bool {
    x % (m + c) < m
}

/// The first column of the strand that column `x` belongs to.
spec fn strand_of(m: int, c: int, x: int) -> int {
    x - x % (m + c)
}

/// Whether column `x` belongs to a strand with a cut on either side.
spec fn thin_col(w: int, m: int, c: int, x: int) -> bool {
    kept_col(m, c, x) && strand_of(m, c, x) > 0 && strand_of(m, c, x) + m < w
}

/// How many of the first `x` columns belong to a strand.
spec fn kept_cols(m: int, c: int, x: int) -> nat
    decreases x,
{
    if x <= 0 {
        0
    } else {
        kept_cols(m, c, x - 1) + if kept_col(m, c, x - 1) {
            1nat
        } else {
            0nat
        }
    }
}

/// How many of the first `x` columns belong to a strand with a cut on either side.
spec fn thin_cols(w: int, m: int, c: int, x: int) -> nat
    decreases x,
{
    if x <= 0 {
        0
    } else {
        thin_cols(w, m, c, x - 1) + if thin_col(w, m, c, x - 1) {
            1nat
        } else {
            0nat
        }
    }
}

/// The remainder of a number within a period of `p` that starts at a multiple of it.
proof fn lemma_period(p: int, k: int, x: int)
    requires
        p > 0,
        0 <= x - k * p < p,
    ensures
        x % p == x - k * p,
        x / p == k,
{
    vstd::arithmetic::div_mod::lemma_fundamental_div_mod_converse(x, p, k, x - k * p);
}

/// The strand of column `x` starts at a multiple of the period.
proof fn lemma_strand(m: int, c: int, x: int)
    requires
        m > 0,
        c > 0,
        0 <= x,
    ensures
        strand_of(m, c, x) == (x / (m + c)) * (m + c),
        0 <= x / (m + c),
        0 <= strand_of(m, c, x) <= x < strand_of(m, c, x) + m + c,
        kept_col(m, c, x) ==> x < strand_of(m, c, x) + m,
        forall|q: int|
            strand_of(m, c, x) <= q < strand_of(m, c, x) + m + c ==> #[trigger] kept_col(m, c, q) == (
            q < strand_of(m, c, x) + m),
        strand_of(m, c, x) > 0 ==> strand_of(m, c, x) >= m + c,
{
    let p = m + c;
    let k = x / p;
    assert(x == k * p + x % p && 0 <= x % p < p && 0 <= k) by (nonlinear_arith)
        requires
            p > 0,
            x >= 0,
            k == x / p,
    ;
    let a = strand_of(m, c, x);
    assert(0 <= k * p) by (nonlinear_arith)
        requires
            0 <= k,
            p > 0,
    ;
    if a > 0 {
        assert(k * p >= p) by (nonlinear_arith)
            requires
                k * p > 0,
                p > 0,
        ;
    }
    assert forall|q: int| a <= q < a + p implies #[trigger] kept_col(m, c, q) == (q < a + m) by {
        lemma_period(p, k, q);
    }
}

/// The cell in column `x` of row `y` is material where the column belongs to a strand.
proof fn lemma_stripe_cell(w: int, h: int, m: int, c: int, x: int, y: int)
    requires
        inside(w, h, x, y),
    ensures
        0 <= at(w, x, y) < w * h,
        stripes(w, h, m, c)[at(w, x, y)] == kept_col(m, c, x),
        is_cut(stripes(w, h, m, c), w, h, x, y) == !kept_col(m, c, x),
{
    assert(0 <= y * w + x < w * h) by (nonlinear_arith)
        requires
            0 <= x < w,
            0 <= y < h,
    ;
    lemma_period(w, y, at(w, x, y));
}

/// No cell near a strand with cuts on both sides lies farther from a cut than the strand's
/// middle.
proof fn lemma_thin_ridge(w: int, h: int, m: int, c: int, x: int, y: int, v: int)
    requires
        m > 0,
        c >= REACH,
        inside(w, h, x, y),
        thin_col(w, m, c, x),
        is_ridge(stripes(w, h, m, c), w, h, x, y, v),
    ensures
        v <= 3 * middle(m),
{
    let keep = stripes(w, h, m, c);
    reveal(is_ridge);
    let (cx, cy) = choose|cx: int, cy: int| #[trigger]
        inside(w, h, cx, cy) && near(x, y, cx, cy) && is_distance(keep, w, h, cx, cy, v);
    let a = strand_of(m, c, x);
    lemma_strand(m, c, x);
    lemma_strand(m, c, a - 1);
    let p = m + c;
    let k = x / p;
    assert((k - 1) * p == k * p - p) by (nonlinear_arith);
    lemma_period(p, k - 1, a - 1);
    assert(strand_of(m, c, a - 1) == a - p);
    let q = if a - c <= cx < a {
        cx
    } else if a + m <= cx {
        cx
    } else if cx - (a - 1) <= (a + m) - cx {
        a - 1
    } else {
        a + m
    };
    assert(!kept_col(m, c, q));
    lemma_stripe_cell(w, h, m, c, q, cy);
    assert(is_cut(keep, w, h, q, cy));
    assert(v <= cost(cx, cy, q, cy));
}

/// Near every cell of a strand lies one that is `q` columns or more from any cut, where the
/// strand is that wide.
proof fn lemma_wide_ridge(w: int, h: int, m: int, c: int, q: int, x: int, y: int, v: int)
    requires
        c > 0,
        1 <= q <= REACH + 1,
        2 * q - 1 <= m,
        w % (m + c) == 0 || w % (m + c) >= q,
        inside(w, h, x, y),
        kept_col(m, c, x),
        is_ridge(stripes(w, h, m, c), w, h, x, y, v),
    ensures
        v >= 3 * q,
{
    let keep = stripes(w, h, m, c);
    let p = m + c;
    reveal(is_ridge);
    let a = strand_of(m, c, x);
    lemma_strand(m, c, x);
    if a + m > w {
        lemma_period(p, x / p, w);
        assert(w >= a + q);
    }
    let cx = if a > 0 && x < a + q - 1 {
        a + q - 1
    } else if a + m < w && x > a + m - q {
        a + m - q
    } else {
        x
    };
    assert(inside(w, h, cx, y) && near(x, y, cx, y));
    assert forall|qx: int, qy: int| #[trigger] is_cut(keep, w, h, qx, qy) implies 3 * q <= cost(
        cx,
        y,
        qx,
        qy,
    ) by {
        lemma_stripe_cell(w, h, m, c, qx, qy);
        assert(qx < a || qx >= a + m);
    }
    lemma_distance_least(keep, w, h, cx, y, 3 * q);
    let u = choose|u: int| is_distance(keep, w, h, cx, y, u) && u >= 3 * q;
    assert(u <= v);
}

/// Every cell has a distance, and it is at least what no cut undercuts.
proof fn lemma_distance_least(keep: Seq<bool>, w: int, h: int, x: int, y: int, b: int)
    requires
        0 <= b <= FAR,
        forall|qx: int, qy: int| #[trigger]
            is_cut(keep, w, h, qx, qy) ==> b <= cost(x, y, qx, qy),
    ensures
        exists|u: int| is_distance(keep, w, h, x, y, u) && u >= b,
    decreases FAR - b,
{
    if b == FAR {
        assert(is_distance(keep, w, h, x, y, b));
    } else if exists|qx: int, qy: int| #[trigger]
        is_cut(keep, w, h, qx, qy) && cost(x, y, qx, qy) <= b {
        assert(is_distance(keep, w, h, x, y, b));
    } else {
        lemma_distance_least(keep, w, h, x, y, b + 1);
    }
}

/// The rows of a striped sheet are alike: what holds of its columns is counted once for
/// each.
proof fn lemma_rows(
    w: int,
    h: int,
    m: int,
    c: int,
    ridge: Seq<u16>,
    x: int,
    y: int,
)
    requires
        m > 0,
        c >= REACH,
        m <= 2 * (REACH + 1),
        ridges(stripes(w, h, m, c), w, h, ridge),
        0 <= x <= w,
        0 <= y,
        x > 0 ==> y < h,
        x == 0 ==> y <= h,
        w > 0,
    ensures
        count_upto(stripes(w, h, m, c), ridge, 3 * middle(m), at(w, x, y)) >= y * thin_cols(
            w,
            m,
            c,
            w,
        ) + thin_cols(w, m, c, x),
    decreases y, x,
{
    let keep = stripes(w, h, m, c);
    let t = thin_cols(w, m, c, w) as int;
    if x > 0 {
        lemma_rows(w, h, m, c, ridge, x - 1, y);
        assert(inside(w, h, x - 1, y));
        lemma_stripe_cell(w, h, m, c, x - 1, y);
        if thin_col(w, m, c, x - 1) {
            lemma_thin_ridge(w, h, m, c, x - 1, y, ridge[at(w, x - 1, y)] as int);
            assert(bucket(ridge[at(w, x - 1, y)]) <= 3 * middle(m));
        }
        assert(at(w, x, y) == at(w, x - 1, y) + 1);
    } else if y > 0 {
        lemma_rows(w, h, m, c, ridge, w, y - 1);
        assert(at(w, w, y - 1) == at(w, 0, y)) by (nonlinear_arith);
        assert((y - 1) * t + t == y * t) by (nonlinear_arith);
    } else {
        assert(0 * t == 0 && 0 * w == 0) by (nonlinear_arith);
    }
}

proof fn lemma_kept_rows(w: int, h: int, m: int, c: int, x: int, y: int)
    requires
        0 <= x <= w,
        0 <= y,
        x > 0 ==> y < h,
        x == 0 ==> y <= h,
        w > 0,
    ensures
        kept_count(stripes(w, h, m, c), at(w, x, y)) == y * kept_cols(m, c, w) + kept_cols(m, c, x),
    decreases y, x,
{
    let t = kept_cols(m, c, w) as int;
    if x > 0 {
        lemma_kept_rows(w, h, m, c, x - 1, y);
        lemma_stripe_cell(w, h, m, c, x - 1, y);
        assert(at(w, x, y) == at(w, x - 1, y) + 1);
    } else if y > 0 {
        lemma_kept_rows(w, h, m, c, w, y - 1);
        assert(at(w, w, y - 1) == at(w, 0, y)) by (nonlinear_arith);
        assert((y - 1) * t + t == y * t) by (nonlinear_arith);
    } else {
        assert(0 * t == 0 && 0 * w == 0) by (nonlinear_arith);
    }
}

/// The part of `x` columns that lies among the `m` from column `z` on.
spec fn share(x: int, z: int, m: int) -> int {
    if x <= z {
        0
    } else if x >= z + m {
        m
    } else {
        x - z
    }
}

/// All strands but the first and the last have cuts on both sides.
proof fn lemma_outer_strands(w: int, m: int, c: int, x: int)
    requires
        m > 0,
        c > 0,
        0 <= x <= w,
    ensures
        kept_cols(m, c, x) <= thin_cols(w, m, c, x) + share(x, 0, m) + share(
            x,
            strand_of(m, c, w),
            m,
        ),
    decreases x,
{
    if x > 0 {
        lemma_outer_strands(w, m, c, x - 1);
        if kept_col(m, c, x - 1) && !thin_col(w, m, c, x - 1) {
            let p = m + c;
            let a = strand_of(m, c, x - 1);
            lemma_strand(m, c, x - 1);
            lemma_strand(m, c, w);
            if a > 0 {
                assert(a + m >= w);
                let (i, j, z) = ((x - 1) / p, w / p, strand_of(m, c, w));
                assert(i == j) by (nonlinear_arith)
                    requires
                        p > 0,
                        a == i * p,
                        z == j * p,
                        z <= w < z + p,
                        a < w < a + p,
                ;
            }
        }
    }
}

proof fn lemma_second_strand(w: int, m: int, c: int, x: int)
    requires
        m > 0,
        c > 0,
        2 * m + c < w,
        0 <= x,
    ensures
        thin_cols(w, m, c, x) >= share(x, m + c, m),
    decreases x,
{
    if x > 0 {
        lemma_second_strand(w, m, c, x - 1);
        if m + c <= x - 1 < 2 * m + c {
            lemma_period(m + c, 1, x - 1);
        }
    }
}

proof fn lemma_count_order(keep: Seq<bool>, ridge: Seq<u16>, a: int, b: int, k: int)
    requires
        a <= b,
    ensures
        count_upto(keep, ridge, a, k) <= count_upto(keep, ridge, b, k),
    decreases k,
{
    if k > 0 {
        lemma_count_order(keep, ridge, a, b, k - 1);
    }
}

proof fn lemma_none_thinner(keep: Seq<bool>, ridge: Seq<u16>, b: int, k: int)
    requires
        0 <= k <= keep.len(),
        forall|i: int| 0 <= i < k && keep[i] ==> bucket(#[trigger] ridge[i]) > b,
    ensures
        count_upto(keep, ridge, b, k) == 0,
    decreases k,
{
    if k > 0 {
        lemma_none_thinner(keep, ridge, b, k - 1);
        assert(keep[k - 1] ==> bucket(ridge[k - 1]) > b);
    }
}

/// The thinnest twentieth of a striped sheet is no wider than its strands.
proof fn lemma_stripes_at_most(w: int, h: int, m: int, c: int, ridge: Seq<u16>, p: int)
    requires
        w > 0,
        h > 0,
        0 < m <= 2 * (REACH + 1),
        c >= REACH,
        2 * m + c < w,
        ridges(stripes(w, h, m, c), w, h, ridge),
        is_thinnest(stripes(w, h, m, c), ridge, w * h, p),
    ensures
        p <= 3 * middle(m),
{
    let keep = stripes(w, h, m, c);
    let b = 3 * middle(m);
    lemma_rows(w, h, m, c, ridge, 0, h);
    lemma_kept_rows(w, h, m, c, 0, h);
    assert(at(w, 0, h) == w * h) by (nonlinear_arith);
    let (k, t) = (kept_cols(m, c, w) as int, thin_cols(w, m, c, w) as int);
    lemma_outer_strands(w, m, c, w);
    lemma_second_strand(w, m, c, w);
    assert(k <= 3 * t);
    let (f, g) = (kept_count(keep, w * h) as int, count_upto(keep, ridge, b, w * h) as int);
    assert(f <= 3 * g && g >= 1) by (nonlinear_arith)
        requires
            f == h * k,
            g >= h * t,
            k <= 3 * t,
            t >= 1,
            h > 0,
    ;
    assert(twentieth(f) <= g);
    if p > b {
        lemma_count_order(keep, ridge, b, p - 1, w * h);
    }
}

/// The thinnest twentieth of a striped sheet is no thinner than `q` columns, where all its
/// strands are that wide.
proof fn lemma_stripes_at_least(w: int, h: int, m: int, c: int, q: int, ridge: Seq<u16>, p: int)
    requires
        w > 0,
        h > 0,
        c > 0,
        1 <= q <= REACH + 1,
        2 * q - 1 <= m,
        w % (m + c) == 0 || w % (m + c) >= q,
        ridges(stripes(w, h, m, c), w, h, ridge),
        is_thinnest(stripes(w, h, m, c), ridge, w * h, p),
        kept_count(stripes(w, h, m, c), w * h) > 0,
    ensures
        p >= 3 * q,
{
    let keep = stripes(w, h, m, c);
    assert forall|i: int| 0 <= i < w * h && keep[i] implies bucket(#[trigger] ridge[i]) > 3 * q - 1 by {
        let (x, y) = (i % w, i / w);
        assert(i == y * w + x && 0 <= x < w && 0 <= y < h) by (nonlinear_arith)
            requires
                w > 0,
                0 <= i < w * h,
                x == i % w,
                y == i / w,
        ;
        assert(inside(w, h, x, y) && at(w, x, y) == i);
        lemma_wide_ridge(w, h, m, c, q, x, y, ridge[i] as int);
    }
    lemma_none_thinner(keep, ridge, 3 * q - 1, w * h);
    if p < 3 * q {
        lemma_count_order(keep, ridge, p, 3 * q - 1, w * h);
    }
}

/// Wider strands never read a thinner neck: of two sheets cut into stripes with equal gaps,
/// that with the wider strands has no thinner neck. The gaps are wider than the search for a
/// strand's middle reaches, the narrower strands narrow enough that it finds their middle,
/// one of them has a gap on either side, and the edge of the sheet leaves the last of the
/// wider strands at least half as wide as the narrower ones.
pub proof fn lemma_wider_stripes(
    w: int,
    h: int,
    m1: int,
    m2: int,
    c: int,
    f1: Fragility,
    f2: Fragility,
)
    requires
        h >= 0,
        1 <= m1 <= m2,
        m1 <= 2 * (REACH + 1),
        c >= REACH,
        2 * m1 + c < w,
        w % (m2 + c) == 0 || w % (m2 + c) >= middle(m1),
        measured(stripes(w, h, m1, c), w, h, f1),
        measured(stripes(w, h, m2, c), w, h, f2),
    ensures
        f1.neck_thirds <= f2.neck_thirds,
{
    let (k1, k2) = (stripes(w, h, m1, c), stripes(w, h, m2, c));
    let n = w * h;
    assert(n >= 0 && (h > 0 ==> n > 0) && (h == 0 ==> n == 0)) by (nonlinear_arith)
        requires
            n == w * h,
            w > 0,
            h >= 0,
    ;
    if h > 0 {
        assert(k1.take(n) =~= k1 && k2.take(n) =~= k2);
        lemma_kept_rows(w, h, m2, c, 0, h);
        assert(at(w, 0, h) == n) by (nonlinear_arith)
            requires
                n == w * h,
                at(w, 0, h) == h * w + 0,
        ;
        lemma_first_col(m2, c, w);
        let k = kept_cols(m2, c, w) as int;
        assert(h * k > 0) by (nonlinear_arith)
            requires
                h > 0,
                k > 0,
        ;
        let (r2, p2) = choose|ridge: Seq<u16>, p: int| #[trigger]
            is_thinnest(k2, ridge, n, p) && ridges(k2, w, h, ridge) && f2.neck_thirds == neck(p);
        lemma_stripes_at_least(w, h, m2, c, middle(m1), r2, p2);
        if kept_count(k1, n) > 0 {
            let (r1, p1) = choose|ridge: Seq<u16>, p: int| #[trigger]
                is_thinnest(k1, ridge, n, p) && ridges(k1, w, h, ridge) && f1.neck_thirds == neck(
                    p,
                );
            lemma_stripes_at_most(w, h, m1, c, r1, p1);
        }
    }
}

/// The neck of a sheet cut into stripes is the width of its strands, as far as the search for
/// their middle reaches: a strand of an odd number of columns reads its own width in thirds of
/// a cell, one of an even number that of the next narrower.
pub proof fn lemma_stripe_neck(w: int, h: int, m: int, c: int, f: Fragility)
    requires
        h > 0,
        1 <= m <= 8,
        c >= 3,
        2 * m + c < w,
        w % (m + c) == 0 || w % (m + c) >= (m + 1) / 2,
        measured(stripes(w, h, m, c), w, h, f),
    ensures
        m % 2 == 1 ==> f.neck_thirds == 3 * m,
        m % 2 == 0 ==> f.neck_thirds == 3 * (m - 1),
{
    let keep = stripes(w, h, m, c);
    let n = w * h;
    assert(n > 0) by (nonlinear_arith)
        requires
            n == w * h,
            w > 0,
            h > 0,
    ;
    assert(keep.take(n) =~= keep);
    lemma_kept_rows(w, h, m, c, 0, h);
    assert(at(w, 0, h) == n) by (nonlinear_arith)
        requires
            n == w * h,
            at(w, 0, h) == h * w + 0,
    ;
    lemma_first_col(m, c, w);
    let k = kept_cols(m, c, w) as int;
    assert(h * k > 0) by (nonlinear_arith)
        requires
            h > 0,
            k > 0,
    ;
    let (ridge, p) = choose|ridge: Seq<u16>, p: int| #[trigger]
        is_thinnest(keep, ridge, n, p) && ridges(keep, w, h, ridge) && f.neck_thirds == neck(p);
    lemma_stripes_at_most(w, h, m, c, ridge, p);
    lemma_stripes_at_least(w, h, m, c, middle(m), ridge, p);
}

proof fn lemma_first_col(m: int, c: int, x: int)
    requires
        m > 0,
        c > 0,
        x > 0,
    ensures
        kept_cols(m, c, x) > 0,
    decreases x,
{
    if x > 1 {
        lemma_first_col(m, c, x - 1);
    } else {
        lemma_period(m + c, 0, 0);
        assert(kept_cols(m, c, 0) == 0);
    }
}

} // verus!
