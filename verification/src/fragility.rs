//! Will a sheet survive being sprayed? Measures how wide the thinnest strands of material
//! are that hold it together.

use crate::chamfer::{at, cost, distances, inside, is_cut, is_distance, FAR};
use vstd::prelude::*;

verus! {

/// The stiffness readout for one layer.
#[derive(Clone, Copy, Debug, PartialEq, Eq, Structural)]
pub struct Fragility {
    /// How many cells of the sheet are cut away.
    pub removed: usize,
    /// How many cells the sheet has.
    pub total: usize,
    /// The width of the thinnest twentieth of the material, in thirds of a cell's side.
    pub neck_thirds: u32,
}

/// How far a strand's ridge may lie from a cell of it.
pub const REACH: usize = 3;

/// The highest distance that is told apart from greater ones.
pub const TOP: usize = 511;

/// Whether two cells lie at most `REACH` columns and rows apart.
pub open spec fn near(x: int, y: int, cx: int, cy: int) -> bool {
    -REACH <= cx - x <= REACH && -REACH <= cy - y <= REACH
}

/// Whether `v` is the greatest distance to a cut of any cell near the given one.
#[verifier::opaque]
pub open spec fn is_ridge(keep: Seq<bool>, w: int, h: int, x: int, y: int, v: int) -> bool {
    &&& forall|cx: int, cy: int, u: int| #[trigger]
        is_distance(keep, w, h, cx, cy, u) && inside(w, h, cx, cy) && near(x, y, cx, cy) ==> u <= v
    &&& exists|cx: int, cy: int| #[trigger]
        inside(w, h, cx, cy) && near(x, y, cx, cy) && is_distance(keep, w, h, cx, cy, v)
}

/// Whether `ridge` holds the ridge of every cell.
pub open spec fn ridges(keep: Seq<bool>, w: int, h: int, ridge: Seq<u16>) -> bool {
    &&& ridge.len() == w * h
    &&& forall|x: int, y: int| #[trigger]
        inside(w, h, x, y) ==> is_ridge(keep, w, h, x, y, ridge[at(w, x, y)] as int)
}

/// How many of the first `k` cells are kept.
pub open spec fn kept_count(keep: Seq<bool>, k: int) -> nat
    decreases k,
{
    if k <= 0 {
        0
    } else {
        kept_count(keep, k - 1) + if keep[k - 1] {
            1nat
        } else {
            0nat
        }
    }
}

/// A ridge as it is counted: values above `TOP` count as `TOP`.
pub open spec fn bucket(v: u16) -> int {
    if v < TOP {
        v as int
    } else {
        TOP as int
    }
}

/// How many of the first `k` cells are kept and have a ridge of at most `b`.
pub open spec fn count_upto(keep: Seq<bool>, ridge: Seq<u16>, b: int, k: int) -> nat
    decreases k,
{
    if k <= 0 {
        0
    } else {
        count_upto(keep, ridge, b, k - 1) + if keep[k - 1] && bucket(ridge[k - 1]) <= b {
            1nat
        } else {
            0nat
        }
    }
}

/// How many of the first `k` cells are kept and have a ridge of `b`.
spec fn count_in(keep: Seq<bool>, ridge: Seq<u16>, b: int, k: int) -> nat
    decreases k,
{
    if k <= 0 {
        0
    } else {
        count_in(keep, ridge, b, k - 1) + if keep[k - 1] && bucket(ridge[k - 1]) == b {
            1nat
        } else {
            0nat
        }
    }
}

/// A twentieth of the kept cells, rounded up.
pub open spec fn twentieth(kept: int) -> int {
    (kept + 19) / 20
}

/// Whether `p` is the least ridge that a twentieth of the kept cells does not exceed.
pub open spec fn is_thinnest(keep: Seq<bool>, ridge: Seq<u16>, n: int, p: int) -> bool {
    let target = twentieth(kept_count(keep, n) as int);
    &&& 0 <= p <= TOP
    &&& count_upto(keep, ridge, p, n) >= target
    &&& p > 0 ==> count_upto(keep, ridge, p - 1, n) < target
}

/// The width of a strand with ridge `p`, in thirds of a cell's side: twice the ridge, less
/// the half cell at either end.
pub open spec fn neck(p: int) -> int {
    if 2 * p > 3 {
        2 * p - 3
    } else {
        0
    }
}

/// Whether `thirds` is the neck of a sheet whose first `w * h` cells are given.
pub open spec fn is_neck(keep: Seq<bool>, w: int, h: int, thirds: int) -> bool {
    exists|ridge: Seq<u16>, p: int| #[trigger]
        is_thinnest(keep, ridge, w * h, p) && ridges(keep, w, h, ridge) && thirds == neck(p)
}

/// There is one distance only.
pub proof fn lemma_distance_unique(
    keep: Seq<bool>,
    w: int,
    h: int,
    x: int,
    y: int,
    u: int,
    v: int,
)
    requires
        is_distance(keep, w, h, x, y, u),
        is_distance(keep, w, h, x, y, v),
    ensures
        u == v,
{
    lemma_distance_order(keep, w, h, x, y, u, v);
    lemma_distance_order(keep, w, h, x, y, v, u);
}

proof fn lemma_distance_order(
    keep: Seq<bool>,
    w: int,
    h: int,
    x: int,
    y: int,
    u: int,
    v: int,
)
    requires
        is_distance(keep, w, h, x, y, u),
        is_distance(keep, w, h, x, y, v),
    ensures
        u <= v,
{
    if v != FAR {
        let (qx, qy) = choose|qx: int, qy: int| #[trigger]
            is_cut(keep, w, h, qx, qy) && cost(x, y, qx, qy) <= v;
        assert(u <= cost(x, y, qx, qy));
    }
}

/// More material never brings a cut nearer.
pub proof fn lemma_distance_monotone(
    a: Seq<bool>,
    b: Seq<bool>,
    w: int,
    h: int,
    x: int,
    y: int,
    u: int,
    v: int,
)
    requires
        forall|cx: int, cy: int| #[trigger] is_cut(b, w, h, cx, cy) ==> is_cut(a, w, h, cx, cy),
        is_distance(a, w, h, x, y, u),
        is_distance(b, w, h, x, y, v),
    ensures
        u <= v,
{
    if v != FAR {
        let (qx, qy) = choose|qx: int, qy: int| #[trigger]
            is_cut(b, w, h, qx, qy) && cost(x, y, qx, qy) <= v;
        assert(is_cut(a, w, h, qx, qy));
    }
}

/// Whether `v` is the greatest value of a row's cells near column `x`.
spec fn row_peak(d: Seq<u16>, w: int, x: int, y: int, v: u16) -> bool {
    &&& forall|cx: int|
        0 <= cx < w && -REACH <= cx - x <= REACH ==> #[trigger] d[at(w, cx, y)] <= v
    &&& exists|cx: int|
        0 <= cx < w && -REACH <= cx - x <= REACH && #[trigger] d[at(w, cx, y)] == v
}

/// Whether `v` is the greatest value of a column's cells near row `y`.
spec fn col_peak(d: Seq<u16>, w: int, h: int, x: int, y: int, v: u16) -> bool {
    &&& forall|cy: int|
        0 <= cy < h && -REACH <= cy - y <= REACH ==> #[trigger] d[at(w, x, cy)] <= v
    &&& exists|cy: int|
        0 <= cy < h && -REACH <= cy - y <= REACH && #[trigger] d[at(w, x, cy)] == v
}

proof fn lemma_cell(w: int, h: int, x: int, y: int)
    requires
        inside(w, h, x, y),
    ensures
        0 <= at(w, x, y) < w * h,
        0 <= y * w,
{
    assert(0 <= y * w + x < w * h && 0 <= y * w) by (nonlinear_arith)
        requires
            0 <= x < w,
            0 <= y < h,
    ;
}

fn peaks_across(d: &Vec<u16>, w: usize, h: usize) -> (r: Vec<u16>)
    requires
        d@.len() == w * h,
    ensures
        r@.len() == d@.len(),
        forall|x: int, y: int| #[trigger]
            inside(w as int, h as int, x, y) ==> row_peak(
                d@,
                w as int,
                x,
                y,
                r@[at(w as int, x, y)],
            ),
{
    let n: usize = d.len();
    let ghost wi = w as int;
    let ghost hi = h as int;
    let mut r: Vec<u16> = Vec::new();
    proof {
        assert(0 * w == 0) by (nonlinear_arith);
    }
    for y in 0..h
        invariant
            n == d@.len(),
            n == w * h,
            wi == w,
            hi == h,
            r@.len() == y * w,
            forall|cx: int, cy: int| #[trigger]
                inside(wi, hi, cx, cy) && cy < y ==> row_peak(d@, wi, cx, cy, r@[at(wi, cx, cy)]),
    {
        for x in 0..w
            invariant
                n == d@.len(),
                n == w * h,
                wi == w,
                hi == h,
                y < h,
                r@.len() == y * w + x,
                forall|cx: int, cy: int| #[trigger]
                    inside(wi, hi, cx, cy) && (cy < y || (cy == y && cx < x)) ==> row_peak(
                        d@,
                        wi,
                        cx,
                        cy,
                        r@[at(wi, cx, cy)],
                    ),
        {
            let lo: usize = if x > REACH { x - REACH } else { 0 };
            let hi_x: usize = if REACH < w - 1 - x { x + REACH } else { w - 1 };
            proof {
                assert(inside(wi, hi, x as int, y as int));
                assert(inside(wi, hi, lo as int, y as int));
                lemma_cell(wi, hi, x as int, y as int);
                lemma_cell(wi, hi, lo as int, y as int);
            }
            let mut best: u16 = d[y * w + lo];
            let ghost mut peak: int = lo as int;
            let mut cx: usize = lo + 1;
            while cx <= hi_x
                invariant
                    n == d@.len(),
                    n == w * h,
                    wi == w,
                    hi == h,
                    y < h,
                    hi_x < w,
                    lo < cx <= hi_x + 1,
                    lo <= peak < cx,
                    best == d@[at(wi, peak, y as int)],
                    forall|k: int| lo <= k < cx ==> #[trigger] d@[at(wi, k, y as int)] <= best,
                decreases hi_x + 1 - cx,
            {
                proof {
                    lemma_cell(wi, hi, cx as int, y as int);
                }
                let v: u16 = d[y * w + cx];
                if v > best {
                    best = v;
                    proof {
                        peak = cx as int;
                    }
                }
                cx = cx + 1;
            }
            let ghost r0 = r@;
            r.push(best);
            proof {
                assert(row_peak(d@, wi, x as int, y as int, best)) by {
                    assert(d@[at(wi, peak, y as int)] == best);
                }
                assert forall|cx: int, cy: int| #[trigger]
                    inside(wi, hi, cx, cy) && (cy < y || (cy == y && cx < x + 1)) implies row_peak(
                    d@,
                    wi,
                    cx,
                    cy,
                    r@[at(wi, cx, cy)],
                ) by {
                    lemma_cell(wi, hi, cx, cy);
                    if cy < y || cx < x {
                        assert(at(wi, cx, cy) < y * w + x) by (nonlinear_arith)
                            requires
                                at(wi, cx, cy) == cy * wi + cx,
                                wi == w,
                                0 <= cx < w,
                                0 <= x,
                                cy < y || (cy == y && cx < x),
                        ;
                        assert(r@[at(wi, cx, cy)] == r0[at(wi, cx, cy)]);
                    }
                }
            }
        }
        proof {
            assert((y + 1) * w == y * w + w) by (nonlinear_arith);
        }
    }
    proof {
        assert(h * w == w * h) by (nonlinear_arith);
    }
    r
}

fn peaks_down(d: &Vec<u16>, w: usize, h: usize) -> (r: Vec<u16>)
    requires
        d@.len() == w * h,
    ensures
        r@.len() == d@.len(),
        forall|x: int, y: int| #[trigger]
            inside(w as int, h as int, x, y) ==> col_peak(
                d@,
                w as int,
                h as int,
                x,
                y,
                r@[at(w as int, x, y)],
            ),
{
    let n: usize = d.len();
    let ghost wi = w as int;
    let ghost hi = h as int;
    let mut r: Vec<u16> = Vec::new();
    proof {
        assert(0 * w == 0) by (nonlinear_arith);
    }
    for y in 0..h
        invariant
            n == d@.len(),
            n == w * h,
            wi == w,
            hi == h,
            r@.len() == y * w,
            forall|cx: int, cy: int| #[trigger]
                inside(wi, hi, cx, cy) && cy < y ==> col_peak(
                    d@,
                    wi,
                    hi,
                    cx,
                    cy,
                    r@[at(wi, cx, cy)],
                ),
    {
        for x in 0..w
            invariant
                n == d@.len(),
                n == w * h,
                wi == w,
                hi == h,
                y < h,
                r@.len() == y * w + x,
                forall|cx: int, cy: int| #[trigger]
                    inside(wi, hi, cx, cy) && (cy < y || (cy == y && cx < x)) ==> col_peak(
                        d@,
                        wi,
                        hi,
                        cx,
                        cy,
                        r@[at(wi, cx, cy)],
                    ),
        {
            let lo: usize = if y > REACH { y - REACH } else { 0 };
            let hi_y: usize = if REACH < h - 1 - y { y + REACH } else { h - 1 };
            proof {
                assert(inside(wi, hi, x as int, y as int));
                assert(inside(wi, hi, x as int, lo as int));
                lemma_cell(wi, hi, x as int, y as int);
                lemma_cell(wi, hi, x as int, lo as int);
            }
            let mut best: u16 = d[lo * w + x];
            let ghost mut peak: int = lo as int;
            let mut cy: usize = lo + 1;
            while cy <= hi_y
                invariant
                    n == d@.len(),
                    n == w * h,
                    wi == w,
                    hi == h,
                    x < w,
                    hi_y < h,
                    lo < cy <= hi_y + 1,
                    lo <= peak < cy,
                    best == d@[at(wi, x as int, peak)],
                    forall|k: int| lo <= k < cy ==> #[trigger] d@[at(wi, x as int, k)] <= best,
                decreases hi_y + 1 - cy,
            {
                proof {
                    lemma_cell(wi, hi, x as int, cy as int);
                }
                let v: u16 = d[cy * w + x];
                if v > best {
                    best = v;
                    proof {
                        peak = cy as int;
                    }
                }
                cy = cy + 1;
            }
            let ghost r0 = r@;
            r.push(best);
            proof {
                assert(col_peak(d@, wi, hi, x as int, y as int, best)) by {
                    assert(d@[at(wi, x as int, peak)] == best);
                }
                assert forall|cx: int, cy: int| #[trigger]
                    inside(wi, hi, cx, cy) && (cy < y || (cy == y && cx < x + 1)) implies col_peak(
                    d@,
                    wi,
                    hi,
                    cx,
                    cy,
                    r@[at(wi, cx, cy)],
                ) by {
                    lemma_cell(wi, hi, cx, cy);
                    if cy < y || cx < x {
                        assert(at(wi, cx, cy) < y * w + x) by (nonlinear_arith)
                            requires
                                at(wi, cx, cy) == cy * wi + cx,
                                wi == w,
                                0 <= cx < w,
                                0 <= x,
                                cy < y || (cy == y && cx < x),
                        ;
                        assert(r@[at(wi, cx, cy)] == r0[at(wi, cx, cy)]);
                    }
                }
            }
        }
        proof {
            assert((y + 1) * w == y * w + w) by (nonlinear_arith);
        }
    }
    proof {
        assert(h * w == w * h) by (nonlinear_arith);
    }
    r
}

/// The ridge of every cell; see `is_ridge`.
fn ridge_map(keep: &[bool], w: usize, h: usize) -> (r: Vec<u16>)
    requires
        keep@.len() == w * h,
    ensures
        ridges(keep@, w as int, h as int, r@),
{
    let d: Vec<u16> = distances(keep, w, h);
    let across: Vec<u16> = peaks_across(&d, w, h);
    let r: Vec<u16> = peaks_down(&across, w, h);
    proof {
        let wi = w as int;
        let hi = h as int;
        assert forall|x: int, y: int| #[trigger] inside(wi, hi, x, y) implies is_ridge(
            keep@,
            wi,
            hi,
            x,
            y,
            r@[at(wi, x, y)] as int,
        ) by {
            reveal(is_ridge);
            let v = r@[at(wi, x, y)];
            assert(col_peak(across@, wi, hi, x, y, v));
            assert forall|cx: int, cy: int, u: int| #[trigger]
                is_distance(keep@, wi, hi, cx, cy, u) && inside(wi, hi, cx, cy) && near(
                    x,
                    y,
                    cx,
                    cy,
                ) implies u <= v by {
                assert(inside(wi, hi, x, cy));
                let m = across@[at(wi, x, cy)];
                assert(row_peak(d@, wi, x, cy, m));
                assert(d@[at(wi, cx, cy)] <= m);
                lemma_distance_unique(keep@, wi, hi, cx, cy, u, d@[at(wi, cx, cy)] as int);
            }
            let cy = choose|cy: int|
                0 <= cy < hi && -REACH <= cy - y <= REACH && #[trigger] across@[at(wi, x, cy)]
                    == v;
            assert(inside(wi, hi, x, cy));
            assert(row_peak(d@, wi, x, cy, v));
            let cx = choose|cx: int|
                0 <= cx < wi && -REACH <= cx - x <= REACH && #[trigger] d@[at(wi, cx, cy)] == v;
            assert(inside(wi, hi, cx, cy) && near(x, y, cx, cy));
            assert(is_distance(keep@, wi, hi, cx, cy, v as int));
        }
    }
    r
}

proof fn lemma_count_split(keep: Seq<bool>, ridge: Seq<u16>, b: int, k: int)
    requires
        0 <= k,
    ensures
        count_upto(keep, ridge, b, k) == count_upto(keep, ridge, b - 1, k) + count_in(
            keep,
            ridge,
            b,
            k,
        ),
    decreases k,
{
    if k > 0 {
        lemma_count_split(keep, ridge, b, k - 1);
    }
}

proof fn lemma_count_all(keep: Seq<bool>, ridge: Seq<u16>, k: int)
    requires
        0 <= k,
    ensures
        count_upto(keep, ridge, TOP as int, k) == kept_count(keep, k),
        count_upto(keep, ridge, -1, k) == 0,
        kept_count(keep, k) <= k,
    decreases k,
{
    if k > 0 {
        lemma_count_all(keep, ridge, k - 1);
    }
}

/// The least ridge that a twentieth of the kept cells does not exceed.
fn thinnest(keep: &[bool], ridge: &Vec<u16>, kept: usize) -> (p: usize)
    requires
        keep@.len() == ridge@.len(),
        kept == kept_count(keep@, keep@.len() as int),
        kept > 0,
    ensures
        is_thinnest(keep@, ridge@, keep@.len() as int, p as int),
{
    let n: usize = keep.len();
    let mut hist: Vec<usize> = Vec::new();
    let mut fill: usize = 0;
    while fill < TOP + 1
        invariant
            fill <= TOP + 1,
            hist@.len() == fill,
            forall|b: int| 0 <= b < fill ==> hist@[b] == 0,
        decreases TOP + 1 - fill,
    {
        hist.push(0);
        fill = fill + 1;
    }
    for i in 0..n
        invariant
            n == keep@.len(),
            n == ridge@.len(),
            hist@.len() == TOP + 1,
            forall|b: int|
                0 <= b <= TOP ==> #[trigger] hist@[b] == count_in(keep@, ridge@, b, i as int),
            forall|b: int| 0 <= b <= TOP ==> #[trigger] hist@[b] <= i,
    {
        if keep[i] {
            let r: usize = ridge[i] as usize;
            let b: usize = if r < TOP { r } else { TOP };
            let c: usize = hist[b] + 1;
            hist.set(b, c);
        }
    }
    let target: usize = kept / 20 + if kept % 20 > 0 { 1 } else { 0 };
    proof {
        lemma_count_all(keep@, ridge@, n as int);
        assert(target == twentieth(kept as int));
    }
    let mut acc: usize = 0;
    let mut b: usize = 0;
    loop
        invariant
            n == keep@.len(),
            n == ridge@.len(),
            hist@.len() == TOP + 1,
            forall|c: int|
                0 <= c <= TOP ==> #[trigger] hist@[c] == count_in(keep@, ridge@, c, n as int),
            b <= TOP,
            acc == count_upto(keep@, ridge@, b - 1, n as int),
            acc < target,
            target <= kept,
            kept == kept_count(keep@, n as int),
            target == twentieth(kept as int),
            count_upto(keep@, ridge@, TOP as int, n as int) == kept,
        decreases TOP - b,
    {
        proof {
            lemma_count_split(keep@, ridge@, b as int, n as int);
            lemma_count_bound(keep@, ridge@, b as int, n as int);
        }
        acc = acc + hist[b];
        if acc >= target {
            return b;
        }
        b = b + 1;
    }
}

proof fn lemma_count_bound(keep: Seq<bool>, ridge: Seq<u16>, b: int, k: int)
    requires
        0 <= k,
    ensures
        count_upto(keep, ridge, b, k) <= k,
    decreases k,
{
    if k > 0 {
        lemma_count_bound(keep, ridge, b, k - 1);
    }
}

/// Whether `f` is the readout of a sheet of `w` by `h` cells. A mask that is shorter than
/// the sheet is not measured; a sheet without material has no neck.
pub open spec fn measured(keep: Seq<bool>, w: int, h: int, f: Fragility) -> bool {
    let n = w * h;
    let kept = kept_count(keep, n);
    &&& f.total == n
    &&& if n == 0 || keep.len() < n {
        f.removed == 0 && f.neck_thirds == 0
    } else {
        &&& f.removed == n - kept
        &&& if kept == 0 {
            f.neck_thirds == 0
        } else {
            is_neck(keep.take(n), w, h, f.neck_thirds as int)
        }
    }
}

/// Measures one layer; a kept cell is material that stays. A mask that is shorter than the
/// sheet is not measured.
pub fn measure(keep: &[bool], w: usize, h: usize) -> (r: Fragility)
    requires
        w * h <= usize::MAX,
    ensures
        measured(keep@, w as int, h as int, r),
{
    let n: usize = w * h;
    if n == 0 || keep.len() < n {
        return Fragility { removed: 0, total: n, neck_thirds: 0 };
    }
    let sheet: &[bool] = vstd::slice::slice_subrange(keep, 0, n);
    let mut kept: usize = 0;
    for i in 0..n
        invariant
            n == sheet@.len(),
            n <= keep@.len(),
            sheet@ == keep@.take(n as int),
            kept == kept_count(keep@, i as int),
            kept == kept_count(sheet@, i as int),
            kept <= i,
    {
        if sheet[i] {
            kept = kept + 1;
        }
    }
    if kept == 0 {
        return Fragility { removed: n, total: n, neck_thirds: 0 };
    }
    let ridge: Vec<u16> = ridge_map(sheet, w, h);
    let p: usize = thinnest(sheet, &ridge, kept);
    let thirds: u32 = if 2 * p > 3 { (2 * p - 3) as u32 } else { 0 };
    proof {
        assert(is_thinnest(sheet@, ridge@, w * h, p as int));
    }
    Fragility { removed: n - kept, total: n, neck_thirds: thirds }
}

proof fn lemma_count_none(keep: Seq<bool>, ridge: Seq<u16>, b: int, k: int)
    requires
        0 <= k <= ridge.len(),
        b < TOP,
        forall|i: int| 0 <= i < ridge.len() ==> bucket(#[trigger] ridge[i]) == TOP,
    ensures
        count_upto(keep, ridge, b, k) == 0,
    decreases k,
{
    if k > 0 {
        lemma_count_none(keep, ridge, b, k - 1);
        assert(bucket(ridge[k - 1]) == TOP);
    }
}

proof fn lemma_solid_ridge(keep: Seq<bool>, w: int, h: int, x: int, y: int, v: int)
    requires
        keep.len() == w * h,
        forall|i: int| 0 <= i < keep.len() ==> #[trigger] keep[i],
        is_ridge(keep, w, h, x, y, v),
    ensures
        v == FAR,
{
    reveal(is_ridge);
    let (cx, cy) = choose|cx: int, cy: int| #[trigger]
        inside(w, h, cx, cy) && near(x, y, cx, cy) && is_distance(keep, w, h, cx, cy, v);
    if v != FAR {
        let (qx, qy) = choose|qx: int, qy: int| #[trigger]
            is_cut(keep, w, h, qx, qy) && cost(cx, cy, qx, qy) <= v;
        lemma_cell(w, h, qx, qy);
    }
}

/// A sheet without a cut has the greatest neck that is told.
pub proof fn lemma_solid_neck(keep: Seq<bool>, w: int, h: int, thirds: int)
    requires
        w > 0,
        h > 0,
        keep.len() == w * h,
        forall|i: int| 0 <= i < keep.len() ==> #[trigger] keep[i],
        is_neck(keep, w, h, thirds),
    ensures
        thirds == 2 * TOP - 3,
{
    let (ridge, p) = choose|ridge: Seq<u16>, p: int| #[trigger]
        is_thinnest(keep, ridge, w * h, p) && ridges(keep, w, h, ridge) && thirds == neck(p);
    assert forall|i: int| 0 <= i < ridge.len() implies bucket(#[trigger] ridge[i]) == TOP by {
        let x = i % w;
        let y = i / w;
        vstd::arithmetic::div_mod::lemma_fundamental_div_mod(i, w);
        assert(0 <= x < w && 0 <= y < h && y * w + x == i) by (nonlinear_arith)
            requires
                w > 0,
                0 <= i < w * h,
                x == i % w,
                y == i / w,
                i == w * (i / w) + i % w,
        ;
        assert(inside(w, h, x, y));
        lemma_solid_ridge(keep, w, h, x, y, ridge[i] as int);
    }
    lemma_count_all(keep, ridge, w * h);
    lemma_all_kept(keep, w * h);
    assert(w * h >= 1) by (nonlinear_arith)
        requires
            w > 0,
            h > 0,
    ;
    if p < TOP {
        lemma_count_none(keep, ridge, p, w * h);
    }
}

proof fn lemma_all_kept(keep: Seq<bool>, k: int)
    requires
        0 <= k <= keep.len(),
        forall|i: int| 0 <= i < keep.len() ==> #[trigger] keep[i],
    ensures
        kept_count(keep, k) == k,
    decreases k,
{
    if k > 0 {
        lemma_all_kept(keep, k - 1);
    }
}

} // verus!
