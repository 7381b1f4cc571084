//! Clustering of colours: k-means in CIELAB, without chance.

use crate::arith::floor_div;
use crate::lab::{lab_bounded, lab_dist, lab_distance, labs_of, pixels_to_lab, Lab};
use crate::order::{order_by_key, ordered};
use vstd::prelude::*;

verus! {

/// The squared distance, in squared millionths, above which a centre counts as moved.
pub const STILL: i128 = 100_000_000;

/// The most rounds that centres are moved.
pub const ROUNDS: usize = 20;

/// The first of the nearest among the first `k` centres.
pub open spec fn nearest_of(centers: Seq<Lab>, c: Lab, k: int) -> int
    decreases k,
{
    if k <= 1 {
        0
    } else {
        let b = nearest_of(centers, c, k - 1);
        if lab_dist(c, centers[k - 1]) < lab_dist(c, centers[b]) {
            k - 1
        } else {
            b
        }
    }
}

/// The centre nearest to a colour, the first of several.
pub open spec fn nearest_center(centers: Seq<Lab>, c: Lab) -> int {
    nearest_of(centers, c, centers.len() as int)
}

/// One part of a colour: lightness, green to red, or blue to yellow for 0, 1, 2.
pub open spec fn part(c: Lab, ch: int) -> int {
    if ch == 0 {
        c.l as int
    } else if ch == 1 {
        c.a as int
    } else {
        c.b as int
    }
}

/// How many of the first `k` colours lie nearest to centre `i`.
pub open spec fn members(labs: Seq<Lab>, centers: Seq<Lab>, i: int, k: int) -> nat
    decreases k,
{
    if k <= 0 {
        0
    } else {
        members(labs, centers, i, k - 1) + if nearest_center(centers, labs[k - 1]) == i {
            1nat
        } else {
            0nat
        }
    }
}

/// The sum of one part of those of the first `k` colours that lie nearest to centre `i`.
pub open spec fn part_sum(labs: Seq<Lab>, centers: Seq<Lab>, i: int, ch: int, k: int) -> int
    decreases k,
{
    if k <= 0 {
        0
    } else {
        part_sum(labs, centers, i, ch, k - 1) + if nearest_center(centers, labs[k - 1]) == i {
            part(labs[k - 1], ch)
        } else {
            0
        }
    }
}

/// Where centre `i` moves: to the mean of the colours nearest to it, each part rounded
/// down. A centre to which none is nearest stays.
pub open spec fn moved_center(labs: Seq<Lab>, centers: Seq<Lab>, i: int) -> Lab {
    let n = labs.len() as int;
    let m = members(labs, centers, i, n) as int;
    if m == 0 {
        centers[i]
    } else {
        Lab {
            l: (part_sum(labs, centers, i, 0, n) / m) as i64,
            a: (part_sum(labs, centers, i, 1, n) / m) as i64,
            b: (part_sum(labs, centers, i, 2, n) / m) as i64,
        }
    }
}

/// The centres after one round.
pub open spec fn moved(labs: Seq<Lab>, centers: Seq<Lab>) -> Seq<Lab> {
    Seq::new(centers.len(), |i: int| moved_center(labs, centers, i))
}

/// Whether no centre moves far in one round.
pub open spec fn settled(labs: Seq<Lab>, centers: Seq<Lab>) -> bool {
    forall|i: int|
        0 <= i < centers.len() ==> lab_dist(
            #[trigger] moved_center(labs, centers, i),
            centers[i],
        ) <= STILL
}

/// The centres after at most `k` rounds; a round in which none moves far is the last.
pub open spec fn rounds(labs: Seq<Lab>, centers: Seq<Lab>, k: nat) -> Seq<Lab>
    decreases k,
{
    if k == 0 {
        centers
    } else if settled(labs, centers) {
        moved(labs, centers)
    } else {
        rounds(labs, moved(labs, centers), (k - 1) as nat)
    }
}

/// The lightness of each colour.
pub open spec fn lightness(labs: Seq<Lab>) -> Seq<i128> {
    Seq::new(labs.len(), |i: int| labs[i].l as i128)
}

/// The first centres: colours spread evenly over `order`, which lists the colours by
/// lightness.
pub open spec fn seeds(labs: Seq<Lab>, order: Seq<usize>, n: int) -> Seq<Lab> {
    Seq::new(n as nat, |k: int| labs[order[k * (labs.len() - 1) / n] as int])
}

/// The sum of channel `ch` of those of the first `k` pixels that lie nearest to centre `i`.
pub open spec fn channel_sum(
    pixels: Seq<[u8; 3]>,
    labs: Seq<Lab>,
    centers: Seq<Lab>,
    i: int,
    ch: int,
    k: int,
) -> int
    decreases k,
{
    if k <= 0 {
        0
    } else {
        channel_sum(pixels, labs, centers, i, ch, k - 1) + if nearest_center(
            centers,
            labs[k - 1],
        ) == i {
            pixels[k - 1]@[ch] as int
        } else {
            0
        }
    }
}

/// The mean of channel `ch` of the pixels nearest to centre `i`, rounded down; 0 if there
/// are none.
pub open spec fn channel_mean(
    pixels: Seq<[u8; 3]>,
    labs: Seq<Lab>,
    centers: Seq<Lab>,
    i: int,
    ch: int,
) -> int {
    let n = labs.len() as int;
    let m = members(labs, centers, i, n) as int;
    channel_sum(pixels, labs, centers, i, ch, n) / if m == 0 {
        1
    } else {
        m
    }
}

/// How many clusters are made of `len` pixels when `n` are asked for.
pub open spec fn cluster_count(len: int, n: int) -> int {
    if n > len {
        len
    } else if n < 1 {
        1
    } else {
        n
    }
}

/// Whether `palette` holds, for each centre that the rounds end on, the mean colour of the
/// pixels nearest to it.
pub open spec fn is_palette(
    pixels: Seq<[u8; 3]>,
    centers: Seq<Lab>,
    palette: Seq<[u8; 3]>,
) -> bool {
    let labs = labs_of(pixels);
    &&& palette.len() == centers.len()
    &&& forall|i: int, ch: int|
        0 <= i < palette.len() && 0 <= ch < 3 ==> #[trigger] palette[i]@[ch] == channel_mean(
            pixels,
            labs,
            centers,
            i,
            ch,
        )
}

/// Whether `palette` is the outcome of clustering the pixels into `n` colours.
pub open spec fn clustered(pixels: Seq<[u8; 3]>, n: int, palette: Seq<[u8; 3]>) -> bool {
    let labs = labs_of(pixels);
    exists|order: Seq<usize>| #[trigger]
        ordered(lightness(labs), order, 0, labs.len() as int) && is_palette(
            pixels,
            rounds(
                labs,
                seeds(labs, order, cluster_count(pixels.len() as int, n)),
                ROUNDS as nat,
            ),
            palette,
        )
}

/// The centre nearest to a colour; see `nearest_center`.
pub fn find_nearest(centers: &Vec<Lab>, c: &Lab) -> (i: usize)
    requires
        centers@.len() > 0,
        forall|i: int| 0 <= i < centers@.len() ==> lab_bounded(#[trigger] centers@[i]),
        lab_bounded(*c),
    ensures
        i == nearest_center(centers@, *c),
        i < centers@.len(),
{
    let mut best: usize = 0;
    let mut least: i128 = lab_distance(c, &centers[0]);
    for k in 1..centers.len()
        invariant
            centers@.len() > 0,
            forall|i: int| 0 <= i < centers@.len() ==> lab_bounded(#[trigger] centers@[i]),
            lab_bounded(*c),
            best < k,
            best == nearest_of(centers@, *c, k as int),
            least == lab_dist(*c, centers@[best as int]),
    {
        let d: i128 = lab_distance(c, &centers[k]);
        if d < least {
            least = d;
            best = k;
        }
    }
    best
}

/// A mean lies within the bounds of what it is taken of.
proof fn lemma_part_sum_bound(labs: Seq<Lab>, centers: Seq<Lab>, i: int, ch: int, k: int)
    requires
        0 <= k <= labs.len(),
        forall|j: int| 0 <= j < labs.len() ==> lab_bounded(#[trigger] labs[j]),
    ensures
        -9_999_999_999 * members(labs, centers, i, k) <= part_sum(labs, centers, i, ch, k)
            <= 9_999_999_999 * members(labs, centers, i, k),
        members(labs, centers, i, k) <= k,
    decreases k,
{
    if k > 0 {
        lemma_part_sum_bound(labs, centers, i, ch, k - 1);
        assert(lab_bounded(labs[k - 1]));
    }
}

proof fn lemma_mean_bound(s: int, m: int)
    requires
        m > 0,
        -9_999_999_999 * m <= s <= 9_999_999_999 * m,
    ensures
        -9_999_999_999 <= s / m <= 9_999_999_999,
{
    assert(-9_999_999_999 <= s / m <= 9_999_999_999) by (nonlinear_arith)
        requires
            m > 0,
            -9_999_999_999 * m <= s <= 9_999_999_999 * m,
    ;
}

/// One round; tells whether a centre moved far.
fn move_centers(labs: &Vec<Lab>, centers: &Vec<Lab>) -> (r: (Vec<Lab>, bool))
    requires
        centers@.len() > 0,
        forall|i: int| 0 <= i < centers@.len() ==> lab_bounded(#[trigger] centers@[i]),
        forall|i: int| 0 <= i < labs@.len() ==> lab_bounded(#[trigger] labs@[i]),
    ensures
        r.0@ == moved(labs@, centers@),
        r.1 == !settled(labs@, centers@),
        forall|i: int| 0 <= i < r.0@.len() ==> lab_bounded(#[trigger] r.0@[i]),
{
    let n: usize = centers.len();
    let total: usize = labs.len();
    let mut ls: Vec<i128> = Vec::new();
    let mut aa: Vec<i128> = Vec::new();
    let mut bb: Vec<i128> = Vec::new();
    let mut counts: Vec<i128> = Vec::new();
    for i in 0..n
        invariant
            ls@.len() == i,
            aa@.len() == i,
            bb@.len() == i,
            counts@.len() == i,
            forall|j: int| 0 <= j < i ==> #[trigger] ls@[j] == 0,
            forall|j: int| 0 <= j < i ==> #[trigger] aa@[j] == 0,
            forall|j: int| 0 <= j < i ==> #[trigger] bb@[j] == 0,
            forall|j: int| 0 <= j < i ==> #[trigger] counts@[j] == 0,
    {
        ls.push(0);
        aa.push(0);
        bb.push(0);
        counts.push(0);
    }
    for k in 0..total
        invariant
            n == centers@.len(),
            n > 0,
            total == labs@.len(),
            forall|i: int| 0 <= i < centers@.len() ==> lab_bounded(#[trigger] centers@[i]),
            forall|i: int| 0 <= i < labs@.len() ==> lab_bounded(#[trigger] labs@[i]),
            ls@.len() == n,
            aa@.len() == n,
            bb@.len() == n,
            counts@.len() == n,
            forall|j: int|
                0 <= j < n ==> #[trigger] ls@[j] == part_sum(labs@, centers@, j, 0, k as int),
            forall|j: int|
                0 <= j < n ==> #[trigger] aa@[j] == part_sum(labs@, centers@, j, 1, k as int),
            forall|j: int|
                0 <= j < n ==> #[trigger] bb@[j] == part_sum(labs@, centers@, j, 2, k as int),
            forall|j: int|
                0 <= j < n ==> #[trigger] counts@[j] == members(labs@, centers@, j, k as int),
    {
        let c: Lab = labs[k];
        let b: usize = find_nearest(centers, &c);
        proof {
            lemma_part_sum_bound(labs@, centers@, b as int, 0, k as int);
            lemma_part_sum_bound(labs@, centers@, b as int, 1, k as int);
            lemma_part_sum_bound(labs@, centers@, b as int, 2, k as int);
        }
        let l2: i128 = ls[b] + c.l as i128;
        let a2: i128 = aa[b] + c.a as i128;
        let b2: i128 = bb[b] + c.b as i128;
        let c2: i128 = counts[b] + 1;
        ls.set(b, l2);
        aa.set(b, a2);
        bb.set(b, b2);
        counts.set(b, c2);
    }
    let mut out: Vec<Lab> = Vec::new();
    let mut far: bool = false;
    for i in 0..n
        invariant
            n == centers@.len(),
            total == labs@.len(),
            forall|i: int| 0 <= i < centers@.len() ==> lab_bounded(#[trigger] centers@[i]),
            forall|i: int| 0 <= i < labs@.len() ==> lab_bounded(#[trigger] labs@[i]),
            ls@.len() == n,
            aa@.len() == n,
            bb@.len() == n,
            counts@.len() == n,
            forall|j: int|
                0 <= j < n ==> #[trigger] ls@[j] == part_sum(labs@, centers@, j, 0, total as int),
            forall|j: int|
                0 <= j < n ==> #[trigger] aa@[j] == part_sum(labs@, centers@, j, 1, total as int),
            forall|j: int|
                0 <= j < n ==> #[trigger] bb@[j] == part_sum(labs@, centers@, j, 2, total as int),
            forall|j: int|
                0 <= j < n ==> #[trigger] counts@[j] == members(labs@, centers@, j, total as int),
            out@.len() == i,
            forall|j: int|
                0 <= j < i ==> #[trigger] out@[j] == moved_center(labs@, centers@, j)
                    && lab_bounded(out@[j]),
            far == exists|j: int|
                0 <= j < i && lab_dist(
                    #[trigger] moved_center(labs@, centers@, j),
                    centers@[j],
                ) > STILL,
    {
        let m: i128 = counts[i];
        let ghost ii = i as int;
        let c: Lab = if m == 0 {
            centers[i]
        } else {
            proof {
                lemma_part_sum_bound(labs@, centers@, ii, 0, total as int);
                lemma_part_sum_bound(labs@, centers@, ii, 1, total as int);
                lemma_part_sum_bound(labs@, centers@, ii, 2, total as int);
                lemma_mean_bound(part_sum(labs@, centers@, ii, 0, total as int), m as int);
                lemma_mean_bound(part_sum(labs@, centers@, ii, 1, total as int), m as int);
                lemma_mean_bound(part_sum(labs@, centers@, ii, 2, total as int), m as int);
            }
            let l: i128 = floor_div(ls[i], m);
            let a: i128 = floor_div(aa[i], m);
            let b: i128 = floor_div(bb[i], m);
            Lab { l: l as i64, a: a as i64, b: b as i64 }
        };
        proof {
            assert(c == moved_center(labs@, centers@, ii));
        }
        if lab_distance(&c, &centers[i]) > STILL {
            far = true;
        }
        out.push(c);
    }
    proof {
        assert(out@ =~= moved(labs@, centers@));
    }
    (out, far)
}

proof fn lemma_channel_sum_bound(
    pixels: Seq<[u8; 3]>,
    labs: Seq<Lab>,
    centers: Seq<Lab>,
    i: int,
    ch: int,
    k: int,
)
    requires
        0 <= k,
    ensures
        0 <= channel_sum(pixels, labs, centers, i, ch, k) <= 255 * members(labs, centers, i, k),
        members(labs, centers, i, k) <= k,
    decreases k,
{
    if k > 0 {
        lemma_channel_sum_bound(pixels, labs, centers, i, ch, k - 1);
    }
}

/// The mean of channel `ch` of the pixels nearest to each centre.
fn channel_means(
    pixels: &[[u8; 3]],
    labs: &Vec<Lab>,
    centers: &Vec<Lab>,
    nearest: &Vec<usize>,
    ch: usize,
) -> (r: Vec<u8>)
    requires
        labs@ == labs_of(pixels@),
        nearest@.len() == labs@.len(),
        forall|k: int|
            0 <= k < labs@.len() ==> (#[trigger] nearest@[k]) < centers@.len() && nearest@[k]
                == nearest_center(centers@, labs@[k]),
        ch < 3,
    ensures
        r@.len() == centers@.len(),
        forall|i: int|
            0 <= i < r@.len() ==> #[trigger] r@[i] == channel_mean(
                pixels@,
                labs@,
                centers@,
                i,
                ch as int,
            ),
{
    let n: usize = centers.len();
    let total: usize = nearest.len();
    let mut sums: Vec<u128> = Vec::new();
    let mut counts: Vec<u128> = Vec::new();
    for i in 0..n
        invariant
            sums@.len() == i,
            counts@.len() == i,
            forall|j: int| 0 <= j < i ==> #[trigger] sums@[j] == 0,
            forall|j: int| 0 <= j < i ==> #[trigger] counts@[j] == 0,
    {
        sums.push(0);
        counts.push(0);
    }
    for k in 0..total
        invariant
            n == centers@.len(),
            total == labs@.len(),
            pixels@.len() == total,
            nearest@.len() == labs@.len(),
            forall|k: int|
                0 <= k < labs@.len() ==> (#[trigger] nearest@[k]) < centers@.len() && nearest@[k]
                    == nearest_center(centers@, labs@[k]),
            ch < 3,
            sums@.len() == n,
            counts@.len() == n,
            forall|j: int|
                0 <= j < n ==> #[trigger] sums@[j] == channel_sum(
                    pixels@,
                    labs@,
                    centers@,
                    j,
                    ch as int,
                    k as int,
                ),
            forall|j: int|
                0 <= j < n ==> #[trigger] counts@[j] == members(labs@, centers@, j, k as int),
    {
        let b: usize = nearest[k];
        let p: [u8; 3] = pixels[k];
        proof {
            lemma_channel_sum_bound(pixels@, labs@, centers@, b as int, ch as int, k as int);
        }
        let s: u128 = sums[b] + p[ch] as u128;
        let c: u128 = counts[b] + 1;
        sums.set(b, s);
        counts.set(b, c);
    }
    let mut r: Vec<u8> = Vec::new();
    for i in 0..n
        invariant
            n == centers@.len(),
            total == labs@.len(),
            sums@.len() == n,
            counts@.len() == n,
            forall|j: int|
                0 <= j < n ==> #[trigger] sums@[j] == channel_sum(
                    pixels@,
                    labs@,
                    centers@,
                    j,
                    ch as int,
                    total as int,
                ),
            forall|j: int|
                0 <= j < n ==> #[trigger] counts@[j] == members(
                    labs@,
                    centers@,
                    j,
                    total as int,
                ),
            r@.len() == i,
            forall|j: int|
                0 <= j < i ==> #[trigger] r@[j] == channel_mean(
                    pixels@,
                    labs@,
                    centers@,
                    j,
                    ch as int,
                ),
    {
        let c: u128 = if counts[i] == 0 { 1 } else { counts[i] };
        let s: u128 = sums[i];
        proof {
            lemma_channel_sum_bound(
                pixels@,
                labs@,
                centers@,
                i as int,
                ch as int,
                total as int,
            );
            assert(s / c <= 255) by (nonlinear_arith)
                requires
                    c > 0,
                    s <= 255 * c,
            ;
        }
        r.push((s / c) as u8);
    }
    r
}

/// Clusters the pixels into `n` colours, at most as many as there are pixels and at least
/// one. Centres start spread over the lightness of the pixels, so the outcome depends on
/// nothing but them. No pixels make one black.
pub fn kmeans_lab(pixels: &[[u8; 3]], n: usize) -> (r: Vec<[u8; 3]>)
    ensures
        pixels@.len() == 0 ==> r@ == seq![[0u8, 0u8, 0u8]],
        pixels@.len() > 0 ==> {
            &&& r@.len() == cluster_count(pixels@.len() as int, n as int)
            &&& clustered(pixels@, n as int, r@)
        },
{
    let total: usize = pixels.len();
    if total == 0 {
        let mut r: Vec<[u8; 3]> = Vec::new();
        r.push([0, 0, 0]);
        return r;
    }
    let count: usize = if n > total {
        total
    } else if n < 1 {
        1
    } else {
        n
    };
    let labs: Vec<Lab> = pixels_to_lab(pixels);
    let mut keys: Vec<i128> = Vec::new();
    for i in 0..total
        invariant
            total == labs@.len(),
            keys@.len() == i,
            forall|j: int| 0 <= j < i ==> #[trigger] keys@[j] == labs@[j].l,
    {
        keys.push(labs[i].l as i128);
    }
    proof {
        assert(keys@ =~= lightness(labs@));
    }
    let order: Vec<usize> = order_by_key(keys.as_slice());
    let mut centers: Vec<Lab> = Vec::new();
    for k in 0..count
        invariant
            total == labs@.len(),
            1 <= count <= total,
            order@.len() == total,
            forall|a: int| 0 <= a < total ==> (#[trigger] order@[a]) < total,
            forall|i: int| 0 <= i < labs@.len() ==> lab_bounded(#[trigger] labs@[i]),
            centers@.len() == k,
            forall|j: int|
                0 <= j < k ==> #[trigger] centers@[j] == seeds(labs@, order@, count as int)[j]
                    && lab_bounded(centers@[j]),
    {
        proof {
            assert(0 <= k * (total - 1) <= 0xffff_ffff_ffff_ffff * 0xffff_ffff_ffff_ffff
                && k * (total - 1) / count as int <= total - 1) by (nonlinear_arith)
                requires
                    0 <= k < count,
                    1 <= count <= total,
                    total <= 0xffff_ffff_ffff_ffff,
            ;
            assert(0 <= k * (total - 1) / count as int) by (nonlinear_arith)
                requires
                    0 <= k * (total - 1),
                    count >= 1,
            ;
        }
        let at: u128 = k as u128 * (total - 1) as u128 / count as u128;
        centers.push(labs[order[at as usize]]);
    }
    let ghost start = centers@;
    proof {
        assert(start =~= seeds(labs@, order@, count as int));
    }
    let mut left: usize = ROUNDS;
    while left > 0
        invariant
            left <= ROUNDS,
            centers@.len() == count,
            count > 0,
            forall|i: int| 0 <= i < centers@.len() ==> lab_bounded(#[trigger] centers@[i]),
            forall|i: int| 0 <= i < labs@.len() ==> lab_bounded(#[trigger] labs@[i]),
            rounds(labs@, centers@, left as nat) == rounds(labs@, start, ROUNDS as nat),
        decreases left,
    {
        let ghost before = centers@;
        let (next, far) = move_centers(&labs, &centers);
        centers = next;
        if far {
            left = left - 1;
        } else {
            left = 0;
        }
    }
    let mut nearest: Vec<usize> = Vec::new();
    for k in 0..total
        invariant
            total == labs@.len(),
            centers@.len() == count,
            count > 0,
            forall|i: int| 0 <= i < centers@.len() ==> lab_bounded(#[trigger] centers@[i]),
            forall|i: int| 0 <= i < labs@.len() ==> lab_bounded(#[trigger] labs@[i]),
            nearest@.len() == k,
            forall|j: int|
                0 <= j < k ==> (#[trigger] nearest@[j]) < count && nearest@[j] == nearest_center(
                    centers@,
                    labs@[j],
                ),
    {
        nearest.push(find_nearest(&centers, &labs[k]));
    }
    let reds: Vec<u8> = channel_means(pixels, &labs, &centers, &nearest, 0);
    let greens: Vec<u8> = channel_means(pixels, &labs, &centers, &nearest, 1);
    let blues: Vec<u8> = channel_means(pixels, &labs, &centers, &nearest, 2);
    let mut palette: Vec<[u8; 3]> = Vec::new();
    for i in 0..count
        invariant
            reds@.len() == count,
            greens@.len() == count,
            blues@.len() == count,
            palette@.len() == i,
            forall|j: int|
                0 <= j < i ==> (#[trigger] palette@[j])@[0] == reds@[j] && palette@[j]@[1]
                    == greens@[j] && palette@[j]@[2] == blues@[j],
    {
        palette.push([reds[i], greens[i], blues[i]]);
    }
    proof {
        assert(is_palette(pixels@, centers@, palette@)) by {
            assert forall|i: int, ch: int|
                0 <= i < palette@.len() && 0 <= ch < 3 implies #[trigger] palette@[i]@[ch]
                == channel_mean(pixels@, labs@, centers@, i, ch) by {
                assert(palette@[i]@[0] == reds@[i]);
                assert(ch == 0 || ch == 1 || ch == 2);
            }
        }
        assert(ordered(lightness(labs@), order@, 0, labs@.len() as int));
    }
    palette
}

} // verus!
