//! What colours keep: distances, clusters, and palettes.

use crate::cluster::{
    channel_mean, channel_sum, cluster_count, clustered, is_palette, members, moved, moved_center,
    nearest_center, nearest_of, part, part_sum, rounds, seeds, settled,
};
use crate::lab::{lab_dist, lab_of, labs_of, Lab};
use crate::order::ordered;
use crate::stencil::{
    color_of, labelled, luminances, palette_labs, quantized, sorted_palette, Color,
};
use vstd::prelude::*;

verus! {

/// The distance of colours is that of space: nothing lies at no distance but the colour
/// itself, it is the same both ways, each of the three parts counts alone as its square, and
/// the three counted alone make up the whole.
pub proof fn lemma_distance(c: Lab, d: Lab, t: i64)
    ensures
        lab_dist(c, d) == 0 <==> c == d,
        lab_dist(c, d) >= 0,
        lab_dist(c, d) == lab_dist(d, c),
        d == (Lab { l: t, ..c }) ==> lab_dist(c, d) == (t - c.l) * (t - c.l),
        d == (Lab { a: t, ..c }) ==> lab_dist(c, d) == (t - c.a) * (t - c.a),
        d == (Lab { b: t, ..c }) ==> lab_dist(c, d) == (t - c.b) * (t - c.b),
        lab_dist(c, d) == lab_dist(c, Lab { l: d.l, ..c }) + lab_dist(c, Lab { a: d.a, ..c })
            + lab_dist(c, Lab { b: d.b, ..c }),
{
    let (x, y, z) = (c.l - d.l, c.a - d.a, c.b - d.b);
    assert(x * x + y * y + z * z >= 0 && (x * x + y * y + z * z == 0 <==> x == 0 && y == 0 && z
        == 0)) by (nonlinear_arith);
    assert(x * x == (-x) * (-x) && y * y == (-y) * (-y) && z * z == (-z) * (-z))
        by (nonlinear_arith);
    assert(0int * 0int == 0);
}

/// Of all centres, none lies nearer to a colour than the one that is named, and none before
/// it as near.
pub proof fn lemma_nearest(centers: Seq<Lab>, c: Lab, k: int)
    requires
        0 <= k < centers.len(),
    ensures
        0 <= nearest_center(centers, c) < centers.len(),
        ({
            let p = centers[nearest_center(centers, c)];
            let q = centers[k];
            let near = (c.l - p.l) * (c.l - p.l) + (c.a - p.a) * (c.a - p.a) + (c.b - p.b) * (c.b
                - p.b);
            let far = (c.l - q.l) * (c.l - q.l) + (c.a - q.a) * (c.a - q.a) + (c.b - q.b) * (c.b
                - q.b);
            near <= far && (k < nearest_center(centers, c) ==> near < far)
        }),
{
    lemma_nearest_of(centers, c, centers.len() as int, k);
}

proof fn lemma_nearest_of(centers: Seq<Lab>, c: Lab, n: int, k: int)
    requires
        0 <= k < n <= centers.len(),
    ensures
        0 <= nearest_of(centers, c, n) < n,
        lab_dist(c, centers[nearest_of(centers, c, n)]) <= lab_dist(c, centers[k]),
        k < nearest_of(centers, c, n) ==> lab_dist(c, centers[nearest_of(centers, c, n)])
            < lab_dist(c, centers[k]),
    decreases n,
{
    if n > 1 {
        lemma_nearest_of(centers, c, n - 1, 0);
        if k < n - 1 {
            lemma_nearest_of(centers, c, n - 1, k);
        }
    }
}

/// Every pixel is labelled with a palette entry that no other undercuts in the sum of the
/// squared differences of lightness, green to red, and blue to yellow.
pub proof fn lemma_labels(
    pixels: Seq<[u8; 3]>,
    n: int,
    palette: Seq<Color>,
    labels: Seq<u8>,
    i: int,
    k: int,
)
    requires
        quantized(pixels, n, palette, labels),
        0 <= i < pixels.len(),
        0 <= k < palette.len() <= 256,
    ensures
        labels.len() == pixels.len(),
        labels[i] < palette.len(),
        ({
            let c = lab_of(pixels[i]@[0], pixels[i]@[1], pixels[i]@[2]);
            let p = palette[labels[i] as int];
            let q = palette[k];
            let (s, t) = (lab_of(p.r, p.g, p.b), lab_of(q.r, q.g, q.b));
            (c.l - s.l) * (c.l - s.l) + (c.a - s.a) * (c.a - s.a) + (c.b - s.b) * (c.b - s.b) <= (c.l
                - t.l) * (c.l - t.l) + (c.a - t.a) * (c.a - t.a) + (c.b - t.b) * (c.b - t.b)
        }),
{
    let labs = palette_labs(palette);
    let c = labs_of(pixels)[i];
    lemma_nearest(labs, c, k);
    let (centers, order) = choose|centers: Seq<[u8; 3]>, order: Seq<usize>|
        sorted_palette(pixels, n, centers, order, palette);
    let m = labels[i] as int;
    assert(m == nearest_center(labs, c));
    assert(palette[m] == color_of(centers[order[m] as int]));
    assert(palette[k] == color_of(centers[order[k] as int]));
}

/// A palette goes from dark to light: by seven parts of green, two of red and less than one
/// of blue.
pub proof fn lemma_palette_order(
    pixels: Seq<[u8; 3]>,
    n: int,
    palette: Seq<Color>,
    labels: Seq<u8>,
    j: int,
    k: int,
)
    requires
        quantized(pixels, n, palette, labels),
        0 <= j <= k < palette.len(),
    ensures
        2126 * palette[j].r + 7152 * palette[j].g + 722 * palette[j].b <= 2126 * palette[k].r
            + 7152 * palette[k].g + 722 * palette[k].b,
        pixels.len() > 0 ==> palette.len() == if n > pixels.len() {
            pixels.len() as int
        } else if n < 1 {
            1
        } else {
            n
        },
{
    let (centers, order) = choose|centers: Seq<[u8; 3]>, order: Seq<usize>|
        sorted_palette(pixels, n, centers, order, palette);
    let keys = luminances(centers);
    assert(palette[j] == color_of(centers[order[j] as int]));
    assert(palette[k] == color_of(centers[order[k] as int]));
    if j < k {
        assert(crate::order::before(keys, order[j] as int, order[k] as int));
    }
}

/// The colours of which centre `i` is the nearest, of the first `k`.
pub open spec fn group(labs: Seq<Lab>, centers: Seq<Lab>, i: int, k: int) -> Seq<int>
    decreases k,
{
    if k <= 0 {
        Seq::empty()
    } else if nearest_center(centers, labs[k - 1]) == i {
        group(labs, centers, i, k - 1).push(k - 1)
    } else {
        group(labs, centers, i, k - 1)
    }
}

/// The sum of some numbers.
pub open spec fn total(v: Seq<int>) -> int
    decreases v.len(),
{
    if v.len() == 0 {
        0
    } else {
        total(v.drop_last()) + v.last()
    }
}

/// A group holds just the places of the colours to which its centre is the nearest.
pub proof fn lemma_group(labs: Seq<Lab>, centers: Seq<Lab>, i: int, k: int, j: int)
    requires
        0 <= j < k,
    ensures
        group(labs, centers, i, k).contains(j) <==> nearest_center(centers, labs[j]) == i,
    decreases k,
{
    let now = group(labs, centers, i, k);
    let before = group(labs, centers, i, k - 1);
    lemma_group_range(labs, centers, i, k - 1);
    if j < k - 1 {
        lemma_group(labs, centers, i, k - 1, j);
        if before.contains(j) {
            let a = before.index_of(j);
            assert(now[a] == j);
        }
        if now.contains(j) {
            let a = now.index_of(j);
            assert(a < before.len() ==> before[a] == j);
        }
    } else {
        if nearest_center(centers, labs[j]) == i {
            assert(now[before.len() as int] == j);
        } else if now.contains(j) {
            let a = now.index_of(j);
            assert(before[a] == j);
        }
    }
}

proof fn lemma_group_range(labs: Seq<Lab>, centers: Seq<Lab>, i: int, k: int)
    ensures
        forall|a: int|
            0 <= a < group(labs, centers, i, k).len() ==> 0 <= #[trigger] group(
                labs,
                centers,
                i,
                k,
            )[a] < k,
    decreases k,
{
    if k > 0 {
        lemma_group_range(labs, centers, i, k - 1);
        let before = group(labs, centers, i, k - 1);
        let now = group(labs, centers, i, k);
        assert forall|a: int| 0 <= a < now.len() implies 0 <= #[trigger] now[a] < k by {
            if a < before.len() {
                assert(now[a] == before[a]);
            }
        }
    }
}

proof fn lemma_group_sums(
    pixels: Seq<[u8; 3]>,
    labs: Seq<Lab>,
    centers: Seq<Lab>,
    i: int,
    ch: int,
    k: int,
)
    ensures
        ({
            let g = group(labs, centers, i, k);
            &&& members(labs, centers, i, k) == g.len()
            &&& part_sum(labs, centers, i, ch, k) == total(g.map_values(|j: int| part(labs[j], ch)))
            &&& channel_sum(pixels, labs, centers, i, ch, k) == total(
                g.map_values(|j: int| pixels[j]@[ch] as int),
            )
        }),
    decreases k,
{
    let g = group(labs, centers, i, k);
    let f = |j: int| part(labs[j], ch);
    let p = |j: int| pixels[j]@[ch] as int;
    if k > 0 {
        lemma_group_sums(pixels, labs, centers, i, ch, k - 1);
        let before = group(labs, centers, i, k - 1);
        if nearest_center(centers, labs[k - 1]) == i {
            assert(g.map_values(f).drop_last() =~= before.map_values(f));
            assert(g.map_values(p).drop_last() =~= before.map_values(p));
        }
    } else {
        assert(g.map_values(f) =~= Seq::<int>::empty());
        assert(g.map_values(p) =~= Seq::<int>::empty());
    }
}

/// A centre moves to the mean of its group, in each of the three parts.
pub proof fn lemma_moved_mean(labs: Seq<Lab>, centers: Seq<Lab>, i: int)
    requires
        0 <= i < centers.len(),
        forall|j: int| 0 <= j < labs.len() ==> crate::lab::lab_bounded(#[trigger] labs[j]),
    ensures
        ({
            let g = group(labs, centers, i, labs.len() as int);
            let c = moved(labs, centers)[i];
            let n = g.len() as int;
            &&& n == 0 ==> c == centers[i]
            &&& n > 0 ==> n * c.l <= total(g.map_values(|j: int| labs[j].l as int)) < n * (c.l + 1)
            &&& n > 0 ==> n * c.a <= total(g.map_values(|j: int| labs[j].a as int)) < n * (c.a + 1)
            &&& n > 0 ==> n * c.b <= total(g.map_values(|j: int| labs[j].b as int)) < n * (c.b + 1)
        }),
{
    let k = labs.len() as int;
    let g = group(labs, centers, i, k);
    let n = g.len() as int;
    let none = Seq::<[u8; 3]>::empty();
    lemma_group_sums(none, labs, centers, i, 0, k);
    lemma_group_sums(none, labs, centers, i, 1, k);
    lemma_group_sums(none, labs, centers, i, 2, k);
    lemma_group_range(labs, centers, i, k);
    let (l, a, b) = (
        g.map_values(|j: int| labs[j].l as int),
        g.map_values(|j: int| labs[j].a as int),
        g.map_values(|j: int| labs[j].b as int),
    );
    assert(g.map_values(|j: int| part(labs[j], 0)) =~= l);
    assert(g.map_values(|j: int| part(labs[j], 1)) =~= a);
    assert(g.map_values(|j: int| part(labs[j], 2)) =~= b);
    if n > 0 {
        lemma_total_bound(l, 10_000_000_000);
        lemma_total_bound(a, 10_000_000_000);
        lemma_total_bound(b, 10_000_000_000);
        lemma_mean(total(l), n);
        lemma_mean(total(a), n);
        lemma_mean(total(b), n);
        lemma_quotient_bound(total(l), n);
        lemma_quotient_bound(total(a), n);
        lemma_quotient_bound(total(b), n);
    }
}

proof fn lemma_quotient_bound(t: int, n: int)
    requires
        n > 0,
        -(n * 10_000_000_000) <= t <= n * 10_000_000_000,
    ensures
        -10_000_000_000 <= t / n <= 10_000_000_000,
{
    assert(-10_000_000_000 <= t / n <= 10_000_000_000) by (nonlinear_arith)
        requires
            n > 0,
            -(n * 10_000_000_000) <= t <= n * 10_000_000_000,
    ;
}

proof fn lemma_total_bound(v: Seq<int>, m: int)
    requires
        forall|j: int| 0 <= j < v.len() ==> -m <= #[trigger] v[j] <= m,
    ensures
        -(v.len() * m) <= total(v) <= v.len() * m,
    decreases v.len(),
{
    if v.len() > 0 {
        assert forall|j: int| 0 <= j < v.drop_last().len() implies -m
            <= #[trigger] v.drop_last()[j] <= m by {
            assert(v[j] == v.drop_last()[j]);
        }
        lemma_total_bound(v.drop_last(), m);
        let n = v.len() as int;
        assert((n - 1) * m + m == n * m) by (nonlinear_arith);
    } else {
        assert(0 * m == 0) by (nonlinear_arith);
    }
}

proof fn lemma_mean(t: int, n: int)
    requires
        n > 0,
    ensures
        n * (t / n) <= t < n * (t / n + 1),
{
    let q = t / n;
    assert(n * q <= t < n * (q + 1)) by (nonlinear_arith)
        requires
            n > 0,
            q == t / n,
    ;
}

/// Each colour of a palette of clusters is the mean, channel by channel, of the pixels that
/// lie nearest to one centre.
pub proof fn lemma_palette_means(
    pixels: Seq<[u8; 3]>,
    centers: Seq<Lab>,
    palette: Seq<[u8; 3]>,
    i: int,
    ch: int,
)
    requires
        is_palette(pixels, centers, palette),
        0 <= i < palette.len(),
        0 <= ch < 3,
    ensures
        palette.len() == centers.len(),
        ({
            let g = group(labs_of(pixels), centers, i, pixels.len() as int);
            let t = total(g.map_values(|j: int| pixels[j]@[ch] as int));
            g.len() > 0 ==> g.len() * palette[i]@[ch] <= t < g.len() * (palette[i]@[ch] + 1)
        }),
{
    let labs = labs_of(pixels);
    let k = pixels.len() as int;
    let g = group(labs, centers, i, k);
    lemma_group_sums(pixels, labs, centers, i, ch, k);
    assert(palette[i]@[ch] == channel_mean(pixels, labs, centers, i, ch));
    if g.len() > 0 {
        lemma_mean(channel_sum(pixels, labs, centers, i, ch, k), g.len() as int);
    }
}

/// The centres after `k` moves.
pub open spec fn moves(labs: Seq<Lab>, centers: Seq<Lab>, k: nat) -> Seq<Lab>
    decreases k,
{
    if k == 0 {
        centers
    } else {
        moved(labs, moves(labs, centers, (k - 1) as nat))
    }
}

/// Whether some centre goes farther than a hundredth in space by move `k`.
pub open spec fn far_move(labs: Seq<Lab>, first: Seq<Lab>, k: int) -> bool {
    exists|i: int|
        0 <= i < first.len() && lab_dist(
            #[trigger] moves(labs, first, k as nat)[i],
            moves(labs, first, (k - 1) as nat)[i],
        ) > 100_000_000
}

/// Clustering moves its centres until they rest: it ends after the first move by which no
/// centre goes farther than a hundredth in space, or else after twenty moves.
pub proof fn lemma_clusters_rest(
    pixels: Seq<[u8; 3]>,
    n: int,
    palette: Seq<[u8; 3]>,
) -> (r: (Seq<usize>, nat))
    requires
        clustered(pixels, n, palette),
        pixels.len() > 0,
    ensures
        ({
            let labs = labs_of(pixels);
            let first = seeds(labs, r.0, cluster_count(pixels.len() as int, n));
            &&& 1 <= r.1 <= 20
            &&& is_palette(pixels, moves(labs, first, r.1), palette)
            &&& r.1 == 20 || !far_move(labs, first, r.1 as int)
            &&& forall|k: int| 1 <= k < r.1 ==> #[trigger] far_move(labs, first, k)
        }),
{
    let labs = labs_of(pixels);
    let order = choose|order: Seq<usize>| #[trigger]
        ordered(crate::cluster::lightness(labs), order, 0, labs.len() as int) && is_palette(
            pixels,
            rounds(labs, seeds(labs, order, cluster_count(pixels.len() as int, n)), 20),
            palette,
        );
    let first = seeds(labs, order, cluster_count(pixels.len() as int, n));
    let j = lemma_rounds(labs, first, 0, 20);
    (order, j)
}

proof fn lemma_moves_len(labs: Seq<Lab>, first: Seq<Lab>, k: nat)
    ensures
        moves(labs, first, k).len() == first.len(),
    decreases k,
{
    if k > 0 {
        lemma_moves_len(labs, first, (k - 1) as nat);
    }
}

proof fn lemma_rounds(labs: Seq<Lab>, first: Seq<Lab>, k: nat, left: nat) -> (j: nat)
    requires
        left >= 1,
        k + left == 20,
    ensures
        k < j <= 20,
        rounds(labs, moves(labs, first, k), left) == moves(labs, first, j),
        j == 20 || !far_move(labs, first, j as int),
        forall|p: int| k < p < j ==> #[trigger] far_move(labs, first, p),
    decreases left,
{
    let here = moves(labs, first, k);
    let next = moves(labs, first, k + 1);
    lemma_moves_len(labs, first, k);
    assert(next == moved(labs, here));
    if settled(labs, here) {
        assert(!far_move(labs, first, (k + 1) as int)) by {
            assert forall|i: int| 0 <= i < first.len() implies lab_dist(
                #[trigger] next[i],
                here[i],
            ) <= 100_000_000 by {
                assert(next[i] == moved_center(labs, here, i));
            }
        }
        assert(rounds(labs, here, left) == next);
        k + 1
    } else {
        let i = choose|i: int|
            0 <= i < here.len() && lab_dist(#[trigger] moved_center(labs, here, i), here[i])
                > 100_000_000;
        assert(next[i] == moved_center(labs, here, i));
        assert(far_move(labs, first, (k + 1) as int));
        if left == 1 {
            assert(rounds(labs, next, 0) == next);
            k + 1
        } else {
            lemma_rounds(labs, first, k + 1, (left - 1) as nat)
        }
    }
}

/// As many clusters are made as are asked for, but one at least and no more than there are
/// pixels.
pub proof fn lemma_cluster_count(len: int, n: int)
    requires
        len >= 1,
    ensures
        1 <= n <= len ==> cluster_count(len, n) == n,
        n > len ==> cluster_count(len, n) == len,
        n < 1 ==> cluster_count(len, n) == 1,
{
}

/// The first centres are colours of the image, spread evenly from the darkest on: each stands
/// in the order of lightness at its share of the way, rounded down.
pub proof fn lemma_seeds(labs: Seq<Lab>, order: Seq<usize>, n: int, k: int)
    requires
        0 <= k < n,
        0 < labs.len(),
        order.len() == labs.len(),
    ensures
        seeds(labs, order, n).len() == n,
        seeds(labs, order, n)[0] == labs[order[0] as int],
        exists|i: int|
            0 <= i < labs.len() && n * i <= k * (labs.len() - 1) < n * (i + 1) && seeds(
                labs,
                order,
                n,
            )[k] == labs[#[trigger] order[i] as int],
{
    let a = k * (labs.len() - 1);
    let i = a / n;
    assert(0 <= a <= n * (labs.len() - 1)) by (nonlinear_arith)
        requires
            a == k * (labs.len() - 1),
            0 <= k < n,
            labs.len() >= 1,
    ;
    let top = labs.len() - 1;
    assert(n * i <= a < n * (i + 1) && 0 <= i <= top) by (nonlinear_arith)
        requires
            n > 0,
            i == a / n,
            0 <= a <= n * top,
    ;
    let b = 0 * (labs.len() - 1);
    assert(b == 0) by (nonlinear_arith)
        requires
            b == 0 * (labs.len() - 1),
    ;
    assert(b / n == 0) by (nonlinear_arith)
        requires
            b == 0,
            n > 0,
    ;
    assert(seeds(labs, order, n)[k] == labs[order[i] as int]);
}

} // verus!
