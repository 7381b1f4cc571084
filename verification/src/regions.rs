//! Colour regions: absorbing small ones into what surrounds them.

use crate::components::{
    cells_of, group_cells, label_regions, lemma_cells_of, regions_of, same_region,
};
use crate::grid::{has_step, lemma_step_adjacent, lemma_whole_rows, step, step_to};
use crate::order::{order_by_key, ordered};
use vstd::prelude::*;

verus! {

/// How many of the first `k` sides of cell `i` border a cell outside region `id` that is
/// labelled `l`.
pub open spec fn sides_facing(
    labels: Seq<u8>,
    comp: Seq<usize>,
    w: int,
    id: int,
    i: int,
    k: int,
    l: u8,
) -> nat
    decreases k,
{
    if k <= 0 {
        0
    } else {
        sides_facing(labels, comp, w, id, i, k - 1, l) + if has_step(
            w,
            labels.len() as int,
            i,
            k - 1,
        ) && comp[step_to(w, i, k - 1)] != id && labels[step_to(w, i, k - 1)] == l {
            1nat
        } else {
            0nat
        }
    }
}

/// How many sides of the first `m` of `cells` border a cell outside region `id` that is
/// labelled `l`.
pub open spec fn tally(
    labels: Seq<u8>,
    comp: Seq<usize>,
    w: int,
    id: int,
    cells: Seq<usize>,
    m: int,
    l: u8,
) -> nat
    decreases m,
{
    if m <= 0 {
        0
    } else {
        tally(labels, comp, w, id, cells, m - 1, l) + sides_facing(
            labels,
            comp,
            w,
            id,
            cells[m - 1] as int,
            4,
            l,
        )
    }
}

/// How many sides of region `id` border label `l`.
pub open spec fn boundary(labels: Seq<u8>, comp: Seq<usize>, w: int, id: int, l: u8) -> nat {
    let cells = cells_of(comp, id, comp.len() as int);
    tally(labels, comp, w, id, cells, cells.len() as int, l)
}

/// Whether `l` dominates the boundary of region `id`: it borders it, no label borders it
/// more, and no lower label as much.
pub open spec fn dominates(labels: Seq<u8>, comp: Seq<usize>, w: int, id: int, l: u8) -> bool {
    &&& boundary(labels, comp, w, id, l) > 0
    &&& forall|o: u8|
        boundary(labels, comp, w, id, l) > #[trigger] boundary(labels, comp, w, id, o) || (
        boundary(labels, comp, w, id, l) == boundary(labels, comp, w, id, o) && l <= o)
}

/// The raster after region `id` was absorbed into the label that dominates its boundary.
/// A region that borders nothing stays.
pub open spec fn absorbed(labels: Seq<u8>, comp: Seq<usize>, w: int, id: int) -> Seq<u8> {
    if exists|l: u8| dominates(labels, comp, w, id, l) {
        let l = choose|l: u8| dominates(labels, comp, w, id, l);
        Seq::new(
            labels.len(),
            |i: int|
                if comp[i] == id {
                    l
                } else {
                    labels[i]
                },
        )
    } else {
        labels
    }
}

/// The raster after the first `k` regions of `order` were looked at, and those of under
/// `min_area` cells absorbed.
pub open spec fn absorb_all(
    labels: Seq<u8>,
    comp: Seq<usize>,
    w: int,
    min_area: int,
    order: Seq<usize>,
    k: int,
) -> Seq<u8>
    decreases k,
{
    if k <= 0 {
        labels
    } else {
        let before = absorb_all(labels, comp, w, min_area, order, k - 1);
        let id = order[k - 1] as int;
        if cells_of(comp, id, comp.len() as int).len() < min_area {
            absorbed(before, comp, w, id)
        } else {
            before
        }
    }
}

/// The sizes of the regions.
pub open spec fn region_sizes(comp: Seq<usize>, count: int) -> Seq<i128> {
    Seq::new(count as nat, |id: int| cells_of(comp, id, comp.len() as int).len() as i128)
}

/// Whether `comp` numbers the regions of `labels` and `order` lists them, smallest first.
pub open spec fn merge_order(
    labels: Seq<u8>,
    w: int,
    comp: Seq<usize>,
    members: Seq<Vec<usize>>,
    order: Seq<usize>,
) -> bool {
    &&& regions_of(labels, w, None, comp, members)
    &&& ordered(
        region_sizes(comp, members.len() as int),
        order,
        0,
        members.len() as int,
    )
}

/// Whether absorbing the regions of under `min_area` cells of `a`, smallest first, leaves
/// the raster `b`.
pub open spec fn merged(a: Seq<u8>, b: Seq<u8>, w: int, min_area: int) -> bool {
    exists|comp: Seq<usize>, members: Seq<Vec<usize>>, order: Seq<usize>| #[trigger]
        merge_order(a, w, comp, members, order) && b == absorb_all(
            a,
            comp,
            w,
            min_area,
            order,
            order.len() as int,
        )
}

/// Two labels cannot both dominate.
pub proof fn lemma_dominant_unique(
    labels: Seq<u8>,
    comp: Seq<usize>,
    w: int,
    id: int,
    l: u8,
    m: u8,
)
    requires
        dominates(labels, comp, w, id, l),
        dominates(labels, comp, w, id, m),
    ensures
        l == m,
{
    assert(boundary(labels, comp, w, id, l) >= 0);
    assert(boundary(labels, comp, w, id, m) >= 0);
}

/// The label that dominates the boundary of region `id`.
fn dominant(labels: &Vec<u8>, comp: &Vec<usize>, w: usize, id: usize, cells: &Vec<usize>) -> (r:
    Option<u8>)
    requires
        w > 0,
        labels@.len() as int % w as int == 0,
        comp@.len() == labels@.len(),
        cells@ == cells_of(comp@, id as int, comp@.len() as int),
        forall|a: int| 0 <= a < cells@.len() ==> (#[trigger] cells@[a]) < labels@.len(),
    ensures
        match r {
            Some(l) => dominates(labels@, comp@, w as int, id as int, l),
            None => forall|l: u8| !dominates(labels@, comp@, w as int, id as int, l),
        },
{
    let n: usize = labels.len();
    let ghost wi = w as int;
    let ghost idi = id as int;
    let mut counts: Vec<u128> = Vec::new();
    let mut fill: usize = 0;
    while fill < 256
        invariant
            fill <= 256,
            counts@.len() == fill,
            forall|l: int| 0 <= l < fill ==> counts@[l] == 0,
        decreases 256 - fill,
    {
        counts.push(0);
        fill = fill + 1;
    }
    for m in 0..cells.len()
        invariant
            w > 0,
            wi == w,
            idi == id,
            n == labels@.len(),
            n as int % wi == 0,
            comp@.len() == n,
            forall|a: int| 0 <= a < cells@.len() ==> (#[trigger] cells@[a]) < n,
            counts@.len() == 256,
            forall|l: int|
                 0 <= l < 256 ==> #[trigger] counts@[l] == tally(
                    labels@,
                    comp@,
                    wi,
                    idi,
                    cells@,
                    m as int,
                    l as u8,
                ),
            forall|l: int| 0 <= l < 256 ==> #[trigger] counts@[l] <= 4 * m,
    {
        let i: usize = cells[m];
        let ghost base = counts@;
        for k in 0..4usize
            invariant
                w > 0,
                wi == w,
                idi == id,
                n == labels@.len(),
                n as int % wi == 0,
                comp@.len() == n,
                i < n,
                m < cells@.len(),
                cells@.len() <= usize::MAX,
                counts@.len() == 256,
                base.len() == 256,
                forall|l: int| 0 <= l < 256 ==> #[trigger] base[l] <= 4 * m,
                forall|l: int|
                     0 <= l < 256 ==> #[trigger] counts@[l] == base[l] + sides_facing(
                        labels@,
                        comp@,
                        wi,
                        idi,
                        i as int,
                        k as int,
                        l as u8,
                    ),
                forall|l: int| 0 <= l < 256 ==> #[trigger] counts@[l] <= base[l] + k,
        {
            let ghost before = counts@;
            if let Some(c) = step(w, n, i, k) {
                if comp[c] != id {
                    let l: usize = labels[c] as usize;
                    let v: u128 = counts[l] + 1;
                    counts.set(l, v);
                }
            }
            proof {
                assert forall|l: int| 0 <= l < 256 implies #[trigger] counts@[l] == base[l]
                    + sides_facing(labels@, comp@, wi, idi, i as int, k + 1, l as u8) by {
                    assert(before[l] <= base[l] + k);
                }
            }
        }
        proof {
            assert forall|l: int| 0 <= l < 256 implies #[trigger] counts@[l] == tally(
                labels@,
                comp@,
                wi,
                idi,
                cells@,
                m + 1,
                l as u8,
            ) by {
                assert(base[l] <= 4 * m);
            }
        }
    }
    proof {
        assert forall|o: u8|
            counts@[o as int] == #[trigger] boundary(labels@, comp@, wi, idi, o) by {
            assert(counts@[o as int] <= 4 * cells@.len());
        }
    }
    let mut best: Option<u8> = None;
    let mut l: usize = 0;
    while l < 256
        invariant
            l <= 256,
            counts@.len() == 256,
            forall|o: u8|
                counts@[o as int] == #[trigger] boundary(labels@, comp@, wi, idi, o),
            match best {
                Some(b) => {
                    &&& b < l
                    &&& counts@[b as int] > 0
                    &&& forall|o: int|
                        0 <= o < l ==> counts@[b as int] > #[trigger] counts@[o] || (
                        counts@[b as int] == counts@[o] && b <= o)
                },
                None => forall|o: int| 0 <= o < l ==> #[trigger] counts@[o] == 0,
            },
        decreases 256 - l,
    {
        let better: bool = match best {
            Some(b) => counts[l] > counts[b as usize],
            None => counts[l] > 0,
        };
        if better {
            best = Some(l as u8);
        }
        l = l + 1;
    }
    proof {
        match best {
            Some(b) => {
                assert forall|o: u8|
                    boundary(labels@, comp@, wi, idi, b) > #[trigger] boundary(
                        labels@,
                        comp@,
                        wi,
                        idi,
                        o,
                    ) || (boundary(labels@, comp@, wi, idi, b) == boundary(
                        labels@,
                        comp@,
                        wi,
                        idi,
                        o,
                    ) && b <= o) by {
                    assert(counts@[o as int] <= counts@[b as int]);
                }
            },
            None => {
                assert forall|o: u8| !dominates(labels@, comp@, wi, idi, o) by {
                    assert(counts@[o as int] == boundary(labels@, comp@, wi, idi, o));
                }
            },
        }
    }
    best
}

/// Absorbs every region of under `min_area` cells into the label that dominates its
/// boundary, smallest region first, so that speckle joins the chunk around it.
pub fn merge_small_regions(labels: &mut Vec<u8>, w: usize, h: usize, min_area: usize)
    requires
        old(labels)@.len() == w * h,
    ensures
        final(labels)@.len() == old(labels)@.len(),
        min_area <= 1 ==> final(labels)@ == old(labels)@,
        min_area > 1 ==> merged(old(labels)@, final(labels)@, w as int, min_area as int),
{
    if min_area <= 1 {
        return;
    }
    let n: usize = labels.len();
    let ghost wi = w as int;
    let ghost l0 = labels@;
    proof {
        lemma_whole_rows(w as int, h as int, n as int);
    }
    let (comp, members) = label_regions(labels.as_slice(), w, h, None);
    let count: usize = members.len();
    let cells: Vec<Vec<usize>> = group_cells(&comp, count);
    let mut sizes: Vec<i128> = Vec::new();
    for id in 0..count
        invariant
            cells@.len() == count,
            forall|d: int|
                0 <= d < count ==> (#[trigger] cells@[d])@ == cells_of(
                    comp@,
                    d,
                    comp@.len() as int,
                ),
            sizes@.len() == id,
            forall|d: int|
                0 <= d < id ==> #[trigger] sizes@[d] == cells_of(
                    comp@,
                    d,
                    comp@.len() as int,
                ).len(),
    {
        sizes.push(cells[id].len() as i128);
    }
    let order: Vec<usize> = order_by_key(sizes.as_slice());
    proof {
        assert(sizes@ =~= region_sizes(comp@, count as int));
    }
    for k in 0..order.len()
        invariant
            n == w * h,
            n > 0 ==> w > 0 && n as int % wi == 0,
            wi == w,
            labels@.len() == n,
            comp@.len() == n,
            l0.len() == n,
            cells@.len() == count,
            members@.len() == count,
            regions_of(l0, wi, None, comp@, members@),
            forall|d: int|
                0 <= d < count ==> (#[trigger] cells@[d])@ == cells_of(
                    comp@,
                    d,
                    comp@.len() as int,
                ),
            ordered(region_sizes(comp@, count as int), order@, 0, count as int),
            labels@ == absorb_all(l0, comp@, wi, min_area as int, order@, k as int),
    {
        let id: usize = order[k];
        let mine: &Vec<usize> = &cells[id];
        proof {
            assert(mine@ == cells_of(comp@, id as int, comp@.len() as int));
            lemma_cells_of(comp@, id as int, comp@.len() as int);
        }
        if mine.len() < min_area {
            let ghost before = labels@;
            proof {
                assert(n > 0) by {
                    assert(members@[id as int]@.len() > 0);
                    let c = members@[id as int]@[0];
                    assert(c < comp@.len());
                }
            }
            match dominant(labels, &comp, w, id, mine) {
                Some(l) => {
                    for m in 0..mine.len()
                        invariant
                            labels@.len() == n,
                            before.len() == n,
                            comp@.len() == n,
                            mine@ == cells_of(comp@, id as int, comp@.len() as int),
                            forall|a: int|
                                0 <= a < mine@.len() ==> (#[trigger] mine@[a]) < n
                                    && comp@[mine@[a] as int] == id,
                            forall|a: int|
                                0 <= a < m ==> labels@[#[trigger] mine@[a] as int] == l,
                            forall|i: int|
                                0 <= i < n && comp@[i] != id ==> #[trigger] labels@[i]
                                    == before[i],
                    {
                        labels.set(mine[m], l);
                    }
                    proof {
                        let d = choose|d: u8| dominates(before, comp@, wi, id as int, d);
                        lemma_dominant_unique(before, comp@, wi, id as int, l, d);
                        assert forall|i: int| 0 <= i < n implies labels@[i] == absorbed(
                            before,
                            comp@,
                            wi,
                            id as int,
                        )[i] by {
                            if comp@[i] == id {
                                assert(mine@.contains(i as usize));
                                assert(mine@[mine@.index_of(i as usize)] == i);
                            }
                        }
                        assert(labels@ =~= absorbed(before, comp@, wi, id as int));
                    }
                },
                None => {},
            }
        }
    }
    proof {
        assert(merge_order(l0, wi, comp@, members@, order@));
    }
}

pub proof fn lemma_absorb_keeps(
    labels: Seq<u8>,
    comp: Seq<usize>,
    w: int,
    min_area: int,
    order: Seq<usize>,
    k: int,
    i: int,
)
    requires
        comp.len() == labels.len(),
        0 <= k <= order.len(),
        0 <= i < labels.len(),
        cells_of(comp, comp[i] as int, comp.len() as int).len() >= min_area,
    ensures
        absorb_all(labels, comp, w, min_area, order, k).len() == labels.len(),
        absorb_all(labels, comp, w, min_area, order, k)[i] == labels[i],
    decreases k,
{
    if k > 0 {
        lemma_absorb_keeps(labels, comp, w, min_area, order, k - 1, i);
    }
}

/// A region of `min_area` cells or more keeps its label throughout: where as many distinct
/// cells hang together with cell `i` under one label, merging leaves that label.
pub proof fn lemma_merge_keeps_big(
    a: Seq<u8>,
    b: Seq<u8>,
    w: int,
    min_area: int,
    region: Seq<usize>,
    i: int,
)
    requires
        a.len() <= usize::MAX,
        merged(a, b, w, min_area),
        0 <= i < a.len(),
        region.no_duplicates(),
        region.len() >= min_area,
        forall|k: int|
            0 <= k < region.len() ==> (#[trigger] region[k]) < a.len() && same_region(
                a,
                w,
                i,
                region[k] as int,
            ),
    ensures
        b.len() == a.len(),
        b[i] == a[i],
{
    let (comp, members, order) = choose|
        comp: Seq<usize>,
        members: Seq<Vec<usize>>,
        order: Seq<usize>,
    | #[trigger]
        merge_order(a, w, comp, members, order) && b == absorb_all(
            a,
            comp,
            w,
            min_area,
            order,
            order.len() as int,
        );
    let cells = cells_of(comp, comp[i] as int, comp.len() as int);
    lemma_cells_of(comp, comp[i] as int, comp.len() as int);
    assert(cells.no_duplicates());
    assert forall|k: int| 0 <= k < region.len() implies cells.contains(#[trigger] region[k]) by {
        assert(same_region(a, w, i, region[k] as int));
        assert(comp[region[k] as int] == comp[i]);
    }
    region.unique_seq_to_set();
    cells.unique_seq_to_set();
    assert(region.to_set().subset_of(cells.to_set())) by {
        assert forall|x: usize| region.to_set().contains(x) implies cells.to_set().contains(x) by {
            assert(region[region.index_of(x)] == x);
        }
    }
    vstd::set_lib::lemma_len_subset(region.to_set(), cells.to_set());
    lemma_absorb_keeps(a, comp, w, min_area, order, order.len() as int, i);
}

proof fn lemma_facing_label(
    labels: Seq<u8>,
    comp: Seq<usize>,
    w: int,
    id: int,
    i: int,
    k: int,
    l: u8,
) -> (j: int)
    requires
        w > 0,
        labels.len() as int % w == 0,
        0 <= i < labels.len(),
        0 <= k <= 4,
        sides_facing(labels, comp, w, id, i, k, l) > 0,
    ensures
        0 <= j < labels.len(),
        labels[j] == l,
    decreases k,
{
    if sides_facing(labels, comp, w, id, i, k - 1, l) > 0 {
        lemma_facing_label(labels, comp, w, id, i, k - 1, l)
    } else {
        lemma_step_adjacent(w, labels.len() as int, i, k - 1);
        step_to(w, i, k - 1)
    }
}

proof fn lemma_tally_label(
    labels: Seq<u8>,
    comp: Seq<usize>,
    w: int,
    id: int,
    cells: Seq<usize>,
    m: int,
    l: u8,
) -> (j: int)
    requires
        w > 0,
        labels.len() as int % w == 0,
        0 <= m <= cells.len(),
        forall|a: int| 0 <= a < cells.len() ==> (#[trigger] cells[a]) < labels.len(),
        tally(labels, comp, w, id, cells, m, l) > 0,
    ensures
        0 <= j < labels.len(),
        labels[j] == l,
    decreases m,
{
    if tally(labels, comp, w, id, cells, m - 1, l) > 0 {
        lemma_tally_label(labels, comp, w, id, cells, m - 1, l)
    } else {
        lemma_facing_label(labels, comp, w, id, cells[m - 1] as int, 4, l)
    }
}

proof fn lemma_absorb_labels(
    labels: Seq<u8>,
    comp: Seq<usize>,
    w: int,
    min_area: int,
    order: Seq<usize>,
    k: int,
    i: int,
) -> (j: int)
    requires
        w > 0,
        labels.len() as int % w == 0,
        labels.len() <= usize::MAX,
        comp.len() == labels.len(),
        0 <= k <= order.len(),
        0 <= i < labels.len(),
    ensures
        absorb_all(labels, comp, w, min_area, order, k).len() == labels.len(),
        0 <= j < labels.len(),
        labels[j] == absorb_all(labels, comp, w, min_area, order, k)[i],
    decreases k,
{
    if k <= 0 {
        i
    } else {
        let j = lemma_absorb_labels(labels, comp, w, min_area, order, k - 1, i);
        let before = absorb_all(labels, comp, w, min_area, order, k - 1);
        let id = order[k - 1] as int;
        if cells_of(comp, id, comp.len() as int).len() < min_area && comp[i] == id && exists|l: u8|
            dominates(before, comp, w, id, l) {
            let l = choose|l: u8| dominates(before, comp, w, id, l);
            let cells = cells_of(comp, id, comp.len() as int);
            lemma_cells_of(comp, id, comp.len() as int);
            let c = lemma_tally_label(before, comp, w, id, cells, cells.len() as int, l);
            lemma_absorb_labels(labels, comp, w, min_area, order, k - 1, c)
        } else {
            j
        }
    }
}

/// Merging brings in no label that the raster did not hold before.
pub proof fn lemma_merge_labels(a: Seq<u8>, b: Seq<u8>, w: int, min_area: int, i: int)
    requires
        w > 0,
        a.len() as int % w == 0,
        a.len() <= usize::MAX,
        merged(a, b, w, min_area),
        0 <= i < a.len(),
    ensures
        b.len() == a.len(),
        a.contains(b[i]),
{
    let (comp, members, order) = choose|
        comp: Seq<usize>,
        members: Seq<Vec<usize>>,
        order: Seq<usize>,
    | #[trigger]
        merge_order(a, w, comp, members, order) && b == absorb_all(
            a,
            comp,
            w,
            min_area,
            order,
            order.len() as int,
        );
    let j = lemma_absorb_labels(a, comp, w, min_area, order, order.len() as int, i);
}

} // verus!
