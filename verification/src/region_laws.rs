//! What merging does to the regions of a raster, told by which cells lie side by side.

use crate::components::{cells_of, lemma_cells_of, same_region};
use crate::grid::{has_step, step_to};
use crate::order::{before, ordered};
use crate::regions::{
    absorb_all, absorbed, boundary, dominates, lemma_absorb_keeps, lemma_dominant_unique,
    merge_order, merged, region_sizes, sides_facing, tally,
};
use vstd::prelude::*;

verus! {

/// Whether cells `i` and `j` lie side by side: in one row and neighbouring columns, or in one
/// column and neighbouring rows.
pub open spec fn beside(w: int, i: int, j: int) -> bool {
    ||| i / w == j / w && (j % w == i % w + 1 || j % w == i % w - 1)
    ||| i % w == j % w && (j / w == i / w + 1 || j / w == i / w - 1)
}

/// From every cell the steps lead to just the cells that lie beside it on the grid, each by
/// one step: left, right, up and down.
pub proof fn lemma_steps(w: int, n: int, i: int, j: int)
    requires
        w > 0,
        n % w == 0,
        0 <= i < n,
        0 <= j < n,
    ensures
        beside(w, i, j) <==> exists|k: int|
            0 <= k < 4 && #[trigger] has_step(w, n, i, k) && step_to(w, i, k) == j,
        has_step(w, n, i, 0) <==> i % w > 0,
        has_step(w, n, i, 1) <==> i % w < w - 1,
        has_step(w, n, i, 2) <==> i / w > 0,
        has_step(w, n, i, 3) <==> i / w < n / w - 1,
        forall|k: int|
            0 <= k < 4 && #[trigger] has_step(w, n, i, k) ==> 0 <= step_to(w, i, k) < n && beside(
                w,
                i,
                step_to(w, i, k),
            ),
        forall|k: int, l: int|
            0 <= k < l < 4 && #[trigger] has_step(w, n, i, k) && #[trigger] has_step(w, n, i, l)
                ==> step_to(w, i, k) != step_to(w, i, l),
{
    let (x, y, h) = (i % w, i / w, n / w);
    lemma_split(w, i);
    lemma_split(w, j);
    lemma_split(w, n);
    assert(n == h * w);
    assert(0 <= y < h) by (nonlinear_arith)
        requires
            i == y * w + x,
            0 <= x < w,
            0 <= i < h * w,
    ;
    assert((y - 1) * w == y * w - w && (y + 1) * w == y * w + w) by (nonlinear_arith);
    assert(y > 0 ==> y * w >= w) by (nonlinear_arith)
        requires
            w > 0,
    ;
    assert(y == 0 ==> y * w == 0) by (nonlinear_arith);
    assert(y + 1 < h ==> y * w + 2 * w <= h * w) by (nonlinear_arith)
        requires
            w > 0,
    ;
    assert(y + 1 == h ==> y * w + w == h * w) by (nonlinear_arith);
    if x > 0 {
        lemma_join(w, x - 1, y);
    }
    if x < w - 1 {
        lemma_join(w, x + 1, y);
    } else {
        lemma_join(w, 0, y + 1);
    }
    lemma_join(w, x, y - 1);
    lemma_join(w, x, y + 1);
    assert(has_step(w, n, i, 0) <==> x > 0);
    assert(has_step(w, n, i, 1) <==> x < w - 1);
    assert(has_step(w, n, i, 2) <==> y > 0);
    assert(has_step(w, n, i, 3) <==> y < h - 1);
    if beside(w, i, j) {
        if j / w == y && j % w == x - 1 {
            assert(has_step(w, n, i, 0) && step_to(w, i, 0) == j);
        } else if j / w == y {
            assert(has_step(w, n, i, 1) && step_to(w, i, 1) == j);
        } else if j / w == y - 1 {
            assert((j / w) * w == y * w - w);
            assert(0 <= j / w) by (nonlinear_arith)
                requires
                    j >= 0,
                    w > 0,
            ;
            assert(has_step(w, n, i, 2) && step_to(w, i, 2) == j);
        } else {
            assert((j / w) * w == y * w + w);
            let z = j / w;
            assert(z < h) by (nonlinear_arith)
                requires
                    j == z * w + j % w,
                    0 <= j % w,
                    j < h * w,
                    w > 0,
            ;
            assert(has_step(w, n, i, 3) && step_to(w, i, 3) == j);
        }
    }
}

proof fn lemma_split(w: int, i: int)
    requires
        w > 0,
    ensures
        i == (i / w) * w + i % w,
        0 <= i % w < w,
{
    vstd::arithmetic::div_mod::lemma_fundamental_div_mod(i, w);
    assert(w * (i / w) == (i / w) * w) by (nonlinear_arith);
}

proof fn lemma_join(w: int, x: int, y: int)
    requires
        0 <= x < w,
    ensures
        (y * w + x) / w == y,
        (y * w + x) % w == x,
{
    assert(y * w == w * y) by (nonlinear_arith);
    vstd::arithmetic::div_mod::lemma_fundamental_div_mod_converse(y * w + x, w, y, x);
}

/// The places where region `id` borders label `l`: a cell of the region, and one beside it
/// that is not of the region and is labelled `l`.
pub open spec fn borders(labels: Seq<u8>, comp: Seq<usize>, w: int, id: int, l: u8) -> Set<
    (int, int),
> {
    Set::new(
        |p: (int, int)|
            {
                &&& 0 <= p.0 < labels.len()
                &&& 0 <= p.1 < labels.len()
                &&& comp[p.0] == id
                &&& comp[p.1] != id
                &&& labels[p.1] == l
                &&& beside(w, p.0, p.1)
            },
    )
}

spec fn taken(labels: Seq<u8>, comp: Seq<usize>, w: int, id: int, i: int, k: int, l: u8) -> Set<
    (int, int),
> {
    Set::new(
        |p: (int, int)|
            p.0 == i && comp[p.1] != id && labels[p.1] == l && exists|d: int|
                0 <= d < k && #[trigger] has_step(w, labels.len() as int, i, d) && step_to(w, i, d)
                    == p.1,
    )
}

proof fn lemma_taken(
    labels: Seq<u8>,
    comp: Seq<usize>,
    w: int,
    id: int,
    i: int,
    k: int,
    l: u8,
)
    requires
        w > 0,
        labels.len() as int % w == 0,
        0 <= i < labels.len(),
        0 <= k <= 4,
    ensures
        taken(labels, comp, w, id, i, k, l).finite(),
        taken(labels, comp, w, id, i, k, l).len() == sides_facing(labels, comp, w, id, i, k, l),
    decreases k,
{
    let s = taken(labels, comp, w, id, i, k, l);
    let n = labels.len() as int;
    if k <= 0 {
        assert(s =~= Set::empty());
    } else {
        lemma_taken(labels, comp, w, id, i, k - 1, l);
        lemma_steps(w, n, i, i);
        let t = taken(labels, comp, w, id, i, k - 1, l);
        let j = step_to(w, i, k - 1);
        if has_step(w, n, i, k - 1) && comp[j] != id && labels[j] == l {
            assert(s =~= t.insert((i, j)));
            assert(!t.contains((i, j)));
        } else {
            assert(s =~= t);
        }
    }
}

spec fn taken_by(
    labels: Seq<u8>,
    comp: Seq<usize>,
    w: int,
    id: int,
    cells: Seq<usize>,
    m: int,
    l: u8,
) -> Set<(int, int)> {
    Set::new(
        |p: (int, int)|
            taken(labels, comp, w, id, p.0, 4, l).contains(p) && exists|a: int|
                0 <= a < m && #[trigger] cells[a] == p.0,
    )
}

proof fn lemma_taken_by(
    labels: Seq<u8>,
    comp: Seq<usize>,
    w: int,
    id: int,
    cells: Seq<usize>,
    m: int,
    l: u8,
)
    requires
        w > 0,
        labels.len() as int % w == 0,
        0 <= m <= cells.len(),
        cells.no_duplicates(),
        forall|a: int| 0 <= a < cells.len() ==> (#[trigger] cells[a]) < labels.len(),
    ensures
        taken_by(labels, comp, w, id, cells, m, l).finite(),
        taken_by(labels, comp, w, id, cells, m, l).len() == tally(
            labels,
            comp,
            w,
            id,
            cells,
            m,
            l,
        ),
    decreases m,
{
    let s = taken_by(labels, comp, w, id, cells, m, l);
    if m <= 0 {
        assert(s =~= Set::empty());
    } else {
        lemma_taken_by(labels, comp, w, id, cells, m - 1, l);
        let c = cells[m - 1] as int;
        lemma_taken(labels, comp, w, id, c, 4, l);
        let t = taken_by(labels, comp, w, id, cells, m - 1, l);
        let u = taken(labels, comp, w, id, c, 4, l);
        assert(s =~= t + u) by {
            assert forall|p: (int, int)| s.contains(p) implies (t + u).contains(p) by {
                let a = choose|a: int| 0 <= a < m && #[trigger] cells[a] == p.0;
                if a < m - 1 {
                    assert(t.contains(p));
                }
            }
            assert forall|p: (int, int)| (t + u).contains(p) implies s.contains(p) by {
                if u.contains(p) {
                    assert(cells[m - 1] == p.0);
                } else {
                    let a = choose|a: int| 0 <= a < m - 1 && #[trigger] cells[a] == p.0;
                    assert(cells[a] == p.0);
                }
            }
        }
        assert(t.disjoint(u)) by {
            assert forall|p: (int, int)| !(t.contains(p) && u.contains(p)) by {
                if t.contains(p) && u.contains(p) {
                    let a = choose|a: int| 0 <= a < m - 1 && #[trigger] cells[a] == p.0;
                    assert(cells[a] == cells[m - 1]);
                }
            }
        }
        vstd::set_lib::lemma_set_disjoint_lens(t, u);
    }
}

/// How much a label borders a region is the number of places where a cell of the region and
/// one of the label lie side by side.
pub proof fn lemma_border_length(labels: Seq<u8>, comp: Seq<usize>, w: int, id: int, l: u8)
    requires
        w > 0,
        labels.len() as int % w == 0,
        labels.len() <= usize::MAX,
        comp.len() == labels.len(),
    ensures
        borders(labels, comp, w, id, l).finite(),
        boundary(labels, comp, w, id, l) == borders(labels, comp, w, id, l).len(),
{
    let n = labels.len() as int;
    let cells = cells_of(comp, id, n);
    lemma_cells_of(comp, id, n);
    lemma_taken_by(labels, comp, w, id, cells, cells.len() as int, l);
    let s = borders(labels, comp, w, id, l);
    let t = taken_by(labels, comp, w, id, cells, cells.len() as int, l);
    assert(s =~= t) by {
        assert forall|p: (int, int)| s.contains(p) implies t.contains(p) by {
            lemma_steps(w, n, p.0, p.1);
            assert(cells.contains(p.0 as usize));
            let a = cells.index_of(p.0 as usize);
            assert(cells[a] == p.0);
        }
        assert forall|p: (int, int)| t.contains(p) implies s.contains(p) by {
            let a = choose|a: int| 0 <= a < cells.len() && #[trigger] cells[a] == p.0;
            assert(comp[cells[a] as int] == id);
            lemma_steps(w, n, p.0, p.0);
            let d = choose|d: int|
                0 <= d < 4 && #[trigger] has_step(w, n, p.0, d) && step_to(w, p.0, d) == p.1;
            assert(has_step(w, n, p.0, d));
        }
    }
}

/// Whether at least `least` cells hang together with cell `i` under its label.
pub open spec fn is_large(labels: Seq<u8>, w: int, least: int, i: int) -> bool {
    exists|v: Seq<usize>| #[trigger] hang_together(labels, w, i, v) && v.len() >= least
}

/// Whether all of `v` are distinct cells of the region that holds cell `i`.
pub open spec fn hang_together(labels: Seq<u8>, w: int, i: int, v: Seq<usize>) -> bool {
    &&& v.no_duplicates()
    &&& forall|k: int|
        0 <= k < v.len() ==> (#[trigger] v[k]) < labels.len() && same_region(
            labels,
            w,
            i,
            v[k] as int,
        )
}

proof fn lemma_held_cells(
    labels: Seq<u8>,
    w: int,
    comp: Seq<usize>,
    members: Seq<Vec<usize>>,
    order: Seq<usize>,
    i: int,
    v: Seq<usize>,
)
    requires
        labels.len() <= usize::MAX,
        merge_order(labels, w, comp, members, order),
        0 <= i < labels.len(),
        hang_together(labels, w, i, v),
    ensures
        v.len() <= cells_of(comp, comp[i] as int, comp.len() as int).len(),
{
    let cells = cells_of(comp, comp[i] as int, comp.len() as int);
    lemma_cells_of(comp, comp[i] as int, comp.len() as int);
    assert forall|k: int| 0 <= k < v.len() implies cells.contains(#[trigger] v[k]) by {
        assert(same_region(labels, w, i, v[k] as int));
        assert(comp[v[k] as int] == comp[i]);
    }
    v.unique_seq_to_set();
    cells.unique_seq_to_set();
    assert(v.to_set().subset_of(cells.to_set())) by {
        assert forall|x: usize| v.to_set().contains(x) implies cells.to_set().contains(x) by {
            assert(v[v.index_of(x)] == x);
        }
    }
    vstd::set_lib::lemma_len_subset(v.to_set(), cells.to_set());
}

proof fn lemma_stays_after(
    labels: Seq<u8>,
    comp: Seq<usize>,
    w: int,
    min_area: int,
    order: Seq<usize>,
    a: int,
    k: int,
    i: int,
)
    requires
        comp.len() == labels.len(),
        0 <= i < labels.len(),
        0 <= a <= k <= order.len(),
        absorb_all(labels, comp, w, min_area, order, a).len() == labels.len(),
        forall|b: int| a <= b < order.len() ==> #[trigger] order[b] != comp[i],
    ensures
        absorb_all(labels, comp, w, min_area, order, k).len() == labels.len(),
        absorb_all(labels, comp, w, min_area, order, k)[i] == absorb_all(
            labels,
            comp,
            w,
            min_area,
            order,
            a,
        )[i],
    decreases k - a,
{
    if k > a {
        lemma_stays_after(labels, comp, w, min_area, order, a, k - 1, i);
        assert(order[k - 1] != comp[i]);
    }
}

proof fn lemma_absorbed_len(
    labels: Seq<u8>,
    comp: Seq<usize>,
    w: int,
    min_area: int,
    order: Seq<usize>,
    k: int,
)
    ensures
        absorb_all(labels, comp, w, min_area, order, k).len() == labels.len(),
    decreases k,
{
    if k > 0 {
        lemma_absorbed_len(labels, comp, w, min_area, order, k - 1);
    }
}

/// A region of fewer cells than asked for, in the midst of one label whose regions around it
/// are large enough, takes that label.
pub proof fn lemma_island_merges(
    a: Seq<u8>,
    b: Seq<u8>,
    w: int,
    min_area: int,
    region: Seq<usize>,
    i: int,
    m: u8,
    c: int,
    d: int,
)
    requires
        w > 0,
        a.len() as int % w == 0,
        a.len() <= usize::MAX,
        merged(a, b, w, min_area),
        0 <= i < a.len(),
        region.no_duplicates(),
        region.len() < min_area,
        forall|j: int|
            0 <= j < a.len() && #[trigger] same_region(a, w, i, j) ==> region.contains(j as usize),
        0 <= c < a.len(),
        0 <= d < a.len(),
        same_region(a, w, i, c),
        !same_region(a, w, i, d),
        beside(w, c, d),
        forall|p: int, q: int|
            #![trigger same_region(a, w, i, p), same_region(a, w, i, q)]
            0 <= p < a.len() && 0 <= q < a.len() && same_region(a, w, i, p) && !same_region(
                a,
                w,
                i,
                q,
            ) && beside(w, p, q) ==> a[q] == m && is_large(a, w, min_area, q),
    ensures
        b.len() == a.len(),
        b[i] == m,
{
    let n = a.len() as int;
    let (comp, members, order) = choose|
        comp: Seq<usize>,
        members: Seq<Vec<usize>>,
        order: Seq<usize>,
    | #[trigger]
        merge_order(a, w, comp, members, order) && b == absorb_all(
            a,
            comp,
            w,
            min_area,
            order,
            order.len() as int,
        );
    let id = comp[i] as int;
    let cells = cells_of(comp, id, n);
    lemma_cells_of(comp, id, n);
    assert(cells.len() <= region.len()) by {
        assert forall|k: int| 0 <= k < cells.len() implies region.contains(#[trigger] cells[k]) by {
            assert(same_region(a, w, i, cells[k] as int));
        }
        region.unique_seq_to_set();
        cells.unique_seq_to_set();
        assert(cells.to_set().subset_of(region.to_set())) by {
            assert forall|x: usize| cells.to_set().contains(x) implies region.to_set().contains(
                x,
            ) by {
                assert(cells[cells.index_of(x)] == x);
            }
        }
        vstd::set_lib::lemma_len_subset(cells.to_set(), region.to_set());
    }
    let keys = region_sizes(comp, members.len() as int);
    assert(ordered(keys, order, 0, members.len() as int));
    assert(order.contains(id as usize));
    let k = order.index_of(id as usize);
    assert(order[k] == id);
    let mid = absorb_all(a, comp, w, min_area, order, k);
    lemma_absorbed_len(a, comp, w, min_area, order, k);
    lemma_absorbed_len(a, comp, w, min_area, order, k + 1);
    assert forall|p: int, q: int|
        0 <= p < n && 0 <= q < n && comp[p] == id && comp[q] != id && #[trigger] beside(
            w,
            p,
            q,
        ) implies mid[q] == m by {
        assert(same_region(a, w, i, p));
        assert(!same_region(a, w, i, q));
        let v = choose|v: Seq<usize>| #[trigger]
            hang_together(a, w, q, v) && v.len() >= min_area;
        lemma_held_cells(a, w, comp, members, order, q, v);
        lemma_absorb_keeps(a, comp, w, min_area, order, k, q);
    }
    assert(comp[c] == id && comp[d] != id);
    assert(dominates(mid, comp, w, id, m)) by {
        lemma_border_length(mid, comp, w, id, m);
        let s = borders(mid, comp, w, id, m);
        assert(s.contains((c, d)));
        if s.len() == 0 {
            s.lemma_len0_is_empty();
        }
        assert forall|o: u8| o != m implies #[trigger] boundary(mid, comp, w, id, o) == 0 by {
            lemma_border_length(mid, comp, w, id, o);
            assert(borders(mid, comp, w, id, o) =~= Set::empty());
        }
    }
    let l = choose|l: u8| dominates(mid, comp, w, id, l);
    lemma_dominant_unique(mid, comp, w, id, l, m);
    let after = absorb_all(a, comp, w, min_area, order, k + 1);
    assert(after == absorbed(mid, comp, w, id));
    assert(after[i] == m);
    assert forall|z: int| k + 1 <= z < order.len() implies #[trigger] order[z] != comp[i] by {
        assert(before(keys, order[k] as int, order[z] as int));
    }
    lemma_stays_after(a, comp, w, min_area, order, k + 1, order.len() as int, i);
}

/// A region is merged as a whole: cells that hang together before carry one label after.
pub proof fn lemma_merges_whole(a: Seq<u8>, b: Seq<u8>, w: int, min_area: int, i: int, j: int)
    requires
        a.len() <= usize::MAX,
        merged(a, b, w, min_area),
        0 <= i < a.len(),
        0 <= j < a.len(),
        same_region(a, w, i, j),
        a[i] == a[j],
    ensures
        b.len() == a.len(),
        b[i] == b[j],
{
    let (comp, members, order) = choose|
        comp: Seq<usize>,
        members: Seq<Vec<usize>>,
        order: Seq<usize>,
    | #[trigger]
        merge_order(a, w, comp, members, order) && b == absorb_all(
            a,
            comp,
            w,
            min_area,
            order,
            order.len() as int,
        );
    assert(comp[i] == comp[j]);
    lemma_whole(a, comp, w, min_area, order, order.len() as int, i, j);
}

proof fn lemma_whole(
    labels: Seq<u8>,
    comp: Seq<usize>,
    w: int,
    min_area: int,
    order: Seq<usize>,
    k: int,
    i: int,
    j: int,
)
    requires
        comp.len() == labels.len(),
        0 <= i < labels.len(),
        0 <= j < labels.len(),
        comp[i] == comp[j],
        labels[i] == labels[j],
    ensures
        absorb_all(labels, comp, w, min_area, order, k).len() == labels.len(),
        absorb_all(labels, comp, w, min_area, order, k)[i] == absorb_all(
            labels,
            comp,
            w,
            min_area,
            order,
            k,
        )[j],
    decreases k,
{
    if k > 0 {
        lemma_whole(labels, comp, w, min_area, order, k - 1, i, j);
    }
}

} // verus!
