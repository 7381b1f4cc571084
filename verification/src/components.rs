//! Connected components of a raster, in reading order of their first cells.

use vstd::prelude::*;
use vstd::set_lib::*;
use crate::grid::{
    adjacent, connected, has_step, lemma_adjacent_step, lemma_connected_closed,
    lemma_connected_ends, lemma_connected_extend, lemma_connected_self, lemma_connected_symmetric,
    lemma_connected_transitive, lemma_whole_rows, on_border, step, step_to,
};

verus! {

/// The cells of `labels` that carry the label `l`.
pub open spec fn same(labels: Seq<u8>, l: u8) -> Seq<bool> {
    Seq::new(labels.len(), |i: int| labels[i] == l)
}

/// Whether cells `i` and `j` lie in one region: equal labels, joined by a walk that
/// keeps to that label.
pub open spec fn same_region(labels: Seq<u8>, w: int, i: int, j: int) -> bool {
    connected(same(labels, labels[i]), w, i, j)
}

/// Marks the region of `start` with `id` and returns its cells.
pub fn flood(
    labels: &[u8],
    w: usize,
    start: usize,
    id: usize,
    comp: &mut Vec<usize>,
) -> (cells: Vec<usize>)
    requires
        start < labels@.len(),
        w > 0,
        labels@.len() as int % w as int == 0,
        old(comp)@.len() == labels@.len(),
        id != usize::MAX,
        forall|j: int|
            #![trigger old(comp)@[j]]
            0 <= j < labels@.len() && same_region(labels@, w as int, start as int, j) ==> old(
                comp,
            )@[j] == usize::MAX,
    ensures
        final(comp)@.len() == labels@.len(),
        forall|j: int|
            #![trigger final(comp)@[j]]
            0 <= j < labels@.len() ==> final(comp)@[j] == if same_region(
                labels@,
                w as int,
                start as int,
                j,
            ) {
                id
            } else {
                old(comp)@[j]
            },
        cells@.no_duplicates(),
        forall|a: int|
            0 <= a < cells@.len() ==> (#[trigger] cells@[a]) < labels@.len() && same_region(
                labels@,
                w as int,
                start as int,
                cells@[a] as int,
            ),
        forall|j: int|
            #![trigger final(comp)@[j]]
            0 <= j < labels@.len() && same_region(labels@, w as int, start as int, j)
                ==> cells@.contains(j as usize),
{
    let n: usize = labels.len();
    let lab: u8 = labels[start];
    let ghost m = same(labels@, lab);
    let ghost wi = w as int;
    let ghost ni = n as int;
    let ghost s0 = start as int;
    let mut cells: Vec<usize> = Vec::new();
    let mut stack: Vec<usize> = Vec::new();
    proof {
        lemma_connected_self(m, wi, s0);
    }
    comp[start] = id;
    stack.push(start);
    let ghost mut seen: Set<int> = Set::empty().insert(s0);
    proof {
        assert(stack@.contains(start)) by {
            assert(stack@[0] == start);
        }
    }
    while stack.len() > 0
        invariant
            n == labels@.len(),
            m == same(labels@, lab),
            lab == labels@[s0],
            s0 == start,
            start < n,
            wi == w,
            ni == n,
            w > 0,
            ni % wi == 0,
            comp@.len() == n,
            id != usize::MAX,
            seen.contains(s0),
            seen.finite(),
            forall|j: int| #[trigger] seen.contains(j) ==> 0 <= j < n && connected(m, wi, s0, j),
            forall|j: int|
                #![trigger comp@[j]]
                0 <= j < n ==> comp@[j] == if seen.contains(j) {
                    id
                } else {
                    old(comp)@[j]
                },
            forall|j: int|
                #![trigger old(comp)@[j]]
                0 <= j < n && connected(m, wi, s0, j) ==> old(comp)@[j] == usize::MAX,
            forall|a: int| 0 <= a < stack@.len() ==> seen.contains(#[trigger] stack@[a] as int),
            forall|a: int| 0 <= a < cells@.len() ==> seen.contains(#[trigger] cells@[a] as int),
            forall|j: int|
                #[trigger] seen.contains(j) ==> stack@.contains(j as usize) || cells@.contains(
                    j as usize,
                ),
            stack@.no_duplicates(),
            cells@.no_duplicates(),
            forall|a: int, b: int|
                0 <= a < stack@.len() && 0 <= b < cells@.len() ==> #[trigger] stack@[a]
                    != #[trigger] cells@[b],
            forall|a: int, b: int|
                0 <= a < cells@.len() && m[b] && #[trigger] adjacent(
                    wi,
                    ni,
                    cells@[a] as int,
                    b,
                ) ==> seen.contains(b),
        decreases n - seen.len(), stack@.len(),
    {
        let ghost stack0 = stack@;
        let ghost cells0 = cells@;
        let ghost seen0 = seen;
        let idx: usize = stack.pop().unwrap();
        proof {
            assert(idx == stack0[stack0.len() - 1]);
            assert(seen.contains(idx as int));
            assert forall|j: int| seen.contains(j) && j != idx implies stack@.contains(j as usize)
                || cells@.contains(j as usize) by {
                if stack0.contains(j as usize) {
                    let a = choose|a: int| 0 <= a < stack0.len() && stack0[a] == j as usize;
                    assert(a < stack0.len() - 1);
                    assert(stack@[a] == j as usize);
                }
            }
            assert(!stack@.contains(idx)) by {
                if stack@.contains(idx) {
                    let a = choose|a: int| 0 <= a < stack@.len() && stack@[a] == idx;
                    assert(stack0[a] == idx);
                }
            }
            assert(!cells@.contains(idx)) by {
                if cells@.contains(idx) {
                    let b = choose|b: int| 0 <= b < cells@.len() && cells@[b] == idx;
                    assert(stack0[stack0.len() - 1] != cells0[b]);
                }
            }
        }
        for k in 0..4usize
            invariant
                n == labels@.len(),
                m == same(labels@, lab),
                lab == labels@[s0],
                s0 == start,
                wi == w,
                ni == n,
                w > 0,
                ni % wi == 0,
                idx < n,
                comp@.len() == n,
                id != usize::MAX,
                seen.contains(s0),
                seen.contains(idx as int),
                seen.finite(),
                seen0.subset_of(seen),
                seen.len() == seen0.len() + stack@.len() - (stack0.len() - 1),
                stack@.len() >= stack0.len() - 1,
                cells@ == cells0,
                !stack@.contains(idx),
                !cells@.contains(idx),
                forall|j: int|
                    #[trigger] seen.contains(j) ==> 0 <= j < n && connected(m, wi, s0, j),
                forall|j: int|
                    #![trigger comp@[j]]
                    0 <= j < n ==> comp@[j] == if seen.contains(j) {
                        id
                    } else {
                        old(comp)@[j]
                    },
                forall|j: int|
                    #![trigger old(comp)@[j]]
                    0 <= j < n && connected(m, wi, s0, j) ==> old(comp)@[j] == usize::MAX,
                forall|a: int| 0 <= a < stack@.len() ==> seen.contains(#[trigger] stack@[a] as int),
                forall|a: int| 0 <= a < cells@.len() ==> seen.contains(#[trigger] cells@[a] as int),
                forall|j: int|
                    #[trigger] seen.contains(j) && j != idx ==> stack@.contains(j as usize)
                        || cells@.contains(j as usize),
                stack@.no_duplicates(),
                cells@.no_duplicates(),
                forall|a: int, b: int|
                    0 <= a < stack@.len() && 0 <= b < cells@.len() ==> #[trigger] stack@[a]
                        != #[trigger] cells@[b],
                forall|a: int, b: int|
                    0 <= a < cells@.len() && m[b] && #[trigger] adjacent(
                        wi,
                        ni,
                        cells@[a] as int,
                        b,
                    ) ==> seen.contains(b),
                forall|kk: int|
                    0 <= kk < k && #[trigger] has_step(wi, ni, idx as int, kk) && m[step_to(
                        wi,
                        idx as int,
                        kk,
                    )] ==> seen.contains(step_to(wi, idx as int, kk)),
        {
            if let Some(j) = step(w, n, idx, k) {
                if labels[j] == lab && comp[j] == usize::MAX {
                    proof {
                        lemma_connected_extend(m, wi, s0, idx as int, j as int);
                        assert(!seen.contains(j as int));
                        assert(!stack@.contains(j)) by {
                            if stack@.contains(j) {
                                let a = choose|a: int| 0 <= a < stack@.len() && stack@[a] == j;
                                assert(seen.contains(stack@[a] as int));
                            }
                        }
                        assert(!cells@.contains(j)) by {
                            if cells@.contains(j) {
                                let a = choose|a: int| 0 <= a < cells@.len() && cells@[a] == j;
                                assert(seen.contains(cells@[a] as int));
                            }
                        }
                        seen = seen.insert(j as int);
                    }
                    let ghost before = stack@;
                    comp[j] = id;
                    stack.push(j);
                    proof {
                        assert(stack@[before.len() as int] == j);
                        assert forall|i: int| #[trigger] seen.contains(i) && i
                            != idx implies stack@.contains(i as usize) || cells@.contains(
                            i as usize,
                        ) by {
                            if i != j && before.contains(i as usize) {
                                let a = choose|a: int|
                                    0 <= a < before.len() && before[a] == i as usize;
                                assert(stack@[a] == i as usize);
                            }
                        }
                        assert(!stack@.contains(idx)) by {
                            if stack@.contains(idx) {
                                let a = choose|a: int| 0 <= a < stack@.len() && stack@[a] == idx;
                                if a < before.len() {
                                    assert(before[a] == idx);
                                }
                            }
                        }
                    }
                } else {
                    proof {
                        if m[j as int] {
                            lemma_connected_extend(m, wi, s0, idx as int, j as int);
                            assert(comp@[j as int] != usize::MAX);
                        }
                    }
                }
            }
        }
        cells.push(idx);
        proof {
            assert(cells@[cells0.len() as int] == idx);
            assert forall|j: int| #[trigger] seen.contains(j) implies stack@.contains(j as usize)
                || cells@.contains(j as usize) by {
                if j != idx && cells0.contains(j as usize) {
                    let a = choose|a: int| 0 <= a < cells0.len() && cells0[a] == j as usize;
                    assert(cells@[a] == j as usize);
                }
            }
            assert forall|a: int, b: int|
                0 <= a < cells@.len() && m[b] && #[trigger] adjacent(
                    wi,
                    ni,
                    cells@[a] as int,
                    b,
                ) implies seen.contains(b) by {
                if a == cells0.len() {
                    let kk = lemma_adjacent_step(wi, ni, idx as int, b);
                    assert(has_step(wi, ni, idx as int, kk));
                } else {
                    assert(cells@[a] == cells0[a]);
                }
            }
            assert forall|a: int, b: int|
                0 <= a < stack@.len() && 0 <= b < cells@.len() implies #[trigger] stack@[a]
                != #[trigger] cells@[b] by {
                if b == cells0.len() {
                    assert(stack@.contains(stack@[a]));
                } else {
                    assert(cells@[b] == cells0[b]);
                }
            }
            assert(cells@.no_duplicates()) by {
                assert forall|a: int, b: int|
                    0 <= a < b < cells@.len() implies cells@[a] != cells@[b] by {
                    if b == cells0.len() {
                        assert(cells0.contains(cells0[a]));
                    }
                }
            }
            assert(seen.subset_of(set_int_range(0, ni)));
            lemma_int_range(0, ni);
            lemma_len_subset(seen, set_int_range(0, ni));
        }
    }
    proof {
        assert forall|a: int, b: int|
            seen.contains(a) && m[b] && #[trigger] adjacent(
                wi,
                m.len() as int,
                a,
                b,
            ) implies seen.contains(b) by {
            assert(cells@.contains(a as usize));
            let c = choose|c: int| 0 <= c < cells@.len() && cells@[c] == a as usize;
            assert(adjacent(wi, ni, cells@[c] as int, b));
        }
        assert forall|j: int| #[trigger] connected(m, wi, s0, j) implies seen.contains(j) && cells@.contains(
            j as usize,
        ) by {
            lemma_connected_closed(m, wi, seen, s0, j);
        }
    }
    cells
}

pub proof fn lemma_same_region_equal(labels: Seq<u8>, w: int, i: int, j: int)
    requires
        0 <= i < labels.len(),
        same_region(labels, w, i, j),
    ensures
        0 <= j < labels.len(),
        labels[i] == labels[j],
{
    lemma_connected_ends(same(labels, labels[i]), w, i, j);
}

pub proof fn lemma_same_region_symmetric(labels: Seq<u8>, w: int, i: int, j: int)
    requires
        0 <= i < labels.len(),
        same_region(labels, w, i, j),
    ensures
        same_region(labels, w, j, i),
{
    lemma_same_region_equal(labels, w, i, j);
    lemma_connected_symmetric(same(labels, labels[i]), w, i, j);
}

pub proof fn lemma_same_region_transitive(labels: Seq<u8>, w: int, i: int, j: int, k: int)
    requires
        0 <= i < labels.len(),
        same_region(labels, w, i, j),
        same_region(labels, w, j, k),
    ensures
        same_region(labels, w, i, k),
{
    lemma_same_region_equal(labels, w, i, j);
    lemma_connected_transitive(same(labels, labels[i]), w, i, j, k);
}

/// Component numbers follow the reading order of the components' first cells.
pub open spec fn in_reading_order(comp: Seq<usize>) -> bool {
    forall|i: int, id: int|
        #![trigger comes_before(comp, id, i)]
        0 <= i < comp.len() && comp[i] != usize::MAX && 0 <= id < comp[i] ==> comes_before(
            comp,
            id,
            i,
        )
}

/// Whether some cell before cell `i` is numbered `id`.
pub open spec fn comes_before(comp: Seq<usize>, id: int, i: int) -> bool {
    exists|k: int| 0 <= k < i && #[trigger] comp[k] == id
}

/// Whether `v` lists every cell numbered `id` in `comp`, each once.
pub open spec fn lists(v: Seq<usize>, comp: Seq<usize>, id: int) -> bool {
    &&& v.no_duplicates()
    &&& forall|a: int| 0 <= a < v.len() ==> (#[trigger] v[a]) < comp.len() && comp[v[a] as int] == id
    &&& forall|i: int| 0 <= i < comp.len() && #[trigger] comp[i] == id ==> v.contains(i as usize)
}

/// Whether `comp` numbers the regions of `labels`, without those labelled `skip`, in
/// reading order, and `members` lists the cells of each.
pub open spec fn regions_of(
    labels: Seq<u8>,
    w: int,
    skip: Option<u8>,
    comp: Seq<usize>,
    members: Seq<Vec<usize>>,
) -> bool {
    &&& comp.len() == labels.len()
    &&& forall|i: int|
        0 <= i < comp.len() ==> if skip == Some(labels[i]) {
            #[trigger] comp[i] == usize::MAX
        } else {
            comp[i] < members.len() && comp[i] != usize::MAX
        }
    &&& forall|i: int, j: int|
        0 <= i < comp.len() && 0 <= j < comp.len() && skip != Some(labels[i]) ==> (
        #[trigger] same_region(labels, w, i, j) <==> comp[i] == comp[j])
    &&& in_reading_order(comp)
    &&& forall|id: int|
        0 <= id < members.len() ==> (#[trigger] members[id])@.len() > 0 && lists(
            members[id]@,
            comp,
            id,
        )
}

/// Numbers the regions of a label raster, leaving out those labelled `skip`.
pub fn label_regions(labels: &[u8], w: usize, h: usize, skip: Option<u8>) -> (r: (
    Vec<usize>,
    Vec<Vec<usize>>,
))
    requires
        labels@.len() == w * h,
    ensures
        regions_of(labels@, w as int, skip, r.0@, r.1@),
{
    let n: usize = labels.len();
    let ghost wi = w as int;
    let mut comp: Vec<usize> = Vec::new();
    let mut fill: usize = 0;
    while fill < n
        invariant
            fill <= n,
            n == labels@.len(),
            comp@.len() == fill,
            forall|i: int| 0 <= i < fill ==> comp@[i] == usize::MAX,
        decreases n - fill,
    {
        comp.push(usize::MAX);
        fill = fill + 1;
    }
    let mut members: Vec<Vec<usize>> = Vec::new();
    let ghost mut first: Seq<int> = Seq::empty();
    proof {
        lemma_whole_rows(w as int, h as int, n as int);
    }
    for start in 0..n
        invariant
            n == labels@.len(),
            n > 0 ==> w > 0 && n as int % wi == 0,
            wi == w,
            comp@.len() == n,
            members@.len() == first.len(),
            members@.len() <= start,
            forall|i: int|
                0 <= i < n ==> (#[trigger] comp@[i] == usize::MAX || (comp@[i] < members@.len()
                    && skip != Some(labels@[i]))),
            forall|i: int|
                0 <= i < start ==> (skip == Some(labels@[i]) || #[trigger] comp@[i] != usize::MAX),
            forall|i: int, j: int|
                0 <= i < n && 0 <= j < n && comp@[i] != usize::MAX ==> (#[trigger] same_region(
                    labels@,
                    wi,
                    i,
                    j,
                ) <==> comp@[i] == comp@[j]),
            forall|id: int|
                0 <= id < first.len() ==> 0 <= #[trigger] first[id] < start && comp@[first[id]]
                    == id,
            forall|a: int, b: int| 0 <= a < b < first.len() ==> first[a] < first[b],
            forall|i: int|
                0 <= i < n && #[trigger] comp@[i] != usize::MAX ==> first[comp@[i] as int] <= i,
            forall|id: int|
                0 <= id < members@.len() ==> (#[trigger] members@[id])@.len() > 0 && lists(
                    members@[id]@,
                    comp@,
                    id,
                ),
    {
        let counted: bool = match skip {
            Some(l) => labels[start] != l,
            None => true,
        };
        if counted && comp[start] == usize::MAX {
            let id: usize = members.len();
            let ghost comp0 = comp@;
            let ghost members0 = members@;
            let ghost s0 = start as int;
            proof {
                assert forall|j: int|
                    #![trigger comp@[j]]
                    0 <= j < n && same_region(labels@, wi, s0, j) implies comp@[j]
                    == usize::MAX by {
                    if comp@[j] != usize::MAX {
                        lemma_same_region_symmetric(labels@, wi, s0, j);
                    }
                }
            }
            let cells: Vec<usize> = flood(labels, w, start, id, &mut comp);
            members.push(cells);
            proof {
                first = first.push(s0);
                assert(same_region(labels@, wi, s0, s0)) by {
                    lemma_connected_self(same(labels@, labels@[s0]), wi, s0);
                }
                assert forall|i: int, j: int|
                    0 <= i < n && 0 <= j < n && comp@[i] != usize::MAX implies (
                #[trigger] same_region(labels@, wi, i, j) <==> comp@[i] == comp@[j]) by {
                    if same_region(labels@, wi, s0, i) {
                        lemma_same_region_symmetric(labels@, wi, s0, i);
                        if same_region(labels@, wi, i, j) {
                            lemma_same_region_transitive(labels@, wi, s0, i, j);
                        }
                        if comp@[j] == id {
                            assert(same_region(labels@, wi, s0, j));
                            lemma_same_region_transitive(labels@, wi, i, s0, j);
                        }
                    } else {
                        assert(comp0[i] != usize::MAX);
                        if same_region(labels@, wi, s0, j) {
                            assert(comp0[j] == usize::MAX);
                            assert(comp0[i] < id);
                        }
                    }
                }
                assert forall|i: int|
                    0 <= i < n && #[trigger] comp@[i] != usize::MAX implies first[comp@[i] as int]
                    <= i by {
                    if same_region(labels@, wi, s0, i) {
                        assert(comp0[i] == usize::MAX);
                        lemma_same_region_equal(labels@, wi, s0, i);
                        assert(i >= start);
                    }
                }
                assert forall|d: int| 0 <= d < members@.len() implies (
                #[trigger] members@[d])@.len() > 0 && lists(members@[d]@, comp@, d) by {
                    if d < id {
                        assert(members@[d] == members0[d]);
                        assert(lists(members0[d]@, comp0, d));
                        let v = members@[d]@;
                        assert forall|a: int| 0 <= a < v.len() implies (#[trigger] v[a])
                            < comp@.len() && comp@[v[a] as int] == d by {
                            assert(comp0[v[a] as int] == d);
                        }
                        assert forall|i: int|
                            0 <= i < comp@.len() && #[trigger] comp@[i] == d implies v.contains(
                            i as usize,
                        ) by {
                            assert(comp0[i] == d);
                        }
                    } else {
                        assert(members@[d]@ == cells@);
                        assert forall|i: int|
                            0 <= i < comp@.len() && #[trigger] comp@[i]
                                == id implies cells@.contains(i as usize) by {
                            assert(same_region(labels@, wi, s0, i));
                        }
                        assert(comp@[s0] == id);
                        assert(cells@.contains(start));
                    }
                }
                assert forall|i: int|
                    0 <= i < n implies (#[trigger] comp@[i] == usize::MAX || (comp@[i]
                    < members@.len() && skip != Some(labels@[i]))) by {
                    if same_region(labels@, wi, s0, i) {
                        lemma_same_region_equal(labels@, wi, s0, i);
                    }
                }
            }
        }
    }
    proof {
        assert forall|i: int, id: int|
            0 <= i < comp@.len() && comp@[i] != usize::MAX && 0 <= id
                < comp@[i] implies #[trigger] comes_before(comp@, id, i) by {
            assert(comp@[first[id]] == id);
        }
    }
    (comp, members)
}

/// Whether `comp` numbers the 4-connected components of the kept cells in reading order,
/// `usize::MAX` standing for a cut cell, with `count` components in all.
pub open spec fn components_of(keep: Seq<bool>, w: int, comp: Seq<usize>, count: int) -> bool {
    &&& comp.len() == keep.len()
    &&& 0 <= count <= usize::MAX
    &&& forall|i: int|
        0 <= i < comp.len() ==> if keep[i] {
            #[trigger] comp[i] < count && comp[i] != usize::MAX
        } else {
            comp[i] == usize::MAX
        }
    &&& forall|i: int, j: int|
        0 <= i < comp.len() && 0 <= j < comp.len() && keep[i] ==> (#[trigger] connected(
            keep,
            w,
            i,
            j,
        ) <==> comp[i] == comp[j])
    &&& in_reading_order(comp)
    &&& forall|id: int| 0 <= id < count ==> #[trigger] occurs(comp, id)
}

/// Whether some cell is numbered `id`.
pub open spec fn occurs(comp: Seq<usize>, id: int) -> bool {
    exists|i: int| 0 <= i < comp.len() && #[trigger] comp[i] == id
}

/// Whether some cell numbered `id` lies on the edge of the grid.
pub open spec fn reaches_border(comp: Seq<usize>, w: int, id: int) -> bool {
    exists|i: int| 0 <= i < comp.len() && #[trigger] comp[i] == id && on_border(w, comp.len() as int, i)
}

/// Whether cell `i` lies on the edge of a grid of `n` cells, `w` to a row.
fn touches_edge(w: usize, n: usize, i: usize) -> (b: bool)
    requires
        w > 0,
        n as int % w as int == 0,
        i < n,
    ensures
        b == on_border(w as int, n as int, i as int),
{
    i % w == 0 || (i + 1) % w == 0 || i < w || n - i <= w
}

/// Numbers the 4-connected components of the kept cells, and tells which of them touch the
/// edge of the grid.
pub fn components(keep: &[bool], w: usize, h: usize) -> (r: (Vec<usize>, Vec<bool>))
    requires
        keep@.len() == w * h,
    ensures
        components_of(keep@, w as int, r.0@, r.1@.len() as int),
        forall|id: int|
            0 <= id < r.1@.len() ==> #[trigger] r.1@[id] == reaches_border(r.0@, w as int, id),
{
    let n: usize = keep.len();
    let mut labels: Vec<u8> = Vec::new();
    for i in 0..n
        invariant
            n == keep@.len(),
            labels@.len() == i,
            forall|j: int| 0 <= j < i ==> labels@[j] == if keep@[j] { 1u8 } else { 0u8 },
    {
        labels.push(if keep[i] { 1u8 } else { 0u8 });
    }
    let (comp, members) = label_regions(labels.as_slice(), w, h, Some(0));
    let ghost wi = w as int;
    proof {
        assert forall|i: int, j: int|
            0 <= i < n && keep@[i] implies #[trigger] connected(keep@, wi, i, j)
            == same_region(labels@, wi, i, j) by {
            assert(same(labels@, labels@[i]) =~= keep@);
        }
        assert forall|id: int| 0 <= id < members@.len() implies #[trigger] occurs(comp@, id) by {
            let v = members@[id]@;
            assert(lists(v, comp@, id));
            assert(comp@[v[0] as int] == id);
        }
        lemma_whole_rows(w as int, h as int, n as int);
    }
    let mut border: Vec<bool> = Vec::new();
    for id in 0..members.len()
        invariant
            n == comp@.len(),
            n > 0 ==> w > 0 && n as int % w as int == 0,
            forall|id: int|
                0 <= id < members@.len() ==> lists((#[trigger] members@[id])@, comp@, id),
            border@.len() == id,
            forall|d: int|
                0 <= d < id ==> #[trigger] border@[d] == reaches_border(comp@, w as int, d),
    {
        let cells: &Vec<usize> = &members[id];
        let mut found: bool = false;
        proof {
            assert(lists(members@[id as int]@, comp@, id as int));
        }
        for k in 0..cells.len()
            invariant
                n == comp@.len(),
                n > 0 ==> w > 0 && n as int % w as int == 0,
                lists(cells@, comp@, id as int),
                found == exists|a: int|
                    0 <= a < k && on_border(w as int, n as int, #[trigger] cells@[a] as int),
        {
            let c: usize = cells[k];
            let here: bool = touches_edge(w, n, c);
            proof {
                assert(on_border(w as int, n as int, cells@[k as int] as int) == here);
            }
            found = found || here;
        }
        proof {
            if found {
                let a = choose|a: int|
                    0 <= a < cells@.len() && on_border(
                        w as int,
                        n as int,
                        #[trigger] cells@[a] as int,
                    );
                assert(comp@[cells@[a] as int] == id);
            }
            if reaches_border(comp@, w as int, id as int) {
                let i = choose|i: int|
                    0 <= i < comp@.len() && #[trigger] comp@[i] == id && on_border(
                        w as int,
                        comp@.len() as int,
                        i,
                    );
                assert(cells@.contains(i as usize));
                let a = cells@.index_of(i as usize);
                assert(cells@[a] == i);
            }
        }
        border.push(found);
    }
    (comp, border)
}

/// The cells numbered `id` among the first `k`, in reading order.
pub open spec fn cells_of(comp: Seq<usize>, id: int, k: int) -> Seq<usize>
    decreases k,
{
    if k <= 0 {
        Seq::empty()
    } else if comp[k - 1] == id {
        cells_of(comp, id, k - 1).push((k - 1) as usize)
    } else {
        cells_of(comp, id, k - 1)
    }
}

/// `cells_of` lists exactly the cells numbered `id`, in ascending order.
pub proof fn lemma_cells_of(comp: Seq<usize>, id: int, k: int)
    requires
        0 <= k <= comp.len(),
        comp.len() <= usize::MAX,
    ensures
        forall|a: int|
            0 <= a < cells_of(comp, id, k).len() ==> (#[trigger] cells_of(comp, id, k)[a]) < k
                && comp[cells_of(comp, id, k)[a] as int] == id,
        forall|i: int|
            0 <= i < k && #[trigger] comp[i] == id ==> cells_of(comp, id, k).contains(i as usize),
        forall|a: int, b: int|
            0 <= a < b < cells_of(comp, id, k).len() ==> cells_of(comp, id, k)[a] < cells_of(
                comp,
                id,
                k,
            )[b],
    decreases k,
{
    if k > 0 {
        lemma_cells_of(comp, id, k - 1);
        let r = cells_of(comp, id, k - 1);
        let s = cells_of(comp, id, k);
        assert forall|i: int| 0 <= i < k && #[trigger] comp[i] == id implies s.contains(
            i as usize,
        ) by {
            if i == k - 1 {
                assert(s[s.len() - 1] == i);
            } else {
                let a = r.index_of(i as usize);
                assert(s[a] == i as usize);
            }
        }
    }
}

/// Lists the cells of each component in reading order.
pub fn group_cells(comp: &Vec<usize>, count: usize) -> (r: Vec<Vec<usize>>)
    requires
        forall|i: int| 0 <= i < comp@.len() ==> #[trigger] comp@[i] == usize::MAX || comp@[i] < count,
    ensures
        r@.len() == count,
        forall|id: int|
            0 <= id < count ==> (#[trigger] r@[id])@ == cells_of(comp@, id, comp@.len() as int),
{
    let mut cells: Vec<Vec<usize>> = Vec::new();
    for id in 0..count
        invariant
            cells@.len() == id,
            forall|d: int| 0 <= d < id ==> (#[trigger] cells@[d])@ == cells_of(comp@, d, 0),
    {
        cells.push(Vec::new());
    }
    for i in 0..comp.len()
        invariant
            cells@.len() == count,
            forall|i: int|
                0 <= i < comp@.len() ==> #[trigger] comp@[i] == usize::MAX || comp@[i] < count,
            forall|d: int|
                0 <= d < count ==> (#[trigger] cells@[d])@ == cells_of(comp@, d, i as int),
    {
        let id: usize = comp[i];
        if id != usize::MAX {
            let ghost before = cells@;
            cells[id].push(i);
            proof {
                assert forall|d: int| 0 <= d < count implies (#[trigger] cells@[d])@ == cells_of(
                    comp@,
                    d,
                    i + 1,
                ) by {
                    if d != id {
                        assert(cells@[d] == before[d]);
                    }
                    assert(before[d]@ == cells_of(comp@, d, i as int));
                }
            }
        }
    }
    cells
}

} // verus!
