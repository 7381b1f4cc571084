//! How islands are tied: across the shortest gap, long ones with more than one tab, and the
//! tabs far apart.

use crate::bridge::{
    bridge_course, bridge_round, bridged, lemma_course_stage, lemma_loose_told, lemma_site_list,
    loose_warnings, next_site, ranks_below, round_with, site_at, site_list, site_paints,
    sites_beside, sites_of, speck_warnings, stage_ok, tab_choice, tabs_paint, tabs_wanted,
    told_loose, Stage, Warning,
};
use crate::components::{cells_of, components_of, lemma_cells_of, reaches_border};
use crate::gap::{gap_searched, gap_within, lemma_gap_shortest, lemma_gap_spine};
use crate::grid::{
    adjacent, col, connected, frame_connected, lemma_adjacent_step, lemma_connected_ends,
    on_border, row, step_to,
};
use crate::tab::{in_brush, is_spine, painted};
use vstd::prelude::*;

verus! {

/// Whether a tab for island `id` can start at cell `q`: the cell is cut, stands beside the
/// island, and cut cells lead from it to anchored material.
pub open spec fn can_start(
    keep: Seq<bool>,
    anchored: Seq<bool>,
    w: int,
    comp: Seq<usize>,
    id: int,
    q: int,
) -> bool {
    &&& exists|i: int|
        0 <= i < comp.len() && comp[i] == id && #[trigger] adjacent(w, comp.len() as int, i, q)
    &&& exists|k: nat| gap_within(keep, anchored, w, q, k)
}

/// The squared distance between two cells of a grid that is `w` wide.
pub open spec fn apart(w: int, p: int, q: int) -> int {
    (p % w - q % w) * (p % w - q % w) + (p / w - q / w) * (p / w - q / w)
}

/// Whether two cells lie `n` columns or rows apart at least.
pub open spec fn spans(w: int, p: int, q: int, n: int) -> bool {
    p % w - q % w >= n || p / w - q / w >= n
}

/// Whether island `id` is tied by tabs at the cells `tabs`: all are kept in the end, as wide
/// as `bw`, none twice, the first across the shortest gap, the second as far from the first
/// as any cell where one can start. There are `n` of them at least, or one wherever one can
/// start.
pub open spec fn tied(
    before: Seq<bool>,
    anchored: Seq<bool>,
    after: Seq<bool>,
    w: int,
    bw: int,
    comp: Seq<usize>,
    id: int,
    n: int,
    tabs: Seq<usize>,
) -> bool {
    &&& tabs.len() >= 1
    &&& tabs.no_duplicates()
    &&& forall|k: int|
        0 <= k < tabs.len() ==> can_start(
            before,
            anchored,
            w,
            comp,
            id,
            #[trigger] tabs[k] as int,
        ) && after[tabs[k] as int]
    &&& forall|k: int, j: int|
        #![trigger tabs[k], after[j]]
        0 <= k < tabs.len() && 0 <= j < after.len() && 4 * apart(w, tabs[k] as int, j) <= bw * bw
            ==> after[j]
    &&& forall|q: int, m: nat| #[trigger]
        gap_within(before, anchored, w, q, m) && can_start(before, anchored, w, comp, id, q)
            ==> gap_within(before, anchored, w, tabs[0] as int, m)
    &&& tabs.len() >= 2 ==> forall|q: int| #[trigger]
        can_start(before, anchored, w, comp, id, q) ==> apart(w, q, tabs[0] as int) <= apart(
            w,
            tabs[1] as int,
            tabs[0] as int,
        )
    &&& tabs.len() >= n || forall|q: int| #[trigger]
        can_start(before, anchored, w, comp, id, q) ==> tabs.contains(q as usize)
}

proof fn lemma_sites_beside_all(
    keep: Seq<bool>,
    dist: Seq<usize>,
    w: int,
    i: int,
    k: int,
    d: int,
)
    requires
        0 <= d < k <= 4,
        site_at(keep, dist, w, i, d),
    ensures
        sites_beside(keep, dist, w, i, k).contains(step_to(w, i, d) as usize),
    decreases k,
{
    let now = sites_beside(keep, dist, w, i, k);
    let before = sites_beside(keep, dist, w, i, k - 1);
    let q = step_to(w, i, d) as usize;
    if d == k - 1 {
        assert(now[before.len() as int] == q);
    } else {
        lemma_sites_beside_all(keep, dist, w, i, k - 1, d);
        let a = before.index_of(q);
        assert(now[a] == q);
    }
}

proof fn lemma_site_list_all(
    keep: Seq<bool>,
    dist: Seq<usize>,
    w: int,
    cells: Seq<usize>,
    m: int,
    a: int,
    d: int,
)
    requires
        0 <= a < m <= cells.len(),
        0 <= d < 4,
        site_at(keep, dist, w, cells[a] as int, d),
    ensures
        site_list(keep, dist, w, cells, m).contains(step_to(w, cells[a] as int, d) as usize),
    decreases m,
{
    let q = step_to(w, cells[a] as int, d) as usize;
    let head = site_list(keep, dist, w, cells, m - 1);
    let tail = sites_beside(keep, dist, w, cells[m - 1] as int, 4);
    let now = site_list(keep, dist, w, cells, m);
    if a == m - 1 {
        lemma_sites_beside_all(keep, dist, w, cells[a] as int, 4, d);
        let b = tail.index_of(q);
        assert(now[head.len() + b] == q);
    } else {
        lemma_site_list_all(keep, dist, w, cells, m - 1, a, d);
        let b = head.index_of(q);
        assert(now[b] == q);
    }
}

/// The sites of an island are the cells where a tab can start.
proof fn lemma_sites(
    s: Stage,
    w: int,
    comp: Seq<usize>,
    dist: Seq<usize>,
    parent: Seq<usize>,
    id: int,
    q: int,
)
    requires
        w > 0,
        comp.len() as int % w == 0,
        comp.len() <= usize::MAX,
        s.keep.len() == comp.len(),
        s.anchored.len() == comp.len(),
        gap_searched(s.keep, s.anchored, w, dist, parent),
        0 <= q <= usize::MAX,
    ensures
        sites_of(s.keep, dist, w, comp, id).contains(q as usize) <==> can_start(
            s.keep,
            s.anchored,
            w,
            comp,
            id,
            q,
        ),
{
    let n = comp.len() as int;
    let cells = cells_of(comp, id, n);
    let sites = sites_of(s.keep, dist, w, comp, id);
    lemma_cells_of(comp, id, n);
    lemma_site_list(s.keep, dist, w, cells, cells.len() as int);
    if sites.contains(q as usize) {
        let a = sites.index_of(q as usize);
        assert(sites[a] == q as usize);
        let b = choose|b: int|
            0 <= b < cells.len() && #[trigger] adjacent(w, n, cells[b] as int, q);
        assert(comp[cells[b] as int] == id);
        lemma_gap_shortest(s.keep, s.anchored, w, dist, parent, q, 0);
        assert(gap_within(s.keep, s.anchored, w, q, dist[q] as nat));
    }
    if can_start(s.keep, s.anchored, w, comp, id, q) {
        let i = choose|i: int|
            0 <= i < comp.len() && comp[i] == id && #[trigger] adjacent(w, n, i, q);
        let k = choose|k: nat| gap_within(s.keep, s.anchored, w, q, k);
        lemma_gap_shortest(s.keep, s.anchored, w, dist, parent, q, k);
        let d = lemma_adjacent_step(w, n, i, q);
        assert(cells.contains(i as usize));
        let a = cells.index_of(i as usize);
        assert(site_at(s.keep, dist, w, cells[a] as int, d));
        lemma_site_list_all(s.keep, dist, w, cells, cells.len() as int, a, d);
    }
}

/// Tabs are chosen without repetition.
proof fn lemma_tabs_distinct(
    w: int,
    dist: Seq<usize>,
    sites: Seq<usize>,
    want: int,
    tabs: Seq<usize>,
)
    requires
        tab_choice(w, dist, sites, want, tabs),
    ensures
        tabs.no_duplicates(),
        forall|k: int| 0 <= k < tabs.len() ==> sites.contains(#[trigger] tabs[k]),
{
    assert forall|a: int, b: int| 0 <= a < tabs.len() && 0 <= b < tabs.len() && a != b implies tabs[a]
        != tabs[b] by {
        let (lo, hi) = if a < b {
            (a, b)
        } else {
            (b, a)
        };
        assert(next_site(w, dist, sites, tabs.take(hi), tabs[hi]));
        assert(tabs.take(hi)[lo] == tabs[lo]);
    }
    assert forall|k: int| 0 <= k < tabs.len() implies sites.contains(#[trigger] tabs[k]) by {
        if k == 0 {
            let q = choose|q: int|
                0 <= q < sites.len() && #[trigger] sites[q] == tabs[0] && forall|r: int|
                    0 <= r < sites.len() ==> dist[tabs[0] as int] < dist[
                        #[trigger] sites[r] as int] || (dist[tabs[0] as int] == dist[
                        sites[r] as int] && q <= r);
            assert(sites[q] == tabs[0]);
        } else {
            assert(next_site(w, dist, sites, tabs.take(k), tabs[k]));
        }
    }
}

/// One round ties its island: an island that is 40 times `n` cells long gets `n` tabs, or one
/// wherever one can start.
pub proof fn lemma_round_ties(
    keep: Seq<bool>,
    count: int,
    s: Stage,
    t: Stage,
    w: int,
    bw: int,
    comp: Seq<usize>,
    dist: Seq<usize>,
    parent: Seq<usize>,
    id: int,
    span: int,
    tabs: Seq<usize>,
    i: int,
    j: int,
    n: int,
)
    requires
        w > 0,
        comp.len() as int % w == 0,
        comp.len() <= usize::MAX,
        components_of(keep, w, comp, count),
        stage_ok(s, w, comp, count),
        round_with(s, t, w, bw, comp, dist, parent, id, span, tabs),
        0 <= i < comp.len(),
        0 <= j < comp.len(),
        comp[i] == id,
        comp[j] == id,
        n >= 1,
        spans(w, i, j, 40 * n - 1),
    ensures
        tied(s.keep, s.anchored, t.keep, w, bw, comp, id, n, tabs),
{
    let sites = sites_of(s.keep, dist, w, comp, id);
    let cells = cells_of(comp, id, comp.len() as int);
    lemma_cells_of(comp, id, comp.len() as int);
    assert(cells.contains(i as usize) && cells.contains(j as usize));
    let (a, b) = (cells.index_of(i as usize), cells.index_of(j as usize));
    assert(cells[a] == i && cells[b] == j);
    assert(col(w, cells[a] as int) - col(w, cells[b] as int) < span);
    assert(row(w, cells[a] as int) - row(w, cells[b] as int) < span);
    assert(span >= 40 * n);
    assert(tabs_wanted(span) >= n);
    lemma_tabs_distinct(w, dist, sites, tabs_wanted(span), tabs);
    assert forall|q: int| 0 <= q <= usize::MAX implies (sites.contains(q as usize)
        <==> #[trigger] can_start(s.keep, s.anchored, w, comp, id, q)) by {
        lemma_sites(s, w, comp, dist, parent, id, q);
    }
    assert forall|k: int, c: int|
        #![trigger tabs[k], t.keep[c]]
        0 <= k < tabs.len() && 0 <= c < t.keep.len() && 4 * apart(w, tabs[k] as int, c) <= bw
            * bw implies t.keep[c] by {
        assert(can_start(s.keep, s.anchored, w, comp, id, tabs[k] as int));
        lemma_tab_painted(s, t, w, bw, comp, dist, parent, id, span, tabs, k, c);
    }
    assert forall|k: int| 0 <= k < tabs.len() implies can_start(
        s.keep,
        s.anchored,
        w,
        comp,
        id,
        #[trigger] tabs[k] as int,
    ) && t.keep[tabs[k] as int] by {
        let c = tabs[k] as int;
        assert(can_start(s.keep, s.anchored, w, comp, id, c));
        assert(0 <= c < comp.len());
        let z = c % w - c % w;
        assert(apart(w, c, c) == 0 && 0 <= bw * bw) by (nonlinear_arith)
            requires
                apart(w, c, c) == (c % w - c % w) * (c % w - c % w) + (c / w - c / w) * (c / w - c
                    / w),
        ;
        lemma_tab_painted(s, t, w, bw, comp, dist, parent, id, span, tabs, k, c);
    }
    assert forall|q: int, m: nat| #[trigger]
        gap_within(s.keep, s.anchored, w, q, m) && can_start(
            s.keep,
            s.anchored,
            w,
            comp,
            id,
            q,
        ) implies gap_within(s.keep, s.anchored, w, tabs[0] as int, m) by {
        assert(sites.contains(q as usize));
        let r = sites.index_of(q as usize);
        assert(sites[r] == q);
        assert(can_start(s.keep, s.anchored, w, comp, id, tabs[0] as int));
        lemma_gap_shortest(s.keep, s.anchored, w, dist, parent, q, m);
        lemma_gap_shortest(s.keep, s.anchored, w, dist, parent, tabs[0] as int, m);
        assert(dist[tabs[0] as int] <= dist[q]);
        lemma_gap_more(s.keep, s.anchored, w, tabs[0] as int, dist[tabs[0] as int] as nat, m);
    }
    if tabs.len() >= 2 {
        assert forall|q: int| #[trigger]
            can_start(s.keep, s.anchored, w, comp, id, q) implies apart(w, q, tabs[0] as int)
            <= apart(w, tabs[1] as int, tabs[0] as int) by {
            assert(sites.contains(q as usize));
            let r = sites.index_of(q as usize);
            assert(sites[r] == q);
            let first = tabs.take(1);
            assert(first[0] == tabs[0]);
            assert(next_site(w, dist, sites, first, tabs[1]));
            let p = choose|p: int|
                0 <= p < sites.len() && #[trigger] sites[p] == tabs[1] && forall|r: int|
                    0 <= r < sites.len() ==> #[trigger] ranks_below(w, dist, sites, first, r, p);
            assert(ranks_below(w, dist, sites, first, r, p));
        }
    }
    if tabs.len() < n {
        assert forall|q: int| #[trigger]
            can_start(s.keep, s.anchored, w, comp, id, q) implies tabs.contains(q as usize) by {
            assert(sites.contains(q as usize));
            let r = sites.index_of(q as usize);
            assert(tabs.contains(sites[r]));
        }
    }
}

/// A way of `k` cut cells is one of `m` at most.
proof fn lemma_gap_more(keep: Seq<bool>, anchored: Seq<bool>, w: int, i: int, k: nat, m: nat)
    requires
        gap_within(keep, anchored, w, i, k),
        k <= m,
    ensures
        gap_within(keep, anchored, w, i, m),
    decreases k,
{
    if crate::gap::anchor_of(anchored, w, i) is None {
        let j = choose|j: int| #[trigger]
            adjacent(w, keep.len() as int, i, j) && gap_within(
                keep,
                anchored,
                w,
                j,
                (k - 1) as nat,
            );
        lemma_gap_more(keep, anchored, w, j, (k - 1) as nat, (m - 1) as nat);
    }
}

/// The brush paints all round a tab's first cell.
proof fn lemma_tab_painted(
    s: Stage,
    t: Stage,
    w: int,
    bw: int,
    comp: Seq<usize>,
    dist: Seq<usize>,
    parent: Seq<usize>,
    id: int,
    span: int,
    tabs: Seq<usize>,
    k: int,
    c: int,
)
    requires
        w > 0,
        comp.len() as int % w == 0,
        comp.len() <= usize::MAX,
        s.keep.len() == comp.len(),
        s.anchored.len() == comp.len(),
        forall|i: int| 0 <= i < comp.len() && #[trigger] s.anchored[i] ==> s.keep[i],
        round_with(s, t, w, bw, comp, dist, parent, id, span, tabs),
        0 <= k < tabs.len(),
        can_start(s.keep, s.anchored, w, comp, id, tabs[k] as int),
        0 <= c < comp.len(),
        4 * apart(w, tabs[k] as int, c) <= bw * bw,
    ensures
        t.keep[c],
{
    let q = tabs[k];
    let m = choose|m: nat| gap_within(s.keep, s.anchored, w, q as int, m);
    lemma_gap_shortest(s.keep, s.anchored, w, dist, parent, q as int, m);
    let spine = lemma_gap_spine(s.keep, s.anchored, w, dist, parent, q);
    assert(spine[0] == q && spine.len() > 0) by {
        reveal(is_spine);
    }
    assert(in_brush(w, bw, spine[0] as int, c));
    assert(painted(w, bw, spine, c));
    assert(crate::bridge::site_paints(parent, w, bw, tabs[k], c));
    assert(tabs_paint(parent, w, bw, tabs, tabs.len() as int, c));
}

/// What is kept at one stage stays.
proof fn lemma_stays(
    a: Seq<bool>,
    w: int,
    bw: int,
    comp: Seq<usize>,
    count: int,
    stages: Seq<Stage>,
    k: int,
    m: int,
    c: int,
)
    requires
        bridge_course(a, w, bw, comp, count, stages),
        0 <= k <= m < stages.len(),
        0 <= c < stages[k].keep.len(),
        stages[k].keep[c],
    ensures
        c < stages[m].keep.len(),
        stages[m].keep[c],
    decreases m - k,
{
    if k < m {
        lemma_stays(a, w, bw, comp, count, stages, k, m - 1, c);
        assert(bridge_round(stages[m - 1], stages[m - 1 + 1], w, bw, comp));
    }
}

/// Where an island that is loose at stage `k` and no longer at the end is tied.
proof fn lemma_when_tied(
    a: Seq<bool>,
    w: int,
    bw: int,
    comp: Seq<usize>,
    count: int,
    stages: Seq<Stage>,
    id: int,
    k: int,
) -> (m: int)
    requires
        bridge_course(a, w, bw, comp, count, stages),
        0 <= k < stages.len(),
        0 <= id < count,
        stages[k].pending.len() == count,
        stages[k].pending[id],
        !stages.last().pending[id],
    ensures
        k <= m < stages.len() - 1,
        stages[m].pending.len() == count,
        stages[m].pending[id],
        stages[m + 1].pending.len() == count,
        !stages[m + 1].pending[id],
    decreases stages.len() - k,
{
    assert(k < stages.len() - 1);
    assert(bridge_round(stages[k], stages[k + 1], w, bw, comp));
    if stages[k + 1].pending[id] {
        lemma_when_tied(a, w, bw, comp, count, stages, id, k + 1)
    } else {
        k
    }
}

/// Long islands cannot pivot: an island of which two cells lie 40 times `n` columns or rows
/// apart, both counted, is tied by `n` tabs at least, each at another cell, the first two as
/// far apart as can be; unless there are not so many cells where a tab can start, or a
/// warning names the island as out of reach.
pub proof fn lemma_long_islands(
    a: Seq<bool>,
    b: Seq<bool>,
    w: int,
    bw: int,
    told: Seq<Warning>,
    i: int,
    j: int,
    n: int,
)
    requires
        w > 0,
        a.len() as int % w == 0,
        a.len() <= usize::MAX,
        bridged(a, b, w, bw, told),
        connected(a, w, i, j),
        !frame_connected(a, w, i),
        n >= 1,
        spans(w, i, j, 40 * n - 1),
    ensures
        told_loose(a, w, told, i) || exists|
            before: Seq<bool>,
            anchored: Seq<bool>,
            comp: Seq<usize>,
            count: int,
            tabs: Seq<usize>,
        | #[trigger]
            tied(before, anchored, b, w, bw, comp, comp[i] as int, n, tabs) && #[trigger]
            components_of(a, w, comp, count) && comp[i] == comp[j] && forall|c: int|
                0 <= c < a.len() && anchored[c] ==> before[c] && #[trigger] frame_connected(
                    before,
                    w,
                    c,
                ),
{
    let (comp, count, stages) = choose|comp: Seq<usize>, count: int, stages: Seq<Stage>| #[trigger]
        bridge_course(a, w, bw, comp, count, stages) && b == stages.last().keep && told
            == speck_warnings(comp, w, count) + loose_warnings(stages.last().pending, count);
    lemma_connected_ends(a, w, i, j);
    let id = comp[i] as int;
    assert(comp[i] == comp[j]);
    let first = stages[0];
    assert(!reaches_border(comp, w, id)) by {
        if reaches_border(comp, w, id) {
            let e = choose|e: int|
                0 <= e < comp.len() && #[trigger] comp[e] == id && on_border(
                    w,
                    comp.len() as int,
                    e,
                );
            assert(connected(a, w, i, e));
            assert(frame_connected(a, w, i));
        }
    }
    assert(!crate::bridge::lone(comp, id)) by {
        let cells = cells_of(comp, id, comp.len() as int);
        lemma_cells_of(comp, id, comp.len() as int);
        assert(cells.contains(i as usize) && cells.contains(j as usize));
        let (p, q) = (cells.index_of(i as usize), cells.index_of(j as usize));
        assert(cells[p] == i && cells[q] == j);
        assert(i != j);
    }
    assert(first.pending[id]);
    let e = stages.last();
    lemma_course_stage(a, w, bw, comp, count, stages, stages.len() - 1);
    if e.pending[id] {
        lemma_loose_told(e.pending, count, id);
        let l = loose_warnings(e.pending, count);
        let x = l.index_of(Warning::Unreachable { island: comp[i] });
        assert(told[speck_warnings(comp, w, count).len() + x] == l[x]);
        assert(told.contains(Warning::Unreachable { island: comp[i] }));
        assert(told_loose(a, w, told, i));
    } else {
        let m = lemma_when_tied(a, w, bw, comp, count, stages, id, 0);
        let (s, t) = (stages[m], stages[m + 1]);
        lemma_course_stage(a, w, bw, comp, count, stages, m);
        lemma_course_stage(a, w, bw, comp, count, stages, m + 1);
        assert(bridge_round(stages[m], stages[m + 1], w, bw, comp));
        let (dist, parent, d, span, tabs) = choose|
            dist: Seq<usize>,
            parent: Seq<usize>,
            d: int,
            span: int,
            tabs: Seq<usize>,
        | #[trigger] round_with(s, t, w, bw, comp, dist, parent, d, span, tabs);
        assert(d == id);
        lemma_round_ties(
            a,
            count,
            s,
            t,
            w,
            bw,
            comp,
            dist,
            parent,
            id,
            span,
            tabs,
            i,
            j,
            n,
        );
        assert forall|c: int| 0 <= c < comp.len() && #[trigger] t.keep[c] implies b[c] by {
            lemma_stays(a, w, bw, comp, count, stages, m + 1, stages.len() - 1, c);
        }
        assert(b.len() == comp.len());
        assert forall|k: int| 0 <= k < tabs.len() implies can_start(
            s.keep,
            s.anchored,
            w,
            comp,
            id,
            #[trigger] tabs[k] as int,
        ) && b[tabs[k] as int] by {
            assert(t.keep[tabs[k] as int]);
        }
        assert forall|k: int, j: int|
            #![trigger tabs[k], b[j]]
            0 <= k < tabs.len() && 0 <= j < b.len() && 4 * apart(w, tabs[k] as int, j) <= bw
                * bw implies b[j] by {
            assert(t.keep[j]);
        }
        assert(tied(s.keep, s.anchored, b, w, bw, comp, comp[i] as int, n, tabs));
        assert forall|c: int| 0 <= c < a.len() && s.anchored[c] implies s.keep[c]
            && #[trigger] frame_connected(s.keep, w, c) by {}
    }
}

/// No island has more tabs than it has lengths of 40 cells: a second one is carved only where
/// two cells of the island lie 80 columns or rows apart, both counted, and so on.
pub proof fn lemma_few_tabs(
    s: Stage,
    t: Stage,
    w: int,
    bw: int,
    comp: Seq<usize>,
    dist: Seq<usize>,
    parent: Seq<usize>,
    id: int,
    span: int,
    tabs: Seq<usize>,
) -> (r: (int, int))
    requires
        comp.len() <= usize::MAX,
        round_with(s, t, w, bw, comp, dist, parent, id, span, tabs),
        tabs.len() >= 2,
    ensures
        0 <= r.0 < comp.len(),
        0 <= r.1 < comp.len(),
        comp[r.0] == id,
        comp[r.1] == id,
        spans(w, r.0, r.1, 40 * tabs.len() - 1),
{
    let cells = cells_of(comp, id, comp.len() as int);
    lemma_cells_of(comp, id, comp.len() as int);
    let (a, b) = choose|a: int, b: int|
        0 <= a < cells.len() && 0 <= b < cells.len() && #[trigger] crate::bridge::reaches_apart(
            w,
            cells,
            a,
            b,
            span,
        );
    (cells[a] as int, cells[b] as int)
}

/// Whether cell `c` lies on the way along which the tab at `site` is carved.
pub open spec fn on_way(parent: Seq<usize>, site: usize, c: usize) -> bool {
    exists|spine: Seq<usize>| #[trigger] is_spine(parent, site, spine) && spine.contains(c)
}

/// One round keeps all that was kept and adds tabs alone, as wide as asked for: a cell is added
/// just where it lies no farther than half that width from the way of one of the tabs.
pub proof fn lemma_round_adds(
    s: Stage,
    t: Stage,
    w: int,
    bw: int,
    comp: Seq<usize>,
    dist: Seq<usize>,
    parent: Seq<usize>,
    id: int,
    span: int,
    tabs: Seq<usize>,
    j: int,
)
    requires
        round_with(s, t, w, bw, comp, dist, parent, id, span, tabs),
        0 <= j < s.keep.len(),
    ensures
        s.keep[j] ==> t.keep[j],
        !s.keep[j] ==> (t.keep[j] <==> exists|site: usize, c: usize| #[trigger]
            on_way(parent, site, c) && tabs.contains(site) && 4 * apart(w, c as int, j) <= bw * bw),
{
    if t.keep[j] && !s.keep[j] {
        let k = choose|k: int|
            0 <= k < tabs.len() && site_paints(parent, w, bw, #[trigger] tabs[k], j);
        let spine = choose|spine: Seq<usize>| #[trigger]
            is_spine(parent, tabs[k], spine) && painted(w, bw, spine, j);
        let a = choose|a: int| 0 <= a < spine.len() && #[trigger] in_brush(w, bw, spine[a] as int, j);
        assert(spine.contains(spine[a]));
        assert(on_way(parent, tabs[k], spine[a]));
    }
    if exists|site: usize, c: usize| #[trigger]
        on_way(parent, site, c) && tabs.contains(site) && 4 * apart(w, c as int, j) <= bw * bw {
        let (site, c) = choose|site: usize, c: usize| #[trigger]
            on_way(parent, site, c) && tabs.contains(site) && 4 * apart(w, c as int, j) <= bw * bw;
        let spine = choose|spine: Seq<usize>| #[trigger]
            is_spine(parent, site, spine) && spine.contains(c);
        let a = spine.index_of(c);
        assert(in_brush(w, bw, spine[a] as int, j));
        let k = tabs.index_of(site);
        assert(site_paints(parent, w, bw, tabs[k], j));
    }
}

} // verus!
