//! Bridging: tying every island of material to the frame with tabs across the gap.

use crate::components::{
    cells_of, components, components_of, group_cells, lemma_cells_of, occurs, reaches_border,
};
use crate::gap::{gap_bfs, gap_searched, lemma_gap_spine};
use crate::grid::{
    adjacent, col, connected, frame_connected, has_step, lemma_connected_closed,
    lemma_connected_ends, lemma_connected_extend, lemma_connected_monotone, lemma_connected_self,
    lemma_connected_transitive, lemma_step_adjacent, lemma_whole_rows, on_border, row, step,
    step_to,
};
use crate::tab::{
    carve_tab, carved, dist_sq, is_spine, lemma_brush_centre, lemma_painted_connected, painted,
};
use crate::text::{decimal, push_decimal};
use vstd::prelude::*;
use vstd::string::*;

verus! {

/// What bridging has to tell about an island it did not tie to the frame.
#[derive(Clone, Copy, Debug, PartialEq, Eq, Structural)]
pub enum Warning {
    /// An island of one cell was cut away.
    SpeckDropped { x: usize, y: usize },
    /// No gap leads from the island to anchored material; it stays loose.
    Unreachable { island: usize },
}

impl Warning {
    /// The warning in words.
    pub open spec fn words(self) -> Seq<char> {
        match self {
            Warning::SpeckDropped { x, y } => {
                let at = seq!['('] + decimal(x as nat) + seq![','] + decimal(y as nat) + seq![')'];
                "dropped speck island at "@ + at + seq!['-'] + at + ": span 1px"@
            },
            Warning::Unreachable { island } => "island "@ + decimal(island as nat)
                + " could not reach the frame; left unbridged"@,
        }
    }

    /// The warning in words.
    pub fn message(&self) -> (s: String)
        ensures
            s@ == self.words(),
    {
        match *self {
            Warning::SpeckDropped { x, y } => {
                let mut s: String = String::from_str("dropped speck island at ");
                s.push('(');
                push_decimal(&mut s, x as u64);
                s.push(',');
                push_decimal(&mut s, y as u64);
                s.push(')');
                s.push('-');
                s.push('(');
                push_decimal(&mut s, x as u64);
                s.push(',');
                push_decimal(&mut s, y as u64);
                s.push(')');
                s.append(": span 1px");
                proof {
                    assert(s@ =~= self.words());
                }
                s
            },
            Warning::Unreachable { island } => {
                let mut s: String = String::from_str("island ");
                push_decimal(&mut s, island as u64);
                s.append(" could not reach the frame; left unbridged");
                s
            },
        }
    }
}

/// Whether the cut cell in direction `k` from `i` can start a tab.
pub open spec fn site_at(keep: Seq<bool>, dist: Seq<usize>, w: int, i: int, k: int) -> bool {
    &&& has_step(w, keep.len() as int, i, k)
    &&& !keep[step_to(w, i, k)]
    &&& dist[step_to(w, i, k)] != usize::MAX
}

/// The tab sites beside cell `i` in the first `k` directions.
pub open spec fn sites_beside(
    keep: Seq<bool>,
    dist: Seq<usize>,
    w: int,
    i: int,
    k: int,
) -> Seq<usize>
    decreases k,
{
    if k <= 0 {
        Seq::empty()
    } else if site_at(keep, dist, w, i, k - 1) {
        sites_beside(keep, dist, w, i, k - 1).push(step_to(w, i, k - 1) as usize)
    } else {
        sites_beside(keep, dist, w, i, k - 1)
    }
}

/// The tab sites beside the first `m` of `cells`, as they are met.
pub open spec fn site_list(
    keep: Seq<bool>,
    dist: Seq<usize>,
    w: int,
    cells: Seq<usize>,
    m: int,
) -> Seq<usize>
    decreases m,
{
    if m <= 0 {
        Seq::empty()
    } else {
        site_list(keep, dist, w, cells, m - 1) + sites_beside(
            keep,
            dist,
            w,
            cells[m - 1] as int,
            4,
        )
    }
}

/// The tab sites of island `id`.
pub open spec fn sites_of(
    keep: Seq<bool>,
    dist: Seq<usize>,
    w: int,
    comp: Seq<usize>,
    id: int,
) -> Seq<usize> {
    let cells = cells_of(comp, id, comp.len() as int);
    site_list(keep, dist, w, cells, cells.len() as int)
}

/// The shortest gap at any of the sites.
pub open spec fn gap_len(dist: Seq<usize>, sites: Seq<usize>) -> usize
    decreases sites.len(),
{
    if sites.len() <= 1 {
        dist[sites[0] as int]
    } else {
        let g = gap_len(dist, sites.drop_last());
        if dist[sites.last() as int] < g {
            dist[sites.last() as int]
        } else {
            g
        }
    }
}

/// Whether `s` is the larger side of the box round `cells`.
pub open spec fn is_span(w: int, cells: Seq<usize>, s: int) -> bool {
    &&& forall|a: int, b: int|
        0 <= a < cells.len() && 0 <= b < cells.len() ==> #[trigger] col(w, cells[a] as int) - (
        #[trigger] col(w, cells[b] as int)) < s
    &&& forall|a: int, b: int|
        0 <= a < cells.len() && 0 <= b < cells.len() ==> #[trigger] row(w, cells[a] as int) - (
        #[trigger] row(w, cells[b] as int)) < s
    &&& exists|a: int, b: int|
        0 <= a < cells.len() && 0 <= b < cells.len() && #[trigger] reaches_apart(
            w,
            cells,
            a,
            b,
            s,
        )
}

/// Whether cells `a` and `b` of the list lie `s - 1` columns or rows apart.
pub open spec fn reaches_apart(w: int, cells: Seq<usize>, a: int, b: int, s: int) -> bool {
    ||| col(w, cells[a] as int) - col(w, cells[b] as int) == s - 1
    ||| row(w, cells[a] as int) - row(w, cells[b] as int) == s - 1
}

/// The number of tabs for an island of the given span: one for each 40 cells, at least one.
pub open spec fn tabs_wanted(span: int) -> int {
    if span / 40 >= 1 {
        span / 40
    } else {
        1
    }
}

/// The width at which tabs are carved: at least one cell.
pub open spec fn tab_width(bw: int) -> int {
    if bw >= 1 {
        bw
    } else {
        1
    }
}

/// The squared distance from cell `c` to the nearest of `chosen`.
pub open spec fn nearest(w: int, chosen: Seq<usize>, c: int) -> int
    decreases chosen.len(),
{
    if chosen.len() <= 1 {
        dist_sq(w, c, chosen[0] as int)
    } else {
        let a = nearest(w, chosen.drop_last(), c);
        let b = dist_sq(w, c, chosen.last() as int);
        if b < a {
            b
        } else {
            a
        }
    }
}

/// Whether `c` is the site across the shortest gap, the first met of several.
pub open spec fn first_site(dist: Seq<usize>, sites: Seq<usize>, c: usize) -> bool {
    exists|q: int|
        0 <= q < sites.len() && #[trigger] sites[q] == c && forall|r: int|
            0 <= r < sites.len() ==> dist[c as int] < dist[#[trigger] sites[r] as int] || (
            dist[c as int] == dist[sites[r] as int] && q <= r)
}

/// Whether site `r` ranks no higher than site `q` for the next tab: nearer to the chosen
/// ones, or as near across a shorter gap, or met no later.
pub open spec fn ranks_below(
    w: int,
    dist: Seq<usize>,
    sites: Seq<usize>,
    chosen: Seq<usize>,
    r: int,
    q: int,
) -> bool {
    let a = nearest(w, chosen, sites[r] as int);
    let b = nearest(w, chosen, sites[q] as int);
    let g = dist[sites[r] as int];
    let h = dist[sites[q] as int];
    a < b || (a == b && (g < h || (g == h && r <= q)))
}

/// Whether `c` is the site for the next tab, farthest from those chosen already.
pub open spec fn next_site(
    w: int,
    dist: Seq<usize>,
    sites: Seq<usize>,
    chosen: Seq<usize>,
    c: usize,
) -> bool {
    &&& !chosen.contains(c)
    &&& exists|q: int|
        0 <= q < sites.len() && #[trigger] sites[q] == c && forall|r: int|
            0 <= r < sites.len() ==> #[trigger] ranks_below(w, dist, sites, chosen, r, q)
}

/// Whether `tabs` are the sites at which tabs are carved, `want` of them if there are so
/// many: first the one across the shortest gap, then each time the farthest from the rest.
pub open spec fn tab_choice(
    w: int,
    dist: Seq<usize>,
    sites: Seq<usize>,
    want: int,
    tabs: Seq<usize>,
) -> bool {
    &&& 1 <= tabs.len() <= want
    &&& first_site(dist, sites, tabs[0])
    &&& forall|t: int|
        1 <= t < tabs.len() ==> next_site(w, dist, sites, tabs.take(t), #[trigger] tabs[t])
    &&& tabs.len() == want || forall|q: int|
        0 <= q < sites.len() ==> tabs.contains(#[trigger] sites[q])
}

/// Whether a tab carved from `site` covers cell `j`.
pub open spec fn site_paints(parent: Seq<usize>, w: int, bw: int, site: usize, j: int) -> bool {
    exists|spine: Seq<usize>| #[trigger] is_spine(parent, site, spine) && painted(w, bw, spine, j)
}

/// Whether one of the first `k` tabs covers cell `j`.
pub open spec fn tabs_paint(
    parent: Seq<usize>,
    w: int,
    bw: int,
    tabs: Seq<usize>,
    k: int,
    j: int,
) -> bool {
    exists|t: int| 0 <= t < k && site_paints(parent, w, bw, #[trigger] tabs[t], j)
}

/// How far bridging has come: what is kept, which of it is known to reach the frame, and
/// which islands are still loose.
pub struct Stage {
    pub keep: Seq<bool>,
    pub anchored: Seq<bool>,
    pub pending: Seq<bool>,
}

/// Whether component `id` has one cell only.
pub open spec fn lone(comp: Seq<usize>, id: int) -> bool {
    cells_of(comp, id, comp.len() as int).len() == 1
}

/// Whether component `id` is an island of one cell.
pub open spec fn is_speck(comp: Seq<usize>, w: int, id: int) -> bool {
    !reaches_border(comp, w, id) && lone(comp, id)
}

/// The first stage: specks cut away, the rest of the islands loose.
pub open spec fn first_stage(keep: Seq<bool>, w: int, comp: Seq<usize>, count: int) -> Stage {
    Stage {
        keep: Seq::new(keep.len(), |i: int| keep[i] && !is_speck(comp, w, comp[i] as int)),
        anchored: Seq::new(keep.len(), |i: int| keep[i] && reaches_border(comp, w, comp[i] as int)),
        pending: Seq::new(
            count as nat,
            |id: int| !reaches_border(comp, w, id) && !lone(comp, id),
        ),
    }
}

/// Whether `id` is the loose island to bridge next: none has a shorter gap, and none of
/// those with as short a gap has a lower number.
pub open spec fn next_island(
    s: Stage,
    w: int,
    comp: Seq<usize>,
    dist: Seq<usize>,
    id: int,
) -> bool {
    let sites = sites_of(s.keep, dist, w, comp, id);
    &&& 0 <= id < s.pending.len()
    &&& s.pending[id]
    &&& sites.len() > 0
    &&& forall|o: int|
        0 <= o < s.pending.len() && s.pending[o] && sites_of(s.keep, dist, w, comp, o).len() > 0
            ==> {
            let g = gap_len(dist, sites);
            let h = gap_len(dist, #[trigger] sites_of(s.keep, dist, w, comp, o));
            g < h || (g == h && id <= o)
        }
}

/// Whether one round, in which island `id` gets its `tabs`, leads from `s` to `t`.
pub open spec fn round_with(
    s: Stage,
    t: Stage,
    w: int,
    bw: int,
    comp: Seq<usize>,
    dist: Seq<usize>,
    parent: Seq<usize>,
    id: int,
    span: int,
    tabs: Seq<usize>,
) -> bool {
    &&& gap_searched(s.keep, s.anchored, w, dist, parent)
    &&& next_island(s, w, comp, dist, id)
    &&& is_span(w, cells_of(comp, id, comp.len() as int), span)
    &&& tab_choice(w, dist, sites_of(s.keep, dist, w, comp, id), tabs_wanted(span), tabs)
    &&& t.keep.len() == s.keep.len()
    &&& t.anchored.len() == s.anchored.len()
    &&& t.pending == s.pending.update(id, false)
    &&& forall|j: int|
        0 <= j < s.keep.len() ==> (#[trigger] t.keep[j] <==> s.keep[j] || tabs_paint(
            parent,
            w,
            bw,
            tabs,
            tabs.len() as int,
            j,
        ))
    &&& forall|j: int|
        0 <= j < s.keep.len() ==> (#[trigger] t.anchored[j] <==> s.anchored[j] || (t.keep[j]
            && !s.keep[j]) || comp[j] == id)
}

/// Whether one round of bridging leads from `s` to `t`.
pub open spec fn bridge_round(s: Stage, t: Stage, w: int, bw: int, comp: Seq<usize>) -> bool {
    exists|dist: Seq<usize>, parent: Seq<usize>, id: int, span: int, tabs: Seq<usize>| #[trigger]
        round_with(s, t, w, bw, comp, dist, parent, id, span, tabs)
}

/// Whether no loose island is left that a gap ties to anchored material.
pub open spec fn bridge_end(s: Stage, w: int, comp: Seq<usize>) -> bool {
    ||| forall|id: int| 0 <= id < s.pending.len() ==> !(#[trigger] s.pending[id])
    ||| exists|dist: Seq<usize>, parent: Seq<usize>| #[trigger]
        gap_searched(s.keep, s.anchored, w, dist, parent) && forall|id: int|
            0 <= id < s.pending.len() && #[trigger] s.pending[id] ==> sites_of(
                s.keep,
                dist,
                w,
                comp,
                id,
            ).len() == 0
}

/// The warnings for the specks among the first `k` components.
pub open spec fn speck_warnings(comp: Seq<usize>, w: int, k: int) -> Seq<Warning>
    decreases k,
{
    if k <= 0 {
        Seq::empty()
    } else if is_speck(comp, w, k - 1) {
        let i = cells_of(comp, k - 1, comp.len() as int)[0] as int;
        speck_warnings(comp, w, k - 1).push(
            Warning::SpeckDropped { x: col(w, i) as usize, y: row(w, i) as usize },
        )
    } else {
        speck_warnings(comp, w, k - 1)
    }
}

/// The warnings for the loose islands among the first `k` components.
pub open spec fn loose_warnings(pending: Seq<bool>, k: int) -> Seq<Warning>
    decreases k,
{
    if k <= 0 {
        Seq::empty()
    } else if pending[k - 1] {
        loose_warnings(pending, k - 1).push(Warning::Unreachable { island: (k - 1) as usize })
    } else {
        loose_warnings(pending, k - 1)
    }
}

/// Whether `stages` is the course of bridging the mask `keep` whose components are `comp`.
pub open spec fn bridge_course(
    keep: Seq<bool>,
    w: int,
    bw: int,
    comp: Seq<usize>,
    count: int,
    stages: Seq<Stage>,
) -> bool {
    &&& components_of(keep, w, comp, count)
    &&& stages.len() > 0
    &&& stages[0] == first_stage(keep, w, comp, count)
    &&& forall|k: int|
        0 <= k < stages.len() - 1 ==> bridge_round(#[trigger] stages[k], stages[k + 1], w, bw, comp)
    &&& bridge_end(stages.last(), w, comp)
}

/// Whether bridging the mask `a` leaves the mask `b` and gives the warnings `told`.
pub open spec fn bridged(
    a: Seq<bool>,
    b: Seq<bool>,
    w: int,
    bw: int,
    told: Seq<Warning>,
) -> bool {
    exists|comp: Seq<usize>, count: int, stages: Seq<Stage>| #[trigger]
        bridge_course(a, w, bw, comp, count, stages) && b == stages.last().keep && told
            == speck_warnings(comp, w, count) + loose_warnings(stages.last().pending, count)
}

/// The larger side of the box round some cells.
fn island_span(cells: &Vec<usize>, w: usize) -> (s: usize)
    requires
        w > 0,
        cells@.len() > 0,
        forall|a: int| 0 <= a < cells@.len() ==> (#[trigger] cells@[a]) < usize::MAX,
    ensures
        is_span(w as int, cells@, s as int),
        s >= 1,
{
    let ghost wi = w as int;
    let c0: usize = cells[0];
    let mut minx: usize = c0 % w;
    let mut maxx: usize = c0 % w;
    let mut miny: usize = c0 / w;
    let mut maxy: usize = c0 / w;
    proof {
        assert(maxy <= c0) by (nonlinear_arith)
            requires
                w > 0,
                maxy == c0 / w,
        ;
    }
    let ghost mut ax: int = 0;
    let ghost mut bx: int = 0;
    let ghost mut ay: int = 0;
    let ghost mut by: int = 0;
    for k in 1..cells.len()
        invariant
            w > 0,
            wi == w,
            cells@.len() > 0,
            forall|a: int| 0 <= a < cells@.len() ==> (#[trigger] cells@[a]) < usize::MAX,
            maxy < usize::MAX,
            forall|a: int|
                0 <= a < k ==> minx <= #[trigger] col(wi, cells@[a] as int) <= maxx,
            forall|a: int|
                0 <= a < k ==> miny <= #[trigger] row(wi, cells@[a] as int) <= maxy,
            0 <= ax < k && 0 <= bx < k && 0 <= ay < k && 0 <= by < k,
            col(wi, cells@[ax] as int) == maxx,
            col(wi, cells@[bx] as int) == minx,
            row(wi, cells@[ay] as int) == maxy,
            row(wi, cells@[by] as int) == miny,
            maxx < w,
            minx <= maxx,
            miny <= maxy,
    {
        let c: usize = cells[k];
        let x: usize = c % w;
        let y: usize = c / w;
        proof {
            assert(y <= c) by (nonlinear_arith)
                requires
                    w > 0,
                    y == c / w,
            ;
        }
        if x < minx {
            minx = x;
            proof {
                bx = k as int;
            }
        }
        if x > maxx {
            maxx = x;
            proof {
                ax = k as int;
            }
        }
        if y < miny {
            miny = y;
            proof {
                by = k as int;
            }
        }
        if y > maxy {
            maxy = y;
            proof {
                ay = k as int;
            }
        }
    }
    let dx: usize = maxx - minx;
    let dy: usize = maxy - miny;
    let m: usize = if dx >= dy { dx } else { dy };
    proof {
        if dx >= dy {
            assert(reaches_apart(wi, cells@, ax, bx, m + 1));
        } else {
            assert(reaches_apart(wi, cells@, ay, by, m + 1));
        }
    }
    m + 1
}

/// The tab sites beside `cells`, as they are met.
fn tab_sites(keep: &Vec<bool>, dist: &Vec<usize>, w: usize, cells: &Vec<usize>) -> (r: Vec<usize>)
    requires
        w > 0,
        keep@.len() as int % w as int == 0,
        dist@.len() == keep@.len(),
        forall|a: int| 0 <= a < cells@.len() ==> (#[trigger] cells@[a]) < keep@.len(),
    ensures
        r@ == site_list(keep@, dist@, w as int, cells@, cells@.len() as int),
{
    let n: usize = keep.len();
    let mut sites: Vec<usize> = Vec::new();
    for m in 0..cells.len()
        invariant
            w > 0,
            n == keep@.len(),
            n as int % w as int == 0,
            dist@.len() == n,
            forall|a: int| 0 <= a < cells@.len() ==> (#[trigger] cells@[a]) < n,
            sites@ == site_list(keep@, dist@, w as int, cells@, m as int),
    {
        let i: usize = cells[m];
        let ghost base = sites@;
        for k in 0..4usize
            invariant
                w > 0,
                n == keep@.len(),
                n as int % w as int == 0,
                dist@.len() == n,
                i < n,
                sites@ == base + sites_beside(keep@, dist@, w as int, i as int, k as int),
        {
            if let Some(c) = step(w, n, i, k) {
                if !keep[c] && dist[c] != usize::MAX {
                    sites.push(c);
                }
            }
        }
    }
    sites
}

/// Every site of a list is a cut cell with a distance that shares a side with a cell.
pub proof fn lemma_site_list(keep: Seq<bool>, dist: Seq<usize>, w: int, cells: Seq<usize>, m: int)
    requires
        w > 0,
        keep.len() as int % w == 0,
        keep.len() <= usize::MAX,
        0 <= m <= cells.len(),
        forall|a: int| 0 <= a < cells.len() ==> (#[trigger] cells[a]) < keep.len(),
    ensures
        forall|q: int|
            0 <= q < site_list(keep, dist, w, cells, m).len() ==> site_beside_some(
                keep,
                dist,
                w,
                cells,
                #[trigger] site_list(keep, dist, w, cells, m)[q],
            ),
    decreases m,
{
    if m > 0 {
        lemma_site_list(keep, dist, w, cells, m - 1);
        let r = site_list(keep, dist, w, cells, m - 1);
        let t = sites_beside(keep, dist, w, cells[m - 1] as int, 4);
        let s = site_list(keep, dist, w, cells, m);
        lemma_sites_beside(keep, dist, w, cells, m - 1, 4);
        assert forall|q: int| 0 <= q < s.len() implies site_beside_some(
            keep,
            dist,
            w,
            cells,
            #[trigger] s[q],
        ) by {
            if q < r.len() {
                assert(s[q] == r[q]);
            } else {
                assert(s[q] == t[q - r.len()]);
            }
        }
    }
}

/// Whether `c` is a cut cell with a distance that shares a side with one of `cells`.
pub open spec fn site_beside_some(
    keep: Seq<bool>,
    dist: Seq<usize>,
    w: int,
    cells: Seq<usize>,
    c: usize,
) -> bool {
    &&& c < keep.len()
    &&& !keep[c as int]
    &&& dist[c as int] != usize::MAX
    &&& exists|a: int|
        0 <= a < cells.len() && #[trigger] adjacent(w, keep.len() as int, cells[a] as int, c as int)
}

proof fn lemma_sites_beside(
    keep: Seq<bool>,
    dist: Seq<usize>,
    w: int,
    cells: Seq<usize>,
    a: int,
    k: int,
)
    requires
        w > 0,
        keep.len() as int % w == 0,
        keep.len() <= usize::MAX,
        0 <= a < cells.len(),
        cells[a] < keep.len(),
        0 <= k <= 4,
    ensures
        forall|q: int|
            0 <= q < sites_beside(keep, dist, w, cells[a] as int, k).len() ==> site_beside_some(
                keep,
                dist,
                w,
                cells,
                #[trigger] sites_beside(keep, dist, w, cells[a] as int, k)[q],
            ),
    decreases k,
{
    if k > 0 {
        lemma_sites_beside(keep, dist, w, cells, a, k - 1);
        let i = cells[a] as int;
        if site_at(keep, dist, w, i, k - 1) {
            lemma_step_adjacent(w, keep.len() as int, i, k - 1);
            let c = step_to(w, i, k - 1);
            assert(adjacent(w, keep.len() as int, cells[a] as int, c));
            assert(site_beside_some(keep, dist, w, cells, c as usize));
        }
        let r = sites_beside(keep, dist, w, i, k - 1);
        let s = sites_beside(keep, dist, w, i, k);
        assert forall|q: int| 0 <= q < s.len() implies site_beside_some(
            keep,
            dist,
            w,
            cells,
            #[trigger] s[q],
        ) by {
            if q < r.len() {
                assert(s[q] == r[q]);
            }
        }
    }
}

/// The shortest gap at any of the sites; see `gap_len`.
fn shortest_gap(dist: &Vec<usize>, sites: &Vec<usize>) -> (g: usize)
    requires
        sites@.len() > 0,
        forall|q: int| 0 <= q < sites@.len() ==> (#[trigger] sites@[q]) < dist@.len(),
    ensures
        g == gap_len(dist@, sites@),
{
    let mut g: usize = dist[sites[0]];
    proof {
        assert(sites@.take(1)[0] == sites@[0]);
    }
    for k in 1..sites.len()
        invariant
            sites@.len() > 0,
            forall|q: int| 0 <= q < sites@.len() ==> (#[trigger] sites@[q]) < dist@.len(),
            g == gap_len(dist@, sites@.take(k as int)),
    {
        proof {
            assert(sites@.take(k + 1).drop_last() =~= sites@.take(k as int));
        }
        let d: usize = dist[sites[k]];
        if d < g {
            g = d;
        }
    }
    proof {
        assert(sites@.take(sites@.len() as int) =~= sites@);
    }
    g
}

/// The squared distance between two cells; see `dist_sq`.
fn cell_dist_sq(w: usize, h: usize, i: usize, j: usize) -> (d: u128)
    requires
        0 < w,
        w * h <= usize::MAX,
        i < w * h,
        j < w * h,
    ensures
        d == dist_sq(w as int, i as int, j as int),
{
    let (ix, iy): (usize, usize) = (i % w, i / w);
    let (jx, jy): (usize, usize) = (j % w, j / w);
    proof {
        assert(iy < h && jy < h) by (nonlinear_arith)
            requires
                w > 0,
                i < w * h,
                j < w * h,
                iy == i / w,
                jy == j / w,
        ;
        assert(w + h - 1 <= w * h) by (nonlinear_arith)
            requires
                w >= 1,
                h >= 1,
        ;
    }
    let dx: u128 = if ix < jx { (jx - ix) as u128 } else { (ix - jx) as u128 };
    let dy: u128 = if iy < jy { (jy - iy) as u128 } else { (iy - jy) as u128 };
    proof {
        let sx = ix - jx;
        let sy = iy - jy;
        assert(0 <= dx * dx && 0 <= dy * dy && dx * dx + dy * dy <= 0xffff_ffff_ffff_ffff
            * 0xffff_ffff_ffff_ffff) by (nonlinear_arith)
            requires
                0 <= dx,
                0 <= dy,
                dx + dy <= 0xffff_ffff_ffff_ffff,
        ;
        assert(dx * dx == sx * sx && dy * dy == sy * sy) by (nonlinear_arith)
            requires
                dx == sx || dx == -sx,
                dy == sy || dy == -sy,
        ;
    }
    dx * dx + dy * dy
}

/// The squared distance to the nearest of `chosen`; see `nearest`.
fn nearest_sq(w: usize, h: usize, chosen: &Vec<usize>, c: usize) -> (d: u128)
    requires
        0 < w,
        w * h <= usize::MAX,
        c < w * h,
        chosen@.len() > 0,
        forall|t: int| 0 <= t < chosen@.len() ==> (#[trigger] chosen@[t]) < w * h,
    ensures
        d == nearest(w as int, chosen@, c as int),
{
    let mut best: u128 = cell_dist_sq(w, h, c, chosen[0]);
    proof {
        assert(chosen@.take(1)[0] == chosen@[0]);
    }
    for t in 1..chosen.len()
        invariant
            0 < w,
            w * h <= usize::MAX,
            c < w * h,
            chosen@.len() > 0,
            forall|t: int| 0 <= t < chosen@.len() ==> (#[trigger] chosen@[t]) < w * h,
            best == nearest(w as int, chosen@.take(t as int), c as int),
    {
        proof {
            assert(chosen@.take(t + 1).drop_last() =~= chosen@.take(t as int));
        }
        let d: u128 = cell_dist_sq(w, h, c, chosen[t]);
        if d < best {
            best = d;
        }
    }
    proof {
        assert(chosen@.take(chosen@.len() as int) =~= chosen@);
    }
    best
}

/// A cell at no distance from the chosen ones is one of them, and no other is.
proof fn lemma_nearest_zero(w: int, chosen: Seq<usize>, c: usize)
    requires
        w > 0,
        chosen.len() > 0,
    ensures
        nearest(w, chosen, c as int) == 0 <==> chosen.contains(c),
        nearest(w, chosen, c as int) >= 0,
    decreases chosen.len(),
{
    let l = chosen.last();
    lemma_dist_zero(w, c as int, l as int);
    if chosen.len() <= 1 {
        assert(chosen[0] == l);
        if chosen.contains(c) {
            assert(c == l);
        }
    } else {
        let r = chosen.drop_last();
        lemma_nearest_zero(w, r, c);
        if chosen.contains(c) {
            let t = chosen.index_of(c);
            if t < r.len() {
                assert(r[t] == c);
            }
        }
        if r.contains(c) {
            let t = r.index_of(c);
            assert(chosen[t] == c);
        }
        assert(chosen[chosen.len() - 1] == l);
    }
}

proof fn lemma_dist_zero(w: int, i: int, j: int)
    requires
        w > 0,
    ensures
        dist_sq(w, i, j) == 0 <==> i == j,
        dist_sq(w, i, j) >= 0,
{
    let x = col(w, i) - col(w, j);
    let y = row(w, i) - row(w, j);
    assert(x * x + y * y >= 0 && (x * x + y * y == 0 <==> x == 0 && y == 0)) by (nonlinear_arith);
    vstd::arithmetic::div_mod::lemma_fundamental_div_mod(i, w);
    vstd::arithmetic::div_mod::lemma_fundamental_div_mod(j, w);
}

/// Chooses the sites at which an island's tabs are carved.
fn choose_tabs(w: usize, h: usize, dist: &Vec<usize>, sites: &Vec<usize>, want: usize) -> (r: Vec<
    usize,
>)
    requires
        0 < w,
        w * h <= usize::MAX,
        dist@.len() == w * h,
        sites@.len() > 0,
        forall|q: int| 0 <= q < sites@.len() ==> (#[trigger] sites@[q]) < w * h,
        want >= 1,
    ensures
        tab_choice(w as int, dist@, sites@, want as int, r@),
        forall|t: int| 0 <= t < r@.len() ==> sites@.contains(#[trigger] r@[t]),
{
    let ghost wi = w as int;
    let mut first: usize = 0;
    for q in 1..sites.len()
        invariant
            first < q <= sites@.len(),
            dist@.len() == w * h,
            forall|q: int| 0 <= q < sites@.len() ==> (#[trigger] sites@[q]) < w * h,
            forall|r: int|
                0 <= r < q ==> dist@[sites@[first as int] as int] < dist@[
                    #[trigger] sites@[r] as int] || (dist@[sites@[first as int] as int]
                    == dist@[sites@[r] as int] && first <= r),
    {
        if dist[sites[q]] < dist[sites[first]] {
            first = q;
        }
    }
    let mut chosen: Vec<usize> = Vec::new();
    chosen.push(sites[first]);
    let mut more: bool = true;
    while more && chosen.len() < want
        invariant
            0 < w,
            w * h <= usize::MAX,
            wi == w,
            dist@.len() == w * h,
            sites@.len() > 0,
            forall|q: int| 0 <= q < sites@.len() ==> (#[trigger] sites@[q]) < w * h,
            1 <= chosen@.len() <= want,
            first_site(dist@, sites@, chosen@[0]),
            forall|t: int| 0 <= t < chosen@.len() ==> sites@.contains(#[trigger] chosen@[t]),
            forall|t: int|
                1 <= t < chosen@.len() ==> next_site(
                    wi,
                    dist@,
                    sites@,
                    chosen@.take(t),
                    #[trigger] chosen@[t],
                ),
            !more ==> forall|q: int| 0 <= q < sites@.len() ==> chosen@.contains(#[trigger] sites@[q]),
        decreases want - chosen@.len() + if more { 1int } else { 0int },
    {
        let ghost c0 = chosen@;
        proof {
            assert forall|t: int| 0 <= t < chosen@.len() implies (#[trigger] chosen@[t]) < w
                * h by {
                assert(sites@.contains(chosen@[t]));
            }
        }
        let mut best: usize = 0;
        let mut key: u128 = nearest_sq(w, h, &chosen, sites[0]);
        for q in 1..sites.len()
            invariant
                0 < w,
                w * h <= usize::MAX,
                wi == w,
                dist@.len() == w * h,
                best < q <= sites@.len(),
                chosen@ == c0,
                chosen@.len() > 0,
                forall|q: int| 0 <= q < sites@.len() ==> (#[trigger] sites@[q]) < w * h,
                forall|t: int| 0 <= t < chosen@.len() ==> (#[trigger] chosen@[t]) < w * h,
                key == nearest(wi, chosen@, sites@[best as int] as int),
                forall|r: int|
                    0 <= r < q ==> #[trigger] ranks_below(
                        wi,
                        dist@,
                        sites@,
                        chosen@,
                        r,
                        best as int,
                    ),
        {
            let k: u128 = nearest_sq(w, h, &chosen, sites[q]);
            let ghost old_best = best;
            if k > key || (k == key && dist[sites[q]] >= dist[sites[best]]) {
                best = q;
                key = k;
            }
            proof {
                assert forall|r: int| 0 <= r < q + 1 implies #[trigger] ranks_below(
                    wi,
                    dist@,
                    sites@,
                    chosen@,
                    r,
                    best as int,
                ) by {
                    if r < q {
                        assert(ranks_below(wi, dist@, sites@, chosen@, r, old_best as int));
                    }
                }
            }
        }
        let c: usize = sites[best];
        proof {
            lemma_nearest_zero(wi, chosen@, c);
        }
        if key == 0 {
            more = false;
            proof {
                assert forall|q: int| 0 <= q < sites@.len() implies chosen@.contains(
                    #[trigger] sites@[q],
                ) by {
                    assert(ranks_below(wi, dist@, sites@, chosen@, q, best as int));
                    lemma_nearest_zero(wi, chosen@, sites@[q]);
                }
            }
        } else {
            chosen.push(c);
            proof {
                assert(sites@[best as int] == c);
                assert(next_site(wi, dist@, sites@, c0, c));
                assert(chosen@.take(c0.len() as int) =~= c0);
                assert forall|t: int| 1 <= t < chosen@.len() implies next_site(
                    wi,
                    dist@,
                    sites@,
                    chosen@.take(t),
                    #[trigger] chosen@[t],
                ) by {
                    if t < c0.len() {
                        assert(chosen@[t] == c0[t]);
                        assert(chosen@.take(t) =~= c0.take(t));
                    }
                }
            }
        }
    }
    chosen
}

/// Whether a stage is sound: what is kept is anchored or part of a loose island, never
/// both, and all that is anchored hangs together with the edge of the grid.
pub open spec fn stage_ok(s: Stage, w: int, comp: Seq<usize>, count: int) -> bool {
    &&& s.keep.len() == comp.len()
    &&& s.anchored.len() == comp.len()
    &&& s.pending.len() == count
    &&& forall|i: int| 0 <= i < comp.len() && #[trigger] s.anchored[i] ==> s.keep[i]
    &&& forall|i: int|
        0 <= i < comp.len() && is_loose(s, comp, i) ==> s.keep[i] && !s.anchored[i]
    &&& forall|i: int|
        0 <= i < comp.len() && #[trigger] s.keep[i] ==> s.anchored[i] || is_loose(s, comp, i)
    &&& forall|i: int|
        0 <= i < comp.len() && #[trigger] s.anchored[i] ==> frame_connected(s.keep, w, i)
}

/// Whether cell `i` belongs to an island that is still loose.
pub open spec fn is_loose(s: Stage, comp: Seq<usize>, i: int) -> bool {
    comp[i] != usize::MAX && s.pending[comp[i] as int]
}

/// A component hangs together wherever all its cells are kept.
proof fn lemma_component_connected(
    keep: Seq<bool>,
    w: int,
    comp: Seq<usize>,
    count: int,
    m: Seq<bool>,
    i: int,
    j: int,
)
    requires
        components_of(keep, w, comp, count),
        m.len() == keep.len(),
        0 <= i < comp.len(),
        0 <= j < comp.len(),
        comp[i] != usize::MAX,
        comp[i] == comp[j],
        forall|x: int| 0 <= x < comp.len() && comp[x] == comp[i] ==> #[trigger] m[x],
    ensures
        connected(m, w, i, j),
{
    let n = keep.len() as int;
    let reach = Set::new(|x: int| connected(m, w, i, x) && connected(keep, w, i, x));
    assert(keep[i]);
    assert(connected(keep, w, i, j));
    lemma_connected_self(keep, w, i);
    lemma_connected_self(m, w, i);
    assert forall|a: int, b: int|
        reach.contains(a) && keep[b] && #[trigger] adjacent(
            w,
            keep.len() as int,
            a,
            b,
        ) implies reach.contains(b) by {
        lemma_connected_extend(keep, w, i, a, b);
        assert(comp[b] == comp[i]);
        assert(m[b]);
        lemma_connected_extend(m, w, i, a, b);
    }
    lemma_connected_closed(keep, w, reach, i, j);
}

/// What hangs together with something tied to the frame is tied to it too.
proof fn lemma_frame_through(m: Seq<bool>, w: int, i: int, j: int)
    requires
        connected(m, w, i, j),
        frame_connected(m, w, j),
    ensures
        frame_connected(m, w, i),
{
    let b = choose|b: int| on_border(w, m.len() as int, b) && #[trigger] connected(m, w, j, b);
    lemma_connected_transitive(m, w, i, j, b);
}

proof fn lemma_frame_monotone(m: Seq<bool>, m2: Seq<bool>, w: int, i: int)
    requires
        frame_connected(m, w, i),
        m.len() == m2.len(),
        forall|a: int| 0 <= a < m.len() && #[trigger] m[a] ==> m2[a],
    ensures
        frame_connected(m2, w, i),
{
    let b = choose|b: int| on_border(w, m.len() as int, b) && #[trigger] connected(m, w, i, b);
    lemma_connected_monotone(m, m2, w, i, b);
}

/// The first stage is sound.
proof fn lemma_first_stage(keep: Seq<bool>, w: int, comp: Seq<usize>, count: int)
    requires
        components_of(keep, w, comp, count),
    ensures
        stage_ok(first_stage(keep, w, comp, count), w, comp, count),
{
    let s = first_stage(keep, w, comp, count);
    assert forall|i: int| 0 <= i < comp.len() && is_loose(s, comp, i) implies s.keep[i]
        && !s.anchored[i] by {
        assert(comp[i] != usize::MAX);
        assert(keep[i]);
    }
    assert forall|i: int| 0 <= i < comp.len() && #[trigger] s.keep[i] implies s.anchored[i]
        || is_loose(s, comp, i) by {
        assert(keep[i]);
        assert(comp[i] < count);
    }
    assert forall|i: int| 0 <= i < comp.len() && #[trigger] s.anchored[i] implies frame_connected(
        s.keep,
        w,
        i,
    ) by {
        assert(keep[i]);
        assert(comp[i] < count);
        let id = comp[i] as int;
        let b = choose|b: int|
            0 <= b < comp.len() && #[trigger] comp[b] == id && on_border(
                w,
                comp.len() as int,
                b,
            );
        assert forall|x: int| 0 <= x < comp.len() && comp[x] == comp[i] implies #[trigger] s.keep[x] by {
            assert(comp[x] != usize::MAX);
            assert(keep[x]);
        }
        assert(comp[b] == comp[i]);
        lemma_component_connected(keep, w, comp, count, s.keep, i, b);
    }
}

/// Whatever a tab covers is tied to the frame afterwards.
proof fn lemma_painted_framed(
    s: Stage,
    t: Stage,
    w: int,
    bw: int,
    comp: Seq<usize>,
    count: int,
    dist: Seq<usize>,
    parent: Seq<usize>,
    tabs: Seq<usize>,
    k: int,
    j: int,
)
    requires
        w > 0,
        comp.len() as int % w == 0,
        comp.len() <= usize::MAX,
        stage_ok(s, w, comp, count),
        gap_searched(s.keep, s.anchored, w, dist, parent),
        t.keep.len() == s.keep.len(),
        forall|j: int|
            0 <= j < s.keep.len() ==> (#[trigger] t.keep[j] <==> s.keep[j] || tabs_paint(
                parent,
                w,
                bw,
                tabs,
                tabs.len() as int,
                j,
            )),
        0 <= k < tabs.len(),
        tabs[k] < comp.len(),
        dist[tabs[k] as int] != usize::MAX,
        0 <= j < comp.len(),
        site_paints(parent, w, bw, tabs[k], j),
    ensures
        frame_connected(t.keep, w, j),
{
    let site = tabs[k];
    let spine = choose|spine: Seq<usize>| #[trigger]
        is_spine(parent, site, spine) && painted(w, bw, spine, j);
    let way = lemma_gap_spine(s.keep, s.anchored, w, dist, parent, site);
    crate::tab::lemma_spine_unique(parent, site, spine, way);
    assert forall|b: int| 0 <= b < spine.len() implies (#[trigger] spine[b]) < t.keep.len() by {
        reveal(is_spine);
        assert(parent.len() == s.keep.len()) by {
            reveal(gap_searched);
        }
    }
    assert(spine.len() > 0) by {
        reveal(is_spine);
    }
    assert forall|x: int| 0 <= x < t.keep.len() && painted(
        w,
        bw,
        spine,
        x,
    ) implies #[trigger] t.keep[x] by {
        assert(site_paints(parent, w, bw, tabs[k], x));
    }
    lemma_painted_connected(t.keep, w, bw, spine, j);
    let last = spine.last() as int;
    lemma_frame_monotone(s.keep, t.keep, w, last);
    lemma_frame_through(t.keep, w, j, last);
}

/// A round keeps a stage sound.
proof fn lemma_round_ok(
    keep: Seq<bool>,
    s: Stage,
    t: Stage,
    w: int,
    bw: int,
    comp: Seq<usize>,
    count: int,
    dist: Seq<usize>,
    parent: Seq<usize>,
    id: int,
    span: int,
    tabs: Seq<usize>,
)
    requires
        w > 0,
        comp.len() as int % w == 0,
        comp.len() <= usize::MAX,
        components_of(keep, w, comp, count),
        stage_ok(s, w, comp, count),
        round_with(s, t, w, bw, comp, dist, parent, id, span, tabs),
    ensures
        stage_ok(t, w, comp, count),
{
    let n = comp.len() as int;
    let cells = cells_of(comp, id, n);
    let sites = sites_of(s.keep, dist, w, comp, id);
    lemma_cells_of(comp, id, n);
    lemma_site_list(s.keep, dist, w, cells, cells.len() as int);
    assert forall|k: int| 0 <= k < tabs.len() implies site_beside_some(
        s.keep,
        dist,
        w,
        cells,
        #[trigger] tabs[k],
    ) by {
        if k == 0 {
            let q = choose|q: int| 0 <= q < sites.len() && #[trigger] sites[q] == tabs[0];
            assert(site_beside_some(s.keep, dist, w, cells, sites[q]));
        } else {
            assert(next_site(w, dist, sites, tabs.take(k), tabs[k]));
            let q = choose|q: int| 0 <= q < sites.len() && #[trigger] sites[q] == tabs[k];
            assert(site_beside_some(s.keep, dist, w, cells, sites[q]));
        }
    }
    let site = tabs[0];
    assert(frame_connected(t.keep, w, site as int) && t.keep[site as int]) by {
        let way = lemma_gap_spine(s.keep, s.anchored, w, dist, parent, site);
        lemma_brush_centre(w, bw, site as int);
        assert(painted(w, bw, way, site as int)) by {
            reveal(is_spine);
            assert(way[0] == site);
            assert(crate::tab::in_brush(w, bw, way[0] as int, site as int));
        }
        assert(site_paints(parent, w, bw, tabs[0], site as int));
        lemma_painted_framed(s, t, w, bw, comp, count, dist, parent, tabs, 0, site as int);
    }
    let a = choose|a: int|
        0 <= a < cells.len() && #[trigger] adjacent(w, n, cells[a] as int, site as int);
    let near = cells[a] as int;
    assert forall|x: int| 0 <= x < n && comp[x] == comp[near] implies #[trigger] t.keep[x] by {
        assert(comp[near] == id);
        assert(is_loose(s, comp, x));
    }
    assert forall|i: int| 0 <= i < n && #[trigger] t.anchored[i] implies t.keep[i]
        && frame_connected(t.keep, w, i) by {
        if s.anchored[i] {
            assert(s.keep[i]);
            lemma_frame_monotone(s.keep, t.keep, w, i);
        } else if t.keep[i] && !s.keep[i] {
            let k = choose|k: int|
                0 <= k < tabs.len() && site_paints(parent, w, bw, #[trigger] tabs[k], i);
            assert(site_beside_some(s.keep, dist, w, cells, tabs[k]));
            lemma_painted_framed(s, t, w, bw, comp, count, dist, parent, tabs, k, i);
        } else {
            assert(comp[i] == id && comp[near] == id);
            assert(t.keep[i]);
            assert(keep[i]);
            lemma_component_connected(keep, w, comp, count, t.keep, i, near);
            lemma_connected_extend(t.keep, w, i, near, site as int);
            lemma_frame_through(t.keep, w, i, site as int);
        }
    }
    assert forall|i: int| 0 <= i < n && is_loose(t, comp, i) implies t.keep[i]
        && !t.anchored[i] by {
        assert(comp[i] != id);
        if comp[i] < count {
            assert(t.pending[comp[i] as int] == s.pending[comp[i] as int]);
        } else {
            assert(keep[i]);
        }
        assert(is_loose(s, comp, i));
    }
    assert forall|i: int| 0 <= i < n && #[trigger] t.keep[i] implies t.anchored[i] || is_loose(
        t,
        comp,
        i,
    ) by {
        if s.keep[i] && !s.anchored[i] && comp[i] != id {
            assert(is_loose(s, comp, i));
            assert(keep[i]);
        }
    }
}

/// Settling one loose island leaves one fewer.
proof fn lemma_loose_update(pending: Seq<bool>, id: int, k: int)
    requires
        0 <= k <= pending.len(),
        0 <= id < pending.len(),
        pending[id],
    ensures
        loose_warnings(pending.update(id, false), k).len() == loose_warnings(pending, k).len() - if id
            < k {
            1int
        } else {
            0int
        },
    decreases k,
{
    if k > 0 {
        lemma_loose_update(pending, id, k - 1);
    }
}

proof fn lemma_none_loose(pending: Seq<bool>, k: int)
    requires
        0 <= k <= pending.len(),
        loose_warnings(pending, k).len() == 0,
    ensures
        forall|id: int| 0 <= id < k ==> !(#[trigger] pending[id]),
    decreases k,
{
    if k > 0 {
        lemma_none_loose(pending, k - 1);
    }
}

/// Cuts away the islands of one cell and tells of them; the other islands are loose.
fn drop_specks(
    keep: &mut Vec<bool>,
    w: usize,
    comp: &Vec<usize>,
    border: &Vec<bool>,
    cells: &Vec<Vec<usize>>,
    warn: &mut Vec<Warning>,
) -> (pending: Vec<bool>)
    requires
        old(keep)@.len() == 0 || w > 0,
        components_of(old(keep)@, w as int, comp@, border@.len() as int),
        forall|id: int|
            0 <= id < border@.len() ==> #[trigger] border@[id] == reaches_border(
                comp@,
                w as int,
                id,
            ),
        cells@.len() == border@.len(),
        forall|id: int|
            0 <= id < cells@.len() ==> (#[trigger] cells@[id])@ == cells_of(
                comp@,
                id,
                comp@.len() as int,
            ),
    ensures
        final(keep)@ == first_stage(
            old(keep)@,
            w as int,
            comp@,
            border@.len() as int,
        ).keep,
        pending@ == first_stage(old(keep)@, w as int, comp@, border@.len() as int).pending,
        final(warn)@ == old(warn)@ + speck_warnings(comp@, w as int, border@.len() as int),
{
    let total: usize = comp.len();
    let ghost k0 = keep@;
    let ghost wi = w as int;
    let ghost w0 = warn@;
    let mut pending: Vec<bool> = Vec::new();
    for id in 0..border.len()
        invariant
            total == comp@.len(),
            k0.len() == 0 || w > 0,
            wi == w,
            components_of(k0, wi, comp@, border@.len() as int),
            forall|id: int|
                0 <= id < border@.len() ==> #[trigger] border@[id] == reaches_border(
                    comp@,
                    wi,
                    id,
                ),
            cells@.len() == border@.len(),
            forall|id: int|
                0 <= id < cells@.len() ==> (#[trigger] cells@[id])@ == cells_of(
                    comp@,
                    id,
                    comp@.len() as int,
                ),
            keep@.len() == k0.len(),
            forall|i: int|
                0 <= i < k0.len() ==> (#[trigger] keep@[i] <==> k0[i] && !(comp@[i] < id
                    && is_speck(comp@, wi, comp@[i] as int))),
            pending@.len() == id,
            forall|d: int|
                0 <= d < id ==> (#[trigger] pending@[d] <==> !reaches_border(comp@, wi, d)
                    && !lone(comp@, d)),
            warn@ == w0 + speck_warnings(comp@, wi, id as int),
    {
        let ghost before = keep@;
        let here: &Vec<usize> = &cells[id];
        proof {
            assert(here@ == cells_of(comp@, id as int, comp@.len() as int));
            lemma_cells_of(comp@, id as int, comp@.len() as int);
        }
        let alone: bool = here.len() == 1;
        if !border[id] && alone {
            let c: usize = here[0];
            keep.set(c, false);
            warn.push(Warning::SpeckDropped { x: c % w, y: c / w });
            proof {
                assert forall|i: int| 0 <= i < k0.len() implies (#[trigger] keep@[i] <==> k0[i]
                    && !(comp@[i] < id + 1 && is_speck(comp@, wi, comp@[i] as int))) by {
                    assert(before[i] <==> k0[i] && !(comp@[i] < id && is_speck(
                        comp@,
                        wi,
                        comp@[i] as int,
                    )));
                    if comp@[i] == id {
                        assert(here@.contains(i as usize));
                        assert(here@[here@.index_of(i as usize)] == i);
                        assert(i == c);
                    }
                }
                assert(warn@ =~= w0 + speck_warnings(comp@, wi, id + 1));
            }
        } else {
            proof {
                assert forall|i: int| 0 <= i < k0.len() implies (#[trigger] keep@[i] <==> k0[i]
                    && !(comp@[i] < id + 1 && is_speck(comp@, wi, comp@[i] as int))) by {
                    assert(before[i] <==> k0[i] && !(comp@[i] < id && is_speck(
                        comp@,
                        wi,
                        comp@[i] as int,
                    )));
                }
            }
        }
        pending.push(!border[id] && !alone);
    }
    proof {
        let s = first_stage(k0, wi, comp@, border@.len() as int);
        assert forall|i: int| 0 <= i < k0.len() implies keep@[i] == s.keep[i] by {
            if k0[i] {
                assert(comp@[i] < border@.len());
            }
        }
        assert(keep@ =~= s.keep);
        assert(pending@ =~= s.pending);
    }
    pending
}

/// Picks the loose island to bridge next, with its tab sites; see `next_island`.
fn pick_island(
    keep: &Vec<bool>,
    pending: &Vec<bool>,
    w: usize,
    comp: &Vec<usize>,
    cells: &Vec<Vec<usize>>,
    dist: &Vec<usize>,
    Ghost(s): Ghost<Stage>,
) -> (r: Option<(usize, Vec<usize>)>)
    requires
        keep@.len() == 0 || w > 0,
        w > 0 ==> keep@.len() as int % w as int == 0,
        dist@.len() == keep@.len(),
        comp@.len() == keep@.len(),
        cells@.len() == pending@.len(),
        forall|id: int|
            0 <= id < cells@.len() ==> (#[trigger] cells@[id])@ == cells_of(
                comp@,
                id,
                comp@.len() as int,
            ),
        forall|id: int| 0 <= id < cells@.len() ==> #[trigger] occurs(comp@, id),
        s.keep == keep@,
        s.pending == pending@,
    ensures
        match r {
            Some((id, sites)) => {
                &&& next_island(s, w as int, comp@, dist@, id as int)
                &&& sites@ == sites_of(keep@, dist@, w as int, comp@, id as int)
            },
            None => forall|id: int|
                0 <= id < pending@.len() && #[trigger] pending@[id] ==> sites_of(
                    keep@,
                    dist@,
                    w as int,
                    comp@,
                    id,
                ).len() == 0,
        },
{
    let ghost wi = w as int;
    let total: usize = keep.len();
    let ghost n = comp@.len() as int;
    let mut best: Option<(usize, Vec<usize>)> = None;
    let mut least: usize = 0;
    for id in 0..pending.len()
        invariant
            total == keep@.len(),
            keep@.len() == 0 || w > 0,
            w > 0 ==> keep@.len() as int % w as int == 0,
            wi == w,
            n == comp@.len(),
            dist@.len() == keep@.len(),
            comp@.len() == keep@.len(),
            cells@.len() == pending@.len(),
            forall|id: int|
                0 <= id < cells@.len() ==> (#[trigger] cells@[id])@ == cells_of(comp@, id, n),
            forall|id: int| 0 <= id < cells@.len() ==> #[trigger] occurs(comp@, id),
            s.keep == keep@,
            s.pending == pending@,
            match best {
                Some((b, sites)) => {
                    &&& b < id
                    &&& pending@[b as int]
                    &&& sites@.len() > 0
                    &&& sites@ == sites_of(keep@, dist@, wi, comp@, b as int)
                    &&& least == gap_len(dist@, sites@)
                    &&& forall|o: int|
                        0 <= o < id && pending@[o] && sites_of(
                            keep@,
                            dist@,
                            wi,
                            comp@,
                            o,
                        ).len() > 0 ==> {
                            let h = gap_len(
                                dist@,
                                #[trigger] sites_of(keep@, dist@, wi, comp@, o),
                            );
                            least < h || (least == h && b <= o)
                        }
                },
                None => forall|o: int|
                    0 <= o < id && #[trigger] pending@[o] ==> sites_of(
                        keep@,
                        dist@,
                        wi,
                        comp@,
                        o,
                    ).len() == 0,
            },
    {
        if pending[id] {
            proof {
                assert(occurs(comp@, id as int));
                assert(cells@[id as int]@ == cells_of(comp@, id as int, n));
                lemma_cells_of(comp@, id as int, n);
            }
            let sites: Vec<usize> = tab_sites(keep, dist, w, &cells[id]);
            if sites.len() > 0 {
                proof {
                    lemma_site_list(
                        keep@,
                        dist@,
                        wi,
                        cells@[id as int]@,
                        cells@[id as int]@.len() as int,
                    );
                    assert forall|q: int| 0 <= q < sites@.len() implies (#[trigger] sites@[q])
                        < dist@.len() by {
                        assert(site_beside_some(
                            keep@,
                            dist@,
                            wi,
                            cells@[id as int]@,
                            sites@[q],
                        ));
                    }
                }
                let g: usize = shortest_gap(dist, &sites);
                let better: bool = match &best {
                    Some(_) => g < least,
                    None => true,
                };
                if better {
                    best = Some((id, sites));
                    least = g;
                }
            }
        }
    }
    best
}

/// Carves the chosen tabs, one after the other.
fn carve_tabs(
    keep: &mut Vec<bool>,
    parent: &Vec<usize>,
    w: usize,
    tabs: &Vec<usize>,
    bw: usize,
    Ghost(s): Ghost<Stage>,
    Ghost(dist): Ghost<Seq<usize>>,
)
    requires
        w > 0,
        old(keep)@.len() as int % w as int == 0,
        parent@.len() == old(keep)@.len(),
        s.keep == old(keep)@,
        s.anchored.len() == s.keep.len(),
        forall|j: int| 0 <= j < s.keep.len() && #[trigger] s.anchored[j] ==> s.keep[j],
        gap_searched(s.keep, s.anchored, w as int, dist, parent@),
        forall|k: int|
            0 <= k < tabs@.len() ==> (#[trigger] tabs@[k]) < s.keep.len() && dist[tabs@[k] as int]
                != usize::MAX,
    ensures
        final(keep)@.len() == s.keep.len(),
        forall|j: int|
            0 <= j < s.keep.len() ==> (#[trigger] final(keep)@[j] <==> s.keep[j] || tabs_paint(
                parent@,
                w as int,
                bw as int,
                tabs@,
                tabs@.len() as int,
                j,
            )),
{
    let ghost wi = w as int;
    let ghost b = bw as int;
    let total: usize = keep.len();
    for k in 0..tabs.len()
        invariant
            w > 0,
            wi == w,
            b == bw,
            keep@.len() == s.keep.len(),
            total == s.keep.len(),
            keep@.len() as int % w as int == 0,
            parent@.len() == keep@.len(),
            s.anchored.len() == s.keep.len(),
            forall|j: int| 0 <= j < s.keep.len() && #[trigger] s.anchored[j] ==> s.keep[j],
            gap_searched(s.keep, s.anchored, wi, dist, parent@),
            forall|k: int|
                0 <= k < tabs@.len() ==> (#[trigger] tabs@[k]) < s.keep.len()
                    && dist[tabs@[k] as int] != usize::MAX,
            forall|j: int|
                0 <= j < s.keep.len() ==> (#[trigger] keep@[j] <==> s.keep[j] || tabs_paint(
                    parent@,
                    wi,
                    b,
                    tabs@,
                    k as int,
                    j,
                )),
    {
        let ghost before = keep@;
        let site: usize = tabs[k];
        let ghost way = lemma_gap_spine(s.keep, s.anchored, wi, dist, parent@, site);
        carve_tab(keep, parent.as_slice(), w, site, bw);
        proof {
            assert(carved(before, keep@, wi, b, way));
            assert forall|j: int| 0 <= j < s.keep.len() implies (#[trigger] keep@[j] <==> s.keep[j]
                || tabs_paint(parent@, wi, b, tabs@, k + 1, j)) by {
                assert(before[j] <==> s.keep[j] || tabs_paint(parent@, wi, b, tabs@, k as int, j));
                if painted(wi, b, way, j) {
                    assert(site_paints(parent@, wi, b, tabs@[k as int], j));
                }
                if tabs_paint(parent@, wi, b, tabs@, k + 1, j) && !tabs_paint(
                    parent@,
                    wi,
                    b,
                    tabs@,
                    k as int,
                    j,
                ) {
                    let t = choose|t: int|
                        0 <= t < k + 1 && site_paints(parent@, wi, b, #[trigger] tabs@[t], j);
                    assert(t == k);
                    let spine = choose|spine: Seq<usize>| #[trigger]
                        is_spine(parent@, site, spine) && painted(wi, b, spine, j);
                    crate::tab::lemma_spine_unique(parent@, site, spine, way);
                }
            }
        }
    }
}

/// Ties every island of kept cells to the frame with tabs `bw` wide. Islands of one cell
/// are cut away; an island that no gap ties to the frame stays loose. Both are told of.
pub fn bridge_islands(
    keep: &mut Vec<bool>,
    w: usize,
    h: usize,
    bw: usize,
    warn: &mut Vec<Warning>,
)
    requires
        old(keep)@.len() == w * h,
    ensures
        final(keep)@.len() == old(keep)@.len(),
        exists|told: Seq<Warning>| #[trigger]
            bridged(
                old(keep)@,
                final(keep)@,
                w as int,
                tab_width(bw as int),
                told,
            ) && final(warn)@ == old(warn)@ + told,
{
    let n: usize = keep.len();
    let ghost k0 = keep@;
    let ghost w0 = warn@;
    let ghost wi = w as int;
    proof {
        lemma_whole_rows(w as int, h as int, n as int);
    }
    let (comp, border) = components(keep.as_slice(), w, h);
    let count: usize = border.len();
    let cells: Vec<Vec<usize>> = group_cells(&comp, count);
    let mut pending: Vec<bool> = drop_specks(keep, w, &comp, &border, &cells, warn);
    let width: usize = if bw >= 1 { bw } else { 1 };
    let ghost bi = width as int;
    let ghost start = first_stage(k0, wi, comp@, count as int);
    let mut anchored: Vec<bool> = Vec::new();
    for i in 0..n
        invariant
            n == k0.len(),
            wi == w,
            count == border@.len(),
            components_of(k0, wi, comp@, count as int),
            forall|id: int|
                0 <= id < count ==> #[trigger] border@[id] == reaches_border(comp@, wi, id),
            start == first_stage(k0, wi, comp@, count as int),
            keep@ == start.keep,
            anchored@.len() == i,
            forall|j: int| 0 <= j < i ==> anchored@[j] == start.anchored[j],
    {
        let on: bool = keep[i] && border[comp[i]];
        anchored.push(on);
    }
    let ghost mut stages: Seq<Stage> = seq![start];
    let ghost mut s = start;
    proof {
        assert(anchored@ =~= start.anchored);
        lemma_first_stage(k0, wi, comp@, count as int);
    }
    let mut left: usize = 0;
    for id in 0..count
        invariant
            count == pending@.len(),
            left <= id,
            left == loose_warnings(pending@, id as int).len(),
    {
        if pending[id] {
            left = left + 1;
        }
    }
    let mut stuck: bool = false;
    while left > 0 && !stuck
        invariant
            n == k0.len(),
            n == w * h,
            n > 0 ==> w > 0 && n as int % wi == 0,
            wi == w,
            bi == width,
            count == border@.len(),
            cells@.len() == count,
            pending@.len() == count,
            keep@.len() == n,
            components_of(k0, wi, comp@, count as int),
            forall|id: int|
                0 <= id < cells@.len() ==> (#[trigger] cells@[id])@ == cells_of(
                    comp@,
                    id,
                    comp@.len() as int,
                ),
            s.keep == keep@,
            s.anchored == anchored@,
            s.pending == pending@,
            stage_ok(s, wi, comp@, count as int),
            left == loose_warnings(pending@, count as int).len(),
            stages.len() > 0,
            stages[0] == first_stage(k0, wi, comp@, count as int),
            stages.last() == s,
            forall|k: int|
                0 <= k < stages.len() - 1 ==> bridge_round(
                    #[trigger] stages[k],
                    stages[k + 1],
                    wi,
                    bi,
                    comp@,
                ),
            stuck ==> bridge_end(s, wi, comp@),
        decreases left + if stuck { 0int } else { 1int },
    {
        let (dist, parent) = gap_bfs(keep.as_slice(), anchored.as_slice(), w, h);
        match pick_island(keep, &pending, w, &comp, &cells, &dist, Ghost(s)) {
            None => {
                proof {
                    assert(gap_searched(s.keep, s.anchored, wi, dist@, parent@));
                }
                stuck = true;
            },
            Some((id, sites)) => {
                let ghost s0 = s;
                let ghost stages0 = stages;
                let mine: &Vec<usize> = &cells[id];
                proof {
                    assert(occurs(comp@, id as int));
                    assert(mine@ == cells_of(comp@, id as int, comp@.len() as int));
                    lemma_cells_of(comp@, id as int, comp@.len() as int);
                    assert(mine@.len() > 0) by {
                        let i = choose|i: int|
                            0 <= i < comp@.len() && #[trigger] comp@[i] == id as int;
                        assert(mine@.contains(i as usize));
                    }
                    lemma_site_list(keep@, dist@, wi, mine@, mine@.len() as int);
                    assert forall|q: int| 0 <= q < sites@.len() implies (#[trigger] sites@[q]) < w
                        * h && dist@[sites@[q] as int] != usize::MAX by {
                        assert(site_beside_some(keep@, dist@, wi, mine@, sites@[q]));
                    }
                }
                let span: usize = island_span(mine, w);
                let by_span: usize = span / 40;
                let want: usize = if by_span >= 1 { by_span } else { 1 };
                let tabs: Vec<usize> = choose_tabs(w, h, &dist, &sites, want);
                proof {
                    assert forall|k: int| 0 <= k < tabs@.len() implies (#[trigger] tabs@[k])
                        < s.keep.len() && dist@[tabs@[k] as int] != usize::MAX by {
                        assert(sites@.contains(tabs@[k]));
                    }
                }
                let before: Vec<bool> = copy_mask(keep);
                carve_tabs(keep, &parent, w, &tabs, width, Ghost(s), Ghost(dist@));
                let mut next: Vec<bool> = Vec::new();
                for i in 0..n
                    invariant
                        n == keep@.len(),
                        n == before@.len(),
                        n == anchored@.len(),
                        n == comp@.len(),
                        next@.len() == i,
                        forall|j: int|
                            0 <= j < i ==> (#[trigger] next@[j] <==> anchored@[j] || (keep@[j]
                                && !before@[j]) || comp@[j] == id),
                {
                    next.push(anchored[i] || (keep[i] && !before[i]) || comp[i] == id);
                }
                anchored = next;
                pending.set(id, false);
                left = left - 1;
                proof {
                    let t = Stage { keep: keep@, anchored: anchored@, pending: pending@ };
                    lemma_loose_update(s0.pending, id as int, count as int);
                    assert(round_with(
                        s0,
                        t,
                        wi,
                        bi,
                        comp@,
                        dist@,
                        parent@,
                        id as int,
                        span as int,
                        tabs@,
                    ));
                    lemma_round_ok(
                        k0,
                        s0,
                        t,
                        wi,
                        bi,
                        comp@,
                        count as int,
                        dist@,
                        parent@,
                        id as int,
                        span as int,
                        tabs@,
                    );
                    s = t;
                    stages = stages0.push(t);
                    assert forall|k: int| 0 <= k < stages.len() - 1 implies bridge_round(
                        #[trigger] stages[k],
                        stages[k + 1],
                        wi,
                        bi,
                        comp@,
                    ) by {
                        if k < stages0.len() - 1 {
                            assert(stages[k] == stages0[k] && stages[k + 1] == stages0[k + 1]);
                        }
                    }
                }
            },
        }
    }
    proof {
        if !stuck {
            lemma_none_loose(pending@, count as int);
        }
        assert(bridge_course(k0, wi, bi, comp@, count as int, stages));
    }
    let ghost w1 = warn@;
    for id in 0..count
        invariant
            count == pending@.len(),
            warn@ == w1 + loose_warnings(pending@, id as int),
    {
        if pending[id] {
            warn.push(Warning::Unreachable { island: id });
        }
        proof {
            assert(warn@ =~= w1 + loose_warnings(pending@, id + 1));
        }
    }
    proof {
        let told = speck_warnings(comp@, wi, count as int) + loose_warnings(
            pending@,
            count as int,
        );
        assert(warn@ =~= w0 + told);
        assert(bridged(k0, keep@, wi, tab_width(bw as int), told));
    }
}

/// A copy of a mask.
fn copy_mask(a: &Vec<bool>) -> (r: Vec<bool>)
    ensures
        r@ == a@,
{
    let mut r: Vec<bool> = Vec::new();
    for i in 0..a.len()
        invariant
            r@ == a@.take(i as int),
    {
        r.push(a[i]);
        proof {
            assert(a@.take(i + 1) =~= a@.take(i as int).push(a@[i as int]));
        }
    }
    proof {
        assert(a@.take(a@.len() as int) =~= a@);
    }
    r
}

/// Every stage of a course is sound and keeps what the first one kept.
pub proof fn lemma_course_stage(
    keep: Seq<bool>,
    w: int,
    bw: int,
    comp: Seq<usize>,
    count: int,
    stages: Seq<Stage>,
    k: int,
)
    requires
        w > 0,
        keep.len() as int % w == 0,
        keep.len() <= usize::MAX,
        bridge_course(keep, w, bw, comp, count, stages),
        0 <= k < stages.len(),
    ensures
        stage_ok(stages[k], w, comp, count),
        forall|i: int|
            0 <= i < keep.len() && #[trigger] stages[0].keep[i] ==> stages[k].keep[i],
    decreases k,
{
    if k == 0 {
        lemma_first_stage(keep, w, comp, count);
    } else {
        lemma_course_stage(keep, w, bw, comp, count, stages, k - 1);
        let s = stages[k - 1];
        let t = stages[k];
        assert(bridge_round(stages[k - 1], stages[k - 1 + 1], w, bw, comp));
        let (dist, parent, id, span, tabs) = choose|
            dist: Seq<usize>,
            parent: Seq<usize>,
            id: int,
            span: int,
            tabs: Seq<usize>,
        | #[trigger] round_with(s, t, w, bw, comp, dist, parent, id, span, tabs);
        lemma_round_ok(keep, s, t, w, bw, comp, count, dist, parent, id, span, tabs);
        assert forall|i: int| 0 <= i < keep.len() && #[trigger] stages[0].keep[i] implies t.keep[i] by {
            assert(s.keep[i]);
        }
    }
}

pub proof fn lemma_loose_told(pending: Seq<bool>, k: int, id: int)
    requires
        0 <= id < k <= pending.len(),
        pending[id],
    ensures
        loose_warnings(pending, k).contains(Warning::Unreachable { island: id as usize }),
    decreases k,
{
    let s = loose_warnings(pending, k);
    if id == k - 1 {
        assert(s[s.len() - 1] == Warning::Unreachable { island: id as usize });
    } else {
        lemma_loose_told(pending, k - 1, id);
        let r = loose_warnings(pending, k - 1);
        let a = r.index_of(Warning::Unreachable { island: id as usize });
        assert(s[a] == r[a]);
    }
}

/// Whether `told` names the component of cell `i` as one that no gap ties to the frame.
pub open spec fn told_loose(a: Seq<bool>, w: int, told: Seq<Warning>, i: int) -> bool {
    exists|comp: Seq<usize>, count: int| #[trigger]
        components_of(a, w, comp, count) && comp[i] != usize::MAX && told.contains(
            Warning::Unreachable { island: comp[i] },
        )
}

/// After bridging, every kept cell hangs together with the frame through kept cells, but
/// for the cells of islands that a warning names.
pub proof fn lemma_bridging_ties(
    a: Seq<bool>,
    b: Seq<bool>,
    w: int,
    bw: int,
    told: Seq<Warning>,
    i: int,
)
    requires
        w > 0,
        a.len() as int % w == 0,
        a.len() <= usize::MAX,
        bridged(a, b, w, bw, told),
        0 <= i < b.len(),
        b[i],
    ensures
        frame_connected(b, w, i) || told_loose(a, w, told, i),
{
    let (comp, count, stages) = choose|comp: Seq<usize>, count: int, stages: Seq<Stage>| #[trigger]
        bridge_course(a, w, bw, comp, count, stages) && b == stages.last().keep && told
            == speck_warnings(comp, w, count) + loose_warnings(stages.last().pending, count);
    let e = stages.last();
    lemma_course_stage(a, w, bw, comp, count, stages, stages.len() - 1);
    assert(e.keep[i]);
    if !e.anchored[i] {
        assert(is_loose(e, comp, i));
        let id = comp[i] as int;
        assert(a[i]) by {
            if !a[i] {
                assert(comp[i] == usize::MAX);
            }
        }
        assert(comp[i] < count);
        lemma_loose_told(e.pending, count, id);
        let l = loose_warnings(e.pending, count);
        let x = l.index_of(Warning::Unreachable { island: comp[i] });
        assert(told[speck_warnings(comp, w, count).len() + x] == l[x]);
        assert(told.contains(Warning::Unreachable { island: comp[i] }));
        assert(told_loose(a, w, told, i));
    }
}

/// Bridging cuts away single cells only: a kept cell that is lost stood off the edge of
/// the grid and had no kept neighbour.
pub proof fn lemma_bridging_keeps(
    a: Seq<bool>,
    b: Seq<bool>,
    w: int,
    bw: int,
    told: Seq<Warning>,
    i: int,
)
    requires
        w > 0,
        a.len() as int % w == 0,
        a.len() <= usize::MAX,
        bridged(a, b, w, bw, told),
        0 <= i < a.len(),
        a[i],
        !b[i],
    ensures
        !on_border(w, a.len() as int, i),
        forall|j: int| #[trigger] adjacent(w, a.len() as int, i, j) ==> !a[j],
{
    let (comp, count, stages) = choose|comp: Seq<usize>, count: int, stages: Seq<Stage>| #[trigger]
        bridge_course(a, w, bw, comp, count, stages) && b == stages.last().keep && told
            == speck_warnings(comp, w, count) + loose_warnings(stages.last().pending, count);
    lemma_course_stage(a, w, bw, comp, count, stages, stages.len() - 1);
    let id = comp[i] as int;
    if !is_speck(comp, w, id) {
        assert(stages[0].keep[i]);
    }
    assert(is_speck(comp, w, id));
    assert(comp[i] == id);
    let cells = cells_of(comp, id, comp.len() as int);
    lemma_cells_of(comp, id, comp.len() as int);
    assert forall|j: int| #[trigger] adjacent(w, a.len() as int, i, j) implies !a[j] by {
        if a[j] {
            lemma_connected_self(a, w, i);
            lemma_connected_extend(a, w, i, i, j);
            assert(comp[j] == id);
            assert(cells.contains(i as usize) && cells.contains(j as usize));
            assert(cells[cells.index_of(i as usize)] == cells[cells.index_of(j as usize)]);
            assert(i == j);
            assert(i % w == j % w && w > 0);
        }
    }
}

/// A mask that hangs together with the frame is left as it is, and nothing is told.
pub proof fn lemma_bridging_idle(
    a: Seq<bool>,
    b: Seq<bool>,
    w: int,
    bw: int,
    told: Seq<Warning>,
)
    requires
        a.len() <= usize::MAX,
        bridged(a, b, w, bw, told),
        forall|i: int| 0 <= i < a.len() && #[trigger] a[i] ==> frame_connected(a, w, i),
    ensures
        b == a,
        told == Seq::<Warning>::empty(),
{
    let (comp, count, stages) = choose|comp: Seq<usize>, count: int, stages: Seq<Stage>| #[trigger]
        bridge_course(a, w, bw, comp, count, stages) && b == stages.last().keep && told
            == speck_warnings(comp, w, count) + loose_warnings(stages.last().pending, count);
    let s = stages[0];
    assert forall|id: int| 0 <= id < count implies reaches_border(comp, w, id) by {
        assert(occurs(comp, id));
        let i = choose|i: int| 0 <= i < comp.len() && #[trigger] comp[i] == id;
        assert(a[i]);
        let e = choose|e: int|
            on_border(w, a.len() as int, e) && #[trigger] connected(a, w, i, e);
        lemma_connected_ends(a, w, i, e);
        assert(comp[e] == comp[i]);
    }
    assert forall|i: int| 0 <= i < a.len() implies s.keep[i] == a[i] by {
        if a[i] {
            assert(comp[i] < count);
        }
    }
    assert(s.keep =~= a);
    if stages.len() > 1 {
        let zero: int = 0;
        assert(bridge_round(stages[zero], stages[zero + 1], w, bw, comp));
        let (dist, parent, id, span, tabs) = choose|
            dist: Seq<usize>,
            parent: Seq<usize>,
            id: int,
            span: int,
            tabs: Seq<usize>,
        | #[trigger] round_with(s, stages[1], w, bw, comp, dist, parent, id, span, tabs);
        assert(s.pending[id]);
        assert(false);
    }
    lemma_no_warnings(comp, w, s.pending, count);
    assert(told =~= Seq::<Warning>::empty());
}

/// Every stage of a course has as many cells as the first.
proof fn lemma_course_len(
    keep: Seq<bool>,
    w: int,
    bw: int,
    comp: Seq<usize>,
    count: int,
    stages: Seq<Stage>,
    k: int,
)
    requires
        bridge_course(keep, w, bw, comp, count, stages),
        0 <= k < stages.len(),
    ensures
        stages[k].keep.len() == keep.len(),
    decreases k,
{
    if k > 0 {
        lemma_course_len(keep, w, bw, comp, count, stages, k - 1);
        assert(bridge_round(stages[k - 1], stages[k - 1 + 1], w, bw, comp));
    }
}

/// Whether no warning names an island that no gap ties to the frame.
pub open spec fn all_tied(told: Seq<Warning>) -> bool {
    forall|k: int| 0 <= k < told.len() ==> !(#[trigger] told[k] is Unreachable)
}

/// After bridging without such a warning, every kept cell hangs together with the frame.
proof fn lemma_all_tied(a: Seq<bool>, b: Seq<bool>, w: int, h: int, bw: int, told: Seq<Warning>)
    requires
        w >= 0,
        h >= 0,
        a.len() == w * h,
        a.len() <= usize::MAX,
        bridged(a, b, w, bw, told),
        all_tied(told),
    ensures
        b.len() == a.len(),
        forall|i: int| 0 <= i < b.len() && #[trigger] b[i] ==> frame_connected(b, w, i),
{
    lemma_whole_rows(w, h, a.len() as int);
    let (comp, count, stages) = choose|comp: Seq<usize>, count: int, stages: Seq<Stage>| #[trigger]
        bridge_course(a, w, bw, comp, count, stages) && b == stages.last().keep && told
            == speck_warnings(comp, w, count) + loose_warnings(stages.last().pending, count);
    lemma_course_len(a, w, bw, comp, count, stages, stages.len() - 1);
    assert forall|i: int| 0 <= i < b.len() && #[trigger] b[i] implies frame_connected(b, w, i) by {
        lemma_bridging_ties(a, b, w, bw, told, i);
    }
}

/// If no warning names an island out of reach, every component of the bridged mask touches
/// the frame, however the components are numbered.
pub proof fn lemma_bridging_whole(
    a: Seq<bool>,
    b: Seq<bool>,
    w: int,
    h: int,
    bw: int,
    told: Seq<Warning>,
    comp: Seq<usize>,
    count: int,
)
    requires
        w >= 0,
        h >= 0,
        a.len() == w * h,
        a.len() <= usize::MAX,
        bridged(a, b, w, bw, told),
        all_tied(told),
        components_of(b, w, comp, count),
    ensures
        forall|i: int|
            0 <= i < b.len() && b[i] ==> reaches_border(comp, w, #[trigger] comp[i] as int),
{
    lemma_all_tied(a, b, w, h, bw, told);
    assert forall|i: int| 0 <= i < b.len() && b[i] implies reaches_border(
        comp,
        w,
        #[trigger] comp[i] as int,
    ) by {
        assert(frame_connected(b, w, i));
        let e = choose|e: int|
            on_border(w, b.len() as int, e) && #[trigger] connected(b, w, i, e);
        lemma_connected_ends(b, w, i, e);
        assert(comp[e] == comp[i]);
    }
}

/// Bridging twice is bridging once: if the first pass left no island out of reach, a second
/// pass with tabs of any width changes nothing and tells nothing.
pub proof fn lemma_bridging_twice(
    a: Seq<bool>,
    b: Seq<bool>,
    c: Seq<bool>,
    w: int,
    h: int,
    bw: int,
    bw2: int,
    told: Seq<Warning>,
    more: Seq<Warning>,
)
    requires
        w >= 0,
        h >= 0,
        a.len() == w * h,
        a.len() <= usize::MAX,
        bridged(a, b, w, bw, told),
        all_tied(told),
        bridged(b, c, w, bw2, more),
    ensures
        c == b,
        more == Seq::<Warning>::empty(),
{
    lemma_all_tied(a, b, w, h, bw, told);
    lemma_bridging_idle(b, c, w, bw2, more);
}

proof fn lemma_no_warnings(comp: Seq<usize>, w: int, pending: Seq<bool>, k: int)
    requires
        0 <= k <= pending.len(),
        forall|id: int| 0 <= id < k ==> #[trigger] reaches_border(comp, w, id),
        forall|id: int| 0 <= id < k ==> !(#[trigger] pending[id]),
    ensures
        speck_warnings(comp, w, k).len() == 0,
        loose_warnings(pending, k).len() == 0,
    decreases k,
{
    if k > 0 {
        lemma_no_warnings(comp, w, pending, k - 1);
        assert(reaches_border(comp, w, k - 1));
    }
}

} // verus!
