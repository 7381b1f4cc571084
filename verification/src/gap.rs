//! Breadth-first search of the gap: how far each cut cell lies from anchored material.

use crate::grid::{
    adjacent, has_step, lemma_adjacent_step, lemma_step_adjacent, lemma_whole_rows, step, step_to,
};
use crate::tab::{is_spine, unbroken};
use vstd::prelude::*;

verus! {

/// Whether the neighbour of cell `i` in direction `k` exists and is anchored.
pub open spec fn anchor_at(anchored: Seq<bool>, w: int, i: int, k: int) -> bool {
    has_step(w, anchored.len() as int, i, k) && anchored[step_to(w, i, k)]
}

/// The anchored neighbour of cell `i`, where it has one. Of several, the one below comes
/// first, then the one above, the one to the right, the one to the left.
pub open spec fn anchor_of(anchored: Seq<bool>, w: int, i: int) -> Option<int> {
    if anchor_at(anchored, w, i, 3) {
        Some(step_to(w, i, 3))
    } else if anchor_at(anchored, w, i, 2) {
        Some(step_to(w, i, 2))
    } else if anchor_at(anchored, w, i, 1) {
        Some(step_to(w, i, 1))
    } else if anchor_at(anchored, w, i, 0) {
        Some(step_to(w, i, 0))
    } else {
        None
    }
}

/// Whether cell `i` is cut and at most `k` further cut cells lie on some way from it to
/// anchored material.
pub open spec fn gap_within(
    keep: Seq<bool>,
    anchored: Seq<bool>,
    w: int,
    i: int,
    k: nat,
) -> bool
    decreases k,
{
    &&& 0 <= i < keep.len()
    &&& !keep[i]
    &&& {
        ||| anchor_of(anchored, w, i) is Some
        ||| k > 0 && exists|j: int| #[trigger]
            adjacent(w, keep.len() as int, i, j) && gap_within(
                keep,
                anchored,
                w,
                j,
                (k - 1) as nat,
            )
    }
}

/// The order in which a search visits the cells: `cells` in order of visit, `from` the
/// position at which each was found (-1 for a cell beside anchored material), `via` the
/// direction in which it was found.
pub struct Visits {
    pub cells: Seq<usize>,
    pub from: Seq<int>,
    pub via: Seq<int>,
}

/// Whether cell `c` is visited and was found from position `a` or before.
pub open spec fn found_by(v: Visits, c: int, a: int) -> bool {
    exists|b: int| 0 <= b < v.cells.len() && #[trigger] v.cells[b] == c && v.from[b] <= a
}

/// Whether position `b` of the visits follows its rule: a first cell lies beside the
/// anchored cell that it points to, any other points to the cell it was found from.
pub open spec fn visit_ok(
    keep: Seq<bool>,
    anchored: Seq<bool>,
    w: int,
    dist: Seq<usize>,
    parent: Seq<usize>,
    v: Visits,
    b: int,
) -> bool {
    let c = v.cells[b] as int;
    &&& 0 <= c < keep.len()
    &&& !keep[c]
    &&& dist[c] <= b
    &&& if v.from[b] < 0 {
        &&& v.from[b] == -1
        &&& dist[c] == 0
        &&& anchor_of(anchored, w, c) == Some(parent[c] as int)
    } else {
        let p = v.cells[v.from[b]] as int;
        &&& v.from[b] < b
        &&& anchor_of(anchored, w, c) is None
        &&& 0 <= v.via[b] < 4
        &&& has_step(w, keep.len() as int, p, v.via[b])
        &&& step_to(w, p, v.via[b]) == c
        &&& parent[c] == p
        &&& dist[c] == dist[p] + 1
    }
}

/// Whether the visit at `a` comes rightly before the one at `b`: first cells in reading
/// order, then cells in the order of what they were found from, and by direction.
pub open spec fn visit_before(v: Visits, a: int, b: int) -> bool {
    if v.from[b] < 0 {
        v.from[a] < 0 && v.cells[a] < v.cells[b]
    } else {
        ||| v.from[a] < v.from[b]
        ||| v.from[a] == v.from[b] && v.via[a] < v.via[b]
    }
}

/// Whether `v` is in order and agrees with the distances and pointers, though cells may
/// still be missing.
pub open spec fn visits_sound(
    keep: Seq<bool>,
    anchored: Seq<bool>,
    w: int,
    dist: Seq<usize>,
    parent: Seq<usize>,
    v: Visits,
) -> bool {
    &&& dist.len() == keep.len()
    &&& parent.len() == keep.len()
    &&& v.from.len() == v.cells.len()
    &&& v.via.len() == v.cells.len()
    &&& v.cells.no_duplicates()
    &&& forall|b: int|
        0 <= b < v.cells.len() ==> visit_ok(keep, anchored, w, dist, parent, v, b)
    &&& forall|a: int, b: int| 0 <= a < b < v.cells.len() ==> #[trigger] visit_before(v, a, b)
    &&& forall|i: int|
        0 <= i < keep.len() ==> (#[trigger] dist[i] == usize::MAX <==> !v.cells.contains(
            i as usize,
        ))
    &&& forall|i: int|
        0 <= i < keep.len() && dist[i] == usize::MAX ==> #[trigger] parent[i] == usize::MAX
}

/// Whether the cut neighbour of cell `v.cells[a]` in direction `k` was found by then.
pub open spec fn side_done(keep: Seq<bool>, w: int, v: Visits, a: int, k: int) -> bool {
    let c = v.cells[a] as int;
    has_step(w, keep.len() as int, c, k) && !keep[step_to(w, c, k)] ==> found_by(
        v,
        step_to(w, c, k),
        a,
    )
}

/// Whether `v` is the breadth-first search of the cut cells from those beside anchored
/// material, and `dist` and `parent` what it leaves.
pub open spec fn gap_search(
    keep: Seq<bool>,
    anchored: Seq<bool>,
    w: int,
    dist: Seq<usize>,
    parent: Seq<usize>,
    v: Visits,
) -> bool {
    &&& visits_sound(keep, anchored, w, dist, parent, v)
    &&& forall|i: int|
        0 <= i < keep.len() && !keep[i] && (#[trigger] anchor_of(anchored, w, i)) is Some
            ==> found_by(v, i, -1)
    &&& forall|a: int, k: int|
        0 <= a < v.cells.len() && 0 <= k < 4 ==> #[trigger] side_done(keep, w, v, a, k)
}

/// Whether `dist` and `parent` are what the breadth-first search leaves.
#[verifier::opaque]
pub open spec fn gap_searched(
    keep: Seq<bool>,
    anchored: Seq<bool>,
    w: int,
    dist: Seq<usize>,
    parent: Seq<usize>,
) -> bool {
    exists|v: Visits| gap_search(keep, anchored, w, dist, parent, v)
}

/// The anchored neighbour of cell `i`; see `anchor_of`.
fn anchor(anchored: &[bool], w: usize, i: usize) -> (r: Option<usize>)
    requires
        w > 0,
        anchored@.len() as int % w as int == 0,
        i < anchored@.len(),
    ensures
        match r {
            Some(m) => anchor_of(anchored@, w as int, i as int) == Some(m as int),
            None => anchor_of(anchored@, w as int, i as int) is None,
        },
        r matches Some(m) ==> m < anchored@.len() && anchored@[m as int] && adjacent(
            w as int,
            anchored@.len() as int,
            i as int,
            m as int,
        ),
{
    let n: usize = anchored.len();
    let mut seed: Option<usize> = None;
    let ghost wi = w as int;
    let ghost ii = i as int;
    for k in 0..4usize
        invariant
            w > 0,
            wi == w,
            ii == i,
            n == anchored@.len(),
            n as int % w as int == 0,
            i < n,
            match seed {
                Some(m) => {
                    &&& m < n
                    &&& anchored@[m as int]
                    &&& adjacent(wi, n as int, ii, m as int)
                    &&& exists|d: int|
                        0 <= d < k && #[trigger] anchor_at(anchored@, wi, ii, d) && m == step_to(
                            wi,
                            ii,
                            d,
                        ) && forall|e: int|
                            d < e < k ==> !(#[trigger] anchor_at(anchored@, wi, ii, e))
                },
                None => forall|e: int| 0 <= e < k ==> !(#[trigger] anchor_at(anchored@, wi, ii, e)),
            },
    {
        if let Some(m) = step(w, n, i, k) {
            if anchored[m] {
                proof {
                    lemma_step_adjacent(wi, n as int, ii, k as int);
                    assert(anchor_at(anchored@, wi, ii, k as int));
                }
                seed = Some(m);
            }
        }
    }
    proof {
        assert(anchor_at(anchored@, wi, ii, 0) || !anchor_at(anchored@, wi, ii, 0));
        assert(anchor_at(anchored@, wi, ii, 1) || !anchor_at(anchored@, wi, ii, 1));
        assert(anchor_at(anchored@, wi, ii, 2) || !anchor_at(anchored@, wi, ii, 2));
        assert(anchor_at(anchored@, wi, ii, 3) || !anchor_at(anchored@, wi, ii, 3));
    }
    seed
}

/// The visits with one more at the end.
pub open spec fn visit_push(v: Visits, c: usize, f: int, k: int) -> Visits {
    Visits { cells: v.cells.push(c), from: v.from.push(f), via: v.via.push(k) }
}

proof fn lemma_visit_push(
    keep: Seq<bool>,
    anchored: Seq<bool>,
    w: int,
    dist: Seq<usize>,
    parent: Seq<usize>,
    v: Visits,
    c: usize,
    f: int,
    k: int,
    d: usize,
    p: usize,
)
    requires
        visits_sound(keep, anchored, w, dist, parent, v),
        keep.len() <= usize::MAX,
        c < keep.len(),
        dist[c as int] == usize::MAX,
        d != usize::MAX,
        visit_ok(
            keep,
            anchored,
            w,
            dist.update(c as int, d),
            parent.update(c as int, p),
            visit_push(v, c, f, k),
            v.cells.len() as int,
        ),
        forall|a: int|
            0 <= a < v.cells.len() ==> visit_before(
                #[trigger] visit_push(v, c, f, k),
                a,
                v.cells.len() as int,
            ),
    ensures
        visits_sound(
            keep,
            anchored,
            w,
            dist.update(c as int, d),
            parent.update(c as int, p),
            visit_push(v, c, f, k),
        ),
        forall|x: int, a: int| found_by(v, x, a) ==> #[trigger] found_by(visit_push(v, c, f, k), x, a),
{
    let u = visit_push(v, c, f, k);
    let dist2 = dist.update(c as int, d);
    let parent2 = parent.update(c as int, p);
    let n = v.cells.len() as int;
    assert(!v.cells.contains(c));
    assert forall|b: int| 0 <= b < u.cells.len() implies visit_ok(
        keep,
        anchored,
        w,
        dist2,
        parent2,
        u,
        b,
    ) by {
        if b < n {
            assert(visit_ok(keep, anchored, w, dist, parent, v, b));
            assert(v.cells[b] != c);
            assert(u.cells[b] == v.cells[b] && u.from[b] == v.from[b] && u.via[b] == v.via[b]);
            if v.from[b] >= 0 {
                assert(v.cells[v.from[b]] != c);
                assert(visit_ok(keep, anchored, w, dist, parent, v, v.from[b]));
                assert(u.cells[v.from[b]] == v.cells[v.from[b]]);
            }
        } else {
            assert(b == n);
        }
    }
    assert forall|a: int, b: int| 0 <= a < b < u.cells.len() implies #[trigger] visit_before(
        u,
        a,
        b,
    ) by {
        if b < n {
            assert(visit_before(v, a, b));
        } else {
            assert(b == n);
            assert(visit_before(visit_push(v, c, f, k), a, n));
        }
    }
    assert forall|i: int| 0 <= i < keep.len() implies (#[trigger] dist2[i] == usize::MAX
        <==> !u.cells.contains(i as usize)) by {
        if i == c {
            assert(u.cells[n] == c);
        } else {
            assert(dist2[i] == dist[i]);
            if v.cells.contains(i as usize) {
                let b = v.cells.index_of(i as usize);
                assert(u.cells[b] == i);
            }
            if u.cells.contains(i as usize) {
                let b = u.cells.index_of(i as usize);
                assert(u.cells[b] == i as usize);
                assert(b != n);
                assert(v.cells[b] == i);
            }
        }
    }
    assert forall|x: int, a: int| found_by(v, x, a) implies #[trigger] found_by(u, x, a) by {
        let b = choose|b: int|
            0 <= b < v.cells.len() && #[trigger] v.cells[b] == x && v.from[b] <= a;
        assert(u.cells[b] == x);
    }
}

proof fn lemma_visits_bound(
    keep: Seq<bool>,
    anchored: Seq<bool>,
    w: int,
    dist: Seq<usize>,
    parent: Seq<usize>,
    v: Visits,
)
    requires
        visits_sound(keep, anchored, w, dist, parent, v),
    ensures
        v.cells.len() <= keep.len(),
{
    assert forall|b: int| 0 <= b < v.cells.len() implies #[trigger] v.cells[b] < keep.len() by {
        assert(visit_ok(keep, anchored, w, dist, parent, v, b));
    }
    lemma_cells_bound(v.cells, keep.len() as int);
}

proof fn lemma_sides_kept(keep: Seq<bool>, w: int, v: Visits, u: Visits, a: int, k: int)
    requires
        side_done(keep, w, v, a, k),
        0 <= a < v.cells.len(),
        v.cells.len() <= u.cells.len(),
        forall|b: int| 0 <= b < v.cells.len() ==> u.cells[b] == #[trigger] v.cells[b],
        forall|x: int, a: int| found_by(v, x, a) ==> #[trigger] found_by(u, x, a),
    ensures
        side_done(keep, w, u, a, k),
{
    assert(u.cells[a] == v.cells[a]);
}

/// Searches the cut cells outward from anchored material. `dist` holds the length of the
/// shortest gap, 0 beside the material and `usize::MAX` where none leads there; following
/// `parent` from a cut cell walks that gap and ends on anchored material.
#[verifier::rlimit(60)]
pub fn gap_bfs(keep: &[bool], anchored: &[bool], w: usize, h: usize) -> (r: (
    Vec<usize>,
    Vec<usize>,
))
    requires
        keep@.len() == w * h,
        anchored@.len() == keep@.len(),
    ensures
        r.0@.len() == keep@.len(),
        r.1@.len() == keep@.len(),
        gap_searched(keep@, anchored@, w as int, r.0@, r.1@),
{
    let n: usize = keep.len();
    let ghost wi = w as int;
    let mut dist: Vec<usize> = Vec::new();
    let mut parent: Vec<usize> = Vec::new();
    for i in 0..n
        invariant
            n == keep@.len(),
            dist@.len() == i,
            parent@.len() == i,
            forall|j: int| 0 <= j < i ==> dist@[j] == usize::MAX && parent@[j] == usize::MAX,
    {
        dist.push(usize::MAX);
        parent.push(usize::MAX);
    }
    let mut queue: Vec<usize> = Vec::new();
    let ghost mut v = Visits { cells: Seq::empty(), from: Seq::empty(), via: Seq::empty() };
    proof {
        lemma_whole_rows(w as int, h as int, n as int);
    }
    for i in 0..n
        invariant
            n == keep@.len(),
            n == anchored@.len(),
            wi == w,
            n > 0 ==> w > 0 && n as int % wi == 0,
            queue@ == v.cells,
            visits_sound(keep@, anchored@, wi, dist@, parent@, v),
            forall|b: int| 0 <= b < v.from.len() ==> #[trigger] v.from[b] == -1,
            forall|b: int| 0 <= b < v.cells.len() ==> #[trigger] v.cells[b] < i,
            forall|j: int|
                0 <= j < i && !keep@[j] && (#[trigger] anchor_of(anchored@, wi, j)) is Some
                    ==> found_by(v, j, -1),
    {
        if !keep[i] {
            if let Some(m) = anchor(anchored, w, i) {
                let ghost v0 = v;
                proof {
                    assert(dist@[i as int] == usize::MAX);
                    lemma_visit_push(
                        keep@,
                        anchored@,
                        wi,
                        dist@,
                        parent@,
                        v,
                        i,
                        -1,
                        0,
                        0,
                        m,
                    );
                    v = visit_push(v, i, -1, 0);
                    assert(v.cells[v0.cells.len() as int] == i);
                    assert(found_by(v, i as int, -1));
                    assert forall|j: int|
                        0 <= j < i + 1 && !keep@[j] && (#[trigger] anchor_of(
                            anchored@,
                            wi,
                            j,
                        )) is Some implies found_by(v, j, -1) by {
                        if j < i {
                            assert(found_by(v0, j, -1));
                        }
                    }
                }
                dist.set(i, 0);
                parent.set(i, m);
                queue.push(i);
            }
        }
    }
    let mut head: usize = 0;
    proof {
        lemma_visits_bound(keep@, anchored@, wi, dist@, parent@, v);
    }
    while head < queue.len()
        invariant
            n == keep@.len(),
            n == anchored@.len(),
            wi == w,
            n > 0 ==> w > 0 && n as int % wi == 0,
            queue@ == v.cells,
            head <= queue@.len(),
            queue@.len() <= n,
            visits_sound(keep@, anchored@, wi, dist@, parent@, v),
            forall|b: int| 0 <= b < v.from.len() ==> #[trigger] v.from[b] < head,
            forall|j: int|
                0 <= j < n && !keep@[j] && (#[trigger] anchor_of(anchored@, wi, j)) is Some
                    ==> found_by(v, j, -1),
            forall|a: int, k: int|
                0 <= a < head && 0 <= k < 4 ==> #[trigger] side_done(keep@, wi, v, a, k),
        decreases n - head,
    {
        let c: usize = queue[head];
        proof {
            assert(visit_ok(keep@, anchored@, wi, dist@, parent@, v, head as int));
        }
        for k in 0..4usize
            invariant
                n == keep@.len(),
                n == anchored@.len(),
                wi == w,
                n > 0,
                w > 0 && n as int % wi == 0,
                queue@ == v.cells,
                head < queue@.len(),
                queue@.len() <= n,
                c < n,
                c == v.cells[head as int],
                visits_sound(keep@, anchored@, wi, dist@, parent@, v),
                forall|b: int|
                    0 <= b < v.from.len() ==> #[trigger] v.from[b] < head || (v.from[b] == head
                        && v.via[b] < k),
                forall|j: int|
                    0 <= j < n && !keep@[j] && (#[trigger] anchor_of(anchored@, wi, j)) is Some
                        ==> found_by(v, j, -1),
                forall|a: int, d: int|
                    0 <= a < head && 0 <= d < 4 ==> #[trigger] side_done(keep@, wi, v, a, d),
                forall|d: int|
                    0 <= d < k ==> #[trigger] side_done(keep@, wi, v, head as int, d),
        {
            let ghost v0 = v;
            proof {
                assert(visit_ok(keep@, anchored@, wi, dist@, parent@, v, head as int));
            }
            if let Some(m) = step(w, n, c, k) {
                if !keep[m] && dist[m] == usize::MAX {
                    proof {
                        assert(dist@[c as int] <= head);
                    }
                    let d: usize = dist[c] + 1;
                    proof {
                        assert(!v.cells.contains(m));
                        assert forall|b: int|
                            0 <= b < v.cells.push(m).len() implies #[trigger] v.cells.push(
                            m,
                        )[b] < n by {
                            if b < v.cells.len() {
                                assert(visit_ok(keep@, anchored@, wi, dist@, parent@, v, b));
                            }
                        }
                        lemma_cells_bound(v.cells.push(m), n as int);
                        if anchor_of(anchored@, wi, m as int) is Some {
                            assert(found_by(v, m as int, -1));
                            let b = choose|b: int|
                                0 <= b < v.cells.len() && #[trigger] v.cells[b] == m && v.from[b]
                                    <= -1;
                            assert(v.cells[b] == m);
                        }
                        lemma_visit_push(
                            keep@,
                            anchored@,
                            wi,
                            dist@,
                            parent@,
                            v,
                            m,
                            head as int,
                            k as int,
                            d,
                            c,
                        );
                        v = visit_push(v, m, head as int, k as int);
                        assert(v.cells[v0.cells.len() as int] == m);
                        assert(found_by(v, m as int, head as int));
                        assert forall|j: int|
                            0 <= j < n && !keep@[j] && (#[trigger] anchor_of(
                                anchored@,
                                wi,
                                j,
                            )) is Some implies found_by(v, j, -1) by {
                            assert(found_by(v0, j, -1));
                        }
                    }
                    dist.set(m, d);
                    parent.set(m, c);
                    queue.push(m);
                    proof {
                        lemma_visits_bound(keep@, anchored@, wi, dist@, parent@, v);
                    }
                } else if !keep[m] {
                    proof {
                        assert(v.cells.contains(m));
                        let b = v.cells.index_of(m);
                        assert(v.cells[b] == m);
                        assert(found_by(v, m as int, head as int));
                    }
                }
            }
            proof {
                assert forall|a: int, d: int|
                    0 <= a < head && 0 <= d < 4 implies #[trigger] side_done(
                    keep@,
                    wi,
                    v,
                    a,
                    d,
                ) by {
                    assert(side_done(keep@, wi, v0, a, d));
                    lemma_sides_kept(keep@, wi, v0, v, a, d);
                }
                assert forall|d: int| 0 <= d < k + 1 implies #[trigger] side_done(
                    keep@,
                    wi,
                    v,
                    head as int,
                    d,
                ) by {
                    if d < k {
                        assert(side_done(keep@, wi, v0, head as int, d));
                        lemma_sides_kept(keep@, wi, v0, v, head as int, d);
                    }
                }
            }
        }
        head = head + 1;
    }
    proof {
        reveal(gap_searched);
        assert(gap_search(keep@, anchored@, wi, dist@, parent@, v));
    }
    (dist, parent)
}

/// Distinct cells below `n` number at most `n`.
pub proof fn lemma_cells_bound(s: Seq<usize>, n: int)
    requires
        s.no_duplicates(),
        forall|b: int| 0 <= b < s.len() ==> #[trigger] s[b] < n,
        n >= 0,
    ensures
        s.len() <= n,
{
    let t = s.map_values(|x: usize| x as int);
    assert(t.no_duplicates());
    t.unique_seq_to_set();
    vstd::set_lib::lemma_int_range(0, n);
    assert(t.to_set().subset_of(vstd::set_lib::set_int_range(0, n))) by {
        assert forall|x: int| t.to_set().contains(x) implies vstd::set_lib::set_int_range(
            0,
            n,
        ).contains(x) by {
            let b = t.index_of(x);
            assert(t[b] == s[b]);
        }
    }
    vstd::set_lib::lemma_len_subset(t.to_set(), vstd::set_lib::set_int_range(0, n));
}

/// Later visits lie no nearer.
proof fn lemma_visit_monotone(
    keep: Seq<bool>,
    anchored: Seq<bool>,
    w: int,
    dist: Seq<usize>,
    parent: Seq<usize>,
    v: Visits,
    a: int,
    b: int,
)
    requires
        visits_sound(keep, anchored, w, dist, parent, v),
        0 <= a <= b < v.cells.len(),
    ensures
        dist[v.cells[a] as int] <= dist[v.cells[b] as int],
    decreases b,
{
    assert(visit_ok(keep, anchored, w, dist, parent, v, a));
    assert(visit_ok(keep, anchored, w, dist, parent, v, b));
    if a < b {
        assert(visit_before(v, a, b));
        if v.from[a] >= 0 {
            lemma_visit_monotone(keep, anchored, w, dist, parent, v, v.from[a], v.from[b]);
        }
    }
}

proof fn lemma_visited_within(
    keep: Seq<bool>,
    anchored: Seq<bool>,
    w: int,
    dist: Seq<usize>,
    parent: Seq<usize>,
    v: Visits,
    b: int,
)
    requires
        w > 0,
        keep.len() as int % w == 0,
        anchored.len() == keep.len(),
        visits_sound(keep, anchored, w, dist, parent, v),
        0 <= b < v.cells.len(),
    ensures
        gap_within(keep, anchored, w, v.cells[b] as int, dist[v.cells[b] as int] as nat),
    decreases b,
{
    assert(visit_ok(keep, anchored, w, dist, parent, v, b));
    if v.from[b] >= 0 {
        let a = v.from[b];
        lemma_visited_within(keep, anchored, w, dist, parent, v, a);
        assert(visit_ok(keep, anchored, w, dist, parent, v, a));
        lemma_step_adjacent(w, keep.len() as int, v.cells[a] as int, v.via[b]);
        assert(adjacent(w, keep.len() as int, v.cells[b] as int, v.cells[a] as int));
    }
}

proof fn lemma_within_visited(
    keep: Seq<bool>,
    anchored: Seq<bool>,
    w: int,
    dist: Seq<usize>,
    parent: Seq<usize>,
    v: Visits,
    i: int,
    k: nat,
)
    requires
        anchored.len() == keep.len(),
        gap_search(keep, anchored, w, dist, parent, v),
        gap_within(keep, anchored, w, i, k),
    ensures
        found_by(v, i, v.cells.len() as int),
        dist[i] <= k,
    decreases k,
{
    if anchor_of(anchored, w, i) is Some {
        assert(found_by(v, i, -1));
        let b = choose|b: int| 0 <= b < v.cells.len() && #[trigger] v.cells[b] == i && v.from[b] <= -1;
        assert(visit_ok(keep, anchored, w, dist, parent, v, b));
        assert(v.cells[b] == i);
    } else {
        let j = choose|j: int| #[trigger]
            adjacent(w, keep.len() as int, i, j) && gap_within(
                keep,
                anchored,
                w,
                j,
                (k - 1) as nat,
            );
        lemma_within_visited(keep, anchored, w, dist, parent, v, j, (k - 1) as nat);
        let a = choose|a: int|
            0 <= a < v.cells.len() && #[trigger] v.cells[a] == j && v.from[a] <= v.cells.len();
        let d = lemma_adjacent_step(w, keep.len() as int, j, i);
        assert(side_done(keep, w, v, a, d));
        let b = choose|b: int| 0 <= b < v.cells.len() && #[trigger] v.cells[b] == i && v.from[b] <= a;
        assert(visit_ok(keep, anchored, w, dist, parent, v, b));
        assert(visit_ok(keep, anchored, w, dist, parent, v, a));
        if v.from[b] >= 0 {
            lemma_visit_monotone(keep, anchored, w, dist, parent, v, v.from[b], a);
        }
        assert(v.cells[b] == i);
    }
}

/// The search measures the shortest gap: a cell's distance is the least number of further
/// cut cells on any way to anchored material, and a cell without one has none.
pub proof fn lemma_gap_shortest(
    keep: Seq<bool>,
    anchored: Seq<bool>,
    w: int,
    dist: Seq<usize>,
    parent: Seq<usize>,
    i: int,
    k: nat,
)
    requires
        w > 0,
        keep.len() as int % w == 0,
        keep.len() <= usize::MAX,
        anchored.len() == keep.len(),
        gap_searched(keep, anchored, w, dist, parent),
        0 <= i < keep.len(),
    ensures
        dist[i] != usize::MAX ==> gap_within(keep, anchored, w, i, dist[i] as nat),
        gap_within(keep, anchored, w, i, k) ==> dist[i] != usize::MAX && dist[i] <= k,
{
    reveal(gap_searched);
    let v = choose|v: Visits| gap_search(keep, anchored, w, dist, parent, v);
    if dist[i] != usize::MAX {
        let b = v.cells.index_of(i as usize);
        assert(v.cells[b] == i);
        lemma_visited_within(keep, anchored, w, dist, parent, v, b);
    }
    if gap_within(keep, anchored, w, i, k) {
        lemma_within_visited(keep, anchored, w, dist, parent, v, i, k);
        let b = choose|b: int|
            0 <= b < v.cells.len() && #[trigger] v.cells[b] == i && v.from[b] <= v.cells.len();
        assert(v.cells[b] == i);
        assert(v.cells.contains(i as usize));
    }
}

/// From every cell with a distance the pointers lead, side by side, to anchored material.
pub proof fn lemma_gap_spine(
    keep: Seq<bool>,
    anchored: Seq<bool>,
    w: int,
    dist: Seq<usize>,
    parent: Seq<usize>,
    i: usize,
) -> (spine: Seq<usize>)
    requires
        w > 0,
        keep.len() as int % w == 0,
        keep.len() <= usize::MAX,
        anchored.len() == keep.len(),
        forall|j: int| 0 <= j < keep.len() && #[trigger] anchored[j] ==> keep[j],
        gap_searched(keep, anchored, w, dist, parent),
        i < keep.len(),
        dist[i as int] != usize::MAX,
    ensures
        is_spine(parent, i, spine),
        unbroken(w, keep.len() as int, spine),
        spine.last() < anchored.len(),
        anchored[spine.last() as int],
        spine.len() == dist[i as int] + 2,
{
    reveal(gap_searched);
    let v = choose|v: Visits| gap_search(keep, anchored, w, dist, parent, v);
    let b = v.cells.index_of(i);
    assert(v.cells[b] == i);
    lemma_spine_from(keep, anchored, w, dist, parent, v, b)
}

proof fn lemma_spine_from(
    keep: Seq<bool>,
    anchored: Seq<bool>,
    w: int,
    dist: Seq<usize>,
    parent: Seq<usize>,
    v: Visits,
    b: int,
) -> (spine: Seq<usize>)
    requires
        w > 0,
        keep.len() as int % w == 0,
        keep.len() <= usize::MAX,
        anchored.len() == keep.len(),
        forall|j: int| 0 <= j < keep.len() && #[trigger] anchored[j] ==> keep[j],
        visits_sound(keep, anchored, w, dist, parent, v),
        0 <= b < v.cells.len(),
    ensures
        is_spine(parent, v.cells[b], spine),
        unbroken(w, keep.len() as int, spine),
        spine.last() < anchored.len(),
        anchored[spine.last() as int],
        spine.len() == dist[v.cells[b] as int] + 2,
    decreases b,
{
    reveal(is_spine);
    reveal(unbroken);
    assert(visit_ok(keep, anchored, w, dist, parent, v, b));
    let c = v.cells[b];
    if v.from[b] >= 0 {
        let a = v.from[b];
        assert(visit_ok(keep, anchored, w, dist, parent, v, a));
        let rest = lemma_spine_from(keep, anchored, w, dist, parent, v, a);
        let spine = seq![c] + rest;
        lemma_step_adjacent(w, keep.len() as int, v.cells[a] as int, v.via[b]);
        assert forall|x: int| 0 <= x < spine.len() - 1 implies parent[#[trigger] spine[x] as int]
            == spine[x + 1] && spine[x + 1] != usize::MAX && adjacent(
            w,
            keep.len() as int,
            spine[x] as int,
            spine[x + 1] as int,
        ) by {
            assert(spine[x + 1] == rest[x]);
            if x > 0 {
                assert(spine[x] == rest[x - 1]);
            }
        }
        assert forall|x: int| 0 <= x < spine.len() implies (#[trigger] spine[x])
            < parent.len() by {
            if x > 0 {
                assert(spine[x] == rest[x - 1]);
            }
        }
        assert(spine.last() == rest.last());
        spine
    } else {
        let m = parent[c as int];
        let spine = seq![c, m];
        let k = if anchor_at(anchored, w, c as int, 3) {
            3
        } else if anchor_at(anchored, w, c as int, 2) {
            2
        } else if anchor_at(anchored, w, c as int, 1) {
            1int
        } else {
            0
        };
        lemma_step_adjacent(w, keep.len() as int, c as int, k);
        assert(anchored[m as int]);
        assert(keep[m as int]);
        if dist[m as int] != usize::MAX {
            let d = v.cells.index_of(m);
            assert(visit_ok(keep, anchored, w, dist, parent, v, d));
        }
        assert(parent[m as int] == usize::MAX);
        spine
    }
}

} // verus!
