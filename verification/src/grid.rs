//! The raster grid: row-major cells, four-way adjacency and paths.
//!
//! A grid of width `w` holds `n` cells, numbered row by row; cell `i` stands in column
//! `i % w` of row `i / w`.

use vstd::prelude::*;

verus! {

/// The longest side of a grid, in cells, for which squared distances fit 64 bits.
pub const MAX_SIDE: usize = 0x7fff_ffff;

/// The views of a list of masks.
pub open spec fn mask_views(v: Seq<Vec<bool>>) -> Seq<Seq<bool>> {
    Seq::new(v.len(), |k: int| v[k]@)
}

/// The column of cell `i`.
pub open spec fn col(w: int, i: int) -> int {
    i % w
}

/// The row of cell `i`.
pub open spec fn row(w: int, i: int) -> int {
    i / w
}

/// The neighbour of cell `i` in direction `k`: left, right, up, down for 0, 1, 2, 3.
/// It may lie outside the grid; see `has_step`.
pub open spec fn step_to(w: int, i: int, k: int) -> int {
    if k == 0 {
        i - 1
    } else if k == 1 {
        i + 1
    } else if k == 2 {
        i - w
    } else {
        i + w
    }
}

/// Whether cell `i` of an `n`-cell grid has a neighbour in direction `k`.
pub open spec fn has_step(w: int, n: int, i: int, k: int) -> bool {
    if k == 0 {
        i % w != 0
    } else if k == 1 {
        (i + 1) % w != 0
    } else if k == 2 {
        i >= w
    } else {
        k == 3 && i + w < n
    }
}

/// Whether cells `i` and `j` of an `n`-cell grid share a side.
pub open spec fn adjacent(w: int, n: int, i: int, j: int) -> bool {
    &&& 0 <= i < n
    &&& 0 <= j < n
    &&& {
        ||| j == i + 1 && j % w != 0
        ||| i == j + 1 && i % w != 0
        ||| j == i + w
        ||| i == j + w
    }
}

/// Whether cell `i` lies on the outer edge of an `n`-cell grid.
pub open spec fn on_border(w: int, n: int, i: int) -> bool {
    i % w == 0 || (i + 1) % w == 0 || i < w || i + w >= n
}

/// Whether `p` is a walk over side-sharing cells that all satisfy `m`.
pub open spec fn is_path(m: Seq<bool>, w: int, p: Seq<int>) -> bool {
    &&& p.len() > 0
    &&& forall|a: int| 0 <= a < p.len() ==> 0 <= #[trigger] p[a] < m.len() && m[p[a]]
    &&& forall|a: int|
        0 <= a < p.len() - 1 ==> adjacent(w, m.len() as int, #[trigger] p[a], p[a + 1])
}

/// Whether `p` leads from `i` to `j`.
pub open spec fn leads(p: Seq<int>, i: int, j: int) -> bool {
    p.len() > 0 && p.first() == i && p.last() == j
}

/// Whether a walk over cells of `m` leads from `i` to `j`.
#[verifier::opaque]
pub open spec fn connected(m: Seq<bool>, w: int, i: int, j: int) -> bool {
    exists|p: Seq<int>| #[trigger] is_path(m, w, p) && leads(p, i, j)
}

/// Whether cell `i` of `m` reaches the outer edge of the grid over cells of `m`.
pub open spec fn frame_connected(m: Seq<bool>, w: int, i: int) -> bool {
    exists|b: int| on_border(w, m.len() as int, b) && #[trigger] connected(m, w, i, b)
}

/// A grid that holds cells has columns, and whole rows of them.
pub proof fn lemma_whole_rows(w: int, h: int, n: int)
    requires
        n == w * h,
        w >= 0,
        h >= 0,
    ensures
        n > 0 ==> w > 0 && n % w == 0,
{
    if n > 0 {
        assert(w > 0 && n % w == 0) by (nonlinear_arith)
            requires
                n == w * h,
                n > 0,
                w >= 0,
        ;
    }
}

pub proof fn lemma_step_adjacent(w: int, n: int, i: int, k: int)
    requires
        0 <= i < n,
        w > 0,
        n % w == 0,
        0 <= k < 4,
        has_step(w, n, i, k),
    ensures
        adjacent(w, n, i, step_to(w, i, k)),
{
    if k == 0 {
        assert(i >= 1) by {
            if i == 0 {
                assert(0int % w == 0) by (nonlinear_arith)
                    requires
                        w > 0,
                ;
            }
        }
    } else if k == 1 {
        if i + 1 >= n {
            assert(i + 1 == n);
        }
    }
}

/// Every neighbour is reached in one of the four directions.
pub proof fn lemma_adjacent_step(w: int, n: int, i: int, j: int) -> (k: int)
    requires
        adjacent(w, n, i, j),
    ensures
        0 <= k < 4,
        has_step(w, n, i, k),
        step_to(w, i, k) == j,
{
    if i == j + 1 && i % w != 0 {
        0
    } else if j == i + 1 && j % w != 0 {
        1
    } else if i == j + w {
        2
    } else {
        3
    }
}

pub proof fn lemma_connected_self(m: Seq<bool>, w: int, i: int)
    requires
        0 <= i < m.len(),
        m[i],
    ensures
        connected(m, w, i, i),
{
    reveal(connected);
    let p = seq![i];
    assert(is_path(m, w, p) && leads(p, i, i));
}

/// A connection can be prolonged by one step.
pub proof fn lemma_connected_extend(m: Seq<bool>, w: int, i: int, j: int, k: int)
    requires
        connected(m, w, i, j),
        adjacent(w, m.len() as int, j, k),
        m[k],
    ensures
        connected(m, w, i, k),
{
    reveal(connected);
    let p = choose|p: Seq<int>| #[trigger] is_path(m, w, p) && leads(p, i, j);
    let q = p.push(k);
    assert forall|a: int| 0 <= a < q.len() - 1 implies adjacent(
        w,
        m.len() as int,
        #[trigger] q[a],
        q[a + 1],
    ) by {
        if a < p.len() - 1 {
            assert(q[a] == p[a] && q[a + 1] == p[a + 1]);
        }
    }
    assert(is_path(m, w, q) && leads(q, i, k));
}

pub proof fn lemma_connected_symmetric(m: Seq<bool>, w: int, i: int, j: int)
    requires
        connected(m, w, i, j),
    ensures
        connected(m, w, j, i),
{
    reveal(connected);
    let p = choose|p: Seq<int>| #[trigger] is_path(m, w, p) && leads(p, i, j);
    let q = Seq::new(p.len(), |a: int| p[p.len() - 1 - a]);
    assert forall|a: int| 0 <= a < q.len() - 1 implies adjacent(
        w,
        m.len() as int,
        #[trigger] q[a],
        q[a + 1],
    ) by {
        let b = p.len() - 2 - a;
        assert(adjacent(w, m.len() as int, p[b], p[b + 1]));
    }
    assert(is_path(m, w, q) && leads(q, j, i));
}

pub proof fn lemma_connected_transitive(m: Seq<bool>, w: int, i: int, j: int, k: int)
    requires
        connected(m, w, i, j),
        connected(m, w, j, k),
    ensures
        connected(m, w, i, k),
{
    reveal(connected);
    let p = choose|p: Seq<int>| #[trigger] is_path(m, w, p) && leads(p, i, j);
    let q = choose|q: Seq<int>| #[trigger] is_path(m, w, q) && leads(q, j, k);
    let r = p + q.drop_first();
    assert forall|a: int| 0 <= a < r.len() implies 0 <= #[trigger] r[a] < m.len() && m[r[a]] by {
        if a < p.len() {
            assert(r[a] == p[a]);
        } else {
            assert(r[a] == q[a - p.len() + 1]);
        }
    }
    assert forall|a: int| 0 <= a < r.len() - 1 implies adjacent(
        w,
        m.len() as int,
        #[trigger] r[a],
        r[a + 1],
    ) by {
        if a < p.len() - 1 {
            assert(r[a] == p[a] && r[a + 1] == p[a + 1]);
        } else {
            let b = a - p.len() + 1;
            assert(r[a] == q[b] && r[a + 1] == q[b + 1]);
        }
    }
    assert(is_path(m, w, r) && leads(r, i, k));
}

/// What holds of `i` and passes on to every neighbour holds of all cells connected to `i`.
pub proof fn lemma_connected_closed(m: Seq<bool>, w: int, s: Set<int>, i: int, j: int)
    requires
        connected(m, w, i, j),
        s.contains(i),
        forall|a: int, b: int|
            s.contains(a) && m[b] && #[trigger] adjacent(w, m.len() as int, a, b) ==> s.contains(b),
    ensures
        s.contains(j),
{
    reveal(connected);
    let p = choose|p: Seq<int>| #[trigger] is_path(m, w, p) && leads(p, i, j);
    lemma_path_closed(m, w, s, p, p.len() - 1);
}

proof fn lemma_path_closed(m: Seq<bool>, w: int, s: Set<int>, p: Seq<int>, a: int)
    requires
        is_path(m, w, p),
        s.contains(p.first()),
        0 <= a < p.len(),
        forall|a: int, b: int|
            s.contains(a) && m[b] && #[trigger] adjacent(w, m.len() as int, a, b) ==> s.contains(b),
    ensures
        s.contains(p[a]),
    decreases a,
{
    if a > 0 {
        lemma_path_closed(m, w, s, p, a - 1);
        assert(adjacent(w, m.len() as int, p[a - 1], p[a - 1 + 1]));
    }
}

/// A connection survives when cells are added.
pub proof fn lemma_connected_monotone(m: Seq<bool>, m2: Seq<bool>, w: int, i: int, j: int)
    requires
        connected(m, w, i, j),
        m.len() == m2.len(),
        forall|a: int| 0 <= a < m.len() && #[trigger] m[a] ==> m2[a],
    ensures
        connected(m2, w, i, j),
{
    reveal(connected);
    let p = choose|p: Seq<int>| #[trigger] is_path(m, w, p) && leads(p, i, j);
    assert(is_path(m2, w, p));
}

/// Both ends of a connection satisfy the mask.
pub proof fn lemma_connected_ends(m: Seq<bool>, w: int, i: int, j: int)
    requires
        connected(m, w, i, j),
    ensures
        0 <= i < m.len(),
        0 <= j < m.len(),
        m[i],
        m[j],
{
    reveal(connected);
    let p = choose|p: Seq<int>| #[trigger] is_path(m, w, p) && leads(p, i, j);
    assert(m[p[0]] && m[p[p.len() - 1]]);
}

/// The neighbour of cell `i` in direction `k`, if the grid has one.
pub fn step(w: usize, n: usize, i: usize, k: usize) -> (r: Option<usize>)
    requires
        i < n,
        w > 0,
        n as int % w as int == 0,
        k < 4,
    ensures
        r is Some <==> has_step(w as int, n as int, i as int, k as int),
        r is Some ==> r->0 < n && r->0 == step_to(w as int, i as int, k as int) && adjacent(
            w as int,
            n as int,
            i as int,
            r->0 as int,
        ),
{
    proof {
        if has_step(w as int, n as int, i as int, k as int) {
            lemma_step_adjacent(w as int, n as int, i as int, k as int);
        }
    }
    if k == 0 {
        if i % w != 0 {
            Some(i - 1)
        } else {
            None
        }
    } else if k == 1 {
        if i + 1 < n {
            if (i + 1) % w != 0 {
                Some(i + 1)
            } else {
                None
            }
        } else {
            None
        }
    } else if k == 2 {
        if i >= w {
            Some(i - w)
        } else {
            None
        }
    } else {
        if w < n - i {
            Some(i + w)
        } else {
            None
        }
    }
}

} // verus!
