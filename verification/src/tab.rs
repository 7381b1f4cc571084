//! Carving a tab: painting a round brush along the way from a cut cell to material.

use crate::grid::{
    adjacent, col, connected, lemma_connected_extend, lemma_connected_self,
    lemma_connected_symmetric, lemma_connected_transitive, row,
};
use vstd::arithmetic::div_mod::{lemma_fundamental_div_mod, lemma_fundamental_div_mod_converse};
use vstd::prelude::*;

verus! {

/// The squared distance between the centres of cells `i` and `j`.
pub open spec fn dist_sq(w: int, i: int, j: int) -> int {
    (col(w, i) - col(w, j)) * (col(w, i) - col(w, j)) + (row(w, i) - row(w, j)) * (row(w, i) - row(
        w,
        j,
    ))
}

/// Whether a round brush of diameter `bw` about cell `c` covers cell `j`.
pub open spec fn in_brush(w: int, bw: int, c: int, j: int) -> bool {
    4 * dist_sq(w, c, j) <= bw * bw
}

/// Whether the brush, drawn along `spine`, covers cell `j`.
pub open spec fn painted(w: int, bw: int, spine: Seq<usize>, j: int) -> bool {
    exists|a: int| 0 <= a < spine.len() && #[trigger] in_brush(w, bw, spine[a] as int, j)
}

/// Whether `spine` follows the pointers from `site` to the first cell that has none.
#[verifier::opaque]
pub open spec fn is_spine(parent: Seq<usize>, site: usize, spine: Seq<usize>) -> bool {
    &&& spine.len() > 0
    &&& spine[0] == site
    &&& forall|a: int| 0 <= a < spine.len() ==> (#[trigger] spine[a]) < parent.len()
    &&& forall|a: int|
        0 <= a < spine.len() - 1 ==> parent[#[trigger] spine[a] as int] == spine[a + 1]
            && spine[a + 1] != usize::MAX
    &&& parent[spine.last() as int] == usize::MAX
}

/// Whether `b` is `a` with everything covered along `spine` added.
pub open spec fn carved(a: Seq<bool>, b: Seq<bool>, w: int, bw: int, spine: Seq<usize>) -> bool {
    &&& a.len() == b.len()
    &&& forall|j: int|
        0 <= j < a.len() ==> (#[trigger] b[j] <==> a[j] || painted(w, bw, spine, j))
}

/// Two spines from one site are the same.
pub proof fn lemma_spine_unique(parent: Seq<usize>, site: usize, s: Seq<usize>, t: Seq<usize>)
    requires
        is_spine(parent, site, s),
        is_spine(parent, site, t),
    ensures
        s == t,
{
    reveal(is_spine);
    let m = if s.len() < t.len() { s.len() } else { t.len() };
    lemma_spine_prefix(parent, site, s, t, m - 1);
    if s.len() < t.len() {
        assert(s[s.len() - 1] == t[s.len() - 1]);
        assert(parent[t[s.len() - 1] as int] == t[s.len() as int]);
    }
    if t.len() < s.len() {
        assert(s[t.len() - 1] == t[t.len() - 1]);
        assert(parent[s[t.len() - 1] as int] == s[t.len() as int]);
    }
    assert forall|a: int| 0 <= a < s.len() implies s[a] == t[a] by {
        lemma_spine_prefix(parent, site, s, t, a);
    }
    assert(s =~= t);
}

proof fn lemma_spine_prefix(
    parent: Seq<usize>,
    site: usize,
    s: Seq<usize>,
    t: Seq<usize>,
    a: int,
)
    requires
        is_spine(parent, site, s),
        is_spine(parent, site, t),
        0 <= a < s.len(),
        a < t.len(),
    ensures
        s[a] == t[a],
    decreases a,
{
    reveal(is_spine);
    if a > 0 {
        lemma_spine_prefix(parent, site, s, t, a - 1);
        assert(parent[s[a - 1] as int] == s[a]);
        assert(parent[t[a - 1] as int] == t[a]);
    }
}

/// A brush reaches half its diameter each way.
pub proof fn lemma_brush_reach(w: int, bw: int, c: int, j: int)
    requires
        bw >= 0,
        in_brush(w, bw, c, j),
    ensures
        -(bw / 2) <= col(w, c) - col(w, j) <= bw / 2,
        -(bw / 2) <= row(w, c) - row(w, j) <= bw / 2,
{
    let x = col(w, c) - col(w, j);
    let y = row(w, c) - row(w, j);
    assert(-(bw / 2) <= x <= bw / 2) by (nonlinear_arith)
        requires
            bw >= 0,
            4 * (x * x + y * y) <= bw * bw,
    ;
    assert(-(bw / 2) <= y <= bw / 2) by (nonlinear_arith)
        requires
            bw >= 0,
            4 * (x * x + y * y) <= bw * bw,
    ;
}

/// Paints one round brush.
fn stamp(keep: &mut Vec<bool>, w: usize, c: usize, bw: usize)
    requires
        w > 0,
        old(keep)@.len() as int % w as int == 0,
        c < old(keep)@.len(),
    ensures
        final(keep)@.len() == old(keep)@.len(),
        forall|j: int|
            0 <= j < old(keep)@.len() ==> (#[trigger] final(keep)@[j] <==> old(keep)@[j]
                || in_brush(w as int, bw as int, c as int, j)),
{
    let n: usize = keep.len();
    let h: usize = n / w;
    let cx: usize = c % w;
    let cy: usize = c / w;
    let rad: usize = bw / 2;
    let ghost wi = w as int;
    let ghost k0 = keep@;
    proof {
        assert(cy < h && n == h * w) by (nonlinear_arith)
            requires
                w > 0,
                n as int % w as int == 0,
                c < n,
                h == n / w,
                cy == c / w,
        ;
        assert((bw as u128) * (bw as u128) <= 0xffff_ffff_ffff_fffe_0000_0000_0000_0001)
            by (nonlinear_arith)
            requires
                bw <= 0xffff_ffff_ffff_ffff,
        ;
    }
    let r2: u128 = (bw as u128) * (bw as u128) / 4;
    let x0: usize = if cx > rad { cx - rad } else { 0 };
    let x1: usize = if rad < w - 1 - cx { cx + rad } else { w - 1 };
    let y0: usize = if cy > rad { cy - rad } else { 0 };
    let y1: usize = if rad < h - 1 - cy { cy + rad } else { h - 1 };
    let mut y: usize = y0;
    proof {
        assert forall|j: int| 0 <= j < n && row(wi, j) < y0 implies !in_brush(
            wi,
            bw as int,
            c as int,
            j,
        ) by {
            if in_brush(wi, bw as int, c as int, j) {
                lemma_brush_reach(wi, bw as int, c as int, j);
                assert(row(wi, j) >= 0) by (nonlinear_arith)
                    requires
                        j >= 0,
                        wi > 0,
                        row(wi, j) == j / wi,
                ;
            }
        }
    }
    while y <= y1
        invariant
            w > 0,
            wi == w,
            n == h * w,
            n == k0.len(),
            keep@.len() == n,
            c < n,
            cx == c % w,
            cy == c / w,
            rad == bw / 2,
            r2 == (bw * bw) / 4,
            cx < w,
            cy < h,
            x0 <= cx <= x1 < w,
            y0 <= cy <= y1 < h,
            cx - x0 <= rad,
            x1 - cx <= rad,
            cy - y0 <= rad,
            y1 - cy <= rad,
            x0 == 0 || cx - x0 == rad,
            x1 == w - 1 || x1 - cx == rad,
            y0 <= y <= y1 + 1,
            forall|j: int|
                0 <= j < n ==> (#[trigger] keep@[j] <==> k0[j] || (row(wi, j) < y && in_brush(
                    wi,
                    bw as int,
                    c as int,
                    j,
                ))),
        decreases y1 + 1 - y,
    {
        let mut x: usize = x0;
        proof {
            assert forall|j: int| 0 <= j < n && col(wi, j) < x0 implies !in_brush(
                wi,
                bw as int,
                c as int,
                j,
            ) by {
                if in_brush(wi, bw as int, c as int, j) {
                    lemma_brush_reach(wi, bw as int, c as int, j);
                    assert(col(wi, j) >= 0) by (nonlinear_arith)
                        requires
                            j >= 0,
                            wi > 0,
                            col(wi, j) == j % wi,
                    ;
                }
            }
        }
        while x <= x1
            invariant
                w > 0,
                wi == w,
                n == h * w,
                n == k0.len(),
                keep@.len() == n,
                c < n,
                cx == c % w,
                cy == c / w,
                rad == bw / 2,
                r2 == (bw * bw) / 4,
                cx < w,
                cy < h,
                x0 <= cx <= x1 < w,
                y0 <= cy <= y1 < h,
                cx - x0 <= rad,
                x1 - cx <= rad,
                cy - y0 <= rad,
                y1 - cy <= rad,
                x1 == w - 1 || x1 - cx == rad,
                y0 <= y <= y1,
                x0 <= x <= x1 + 1,
                forall|j: int|
                    0 <= j < n ==> (#[trigger] keep@[j] <==> k0[j] || ((row(wi, j) < y || (row(
                        wi,
                        j,
                    ) == y && col(wi, j) < x)) && in_brush(wi, bw as int, c as int, j))),
            decreases x1 + 1 - x,
        {
            let dx: u128 = if x < cx { (cx - x) as u128 } else { (x - cx) as u128 };
            let dy: u128 = if y < cy { (cy - y) as u128 } else { (y - cy) as u128 };
            proof {
                assert(dx * dx <= 0x4000_0000_0000_0000_0000_0000_0000_0000 && dy * dy
                    <= 0x4000_0000_0000_0000_0000_0000_0000_0000) by (nonlinear_arith)
                    requires
                        0 <= dx <= 0x7fff_ffff_ffff_ffff,
                        0 <= dy <= 0x7fff_ffff_ffff_ffff,
                ;
                assert(y * w + x < n) by (nonlinear_arith)
                    requires
                        x < w,
                        y < h,
                        n == h * w,
                ;
                lemma_fundamental_div_mod_converse((y * w + x) as int, wi, y as int, x as int);
                let sx = cx - x;
                let sy = cy - y;
                assert(dx * dx == sx * sx && dy * dy == sy * sy) by (nonlinear_arith)
                    requires
                        dx == sx || dx == -sx,
                        dy == sy || dy == -sy,
                ;
                let s = dx * dx + dy * dy;
                let b2 = bw * bw;
                assert(s <= b2 / 4 <==> 4 * s <= b2);
                assert forall|j: int|
                    0 <= j < n && row(wi, j) == y && col(wi, j) == x implies j == y * w + x by {
                    lemma_fundamental_div_mod(j, wi);
                    assert(wi * (j / wi) == y * w) by (nonlinear_arith)
                        requires
                            j / wi == y,
                            wi == w,
                    ;
                }
            }
            if dx * dx + dy * dy <= r2 {
                keep.set(y * w + x, true);
            }
            x = x + 1;
        }
        proof {
            assert forall|j: int|
                0 <= j < n && row(wi, j) == y && col(wi, j) > x1 implies !in_brush(
                wi,
                bw as int,
                c as int,
                j,
            ) by {
                if in_brush(wi, bw as int, c as int, j) {
                    lemma_brush_reach(wi, bw as int, c as int, j);
                    assert(col(wi, j) < wi) by (nonlinear_arith)
                        requires
                            wi > 0,
                            col(wi, j) == j % wi,
                    ;
                }
            }
        }
        y = y + 1;
    }
    proof {
        assert forall|j: int| 0 <= j < n && row(wi, j) > y1 implies !in_brush(
            wi,
            bw as int,
            c as int,
            j,
        ) by {
            if in_brush(wi, bw as int, c as int, j) {
                lemma_brush_reach(wi, bw as int, c as int, j);
                assert(row(wi, j) < h) by (nonlinear_arith)
                    requires
                        j < n,
                        n == h * w,
                        wi == w,
                        wi > 0,
                        row(wi, j) == j / wi,
                ;
            }
        }
    }
}

/// Carves a tab from the cut cell `site` along the pointers to material, `bw` cells wide.
pub fn carve_tab(keep: &mut Vec<bool>, parent: &[usize], w: usize, site: usize, bw: usize)
    requires
        w > 0,
        old(keep)@.len() as int % w as int == 0,
        parent@.len() == old(keep)@.len(),
        exists|s: Seq<usize>| is_spine(parent@, site, s),
    ensures
        forall|s: Seq<usize>|
            is_spine(parent@, site, s) ==> carved(
                old(keep)@,
                final(keep)@,
                w as int,
                bw as int,
                s,
            ),
{
    reveal(is_spine);
    let ghost spine = choose|s: Seq<usize>| is_spine(parent@, site, s);
    let ghost k0 = keep@;
    let mut cur: usize = site;
    let ghost mut at: int = 0;
    loop
        invariant_except_break
            forall|j: int|
                0 <= j < k0.len() ==> (#[trigger] keep@[j] <==> k0[j] || painted(
                    w as int,
                    bw as int,
                    spine.take(at),
                    j,
                )),
        invariant
            w > 0,
            keep@.len() as int % w as int == 0,
            keep@.len() == k0.len(),
            parent@.len() == keep@.len(),
            is_spine(parent@, site, spine),
            0 <= at < spine.len(),
            cur == spine[at],
        ensures
            carved(k0, keep@, w as int, bw as int, spine),
        decreases spine.len() - at,
    {
        reveal(is_spine);
        let ghost k1 = keep@;
        stamp(keep, w, cur, bw);
        proof {
            assert forall|j: int| 0 <= j < k0.len() implies (#[trigger] keep@[j] <==> k0[j]
                || painted(w as int, bw as int, spine.take(at + 1), j)) by {
                assert(k1[j] <==> k0[j] || painted(w as int, bw as int, spine.take(at), j));
                let t = spine.take(at + 1);
                assert(t[at] == cur);
                if painted(w as int, bw as int, spine.take(at), j) {
                    let a = choose|a: int|
                        0 <= a < spine.take(at).len() && #[trigger] in_brush(
                            w as int,
                            bw as int,
                            spine.take(at)[a] as int,
                            j,
                        );
                    assert(in_brush(w as int, bw as int, t[a] as int, j));
                }
                if in_brush(w as int, bw as int, cur as int, j) {
                    assert(in_brush(w as int, bw as int, t[at] as int, j));
                }
                if painted(w as int, bw as int, t, j) {
                    let a = choose|a: int|
                        0 <= a < t.len() && #[trigger] in_brush(
                            w as int,
                            bw as int,
                            t[a] as int,
                            j,
                        );
                    if a < at {
                        assert(in_brush(w as int, bw as int, spine.take(at)[a] as int, j));
                    }
                }
            }
        }
        let p: usize = parent[cur];
        if p == usize::MAX {
            proof {
                if at < spine.len() - 1 {
                    assert(parent@[spine[at] as int] == spine[at + 1]);
                }
                assert(spine.take(at + 1) =~= spine);
            }
            break;
        }
        proof {
            assert(at < spine.len() - 1);
            assert(parent@[spine[at] as int] == spine[at + 1]);
            at = at + 1;
        }
        cur = p;
    }
    proof {
        assert forall|s: Seq<usize>| is_spine(parent@, site, s) implies carved(
            k0,
            keep@,
            w as int,
            bw as int,
            s,
        ) by {
            lemma_spine_unique(parent@, site, s, spine);
        }
    }
}

/// The part of a brush that lies on the grid hangs together.
pub proof fn lemma_brush_connected(m: Seq<bool>, w: int, bw: int, c: int, j: int)
    requires
        w > 0,
        m.len() as int % w == 0,
        0 <= c < m.len(),
        0 <= j < m.len(),
        in_brush(w, bw, c, j),
        forall|x: int| 0 <= x < m.len() && #[trigger] in_brush(w, bw, c, x) ==> m[x],
    ensures
        connected(m, w, c, j),
    decreases dist_sq(w, c, j),
{
    let x = col(w, j);
    let y = row(w, j);
    let cx = col(w, c);
    let cy = row(w, c);
    let n = m.len() as int;
    lemma_fundamental_div_mod(j, w);
    lemma_fundamental_div_mod(c, w);
    assert(w * y == y * w && w * cy == cy * w) by (nonlinear_arith);
    assert(0 <= x < w && 0 <= cx < w && y >= 0 && cy >= 0) by (nonlinear_arith)
        requires
            w > 0,
            j >= 0,
            c >= 0,
            x == j % w,
            cx == c % w,
            y == j / w,
            cy == c / w,
    ;
    if x != cx || y != cy {
        let x2 = if x > cx {
            x - 1
        } else if x < cx {
            x + 1
        } else {
            x
        };
        let y2 = if x != cx {
            y
        } else if y > cy {
            y - 1
        } else {
            y + 1
        };
        let j2 = y2 * w + x2;
        assert(y2 * w == if y2 == y {
            y * w
        } else if y2 == y - 1 {
            y * w - w
        } else {
            y * w + w
        }) by (nonlinear_arith)
            requires
                y2 == y || y2 == y - 1 || y2 == y + 1,
        ;
        assert(0 <= j2 < n) by (nonlinear_arith)
            requires
                j2 == y2 * w + x2,
                0 <= x2 < w,
                0 <= y2,
                y2 <= y || y2 <= cy,
                y * w + x < n,
                cy * w + cx < n,
                n % w == 0,
                w > 0,
                x >= 0,
                cx >= 0,
        ;
        lemma_fundamental_div_mod_converse(j2, w, y2, x2);
        let (ax, ay, bx, by) = (cx - x, cy - y, cx - x2, cy - y2);
        assert(bx * bx + by * by < ax * ax + ay * ay && 0 <= bx * bx + by * by)
            by (nonlinear_arith)
            requires
                (bx == ax - 1 && ax > 0 && by == ay) || (bx == ax + 1 && ax < 0 && by == ay) || (
                bx == ax && by == ay - 1 && ay > 0) || (bx == ax && by == ay + 1 && ay < 0),
        ;
        assert(adjacent(w, n, j2, j));
        lemma_brush_connected(m, w, bw, c, j2);
        lemma_connected_extend(m, w, c, j2, j);
    } else {
        assert(j == c);
        lemma_connected_self(m, w, c);
    }
}

/// Whether each cell of `spine` shares a side with the next.
#[verifier::opaque]
pub open spec fn unbroken(w: int, n: int, spine: Seq<usize>) -> bool {
    forall|a: int|
        0 <= a < spine.len() - 1 ==> adjacent(
            w,
            n,
            #[trigger] spine[a] as int,
            spine[a + 1] as int,
        )
}

/// An unbroken spine hangs together wherever all its cells are kept.
pub proof fn lemma_spine_connected(m: Seq<bool>, w: int, spine: Seq<usize>, a: int)
    requires
        0 <= a < spine.len(),
        unbroken(w, m.len() as int, spine),
        forall|b: int| 0 <= b < spine.len() ==> (#[trigger] spine[b]) < m.len() && m[spine[b] as int],
    ensures
        connected(m, w, spine[a] as int, spine.last() as int),
    decreases spine.len() - a,
{
    reveal(unbroken);
    if a == spine.len() - 1 {
        lemma_connected_self(m, w, spine[a] as int);
    } else {
        lemma_spine_connected(m, w, spine, a + 1);
        lemma_connected_symmetric(m, w, spine[a + 1] as int, spine.last() as int);
        assert(adjacent(w, m.len() as int, spine[a] as int, spine[a + 1] as int));
        lemma_connected_extend(
            m,
            w,
            spine.last() as int,
            spine[a + 1] as int,
            spine[a] as int,
        );
        lemma_connected_symmetric(m, w, spine.last() as int, spine[a] as int);
    }
}

/// Everything carved along an unbroken spine hangs together with the spine's last cell.
pub proof fn lemma_painted_connected(
    m: Seq<bool>,
    w: int,
    bw: int,
    spine: Seq<usize>,
    j: int,
)
    requires
        w > 0,
        m.len() as int % w == 0,
        spine.len() > 0,
        unbroken(w, m.len() as int, spine),
        forall|b: int| 0 <= b < spine.len() ==> (#[trigger] spine[b]) < m.len(),
        forall|x: int| 0 <= x < m.len() && painted(w, bw, spine, x) ==> #[trigger] m[x],
        0 <= j < m.len(),
        painted(w, bw, spine, j),
    ensures
        connected(m, w, j, spine.last() as int),
{
    assert forall|b: int| 0 <= b < spine.len() implies (#[trigger] spine[b]) < m.len()
        && m[spine[b] as int] by {
        lemma_brush_centre(w, bw, spine[b] as int);
        assert(painted(w, bw, spine, spine[b] as int));
    }
    let a = choose|a: int| 0 <= a < spine.len() && #[trigger] in_brush(w, bw, spine[a] as int, j);
    let c = spine[a] as int;
    assert forall|x: int| 0 <= x < m.len() && #[trigger] in_brush(w, bw, c, x) implies m[x] by {
        assert(painted(w, bw, spine, x));
    }
    lemma_brush_connected(m, w, bw, c, j);
    lemma_connected_symmetric(m, w, c, j);
    lemma_spine_connected(m, w, spine, a);
    lemma_connected_transitive(m, w, j, c, spine.last() as int);
}

/// A brush covers its own centre.
pub proof fn lemma_brush_centre(w: int, bw: int, c: int)
    ensures
        in_brush(w, bw, c, c),
{
    assert(bw * bw >= 0) by (nonlinear_arith);
    let x = col(w, c) - col(w, c);
    let y = row(w, c) - row(w, c);
    assert(x * x + y * y == 0) by (nonlinear_arith)
        requires
            x == 0,
            y == 0,
    ;
}

} // verus!
