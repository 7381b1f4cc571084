//! Stable ordering by key.

use vstd::prelude::*;

verus! {

/// Whether index `a` comes before index `b`: by key, then by index.
pub open spec fn before(keys: Seq<i128>, a: int, b: int) -> bool {
    keys[a] < keys[b] || (keys[a] == keys[b] && a < b)
}

/// Whether `v` lists the indices from `lo` up to `hi`, each once, in stable key order.
pub open spec fn ordered(keys: Seq<i128>, v: Seq<usize>, lo: int, hi: int) -> bool {
    &&& v.len() == hi - lo
    &&& forall|a: int| 0 <= a < v.len() ==> lo <= #[trigger] v[a] < hi
    &&& forall|a: int, b: int|
        0 <= a < b < v.len() ==> #[trigger] before(keys, v[a] as int, v[b] as int)
    &&& forall|i: int| lo <= i < hi ==> #[trigger] v.contains(i as usize)
}

/// Joins two ordered halves.
fn merge(keys: &[i128], lo: usize, mid: usize, hi: usize, l: &Vec<usize>, r: &Vec<usize>) -> (v: Vec<
    usize,
>)
    requires
        lo <= mid <= hi <= keys@.len(),
        ordered(keys@, l@, lo as int, mid as int),
        ordered(keys@, r@, mid as int, hi as int),
    ensures
        ordered(keys@, v@, lo as int, hi as int),
{
    let mut v: Vec<usize> = Vec::new();
    let mut i: usize = 0;
    let mut j: usize = 0;
    while i < l.len() || j < r.len()
        invariant
            lo <= mid <= hi <= keys@.len(),
            ordered(keys@, l@, lo as int, mid as int),
            ordered(keys@, r@, mid as int, hi as int),
            i <= l@.len(),
            j <= r@.len(),
            v@.len() == i + j,
            forall|a: int| 0 <= a < v@.len() ==> lo <= #[trigger] v@[a] < hi,
            forall|a: int, b: int|
                0 <= a < b < v@.len() ==> #[trigger] before(keys@, v@[a] as int, v@[b] as int),
            forall|a: int, b: int|
                0 <= a < v@.len() && i <= b < l@.len() ==> #[trigger] before(
                    keys@,
                    v@[a] as int,
                    l@[b] as int,
                ),
            forall|a: int, b: int|
                0 <= a < v@.len() && j <= b < r@.len() ==> #[trigger] before(
                    keys@,
                    v@[a] as int,
                    r@[b] as int,
                ),
            forall|a: int| 0 <= a < i ==> v@.contains(#[trigger] l@[a]),
            forall|a: int| 0 <= a < j ==> v@.contains(#[trigger] r@[a]),
        decreases l@.len() - i + r@.len() - j,
    {
        let left: bool = if i >= l.len() {
            false
        } else if j >= r.len() {
            true
        } else {
            keys[l[i]] <= keys[r[j]]
        };
        let ghost v0 = v@;
        let x: usize = if left { l[i] } else { r[j] };
        v.push(x);
        proof {
            assert(v@[v0.len() as int] == x);
            assert forall|a: int| 0 <= a < i implies v@.contains(#[trigger] l@[a]) by {
                assert(v0.contains(l@[a]));
                assert(v@[v0.index_of(l@[a])] == l@[a]);
            }
            assert forall|a: int| 0 <= a < j implies v@.contains(#[trigger] r@[a]) by {
                assert(v0.contains(r@[a]));
                assert(v@[v0.index_of(r@[a])] == r@[a]);
            }
            assert forall|a: int, b: int| 0 <= a < b < v@.len() implies #[trigger] before(
                keys@,
                v@[a] as int,
                v@[b] as int,
            ) by {
                if b < v0.len() {
                    assert(before(keys@, v0[a] as int, v0[b] as int));
                } else if left {
                    assert(before(keys@, v0[a] as int, l@[i as int] as int));
                } else {
                    assert(before(keys@, v0[a] as int, r@[j as int] as int));
                }
            }
            let i2 = if left {
                i + 1
            } else {
                i as int
            };
            let j2 = if left {
                j as int
            } else {
                j + 1
            };
            assert forall|a: int, b: int|
                0 <= a < v@.len() && i2 <= b < l@.len() implies #[trigger] before(
                keys@,
                v@[a] as int,
                l@[b] as int,
            ) by {
                if a < v0.len() {
                    assert(before(keys@, v0[a] as int, l@[b] as int));
                } else if left {
                    assert(before(keys@, l@[i as int] as int, l@[b] as int));
                } else if i < b {
                    assert(before(keys@, l@[i as int] as int, l@[b] as int));
                }
            }
            assert forall|a: int, b: int|
                0 <= a < v@.len() && j2 <= b < r@.len() implies #[trigger] before(
                keys@,
                v@[a] as int,
                r@[b] as int,
            ) by {
                if a < v0.len() {
                    assert(before(keys@, v0[a] as int, r@[b] as int));
                } else if !left {
                    assert(before(keys@, r@[j as int] as int, r@[b] as int));
                } else if j < b {
                    assert(before(keys@, r@[j as int] as int, r@[b] as int));
                }
            }
        }
        if left {
            i = i + 1;
        } else {
            j = j + 1;
        }
    }
    proof {
        assert forall|x: int| lo <= x < hi implies #[trigger] v@.contains(x as usize) by {
            if x < mid {
                assert(l@.contains(x as usize));
                assert(v@.contains(l@[l@.index_of(x as usize)]));
            } else {
                assert(r@.contains(x as usize));
                assert(v@.contains(r@[r@.index_of(x as usize)]));
            }
        }
    }
    v
}

fn order_range(keys: &[i128], lo: usize, hi: usize) -> (v: Vec<usize>)
    requires
        lo <= hi <= keys@.len(),
    ensures
        ordered(keys@, v@, lo as int, hi as int),
    decreases hi - lo,
{
    if hi - lo <= 1 {
        let mut v: Vec<usize> = Vec::new();
        if lo < hi {
            v.push(lo);
            proof {
                assert(v@[0] == lo);
            }
        }
        v
    } else {
        let mid: usize = lo + (hi - lo) / 2;
        let l: Vec<usize> = order_range(keys, lo, mid);
        let r: Vec<usize> = order_range(keys, mid, hi);
        merge(keys, lo, mid, hi, &l, &r)
    }
}

/// The indices of `keys` in stable key order.
pub fn order_by_key(keys: &[i128]) -> (v: Vec<usize>)
    ensures
        ordered(keys@, v@, 0, keys@.len() as int),
{
    order_range(keys, 0, keys.len())
}

/// There is one stable key order only.
pub proof fn lemma_order_unique(keys: Seq<i128>, u: Seq<usize>, v: Seq<usize>)
    requires
        ordered(keys, u, 0, keys.len() as int),
        ordered(keys, v, 0, keys.len() as int),
        keys.len() <= usize::MAX,
    ensures
        u == v,
{
    lemma_order_agree(keys, u, v, u.len() as int);
    assert(u =~= v);
}

proof fn lemma_order_agree(keys: Seq<i128>, u: Seq<usize>, v: Seq<usize>, k: int)
    requires
        ordered(keys, u, 0, keys.len() as int),
        ordered(keys, v, 0, keys.len() as int),
        keys.len() <= usize::MAX,
        0 <= k <= u.len(),
    ensures
        forall|a: int| 0 <= a < k ==> u[a] == v[a],
    decreases k,
{
    if k > 0 {
        lemma_order_agree(keys, u, v, k - 1);
        let a = k - 1;
        if u[a] != v[a] {
            assert(v.contains(u[a] as int as usize));
            let b = v.index_of(u[a]);
            assert(v[b] == u[a]);
            if b < a {
                assert(u[b] == v[b]);
                assert(before(keys, u[b] as int, u[a] as int));
            }
            assert(before(keys, v[a] as int, v[b] as int));
            assert(u.contains(v[a] as int as usize));
            let c = u.index_of(v[a]);
            assert(u[c] == v[a]);
            if c < a {
                assert(u[c] == v[c]);
                assert(before(keys, v[c] as int, v[a] as int));
            }
            assert(before(keys, u[a] as int, u[c] as int));
        }
    }
}

} // verus!
