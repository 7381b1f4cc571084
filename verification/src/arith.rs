//! Whole-number arithmetic.

use vstd::prelude::*;

verus! {

/// `a / b`, rounded down.
pub fn floor_div(a: i128, b: i128) -> (q: i128)
    requires
        b > 0,
        a > i128::MIN + b,
    ensures
        q == a as int / b as int,
{
    if a >= 0 {
        a / b
    } else {
        let m: i128 = -a;
        let q: i128 = m / b;
        let r: i128 = m % b;
        proof {
            vstd::arithmetic::div_mod::lemma_fundamental_div_mod(m as int, b as int);
            if r == 0 {
                assert(a == b * (-q) + 0) by (nonlinear_arith)
                    requires
                        m == b * q + r,
                        r == 0,
                        a == -m,
                ;
                vstd::arithmetic::div_mod::lemma_fundamental_div_mod_converse(
                    a as int,
                    b as int,
                    -(q as int),
                    0,
                );
            } else {
                assert(a == b * (-q - 1) + (b - r)) by (nonlinear_arith)
                    requires
                        m == b * q + r,
                        a == -m,
                ;
                vstd::arithmetic::div_mod::lemma_fundamental_div_mod_converse(
                    a as int,
                    b as int,
                    -(q as int) - 1,
                    b - r,
                );
            }
        }
        if r == 0 {
            -q
        } else {
            -q - 1
        }
    }
}

/// `a / b`, rounded to nearest, and to the even neighbour from half way between two.
pub open spec fn evenly(a: int, b: int) -> int {
    let q = a / b;
    let r = 2 * (a % b);
    if r < b || (r == b && q % 2 == 0) {
        q
    } else {
        q + 1
    }
}

/// `a / b`, rounded to nearest; see `evenly`.
pub fn even_div(a: i128, b: i128) -> (r: i128)
    requires
        0 < b <= 0x1000_0000_0000_0000_0000_0000_0000,
        -0x1000_0000_0000_0000_0000_0000_0000 <= a <= 0x1000_0000_0000_0000_0000_0000_0000,
    ensures
        r == evenly(a as int, b as int),
        a >= 0 ==> 0 <= r <= a + 1,
        a < 0 ==> a <= r <= 0,
{
    let q: i128 = floor_div(a, b);
    proof {
        let (x, y, z) = (a as int, b as int, q as int);
        assert(x == z * y + x % y && 0 <= x % y < y && (x >= 0 ==> 0 <= z <= x) && (x < 0 ==> x
            <= z < 0)) by (nonlinear_arith)
            requires
                y > 0,
                z == x / y,
        ;
    }
    let r: i128 = 2 * (a - q * b);
    if r < b || (r == b && q % 2 == 0) {
        q
    } else {
        q + 1
    }
}

/// Whether `r` is the square root of `n`, rounded down.
pub open spec fn is_root(n: int, r: int) -> bool {
    0 <= r && r * r <= n && n < (r + 1) * (r + 1)
}

/// The square root of `n`, rounded down.
pub open spec fn root(n: int) -> int {
    choose|r: int| is_root(n, r)
}

/// There is only one square root.
pub proof fn lemma_root(n: int, r: int)
    requires
        is_root(n, r),
    ensures
        root(n) == r,
{
    let q = root(n);
    assert(is_root(n, q));
    assert(q == r) by (nonlinear_arith)
        requires
            0 <= r,
            r * r <= n,
            n < (r + 1) * (r + 1),
            0 <= q,
            q * q <= n,
            n < (q + 1) * (q + 1),
    ;
}

/// Every number from zero on has a square root.
pub proof fn lemma_is_root(n: int)
    requires
        0 <= n,
    ensures
        is_root(n, root(n)),
{
    let r = lemma_root_exists(n, 0);
    assert(is_root(n, r));
}

proof fn lemma_root_exists(n: int, k: int) -> (r: int)
    requires
        0 <= k,
        k * k <= n,
    ensures
        is_root(n, r),
    decreases n - k * k,
{
    if n < (k + 1) * (k + 1) {
        k
    } else {
        assert((k + 1) * (k + 1) > k * k) by (nonlinear_arith)
            requires
                0 <= k,
        ;
        lemma_root_exists(n, k + 1)
    }
}

/// Greater numbers have no smaller square roots.
pub proof fn lemma_root_monotone(n: int, m: int)
    requires
        0 <= n <= m,
    ensures
        root(n) <= root(m),
{
    lemma_is_root(n);
    lemma_is_root(m);
    let (a, b) = (root(n), root(m));
    assert(a <= b) by (nonlinear_arith)
        requires
            0 <= a,
            0 <= b,
            a * a <= n,
            n <= m,
            m < (b + 1) * (b + 1),
    ;
}

/// The square root of `n`, rounded down.
pub fn square_root(n: u128) -> (r: u128)
    ensures
        r * r <= n < (r + 1) * (r + 1),
        r == root(n as int),
        r <= 0xffff_ffff_ffff_ffff,
{
    let mut lo: u128 = 0;
    let mut hi: u128 = 0x1_0000_0000_0000_0000;
    proof {
        assert(0x1_0000_0000_0000_0000 * 0x1_0000_0000_0000_0000 > u128::MAX);
    }
    while hi - lo > 1
        invariant
            lo < hi <= 0x1_0000_0000_0000_0000,
            lo * lo <= n < hi * hi,
        decreases hi - lo,
    {
        let mid: u128 = lo + (hi - lo) / 2;
        proof {
            assert(mid * mid <= 0xffff_ffff_ffff_ffff * 0xffff_ffff_ffff_ffff) by (nonlinear_arith)
                requires
                    0 <= mid <= 0xffff_ffff_ffff_ffff,
            ;
        }
        if mid * mid <= n {
            lo = mid;
        } else {
            hi = mid;
        }
    }
    proof {
        lemma_root(n as int, lo as int);
    }
    lo
}

} // verus!
