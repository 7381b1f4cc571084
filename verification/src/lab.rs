//! Colours as they are seen: sRGB to CIELAB, in whole millionths.

use vstd::prelude::*;

verus! {

/// One billion: the unit of light.
pub const GIGA: u64 = 1_000_000_000;

/// A colour in CIELAB; every field counts millionths.
#[derive(Clone, Copy, Debug, PartialEq, Eq, Structural)]
pub struct Lab {
    pub l: i64,
    pub a: i64,
    pub b: i64,
}

/// `r` to the power `k`.
pub open spec fn power(r: nat, k: nat) -> nat
    decreases k,
{
    if k == 0 {
        1
    } else {
        r * power(r, (k - 1) as nat)
    }
}

/// Whether `r` is the root of degree `k` of `n`, rounded down.
pub open spec fn is_root(n: nat, k: nat, r: nat) -> bool {
    power(r, k) <= n < power(r + 1, k)
}

/// The root of degree `k` of `n`, rounded down.
pub open spec fn root(n: nat, k: nat) -> nat {
    choose|r: nat| is_root(n, k, r)
}

pub proof fn lemma_power_monotone(a: nat, b: nat, k: nat)
    requires
        a <= b,
    ensures
        power(a, k) <= power(b, k),
    decreases k,
{
    if k > 0 {
        lemma_power_monotone(a, b, (k - 1) as nat);
        let x = power(a, (k - 1) as nat);
        let y = power(b, (k - 1) as nat);
        assert(a * x <= b * y) by (nonlinear_arith)
            requires
                a <= b,
                x <= y,
        ;
    }
}

pub proof fn lemma_root_unique(n: nat, k: nat, r: nat)
    requires
        is_root(n, k, r),
    ensures
        root(n, k) == r,
{
    let s = root(n, k);
    assert(is_root(n, k, s));
    if s < r {
        lemma_power_monotone(s + 1, r, k);
    }
    if r < s {
        lemma_power_monotone(r + 1, s, k);
    }
}

/// `r` to the power `k`.
fn raise(r: u64, k: u64) -> (p: u128)
    requires
        r <= 0x100_0000,
        k <= 5,
    ensures
        p == power(r as nat, k as nat),
{
    let mut p: u128 = 1;
    proof {
        reveal_with_fuel(power, 6);
    }
    let mut i: u64 = 0;
    while i < k
        invariant
            r <= 0x100_0000,
            i <= k <= 5,
            p == power(r as nat, i as nat),
            p <= power(0x100_0000, i as nat),
        decreases k - i,
    {
        proof {
            reveal_with_fuel(power, 6);
            let top = power(0x100_0000, i as nat);
            assert(top <= 0x1_0000_0000_0000_0000_0000_0000) by {
                if i == 0 {
                } else if i == 1 {
                    assert(top == 0x100_0000);
                } else if i == 2 {
                    assert(top == 0x100_0000 * (0x100_0000 * 1));
                } else if i == 3 {
                    assert(top == 0x100_0000 * (0x100_0000 * (0x100_0000 * 1)));
                } else {
                    assert(top == 0x100_0000 * (0x100_0000 * (0x100_0000 * (0x100_0000 * 1))));
                }
            }
            assert(r * p <= 0x100_0000 * top && 0 <= r * p) by (nonlinear_arith)
                requires
                    0 <= r <= 0x100_0000,
                    0 <= p <= top,
            ;
            assert(p * r == r * p) by (nonlinear_arith);
        }
        p = p * r as u128;
        i = i + 1;
    }
    p
}

/// The root of degree `k` of `n`, rounded down.
fn find_root(n: u128, k: u64) -> (r: u64)
    requires
        1 <= k <= 5,
        n < power(0x100_0000, k as nat),
    ensures
        r == root(n as nat, k as nat),
        r < 0x100_0000,
{
    let mut lo: u64 = 0;
    let mut hi: u64 = 0x100_0000;
    proof {
        reveal_with_fuel(power, 6);
        assert(power(0, k as nat) == 0 * power(0, (k - 1) as nat));
    }
    while hi - lo > 1
        invariant
            lo < hi <= 0x100_0000,
            1 <= k <= 5,
            power(lo as nat, k as nat) <= n,
            n < power(hi as nat, k as nat),
        decreases hi - lo,
    {
        let mid: u64 = lo + (hi - lo) / 2;
        if raise(mid, k) <= n {
            lo = mid;
        } else {
            hi = mid;
        }
    }
    proof {
        assert(hi == lo + 1);
        lemma_root_unique(n as nat, k as nat, lo as nat);
    }
    lo
}

/// The light of an sRGB channel value, in billionths: the straight foot below 0.04045, and
/// above it the power 2.4 taken as a square and its fifth root.
pub open spec fn light(c: u8) -> int {
    if c <= 10 {
        c * 100_000_000_000 / 329_460
    } else {
        let t = (1000 * c + 14_025) * 1_000_000_000 / 269_025;
        let s = t * t / 1_000_000_000;
        s * root((s * 100_000_000_000_000_000_000_000_000) as nat, 5) / 10_000_000
    }
}

proof fn lemma_powers()
    ensures
        power(0x100_0000, 5) == 0x1_0000_0000_0000_0000_0000_0000_0000_00,
        power(0x100_0000, 3) == 0x1_0000_0000_0000_0000_00,
{
    reveal_with_fuel(power, 6);
    assert(power(0x100_0000, 1) == 0x100_0000);
    assert(power(0x100_0000, 2) == 0x100_0000 * 0x100_0000);
    assert(power(0x100_0000, 3) == 0x100_0000 * 0x1_0000_0000_0000);
    assert(power(0x100_0000, 4) == 0x100_0000 * 0x1_0000_0000_0000_0000_00);
    assert(power(0x100_0000, 5) == 0x100_0000 * 0x1_0000_0000_0000_0000_0000_0000);
}

/// The light of an sRGB channel value; see `light`.
pub fn linear(c: u8) -> (v: u64)
    ensures
        v == light(c),
        v <= 2 * GIGA,
{
    if c <= 10 {
        c as u64 * 100_000_000_000 / 329_460
    } else {
        let t: u64 = (1000 * c as u64 + 14_025) * GIGA / 269_025;
        proof {
            assert(t <= 1_000_000_000);
            assert(t * t <= 1_000_000_000_000_000_000) by (nonlinear_arith)
                requires
                    0 <= t <= 1_000_000_000,
            ;
        }
        let s: u64 = t * t / GIGA;
        proof {
            lemma_powers();
        }
        let r: u64 = find_root(s as u128 * 100_000_000_000_000_000_000_000_000, 5);
        proof {
            assert(s * r <= 1_000_000_000 * 0x100_0000) by (nonlinear_arith)
                requires
                    0 <= s <= 1_000_000_000,
                    0 <= r <= 0x100_0000,
            ;
        }
        s * r / 10_000_000
    }
}

/// The response to `t` billionths of a light, in millionths: its cube root, or the straight
/// foot below 0.008856.
pub open spec fn response(t: int) -> int {
    if t > 8_856_000 {
        root((t * 1_000_000_000) as nat, 3) as int
    } else {
        7787 * t / 1_000_000 + 137_931
    }
}

fn respond(t: u64) -> (f: i64)
    requires
        t <= 4 * GIGA,
    ensures
        f == response(t as int),
        0 <= f < 0x100_0000,
{
    if t > 8_856_000 {
        proof {
            lemma_powers();
        }
        find_root(t as u128 * 1_000_000_000, 3) as i64
    } else {
        (7787 * t / 1_000_000 + 137_931) as i64
    }
}

/// The CIELAB colour, by D65 white, of the given light of red, green and blue.
pub open spec fn lab_of_light(r: int, g: int, b: int) -> Lab {
    let fx = response((4124 * r + 3576 * g + 1805 * b) * 10 / 95_047);
    let fy = response((2126 * r + 7152 * g + 722 * b) / 10_000);
    let fz = response((193 * r + 1192 * g + 9505 * b) * 10 / 108_883);
    Lab {
        l: (116 * fy - 16_000_000) as i64,
        a: (500 * (fx - fy)) as i64,
        b: (200 * (fy - fz)) as i64,
    }
}

/// The CIELAB colour of an sRGB one.
pub open spec fn lab_of(r: u8, g: u8, b: u8) -> Lab {
    lab_of_light(light(r), light(g), light(b))
}

/// Whether all parts of a colour lie within the range that differences can square.
pub open spec fn lab_bounded(c: Lab) -> bool {
    &&& -10_000_000_000 < c.l < 10_000_000_000
    &&& -10_000_000_000 < c.a < 10_000_000_000
    &&& -10_000_000_000 < c.b < 10_000_000_000
}

fn light_to_lab(r: u64, g: u64, b: u64) -> (c: Lab)
    requires
        r <= 2 * GIGA,
        g <= 2 * GIGA,
        b <= 2 * GIGA,
    ensures
        c == lab_of_light(r as int, g as int, b as int),
        lab_bounded(c),
{
    let fx: i64 = respond((4124 * r + 3576 * g + 1805 * b) * 10 / 95_047);
    let fy: i64 = respond((2126 * r + 7152 * g + 722 * b) / 10_000);
    let fz: i64 = respond((193 * r + 1192 * g + 9505 * b) * 10 / 108_883);
    Lab { l: 116 * fy - 16_000_000, a: 500 * (fx - fy), b: 200 * (fy - fz) }
}

/// The CIELAB colour of an sRGB one: the space in which distances are those the eye sees.
pub fn rgb_to_lab(r: u8, g: u8, b: u8) -> (c: Lab)
    ensures
        c == lab_of(r, g, b),
        lab_bounded(c),
{
    light_to_lab(linear(r), linear(g), linear(b))
}

/// The CIELAB colours of some pixels.
pub open spec fn labs_of(pixels: Seq<[u8; 3]>) -> Seq<Lab> {
    Seq::new(pixels.len(), |i: int| lab_of(pixels[i]@[0], pixels[i]@[1], pixels[i]@[2]))
}

/// The CIELAB colours of some pixels.
pub fn pixels_to_lab(pixels: &[[u8; 3]]) -> (r: Vec<Lab>)
    ensures
        r@ == labs_of(pixels@),
        forall|i: int| 0 <= i < r@.len() ==> lab_bounded(#[trigger] r@[i]),
{
    let mut table: Vec<u64> = Vec::new();
    let mut c: usize = 0;
    while c < 256
        invariant
            c <= 256,
            table@.len() == c,
            forall|i: int|
                0 <= i < c ==> #[trigger] table@[i] == light(i as u8) && table@[i] <= 2 * GIGA,
        decreases 256 - c,
    {
        table.push(linear(c as u8));
        c = c + 1;
    }
    let mut r: Vec<Lab> = Vec::new();
    for i in 0..pixels.len()
        invariant
            table@.len() == 256,
            forall|i: int|
                0 <= i < 256 ==> #[trigger] table@[i] == light(i as u8) && table@[i] <= 2 * GIGA,
            r@.len() == i,
            forall|j: int|
                0 <= j < i ==> #[trigger] r@[j] == labs_of(pixels@)[j] && lab_bounded(r@[j]),
    {
        let p: [u8; 3] = pixels[i];
        r.push(light_to_lab(table[p[0] as usize], table[p[1] as usize], table[p[2] as usize]));
    }
    proof {
        assert(r@ =~= labs_of(pixels@));
    }
    r
}

/// The squared distance between two colours.
pub open spec fn lab_dist(a: Lab, b: Lab) -> int {
    (a.l - b.l) * (a.l - b.l) + (a.a - b.a) * (a.a - b.a) + (a.b - b.b) * (a.b - b.b)
}

/// The squared distance between two colours.
pub fn lab_distance(a: &Lab, b: &Lab) -> (d: i128)
    requires
        lab_bounded(*a),
        lab_bounded(*b),
    ensures
        d == lab_dist(*a, *b),
        d >= 0,
{
    let l: i128 = a.l as i128 - b.l as i128;
    let m: i128 = a.a as i128 - b.a as i128;
    let n: i128 = a.b as i128 - b.b as i128;
    proof {
        lemma_square(l as int);
        lemma_square(m as int);
        lemma_square(n as int);
    }
    l * l + m * m + n * n
}

proof fn lemma_square(x: int)
    by (nonlinear_arith)
    requires
        -20_000_000_000 < x < 20_000_000_000,
    ensures
        0 <= x * x <= 400_000_000_000_000_000_000,
{
}

} // verus!
