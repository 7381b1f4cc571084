//! What separating a colour and seeing it come to.

use crate::inks::{Ink, Inks};
use crate::lab::{
    is_root, lab_of_light, lemma_power_monotone, light, power, response, root, Lab,
};
use crate::separation::{density_of, passed, percent_of, separated, Cmyk};
use vstd::prelude::*;

verus! {

/// Black is what all three channels lack, to the last part, and the other inks what each
/// channel lacks of the brightest: the brightest channel takes no ink of its own, and pure
/// black is black ink alone.
pub proof fn lemma_separated(r: u8, g: u8, b: u8)
    ensures
        ({
            let s = separated(r, g, b);
            &&& s.k <= 255 - r && s.k <= 255 - g && s.k <= 255 - b
            &&& s.k == 255 - r || s.k == 255 - g || s.k == 255 - b
            &&& s.c == 0 || s.m == 0 || s.y == 0
            &&& s.k < 255 ==> s.unit == 255 - s.k && s.c + r == s.unit && s.m + g == s.unit && s.y
                + b == s.unit
            &&& s.k == 255 ==> s.c == 0 && s.m == 0 && s.y == 0 && s.unit == 1
            &&& r == g && g == b ==> s.c == 0 && s.m == 0 && s.y == 0
        }),
{
}

/// A printed channel is the light that its ink and the black leave, to the nearest step.
pub proof fn lemma_passed_near(ink: u8, unit: u8, k: u8)
    requires
        unit > 0,
        ink <= unit,
    ensures
        -unit <= 2 * (passed(ink, unit, k) * unit - (unit - ink) * (255 - k)) <= unit,
{
    let (a, u) = ((unit - ink) * (255 - k), unit as int);
    assert(2 * (unit - ink) * (255 - k) == 2 * a) by (nonlinear_arith)
        requires
            a == (unit - ink) * (255 - k),
    ;
    let r = (2 * a + u) / (2 * u);
    assert(r * (2 * u) <= 2 * a + u < (r + 1) * (2 * u)) by (nonlinear_arith)
        requires
            u > 0,
            r == (2 * a + u) / (2 * u),
    ;
    assert(r * (2 * u) == 2 * (r * u) && (r + 1) * (2 * u) == 2 * (r * u) + 2 * u)
        by (nonlinear_arith);
}

/// A percentage is off by half a percent of the whole at most.
pub proof fn lemma_percent_near(part: u8, whole: u8)
    requires
        whole > 0,
    ensures
        -whole <= 2 * (percent_of(part, whole) * whole - 100 * part) <= whole,
{
    let (a, u) = (100 * part, whole as int);
    let r = (2 * a + u) / (2 * u);
    assert(r * (2 * u) <= 2 * a + u < (r + 1) * (2 * u)) by (nonlinear_arith)
        requires
            u > 0,
            r == (2 * a + u) / (2 * u),
    ;
    assert(r * (2 * u) == 2 * (r * u) && (r + 1) * (2 * u) == 2 * (r * u) + 2 * u)
        by (nonlinear_arith);
}

/// Orange takes all of the magenta and yellow that lie over each other beyond the cyan, and
/// green all of the cyan and yellow beyond the magenta: where one of them prints, what is
/// left of the two it replaces lies over each other no more than the third.
pub proof fn lemma_extended_takes_all(s: Cmyk)
    requires
        s.wf(),
    ensures
        ({
            let o = density_of(Inks::Cmykog, Ink::Orange, s);
            let g = density_of(Inks::Cmykog, Ink::Green, s);
            &&& o.whole == s.unit && g.whole == s.unit
            &&& o.part == 0 <==> s.m <= s.c || s.y <= s.c
            &&& o.part > 0 ==> s.m - o.part >= s.c && s.y - o.part >= s.c && (s.m - o.part == s.c
                || s.y - o.part == s.c)
            &&& g.part == 0 <==> s.c <= s.m || s.y <= s.m
            &&& g.part > 0 ==> s.c - g.part >= s.m && s.y - g.part >= s.m && (s.c - g.part == s.m
                || s.y - g.part == s.m)
        }),
{
}

/// The plain set prints every ink as it was separated, and has no orange and no green.
pub proof fn lemma_plain_set(s: Cmyk)
    ensures
        density_of(Inks::Cmyk, Ink::Cyan, s).part == s.c,
        density_of(Inks::Cmyk, Ink::Magenta, s).part == s.m,
        density_of(Inks::Cmyk, Ink::Yellow, s).part == s.y,
        density_of(Inks::Cmyk, Ink::Orange, s).part == 0,
        density_of(Inks::Cmyk, Ink::Green, s).part == 0,
        forall|ink: Ink, inks: Inks|
            ink != Ink::Black ==> (#[trigger] density_of(inks, ink, s)).whole == s.unit,
        forall|inks: Inks|
            (#[trigger] density_of(inks, Ink::Black, s)).part == s.k && density_of(
                inks,
                Ink::Black,
                s,
            ).whole == 255,
{
}

proof fn lemma_power_grows(a: nat, k: nat)
    requires
        k >= 1,
    ensures
        power(a, k) < power(a + 1, k),
    decreases k,
{
    let (x, y) = (power(a, (k - 1) as nat), power(a + 1, (k - 1) as nat));
    lemma_power_monotone(a, a + 1, (k - 1) as nat);
    lemma_power_positive(a + 1, (k - 1) as nat);
    assert(a * x < (a + 1) * y) by (nonlinear_arith)
        requires
            x <= y,
            y >= 1,
            a >= 0,
    ;
}

proof fn lemma_power_positive(a: nat, k: nat)
    requires
        a >= 1,
    ensures
        power(a, k) >= 1,
    decreases k,
{
    if k > 0 {
        lemma_power_positive(a, (k - 1) as nat);
        let x = power(a, (k - 1) as nat);
        assert(a * x >= 1) by (nonlinear_arith)
            requires
                a >= 1,
                x >= 1,
        ;
    }
}

/// Every number has a root of every degree, rounded down.
pub proof fn lemma_root(n: nat, k: nat)
    requires
        k >= 1,
    ensures
        power(root(n, k), k) <= n < power(root(n, k) + 1, k),
    decreases n,
{
    if n == 0 {
        let x = power(0, (k - 1) as nat);
        assert(0 * x == 0) by (nonlinear_arith);
        lemma_power_positive(1, k);
        assert(is_root(0, k, 0));
    } else {
        lemma_root((n - 1) as nat, k);
        let r = root((n - 1) as nat, k);
        lemma_power_grows(r + 1, k);
        if n < power(r + 1, k) {
            assert(is_root(n, k, r));
        } else {
            assert(is_root(n, k, r + 1));
        }
    }
}

/// A greater number has no lesser root.
pub proof fn lemma_root_order(a: nat, b: nat, k: nat)
    requires
        k >= 1,
        a <= b,
    ensures
        root(a, k) <= root(b, k),
{
    lemma_root(a, k);
    lemma_root(b, k);
    if root(b, k) < root(a, k) {
        lemma_power_monotone(root(b, k) + 1, root(a, k), k);
    }
}

/// The response to a light that is not faint is its cube root, and to a faint one a straight
/// line.
pub proof fn lemma_response(t: int)
    requires
        0 <= t,
    ensures
        ({
            let f = response(t);
            &&& t > 8_856_000 ==> 0 <= f && f * f * f <= t * 1_000_000_000 && t * 1_000_000_000 < (f
                + 1) * (f + 1) * (f + 1)
            &&& t <= 8_856_000 ==> (f - 137_931) * 1_000_000 <= 7787 * t && 7787 * t < (f - 137_930)
                * 1_000_000
        }),
{
    if t > 8_856_000 {
        let n = (t * 1_000_000_000) as nat;
        lemma_root(n, 3);
        lemma_cube(root(n, 3));
        lemma_cube(root(n, 3) + 1);
    }
}

proof fn lemma_cube(r: nat)
    ensures
        power(r, 3) == r * r * r,
{
    reveal_with_fuel(power, 4);
    assert(r * (r * (r * 1)) == r * r * r) by (nonlinear_arith);
}

/// More light never gets a weaker response.
pub proof fn lemma_response_order(a: int, b: int)
    requires
        0 <= a <= b,
    ensures
        response(a) <= response(b),
        0 <= response(a),
{
    if a > 8_856_000 {
        lemma_root_order((a * 1_000_000_000) as nat, (b * 1_000_000_000) as nat, 3);
    } else if b > 8_856_000 {
        let n = (b * 1_000_000_000) as nat;
        let r = root(n, 3);
        lemma_root(n, 3);
        lemma_cube(r + 1);
        if r < 206_893 {
            let z = r + 1;
            assert(z * z * z <= 206_893 * 206_893 * 206_893) by (nonlinear_arith)
                requires
                    0 <= z <= 206_893,
            ;
        }
    }
}

/// The light of a channel value: near black a straight line, above it the power of twelve
/// fifths of the value between its foot and full.
pub proof fn lemma_light(c: u8)
    ensures
        c <= 10 ==> light(c) * 329_460 <= c * 100_000_000_000 && c * 100_000_000_000 < (light(c) + 1)
            * 329_460,
        c > 10 ==> exists|t: int, s: int, r: nat| #[trigger] is_light(c as int, t, s, r, light(c)),
{
    if c > 10 {
        let t = (1000 * c + 14_025) * 1_000_000_000 / 269_025;
        let s = t * t / 1_000_000_000;
        assert(t * t >= 0) by (nonlinear_arith);
        let n = (s * 100_000_000_000_000_000_000_000_000) as nat;
        let r = root(n, 5);
        lemma_root(n, 5);
        let a = s * r;
        assert(light(c) == a / 10_000_000);
        assert(is_light(c as int, t, s, r, a / 10_000_000));
    }
}

/// Whether `v` is the light of value `c`, all rounded down: `t` the value between its foot and
/// full, `s` its square, and `r` the fifth root of that square.
pub open spec fn is_light(c: int, t: int, s: int, r: nat, v: int) -> bool {
    &&& t * 269_025 <= (1000 * c + 14_025) * 1_000_000_000 < (t + 1) * 269_025
    &&& s * 1_000_000_000 <= t * t < (s + 1) * 1_000_000_000
    &&& power(r, 5) <= s * 100_000_000_000_000_000_000_000_000 < power(r + 1, 5)
    &&& v * 10_000_000 <= s * r < (v + 1) * 10_000_000
}

/// A higher channel value never gives less light.
pub proof fn lemma_light_order(a: u8, b: u8)
    requires
        a <= b,
    ensures
        0 <= light(a) <= light(b),
{
    if b > 10 {
        let t = (1000 * b + 14_025) * 1_000_000_000 / 269_025;
        let s = t * t / 1_000_000_000;
        let n = (s * 100_000_000_000_000_000_000_000_000) as nat;
        assert(t >= 93_000_000);
        assert(t * t >= 8_649_000_000_000_000) by (nonlinear_arith)
            requires
                t >= 93_000_000,
        ;
        if a > 10 {
            let u = (1000 * a + 14_025) * 1_000_000_000 / 269_025;
            let q = u * u / 1_000_000_000;
            let m = (q * 100_000_000_000_000_000_000_000_000) as nat;
            assert(0 <= u * u <= t * t) by (nonlinear_arith)
                requires
                    0 <= u <= t,
            ;
            lemma_root_order(m, n, 5);
            let (x, y) = (root(m, 5) as int, root(n, 5) as int);
            assert(0 <= q * x <= s * y) by (nonlinear_arith)
                requires
                    0 <= q <= s,
                    0 <= x <= y,
            ;
        } else {
            let r = root(n, 5);
            lemma_root(n, 5);
            reveal_with_fuel(power, 6);
            assert(power(3_800_000, 5) == 3_800_000 * (3_800_000 * (3_800_000 * (3_800_000
                * 3_800_000))));
            if r + 1 <= 3_800_000 {
                lemma_power_monotone(r + 1, 3_800_000, 5);
            }
            let x = r as int;
            assert(s * x >= 8_649_000 * 3_800_000) by (nonlinear_arith)
                requires
                    s >= 8_649_000,
                    x >= 3_800_000,
            ;
        }
    }
}

proof fn lemma_response_small(t: int)
    requires
        0 <= t <= 4_000_000_000,
    ensures
        0 <= response(t) <= 2_000_000,
{
    lemma_response(t);
    lemma_response_order(0, t);
    let f = response(t);
    if t > 8_856_000 && f > 2_000_000 {
        assert(f * f * f > 4_000_000_000_000_000_000) by (nonlinear_arith)
            requires
                f > 2_000_000,
        ;
    }
}

/// Whether `c` is the colour seen where the three responses are to `x`, `y` and `z`: lightness
/// by the second alone, and the differences of the others from it.
pub open spec fn is_seen(c: Lab, x: int, y: int, z: int) -> bool {
    &&& c.l == 116 * response(y) - 16_000_000
    &&& c.a == 500 * (response(x) - response(y))
    &&& c.b == 200 * (response(y) - response(z))
}

/// A colour is seen by three mixtures of its light, each as a share of what white light makes
/// of it.
pub proof fn lemma_seen(r: int, g: int, b: int)
    requires
        0 <= r <= 2_000_000_000,
        0 <= g <= 2_000_000_000,
        0 <= b <= 2_000_000_000,
    ensures
        exists|x: int, y: int, z: int|
            {
                &&& #[trigger] is_seen(lab_of_light(r, g, b), x, y, z)
                &&& x * 95_047 <= 41_240 * r + 35_760 * g + 18_050 * b < (x + 1) * 95_047
                &&& y * 10_000 <= 2126 * r + 7152 * g + 722 * b < (y + 1) * 10_000
                &&& z * 108_883 <= 1930 * r + 11_920 * g + 95_050 * b < (z + 1) * 108_883
            },
{
    let x = (4124 * r + 3576 * g + 1805 * b) * 10 / 95_047;
    let y = (2126 * r + 7152 * g + 722 * b) / 10_000;
    let z = (193 * r + 1192 * g + 9505 * b) * 10 / 108_883;
    lemma_response_small(x);
    lemma_response_small(y);
    lemma_response_small(z);
    assert(is_seen(lab_of_light(r, g, b), x, y, z));
}

/// More light is never seen darker.
pub proof fn lemma_seen_order(r: int, g: int, b: int, p: int, q: int, s: int)
    requires
        0 <= r <= p <= 2_000_000_000,
        0 <= g <= q <= 2_000_000_000,
        0 <= b <= s <= 2_000_000_000,
    ensures
        lab_of_light(r, g, b).l <= lab_of_light(p, q, s).l,
{
    let y = (2126 * r + 7152 * g + 722 * b) / 10_000;
    let v = (2126 * p + 7152 * q + 722 * s) / 10_000;
    lemma_response_small(y);
    lemma_response_small(v);
    lemma_response_order(y, v);
}

} // verus!
