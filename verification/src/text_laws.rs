//! What numbers, polygons and curves read as once they are written.

use crate::arith::evenly;
use crate::curve::Cubic;
use crate::paper::PaperLayout;
use crate::svg::{
    curve_text, hole_radius, label_size, mark_inset, piece_text, pieces_to, point_text,
    polygon_text, polygon_to, polygons_to, ribbons_text, Ribbon,
};
use crate::text::{decimal, digit, fixed, hex_byte, hex_digit, padded, ten_to};
use crate::trace::Point;
use vstd::prelude::*;

verus! {

/// Whether a character is a decimal digit.
pub open spec fn is_digit(c: char) -> bool {
    '0' as u32 <= c as u32 <= '9' as u32
}

/// The number that decimal digits read as.
pub open spec fn read_digits(s: Seq<char>) -> int
    decreases s.len(),
{
    if s.len() == 0 {
        0
    } else {
        10 * read_digits(s.drop_last()) + (s.last() as u32 - '0' as u32)
    }
}

/// Whether all characters are decimal digits.
pub open spec fn all_digits(s: Seq<char>) -> bool {
    forall|i: int| 0 <= i < s.len() ==> is_digit(#[trigger] s[i])
}

proof fn lemma_digit(d: int)
    requires
        0 <= d < 10,
    ensures
        is_digit(digit(d)),
        digit(d) as u32 == '0' as u32 + d,
{
}

/// A number in decimal reads as itself: it is made of digits alone, and starts with a zero
/// only where it is nothing else.
pub proof fn lemma_decimal_reads(n: nat)
    ensures
        all_digits(decimal(n)),
        read_digits(decimal(n)) == n,
        decimal(n).len() > 0,
        decimal(n)[0] == '0' <==> n == 0,
        n == 0 ==> decimal(n).len() == 1,
    decreases n,
{
    lemma_digit(n as int % 10);
    let s = decimal(n);
    if n < 10 {
        lemma_digit(n as int);
        assert(s.drop_last() =~= Seq::empty());
        assert(read_digits(s.drop_last()) == 0);
    } else {
        lemma_decimal_reads(n / 10);
        assert(s.drop_last() =~= decimal(n / 10));
        assert(s[0] == decimal(n / 10)[0]);
    }
}

/// The last digits of a number, with zeros in front, read as what is left of it beyond the
/// power of ten.
pub proof fn lemma_padded_reads(n: nat, k: nat)
    ensures
        all_digits(padded(n, k)),
        padded(n, k).len() == k,
        ten_to(k) > 0,
        read_digits(padded(n, k)) == n as int % ten_to(k) as int,
    decreases k,
{
    if k > 0 {
        lemma_padded_reads(n / 10, (k - 1) as nat);
        lemma_digit(n as int % 10);
        let s = padded(n, k);
        assert(s.drop_last() =~= padded(n / 10, (k - 1) as nat));
        let (a, p) = (n as int, ten_to((k - 1) as nat) as int);
        assert(10 * ((a / 10) % p) + a % 10 == a % (10 * p)) by {
            vstd::arithmetic::div_mod::lemma_breakdown(a, 10, p);
        }
    } else {
        assert(n as int % 1 == 0);
    }
}

/// Whether `s` reads as `v` units of which `ten_to(k)` make one: a minus sign where it is
/// negative, the whole, a point, and `k` decimals.
pub open spec fn reads_fixed(s: Seq<char>, v: int, k: nat, whole: Seq<char>, part: Seq<char>) -> bool {
    &&& all_digits(whole) && whole.len() > 0
    &&& all_digits(part) && part.len() == k
    &&& read_digits(whole) * ten_to(k) + read_digits(part) == if v < 0 {
        -v
    } else {
        v
    }
    &&& v < 0 ==> s == seq!['-'] + whole + seq!['.'] + part
    &&& v >= 0 ==> s == whole + seq!['.'] + part
}

/// A number written with decimals reads as itself.
pub proof fn lemma_fixed_reads(v: int, k: nat)
    ensures
        exists|whole: Seq<char>, part: Seq<char>| #[trigger]
            reads_fixed(fixed(v, k), v, k, whole, part),
{
    let a = if v < 0 {
        (-v) as nat
    } else {
        v as nat
    };
    let t = ten_to(k);
    let (whole, part) = (decimal(a / t), padded(a % t, k));
    lemma_padded_reads(a % t, k);
    lemma_decimal_reads(a / t);
    let (x, y) = (a as int, t as int);
    vstd::arithmetic::div_mod::lemma_fundamental_div_mod(x, y);
    assert((x / y) * y == y * (x / y)) by (nonlinear_arith);
    vstd::arithmetic::div_mod::lemma_small_mod((a % t) as nat, t);
    let s = fixed(v, k);
    if v < 0 {
        assert(s =~= seq!['-'] + whole + seq!['.'] + part);
    } else {
        assert(s =~= whole + seq!['.'] + part);
    }
    assert(reads_fixed(s, v, k, whole, part));
}

/// Rounding goes to the nearest, and from half way to the even one.
pub proof fn lemma_evenly(a: int, b: int)
    requires
        b > 0,
    ensures
        -b <= 2 * (evenly(a, b) * b - a) <= b,
        2 * (evenly(a, b) * b - a) == b || 2 * (evenly(a, b) * b - a) == -b ==> evenly(a, b) % 2
            == 0,
{
    let q = a / b;
    vstd::arithmetic::div_mod::lemma_fundamental_div_mod(a, b);
    assert(b * q == q * b && (q + 1) * b == q * b + b) by (nonlinear_arith);
}

/// How many characters the first `k` points of a polygon take.
pub open spec fn offset(pts: Seq<Point>, k: int) -> int
    decreases k,
{
    if k <= 0 {
        0
    } else {
        offset(pts, k - 1) + point_text(pts[k - 1]).len() + 2
    }
}

proof fn lemma_polygon_to(pts: Seq<Point>, k: int, n: int)
    requires
        0 <= k < n <= pts.len(),
    ensures
        polygon_to(pts, n).len() == offset(pts, n),
        0 <= offset(pts, k) <= offset(pts, k + 1) <= offset(pts, n),
        polygon_to(pts, n).subrange(offset(pts, k), offset(pts, k + 1)) == seq![
            if k == 0 {
                'M'
            } else {
                'L'
            },
        ] + point_text(pts[k]) + seq![' '],
    decreases n,
{
    if n > 1 {
        if k < n - 1 {
            lemma_polygon_to(pts, k, n - 1);
        } else {
            lemma_polygon_to(pts, 0, n - 1);
        }
    }
    let s = polygon_to(pts, n);
    let t = polygon_to(pts, n - 1);
    assert(n == 1 ==> t.len() == 0);
    let last = seq![
        if n == 1 {
            'M'
        } else {
            'L'
        },
    ] + point_text(pts[n - 1]) + seq![' '];
    assert(s =~= t + last);
    if k < n - 1 {
        assert(s.subrange(offset(pts, k), offset(pts, k + 1)) =~= t.subrange(
            offset(pts, k),
            offset(pts, k + 1),
        ));
    } else {
        assert(s.subrange(offset(pts, k), offset(pts, k + 1)) =~= last);
    }
}

/// A polygon is written point by point, none left out: the first is moved to, every other one
/// drawn to, each with both coordinates, and at the end it is closed.
pub proof fn lemma_polygon_written(pts: Seq<Point>, k: int)
    requires
        0 <= k < pts.len(),
    ensures
        ({
            let s = polygon_text(pts);
            let n = offset(pts, pts.len() as int);
            &&& s.len() == n + 2
            &&& s.subrange(n, n + 2) == seq!['Z', ' ']
            &&& 0 <= offset(pts, k) < offset(pts, k + 1) <= n
            &&& s.subrange(offset(pts, k), offset(pts, k + 1)) == seq![
                if k == 0 {
                    'M'
                } else {
                    'L'
                },
            ] + fixed(pts[k].0 as int, 3) + seq![' '] + fixed(pts[k].1 as int, 3) + seq![' ']
        }),
{
    reveal(polygon_text);
    reveal(point_text);
    reveal_strlit("Z ");
    let n = pts.len() as int;
    lemma_polygon_to(pts, k, n);
    let s = polygon_text(pts);
    let t = polygon_to(pts, n);
    assert(s.subrange(offset(pts, n), offset(pts, n) + 2) =~= seq!['Z', ' ']);
    assert(s.subrange(offset(pts, k), offset(pts, k + 1)) =~= t.subrange(
        offset(pts, k),
        offset(pts, k + 1),
    ));
    assert(point_text(pts[k]) =~= fixed(pts[k].0 as int, 3) + seq![' '] + fixed(
        pts[k].1 as int,
        3,
    ));
    let m = if k == 0 {
        'M'
    } else {
        'L'
    };
    assert(seq![m] + point_text(pts[k]) + seq![' '] =~= seq![m] + fixed(pts[k].0 as int, 3) + seq![
        ' ',
    ] + fixed(pts[k].1 as int, 3) + seq![' ']);
}

/// How many characters the first `k` ribbons take.
pub open spec fn ribbon_offset(ribbons: Seq<Ribbon>, k: int) -> int
    decreases k,
{
    if k <= 0 {
        0
    } else {
        ribbon_offset(ribbons, k - 1) + polygon_text(ribbons[k - 1].pts@).len()
    }
}

proof fn lemma_polygons_to(ribbons: Seq<Ribbon>, k: int, n: int)
    requires
        0 <= k < n <= ribbons.len(),
    ensures
        polygons_to(ribbons, n).len() == ribbon_offset(ribbons, n),
        0 <= ribbon_offset(ribbons, k) <= ribbon_offset(ribbons, k + 1) <= ribbon_offset(
            ribbons,
            n,
        ),
        polygons_to(ribbons, n).subrange(ribbon_offset(ribbons, k), ribbon_offset(ribbons, k + 1))
            == polygon_text(ribbons[k].pts@),
    decreases n,
{
    if n > 1 {
        if k < n - 1 {
            lemma_polygons_to(ribbons, k, n - 1);
        } else {
            lemma_polygons_to(ribbons, 0, n - 1);
        }
    }
    let s = polygons_to(ribbons, n);
    let t = polygons_to(ribbons, n - 1);
    assert(n == 1 ==> t.len() == 0);
    let (a, b) = (ribbon_offset(ribbons, k), ribbon_offset(ribbons, k + 1));
    if k < n - 1 {
        assert(s.subrange(a, b) =~= t.subrange(a, b));
    } else {
        assert(s.subrange(a, b) =~= polygon_text(ribbons[k].pts@));
    }
}

/// The path of a sheet holds the outline of every ribbon, one after the other, and nothing
/// else, filled with the sheet's colour.
pub proof fn lemma_ribbons_written(ribbons: Seq<Ribbon>, fill: Seq<char>, k: int)
    requires
        0 <= k < ribbons.len(),
    ensures
        ({
            let s = ribbons_text(ribbons, fill);
            let front = "<path fill=\""@ + fill + "\" d=\""@;
            let (a, b) = (ribbon_offset(ribbons, k), ribbon_offset(ribbons, k + 1));
            let n = ribbon_offset(ribbons, ribbons.len() as int);
            let f = front.len() as int;
            &&& s.len() == f + n + "\"/>\n"@.len()
            &&& s.subrange(0, f) == front
            &&& s.subrange(f + a, f + b) == polygon_text(ribbons[k].pts@)
            &&& s.subrange(f + n, s.len() as int) == "\"/>\n"@
        }),
{
    reveal(ribbons_text);
    let n = ribbons.len() as int;
    lemma_polygons_to(ribbons, k, n);
    let s = ribbons_text(ribbons, fill);
    let t = polygons_to(ribbons, n);
    let front = "<path fill=\""@ + fill + "\" d=\""@;
    let f = front.len() as int;
    let (a, b) = (ribbon_offset(ribbons, k), ribbon_offset(ribbons, k + 1));
    assert(s =~= front + t + "\"/>\n"@);
    assert(s.subrange(0, f) =~= front);
    assert(s.subrange(f + a, f + b) =~= t.subrange(a, b));
    assert(s.subrange(f + t.len(), s.len() as int) =~= "\"/>\n"@);
}

/// A sheet's label is three fifths of the inset high, but no less than two millimetres and no
/// more than six, to the nearest hundredth.
pub proof fn lemma_label_size(inset: int)
    ensures
        200 <= label_size(inset) <= 600,
        200 < label_size(inset) < 600 ==> -50_000 <= label_size(inset) * 100_000 - 6 * inset
            <= 50_000,
        label_size(inset) == 200 ==> 6 * inset <= 20_050_000,
        label_size(inset) == 600 ==> 6 * inset >= 59_950_000,
{
    let x = if 6 * inset < 20_000_000 {
        20_000_000
    } else if 6 * inset > 60_000_000 {
        60_000_000
    } else {
        6 * inset
    };
    lemma_evenly(x, 100_000);
}

/// Marks lie far enough in that a hole of no more than a centimetre stays two millimetres clear
/// of the edge, and, where there is room for that, a quarter of the blank strip beyond the hole
/// but no more than twelve millimetres in.
pub proof fn lemma_inset(l: PaperLayout, r: int)
    ensures
        ({
            let i = mark_inset(l, r);
            let paper = if l.paper_w <= l.paper_h {
                l.paper_w
            } else {
                l.paper_h
            };
            let art = if l.art_w <= l.art_h {
                l.art_w
            } else {
                l.art_h
            };
            &&& r <= 10_000_000 ==> i >= r + 2_000_000
            &&& i <= 12_000_000 || i == r + 2_000_000
            &&& r + 2_000_000 < i < 12_000_000 ==> 4 * (i - r) <= paper - art < 4 * (i - r + 1)
            &&& i == 12_000_000 && r < 10_000_000 ==> paper - art >= 4 * (12_000_000 - r)
            &&& i == r + 2_000_000 && r < 10_000_000 ==> paper - art < 4 * 2_000_001
        }),
        hole_radius(r) >= 500_000,
        hole_radius(r) >= r,
        hole_radius(r) == r || hole_radius(r) == 500_000,
{
}

/// The value of a hexadecimal digit in lower case.
pub open spec fn hex_value(c: char) -> int {
    if is_digit(c) {
        c as u32 - '0' as u32
    } else {
        c as u32 - 'a' as u32 + 10
    }
}

/// A byte reads as its two hexadecimal digits, the higher first.
pub proof fn lemma_hex_reads(b: u8)
    ensures
        hex_byte(b).len() == 2,
        16 * hex_value(hex_byte(b)[0]) + hex_value(hex_byte(b)[1]) == b,
        forall|i: int|
            0 <= i < 2 ==> is_digit(#[trigger] hex_byte(b)[i]) || 'a' as u32 <= hex_byte(b)[i] as u32
                <= 'f' as u32,
{
    let (h, l) = (b as int / 16, b as int % 16);
    lemma_hex_digit(h);
    lemma_hex_digit(l);
}

proof fn lemma_hex_digit(d: int)
    requires
        0 <= d < 16,
    ensures
        hex_value(hex_digit(d)) == d,
        is_digit(hex_digit(d)) || 'a' as u32 <= hex_digit(d) as u32 <= 'f' as u32,
{
    if d < 10 {
        lemma_digit(d);
    }
}

/// How many characters the first `k` pieces of a curve take.
pub open spec fn piece_offset(segs: Seq<Cubic>, k: int) -> int
    decreases k,
{
    if k <= 0 {
        0
    } else {
        piece_offset(segs, k - 1) + piece_text(segs[k - 1]).len()
    }
}

proof fn lemma_pieces_to(segs: Seq<Cubic>, k: int, n: int)
    requires
        0 <= k < n <= segs.len(),
    ensures
        pieces_to(segs, n).len() == piece_offset(segs, n),
        0 <= piece_offset(segs, k) <= piece_offset(segs, k + 1) <= piece_offset(segs, n),
        pieces_to(segs, n).subrange(piece_offset(segs, k), piece_offset(segs, k + 1)) == piece_text(
            segs[k],
        ),
    decreases n,
{
    if n > 1 {
        if k < n - 1 {
            lemma_pieces_to(segs, k, n - 1);
        } else {
            lemma_pieces_to(segs, 0, n - 1);
        }
    }
    let s = pieces_to(segs, n);
    let t = pieces_to(segs, n - 1);
    assert(n == 1 ==> t.len() == 0);
    let (a, b) = (piece_offset(segs, k), piece_offset(segs, k + 1));
    if k < n - 1 {
        assert(s.subrange(a, b) =~= t.subrange(a, b));
    } else {
        assert(s.subrange(a, b) =~= piece_text(segs[k]));
    }
}

/// A curve is written piece by piece, none left out: it is moved to its start, every piece is
/// drawn with both control points and its end, and at the end it is closed.
pub proof fn lemma_curve_written(start: Point, segs: Seq<Cubic>, k: int)
    requires
        0 <= k < segs.len(),
    ensures
        ({
            let s = curve_text(start, segs);
            let f = point_text(start).len() as int + 2;
            let n = piece_offset(segs, segs.len() as int);
            let g = segs[k];
            &&& s.len() == f + n + 2
            &&& s.subrange(0, f) == seq!['M'] + point_text(start) + seq![' ']
            &&& s.subrange(f + piece_offset(segs, k), f + piece_offset(segs, k + 1)) == seq!['C']
                + point_text(g.c1) + seq![' '] + point_text(g.c2) + seq![' '] + point_text(g.p)
                + seq![' ']
            &&& s.subrange(f + n, f + n + 2) == seq!['Z', ' ']
        }),
{
    reveal(curve_text);
    reveal(piece_text);
    reveal_strlit("Z ");
    let n = segs.len() as int;
    lemma_pieces_to(segs, k, n);
    let s = curve_text(start, segs);
    let t = pieces_to(segs, n);
    let front = seq!['M'] + point_text(start) + seq![' '];
    let f = front.len() as int;
    let (a, b) = (piece_offset(segs, k), piece_offset(segs, k + 1));
    assert(s =~= front + t + "Z "@);
    assert(s.subrange(0, f) =~= front);
    assert(s.subrange(f + a, f + b) =~= t.subrange(a, b));
    assert(s.subrange(f + t.len(), f + t.len() + 2) =~= seq!['Z', ' ']);
}

} // verus!
