//! Cut paths as SVG documents. Coordinates of the artwork count thousandths of a pixel; those
//! of marks count millionths, of a pixel or of a millimetre. All are written with three
//! decimals, and what lies half way between two goes to the even one.

use crate::arith::{even_div, evenly};
use crate::grid::MAX_SIDE;
use crate::paper::{layout_ok, PaperLayout};
use crate::text::{decimal, fixed, push_decimal, push_fixed};
use crate::trace::{rings_ok, Point};
use crate::curve::{smooth_ring, smoothed, Cubic, Curve};
use vstd::prelude::*;
use vstd::string::*;

verus! {

/// The farthest a coordinate of a mark may lie from 0.
pub const MAX_MARK: i64 = 0x1000_0000_0000_0000;

/// One cut: a closed polygon.
pub struct Ribbon {
    pub pts: Vec<Point>,
}

/// A point as text.
#[verifier::opaque]
pub open spec fn point_text(p: Point) -> Seq<char> {
    fixed(p.0 as int, 3).push(' ') + fixed(p.1 as int, 3)
}

fn push_point(s: &mut String, x: i64, y: i64)
    ensures
        final(s)@ == old(s)@ + point_text((x, y)),
{
    proof {
        reveal(point_text);
    }
    let ghost s0 = s@;
    push_fixed(s, x, 3);
    s.push(' ');
    push_fixed(s, y, 3);
    proof {
        assert(s@ =~= s0 + point_text((x, y)));
    }
}

/// The first `k` points of a polygon as path commands.
pub open spec fn polygon_to(pts: Seq<Point>, k: int) -> Seq<char>
    decreases k,
{
    if k <= 0 {
        Seq::empty()
    } else {
        polygon_to(pts, k - 1) + seq![if k == 1 { 'M' } else { 'L' }] + point_text(
            pts[k - 1],
        ) + seq![' ']
    }
}

/// A polygon as path commands; one without points makes none.
#[verifier::opaque]
pub open spec fn polygon_text(pts: Seq<Point>) -> Seq<char> {
    if pts.len() == 0 {
        Seq::empty()
    } else {
        polygon_to(pts, pts.len() as int) + "Z "@
    }
}

fn push_polygon(s: &mut String, pts: &Vec<Point>)
    ensures
        final(s)@ == old(s)@ + polygon_text(pts@),
{
    proof {
        reveal(polygon_text);
    }
    let ghost s0 = s@;
    for k in 0..pts.len()
        invariant
            s@ == s0 + polygon_to(pts@, k as int),
    {
        s.push(if k == 0 { 'M' } else { 'L' });
        let p: Point = pts[k];
        push_point(s, p.0, p.1);
        s.push(' ');
        proof {
            assert(s@ =~= s0 + polygon_to(pts@, k + 1));
        }
    }
    if pts.len() > 0 {
        s.append("Z ");
    }
    proof {
        assert(s@ =~= s0 + polygon_text(pts@));
    }
}

/// The polygons of the first `k` ribbons.
pub open spec fn polygons_to(ribbons: Seq<Ribbon>, k: int) -> Seq<char>
    decreases k,
{
    if k <= 0 {
        Seq::empty()
    } else {
        polygons_to(ribbons, k - 1) + polygon_text(ribbons[k - 1].pts@)
    }
}

/// All ribbons as one filled path.
#[verifier::opaque]
pub open spec fn ribbons_text(ribbons: Seq<Ribbon>, fill: Seq<char>) -> Seq<char> {
    "<path fill=\""@ + fill + "\" d=\""@ + polygons_to(ribbons, ribbons.len() as int) + "\"/>\n"@
}

fn push_ribbons(s: &mut String, ribbons: &[Ribbon], fill: &str)
    ensures
        final(s)@ == old(s)@ + ribbons_text(ribbons@, fill@),
{
    proof {
        reveal(ribbons_text);
    }
    let ghost s0 = s@;
    s.append("<path fill=\"");
    s.append(fill);
    s.append("\" d=\"");
    let ghost head = s@;
    for k in 0..ribbons.len()
        invariant
            s@ == head + polygons_to(ribbons@, k as int),
    {
        push_polygon(s, &ribbons[k].pts);
        proof {
            assert(s@ =~= head + polygons_to(ribbons@, k + 1));
        }
    }
    s.append("\"/>\n");
    proof {
        assert(s@ =~= s0 + ribbons_text(ribbons@, fill@));
    }
}

/// A coordinate of a mark as text.
pub open spec fn mark_text(v: int) -> Seq<char> {
    fixed(evenly(v, 1000), 3)
}

fn push_mark(s: &mut String, v: i64)
    ensures
        final(s)@ == old(s)@ + mark_text(v as int),
{
    push_fixed(s, even_div(v as i128, 1000) as i64, 3);
}

/// A point of a mark as text.
#[verifier::opaque]
pub open spec fn place_text(x: int, y: int) -> Seq<char> {
    mark_text(x).push(' ') + mark_text(y)
}

fn push_place(s: &mut String, x: i64, y: i64)
    ensures
        final(s)@ == old(s)@ + place_text(x as int, y as int),
{
    proof {
        reveal(place_text);
    }
    let ghost s0 = s@;
    push_mark(s, x);
    s.push(' ');
    push_mark(s, y);
    proof {
        assert(s@ =~= s0 + place_text(x as int, y as int));
    }
}

/// A plus sign about a point, with arms of the given length.
#[verifier::opaque]
pub open spec fn cross_text(x: int, y: int, arm: int) -> Seq<char> {
    "<path d=\"M"@ + place_text(x - arm, y) + " L"@ + place_text(x + arm, y) + " M"@ + place_text(
        x,
        y - arm,
    ) + " L"@ + place_text(x, y + arm) + "\"/>"@
}

fn push_cross(s: &mut String, x: i64, y: i64, arm: i64)
    requires
        -MAX_MARK <= x <= MAX_MARK,
        -MAX_MARK <= y <= MAX_MARK,
        0 <= arm <= MAX_MARK,
    ensures
        final(s)@ == old(s)@ + cross_text(x as int, y as int, arm as int),
{
    proof {
        reveal(cross_text);
    }
    let ghost s0 = s@;
    s.append("<path d=\"M");
    push_place(s, x - arm, y);
    s.append(" L");
    push_place(s, x + arm, y);
    s.append(" M");
    push_place(s, x, y - arm);
    s.append(" L");
    push_place(s, x, y + arm);
    s.append("\"/>");
    proof {
        assert(s@ =~= s0 + cross_text(x as int, y as int, arm as int));
    }
}

/// The start of a group of marks.
pub open spec fn marks_open() -> Seq<char> {
    "<g stroke=\"red\" stroke-width=\"0.2\" fill=\"none\">"@
}

/// The arm of a registration mark: at least a whole pixel.
pub open spec fn mark_arm(mark: int) -> int {
    if mark > 1_000_000 {
        mark
    } else {
        1_000_000
    }
}

/// Crosshairs at three corners of the canvas.
#[verifier::opaque]
pub open spec fn registration_text(w: int, h: int, mark: int) -> Seq<char> {
    let m = mark_arm(mark);
    marks_open() + cross_text(m, m, m) + cross_text(1_000_000 * w - m, m, m) + cross_text(
        m,
        1_000_000 * h - m,
        m,
    ) + "</g>\n"@
}

/// Crosshairs at three corners of the canvas, so that sheets that carry them line up and a
/// flipped one shows. `mark` is the length of the arms, in millionths of a pixel.
pub fn registration_marks(w: usize, h: usize, mark: i64) -> (s: String)
    requires
        w <= MAX_SIDE,
        h <= MAX_SIDE,
        mark <= MAX_MARK / 2,
    ensures
        s@ == registration_text(w as int, h as int, mark as int),
{
    proof {
        reveal(registration_text);
    }
    let m: i64 = if mark > 1_000_000 { mark } else { 1_000_000 };
    let mut s: String = String::from_str("<g stroke=\"red\" stroke-width=\"0.2\" fill=\"none\">");
    push_cross(&mut s, m, m, m);
    push_cross(&mut s, 1_000_000 * (w as i64) - m, m, m);
    push_cross(&mut s, m, 1_000_000 * (h as i64) - m, m);
    s.append("</g>\n");
    s
}

/// A crosshair and a punch hole about a point.
#[verifier::opaque]
pub open spec fn hole_text(x: int, y: int, r: int) -> Seq<char> {
    cross_text(x, y, 2 * r) + "<circle cx=\""@ + mark_text(x) + "\" cy=\""@ + mark_text(y)
        + "\" r=\""@ + mark_text(r) + "\"/>"@
}

fn push_hole(s: &mut String, x: i64, y: i64, r: i64)
    requires
        -MAX_MARK <= x <= MAX_MARK,
        -MAX_MARK <= y <= MAX_MARK,
        0 <= r <= MAX_MARK / 2,
    ensures
        final(s)@ == old(s)@ + hole_text(x as int, y as int, r as int),
{
    proof {
        reveal(hole_text);
    }
    let ghost s0 = s@;
    push_cross(s, x, y, 2 * r);
    s.append("<circle cx=\"");
    push_mark(s, x);
    s.append("\" cy=\"");
    push_mark(s, y);
    s.append("\" r=\"");
    push_mark(s, r);
    s.append("\"/>");
    proof {
        assert(s@ =~= s0 + hole_text(x as int, y as int, r as int));
    }
}

/// The crosshairs and punch holes at the four corners of a sheet, `inset` in from the edge.
#[verifier::opaque]
pub open spec fn corner_text(pw: int, ph: int, inset: int, r: int) -> Seq<char> {
    marks_open() + hole_text(inset, inset, r) + hole_text(pw - inset, inset, r) + hole_text(
        pw - inset,
        ph - inset,
        r,
    ) + hole_text(inset, ph - inset, r) + "</g>\n"@
}

/// The size of a sheet's label, in hundredths of a millimetre: three fifths of the inset,
/// from 2 to 6 millimetres.
pub open spec fn label_size(inset: int) -> int {
    let x = if 6 * inset < 20_000_000 {
        20_000_000
    } else if 6 * inset > 60_000_000 {
        60_000_000
    } else {
        6 * inset
    };
    evenly(x, 100_000)
}

/// The label in a sheet's top margin.
#[verifier::opaque]
pub open spec fn label_text(pw: int, inset: int, label: Seq<char>) -> Seq<char> {
    "<text x=\""@ + mark_text(pw / 2) + "\" y=\""@ + mark_text(
        if inset > 3_000_000 {
            inset
        } else {
            3_000_000
        },
    ) + "\" font-size=\""@ + fixed(label_size(inset), 2)
        + "\" fill=\"red\" text-anchor=\"middle\">"@ + label + "</text>\n"@
}

fn push_label(s: &mut String, pw: i64, inset: i64, label: &str)
    requires
        0 <= pw <= 1_000_000_000,
        0 <= inset <= 1_000_000_000,
    ensures
        final(s)@ == old(s)@ + label_text(pw as int, inset as int, label@),
{
    proof {
        reveal(label_text);
    }
    let ghost s0 = s@;
    s.append("<text x=\"");
    push_mark(s, pw / 2);
    s.append("\" y=\"");
    push_mark(s, if inset > 3_000_000 { inset } else { 3_000_000 });
    s.append("\" font-size=\"");
    let x: i64 = if 6 * inset < 20_000_000 {
        20_000_000
    } else if 6 * inset > 60_000_000 {
        60_000_000
    } else {
        6 * inset
    };
    push_fixed(s, even_div(x as i128, 100_000) as i64, 2);
    s.append("\" fill=\"red\" text-anchor=\"middle\">");
    s.append(label);
    s.append("</text>\n");
    proof {
        assert(s@ =~= s0 + label_text(pw as int, inset as int, label@));
    }
}

/// The marks of a sheet: crosshairs and punch holes at its corners, and its label.
pub fn paper_marks(pw: i64, ph: i64, inset: i64, hole_r: i64, label: &str) -> (s: String)
    requires
        0 <= pw <= 1_000_000_000,
        0 <= ph <= 1_000_000_000,
        0 <= inset <= 1_000_000_000,
        0 <= hole_r <= 1_000_000_000,
    ensures
        s@ == corner_text(pw as int, ph as int, inset as int, hole_r as int) + label_text(
            pw as int,
            inset as int,
            label@,
        ),
{
    proof {
        reveal(corner_text);
    }
    let mut s: String = String::from_str("<g stroke=\"red\" stroke-width=\"0.2\" fill=\"none\">");
    push_hole(&mut s, inset, inset, hole_r);
    push_hole(&mut s, pw - inset, inset, hole_r);
    push_hole(&mut s, pw - inset, ph - inset, hole_r);
    push_hole(&mut s, inset, ph - inset, hole_r);
    s.append("</g>\n");
    push_label(&mut s, pw, inset, label);
    s
}

/// The radius of a punch hole: at least half a millimetre.
pub open spec fn hole_radius(r: int) -> int {
    if r > 500_000 {
        r
    } else {
        500_000
    }
}

/// How far in from the edge the marks of a sheet lie: the hole's radius and a quarter of
/// what the artwork leaves blank, at least two millimetres more than the radius and at most
/// twelve.
pub open spec fn mark_inset(l: PaperLayout, r: int) -> int {
    let paper = if l.paper_w < l.paper_h {
        l.paper_w
    } else {
        l.paper_h
    };
    let art = if l.art_w < l.art_h {
        l.art_w
    } else {
        l.art_h
    };
    let x = r + (paper - art) / 4;
    if x < r + 2_000_000 {
        r + 2_000_000
    } else if x > 12_000_000 {
        12_000_000
    } else {
        x
    }
}

/// The start of a document on paper.
#[verifier::opaque]
pub open spec fn paper_open(l: PaperLayout) -> Seq<char> {
    let w = fixed(evenly(l.paper_w as int, 10_000), 2);
    let h = fixed(evenly(l.paper_h as int, 10_000), 2);
    "<svg xmlns=\"http://www.w3.org/2000/svg\" width=\""@ + w + "mm\" height=\""@ + h
        + "mm\" viewBox=\"0 0 "@ + w + " "@ + h + "\">\n"@
}

/// The start of the artwork on paper: moved to its place and scaled to its size.
#[verifier::opaque]
pub open spec fn art_open(l: PaperLayout) -> Seq<char> {
    "<g transform=\"translate("@ + mark_text(l.off_x as int) + " "@ + mark_text(
        l.off_y as int,
    ) + ") scale("@ + fixed(evenly(l.scale_nm as int, 10 * l.scale_px), 5) + ")\">\n"@
}

/// The start of a document in pixels.
#[verifier::opaque]
pub open spec fn pixel_open(w: int, h: int) -> Seq<char> {
    "<svg xmlns=\"http://www.w3.org/2000/svg\" width=\""@ + decimal(w as nat) + "\" height=\""@
        + decimal(h as nat) + "\" viewBox=\"0 0 "@ + decimal(w as nat) + " "@ + decimal(h as nat)
        + "\">\n"@
}

/// The marks that every sheet of a job carries alike.
pub open spec fn shared_marks(w: int, h: int, layout: Option<PaperLayout>, hole_r: int) -> Seq<
    char,
> {
    match layout {
        Some(l) => {
            let r = hole_radius(hole_r);
            corner_text(
                l.paper_w as int,
                l.paper_h as int,
                mark_inset(l, r),
                r,
            )
        },
        None => registration_text(w, h, 5_000_000),
    }
}

/// What comes before those marks.
pub open spec fn sheet_front(
    ribbons: Seq<Ribbon>,
    w: int,
    h: int,
    fill: Seq<char>,
    layout: Option<PaperLayout>,
) -> Seq<char> {
    match layout {
        Some(l) => paper_open(l) + art_open(l) + ribbons_text(ribbons, fill) + "</g>\n"@,
        None => pixel_open(w, h) + ribbons_text(ribbons, fill),
    }
}

/// What comes after them.
pub open spec fn sheet_back(layout: Option<PaperLayout>, hole_r: int, label: Seq<char>) -> Seq<
    char,
> {
    match layout {
        Some(l) => label_text(
            l.paper_w as int,
            mark_inset(l, hole_radius(hole_r)),
            label,
        ) + "</svg>\n"@,
        None => "</svg>\n"@,
    }
}

/// The document of one sheet.
pub open spec fn sheet_text(
    ribbons: Seq<Ribbon>,
    w: int,
    h: int,
    fill: Seq<char>,
    layout: Option<PaperLayout>,
    label: Seq<char>,
    hole_r: int,
) -> Seq<char> {
    sheet_front(ribbons, w, h, fill, layout) + shared_marks(w, h, layout, hole_r) + sheet_back(
        layout,
        hole_r,
        label,
    )
}

fn push_pixel_open(s: &mut String, w: usize, h: usize)
    ensures
        final(s)@ == old(s)@ + pixel_open(w as int, h as int),
{
    proof {
        reveal(pixel_open);
    }
    let ghost s0 = s@;
    s.append("<svg xmlns=\"http://www.w3.org/2000/svg\" width=\"");
    push_decimal(s, w as u64);
    s.append("\" height=\"");
    push_decimal(s, h as u64);
    s.append("\" viewBox=\"0 0 ");
    push_decimal(s, w as u64);
    s.append(" ");
    push_decimal(s, h as u64);
    s.append("\">\n");
    proof {
        assert(s@ =~= s0 + pixel_open(w as int, h as int));
    }
}

fn push_paper_open(s: &mut String, l: &PaperLayout)
    requires
        l.paper_w <= 1_000_000_000,
        l.paper_h <= 1_000_000_000,
    ensures
        final(s)@ == old(s)@ + paper_open(*l),
{
    proof {
        reveal(paper_open);
    }
    let ghost s0 = s@;
    let w: i64 = even_div(l.paper_w as i128, 10_000) as i64;
    let h: i64 = even_div(l.paper_h as i128, 10_000) as i64;
    s.append("<svg xmlns=\"http://www.w3.org/2000/svg\" width=\"");
    push_fixed(s, w, 2);
    s.append("mm\" height=\"");
    push_fixed(s, h, 2);
    s.append("mm\" viewBox=\"0 0 ");
    push_fixed(s, w, 2);
    s.append(" ");
    push_fixed(s, h, 2);
    s.append("\">\n");
    proof {
        assert(s@ =~= s0 + paper_open(*l));
    }
}

fn push_art_open(s: &mut String, l: &PaperLayout)
    requires
        l.off_x <= 1_000_000_000,
        l.off_y <= 1_000_000_000,
        l.scale_nm <= 1_000_000_000,
        0 < l.scale_px <= MAX_SIDE,
    ensures
        final(s)@ == old(s)@ + art_open(*l),
{
    proof {
        reveal(art_open);
    }
    let ghost s0 = s@;
    s.append("<g transform=\"translate(");
    push_mark(s, l.off_x as i64);
    s.append(" ");
    push_mark(s, l.off_y as i64);
    s.append(") scale(");
    push_fixed(s, even_div(l.scale_nm as i128, 10 * l.scale_px as i128) as i64, 5);
    s.append(")\">\n");
    proof {
        assert(s@ =~= s0 + art_open(*l));
    }
}

fn inset_of(l: &PaperLayout, r: i64) -> (x: i64)
    requires
        layout_ok(*l),
        500_000 <= r <= 10_000_000,
    ensures
        x == mark_inset(*l, r as int),
        0 <= x <= 12_000_000,
{
    let paper: u64 = if l.paper_w < l.paper_h { l.paper_w } else { l.paper_h };
    let art: u64 = if l.art_w < l.art_h { l.art_w } else { l.art_h };
    let x: i64 = r + ((paper - art) / 4) as i64;
    if x < r + 2_000_000 {
        r + 2_000_000
    } else if x > 12_000_000 {
        12_000_000
    } else {
        x
    }
}

/// One sheet as a document: its ribbons as one filled path, and the marks by which all
/// sheets of a job are pinned together. With a layout the document has the paper's size and
/// carries the label; without one it is in pixels. `hole_r` counts nanometres.
pub fn ribbons_to_svg(
    ribbons: &[Ribbon],
    w_px: usize,
    h_px: usize,
    fill: &str,
    layout: Option<PaperLayout>,
    label: &str,
    hole_r: i64,
) -> (s: String)
    requires
        w_px <= MAX_SIDE,
        h_px <= MAX_SIDE,
        layout matches Some(l) ==> layout_ok(l) && hole_r <= 10_000_000,
    ensures
        s@ == sheet_text(
            ribbons@,
            w_px as int,
            h_px as int,
            fill@,
            layout,
            label@,
            hole_r as int,
        ),
{
    let mut s: String = String::new();
    match layout {
        Some(l) => {
            push_paper_open(&mut s, &l);
            push_art_open(&mut s, &l);
            push_ribbons(&mut s, ribbons, fill);
            s.append("</g>\n");
            let r: i64 = if hole_r > 500_000 { hole_r } else { 500_000 };
            let inset: i64 = inset_of(&l, r);
            proof {
                assert(s@ =~= sheet_front(ribbons@, w_px as int, h_px as int, fill@, layout));
            }
            let marks: String = paper_marks(
                l.paper_w as i64,
                l.paper_h as i64,
                inset,
                r,
                label,
            );
            s.append(marks.as_str());
        },
        None => {
            push_pixel_open(&mut s, w_px, h_px);
            push_ribbons(&mut s, ribbons, fill);
            proof {
                assert(s@ =~= sheet_front(ribbons@, w_px as int, h_px as int, fill@, layout));
            }
            let marks: String = registration_marks(w_px, h_px, 5_000_000);
            s.append(marks.as_str());
        },
    }
    s.append("</svg>\n");
    proof {
        assert(s@ =~= sheet_text(
            ribbons@,
            w_px as int,
            h_px as int,
            fill@,
            layout,
            label@,
            hole_r as int,
        ));
    }
    s
}

/// Every sheet of a job carries the same marks, whatever is cut out of it, whatever its
/// colour and label: both documents hold the one text `shared_marks`, right behind what
/// opens the sheet and before what closes it.
pub proof fn lemma_marks_shared(
    a: Seq<Ribbon>,
    b: Seq<Ribbon>,
    w: int,
    h: int,
    fill_a: Seq<char>,
    fill_b: Seq<char>,
    layout: Option<PaperLayout>,
    label_a: Seq<char>,
    label_b: Seq<char>,
    hole_r: int,
)
    ensures
        ({
            let marks = shared_marks(w, h, layout, hole_r);
            let fa = sheet_front(a, w, h, fill_a, layout).len() as int;
            let fb = sheet_front(b, w, h, fill_b, layout).len() as int;
            let n = marks.len() as int;
            &&& sheet_text(a, w, h, fill_a, layout, label_a, hole_r).subrange(fa, fa + n) == marks
            &&& sheet_text(b, w, h, fill_b, layout, label_b, hole_r).subrange(fb, fb + n) == marks
        }),
{
    let marks = shared_marks(w, h, layout, hole_r);
    let fa = sheet_front(a, w, h, fill_a, layout).len() as int;
    let fb = sheet_front(b, w, h, fill_b, layout).len() as int;
    let n = marks.len() as int;
    assert(sheet_text(a, w, h, fill_a, layout, label_a, hole_r).subrange(fa, fa + n) =~= marks);
    assert(sheet_text(b, w, h, fill_b, layout, label_b, hole_r).subrange(fb, fb + n) =~= marks);
}

/// A piece of a curve as a path command.
#[verifier::opaque]
pub open spec fn piece_text(g: Cubic) -> Seq<char> {
    seq!['C'] + point_text(g.c1) + seq![' '] + point_text(g.c2) + seq![' '] + point_text(g.p)
        + seq![' ']
}

fn push_piece(s: &mut String, g: Cubic)
    ensures
        final(s)@ == old(s)@ + piece_text(g),
{
    proof {
        reveal(piece_text);
    }
    let ghost s0 = s@;
    s.push('C');
    push_point(s, g.c1.0, g.c1.1);
    s.push(' ');
    push_point(s, g.c2.0, g.c2.1);
    s.push(' ');
    push_point(s, g.p.0, g.p.1);
    s.push(' ');
    proof {
        assert(s@ =~= s0 + piece_text(g));
    }
}

/// The first `k` pieces of a curve as path commands.
pub open spec fn pieces_to(segs: Seq<Cubic>, k: int) -> Seq<char>
    decreases k,
{
    if k <= 0 {
        Seq::empty()
    } else {
        pieces_to(segs, k - 1) + piece_text(segs[k - 1])
    }
}

/// A closed curve as path commands.
#[verifier::opaque]
pub open spec fn curve_text(start: Point, segs: Seq<Cubic>) -> Seq<char> {
    seq!['M'] + point_text(start) + seq![' '] + pieces_to(segs, segs.len() as int) + "Z "@
}

fn push_curve(s: &mut String, c: &Curve)
    ensures
        final(s)@ == old(s)@ + curve_text(c.start, c.segs@),
{
    proof {
        reveal(curve_text);
    }
    let ghost s0 = s@;
    s.push('M');
    push_point(s, c.start.0, c.start.1);
    s.push(' ');
    let ghost head = s@;
    for k in 0..c.segs.len()
        invariant
            s@ == head + pieces_to(c.segs@, k as int),
    {
        push_piece(s, c.segs[k]);
        proof {
            assert(s@ =~= head + pieces_to(c.segs@, k + 1));
        }
    }
    s.append("Z ");
    proof {
        assert(s@ =~= s0 + curve_text(c.start, c.segs@));
    }
}

/// The outline of a ring as path commands: nothing where too few points are left of it.
pub open spec fn ring_text(ring: Seq<Point>, eps: int) -> Seq<char> {
    match smoothed(ring, eps) {
        Some((start, segs)) => curve_text(start, segs),
        None => Seq::empty(),
    }
}

/// The first `k` rings as path commands.
pub open spec fn rings_to(rings: Seq<Vec<Point>>, eps: int, k: int) -> Seq<char>
    decreases k,
{
    if k <= 0 {
        Seq::empty()
    } else {
        rings_to(rings, eps, k - 1) + ring_text(rings[k - 1]@, eps)
    }
}

fn push_rings(s: &mut String, rings: &[Vec<Point>], eps: u32)
    requires
        rings_ok(rings@),
    ensures
        final(s)@ == old(s)@ + rings_to(rings@, eps as int, rings@.len() as int),
{
    let ghost head = s@;
    for k in 0..rings.len()
        invariant
            rings_ok(rings@),
            s@ == head + rings_to(rings@, eps as int, k as int),
    {
        match smooth_ring(rings[k].as_slice(), eps) {
            Some(c) => push_curve(s, &c),
            None => {},
        }
        proof {
            assert(s@ =~= head + rings_to(rings@, eps as int, k + 1));
        }
    }
}

/// The document of a stencil layer: all outlines in one path, holes cut by the even-odd
/// rule.
pub open spec fn outline_text(
    outers: Seq<Vec<Point>>,
    holes: Seq<Vec<Point>>,
    w: int,
    h: int,
    fill: Seq<char>,
    eps: int,
) -> Seq<char> {
    pixel_open(w, h) + "<path fill-rule=\"evenodd\" fill=\""@ + fill + "\" d=\""@ + rings_to(
        outers,
        eps,
        outers.len() as int,
    ) + rings_to(holes, eps, holes.len() as int) + "\"/>\n"@ + "</svg>\n"@
}

/// A stencil layer as a document: the rings are simplified within `smooth_eps` and drawn as
/// curves.
pub fn polygons_to_svg(
    outers: &[Vec<Point>],
    holes: &[Vec<Point>],
    w_px: usize,
    h_px: usize,
    fill: &str,
    smooth_eps: u32,
) -> (s: String)
    requires
        rings_ok(outers@),
        rings_ok(holes@),
    ensures
        s@ == outline_text(
            outers@,
            holes@,
            w_px as int,
            h_px as int,
            fill@,
            smooth_eps as int,
        ),
{
    let mut s: String = String::new();
    push_pixel_open(&mut s, w_px, h_px);
    s.append("<path fill-rule=\"evenodd\" fill=\"");
    s.append(fill);
    s.append("\" d=\"");
    push_rings(&mut s, outers, smooth_eps);
    push_rings(&mut s, holes, smooth_eps);
    s.append("\"/>\n");
    s.append("</svg>\n");
    proof {
        assert(s@ =~= outline_text(
            outers@,
            holes@,
            w_px as int,
            h_px as int,
            fill@,
            smooth_eps as int,
        ));
    }
    s
}

} // verus!
