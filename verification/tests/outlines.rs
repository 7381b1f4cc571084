use laser_halftone::curve::{catmull_rom_closed, smooth_ring};
use laser_halftone::paper::{punch_radius, Paper, PaperLayout};
use laser_halftone::smooth::simplify_ring;
use laser_halftone::svg::{paper_marks, polygons_to_svg, registration_marks, ribbons_to_svg, Ribbon};

/// A tolerance in px as the library takes it.
fn eps(px: f64) -> u32 {
    (px * 65536.0).round() as u32
}

fn px(v: i64) -> f32 {
    v as f32 / 1000.0
}

fn mm(v: i64) -> f64 {
    v as f64 / 1e6
}

#[test]
fn dp_drops_staircase() {
    // A closed ring whose top edge is a pixel staircase (rising then a flat
    // return) must simplify to far fewer nodes than the raw step count.
    let mut ring = Vec::new();
    for i in 0..10i64 {
        ring.push((i, i)); // up one
        ring.push((i + 1, i)); // over one
    }
    // Close the loop back along the bottom so it's a real ring, not an open line.
    ring.push((10, 20));
    ring.push((0, 20));
    let simp = simplify_ring(&ring, eps(1.5));
    assert!(
        simp.len() < ring.len() / 2,
        "staircase simplified: {} of {}",
        simp.len(),
        ring.len()
    );
}

#[test]
fn smooth_preserves_gross_shape() {
    // A blocky square ring smooths to a curve whose points stay near the box.
    let ring = vec![
        (0, 0), (5, 0), (10, 0),
        (10, 5), (10, 10),
        (5, 10), (0, 10),
        (0, 5),
    ];
    let c = smooth_ring(&ring, eps(0.5)).unwrap();
    for s in &c.segs {
        assert!(px(s.p.0) >= -2.0 && px(s.p.0) <= 12.0, "x in range: {}", s.p.0);
        assert!(px(s.p.1) >= -2.0 && px(s.p.1) <= 12.0, "y in range: {}", s.p.1);
    }
    assert!(c.segs.len() >= 3);
}

#[test]
fn sharp_corner_stays_sharp() {
    // A right-angle corner (turn ~90° > alphamax) must be emitted as a hard
    // corner: the tangents on both sides of that vertex collapse onto it, so
    // the curve passes straight through instead of rounding it off.
    let ring = vec![(0, 0), (10, 0), (10, 10), (0, 10)];
    let c = catmull_rom_closed(&ring);
    // Every vertex here is a 90° corner => every seg is a straight line:
    // c1 sits on its start anchor, c2 sits on its end anchor.
    for (i, s) in c.segs.iter().enumerate() {
        let start = if i == 0 { c.start } else { c.segs[i - 1].p };
        assert!(
            (px(s.c1.0) - px(start.0)).abs() < 1e-3 && (px(s.c1.1) - px(start.1)).abs() < 1e-3,
            "seg {i} c1 should sit on its start anchor: {:?} vs {:?}",
            s.c1,
            start
        );
        assert!(
            (px(s.c2.0) - px(s.p.0)).abs() < 1e-3 && (px(s.c2.1) - px(s.p.1)).abs() < 1e-3,
            "seg {i} c2 should sit on its end anchor: {:?} vs {:?}",
            s.c2,
            s.p
        );
    }
}

#[test]
fn gentle_bend_stays_curved() {
    // A shallow zig (turn well under alphamax) must keep a real curve: at least
    // one control point lifts off its anchors.
    let ring = vec![(0, 0), (10, 1), (20, 0), (20, 10), (0, 10)];
    let c = catmull_rom_closed(&ring);
    let lifted = c.segs.iter().enumerate().any(|(i, s)| {
        let start = if i == 0 { c.start } else { c.segs[i - 1].p };
        (px(s.c1.0) - px(start.0)).abs() > 1e-2 || (px(s.c1.1) - px(start.1)).abs() > 1e-2
    });
    assert!(lifted, "a gentle bend must produce at least one curved segment");
}

#[test]
fn no_control_point_overshoot() {
    // A tight square: clamped control points must stay within the box, i.e. the
    // curve can't bulge outside the sheet the way plain Catmull-Rom does.
    let ring = vec![(0, 0), (10, 0), (10, 10), (0, 10)];
    let c = smooth_ring(&ring, eps(0.5)).unwrap();
    for s in &c.segs {
        for pt in [s.c1, s.c2, s.p] {
            assert!(px(pt.0) >= -0.01 && px(pt.0) <= 10.01, "cx overshoot: {}", pt.0);
            assert!(px(pt.1) >= -0.01 && px(pt.1) <= 10.01, "cy overshoot: {}", pt.1);
        }
    }
}

#[test]
fn a_bend_is_drawn_by_its_turn() {
    // At (10,1) the way turns by twice atan(0.1): the cosine is 99/101.
    let ring = vec![(0, 0), (10, 1), (20, 0), (20, 10), (0, 10)];
    let c = catmull_rom_closed(&ring);
    assert_eq!(c.start, (0, 0));
    let pull = (20.0 / 6.0 * 99.0 / 101.0 * 1000.0f64).round() as i64;
    assert_eq!(c.segs[1].c1, (10_000 + pull, 1000));
    assert_eq!(c.segs[0].c2, (10_000 - pull, 1000));
    // The other corners are sharp.
    assert_eq!(c.segs[0].c1, (0, 0));
    assert_eq!(c.segs[2].c1, (20_000, 0));
    assert_eq!(c.segs[4].p, (0, 0));
}

#[test]
fn doubled_points_are_corners() {
    let ring = vec![(0, 0), (0, 0), (10, 1), (20, 0)];
    let c = catmull_rom_closed(&ring);
    assert_eq!(c.segs[0].c1, (0, 0));
    assert_eq!(c.segs[0].c2, (0, 0));
}

#[test]
fn too_few_points_draw_nothing() {
    assert!(smooth_ring(&[(0, 0), (1, 1)], eps(1.0)).is_none());
    assert!(smooth_ring(&[], eps(1.0)).is_none());
}

#[test]
fn simplified_rings_keep_their_corners() {
    let ring = vec![(0, 0), (5, 0), (10, 0), (10, 10), (0, 10)];
    assert_eq!(simplify_ring(&ring, eps(0.5)), vec![(0, 0), (10, 0), (10, 10), (0, 10)]);
    // Nothing is dropped within no tolerance but points on a line.
    assert_eq!(simplify_ring(&ring, 0).len(), 4);
}

#[test]
fn registration_marks_present_on_three_corners() {
    // Three crosshairs => three <path> children inside a red <g>.
    let g = registration_marks(100, 80, 5_000_000);
    assert!(g.contains("stroke=\"red\""));
    assert_eq!(g.matches("<path").count(), 3, "one crosshair per corner");
}

fn rectangle() -> Vec<Ribbon> {
    vec![Ribbon { pts: vec![(0, 0), (5000, 0), (5000, 2000), (0, 2000)] }]
}

#[test]
fn ribbons_svg_px_fallback_has_marks_and_polys() {
    let doc = ribbons_to_svg(&rectangle(), 50, 40, "#00ffff", None, "", 2_000_000);
    assert!(doc.starts_with("<svg"));
    assert!(doc.contains("fill=\"#00ffff\""));
    assert!(doc.contains("M0.000 0.000"), "ribbon path emitted");
    assert!(doc.contains("stroke=\"red\""), "registration marks embedded");
    assert!(doc.trim_end().ends_with("</svg>"));
}

#[test]
fn paper_layout_fits_with_margin_and_centering() {
    // 100x50 landscape image on A4 with 10mm margin. Paper rotates to landscape
    // (297x210). Artwork fits inside 277x190 keeping aspect, centered.
    let l = PaperLayout::fit(Paper::A4, 10_000_000, 100, 50);
    let (pw, ph) = (mm(l.paper_w as i64), mm(l.paper_h as i64));
    assert!((pw - 297.0).abs() < 0.1 && (ph - 210.0).abs() < 0.1, "A4 landscape");
    // Scale limited by width: 277/100 = 2.77; height 50*2.77=138.5 < 190. OK.
    let scale = mm(l.scale_nm as i64) / l.scale_px as f64;
    assert!((scale - 2.77).abs() < 0.01, "fit scale, got {scale}");
    // Centered: equal margins left/right and top/bottom, both >= 10mm.
    let (x, y) = (mm(l.off_x as i64), mm(l.off_y as i64));
    assert!(x >= 10.0 && y >= 10.0, "margin on all sides: {x},{y}");
    assert!((x * 2.0 + mm(l.art_w as i64) - pw).abs() < 0.1, "horizontally centered");
    assert!((y * 2.0 + mm(l.art_h as i64) - ph).abs() < 0.1, "vertically centered");
}

#[test]
fn ribbons_svg_paper_has_mm_holes_and_label() {
    let l = PaperLayout::fit(Paper::A5, 8_000_000, 50, 40);
    let doc = ribbons_to_svg(&rectangle(), 50, 40, "cyan", Some(l), "CYAN 1/4", 3_000_000);
    assert!(doc.contains("mm\""), "physical mm size on root");
    assert!(doc.contains("<circle"), "punch holes present");
    assert_eq!(doc.matches("<circle").count(), 4, "one hole per corner");
    assert!(doc.contains("r=\"3.000\""), "hole radius honoured (min-material floor)");
    assert!(doc.contains("CYAN 1/4"), "sheet label present");
    assert!(doc.contains("transform=\"translate"), "artwork placed in margin box");
}

#[test]
fn emits_valid_svg_with_paths() {
    // One square outer ring -> a <path> with an M and Z, wrapped in <svg>.
    let outer = vec![(0, 0), (10, 0), (10, 10), (0, 10)];
    let doc = polygons_to_svg(&[outer], &[], 10, 10, "#000000", eps(1.0));
    assert!(doc.starts_with("<svg"));
    assert!(doc.contains("<path"));
    assert!(doc.contains(" M") || doc.contains("\"M"));
    assert!(doc.contains("Z"));
    assert!(doc.trim_end().ends_with("</svg>"));
}

#[test]
fn outline_document_is_exact() {
    let doc = polygons_to_svg(&[vec![(0, 0), (2, 0), (2, 1)]], &[vec![(0, 0)]], 2, 1, "red", 0);
    assert_eq!(
        doc,
        "<svg xmlns=\"http://www.w3.org/2000/svg\" width=\"2\" height=\"1\" viewBox=\"0 0 2 1\">\n\
         <path fill-rule=\"evenodd\" fill=\"red\" d=\"M0.000 0.000 \
         C0.000 0.000 2.000 0.000 2.000 0.000 \
         C2.000 0.000 2.000 1.000 2.000 1.000 \
         C2.000 1.000 0.000 0.000 0.000 0.000 Z \"/>\n</svg>\n"
    );
}

#[test]
fn pixel_document_is_exact() {
    let doc = ribbons_to_svg(&rectangle(), 50, 40, "#00ffff", None, "ignored", 2_000_000);
    assert_eq!(
        doc,
        "<svg xmlns=\"http://www.w3.org/2000/svg\" width=\"50\" height=\"40\" viewBox=\"0 0 50 40\">\n\
         <path fill=\"#00ffff\" d=\"M0.000 0.000 L5.000 0.000 L5.000 2.000 L0.000 2.000 Z \"/>\n\
         <g stroke=\"red\" stroke-width=\"0.2\" fill=\"none\">\
         <path d=\"M0.000 5.000 L10.000 5.000 M5.000 0.000 L5.000 10.000\"/>\
         <path d=\"M40.000 5.000 L50.000 5.000 M45.000 0.000 L45.000 10.000\"/>\
         <path d=\"M0.000 35.000 L10.000 35.000 M5.000 30.000 L5.000 40.000\"/>\
         </g>\n</svg>\n"
    );
}

#[test]
fn paper_marks_are_exact() {
    let s = paper_marks(148_000_000, 210_000_000, 10_000_000, 3_000_000, "CYAN 1/4");
    assert!(s.starts_with(
        "<g stroke=\"red\" stroke-width=\"0.2\" fill=\"none\">\
         <path d=\"M4.000 10.000 L16.000 10.000 M10.000 4.000 L10.000 16.000\"/>\
         <circle cx=\"10.000\" cy=\"10.000\" r=\"3.000\"/>"
    ));
    assert!(s.ends_with(
        "<circle cx=\"10.000\" cy=\"200.000\" r=\"3.000\"/></g>\n\
         <text x=\"74.000\" y=\"10.000\" font-size=\"6.00\" fill=\"red\" text-anchor=\"middle\">\
         CYAN 1/4</text>\n"
    ));
}

#[test]
fn sheets_share_their_marks() {
    // The same canvas and paper: whatever is cut, the marks are the same text.
    let marks = |doc: String| -> String {
        let from = doc.find("<g stroke").unwrap();
        let upto = doc[from..].find("</g>").unwrap();
        doc[from..from + upto].to_string()
    };
    let l = PaperLayout::fit(Paper::A4, 10_000_000, 50, 40);
    let a = ribbons_to_svg(&rectangle(), 50, 40, "#00ffff", Some(l), "CYAN 1/4", 2_500_000);
    let b = ribbons_to_svg(&[], 50, 40, "#ff00ff", Some(l), "MAGENTA 2/4", 2_500_000);
    assert_eq!(marks(a), marks(b));
}

#[test]
fn papers_are_read_in_either_case() {
    assert!(Paper::parse("a3") == Some(Paper::A3));
    assert!(Paper::parse("A2") == Some(Paper::A2));
    assert!(Paper::parse("A6").is_none());
    assert_eq!(Paper::A5.dims(), (148, 210));
    // A portrait image stays on a portrait sheet, and a margin leaves two millimetres.
    let l = PaperLayout::fit(Paper::A4, 1_000_000_000, 10, 10);
    assert_eq!((l.paper_w as i64, l.art_w as i64), (210_000_000, 2_000_000));
}

#[test]
fn punch_holes_are_as_wide_as_the_material() {
    // 277 mm over 100 px: two pixels are 5.54 mm.
    let l = PaperLayout::fit(Paper::A4, 10_000_000, 100, 50);
    assert_eq!(punch_radius(Some(l), 2_000_000), 5_540_000);
    assert_eq!(punch_radius(Some(l), 100_000), 2_000_000);
    assert_eq!(punch_radius(None, 9_000_000), 2_000_000);
}

#[test]
fn halves_are_written_evenly() {
    // The artwork is 0.375 mm wide, so that it lies 104.8125 mm in.
    let l = PaperLayout::fit(Paper::A4, 10_000_000, 6, 4432);
    let doc = ribbons_to_svg(&[], 6, 4432, "red", Some(l), "", 2_000_000);
    assert!(doc.contains("translate(104.812 10.000)"), "{doc}");
    // Sums are rounded once: 10.0005 is written 10.000, and 4.0005 before it 4.000.
    let s = paper_marks(148_000_000, 210_000_000, 10_000_500, 3_000_000, "");
    assert!(s.contains("M4.000 10.000 L16.000 10.000"));
    let s = paper_marks(148_000_000, 210_000_000, 10_001_500, 3_000_400, "");
    assert!(s.contains("M4.001 10.002 L16.002 10.002"), "{s}");
    assert!(s.contains("r=\"3.000\""));
}
