use laser_halftone::bridge::Warning;
use laser_halftone::regions::merge_small_regions;
use laser_halftone::stencil::{
    cmyk_str, fill_of, luma, palette_heading, palette_text, preview, quantize, raster_heading,
    sheet_pixels, stack_mask, stencil_masks, stencils, Params,
};
use laser_halftone::trace::{collapse_collinear, signed_area2, trace};

#[test]
fn median_cut_two_color() {
    // Half black, half white -> palette {black, white}, labeled correctly.
    let mut px = vec![[0u8, 0, 0]; 50];
    px.extend(vec![[255u8, 255, 255]; 50]);
    let (pal, labels) = quantize(&px, 2);
    assert_eq!(pal.len(), 2);
    // index 0 = darkest
    assert!(luma(&pal[0]) < luma(&pal[1]));
    assert!(pal[0].r < 10 && pal[1].r > 245);
    // first 50 dark -> label 0, last 50 light -> label 1
    assert!(labels[..50].iter().all(|&l| l == 0));
    assert!(labels[50..].iter().all(|&l| l == 1));
}

#[test]
fn per_color_masks_disjoint() {
    let labels = [0u8, 1, 2, 1, 0];
    let m0 = stack_mask(&labels, 0);
    let m1 = stack_mask(&labels, 1);
    let m2 = stack_mask(&labels, 2);
    // Each mask covers ONLY its own label band (not cumulative).
    assert_eq!(m0, [true, false, false, false, true]);
    assert_eq!(m1, [false, true, false, true, false]);
    assert_eq!(m2, [false, false, true, false, false]);
    // Disjoint: no pixel kept by two masks; darkest layer is NOT the full sheet.
    for i in 0..labels.len() {
        let count = [&m0, &m1, &m2].iter().filter(|m| m[i]).count();
        assert_eq!(count, 1, "each pixel in exactly one layer");
    }
    assert!(!m0.iter().all(|&b| b), "layer 0 is not a solid full sheet");
}

#[test]
fn orientation_outer_vs_hole() {
    // Solid 6x6 with a 2x2 cut in the middle -> one outer (CCW,>0), one hole (CW,<0).
    let (w, h) = (6usize, 6usize);
    let mut keep = vec![true; w * h];
    for y in 2..4 {
        for x in 2..4 {
            keep[y * w + x] = false;
        }
    }
    let (outers, holes) = trace(&keep, w, h, 0);
    assert_eq!(outers.len(), 1, "one outer");
    assert_eq!(holes.len(), 1, "one hole");
    // Enclosing material boundary winds negative; cut hole winds positive.
    assert!(signed_area2(&outers[0]) < 0);
    assert!(signed_area2(&holes[0]) > 0);
}

#[test]
fn merge_absorbs_speckle() {
    // 5x5 all label 0 except a single label-1 speck in the middle. With an area
    // floor of 4, the 1-cell speck merges into surrounding label 0.
    let (w, h) = (5usize, 5usize);
    let mut labels = vec![0u8; w * h];
    labels[2 * w + 2] = 1;
    merge_small_regions(&mut labels, w, h, 4);
    assert!(labels.iter().all(|&l| l == 0), "speck absorbed into neighbour");
}

#[test]
fn merge_keeps_big_region() {
    // A big label-1 block (>= floor) must survive.
    let (w, h) = (6usize, 6usize);
    let mut labels = vec![0u8; w * h];
    for y in 1..=4 {
        for x in 1..=4 {
            labels[y * w + x] = 1;
        }
    } // 16 cells
    merge_small_regions(&mut labels, w, h, 4);
    assert_eq!(labels.iter().filter(|&&l| l == 1).count(), 16, "big region kept");
}

#[test]
fn outlines_are_exact() {
    // An L of three cells: its corners, and nothing in between.
    let keep = [true, false, true, true];
    let (outers, holes) = trace(&keep, 2, 2, 0);
    assert!(holes.is_empty());
    assert_eq!(outers.len(), 1);
    assert_eq!(signed_area2(&outers[0]), -6);
    assert_eq!(outers[0].len(), 6);
    // Under the area floor, nothing is traced.
    assert!(trace(&keep, 2, 2, 7).0.is_empty());
    assert_eq!(trace(&keep, 2, 2, 6).0.len(), 1);
}

#[test]
fn points_on_a_line_collapse() {
    let ring = [(0, 0), (1, 0), (2, 0), (2, 2), (0, 2), (0, 1)];
    assert_eq!(collapse_collinear(&ring), vec![(0, 0), (2, 0), (2, 2), (0, 2)]);
}

fn target() -> (Vec<[u8; 3]>, usize, usize) {
    // A white sheet, a black ring, and a white centre that would fall out.
    let (w, h) = (21usize, 21usize);
    let px = (0..w * h)
        .map(|i| {
            let (x, y) = ((i % w) as i32 - 10, (i / w) as i32 - 10);
            let d = x.abs().max(y.abs());
            if d >= 3 && d <= 7 { [0u8, 0, 0] } else { [255u8, 255, 255] }
        })
        .collect();
    (px, w, h)
}

#[test]
fn masks_are_bridged_when_asked_for() {
    let (px, w, h) = target();
    let mut p = Params { colors: 2, bridge_px: 3, min_area: 1, min_area2: 2, bridges: false };
    let mut warn: Vec<Warning> = Vec::new();
    let (palette, plain) = stencil_masks(&px, w, h, &p, &mut warn);
    assert_eq!((palette.len(), plain.len()), (2, 2));
    assert_eq!((palette[0].r, palette[1].r), (0, 255));
    for i in 0..w * h {
        assert!(plain[0][i] != plain[1][i], "every pixel in exactly one mask");
    }
    // The picture of the masks is the picture.
    assert_eq!(preview(&palette, &plain, w, h), px);
    p.bridges = true;
    let (_, tied) = stencil_masks(&px, w, h, &p, &mut warn);
    let added = (0..w * h).filter(|&i| tied[1][i] && !plain[1][i]).count();
    assert!(added > 0, "a tab ties the white centre to the sheet");
    assert!((0..w * h).all(|i| tied[1][i] || !plain[1][i]), "material is only added");
}

#[test]
fn layers_hold_the_outlines_of_their_masks() {
    let (px, w, h) = target();
    let p = Params { colors: 2, bridge_px: 3, min_area: 1, min_area2: 2, bridges: false };
    let mut warn: Vec<Warning> = Vec::new();
    let layers = stencils(&px, w, h, &p, &mut warn);
    assert_eq!(layers.len(), 2);
    assert_eq!((layers[0].outers.len(), layers[0].holes.len()), (1, 1));
    assert_eq!((layers[1].outers.len(), layers[1].holes.len()), (2, 1));
    assert!(warn.is_empty());
}

#[test]
fn palette_names_colors() {
    let (pal, _) = quantize(&[[0, 0, 0], [255, 128, 0]], 2);
    assert_eq!(fill_of(&pal[1]), "#ff8000");
    assert_eq!(cmyk_str(&pal[1].cmyk), "C0 M50 Y100 K0");
    assert_eq!(cmyk_str(&pal[0].cmyk), "C0 M0 Y0 K100");
    assert_eq!(luma(&pal[1]), 2126 * 255 + 7152 * 128);
    assert_eq!(
        palette_text(palette_heading(), &pal),
        "layer\trgb_hex\tcmyk\n0\t#000000\tC0 M0 Y0 K100\n1\t#ff8000\tC0 M50 Y100 K0\n"
    );
    assert_eq!(palette_text(raster_heading(), &[]), "layer\trgb_hex\n");
}

#[test]
fn sheets_are_clear_where_nothing_is_kept() {
    let (pal, _) = quantize(&[[10, 20, 30]], 1);
    assert_eq!(sheet_pixels(&pal[0], &[true, false]), vec![10, 20, 30, 255, 0, 0, 0, 0]);
}

#[test]
fn warnings_read_as_sentences() {
    assert_eq!(
        Warning::SpeckDropped { x: 3, y: 4 }.message(),
        "dropped speck island at (3,4)-(3,4): span 1px"
    );
    assert_eq!(
        Warning::Unreachable { island: 2 }.message(),
        "island 2 could not reach the frame; left unbridged"
    );
}

#[test]
fn touching_corners_are_traced_apart() {
    // Two kept cells that touch at a corner have two closed outlines, and the cut cells
    // between them leave none.
    let keep = [true, false, false, true];
    let (outers, holes) = trace(&keep, 2, 2, 0);
    assert_eq!((outers.len(), holes.len()), (2, 0));
    for ring in &outers {
        assert_eq!(ring.len(), 4);
        assert_eq!(signed_area2(ring), -2);
        for k in 0..ring.len() {
            let (a, b) = (ring[k], ring[(k + 1) % ring.len()]);
            assert_eq!((a.0 - b.0).abs() + (a.1 - b.1).abs(), 1, "a closed walk along cell sides");
        }
    }
}

#[test]
fn collapsing_keeps_the_area_and_is_done_once() {
    let ring = [(0, 0), (1, 0), (3, 0), (3, 2), (3, 3), (1, 3), (1, 1), (0, 1)];
    let once = collapse_collinear(&ring);
    assert_eq!(once, vec![(0, 0), (3, 0), (3, 3), (1, 3), (1, 1), (0, 1)]);
    assert_eq!(collapse_collinear(&once), once);
    assert_eq!(signed_area2(&once), signed_area2(&ring));
}
