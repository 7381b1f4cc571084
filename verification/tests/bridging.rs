use laser_halftone::bridge::{bridge_islands, Warning};
use laser_halftone::components::components;

#[test]
fn island_detected_and_bridged() {
    // Frame of material, a ring-shaped cut, a solid dot inside the cut.
    // 13x13: cut a hollow square ring at {3..=9}, keeping a 3x3 dot {5..=7}
    // in the center -> the dot is a falling island (span 3 >= bridge width 3).
    let (w, h) = (13usize, 13usize);
    let mut keep = vec![true; w * h];
    for y in 3..=9 {
        for x in 3..=9 {
            let dot = (5..=7).contains(&x) && (5..=7).contains(&y);
            if !dot {
                keep[y * w + x] = false;
            }
        }
    }
    let center = 6 * w + 6;

    // Before bridging: dot is its own component not touching border.
    let (comp, tb) = components(&keep, w, h);
    let center_comp = comp[center];
    assert_ne!(center_comp, usize::MAX);
    assert!(!tb[center_comp], "dot is an island before bridging");

    let mut warnings: Vec<Warning> = Vec::new();
    bridge_islands(&mut keep, w, h, 3, &mut warnings);

    // After bridging: dot now connects to the border-touching frame.
    let (comp2, tb2) = components(&keep, w, h);
    let c2 = comp2[center];
    assert_ne!(c2, usize::MAX, "dot still kept after bridging: {warnings:?}");
    assert!(tb2[c2], "island joined to frame after bridging: {warnings:?}");
}

#[test]
fn tab_crosses_shortest_gap() {
    // Island in a rectangular cut whose gap to the frame is 1 cell on the LEFT
    // and 3 cells on the RIGHT. The tab must go left (shortest gap), so the
    // cells immediately right of the island stay cut.
    // 11 wide, 7 tall. Cut columns 2..=8 on rows 1..=5, keep a dot at col 3.
    // Left gap (col 2) = 1 wide; right gap (cols 4..=8) = 5 wide.
    let (w, h) = (11usize, 7usize);
    let mut keep = vec![true; w * h];
    for y in 1..=5 {
        for x in 2..=8 {
            if !(x == 3 && (2..=4).contains(&y)) {
                keep[y * w + x] = false;
            }
        }
    }
    bridge_islands(&mut keep, w, h, 1, &mut Vec::new());
    // The tab crosses the 1-cell LEFT gap: some col-2 cell adjacent to the dot
    // (rows 2..=4) is now material.
    assert!(
        (2..=4).any(|y| keep[y * w + 2]),
        "tab carved across the 1-cell left gap"
    );
    // The wide RIGHT gap is never bridged: cols 5..=8 stay fully cut.
    for y in 1..=5 {
        for x in 5..=8 {
            assert!(!keep[y * w + x], "no tab across the wide right gap at ({x},{y})");
        }
    }
}

#[test]
fn large_bridge_keeps_midsize_island() {
    // A big bridge width must not drop an island smaller than the tab. A 5x5 island
    // with bridge width 12 must SURVIVE (span 5 >= 2).
    let (w, h) = (21usize, 21usize);
    let mut keep = vec![true; w * h];
    for y in 5..=15 {
        for x in 5..=15 {
            let dot = (8..=12).contains(&x) && (8..=12).contains(&y);
            if !dot {
                keep[y * w + x] = false;
            }
        }
    }
    let center = 10 * w + 10;
    bridge_islands(&mut keep, w, h, 12, &mut Vec::new());
    let (comp, tb) = components(&keep, w, h);
    assert_ne!(comp[center], usize::MAX, "island not deleted by large bridge");
    assert!(tb[comp[center]], "island bridged to frame with large bridge width");
}

#[test]
fn large_bridge_crosses_wide_gap() {
    // Bridges of any width: a WIDE gap (6 cells) between island
    // and frame. The tab must traverse the whole gap regardless of brush size.
    // 20 wide, 9 tall. Cut a big block cols 2..=17, rows 1..=7, keep a 3x3 dot
    // at cols 8..=10 / rows 3..=5 (island ~6 cells from every wall).
    let (w, h) = (20usize, 9usize);
    let mut keep = vec![true; w * h];
    for y in 1..=7 {
        for x in 2..=17 {
            let dot = (8..=10).contains(&x) && (3..=5).contains(&y);
            if !dot {
                keep[y * w + x] = false;
            }
        }
    }
    let center = 4 * w + 9;
    // bw=6: a single disc at the island edge cannot reach the frame (gap is 6+).
    bridge_islands(&mut keep, w, h, 6, &mut Vec::new());
    let (comp, tb) = components(&keep, w, h);
    assert_ne!(comp[center], usize::MAX, "island kept");
    assert!(tb[comp[center]], "wide gap bridged with bw=6 (spine traversed)");
}

#[test]
fn drop_too_small_island() {
    // A single-cell island with bridge width 3 -> span 1 < 3 -> dropped + warned.
    let (w, h) = (7usize, 7usize);
    let mut keep = vec![true; w * h];
    for y in 2..=4 {
        for x in 2..=4 {
            if !(x == 3 && y == 3) {
                keep[y * w + x] = false;
            }
        }
    }
    assert!(keep[3 * w + 3], "island present before");
    let mut warnings: Vec<Warning> = Vec::new();
    bridge_islands(&mut keep, w, h, 3, &mut warnings);
    assert!(!keep[3 * w + 3], "tiny island dropped");
    assert!(warnings.iter().any(|m| m.message().contains("dropped speck")), "warned: {warnings:?}");
}

#[test]
fn island_chains_to_nearer_island() {
    // Two stacked islands in a WIDE tall cut cavity (sides far away so the only
    // near anchor is vertical). Island A sits 1 cell below the top frame; island
    // B sits 1 cell below A but ~9 cells above the bottom frame. B's nearest
    // anchor is A (gap 1), not the frame (gap 9), so B must chain UP to A — the
    // row between them becomes material and the wide gap below B stays cut.
    let (w, h) = (15usize, 15usize);
    let mut keep = vec![true; w * h];
    // Cut the cavity cols 2..=12, rows 1..=13 (row 0/14 and col 0/14 stay frame).
    for y in 1..=13 {
        for x in 2..=12 {
            keep[y * w + x] = false;
        }
    }
    // Island A: row 2, cols 6..=8. Island B: row 4, cols 6..=8. Centered, so the
    // side gaps (cols 2..=5 and 9..=12) are ≥4 cells — much farther than A.
    for x in 6..=8 {
        keep[2 * w + x] = true; // A
        keep[4 * w + x] = true; // B
    }
    let a = 2 * w + 7;
    let b = 4 * w + 7;

    // Before: A and B are separate islands, neither touches the border.
    let (comp0, tb0) = components(&keep, w, h);
    assert_ne!(comp0[a], comp0[b], "A and B distinct before bridging");
    assert!(!tb0[comp0[a]] && !tb0[comp0[b]], "both are islands before");

    let mut warnings: Vec<Warning> = Vec::new();
    bridge_islands(&mut keep, w, h, 1, &mut warnings);

    // B chained to A: the row between them (row 3) got material.
    assert!(
        (6..=8).any(|x| keep[3 * w + x]),
        "B bridged up to A across the 1-cell gap: {warnings:?}"
    );
    // The wide gap below B (rows 6..=12) stays cut — no slash to the bottom frame.
    for y in 6..=12 {
        for x in 6..=8 {
            assert!(!keep[y * w + x], "no tab across the wide bottom gap at ({x},{y})");
        }
    }
    // Both islands now reach the frame (single border-connected component).
    let (comp1, tb1) = components(&keep, w, h);
    assert!(tb1[comp1[a]], "A frame-connected: {warnings:?}");
    assert!(tb1[comp1[b]], "B frame-connected via A: {warnings:?}");
}

#[test]
fn no_floating_pair_after_bridging() {
    // Every originally-kept cell must end up frame-connected after bridging
    // (except warned-unreachable ones — none here). Guards the invariant that
    // island→island chaining never leaves a floating pair.
    let (w, h) = (9usize, 15usize);
    let mut keep = vec![true; w * h];
    for y in 1..=13 {
        for x in 2..=6 {
            keep[y * w + x] = false;
        }
    }
    for x in 3..=5 {
        keep[2 * w + x] = true;
        keep[4 * w + x] = true;
    }
    bridge_islands(&mut keep, w, h, 1, &mut Vec::new());
    let (comp, tb) = components(&keep, w, h);
    for (idx, &c) in comp.iter().enumerate() {
        if c != usize::MAX {
            assert!(tb[c], "kept cell {idx} is frame-connected after bridging");
        }
    }
}

#[test]
fn bridging_twice_is_bridging_once() {
    let (w, h) = (9usize, 15usize);
    let mut keep = vec![true; w * h];
    for y in 1..=13 {
        for x in 2..=6 {
            keep[y * w + x] = (y == 2 || y == 4) && (3..=5).contains(&x);
        }
    }
    let mut warnings = Vec::new();
    bridge_islands(&mut keep, w, h, 1, &mut warnings);
    assert!(warnings.is_empty());
    for bw in [0, 1, 3, 8] {
        let mut again = keep.clone();
        bridge_islands(&mut again, w, h, bw, &mut warnings);
        assert_eq!(again, keep);
        assert!(warnings.is_empty());
    }
}
