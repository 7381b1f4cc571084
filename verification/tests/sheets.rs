use laser_halftone::chamfer::distances;
use laser_halftone::fragility::{measure, Fragility};
use laser_halftone::preview::{grade, stiffness_line, Grade};

fn removed(f: &Fragility) -> f32 {
    f.removed as f32 / f.total as f32
}

fn neck_px(f: &Fragility) -> f32 {
    f.neck_thirds as f32 / 3.0
}

/// The whole justification for measuring neck width instead of cut area: two
/// sheets with the SAME removed-area, one stiff and one floppy. Removed-area
/// cannot tell them apart; neck width must.
#[test]
fn neck_tracks_strand_width_not_removed_area() {
    // 32x32 vertical stripes: A = 4px material / 4px cut (stiff),
    // B = 1px material / 1px cut (floppy lattice). Both ~50% cut.
    let strp = |m: usize, c: usize| -> Vec<bool> {
        (0..32 * 32).map(|i| (i % 32) % (m + c) < m).collect()
    };
    let a = measure(&strp(4, 4), 32, 32);
    let b = measure(&strp(1, 1), 32, 32);
    assert!(
        (removed(&a) - removed(&b)).abs() < 0.02,
        "removed-area is blind to strand width: {} vs {}",
        removed(&a),
        removed(&b)
    );
    // The load-bearing property: neck separates them by a wide margin, and each
    // lands within the ~2px resolution of its true strand width.
    assert!(
        neck_px(&a) >= neck_px(&b) * 2.0,
        "neck must separate stiff from floppy: {} vs {}",
        neck_px(&a),
        neck_px(&b)
    );
    assert!((neck_px(&a) - 4.0).abs() <= 1.0, "4px strand reads ~4px: {}", neck_px(&a));
    assert!((neck_px(&b) - 1.0).abs() <= 1.0, "1px lattice reads ~1px: {}", neck_px(&b));
}

/// Resolution where it counts: at real screen pitches the standing material is
/// 1-4px, so the readout must track that band within its ~2px quantum. This is
/// what makes the number usable rather than merely well-ordered.
#[test]
fn neck_tracks_the_one_to_four_px_band() {
    let (w, h) = (48usize, 48usize);
    for mat in [1usize, 2, 3, 4] {
        // Vertical stripes at pitch 8 with `mat` px of standing material.
        let keep: Vec<bool> = (0..w * h).map(|i| (i % w) % 8 < mat).collect();
        let f = measure(&keep, w, h);
        assert!(
            (neck_px(&f) - mat as f32).abs() <= 1.0,
            "standing material {mat}px must read within 1px, got {}",
            neck_px(&f)
        );
    }
}

/// Monotonicity is what makes the GUI readout tunable: widening the strands must
/// never lower the reported neck.
#[test]
fn neck_is_monotone_in_strand_width() {
    let strp = |m: usize| -> Vec<bool> {
        (0..48 * 48).map(|i| (i % 48) % (m + 4) < m).collect()
    };
    let mut prev = 0.0f32;
    for m in [1usize, 2, 3, 5, 8] {
        let f = measure(&strp(m), 48, 48);
        assert!(neck_px(&f) >= prev, "neck dropped at strand width {m}: {} < {prev}", neck_px(&f));
        prev = neck_px(&f);
    }
}

#[test]
fn solid_sheet_is_not_fragile() {
    let f = measure(&vec![true; 16 * 16], 16, 16);
    assert_eq!(removed(&f), 0.0);
    // No cut anywhere -> every pixel is far from a cut -> a thick "strand".
    assert!(neck_px(&f) > 4.0, "solid sheet read as thin: {}", neck_px(&f));
}

#[test]
fn fully_cut_sheet_has_no_material() {
    let f = measure(&vec![false; 16 * 16], 16, 16);
    assert_eq!(removed(&f), 1.0);
    assert_eq!(neck_px(&f), 0.0);
}

#[test]
fn distances_step_by_three_and_four() {
    // One cut in the corner of a 4x3 sheet.
    let mut keep = vec![true; 12];
    keep[0] = false;
    assert_eq!(distances(&keep, 4, 3), vec![0, 3, 6, 9, 3, 4, 7, 10, 6, 7, 8, 11]);
}

#[test]
fn stripes_read_exactly() {
    let strp = |m: usize| -> Vec<bool> { (0..48 * 48).map(|i| (i % 48) % 8 < m).collect() };
    assert_eq!(measure(&strp(1), 48, 48).neck_thirds, 3);
    assert_eq!(measure(&strp(3), 48, 48).neck_thirds, 9);
    assert_eq!(measure(&strp(3), 48, 48).removed, 48 * 48 * 5 / 8);
}

#[test]
fn stiffness_is_told_by_the_neck() {
    let f = Fragility { removed: 1, total: 2, neck_thirds: 2 };
    assert_eq!(stiffness_line("k", &f), "layer k: cut 50%, neck 0.7px  <- fragile");
    assert!(grade(&f) == Grade::Fragile);
    let f = Fragility { removed: 1, total: 3, neck_thirds: 10 };
    assert_eq!(stiffness_line("c", &f), "layer c: cut 33%, neck 3.3px");
    assert!(grade(&f) == Grade::Stiff);
    // Halves go to the even neighbour: 12.5 and 37.5 percent.
    let f = Fragility { removed: 1, total: 8, neck_thirds: 10 };
    assert_eq!(stiffness_line("c", &f), "layer c: cut 12%, neck 3.3px");
    let f = Fragility { removed: 3, total: 8, neck_thirds: 10 };
    assert_eq!(stiffness_line("c", &f), "layer c: cut 38%, neck 3.3px");
}
