use laser_halftone::cluster::{find_nearest, kmeans_lab};
use laser_halftone::inks::{Ink, Inks};
use laser_halftone::lab::{lab_distance, linear, pixels_to_lab, rgb_to_lab};
use laser_halftone::number::Number;
use laser_halftone::order::order_by_key;
use laser_halftone::separation::{
    channels, cmyk_to_rgb, percent, rgb_to_cmyk, separate, snap_to_cmyk, Cmyk, Share,
};

fn part(v: u8, unit: u8) -> f32 {
    v as f32 / unit as f32
}

fn approx(a: f32, b: f32) -> bool {
    (a - b).abs() < 1e-5
}

fn number(v: f32) -> Number {
    Number { bits: v.to_bits() }
}

#[test]
fn cmyk_identities() {
    let s = rgb_to_cmyk(255, 0, 0); // red
    assert!(approx(part(s.c, s.unit), 0.0) && approx(part(s.m, s.unit), 1.0));
    assert!(approx(part(s.y, s.unit), 1.0) && approx(part(s.k, 255), 0.0));
    let s = rgb_to_cmyk(255, 255, 255); // white
    assert!(approx(part(s.c, s.unit), 0.0) && approx(part(s.m, s.unit), 0.0));
    assert!(approx(part(s.y, s.unit), 0.0) && approx(part(s.k, 255), 0.0));
    let s = rgb_to_cmyk(0, 0, 0); // black
    assert!(approx(part(s.c, s.unit), 0.0) && approx(part(s.m, s.unit), 0.0));
    assert!(approx(part(s.y, s.unit), 0.0) && approx(part(s.k, 255), 1.0));
}

#[test]
fn kmeans_recovers_two_clusters() {
    // Two well-separated colors -> k-means must return one near each, deterministically.
    let mut px = vec![[10u8, 10, 10]; 100];
    px.extend(vec![[240u8, 240, 240]; 100]);
    let c = kmeans_lab(&px, 2);
    assert_eq!(c.len(), 2);
    let dark = c.iter().min_by_key(|p| p[0] as i32).unwrap();
    let light = c.iter().max_by_key(|p| p[0] as i32).unwrap();
    assert!(dark[0] < 40 && light[0] > 200, "clusters {c:?}");
    // Determinism: same input -> same output.
    assert_eq!(c, kmeans_lab(&px, 2));
}

#[test]
fn lab_black_white() {
    assert!((rgb_to_lab(0, 0, 0).l as f64 / 1e6).abs() < 1.0); // L~0
    assert!((rgb_to_lab(255, 255, 255).l as f64 / 1e6 - 100.0).abs() < 1.0); // L~100
}

#[test]
fn cmyk_roundtrip_is_stable() {
    // Snapping to CMYK and back should be near-lossless for these primaries.
    for rgb in [[255u8, 0, 0], [0, 128, 64], [200, 200, 200], [0, 0, 0], [255, 255, 255]] {
        let (snapped, _) = snap_to_cmyk(rgb[0], rgb[1], rgb[2]);
        for ch in 0..3 {
            assert!((snapped[ch] as i32 - rgb[ch] as i32).abs() <= 1, "{rgb:?} -> {snapped:?}");
        }
    }
}

#[test]
fn separation_gives_back_every_color() {
    for r in (0..=255u16).step_by(15) {
        for g in (0..=255u16).step_by(17) {
            for b in (0..=255u16).step_by(5) {
                let s = rgb_to_cmyk(r as u8, g as u8, b as u8);
                assert_eq!(cmyk_to_rgb(s), [r as u8, g as u8, b as u8]);
            }
        }
    }
}

#[test]
fn a_dark_green_separates_by_its_brightest_part() {
    let (rgb, s) = snap_to_cmyk(0, 128, 64);
    assert_eq!(rgb, [0, 128, 64]);
    assert_eq!(s, Cmyk { c: 128, m: 0, y: 64, k: 127, unit: 128 });
    assert_eq!(percent(s.c, s.unit), 100);
    assert_eq!(percent(s.y, s.unit), 50);
    assert_eq!(percent(s.k, 255), 50);
}

#[test]
fn linear_light_follows_the_srgb_curve() {
    for c in 0..=255u8 {
        let x = c as f64 / 255.0;
        let want = if x <= 0.04045 { x / 12.92 } else { ((x + 0.055) / 1.055).powf(2.4) };
        let got = linear(c) as f64 / 1e9;
        assert!((got - want).abs() < 2e-7, "{c}: {got} vs {want}");
    }
}

#[test]
fn lab_agrees_with_the_formula() {
    for rgb in [[255u8, 0, 0], [0, 255, 0], [0, 0, 255], [12, 200, 99], [3, 2, 1], [128, 128, 128]] {
        let lin = |c: u8| {
            let x = c as f64 / 255.0;
            if x <= 0.04045 { x / 12.92 } else { ((x + 0.055) / 1.055).powf(2.4) }
        };
        let (r, g, b) = (lin(rgb[0]), lin(rgb[1]), lin(rgb[2]));
        let f = |t: f64| if t > 0.008856 { t.cbrt() } else { 7.787 * t + 16.0 / 116.0 };
        let x = f((0.4124 * r + 0.3576 * g + 0.1805 * b) / 0.95047);
        let y = f(0.2126 * r + 0.7152 * g + 0.0722 * b);
        let z = f((0.0193 * r + 0.1192 * g + 0.9505 * b) / 1.08883);
        let want = [116.0 * y - 16.0, 500.0 * (x - y), 200.0 * (y - z)];
        let lab = rgb_to_lab(rgb[0], rgb[1], rgb[2]);
        for (got, want) in [lab.l, lab.a, lab.b].into_iter().zip(want) {
            assert!((got as f64 / 1e6 - want).abs() < 1e-2, "{rgb:?}: {got} vs {want}");
        }
    }
}

#[test]
fn clusters_of_nothing_are_black() {
    assert_eq!(kmeans_lab(&[], 4), vec![[0, 0, 0]]);
}

#[test]
fn no_more_clusters_than_pixels() {
    assert_eq!(kmeans_lab(&[[9, 8, 7]], 5), vec![[9, 8, 7]]);
    assert_eq!(kmeans_lab(&[[9, 8, 7], [200, 100, 0]], 0).len(), 1);
}

#[test]
fn clusters_average_their_colors() {
    let px = [[0u8, 0, 0], [10, 10, 10], [250, 250, 250], [255, 255, 255]];
    assert_eq!(kmeans_lab(&px, 2), vec![[5, 5, 5], [252, 252, 252]]);
}

#[test]
fn nearest_center_is_the_first_of_the_closest() {
    let labs = pixels_to_lab(&[[0, 0, 0], [255, 255, 255], [255, 255, 255]]);
    assert_eq!(find_nearest(&labs, &rgb_to_lab(240, 240, 240)), 1);
    assert_eq!(lab_distance(&labs[1], &labs[2]), 0);
}

#[test]
fn order_keeps_equal_keys_in_place() {
    assert_eq!(order_by_key(&[5, 3, 5, -1, 3]), vec![3, 1, 4, 0, 2]);
}

#[test]
fn inks_come_in_spray_order() {
    assert_eq!(Inks::Cmyk.count(), 4);
    assert_eq!(Inks::Cmykog.count(), 6);
    assert_eq!(Inks::Cmyk.names(), vec!["Cyan", "Magenta", "Yellow", "Black"]);
    assert_eq!(
        Inks::Cmykog.names(),
        vec!["Cyan", "Magenta", "Yellow", "Orange", "Green", "Black"]
    );
    let suffixes: Vec<&str> = Inks::Cmykog.specs().into_iter().map(|i| i.suffix()).collect();
    assert_eq!(suffixes, vec!["c", "m", "y", "o", "g", "k"]);
    assert_eq!(Inks::Cmyk.default_angles(), vec![15, 75, 0, 45]);
    assert_eq!(Inks::Cmykog.default_angles(), vec![15, 75, 0, 30, 60, 45]);
    assert_eq!(Inks::Cmyk.default_loads(), vec![1, 1, 1, 1]);
    assert_eq!(Ink::Green.rgb_tenths(), [0, 7, 3]);
    assert!(Ink::Black.tamed() && !Ink::Orange.tamed());
}

#[test]
fn four_inks_take_the_separation_as_it_is() {
    let layers = separate(&[[255, 0, 0], [0, 0, 0]]);
    let angles = [number(15.0), number(75.0)];
    let chans = channels(&layers, Inks::Cmyk, &angles, &[]);
    assert_eq!(chans.len(), 4);
    let at = |c: usize, i: usize| part(chans[c].density[i].part, chans[c].density[i].whole);
    assert_eq!([at(0, 0), at(1, 0), at(2, 0), at(3, 0)], [0.0, 1.0, 1.0, 0.0]);
    assert_eq!([at(0, 1), at(1, 1), at(2, 1), at(3, 1)], [0.0, 0.0, 0.0, 1.0]);
    assert_eq!(chans[1].angle, number(75.0));
    // No angle given: none turned; no load given: all of it.
    assert_eq!(chans[2].angle, number(0.0));
    assert_eq!(chans[2].load, number(1.0));
}

#[test]
fn extended_inks_move_shared_ink_to_orange_and_green() {
    // Red is magenta over yellow: all of it is orange. Green is cyan over yellow.
    let layers = separate(&[[255, 0, 0], [0, 255, 0], [255, 128, 0]]);
    let chans = channels(&layers, Inks::Cmykog, &[], &[]);
    let row = |i: usize| -> Vec<Share> { chans.iter().map(|c| c.density[i]).collect() };
    let parts = |i: usize| -> Vec<u8> { row(i).into_iter().map(|s| s.part).collect() };
    assert_eq!(parts(0), vec![0, 0, 0, 255, 0, 0]);
    assert_eq!(parts(1), vec![0, 0, 0, 0, 255, 0]);
    assert_eq!(parts(2), vec![0, 0, 128, 127, 0, 0]);
}
