use laser_halftone::sampling::sample_pixels;
use laser_halftone::tone::{apply_levels, channel_levels};
use laser_halftone::screen::FULL;
use laser_halftone::warp::{bake, homography, project, PARTS};

fn corners(q: [[f64; 2]; 4]) -> Vec<(i64, i64)> {
    let part = |v: f64| (v * PARTS as f64).round() as i64;
    q.iter().map(|p| (part(p[0]), part(p[1]))).collect()
}

/// A point in px through a map, in px.
fn apply(m: &laser_halftone::warp::Homography, x: f64, y: f64) -> (f64, f64) {
    let (u, v) = project(m, (2.0 * x) as i64, (2.0 * y) as i64);
    (u as f64 / 1e6, v as f64 / 1e6)
}

#[test]
fn identity_rect_maps_through() {
    // dst == src (a plain rectangle) -> homography is the identity map.
    let q = [[0.0, 0.0], [10.0, 0.0], [10.0, 20.0], [0.0, 20.0]];
    let h = homography(10, 20, &corners(q)).unwrap();
    let (x, y) = apply(&h, 3.0, 7.0);
    assert!((x - 3.0).abs() < 1e-6 && (y - 7.0).abs() < 1e-6);
}

#[test]
fn maps_corners_to_src_quad() {
    let dst = [[0.0, 0.0], [4.0, 0.0], [4.0, 4.0], [0.0, 4.0]];
    let src = [[2.0, 1.0], [9.0, 0.0], [8.0, 6.0], [1.0, 5.0]];
    let h = homography(4, 4, &corners(src)).unwrap();
    for i in 0..4 {
        let (x, y) = apply(&h, dst[i][0], dst[i][1]);
        assert!((x - src[i][0]).abs() < 1e-6 && (y - src[i][1]).abs() < 1e-6);
    }
}

#[test]
fn corners_on_a_line_have_no_map() {
    let q = [[0.0, 0.0], [4.0, 0.0], [8.0, 0.0], [12.0, 0.0]];
    assert!(homography(4, 4, &corners(q)).is_none());
    let px = vec![[1, 2, 3]; 4];
    assert!(bake(&px, 2, 2, 4, 4, &corners(q)).is_none());
}

#[test]
fn a_crop_is_the_part_itself() {
    // The four pixels in the middle of a 4x4 image.
    let px: Vec<[u8; 3]> = (0..16u8).map(|i| [i, 100 + i, 255 - i]).collect();
    let q = [[1.0, 1.0], [3.0, 1.0], [3.0, 3.0], [1.0, 3.0]];
    let out = bake(&px, 4, 4, 2, 2, &corners(q)).unwrap();
    assert_eq!(out, vec![px[5], px[6], px[9], px[10]]);
    // Turned by half a turn.
    let q = [[3.0, 3.0], [1.0, 3.0], [1.0, 1.0], [3.0, 1.0]];
    let out = bake(&px, 4, 4, 2, 2, &corners(q)).unwrap();
    assert_eq!(out, vec![px[10], px[9], px[6], px[5]]);
}

#[test]
fn pixels_are_read_between_their_middles() {
    let px = [[0u8, 0, 0], [255, 100, 1]];
    let half = 500_000i64;
    assert_eq!(
        sample_pixels(&px, 2, 1, &[(0, 0), (half, 0), (2 * half, 0), (-half, half)]),
        vec![[0, 0, 0], [128, 50, 1], [255, 100, 1], [0, 0, 0]]
    );
}

/// The table of a pair of levels, with no gamma.
fn table(wp: f64, bp: f64) -> Vec<u8> {
    let level = |v: f64| (v * FULL as f64).round() as i64;
    channel_levels(level(wp), level(bp))
        .into_iter()
        .map(|t| ((1.0 - t as f64 / FULL as f64) * 255.0).round() as u8)
        .collect()
}

#[test]
fn levels_remap_pushes_offwhite_to_white() {
    // Identity leaves pixels alone.
    assert_eq!(apply_levels(&[[200, 200, 200]], &table(0.0, 1.0)), vec![[200, 200, 200]]);
    // white_point 0.3 = ink<=0.3 -> white. A 200/255 grey has ink ~0.216 < 0.3,
    // so it snaps to pure white; a dark 40/255 (ink ~0.84) stays dark.
    assert_eq!(apply_levels(&[[200, 200, 200]], &table(0.3, 1.0)), vec![[255, 255, 255]]);
    let dark = apply_levels(&[[40, 40, 40]], &table(0.3, 1.0))[0];
    assert!(dark[0] < 100, "dark pixel must stay dark, got {dark:?}");
}
