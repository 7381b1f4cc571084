use laser_halftone::bilateral::{bilateral, MAX_UNLIKE};
use laser_halftone::blur::{dog_edges, gaussian, MAX_WEIGHT};
use laser_halftone::dots::{
    dot_places, emit_dot, generate_bluenoise, generate_dots, noise_grid, noise_place, sides_of, Dot,
};
use laser_halftone::hatch::{generate_hatch, stamp_proximity};
use laser_halftone::inks::Ink;
use laser_halftone::lattice::{
    bridge_at, cut_extent, max_cut_for, place_of, reach, segment, tamed_cut_for, to_milli, Cut,
    Lattice, PX, TURN, WHOLE,
};
use laser_halftone::job::{generate_all, limits_of, Cuts, Pattern, Sheet, Width};
use laser_halftone::number::Number;
use laser_halftone::orientation::{bin_count, mask_bin, orientation_bins};
use laser_halftone::preview::render_preview;
use laser_halftone::raster::rasterize;
use laser_halftone::sampling::{density_map, sample, sample_all};
use laser_halftone::screen::{cut_runs, diffuse, Shape, FULL};
use laser_halftone::separation::Share;
use laser_halftone::strokes::{
    generate_quads, generate_quads_capped, generate_quads_prox, line_middles, screen_counts,
};
use laser_halftone::svg::Ribbon;
use laser_halftone::tone::{are_levels_idle, deep_clip, effective_k, levels};
use laser_halftone::waves::{append_ribbons, generate_wavy, swing_limit, wave_middles};

const ALL: i64 = 1_000_000_000_000;

fn micro(px: f64) -> i64 {
    (px * 1e6).round() as i64
}

fn share(d: f64) -> i64 {
    (d.clamp(0.0, 1.0) * FULL as f64).round() as i64
}

fn lattice(w: usize, h: usize, deg: f64) -> Lattice {
    let (sin, cos) = deg.to_radians().sin_cos();
    let turn = |v: f64| (v * TURN as f64).round() as i64;
    Lattice { w, h, spacing: micro(10.0), sin: turn(sin), cos: turn(cos) }
}

/// Spacing 10, least cut 1, material 2, no kerf, no bridges.
fn base() -> Cut {
    Cut {
        least: micro(1.0),
        most: micro(8.0),
        kerf: 0,
        load: WHOLE,
        interval: 0,
        bridge: 0,
        material: micro(2.0),
    }
}

/// The value of a map between its pixels.
fn bilinear(map: &[f64], w: usize, h: usize, p: (i64, i64)) -> f64 {
    let x = (p.0 as f64 / 1e6).clamp(0.0, w as f64 - 1.0);
    let y = (p.1 as f64 / 1e6).clamp(0.0, h as f64 - 1.0);
    let (x0, y0) = (x.floor() as usize, y.floor() as usize);
    let (x1, y1) = ((x0 + 1).min(w - 1), (y0 + 1).min(h - 1));
    let (fx, fy) = (x - x0 as f64, y - y0 as f64);
    let top = map[y0 * w + x0] * (1.0 - fx) + map[y0 * w + x1] * fx;
    let bottom = map[y1 * w + x0] * (1.0 - fx) + map[y1 * w + x1] * fx;
    top * (1.0 - fy) + bottom * fy
}

fn tones_at(map: &[f64], w: usize, h: usize, places: &[(i64, i64)]) -> Vec<i64> {
    places.iter().map(|&p| share(bilinear(map, w, h, p))).collect()
}

fn quads(map: &[f64], w: usize, h: usize, deg: f64, c: &Cut) -> Vec<Ribbon> {
    let l = lattice(w, h, deg);
    let tones = tones_at(map, w, h, &line_middles(&l));
    generate_quads(&l, c, &tones)
}

fn outlined(dots: &[Dot]) -> Vec<Ribbon> {
    dots.iter().map(|d| emit_dot(d, &directions(sides_of(d.r)))).collect()
}

fn noise(map: &[f64], w: usize, h: usize, c: &Cut, dot_min: i64, dot_max: i64) -> Vec<Dot> {
    let (gw, gh) = noise_grid(w, h, micro(10.0));
    let tones: Vec<i64> = (0..gw * gh)
        .map(|i| share(bilinear(map, w, h, noise_place(w, h, micro(10.0), i))))
        .collect();
    generate_bluenoise(w, h, micro(10.0), c, dot_min, dot_max, &tones)
}

/// Hatches a map with six angles, by the direction in which it changes.
fn hatch(map: &[f64], w: usize, h: usize, c: &Cut) -> Vec<Ribbon> {
    let bins = 6usize;
    let density: Vec<i64> = map.iter().map(|&d| share(d)).collect();
    let bin = orientation_bins(&density, w, h, &kernel(10.0), &directions(bins));
    let mut turns = Vec::new();
    let mut tones = Vec::new();
    for b in 0..bins {
        let l = lattice(w, h, b as f64 / bins as f64 * 180.0 + 90.0);
        let masked = mask_bin(&density, &bin, b);
        turns.push((l.sin, l.cos));
        tones.push(sample_all(&masked, w, h, &line_middles(&l)));
    }
    generate_hatch(&lattice(w, h, 0.0), &turns, c, &tones)
}

fn wavy(map: &[f64], w: usize, h: usize, c: &Cut) -> Vec<Ribbon> {
    let l = lattice(w, h, 0.0);
    let swing = swing_limit(micro(3.5), l.spacing, c.most);
    let (_, segs, far) = screen_counts(&l);
    let step = segment(l.spacing);
    let sine = |v: i64| ((v as f64 / 1e6 * std::f64::consts::TAU / 40.0).sin() * TURN as f64).round() as i64;
    let knot = |k: u64| (k as i64 * step - far).min(far);
    let knots: Vec<i64> = (0..=segs).map(|k| sine(knot(k))).collect();
    let mids: Vec<i64> = (0..segs).map(|k| sine((knot(k) + knot(k + 1)) / 2)).collect();
    let tones = tones_at(map, w, h, &wave_middles(&l, swing, &mids));
    generate_wavy(&l, c, swing, &mids, &knots, &tones)
}

fn generate_shape(shape: Shape, map: &[f64], w: usize, h: usize) -> Vec<Ribbon> {
    let c = base();
    match shape {
        Shape::Lines => quads(map, w, h, 0.0, &c),
        Shape::Wavy => wavy(map, w, h, &c),
        Shape::Dots => {
            let l = lattice(w, h, 0.0);
            let tones = tones_at(map, w, h, &dot_places(&l));
            outlined(&generate_dots(&l, &c, &tones))
        }
        Shape::BlueNoise => outlined(&noise(map, w, h, &c, ALL, ALL)),
        Shape::Hatch => hatch(map, w, h, &c),
    }
}

/// Cross-line extent (width) of a ribbon at angle 0: max-min of its y coords.
fn ribbon_width(r: &Ribbon) -> f32 {
    let lo = r.pts.iter().map(|p| p.1).min().unwrap();
    let hi = r.pts.iter().map(|p| p.1).max().unwrap();
    (hi - lo) as f32 / 1000.0
}

#[test]
fn dead_zone_zeros_faint_ink() {
    // Uniform faint density whose raw width < w_min => no ribbons at all.
    // raw = d*spacing = 0.05*10 = 0.5 < w_min(1.0).
    let map = vec![0.05; 40 * 40];
    let r = quads(&map, 40, 40, 0.0, &base());
    assert!(r.is_empty(), "faint ink below dead-zone cuts nothing");
    // Stronger ink (raw 5.0 >= 1.0) does cut.
    let map2 = vec![0.5; 40 * 40];
    let r2 = quads(&map2, 40, 40, 0.0, &base());
    assert!(!r2.is_empty(), "above dead-zone cuts");
}

#[test]
fn coalesces_into_one_ribbon_per_line() {
    // A uniform field with no bridges: each screen line is ONE continuous cut,
    // so #ribbons == #lines that fall on the canvas — far fewer than the ~w/v_step
    // separate segments.
    let map = vec![0.5; 40 * 40];
    let r = quads(&map, 40, 40, 0.0, &base());
    // 40px tall / 10px spacing => ~4-5 visible lines. Each is a single ribbon
    // with many knots.
    assert!(r.len() <= 6, "one ribbon per line, got {}", r.len());
    assert!(r[0].pts.len() > 4, "ribbon spans many knots (a run), got {}", r[0].pts.len());
}

#[test]
fn width_clamped_to_max_cut() {
    // Full ink (raw = 10) must clamp to max_cut = spacing - min_material = 8,
    // leaving a material bridge. Check emitted ribbon cross-line width.
    let map = vec![1.0; 40 * 40];
    let r = quads(&map, 40, 40, 0.0, &base());
    assert!(!r.is_empty());
    let width = ribbon_width(&r[0]);
    assert!(width <= 8.01, "width clamped to max_cut, got {width}");
    assert!(width >= 7.99, "full ink reaches max_cut, got {width}");
}

#[test]
fn kerf_shrinks_slot() {
    // With kerf, the commanded width is raw - kerf. d=0.5 -> raw=5, kerf=1 -> 4.
    let mut c = base();
    c.kerf = micro(1.0);
    let map = vec![0.5; 40 * 40];
    let r = quads(&map, 40, 40, 0.0, &c);
    assert!((ribbon_width(&r[0]) - 4.0).abs() < 0.01, "kerf-shrunk width");
}

#[test]
fn bridges_split_lines_into_multiple_ribbons() {
    // With bridges on, a single line's continuous ribbon is broken into several
    // shorter ribbons (one per uncut run between tabs) — so bridged output has
    // MORE ribbons than the one-per-line no-bridge case, but each is still a
    // coalesced run, not per-segment quads.
    let mut c = base();
    c.interval = micro(20.0);
    c.bridge = micro(4.0);
    c.material = 0; // let full width through
    let map = vec![1.0; 200 * 200];
    let r = quads(&map, 200, 200, 0.0, &c);
    assert!(!r.is_empty(), "bridged lines still emit cut runs");
    let mut c0 = c;
    c0.interval = 0;
    let r0 = quads(&map, 200, 200, 0.0, &c0);
    assert!(r.len() > r0.len(), "bridges split lines into more runs: {} > {}", r.len(), r0.len());
    // But still coalesced: far fewer than segment-per-quad (v_step=4 over 200px
    // ~= 50 segments/line * ~20 lines = ~1000). Bridged run count is a fraction.
    assert!(r.len() < 400, "runs stay coalesced, got {}", r.len());
}

#[test]
fn k_width_capped_below_cmy() {
    // Full black K, tonal mode: the K ribbon width must be <= k_width_frac*pitch,
    // which is far below the CMY max_cut. All four sheets run.
    let n = 60 * 60;
    let none = vec![vec![0i64; n]; 3];
    // No removal, so that K fires; the deep shadows from 0.75 on are kept.
    let black = effective_k(&vec![FULL; n], &none, 0, share(0.75));
    let sheets: Vec<Sheet> = [15.0, 75.0, 0.0, 0.0]
        .iter()
        .enumerate()
        .map(|(i, &deg)| {
            let l = lattice(60, 60, deg);
            let (map, width) = if i == 3 {
                (&black, Width::Tamed { asked: micro(0.40 * 10.0) }) // cap = 4px at pitch 10
            } else {
                (&none[i], Width::Loaded { load: WHOLE })
            };
            let tones = sample_all(map, 60, 60, &line_middles(&l));
            Sheet { lattice: l, width, pattern: Pattern::Lines { tones } }
        })
        .collect();
    let out = ribbons_of(generate_all(&base(), &sheets));
    assert!(out[..3].iter().all(|s| s.is_empty()), "no ink, no cut");
    let krib = &out[3];
    assert!(!krib.is_empty(), "full black produces K cut");
    // angle 0 for K here: width = y-extent. Must be <= 4px cap (not the 8px CMY cap).
    let maxw = krib.iter().map(ribbon_width).fold(0.0f32, f32::max);
    assert!(maxw <= 4.01, "K width capped to 40% pitch, got {maxw}");
}

#[test]
fn degenerate_levels_do_not_panic_the_rasterizer() {
    // White-point == black-point at 0.0 is a threshold that every density reaches, so
    // a horizontal gradient that starts at the coincident point is full ink throughout.
    let (w, h) = (64usize, 64usize);
    let density: Vec<f64> = (0..w * h).map(|i| (i % w) as f64 / (w - 1) as f64).collect();
    let l = lattice(w, h, 15.0);
    let tones: Vec<i64> = tones_at(&density, w, h, &line_middles(&l))
        .into_iter()
        .map(|d| levels(d, share(0.0), share(0.0)))
        .collect();
    assert!(tones.iter().all(|&t| t == FULL));
    let ribbons = generate_quads_capped(&l, &base(), &tones);
    let (img, _) = render_preview(&[ribbons], &[Ink::Cyan], w, h);
    assert_eq!(img.len(), w * h, "renders without panicking");
}

/// Total filled pixels for a shape over a uniform density field of value `d`.
fn coverage(shape: Shape, d: f64) -> usize {
    let (w, h) = (80usize, 80usize);
    let map = vec![d; w * h];
    let ribbons = generate_shape(shape, &map, w, h);
    rasterize(&ribbons, w, h).iter().filter(|&&b| b).count()
}

/// Every emitted ribbon is a valid closed polygon (>=3 points).
fn all_valid(shape: Shape, d: f64) -> bool {
    let (w, h) = (80usize, 80usize);
    let map = vec![d; w * h];
    generate_shape(shape, &map, w, h).iter().all(|r| r.pts.len() >= 3)
}

#[test]
fn every_shape_darker_means_more_ink() {
    // The core halftone invariant: more density -> more filled area, for each shape.
    for shape in [Shape::Lines, Shape::Wavy, Shape::Dots, Shape::BlueNoise, Shape::Hatch] {
        let light = coverage(shape, 0.25);
        let dark = coverage(shape, 0.85);
        assert!(dark > light, "{shape:?}: dark {dark} should exceed light {light}");
        assert!(all_valid(shape, 0.6), "{shape:?}: all ribbons closed polygons");
    }
}

#[test]
fn every_shape_respects_dead_zone() {
    // Faint ink (raw = 0.05*10 = 0.5 < w_min 1.0) cuts nothing, for every shape.
    for shape in [Shape::Lines, Shape::Wavy, Shape::Dots, Shape::BlueNoise, Shape::Hatch] {
        assert_eq!(coverage(shape, 0.05), 0, "{shape:?}: dead-zone suppresses faint ink");
    }
}

#[test]
fn bluenoise_is_deterministic_and_dots_never_merge() {
    // Deterministic: same input -> identical dots (no RNG, error diffusion).
    let (w, h) = (80usize, 80usize);
    let map = vec![0.6; w * h];
    let a = noise(&map, w, h, &base(), ALL, ALL);
    let b = noise(&map, w, h, &base(), ALL, ALL);
    assert_eq!(a, b, "deterministic dots");
    assert!(!a.is_empty(), "mid-tone produces dots");
    // Fixed radius: every dot's diameter <= max_cut (never touch a neighbour).
    for d in &a {
        let dia = 2.0 * d.r as f32 / 1e6;
        assert!(dia <= 8.01, "blue-noise dot diameter {dia} within max_cut");
    }
}

#[test]
fn bluenoise_dot_size_tracks_tone() {
    // Horizontal tone ramp: dark on the LEFT (x small) -> light on the RIGHT.
    // With an open size range, dots on the dark side must be bigger than on the
    // light side. Spacing 10, min_material 2, kerf 0 -> safe_r = 4.
    let (w, h) = (200usize, 40usize);
    let map: Vec<f64> = (0..w * h)
        .map(|i| {
            let x = (i % w) as f64 / (w - 1) as f64;
            1.0 - x // left dark (1.0), right light (0.0)
        })
        .collect();
    // min_r = 0.5, max_r = 4.0 (clamped to safe_r)
    let dots = noise(&map, w, h, &base(), micro(1.0), micro(8.0));
    assert!(!dots.is_empty(), "ramp produces dots");

    // Mean radius of dots in the dark-left third vs light-right third.
    let (mut ldia, mut ln, mut rdia, mut rn) = (0.0f32, 0u32, 0.0f32, 0u32);
    for d in &dots {
        let (dia, cx) = (2.0 * d.r as f32 / 1e6, d.x as f32 / 1e6);
        if cx < w as f32 / 3.0 {
            ldia += dia;
            ln += 1;
        } else if cx > 2.0 * w as f32 / 3.0 {
            rdia += dia;
            rn += 1;
        }
    }
    assert!(ln > 0 && rn > 0, "dots on both sides ({ln} left, {rn} right)");
    let (lmean, rmean) = (ldia / ln as f32, rdia / rn as f32);
    assert!(lmean > rmean + 1.0, "dark dots bigger: left {lmean} vs right {rmean}");
}

#[test]
fn bluenoise_no_panic_when_min_cut_exceeds_safe_radius() {
    // A large min-cut (dead-zone radius) on a small cut-safe ceiling: dots at max_r.
    let (w, h) = (40usize, 40usize);
    let map = vec![1.0; w * h];
    let mut c = base();
    c.least = micro(6.0); // dead-zone radius 3.0 ...
    c.material = micro(6.0); // ... but safe_r = (10-6)/2 = 2.0 < 3.0
    c.most = max_cut_for(micro(10.0), c.material, WHOLE);
    let dots = noise(&map, w, h, &c, 0, micro(1000.0)); // must not panic
    for d in &dots {
        let dia = 2.0 * d.r as f32 / 1e6;
        assert!(dia <= 4.01, "diameter {dia} clamped to max_cut even when min-cut is large");
    }
}

#[test]
fn bluenoise_dots_never_merge_with_max_size() {
    // Full black + huge max_dot: every dot must still clamp to <= max_cut, and no
    // two placed dots overlap (centres are >= spacing apart on the grid).
    let (w, h) = (80usize, 80usize);
    let map = vec![1.0; w * h];
    let dots = noise(&map, w, h, &base(), 0, micro(1000.0));
    assert!(!dots.is_empty(), "black produces dots");
    let mut centers = Vec::new();
    for d in &dots {
        let dia = 2.0 * d.r as f32 / 1e6;
        assert!(dia <= 8.01, "diameter {dia} clamped to max_cut");
        centers.push((d.x as f32 / 1e6, d.y as f32 / 1e6));
    }
    // No two dots closer than spacing (10) -> radii (<=4 each) can't overlap.
    for i in 0..centers.len() {
        for j in (i + 1)..centers.len() {
            let dx = centers[i].0 - centers[j].0;
            let dy = centers[i].1 - centers[j].1;
            assert!((dx * dx + dy * dy).sqrt() >= 9.99, "dots >= spacing apart");
        }
    }
}

#[test]
fn hatch_lines_follow_a_diagonal_edge() {
    // A field split by a diagonal edge -> in the textured region the hatch lines
    // should run roughly ALONG the edge (~45°), not across it. Check the dominant
    // emitted segment direction is closer to 45° than to 135°.
    let (w, h) = (80usize, 80usize);
    // Diagonal ramp: value depends on (x - y) -> gradient points along (1,-1),
    // edge orientation is the (1,1) diagonal (45°).
    let map: Vec<f64> = (0..w * h)
        .map(|i| {
            let (x, y) = ((i % w) as f64, (i / w) as f64);
            (((x - y) / w as f64) * 0.5 + 0.5).clamp(0.0, 1.0)
        })
        .collect();
    let ribbons = hatch(&map, w, h, &base());
    assert!(!ribbons.is_empty(), "hatch produces ribbons over a ramp");
    assert!(ribbons.iter().all(|r| r.pts.len() >= 3), "all ribbons closed");
    // Dominant direction: sum unit segment vectors folded onto [0,180) via doubling.
    let (mut sx, mut sy) = (0.0f64, 0.0f64);
    for r in &ribbons {
        for w2 in r.pts.windows(2) {
            let (dx, dy) = ((w2[1].0 - w2[0].0) as f64, (w2[1].1 - w2[0].1) as f64);
            let a = dy.atan2(dx) * 2.0; // double-angle: direction, not sense
            let len = (dx * dx + dy * dy).sqrt();
            sx += len * a.cos();
            sy += len * a.sin();
        }
    }
    let dom = 0.5 * sy.atan2(sx); // back to [−90,90)
    let deg = dom.to_degrees().rem_euclid(180.0);
    // Edge orientation is 45°; accept within a bin's worth (~30°) of it.
    let d45 = (deg - 45.0).abs().min(180.0 - (deg - 45.0).abs());
    assert!(d45 < 30.0, "hatch aligns near the 45° edge, got {deg:.1}°");
}

#[test]
fn hatch_respects_min_spacing_across_bins() {
    // A swirl activates many orientation bins, so bin boundaries abound — the exact
    // place two cuts from different bins could crowd. Verify (independently of the
    // guard's own mask) that no two DISTINCT ribbons have pixels closer than
    // min_material: label each ribbon's pixels, then scan a min_material disk around
    // every cut pixel for a different label.
    let (w, h) = (96usize, 96usize);
    let (cx, cy) = (w as f64 / 2.0, h as f64 / 2.0);
    let map: Vec<f64> = (0..w * h)
        .map(|i| {
            let (x, y) = ((i % w) as f64 - cx, (i / w) as f64 - cy);
            // Swirl: brightness follows the polar angle -> gradient direction sweeps
            // through all orientations, exercising every bin and their boundaries.
            (y.atan2(x).sin() * 0.5 + 0.5).clamp(0.0, 1.0)
        })
        .collect();
    let ribbons = hatch(&map, w, h, &base());
    assert!(ribbons.len() > 5, "swirl activates several bins: {} ribbons", ribbons.len());

    // Label grid: which ribbon (1-based) owns each pixel; 0 = uncut.
    let mut label = vec![0u32; w * h];
    for (id, r) in ribbons.into_iter().enumerate() {
        for (i, cut) in rasterize(&[r], w, h).into_iter().enumerate() {
            if cut {
                label[i] = id as u32 + 1;
            }
        }
    }
    // The guard enforces min_material between DISTINCT cuts. Scan just inside that
    // radius (leave a 1px slack for rasterization rounding at shared edges).
    let excl = 2.0f32;
    let rad = (excl - 1.0).floor().max(0.0) as isize;
    let r2 = (excl - 1.0).max(0.0).powi(2);
    for py in 0..h as isize {
        for px in 0..w as isize {
            let me = label[py as usize * w + px as usize];
            if me == 0 {
                continue;
            }
            for dy in -rad..=rad {
                for dx in -rad..=rad {
                    if (dx * dx + dy * dy) as f32 > r2 {
                        continue;
                    }
                    let (nx, ny) = (px + dx, py + dy);
                    if nx < 0 || ny < 0 || nx >= w as isize || ny >= h as isize {
                        continue;
                    }
                    let other = label[ny as usize * w + nx as usize];
                    assert!(
                        other == 0 || other == me,
                        "cut {me} within {excl}px of cut {other} at ({px},{py}) — min-spacing violated",
                    );
                }
            }
        }
    }
}

#[test]
fn dots_never_merge() {
    // Full black: each dot's diameter must stay <= max_cut (spacing-min_material=8),
    // so adjacent dots keep standing material between them (no merged blob).
    let (w, h) = (60usize, 60usize);
    let map = vec![1.0; w * h];
    let l = lattice(w, h, 0.0);
    let dots = generate_dots(&l, &base(), &tones_at(&map, w, h, &dot_places(&l)));
    assert!(!dots.is_empty(), "full black produces dots");
    for d in &dots {
        let dia = 2.0 * d.r as f32 / 1e6;
        assert!(dia <= 8.01, "dot diameter {dia} within max_cut");
    }
}

/// A load scales the ramp and the widest cut alike.
fn loaded(load: f64) -> Cut {
    let mut c = base();
    c.load = (load * WHOLE as f64).round() as i64;
    c.most = max_cut_for(micro(10.0), c.material, c.load);
    c
}

/// The ribbons of the sheets that have any.
fn ribbons_of(cuts: Vec<Cuts>) -> Vec<Vec<Ribbon>> {
    cuts.into_iter()
        .map(|c| match c {
            Cuts::Ribbons(v) => v,
            Cuts::Dots(_) => Vec::new(),
        })
        .collect()
}

/// The magenta-heavy case: pulling ONE ink's load back must shrink that ink's
/// widest cut (so its sheet stays stiff) and leave every other ink bit-for-bit
/// untouched. The exact-equality check on C also pins the promise that load 1.0 is an
/// identity, not an approximation.
#[test]
fn per_ink_load_shrinks_only_that_ink() {
    let (w, h) = (40usize, 40usize);
    let sheet = |d: f64, load: f64| {
        let l = lattice(w, h, 0.0);
        let tones = tones_at(&vec![d; w * h], w, h, &line_middles(&l));
        let load = (load * WHOLE as f64).round() as i64;
        Sheet { lattice: l, width: Width::Loaded { load }, pattern: Pattern::Lines { tones } }
    };
    // Spacing 10, material 2: the full budget is 8.
    let full = ribbons_of(generate_all(&base(), &[sheet(1.0, 1.0), sheet(0.5, 1.0)]));
    let cut = ribbons_of(generate_all(&base(), &[sheet(1.0, 0.5), sheet(0.5, 1.0)]));
    let widest = |rs: &[Ribbon]| rs.iter().map(ribbon_width).fold(0.0f32, f32::max);

    // Saturated M clips at the budget; half load halves it.
    assert!((widest(&full[0]) - 8.0).abs() < 0.01, "M full: {}", widest(&full[0]));
    assert!((widest(&cut[0]) - 4.0).abs() < 0.01, "M loaded: {}", widest(&cut[0]));
    // Standing material — the neck the stiffness readout measures — improved.
    assert!(
        10.0 - widest(&cut[0]) > 10.0 - widest(&full[0]),
        "lowering M's load must widen M's standing material"
    );
    // C is untouched, bit-for-bit: per-ink isolation AND load-1.0 identity.
    assert_eq!(full[1].len(), cut[1].len(), "C ribbon count unchanged");
    for (a, b) in full[1].iter().zip(cut[1].iter()) {
        assert_eq!(a.pts, b.pts, "C geometry untouched by M's load");
    }
}

/// The tune loop the GUI relies on: neck width must be monotone non-decreasing
/// as load drops, so dragging the slider can never make a sheet more fragile.
#[test]
fn lower_load_never_worsens_neck() {
    let (w, h) = (48usize, 48usize);
    let mut prev = 0.0f32;
    for load in [0.4f64, 0.6, 0.8, 1.0] {
        let l = lattice(w, h, 0.0);
        let tones = tones_at(&vec![0.9; w * h], w, h, &line_middles(&l));
        let ribbons = generate_quads_capped(&l, &loaded(load), &tones);
        let (_, frag) = render_preview(&[ribbons], &[Ink::Magenta], w, h);
        let neck = frag[0].neck_thirds as f32 / 3.0;
        if prev > 0.0 {
            assert!(neck <= prev + 0.01, "neck must not grow with load: {neck} > {prev}");
        }
        prev = neck;
    }
}

#[test]
fn widths_follow_the_rule() {
    let mut c = base();
    let sp = micro(10.0);
    assert_eq!(cut_extent(share(0.5), sp, &c), micro(5.0));
    assert_eq!(cut_extent(share(0.0999), sp, &c), 0);
    assert_eq!(cut_extent(share(0.1), sp, &c) > 0, share(0.1) * 10 >= FULL);
    assert_eq!(cut_extent(FULL, sp, &c), micro(8.0));
    c.kerf = micro(6.0);
    assert_eq!(cut_extent(share(0.5), sp, &c), 0);
    assert_eq!(max_cut_for(sp, micro(2.0), WHOLE / 2), micro(4.0));
    assert_eq!(max_cut_for(sp, micro(12.0), WHOLE), 0);
    assert_eq!(tamed_cut_for(micro(9.0), sp, micro(2.0)), micro(8.0));
    assert_eq!(tamed_cut_for(micro(9.0), sp, micro(12.0)), 0);
}

#[test]
fn bridges_stand_staggered() {
    let mut c = base();
    c.interval = micro(20.0);
    c.bridge = micro(4.0);
    assert!(bridge_at(&c, 0, 0) && bridge_at(&c, 0, micro(3.9)) && !bridge_at(&c, 0, micro(4.0)));
    assert!(bridge_at(&c, 0, -micro(20.0)) && !bridge_at(&c, 0, -micro(1.0)));
    for line in [-3i64, -2, 0, 1, 7] {
        for v in (-50..50).map(|k| micro(k as f64)) {
            assert_eq!(bridge_at(&c, line, v), bridge_at(&c, line + 1, v + micro(10.0)));
        }
    }
    c.interval = 0;
    assert!(!bridge_at(&c, 0, 0));
}

#[test]
fn lines_turn_about_the_middle() {
    let l = lattice(40, 20, 90.0);
    assert_eq!(place_of(&l, 0, 0), (micro(20.0), micro(10.0)));
    assert_eq!(place_of(&l, 0, micro(5.0)), (micro(20.0), micro(15.0)));
    assert_eq!(to_milli((micro(1.5), -micro(2.25))), (1500, -2250));
    // Half the diagonal of 30 by 40 and a spacing.
    assert_eq!(reach(&lattice(30, 40, 0.0)), micro(35.0));
    assert_eq!(segment(micro(10.0)), micro(4.0));
    assert_eq!(segment(micro(3.0)), micro(1.5));
    assert_eq!(segment(micro(0.2)), micro(0.5));
}

#[test]
fn a_line_is_one_exact_outline() {
    // A canvas 8 by 10: the middle line at y = 5, cut 5 wide over its whole length.
    let r = quads(&vec![0.5; 80], 8, 10, 0.0, &base());
    assert_eq!(r.len(), 1);
    assert_eq!(r[0].pts.len() % 2, 0);
    assert!(r[0].pts.iter().all(|p| p.1 == 2500 || p.1 == 7500));
    let n = r[0].pts.len() / 2;
    for k in 0..n {
        assert_eq!(r[0].pts[k].0, r[0].pts[2 * n - 1 - k].0);
        assert_eq!((r[0].pts[k].1, r[0].pts[2 * n - 1 - k].1), (2500, 7500));
    }
}

#[test]
fn room_narrows_cuts() {
    let l = lattice(40, 40, 0.0);
    let mids = line_middles(&l);
    let tones = vec![FULL; mids.len()];
    let room = vec![micro(1.5); mids.len()];
    let r = generate_quads_prox(&l, &base(), &tones, Some(&room));
    assert!(!r.is_empty());
    assert!(r.iter().all(|r| (ribbon_width(r) - 3.0).abs() < 0.01));
    let none = vec![-micro(1.0); mids.len()];
    assert!(generate_quads_prox(&l, &base(), &tones, Some(&none)).is_empty());
}

#[test]
fn proximity_is_the_distance_to_a_cut() {
    let (w, h) = (5usize, 4usize);
    let mut mask = vec![false; w * h];
    mask[0] = true;
    let mut field = vec![micro(2.5); w * h];
    stamp_proximity(&mask, &mut field, w, h, micro(2.5));
    assert_eq!(field[0], 0);
    assert_eq!(field[1], micro(1.0));
    assert_eq!(field[w + 1], 1_414_213);
    assert_eq!(field[2 * w + 1], 2_236_067);
    assert_eq!(field[3 * w], micro(2.5));
    assert_eq!(sample(&field, w, h, micro(0.5), 0), micro(0.5));
    assert_eq!(sample(&field, w, h, -micro(9.0), -micro(9.0)), 0);
    assert_eq!(sample(&field, w, h, micro(0.5), micro(0.5)), (micro(2.0) + 1_414_213) / 4);
}

#[test]
fn small_canvases_are_not_hatched() {
    let l = lattice(2, 40, 0.0);
    let tones = vec![vec![FULL; line_middles(&l).len()]];
    assert!(generate_hatch(&l, &[(0, TURN)], &base(), &tones).is_empty());
}

#[test]
fn later_angles_keep_clear_of_earlier_ones() {
    // Two full screens, crossed: the second has no room beside the first.
    let l = lattice(40, 40, 0.0);
    let n = line_middles(&l).len();
    let tones = vec![vec![FULL; n], vec![FULL; n]];
    let both = generate_hatch(&l, &[(0, TURN), (TURN, 0)], &base(), &tones);
    let first = generate_quads_capped(&l, &base(), &tones[0]);
    assert_eq!(both.len(), first.len());
}

#[test]
fn waves_swing_no_farther_than_material_allows() {
    assert_eq!(swing_limit(micro(3.5), micro(10.0), micro(8.0)), micro(1.0));
    assert_eq!(swing_limit(micro(0.5), micro(10.0), micro(8.0)), micro(0.5));
    assert_eq!(swing_limit(-micro(0.5), micro(10.0), micro(8.0)), 0);
    // Flat waves are straight lines.
    let l = lattice(40, 40, 0.0);
    let (_, segs, _) = screen_counts(&l);
    let (mids, knots) = (vec![0i64; segs as usize], vec![0i64; segs as usize + 1]);
    let tones = vec![share(0.5); line_middles(&l).len()];
    let flat = generate_wavy(&l, &base(), micro(1.0), &mids, &knots, &tones);
    let straight = generate_quads_capped(&l, &base(), &tones);
    assert_eq!(flat.len(), straight.len());
    for (a, b) in flat.iter().zip(&straight) {
        assert_eq!(a.pts, b.pts);
    }
}

#[test]
fn ribbons_are_put_in_order() {
    let one = |x: i64| Ribbon { pts: vec![(x, 0), (x + 1, 0), (x, 1)] };
    let mut all = vec![one(1)];
    append_ribbons(&mut all, vec![one(2), one(3)]);
    assert_eq!(all.iter().map(|r| r.pts[0].0).collect::<Vec<i64>>(), vec![1, 2, 3]);
}

#[test]
fn runs_are_the_stretches_that_are_cut() {
    let cut = [true, true, false, true, false, false, true];
    assert_eq!(cut_runs(&cut), vec![(0, 2), (3, 4), (6, 7)]);
    assert!(cut_runs(&[false, false]).is_empty());
}

#[test]
fn diffusion_keeps_the_mean_tone() {
    let (gw, gh) = (32usize, 32usize);
    for d in [0.1, 0.25, 0.5, 0.9] {
        let dots = diffuse(&vec![share(d); gw * gh], gw, gh);
        let got = dots.len() as f64 / (gw * gh) as f64;
        assert!((got - d).abs() < 0.05, "{d}: {got}");
    }
    assert!(diffuse(&vec![0; 9], 3, 3).is_empty());
    assert_eq!(diffuse(&vec![FULL; 4], 2, 2), vec![0, 1, 3, 2]);
    // Half a tone is a dot; what it borrows makes its neighbour none.
    assert_eq!(diffuse(&[FULL / 2, FULL / 2], 2, 1), vec![0]);
}

#[test]
fn noise_cells_cover_the_canvas() {
    assert_eq!(noise_grid(95, 40, micro(10.0)), (10, 4));
    assert_eq!(noise_grid(0, 3, micro(0.5)), (1, 3));
    assert_eq!(noise_place(95, 40, micro(10.0), 11), (micro(15.0), micro(15.0)));
}

#[test]
fn no_safe_radius_means_no_dots() {
    let mut c = base();
    c.kerf = micro(8.0);
    assert!(noise(&vec![1.0; 400], 20, 20, &c, 0, micro(8.0)).is_empty());
    c.kerf = micro(2.0);
    let dots = noise(&vec![1.0; 400], 20, 20, &c, 0, micro(8.0));
    assert_eq!(dots.len(), 4);
    assert_eq!(dots[0], Dot { x: micro(5.0), y: micro(5.0), r: micro(3.0) });
}

#[test]
fn polygons_cover_their_pixels() {
    // A square from (1,1) to (4,3): pixels are tested in the middle of their rows.
    let r = Ribbon { pts: vec![(1000, 1000), (4000, 1000), (4000, 3000), (1000, 3000)] };
    let mask = rasterize(&[r], 6, 4);
    let on: Vec<usize> = (0..24).filter(|&i| mask[i]).collect();
    assert_eq!(on, vec![7, 8, 9, 10, 13, 14, 15, 16]);
    // Two points cover nothing.
    let thin = Ribbon { pts: vec![(0, 0), (5000, 3000)] };
    assert!(rasterize(&[thin], 6, 4).iter().all(|&b| !b));
}

#[test]
fn previews_stack_inks() {
    let sq = || Ribbon { pts: vec![(0, 0), (4000, 0), (4000, 4000), (0, 4000)] };
    let (img, frag) =
        render_preview(&[vec![sq()], vec![sq()], vec![]], &[Ink::Cyan, Ink::Orange, Ink::Black], 4, 4);
    // Cyan over orange lets half the green through.
    assert_eq!(img[0], [0, 127, 0]);
    assert_eq!(frag[0].removed, 16);
    assert_eq!(frag[2].removed, 0);
    assert_eq!(PX, 1_000_000);
}

#[test]
fn previews_stack_any_number_of_inks() {
    let sq = || Ribbon { pts: vec![(0, 0), (2000, 0), (2000, 2000), (0, 2000)] };
    let stack = |inks: &[Ink]| {
        let sheets: Vec<Vec<Ribbon>> = inks.iter().map(|_| vec![sq()]).collect();
        render_preview(&sheets, inks, 2, 2).0[0]
    };
    // Clear inks take nothing, however many there are.
    assert_eq!(stack(&[Ink::Magenta; 40]), [255, 0, 255]);
    // Half and half again: 255 / 128 and 255 / 256.
    assert_eq!(stack(&[Ink::Orange; 7])[1], 1);
    assert_eq!(stack(&[Ink::Orange; 8])[1], 0);
    // Seven tenths fifteen times over leave one of 255, sixteen times over nothing.
    assert_eq!(stack(&[Ink::Green; 15])[1], 1);
    assert_eq!(stack(&[Ink::Green; 16])[1], 0);
    assert_eq!(stack(&[Ink::Green; 60]), [0, 0, 0]);
}

#[test]
fn full_ink_is_never_dead() {
    // The least cut is wider than the cells: lighter tones get no dot, full ink does.
    let c = Cut { least: micro(2.0), ..base() };
    let (gw, gh) = noise_grid(6, 6, micro(1.0));
    let dots = |tone: i64| {
        generate_bluenoise(6, 6, micro(1.0), &c, micro(1.0), micro(4.0), &vec![tone; gw * gh]).len()
    };
    assert_eq!(dots(FULL), gw * gh);
    assert_eq!(dots(FULL - 1), 0);
}

#[test]
fn steps_in_width_take_the_wider_cut() {
    // One line across whose tone steps at its middle, up or down: a knot has the width of
    // the wider of the two segments that it joins.
    let l = lattice(40, 1, 0.0);
    let middles = line_middles(&l);
    for up in [true, false] {
        let width_at = |x: i64| if (x >= micro(20.0)) == up { 6000 } else { 3000 };
        let tones: Vec<i64> =
            middles.iter().map(|m| share(width_at(m.0) as f64 / 10_000.0)).collect();
        let r = generate_quads_capped(&l, &base(), &tones);
        assert_eq!(r.len(), 1);
        let pts = &r[0].pts;
        let n = pts.len() / 2;
        let segment = |j: usize| width_at((pts[j].0 + pts[j + 1].0) * 500);
        for j in 0..n {
            let before = segment(if j > 0 { j - 1 } else { 0 });
            let after = segment(if j + 1 < n { j } else { n - 2 });
            let got = (pts[j].1 - pts[2 * n - 1 - j].1).abs();
            assert!((got - before.max(after)).abs() <= 1, "knot {j}: {got}, {before}, {after}");
        }
        assert!((0..n - 2).any(|j| segment(j) != segment(j + 1)));
    }
}

#[test]
fn sheets_are_cut_in_every_pattern() {
    let (w, h) = (24usize, 24usize);
    let l = lattice(w, h, 30.0);
    let full = Width::Loaded { load: WHOLE };
    let (_, segs, _) = screen_counts(&l);
    let (gw, gh) = noise_grid(w, h, l.spacing);
    let lines = || vec![FULL; line_middles(&l).len()];
    let sheets = [
        Sheet {
            lattice: l,
            width: Width::Tamed { asked: micro(4.0) },
            pattern: Pattern::Lines { tones: lines() },
        },
        Sheet {
            lattice: l,
            width: full,
            pattern: Pattern::Waves {
                swing: 0,
                mids: vec![0; segs as usize],
                knots: vec![0; segs as usize + 1],
                tones: lines(),
            },
        },
        Sheet {
            lattice: l,
            width: full,
            pattern: Pattern::Dots { tones: vec![FULL; dot_places(&l).len()] },
        },
        Sheet {
            lattice: l,
            width: full,
            pattern: Pattern::Noise {
                dot_min: micro(1.0),
                dot_max: micro(6.0),
                tones: vec![FULL; gw * gh],
            },
        },
        Sheet {
            lattice: l,
            width: full,
            pattern: Pattern::Hatch { turns: vec![(l.sin, l.cos)], tones: vec![lines()] },
        },
    ];
    let cuts = generate_all(&base(), &sheets);
    let counts: Vec<(bool, usize)> = cuts
        .iter()
        .map(|c| match c {
            Cuts::Ribbons(v) => (true, v.len()),
            Cuts::Dots(v) => (false, v.len()),
        })
        .collect();
    let plain = Cut { most: micro(4.0), ..base() };
    assert_eq!(counts[0], (true, generate_quads_capped(&l, &plain, &lines()).len()));
    assert_eq!(counts[1].0, true);
    assert!(counts[1].1 > 0);
    assert_eq!(counts[2], (false, generate_dots(&l, &base(), &vec![FULL; dot_places(&l).len()]).len()));
    assert_eq!(counts[3], (false, gw * gh));
    assert!(counts[4].0 && counts[4].1 > 0);
    assert_eq!(limits_of(&base(), l.spacing, Width::Tamed { asked: micro(4.0) }), plain);
}

#[test]
fn a_hatch_has_one_to_twenty_four_angles() {
    assert_eq!([0u32, 1, 7, 24, 25, u32::MAX].map(bin_count), [1, 1, 7, 24, 24, 24]);
}

#[test]
fn levels_that_change_nothing_are_told() {
    let n = |v: f32| Number { bits: v.to_bits() };
    let idle = |w: f32, b: f32, g: f32| are_levels_idle(n(w), n(b), n(g));
    assert!(idle(0.0, 1.0, 1.0));
    assert!(idle(-0.0, 1.0, 1.0));
    assert!(idle(0.5, 0.5, 2.0));
    assert!(idle(0.6, 0.5, 1.0));
    assert!(!idle(0.0, 1.0, 1.5));
    assert!(!idle(0.1, 1.0, 1.0));
    assert!(!idle(0.0, 0.9, 1.0));
    assert!(!idle(f32::NAN, 1.0, 1.0));
}

#[test]
fn maps_are_read_between_their_cells() {
    let map = density_map(&[
        Share { part: 0, whole: 4 },
        Share { part: 4, whole: 4 },
        Share { part: 1, whole: 2 },
        Share { part: 1, whole: 4 },
    ]);
    assert_eq!(map, vec![0, FULL, FULL / 2, FULL / 4]);
    let got = sample_all(&map, 2, 2, &[(0, 0), (micro(1.0), 0), (micro(0.5), 0), (0, micro(9.0))]);
    assert_eq!(got, vec![0, FULL, FULL / 2, FULL / 2]);
}

fn kernel(sigma: f64) -> Vec<i64> {
    let rad = (3.0 * sigma).ceil() as i64;
    let weight = |i: i64| (-((i * i) as f64) / (2.0 * sigma * sigma)).exp() * MAX_WEIGHT as f64;
    (-rad..=rad).map(|i| weight(i).round() as i64).collect()
}

fn directions(n: usize) -> Vec<(i64, i64)> {
    (0..n)
        .map(|k| {
            let (sin, cos) = (k as f64 / n as f64 * std::f64::consts::TAU).sin_cos();
            ((cos * TURN as f64).round() as i64, (sin * TURN as f64).round() as i64)
        })
        .collect()
}

fn part(t: i64) -> f32 {
    (t as f64 / FULL as f64) as f32
}

#[test]
fn levels_maps_endpoints() {
    // Below white-point clamps to 0, above black-point clamps to 1.
    assert_eq!(levels(share(0.1), share(0.2), share(0.8)), 0);
    assert_eq!(levels(share(0.9), share(0.2), share(0.8)), FULL);
    // Midpoint of the range, gamma 1, is ~0.5.
    assert!((part(levels(share(0.5), share(0.2), share(0.8))) - 0.5).abs() < 1e-5);
}

#[test]
fn levels_degenerate_range_is_a_threshold_not_nan() {
    // wp == bp (the GUI lets both sliders sit at 0.0) must not divide by zero.
    for &(i, wp, bp) in &[(0.0, 0.0, 0.0), (0.3, 0.3, 0.3), (0.5, 0.8, 0.2)] {
        assert!(part(levels(share(i), share(wp), share(bp))).is_finite());
    }
    assert_eq!(levels(share(0.0), share(0.0), share(0.0)), FULL, "at/above wp -> 1");
    assert_eq!(levels(share(0.2), share(0.5), share(0.5)), 0, "below threshold -> 0");
}

#[test]
fn deep_clip_kills_midtones_keeps_blacks() {
    // Below Tk=0.75 -> 0 (mid-tones excluded). Above -> steep gamma, so even a
    // fairly dark 0.85 stays thin (well under linear).
    let clip = |d: f64| part(deep_clip(share(d), share(0.75))).powf(2.0);
    assert_eq!(clip(0.6), 0.0, "mid-tone clipped");
    assert_eq!(clip(0.75), 0.0, "at threshold clips");
    let d = clip(0.85); // (0.10/0.25)^2 = 0.16
    assert!((d - 0.16).abs() < 1e-4, "steep gamma keeps K thin: {d}");
    assert_eq!(clip(1.0), 1.0, "absolute black fires full");
}

#[test]
fn ucr_suppresses_k_under_cmy_overlap() {
    // Where C,M,Y all overlap dark, K is subtracted. k=0.9, cmy_min=0.5, ucr=0.8
    // -> k_ucr = 0.9 - 0.4 = 0.5, which is below Tk(0.75) => clipped to 0.
    let k = vec![share(0.9); 4];
    let cmy = vec![vec![share(0.5); 4]; 3];
    let eff = effective_k(&k, &cmy, share(0.8), share(0.75));
    assert!(eff.iter().all(|&v| v == 0), "K suppressed under CMY overlap: {eff:?}");
    // With no CMY (under_min=0), the same K survives the clip.
    let zero = vec![vec![0; 4]; 3];
    let eff2 = effective_k(&k, &zero, share(0.8), share(0.75));
    assert!(eff2.iter().all(|&v| v > 0), "K fires where CMY misses: {eff2:?}");
    // The least of the inks counts; with none of them nothing is taken off.
    let mixed = vec![vec![share(0.5); 4], vec![0; 4]];
    assert_eq!(effective_k(&k, &mixed, share(0.8), share(0.75)), eff2);
    assert_eq!(effective_k(&k, &[], share(0.8), share(0.75)), eff2);
}

#[test]
fn dog_finds_edges_not_flats() {
    // A flat field yields no DoG edges; a sharp step yields edges at the boundary.
    let (w, h) = (20usize, 20usize);
    let (narrow, wide) = (kernel(1.0), kernel(2.0));
    let flat = vec![share(0.5); w * h];
    let e_flat = dog_edges(&flat, w, h, &narrow, &wide, share(0.02));
    assert!(e_flat.iter().all(|&v| v == 0), "flat area has no edges");
    // Left half 0, right half 1 -> edge near the middle column.
    let mut step = vec![0; w * h];
    for y in 0..h {
        for x in w / 2..w {
            step[y * w + x] = FULL;
        }
    }
    let e_step = dog_edges(&step, w, h, &narrow, &wide, share(0.02));
    assert!(e_step.iter().any(|&v| v > 0), "sharp step produces edges");
}

#[test]
fn blurs_weigh_what_lies_around() {
    // One value, a kernel of three: the ends go on reflected.
    let map = [8, 0, 0, 0];
    assert_eq!(gaussian(&map, 4, 1, &[1, 2, 1]), vec![6, 2, 0, 0]);
    assert_eq!(gaussian(&map, 1, 4, &[1, 2, 1]), vec![6, 2, 0, 0]);
    assert_eq!(gaussian(&map, 2, 2, &[1]), map.to_vec());
}

#[test]
fn changes_are_sorted_by_direction() {
    let (w, h) = (9usize, 9usize);
    let dirs = directions(4);
    let at = |f: &dyn Fn(usize, usize) -> i64| -> Vec<usize> {
        let map: Vec<i64> = (0..w * h).map(|i| f(i % w, i / w) * (FULL / 20)).collect();
        orientation_bins(&map, w, h, &[1, 1, 1], &dirs)
    };
    // Along x; along the falling diagonal; along y; along the rising one; not at all.
    assert!(at(&|x, _| x as i64).iter().all(|&b| b == 0));
    assert!(at(&|x, y| (x + y) as i64).iter().all(|&b| b == 1));
    assert!(at(&|_, y| y as i64).iter().all(|&b| b == 2));
    assert!(at(&|x, y| (8 + x - y) as i64).iter().all(|&b| b == 3));
    assert!(at(&|_, _| 7).iter().all(|&b| b == 0));
    assert_eq!(mask_bin(&[5, 6, 7], &[0, 1, 0], 0), vec![5, 0, 7]);
}

#[test]
fn smoothing_keeps_edges() {
    let (w, h, rad) = (6usize, 3usize, 1usize);
    let px: Vec<[u8; 3]> =
        (0..w * h).map(|i| if i % w < 3 { [10, 10, 10] } else { [240, 240, 240] }).collect();
    let near = vec![1; 9];
    let mut alike = vec![0; MAX_UNLIKE + 1];
    alike[..2000].fill(1);
    assert_eq!(bilateral(&px, w, h, rad, &near, &alike), px, "an edge is not crossed");
    // With all colours alike it is a plain mean.
    let even = vec![1; MAX_UNLIKE + 1];
    let mean = bilateral(&px, w, h, rad, &near, &even);
    assert_eq!(mean[2], [87, 87, 87]);
    assert_eq!(mean[3], [163, 163, 163]);
    assert_eq!(mean[0], [10, 10, 10]);
}

#[test]
fn dots_are_drawn_with_as_many_sides_as_they_need() {
    assert_eq!(sides_of(0), 8);
    assert_eq!(sides_of(micro(4.0)), 17);
    assert_eq!(sides_of(micro(100.0)), 48);
    let d = Dot { x: micro(5.0), y: micro(6.0), r: micro(2.0) };
    let r = emit_dot(&d, &directions(4));
    assert_eq!(r.pts, vec![(7000, 6000), (5000, 8000), (3000, 6000), (5000, 4000)]);
}

#[test]
fn flat_tones_place_their_share_of_dots() {
    let (gw, gh) = (24usize, 20usize);
    let cells = (gw * gh) as i64;
    let lost = FULL as i128 * (9 * gw + 11 * gh) as i128 + 32 * cells as i128;
    let mut prev = 0;
    for eighths in 0..=8i64 {
        let t = FULL / 8 * eighths;
        let n = diffuse(&vec![t; gw * gh], gw, gh).len();
        let off = 32 * (FULL as i128 * n as i128 - t as i128 * cells as i128);
        assert!(off.abs() <= lost, "{n} dots at {eighths} eighths");
        assert!(n >= prev, "darker tones place no fewer dots here");
        prev = n;
    }
    assert_eq!(prev, gw * gh);
}

#[test]
fn darker_lines_cover_what_lighter_ones_do() {
    let (w, h) = (40usize, 40usize);
    let light: Vec<f64> = (0..w * h).map(|i| ((i * 7919) % 101) as f64 / 130.0).collect();
    let dark: Vec<f64> = light.iter().map(|d| (d + 0.2).min(1.0)).collect();
    let a = rasterize(&quads(&light, w, h, 0.0, &base()), w, h);
    let b = rasterize(&quads(&dark, w, h, 0.0, &base()), w, h);
    assert!(a.iter().zip(&b).all(|(&l, &d)| d || !l));
    let count = |m: &[bool]| m.iter().filter(|&&c| c).count();
    assert!(count(&a) > 0 && count(&b) > count(&a));
}

#[test]
fn later_hatching_keeps_the_least_material() {
    let (w, h) = (40usize, 40usize);
    let l = lattice(w, h, 0.0);
    let turns: Vec<(i64, i64)> = [10.0, 55.0]
        .iter()
        .map(|&deg| {
            let t = lattice(w, h, deg);
            (t.sin, t.cos)
        })
        .collect();
    // The first angle cuts the left half only, so that the second has room.
    let mut tones: Vec<Vec<i64>> = Vec::new();
    for (b, &(sin, cos)) in turns.iter().enumerate() {
        let t = Lattice { sin, cos, ..l };
        tones.push(
            line_middles(&t)
                .iter()
                .map(|p| if b == 1 || p.0 < micro(20.0) { share(0.5) } else { 0 })
                .collect(),
        );
    }
    let first = generate_hatch(&l, &turns[..1], &base(), &tones[..1]);
    let both = generate_hatch(&l, &turns, &base(), &tones);
    assert!(!first.is_empty() && both.len() > first.len());
    let mask = rasterize(&first, w, h);
    for r in &both[first.len()..] {
        for p in &r.pts {
            for q in (0..w * h).filter(|&q| mask[q]) {
                let dx = p.0 * 1000 - (q % w) as i64 * PX;
                let dy = p.1 * 1000 - (q / w) as i64 * PX;
                let gap = ((dx as f64).powi(2) + (dy as f64).powi(2)).sqrt();
                assert!(gap >= micro(2.0) as f64, "{gap} from cell {q} at {p:?}");
            }
        }
    }
}
