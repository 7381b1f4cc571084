use laser_halftone::bilateral::MAX_UNLIKE;
use laser_halftone::inks::{Ink, Inks};
use laser_halftone::number::Number;
use laser_halftone::picture::{
    group_pixels, image_png, image_size, load, load_filtered, load_pixels, pixel_bytes, sheet_png,
};
use laser_halftone::preview::{auto_levels, fill_of_ink, label_of, plan_screens, Screen};
use laser_halftone::separation::{channels, rgb_to_cmyk, separate, Share};
use laser_halftone::stencil::quantize;
use laser_halftone::text::{push_decimal, push_fixed, push_hex, push_padded};

#[test]
fn auto_levels_stretches_to_percentiles() {
    // Ink clustered in 0.2..0.8 with a couple of outliers at 0 and 1.
    // Percentile clip points must land inside the cluster, not on the outliers.
    let share = |part: u8| Share { part, whole: 5 };
    let mut map = vec![share(0); 5];
    map.extend(std::iter::repeat(share(1)).take(45));
    map.extend(std::iter::repeat(share(4)).take(45));
    map.extend(std::iter::repeat(share(5)).take(5));
    let (wp, bp) = auto_levels(&map, 60, 940).unwrap(); // clip past the 5% outlier tails
    let value = |s: Share| s.part as f32 / s.whole as f32;
    let (wp, bp) = (value(wp), value(bp));
    assert!(wp > 0.0 && wp <= 0.2, "wp ignores low outliers: {wp}");
    assert!(bp >= 0.8 && bp < 1.0, "bp ignores high outliers: {bp}");
    // Degenerate uniform map => identity, never a zero-width range.
    assert!(auto_levels(&vec![Share { part: 1, whole: 2 }; 10], 5, 995).is_none());
}

fn picture() -> Vec<[u8; 3]> {
    (0..6u8).map(|i| [i * 40, 255 - i * 30, i]).collect()
}

#[test]
fn a_picture_survives_its_file() {
    let px = picture();
    let file = image_png(&px, 3, 2).unwrap();
    assert_eq!(image_size(&file, "a.png"), Ok((3, 2)));
    assert_eq!(load_pixels(&file, "a.png", 3, 2), Ok(px.clone()));
    let layers = load(&file, "a.png", 3, 2);
    match layers {
        Ok(l) => {
            assert_eq!(l.pixels.len(), 6);
            assert_eq!(l.pixels[1], rgb_to_cmyk(px[1][0], px[1][1], px[1][2]));
        }
        Err(e) => panic!("{e}"),
    }
}

#[test]
fn filtered_pictures_are_smoothed_first() {
    let px = vec![[0u8, 0, 0], [90, 90, 90], [0, 0, 0]];
    let file = image_png(&px, 3, 1).unwrap();
    let even = vec![1i64; MAX_UNLIKE + 1];
    let near = vec![1i64; 9];
    match load_filtered(&file, "a.png", 3, 1, 1, &near, &even) {
        Ok(l) => {
            let grey = |v: u8| rgb_to_cmyk(v, v, v);
            assert_eq!(l.pixels, vec![grey(45), grey(30), grey(45)]);
        }
        Err(e) => panic!("{e}"),
    }
    assert!(load_filtered(b"", "a.png", 3, 1, 1, &near, &even).is_err());
}

#[test]
fn pictures_are_resized() {
    let file = image_png(&vec![[200, 100, 50]; 12], 4, 3).unwrap();
    let small = load_pixels(&file, "a.png", 2, 2).unwrap();
    assert_eq!(small, vec![[200, 100, 50]; 4]);
}

#[test]
fn broken_files_are_told() {
    let e = image_size(b"not a picture", "a.png").unwrap_err();
    assert!(e.starts_with("read a.png: "), "{e}");
    let e = load_pixels(b"not a picture", "a.png", 2, 2).unwrap_err();
    assert!(e.starts_with("failed to open image: "), "{e}");
    assert!(load(b"", "a.txt", 1, 1).is_err());
    // A file is read by what its name says it is.
    let file = image_png(&picture(), 3, 2).unwrap();
    assert!(image_size(&file, "a.jpg").is_err());
}

#[test]
fn sheets_keep_their_opacity() {
    let (pal, _) = quantize(&[[10, 20, 30]], 1);
    let file = sheet_png(&pal[0], &[true, false], 2, 1).unwrap();
    assert_eq!(image_size(&file, "s.png"), Ok((2, 1)));
    let rgba = image::load_from_memory(&file).unwrap().to_rgba8().into_raw();
    assert_eq!(rgba, vec![10, 20, 30, 255, 0, 0, 0, 0]);
}

#[test]
fn pixels_are_three_bytes_each() {
    let px = picture();
    let bytes = pixel_bytes(&px);
    assert_eq!(bytes.len(), 18);
    assert_eq!(&bytes[3..6], &px[1]);
    assert_eq!(group_pixels(&bytes, 6), px);
}

#[test]
fn tamed_inks_sit_over_the_others() {
    let layers = separate(&picture());
    let one = Number { bits: 1.0f32.to_bits() };
    let chans = channels(&layers, Inks::Cmykog, &[one; 6], &[one; 6]);
    let plan = plan_screens(&chans, false);
    assert_eq!(plan.len(), 6);
    for (i, s) in plan.iter().enumerate() {
        match s {
            Screen::Plain { levels } => assert!(i < 5 && levels.is_none()),
            Screen::Tamed { under } => assert_eq!((i, under), (5, &vec![0usize, 1, 2, 3, 4])),
        }
    }
    let auto = plan_screens(&chans, true);
    assert!(auto.iter().any(|s| match s {
        Screen::Plain { levels } => levels.is_some(),
        Screen::Tamed { .. } => false,
    }));
}

#[test]
fn sheets_are_labelled_by_their_ink() {
    assert_eq!(label_of(Ink::Cyan, 0, 4), "CYAN 1/4");
    assert_eq!(label_of(Ink::Orange, 3, 6), "ORANGE 4/6");
    assert_eq!(fill_of_ink(Ink::Cyan), "#00ffff");
    assert_eq!(fill_of_ink(Ink::Orange), "#ff7f00");
    assert_eq!(fill_of_ink(Ink::Green), "#00b24c");
    assert_eq!(fill_of_ink(Ink::Black), "#000000");
}

#[test]
fn numbers_are_written_out() {
    let mut s = String::new();
    push_decimal(&mut s, 0);
    push_decimal(&mut s, u64::MAX);
    s.push(' ');
    push_padded(&mut s, 7, 3);
    s.push(' ');
    push_fixed(&mut s, -1500, 3);
    push_fixed(&mut s, 5, 2);
    push_hex(&mut s, 0xaf);
    assert_eq!(s, "018446744073709551615 007 -1.5000.05af");
}
