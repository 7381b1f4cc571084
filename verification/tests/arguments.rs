use laser_halftone::chars::{comma_pieces, parse_count, same_text};
use laser_halftone::cli::{
    canvas, check_after, check_before, command, parse_args, parse_flags, parse_stencil, read_input,
    Args, CliError, Command, Part, ARG_BILATERAL_PX, ARG_BLACK_POINT, ARG_BRIDGE_INTERVAL_PX,
    ARG_BRIDGE_PX, ARG_DOT_MAX_PX, ARG_GAMMA, ARG_KERF_PX, ARG_K_DEEP_CLIP, ARG_K_WIDTH_FRAC,
    ARG_MARGIN_MM, ARG_MIN_CUT_PX, ARG_MIN_MATERIAL_PX, ARG_SCURVE, ARG_SPACING_PX, ARG_UCR,
    ARG_WHITE_POINT,
};
use laser_halftone::inks::Inks;
use laser_halftone::number::Number;
use laser_halftone::paper::Paper;
use laser_halftone::preset::{find_entry, Entry};
use laser_halftone::screen::Shape;

fn number(s: &str) -> Option<Number> {
    s.parse::<f32>().ok().map(|v| Number { bits: v.to_bits() })
}

fn entries(pairs: &[(&str, &str)]) -> Vec<Entry> {
    pairs
        .iter()
        .map(|(k, v)| Entry {
            key: k.to_string(),
            value: v.to_string(),
            number: number(v),
            pieces: comma_pieces(v).iter().map(|p| number(p)).collect(),
        })
        .collect()
}

fn words(e: &CliError) -> String {
    e.message()
        .into_iter()
        .map(|p| match p {
            Part::Text(t) => t,
            Part::Value(v) => format!("{}", f32::from_bits(v.bits)),
        })
        .collect()
}

fn value(n: Number) -> f32 {
    f32::from_bits(n.bits)
}

const NEEDED: [(&str, &str); 4] =
    [("input", "a.png"), ("spacing-px", "10"), ("min-material-px", "2"), ("min-cut-px", "1")];

fn with(more: &[(&str, &str)]) -> Vec<Entry> {
    let mut v = NEEDED.to_vec();
    v.extend_from_slice(more);
    entries(&v)
}

fn refused(more: &[(&str, &str)]) -> String {
    match parse_args(&with(more)) {
        Ok(_) => String::new(),
        Err(e) => words(&e),
    }
}

fn checked(more: &[(&str, &str)]) -> String {
    let a: Args = match parse_args(&with(more)) {
        Ok(a) => a,
        Err(e) => panic!("{}", words(&e)),
    };
    let most = value(a.numbers[ARG_SPACING_PX]) - value(a.numbers[ARG_MIN_MATERIAL_PX]);
    match check_before(&a, Number { bits: most.to_bits() }, true).and_then(|_| check_after(&a)) {
        Ok(()) => String::new(),
        Err(e) => words(&e),
    }
}

#[test]
fn flags_come_in_pairs() {
    let args: Vec<String> = ["--input", "a.png", "colors", "4"].iter().map(|s| s.to_string()).collect();
    let m = match parse_flags(&args) {
        Ok(m) => m,
        Err(_) => panic!("refused"),
    };
    assert_eq!(m, vec![("input".into(), "a.png".into()), ("colors".into(), "4".into())]);
    match parse_flags(&args[..3]) {
        Ok(_) => panic!("accepted"),
        Err(e) => assert_eq!(words(&e), "missing value for --colors"),
    }
}

#[test]
fn the_last_of_two_flags_counts() {
    let es = entries(&[("a", "1"), ("b", "2"), ("a", "3")]);
    assert_eq!(find_entry(&es, "a"), Some(2));
    assert_eq!(find_entry(&es, "c"), None);
}

#[test]
fn defaults_fill_what_is_not_given() {
    let a = match parse_args(&entries(&NEEDED)) {
        Ok(a) => a,
        Err(e) => panic!("{}", words(&e)),
    };
    assert_eq!((a.input.as_str(), a.out_prefix.as_str()), ("a.png", "out"));
    assert!(a.shape == Shape::Lines && a.inks == Inks::Cmyk && a.paper.is_none());
    assert_eq!(a.hatch_bins, 6);
    assert!(!a.auto_levels && !a.k_contour);
    assert_eq!(value(a.numbers[ARG_SPACING_PX]), 10.0);
    assert_eq!(value(a.numbers[ARG_MIN_CUT_PX]), 1.0);
    assert_eq!(value(a.numbers[ARG_DOT_MAX_PX]), f32::INFINITY);
    assert_eq!(value(a.numbers[ARG_BLACK_POINT]), 1.0);
    assert_eq!(value(a.numbers[ARG_WHITE_POINT]), 0.0);
    assert_eq!(value(a.numbers[ARG_GAMMA]), 1.0);
    assert_eq!(value(a.numbers[ARG_KERF_PX]), 0.0);
    assert_eq!(value(a.numbers[ARG_BRIDGE_PX]), 0.0);
    assert_eq!(value(a.numbers[ARG_BRIDGE_INTERVAL_PX]), 0.0);
    assert_eq!(value(a.numbers[ARG_SCURVE]), 0.0);
    assert_eq!(value(a.numbers[ARG_BILATERAL_PX]), 0.0);
    assert_eq!(value(a.numbers[ARG_K_DEEP_CLIP]), 0.75);
    assert_eq!(value(a.numbers[ARG_K_WIDTH_FRAC]), 0.4);
    assert_eq!(value(a.numbers[ARG_UCR]), 0.8);
    assert_eq!(value(a.numbers[ARG_MARGIN_MM]), 10.0);
    let angles: Vec<f32> = a.angles.iter().map(|&n| value(n)).collect();
    assert_eq!(angles, vec![15.0, 75.0, 0.0, 45.0]);
    let loads: Vec<f32> = a.loads.iter().map(|&n| value(n)).collect();
    assert_eq!(loads, vec![1.0; 4]);
}

#[test]
fn given_arguments_are_taken() {
    let a = match parse_args(&with(&[
        ("shape", "blue-noise"),
        ("inks", "cmykog"),
        ("angles", "1, 2,3,4,5,6"),
        ("loads", "1,0.5,1,1,1,1"),
        ("paper", "a3"),
        ("hatch-bins", "9"),
        ("auto-levels", "on"),
        ("k-mode", "contour"),
        ("kerf-px", "nonsense"),
        ("out-prefix", "x"),
    ])) {
        Ok(a) => a,
        Err(e) => panic!("{}", words(&e)),
    };
    assert!(a.shape == Shape::BlueNoise && a.inks == Inks::Cmykog);
    assert!(a.paper == Some(Paper::A3) && a.auto_levels && a.k_contour);
    assert_eq!(a.hatch_bins, 9);
    assert_eq!(value(a.angles[1]), 2.0);
    assert_eq!(value(a.loads[1]), 0.5);
    assert_eq!(value(a.numbers[ARG_KERF_PX]), 0.0);
    assert_eq!(a.out_prefix, "x");
}

#[test]
fn single_angles_override_one_ink() {
    let a = match parse_args(&with(&[("angle-m", "33"), ("angle-k", "1.5")])) {
        Ok(a) => a,
        Err(e) => panic!("{}", words(&e)),
    };
    let angles: Vec<f32> = a.angles.iter().map(|&n| value(n)).collect();
    assert_eq!(angles, vec![15.0, 33.0, 0.0, 1.5]);
    assert_eq!(refused(&[("angle-y", "steep")]), "--angle-y must be a number");
}

#[test]
fn bad_arguments_are_named() {
    match parse_args(&entries(&NEEDED[1..])) {
        Ok(_) => panic!("accepted"),
        Err(e) => assert_eq!(words(&e), "missing required --input"),
    }
    assert_eq!(refused(&[("spacing-px", "wide")]), "--spacing-px must be a number");
    assert_eq!(refused(&[("angles", "1,x,3,4")]), "--angles must be comma-separated numbers");
    assert_eq!(refused(&[("angles", "1,2")]), "--angles needs 4 values for these inks (got 2)");
    assert_eq!(refused(&[("loads", "1")]), "--loads needs 4 values for these inks (got 1)");
    assert_eq!(refused(&[("loads", "")]), "--loads must be comma-separated numbers");
    assert_eq!(refused(&[("paper", "A6")]), "--paper must be A2|A3|A4|A5 (got A6)");
}

#[test]
fn bad_values_are_refused() {
    assert_eq!(checked(&[]), "");
    assert_eq!(checked(&[("spacing-px", "0")]), "--spacing-px must be > 0 (got 0)");
    assert_eq!(checked(&[("min-cut-px", "-1.5")]), "--min-cut-px must be > 0 (got -1.5)");
    assert_eq!(checked(&[("loads", "1,1,0,1")]), "--loads[2] must be in (0,1] (got 0)");
    assert_eq!(checked(&[("loads", "1,1,1,1.5")]), "--loads[3] must be in (0,1] (got 1.5)");
    assert_eq!(
        checked(&[("white-point", "0.5"), ("black-point", "0.5")]),
        "levels require 0 <= --white-point (0.5) < --black-point (0.5) <= 1"
    );
    assert_eq!(
        checked(&[("white-point", "0.5"), ("black-point", "0.5"), ("auto-levels", "on")]),
        ""
    );
    assert_eq!(checked(&[("gamma", "0")]), "--gamma must be > 0 (got 0)");
    assert_eq!(
        checked(&[("min-cut-px", "8")]),
        "min-cut-px (8) must be < spacing-px (10) - min-material-px (2); i.e. < 8"
    );
    assert_eq!(checked(&[("scurve", "-1")]), "--scurve must be >= 0 (got -1)");
    assert_eq!(checked(&[("kerf-px", "10")]), "--kerf-px (10) must be < spacing-px (10)");
    assert_eq!(checked(&[("k-deep-clip", "1")]), "--k-deep-clip must be in [0,1) (got 1)");
    assert_eq!(
        checked(&[("ucr", "2")]),
        "--k-gamma > 0, 0 < --k-width-frac <= 1, 0 <= --ucr <= 1 required"
    );
    assert_eq!(checked(&[("margin-mm", "-1")]), "--margin-mm must be >= 0 (got -1)");
}

#[test]
fn a_missing_file_is_told_by_its_path() {
    let a = match parse_args(&entries(&NEEDED)) {
        Ok(a) => a,
        Err(e) => panic!("{}", words(&e)),
    };
    match check_before(&a, Number { bits: 8.0f32.to_bits() }, false) {
        Ok(()) => panic!("accepted"),
        Err(e) => assert_eq!(words(&e), "input file not found: a.png"),
    }
}

fn stencil_refused(pairs: &[(&str, &str)]) -> String {
    match parse_stencil(&entries(pairs)) {
        Ok(_) => String::new(),
        Err(e) => words(&e),
    }
}

#[test]
fn stencil_arguments_are_read() {
    let s = match parse_stencil(&entries(&[("colors", "5")])) {
        Ok(s) => s,
        Err(e) => panic!("{}", words(&e)),
    };
    assert_eq!(s.colors, 5);
    assert!(!s.bridges && !s.raster);
    assert_eq!(value(s.bridge_px), 0.0);
    assert_eq!(value(s.min_feature_px), 3.0);
    assert_eq!(value(s.smooth_px), 1.5);
    assert_eq!(value(s.coarsen_px), 0.0);
    let s = match parse_stencil(&entries(&[
        ("colors", "2"),
        ("bridges", "on"),
        ("min-material-px", "4"),
        ("bridge-px", "-3"),
        ("format", "png"),
    ])) {
        Ok(s) => s,
        Err(e) => panic!("{}", words(&e)),
    };
    assert!(s.bridges && s.raster);
    // A bridge width that is not above zero is replaced by the material's.
    assert_eq!(value(s.bridge_px), 4.0);
}

#[test]
fn bad_stencil_arguments_are_named() {
    assert_eq!(stencil_refused(&[]), "missing required --colors");
    assert_eq!(stencil_refused(&[("colors", "2.5")]), "--colors must be an integer");
    assert_eq!(stencil_refused(&[("colors", "1")]), "--colors must be >= 2 (got 1)");
    assert_eq!(
        stencil_refused(&[("colors", "2"), ("bridges", "true")]),
        "--bridges on requires --min-material-px"
    );
    assert_eq!(
        stencil_refused(&[("colors", "2"), ("bridges", "1"), ("min-material-px", "x")]),
        "--min-material-px must be a number"
    );
    assert_eq!(
        stencil_refused(&[("colors", "2"), ("bridges", "on"), ("min-material-px", "0")]),
        "--min-material-px must be > 0"
    );
    assert_eq!(
        stencil_refused(&[("colors", "2"), ("gamma", "-1")]),
        "levels require 0 <= --white-point (0) < --black-point (1) <= 1 and --gamma > 0"
    );
    assert_eq!(
        stencil_refused(&[("colors", "2"), ("format", "pdf")]),
        "--format must be svg or png (got pdf)"
    );
}

#[test]
fn a_canvas_needs_an_input() {
    let given = entries(&[("input", "a.png")]);
    match canvas(&given, true, Ok((4, 3))) {
        Ok((w, h, prefix)) => assert_eq!((w, h, prefix.as_str()), (4, 3, "out")),
        Err(_) => panic!("refused"),
    }
    match canvas(&entries(&[("input", "a.png"), ("out-prefix", "b")]), true, Ok((1, 2))) {
        Ok((w, h, prefix)) => assert_eq!((w, h, prefix.as_str()), (1, 2, "b")),
        Err(_) => panic!("refused"),
    }
    let told = |es: &[Entry], exists: bool, size: Result<(usize, usize), String>| match canvas(
        es, exists, size,
    ) {
        Ok(_) => String::new(),
        Err(e) => words(&e),
    };
    assert_eq!(told(&entries(&[]), true, Ok((4, 3))), "missing required --input");
    assert_eq!(told(&given, false, Ok((4, 3))), "input file not found: a.png");
    assert_eq!(told(&given, true, Err("read a.png: no".into())), "read a.png: no");
    match read_input(&given) {
        Ok(path) => assert_eq!(path, "a.png"),
        Err(_) => panic!("refused"),
    }
}

#[test]
fn flags_name_inks_and_not_places() {
    let angles = |more: &[(&str, &str)]| match parse_args(&with(more)) {
        Ok(a) => a.angles.iter().map(|&n| value(n)).collect::<Vec<f32>>(),
        Err(e) => panic!("{}", words(&e)),
    };
    assert_eq!(
        angles(&[("inks", "cmykog"), ("angle-k", "10")]),
        vec![15.0, 75.0, 0.0, 30.0, 60.0, 10.0]
    );
    assert_eq!(
        angles(&[("inks", "cmykog"), ("angle-c", "1"), ("angle-m", "2"), ("angle-y", "3")]),
        vec![1.0, 2.0, 3.0, 30.0, 60.0, 45.0]
    );
}

#[test]
fn commands_are_told_by_the_first_word() {
    assert!(command(Some("gui")) == Command::Gui);
    assert!(command(Some("halftone")) == Command::Halftone(2));
    assert!(command(Some("stencil")) == Command::Stencil(2));
    assert!(command(Some("--input")) == Command::Halftone(1));
    assert!(command(Some("help")) == Command::Usage);
    assert!(command(None) == Command::Usage);
}

#[test]
fn counts_are_read_as_digits() {
    assert_eq!(parse_count("42", 100), Some(42));
    assert_eq!(parse_count("+7", 100), Some(7));
    assert_eq!(parse_count("101", 100), None);
    assert_eq!(parse_count("-1", 100), None);
    assert_eq!(parse_count("", 100), None);
    assert_eq!(parse_count("+", 100), None);
    assert_eq!(parse_count(" 1", 100), None);
    assert_eq!(comma_pieces(" 1, ,x"), vec!["1", "", "x"]);
    assert!(same_text("on", "on") && !same_text("on", "one"));
}
