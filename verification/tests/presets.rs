use laser_halftone::chars::comma_pieces;
use laser_halftone::inks::Inks;
use laser_halftone::number::Number;
use laser_halftone::paper::Paper;
use laser_halftone::preset::{parse_preset, parse_shape, Entry, Texts};
use laser_halftone::screen::Shape;
use laser_halftone::session::{Action, Event, Session};
use laser_halftone::settings::{
    first_angles, first_loads, knob_at, name_at, Knob, Mode, Settings, AUTO_LEVELS, BRIDGES,
    K_CONTOUR, LINES, MIN_MATERIAL_PX, NUMBERS, SPACING_PX, WAVE_AMP_FRAC, WAVE_WIDTH_FRAC,
};

fn number(v: f32) -> Number {
    Number { bits: v.to_bits() }
}

fn value(n: Number) -> f32 {
    f32::from_bits(n.bits)
}

fn apply_in(s: &mut Settings, text: &str, session: &mut Session) {
    let parse = |t: &str| t.parse::<f32>().ok().map(number);
    let entries: Vec<Entry> = parse_preset(text)
        .into_iter()
        .map(|(key, value)| Entry {
            number: parse(&value),
            pieces: comma_pieces(&value).iter().map(|p| parse(p)).collect(),
            key,
            value,
        })
        .collect();
    s.apply_preset(&entries, session);
}

fn apply(s: &mut Settings, text: &str) {
    apply_in(s, text, &mut Session::new());
}

fn write(s: &Settings) -> String {
    let words = |v: &[Number]| v.iter().map(|&n| format!("{}", value(n))).collect::<Vec<String>>();
    s.preset_string(&Texts {
        numbers: words(&s.numbers),
        angles: words(&s.angles),
        loads: words(&s.loads),
    })
}

#[test]
fn preset_round_trips_every_knob() {
    // Mutate a representative slice of knobs (scalars, bools, an enum, the ink
    // set + its angle/load vectors, paper, mode), serialize, then apply onto
    // fresh settings and confirm every value survived the text round-trip.
    let mut a = Settings::new();
    a.mode = Mode::Stencil;
    a.shape = Shape::Wavy;
    a.numbers[WAVE_AMP_FRAC] = number(0.42);
    a.numbers[WAVE_WIDTH_FRAC] = number(0.37);
    a.numbers[SPACING_PX] = number(12.5);
    a.numbers[MIN_MATERIAL_PX] = number(1.75);
    a.flags[K_CONTOUR] = true;
    a.flags[AUTO_LEVELS] = true;
    a.paper = Some(Paper::A3);
    a.inks = Inks::Cmykog;
    a.angles = first_angles(a.inks);
    a.loads = first_loads(a.inks);
    a.angles[0] = number(33.0);
    a.loads[1] = number(0.5);
    a.colors = 7;

    let text = write(&a);
    let mut b = Settings::new();
    assert_ne!(b.numbers[SPACING_PX], a.numbers[SPACING_PX], "fresh settings differ before apply");
    let mut session = Session::new();
    session.dirty = false;
    apply_in(&mut b, &text, &mut session);

    assert!(b.mode == a.mode);
    assert!(b.shape == a.shape);
    assert_eq!(b.numbers, a.numbers);
    assert_eq!(b.flags, a.flags);
    assert!(b.paper == a.paper);
    assert!(b.inks == a.inks);
    assert_eq!(b.angles, a.angles);
    assert_eq!(b.loads, a.loads);
    assert_eq!(b.colors, a.colors);
    assert_eq!(b.hatch_bins, a.hatch_bins);
    assert!(session.dirty, "loading a preset marks the preview dirty");
}

#[test]
fn apply_preset_keeps_current_on_missing_or_bad_keys() {
    let mut a = Settings::new();
    let before = a.numbers[SPACING_PX];
    // Unknown key ignored; bad value falls back to the current field.
    apply(&mut a, "nonsense_key = 5\nspacing_px = not_a_number\n");
    assert_eq!(a.numbers[SPACING_PX], before);
}

#[test]
fn apply_preset_fixes_mismatched_ink_vectors() {
    // Switching to cmykog but giving 4-length angles must not stick a bad-length
    // vector on the settings — it falls back to the ink defaults (len == count).
    let mut a = Settings::new();
    apply(&mut a, "inks = cmykog\nangles = 15,75,0,45\n");
    assert!(a.inks == Inks::Cmykog);
    assert_eq!(a.angles.len(), a.inks.count());
    assert_eq!(a.loads.len(), a.inks.count());
}

#[test]
fn vectors_of_the_wrong_length_give_the_first_ones() {
    let mut a = Settings::new();
    a.angles = [10.0, 20.0, 30.0, 40.0].iter().map(|&v| number(v)).collect();
    a.loads = [0.1, 0.2, 0.3, 0.4].iter().map(|&v| number(v)).collect();
    apply(&mut a, "angles = 1,2,3\nloads = 0.5\n");
    let angles: Vec<f32> = a.angles.iter().map(|&n| value(n)).collect();
    let loads: Vec<f32> = a.loads.iter().map(|&n| value(n)).collect();
    assert_eq!(angles, vec![15.0, 75.0, 0.0, 45.0]);
    assert_eq!(loads, vec![1.0; 4]);
    // Those of the right length are taken.
    apply(&mut a, "angles = 1,2,3,4\n");
    let angles: Vec<f32> = a.angles.iter().map(|&n| value(n)).collect();
    assert_eq!(angles, vec![1.0, 2.0, 3.0, 4.0]);
}

#[test]
fn a_preset_is_carried_over_any_settings() {
    // The settings that it is applied to have other inks, and vectors to match.
    let a = Settings::new();
    let mut b = Settings::new();
    b.inks = Inks::Cmykog;
    b.angles = vec![number(9.0); 6];
    b.loads = vec![number(0.25); 6];
    apply(&mut b, &write(&a));
    assert_eq!(write(&b), write(&a));
}

#[test]
fn presets_are_read_line_by_line() {
    let got = parse_preset("# note\n\n a = 1 \nb=2=3\nno sign\n  # c = 4\nd =");
    let want: Vec<(String, String)> = [("a", "1"), ("b", "2=3"), ("d", "")]
        .iter()
        .map(|(k, v)| (k.to_string(), v.to_string()))
        .collect();
    assert_eq!(got, want);
}

#[test]
fn an_empty_preset_changes_nothing() {
    let mut a = Settings::new();
    a.numbers[SPACING_PX] = number(3.5);
    a.flags[BRIDGES] = !a.flags[BRIDGES];
    let text = write(&a);
    apply(&mut a, "");
    assert_eq!(write(&a), text);
}

#[test]
fn shapes_are_read_by_name() {
    assert!(parse_shape("hatch") == Some(Shape::Hatch));
    assert!(parse_shape("lines") == Some(Shape::Lines));
    assert!(parse_shape("spirals").is_none());
}

#[test]
fn every_knob_has_a_line() {
    let mut seen = vec![0usize; NUMBERS];
    for j in 0..LINES {
        if let Knob::Number(i) = knob_at(j) {
            seen[i] += 1;
            assert!(!name_at(j).is_empty());
        }
    }
    assert_eq!(seen, vec![1; NUMBERS]);
    let text = write(&Settings::new());
    assert_eq!(text.lines().count(), LINES);
    assert!(text.contains("spacing_px = "));
}

#[test]
fn choosing_inks_resets_their_vectors() {
    let mut s = Settings::new();
    s.choose_inks(Inks::Cmykog);
    let angles: Vec<f32> = s.angles.iter().map(|&n| value(n)).collect();
    assert_eq!(angles, vec![15.0, 75.0, 0.0, 30.0, 60.0, 45.0]);
    assert_eq!(s.loads, vec![number(1.0); 6]);
}

#[test]
fn numbers_are_ordered_as_they_read() {
    let vs = [f32::NEG_INFINITY, -2.0, -0.5, 0.0, 1e-40, 0.5, 1.0, 3.0, f32::INFINITY];
    for &a in &vs {
        for &b in &vs {
            assert_eq!(number(a).below(number(b)), a < b, "{a} < {b}");
            assert_eq!(number(a).at_most(number(b)), a <= b, "{a} <= {b}");
        }
        assert!(!number(f32::NAN).below(number(a)) && !number(a).at_most(number(f32::NAN)));
    }
    assert!(!number(-0.0).below(number(0.0)) && number(0.0).at_most(number(-0.0)));
}

#[test]
fn one_render_runs_at_a_time() {
    let mut s = Session::new();
    s.step(Event::Edited);
    assert!(s.step(Event::Frame { image: false }) == Action::Nothing);
    assert!(s.step(Event::Frame { image: true }) == Action::Render);
    s.step(Event::Sent { taken: true });
    assert!(s.busy());
    // A change while a render runs waits for it, and is not lost.
    s.step(Event::Edited);
    assert!(s.step(Event::Frame { image: true }) == Action::Nothing);
    s.step(Event::Rendered);
    assert!(s.step(Event::Frame { image: true }) == Action::Render);
}

#[test]
fn files_are_made_one_lot_at_a_time() {
    let mut s = Session::new();
    assert!(!s.can_generate(false) && s.can_generate(true));
    assert!(s.step(Event::Asked { image: true }) == Action::Generate);
    assert!(s.busy() && !s.can_generate(true));
    assert!(s.step(Event::Asked { image: true }) == Action::Nothing);
    s.step(Event::Generated);
    assert!(s.can_generate(true));
}
