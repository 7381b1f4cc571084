//! The command line: flags, what they ask for, and what is wrong with them.

use crate::chars::{chars_of, count_value, parse_count, same_text, text_of, text_views};
use crate::inks::{Ink, Inks};
use crate::number::Number;
use crate::paper::Paper;
use crate::preset::{
    entry_models, find_entry, given, given_numbers, inks_named, lookup, parse_inks, parse_shape,
    shape_named, Entry, EntryModel,
};
use crate::screen::Shape;
use crate::settings::{first_angles, first_loads, start_angles, start_loads};
use crate::text::{decimal, push_decimal};
use vstd::prelude::*;
use vstd::string::*;

verus! {

/// What is wrong with a command line.
pub enum CliError {
    MissingValue { key: String },
    Missing { key: &'static str },
    NotANumber { key: &'static str },
    NotAnInteger { key: &'static str },
    NotNumbers { key: &'static str },
    WrongCount { key: &'static str, want: usize, got: usize },
    BadPaper { got: String },
    NotPositive { key: &'static str, got: Number },
    BadLoad { at: usize, got: Number },
    NoInput { path: String },
    Unreadable { text: String },
    BadLevels { white: Number, black: Number },
    CutTooWide { cut: Number, spacing: Number, material: Number, most: Number },
    Negative { key: &'static str, got: Number },
    KerfTooWide { kerf: Number, spacing: Number },
    BadDeepClip { got: Number },
    BadBlack,
    TooFewColors { got: usize },
    BridgesNeedMaterial,
    BadMaterial,
    BadTone { white: Number, black: Number },
    BadFormat { got: String },
}

/// What is wrong with a command line, apart from how it is held.
pub ghost enum Fault {
    MissingValue(Seq<char>),
    Missing(Seq<char>),
    NotANumber(Seq<char>),
    NotAnInteger(Seq<char>),
    NotNumbers(Seq<char>),
    WrongCount(Seq<char>, int, int),
    BadPaper(Seq<char>),
    NotPositive(Seq<char>, Number),
    BadLoad(int, Number),
    NoInput(Seq<char>),
    Unreadable(Seq<char>),
    BadLevels(Number, Number),
    CutTooWide(Number, Number, Number, Number),
    Negative(Seq<char>, Number),
    KerfTooWide(Number, Number),
    BadDeepClip(Number),
    BadBlack,
    TooFewColors(int),
    BridgesNeedMaterial,
    BadMaterial,
    BadTone(Number, Number),
    BadFormat(Seq<char>),
}

impl CliError {
    /// What is wrong.
    pub open spec fn fault(self) -> Fault {
        match self {
            CliError::MissingValue { key } => Fault::MissingValue(key@),
            CliError::Missing { key } => Fault::Missing(key@),
            CliError::NotANumber { key } => Fault::NotANumber(key@),
            CliError::NotAnInteger { key } => Fault::NotAnInteger(key@),
            CliError::NotNumbers { key } => Fault::NotNumbers(key@),
            CliError::WrongCount { key, want, got } => Fault::WrongCount(
                key@,
                want as int,
                got as int,
            ),
            CliError::BadPaper { got } => Fault::BadPaper(got@),
            CliError::NotPositive { key, got } => Fault::NotPositive(key@, got),
            CliError::BadLoad { at, got } => Fault::BadLoad(at as int, got),
            CliError::NoInput { path } => Fault::NoInput(path@),
            CliError::Unreadable { text } => Fault::Unreadable(text@),
            CliError::BadLevels { white, black } => Fault::BadLevels(white, black),
            CliError::CutTooWide { cut, spacing, material, most } => Fault::CutTooWide(
                cut,
                spacing,
                material,
                most,
            ),
            CliError::Negative { key, got } => Fault::Negative(key@, got),
            CliError::KerfTooWide { kerf, spacing } => Fault::KerfTooWide(kerf, spacing),
            CliError::BadDeepClip { got } => Fault::BadDeepClip(got),
            CliError::BadBlack => Fault::BadBlack,
            CliError::TooFewColors { got } => Fault::TooFewColors(got as int),
            CliError::BridgesNeedMaterial => Fault::BridgesNeedMaterial,
            CliError::BadMaterial => Fault::BadMaterial,
            CliError::BadTone { white, black } => Fault::BadTone(white, black),
            CliError::BadFormat { got } => Fault::BadFormat(got@),
        }
    }
}

/// A part of a message: text, or a number that is still to be written out.
pub enum Part {
    Text(String),
    Value(Number),
}

/// A part of a message, apart from how it is held.
pub ghost enum PartModel {
    Text(Seq<char>),
    Value(Number),
}

impl Part {
    /// What the part says.
    pub open spec fn model(self) -> PartModel {
        match self {
            Part::Text(s) => PartModel::Text(s@),
            Part::Value(v) => PartModel::Value(v),
        }
    }
}

/// What a list of parts says.
pub open spec fn part_models(v: Seq<Part>) -> Seq<PartModel> {
    Seq::new(v.len(), |k: int| v[k].model())
}

/// The message for a fault, part by part.
pub open spec fn message_of(f: Fault) -> Seq<PartModel> {
    match f {
        Fault::MissingValue(key) => seq![PartModel::Text("missing value for --"@ + key)],
        Fault::Missing(key) => seq![PartModel::Text("missing required --"@ + key)],
        Fault::NotANumber(key) => seq![PartModel::Text("--"@ + key + " must be a number"@)],
        Fault::NotAnInteger(key) => seq![PartModel::Text("--"@ + key + " must be an integer"@)],
        Fault::NotNumbers(key) => seq![
            PartModel::Text("--"@ + key + " must be comma-separated numbers"@),
        ],
        Fault::WrongCount(key, want, got) => seq![
            PartModel::Text(
                "--"@ + key + " needs "@ + decimal(want as nat) + " values for these inks (got "@
                    + decimal(got as nat) + ")"@,
            ),
        ],
        Fault::BadPaper(got) => seq![
            PartModel::Text("--paper must be A2|A3|A4|A5 (got "@ + got + ")"@),
        ],
        Fault::NotPositive(key, got) => seq![
            PartModel::Text("--"@ + key + " must be > 0 (got "@),
            PartModel::Value(got),
            PartModel::Text(")"@),
        ],
        Fault::BadLoad(at, got) => seq![
            PartModel::Text("--loads["@ + decimal(at as nat) + "] must be in (0,1] (got "@),
            PartModel::Value(got),
            PartModel::Text(")"@),
        ],
        Fault::NoInput(path) => seq![PartModel::Text("input file not found: "@ + path)],
        Fault::Unreadable(text) => seq![PartModel::Text(text)],
        Fault::BadLevels(white, black) => seq![
            PartModel::Text("levels require 0 <= --white-point ("@),
            PartModel::Value(white),
            PartModel::Text(") < --black-point ("@),
            PartModel::Value(black),
            PartModel::Text(") <= 1"@),
        ],
        Fault::CutTooWide(cut, spacing, material, most) => seq![
            PartModel::Text("min-cut-px ("@),
            PartModel::Value(cut),
            PartModel::Text(") must be < spacing-px ("@),
            PartModel::Value(spacing),
            PartModel::Text(") - min-material-px ("@),
            PartModel::Value(material),
            PartModel::Text("); i.e. < "@),
            PartModel::Value(most),
        ],
        Fault::Negative(key, got) => seq![
            PartModel::Text("--"@ + key + " must be >= 0 (got "@),
            PartModel::Value(got),
            PartModel::Text(")"@),
        ],
        Fault::KerfTooWide(kerf, spacing) => seq![
            PartModel::Text("--kerf-px ("@),
            PartModel::Value(kerf),
            PartModel::Text(") must be < spacing-px ("@),
            PartModel::Value(spacing),
            PartModel::Text(")"@),
        ],
        Fault::BadDeepClip(got) => seq![
            PartModel::Text("--k-deep-clip must be in [0,1) (got "@),
            PartModel::Value(got),
            PartModel::Text(")"@),
        ],
        Fault::BadBlack => seq![
            PartModel::Text("--k-gamma > 0, 0 < --k-width-frac <= 1, 0 <= --ucr <= 1 required"@),
        ],
        Fault::TooFewColors(got) => seq![
            PartModel::Text("--colors must be >= 2 (got "@ + decimal(got as nat) + ")"@),
        ],
        Fault::BridgesNeedMaterial => seq![
            PartModel::Text("--bridges on requires --min-material-px"@),
        ],
        Fault::BadMaterial => seq![PartModel::Text("--min-material-px must be > 0"@)],
        Fault::BadTone(white, black) => seq![
            PartModel::Text("levels require 0 <= --white-point ("@),
            PartModel::Value(white),
            PartModel::Text(") < --black-point ("@),
            PartModel::Value(black),
            PartModel::Text(") <= 1 and --gamma > 0"@),
        ],
        Fault::BadFormat(got) => seq![
            PartModel::Text("--format must be svg or png (got "@ + got + ")"@),
        ],
    }
}

impl CliError {
    /// The message, part by part; see `message_of`.
    pub fn message(&self) -> (r: Vec<Part>)
        ensures
            part_models(r@) == message_of(self.fault()),
    {
        let mut r: Vec<Part> = Vec::new();
        match self {
            CliError::MissingValue { key } => {
                let mut s: String = String::from_str("missing value for --");
                s.append(key.as_str());
                r.push(Part::Text(s));
            },
            CliError::Missing { key } => {
                let mut s: String = String::from_str("missing required --");
                s.append(key);
                r.push(Part::Text(s));
            },
            CliError::NotANumber { key } => {
                let mut s: String = String::from_str("--");
                s.append(key);
                s.append(" must be a number");
                r.push(Part::Text(s));
            },
            CliError::NotAnInteger { key } => {
                let mut s: String = String::from_str("--");
                s.append(key);
                s.append(" must be an integer");
                r.push(Part::Text(s));
            },
            CliError::NotNumbers { key } => {
                let mut s: String = String::from_str("--");
                s.append(key);
                s.append(" must be comma-separated numbers");
                r.push(Part::Text(s));
            },
            CliError::WrongCount { key, want, got } => {
                let mut s: String = String::from_str("--");
                s.append(key);
                s.append(" needs ");
                push_decimal(&mut s, *want as u64);
                s.append(" values for these inks (got ");
                push_decimal(&mut s, *got as u64);
                s.append(")");
                r.push(Part::Text(s));
            },
            CliError::BadPaper { got } => {
                let mut s: String = String::from_str("--paper must be A2|A3|A4|A5 (got ");
                s.append(got.as_str());
                s.append(")");
                r.push(Part::Text(s));
            },
            CliError::NotPositive { key, got } => {
                let mut s: String = String::from_str("--");
                s.append(key);
                s.append(" must be > 0 (got ");
                r.push(Part::Text(s));
                r.push(Part::Value(*got));
                let s: String = String::from_str(")");
                r.push(Part::Text(s));
            },
            CliError::BadLoad { at, got } => {
                let mut s: String = String::from_str("--loads[");
                push_decimal(&mut s, *at as u64);
                s.append("] must be in (0,1] (got ");
                r.push(Part::Text(s));
                r.push(Part::Value(*got));
                let s: String = String::from_str(")");
                r.push(Part::Text(s));
            },
            CliError::Unreadable { text } => {
                r.push(Part::Text(text.clone()));
            },
            CliError::NoInput { path } => {
                let mut s: String = String::from_str("input file not found: ");
                s.append(path.as_str());
                r.push(Part::Text(s));
            },
            CliError::BadLevels { white, black } => {
                let s: String = String::from_str("levels require 0 <= --white-point (");
                r.push(Part::Text(s));
                r.push(Part::Value(*white));
                let s: String = String::from_str(") < --black-point (");
                r.push(Part::Text(s));
                r.push(Part::Value(*black));
                let s: String = String::from_str(") <= 1");
                r.push(Part::Text(s));
            },
            CliError::CutTooWide { cut, spacing, material, most } => {
                let s: String = String::from_str("min-cut-px (");
                r.push(Part::Text(s));
                r.push(Part::Value(*cut));
                let s: String = String::from_str(") must be < spacing-px (");
                r.push(Part::Text(s));
                r.push(Part::Value(*spacing));
                let s: String = String::from_str(") - min-material-px (");
                r.push(Part::Text(s));
                r.push(Part::Value(*material));
                let s: String = String::from_str("); i.e. < ");
                r.push(Part::Text(s));
                r.push(Part::Value(*most));
            },
            CliError::Negative { key, got } => {
                let mut s: String = String::from_str("--");
                s.append(key);
                s.append(" must be >= 0 (got ");
                r.push(Part::Text(s));
                r.push(Part::Value(*got));
                let s: String = String::from_str(")");
                r.push(Part::Text(s));
            },
            CliError::KerfTooWide { kerf, spacing } => {
                let s: String = String::from_str("--kerf-px (");
                r.push(Part::Text(s));
                r.push(Part::Value(*kerf));
                let s: String = String::from_str(") must be < spacing-px (");
                r.push(Part::Text(s));
                r.push(Part::Value(*spacing));
                let s: String = String::from_str(")");
                r.push(Part::Text(s));
            },
            CliError::BadDeepClip { got } => {
                let s: String = String::from_str("--k-deep-clip must be in [0,1) (got ");
                r.push(Part::Text(s));
                r.push(Part::Value(*got));
                let s: String = String::from_str(")");
                r.push(Part::Text(s));
            },
            CliError::BadBlack => {
                let s: String = String::from_str("--k-gamma > 0, 0 < --k-width-frac <= 1, 0 <= --ucr <= 1 required");
                r.push(Part::Text(s));
            },
            CliError::TooFewColors { got } => {
                let mut s: String = String::from_str("--colors must be >= 2 (got ");
                push_decimal(&mut s, *got as u64);
                s.append(")");
                r.push(Part::Text(s));
            },
            CliError::BridgesNeedMaterial => {
                let s: String = String::from_str("--bridges on requires --min-material-px");
                r.push(Part::Text(s));
            },
            CliError::BadMaterial => {
                let s: String = String::from_str("--min-material-px must be > 0");
                r.push(Part::Text(s));
            },
            CliError::BadTone { white, black } => {
                let s: String = String::from_str("levels require 0 <= --white-point (");
                r.push(Part::Text(s));
                r.push(Part::Value(*white));
                let s: String = String::from_str(") < --black-point (");
                r.push(Part::Text(s));
                r.push(Part::Value(*black));
                let s: String = String::from_str(") <= 1 and --gamma > 0");
                r.push(Part::Text(s));
            },
            CliError::BadFormat { got } => {
                let mut s: String = String::from_str("--format must be svg or png (got ");
                s.append(got.as_str());
                s.append(")");
                r.push(Part::Text(s));
            },
        }
        proof {
            assert(part_models(r@) =~= message_of(self.fault()));
        }
        r
    }
}

/// A flag without its dashes: two are taken off the front as often as they stand there.
pub open spec fn flag_key(s: Seq<char>) -> Seq<char>
    decreases s.len(),
{
    if s.len() >= 2 && s[0] == '-' && s[1] == '-' {
        flag_key(s.skip(2))
    } else {
        s
    }
}

/// The keys and values of the arguments from the one at `i` on: flag and value in turn. A
/// flag at the end without a value is a fault.
pub open spec fn flags_from(args: Seq<Seq<char>>, i: int) -> Result<
    Seq<(Seq<char>, Seq<char>)>,
    Fault,
>
    decreases args.len() - i,
{
    if i >= args.len() {
        Ok(Seq::empty())
    } else if i + 1 == args.len() {
        Err(Fault::MissingValue(flag_key(args[i])))
    } else {
        match flags_from(args, i + 2) {
            Ok(rest) => Ok(seq![(flag_key(args[i]), args[i + 1])] + rest),
            Err(f) => Err(f),
        }
    }
}

fn strip_dashes(s: &str) -> (r: String)
    ensures
        r@ == flag_key(s@),
{
    let v: Vec<char> = chars_of(s);
    let n: usize = v.len();
    let mut a: usize = 0;
    proof {
        assert(v@.skip(0) =~= v@);
    }
    while n - a >= 2 && v[a] == '-' && v[a + 1] == '-'
        invariant
            n == v@.len(),
            a <= n,
            flag_key(v@.skip(a as int)) == flag_key(v@),
        decreases n - a,
    {
        proof {
            assert(v@.skip(a as int).skip(2) =~= v@.skip(a + 2));
        }
        a = a + 2;
    }
    proof {
        assert(v@.skip(a as int) =~= v@.subrange(a as int, n as int));
    }
    text_of(&v, a, n)
}

/// Reads the flags of a command line; see `flags_from`.
pub fn parse_flags(args: &[String]) -> (r: Result<Vec<(String, String)>, CliError>)
    ensures
        match r {
            Ok(v) => flags_from(text_views(args@), 0) == Ok::<Seq<(Seq<char>, Seq<char>)>, Fault>(
                crate::preset::pair_views(v@),
            ),
            Err(e) => flags_from(text_views(args@), 0) == Err::<
                Seq<(Seq<char>, Seq<char>)>,
                Fault,
            >(e.fault()),
        },
{
    let ghost ts = text_views(args@);
    let mut out: Vec<(String, String)> = Vec::new();
    let mut i: usize = 0;
    proof {
        match flags_from(ts, 0) {
            Ok(rest) => {
                assert(crate::preset::pair_views(out@) + rest =~= rest);
            },
            Err(f) => {},
        }
    }
    while i < args.len()
        invariant
            ts == text_views(args@),
            i <= args@.len(),
            match flags_from(ts, i as int) {
                Ok(rest) => flags_from(ts, 0) == Ok::<Seq<(Seq<char>, Seq<char>)>, Fault>(
                    crate::preset::pair_views(out@) + rest,
                ),
                Err(f) => flags_from(ts, 0) == Err::<Seq<(Seq<char>, Seq<char>)>, Fault>(f),
            },
        decreases args@.len() - i,
    {
        proof {
            assert(ts[i as int] == args@[i as int]@);
        }
        let key: String = strip_dashes(args[i].as_str());
        if args.len() - i == 1 {
            return Err(CliError::MissingValue { key });
        }
        let ghost o0 = out@;
        let ghost pair = (key@, args@[i + 1]@);
        proof {
            assert(ts[i + 1] == args@[i + 1]@);
        }
        out.push((key, args[i + 1].clone()));
        proof {
            assert(crate::preset::pair_views(out@) =~= crate::preset::pair_views(o0).push(pair));
            match flags_from(ts, i + 2) {
                Ok(rest) => {
                    assert(crate::preset::pair_views(out@) + rest =~= crate::preset::pair_views(o0)
                        + (seq![pair] + rest));
                },
                Err(f) => {},
            }
        }
        i = i + 2;
    }
    proof {
        assert(crate::preset::pair_views(out@) + Seq::<(Seq<char>, Seq<char>)>::empty()
            =~= crate::preset::pair_views(out@));
    }
    Ok(out)
}

/// The entry under a key, the last of several.
pub open spec fn flag_of(es: Seq<EntryModel>, key: Seq<char>) -> Option<EntryModel> {
    lookup(es, key, es.len() as int)
}

/// Whether a flag has the given value.
pub open spec fn flag_is(es: Seq<EntryModel>, key: Seq<char>, value: Seq<char>) -> bool {
    flag_of(es, key) matches Some(e) && e.value == value
}

fn value_is(es: &[Entry], key: &str, value: &str) -> (b: bool)
    ensures
        b == flag_is(entry_models(es@), key@, value@),
{
    match find_entry(es, key) {
        Some(i) => same_text(es[i].value.as_str(), value),
        None => false,
    }
}

/// The number that a flag gives, or `fallback` where it gives none.
pub open spec fn number_or(es: Seq<EntryModel>, key: Seq<char>, fallback: Number) -> Number {
    match flag_of(es, key) {
        Some(e) => match e.number {
            Some(v) => v,
            None => fallback,
        },
        None => fallback,
    }
}

fn read_number_or(es: &[Entry], key: &str, fallback: Number) -> (v: Number)
    ensures
        v == number_or(entry_models(es@), key@, fallback),
{
    match find_entry(es, key) {
        Some(i) => match es[i].number {
            Some(v) => v,
            None => fallback,
        },
        None => fallback,
    }
}

/// The number that a flag must give.
pub open spec fn number_required(es: Seq<EntryModel>, key: Seq<char>) -> Result<Number, Fault> {
    match flag_of(es, key) {
        None => Err(Fault::Missing(key)),
        Some(e) => match e.number {
            Some(v) => Ok(v),
            None => Err(Fault::NotANumber(key)),
        },
    }
}

fn require_number(es: &[Entry], key: &'static str) -> (r: Result<Number, CliError>)
    ensures
        match r {
            Ok(v) => number_required(entry_models(es@), key@) == Ok::<Number, Fault>(v),
            Err(e) => number_required(entry_models(es@), key@) == Err::<Number, Fault>(e.fault()),
        },
{
    match find_entry(es, key) {
        None => Err(CliError::Missing { key }),
        Some(i) => match es[i].number {
            Some(v) => Ok(v),
            None => Err(CliError::NotANumber { key }),
        },
    }
}

/// How many numbers a halftone job takes.
pub const ARG_NUMBERS: usize = 25;

/// The place of `--spacing-px`.
pub const ARG_SPACING_PX: usize = 0;

/// The place of `--min-material-px`.
pub const ARG_MIN_MATERIAL_PX: usize = 1;

/// The place of `--min-cut-px`.
pub const ARG_MIN_CUT_PX: usize = 2;

/// The place of `--wave-amp-frac`.
pub const ARG_WAVE_AMP_FRAC: usize = 3;

/// The place of `--wave-len-frac`.
pub const ARG_WAVE_LEN_FRAC: usize = 4;

/// The place of `--wave-width-frac`.
pub const ARG_WAVE_WIDTH_FRAC: usize = 5;

/// The place of `--dot-min-px`.
pub const ARG_DOT_MIN_PX: usize = 6;

/// The place of `--dot-max-px`.
pub const ARG_DOT_MAX_PX: usize = 7;

/// The place of `--smooth-px`.
pub const ARG_SMOOTH_PX: usize = 8;

/// The place of `--white-point`.
pub const ARG_WHITE_POINT: usize = 9;

/// The place of `--black-point`.
pub const ARG_BLACK_POINT: usize = 10;

/// The place of `--gamma`.
pub const ARG_GAMMA: usize = 11;

/// The place of `--kerf-px`.
pub const ARG_KERF_PX: usize = 12;

/// The place of `--bridge-interval-px`.
pub const ARG_BRIDGE_INTERVAL_PX: usize = 13;

/// The place of `--bridge-px`.
pub const ARG_BRIDGE_PX: usize = 14;

/// The place of `--scurve`.
pub const ARG_SCURVE: usize = 15;

/// The place of `--bilateral-px`.
pub const ARG_BILATERAL_PX: usize = 16;

/// The place of `--k-deep-clip`.
pub const ARG_K_DEEP_CLIP: usize = 17;

/// The place of `--k-gamma`.
pub const ARG_K_GAMMA: usize = 18;

/// The place of `--k-width-frac`.
pub const ARG_K_WIDTH_FRAC: usize = 19;

/// The place of `--ucr`.
pub const ARG_UCR: usize = 20;

/// The place of `--dog-sigma1`.
pub const ARG_DOG_SIGMA1: usize = 21;

/// The place of `--dog-sigma2`.
pub const ARG_DOG_SIGMA2: usize = 22;

/// The place of `--dog-threshold`.
pub const ARG_DOG_THRESHOLD: usize = 23;

/// The place of `--margin-mm`.
pub const ARG_MARGIN_MM: usize = 24;

/// The flag of the number at place `i`.
pub open spec fn arg_name(i: int) -> Seq<char> {
    if i == 0 {
        "spacing-px"@
    } else if i == 1 {
        "min-material-px"@
    } else if i == 2 {
        "min-cut-px"@
    } else if i == 3 {
        "wave-amp-frac"@
    } else if i == 4 {
        "wave-len-frac"@
    } else if i == 5 {
        "wave-width-frac"@
    } else if i == 6 {
        "dot-min-px"@
    } else if i == 7 {
        "dot-max-px"@
    } else if i == 8 {
        "smooth-px"@
    } else if i == 9 {
        "white-point"@
    } else if i == 10 {
        "black-point"@
    } else if i == 11 {
        "gamma"@
    } else if i == 12 {
        "kerf-px"@
    } else if i == 13 {
        "bridge-interval-px"@
    } else if i == 14 {
        "bridge-px"@
    } else if i == 15 {
        "scurve"@
    } else if i == 16 {
        "bilateral-px"@
    } else if i == 17 {
        "k-deep-clip"@
    } else if i == 18 {
        "k-gamma"@
    } else if i == 19 {
        "k-width-frac"@
    } else if i == 20 {
        "ucr"@
    } else if i == 21 {
        "dog-sigma1"@
    } else if i == 22 {
        "dog-sigma2"@
    } else if i == 23 {
        "dog-threshold"@
    } else {
        "margin-mm"@
    }
}

/// The number at place `i` where its flag gives none.
pub open spec fn arg_default(i: int) -> Number {
    Number {
        bits: if i == 3 {
            0x3eb3_3333
        } else if i == 4 {
            0x4080_0000
        } else if i == 5 {
            0x3f80_0000
        } else if i == 6 {
            0x7f80_0000
        } else if i == 7 {
            0x7f80_0000
        } else if i == 8 {
            0x3fc0_0000
        } else if i == 9 {
            0x0000_0000
        } else if i == 10 {
            0x3f80_0000
        } else if i == 11 {
            0x3f80_0000
        } else if i == 12 {
            0x0000_0000
        } else if i == 13 {
            0x0000_0000
        } else if i == 14 {
            0x0000_0000
        } else if i == 15 {
            0x0000_0000
        } else if i == 16 {
            0x0000_0000
        } else if i == 17 {
            0x3f40_0000
        } else if i == 18 {
            0x4000_0000
        } else if i == 19 {
            0x3ecc_cccd
        } else if i == 20 {
            0x3f4c_cccd
        } else if i == 21 {
            0x3f80_0000
        } else if i == 22 {
            0x4000_0000
        } else if i == 23 {
            0x3d4c_cccd
        } else {
            0x4120_0000
        },
    }
}

fn name_of_arg(i: usize) -> (s: &'static str)
    requires
        i < ARG_NUMBERS,
    ensures
        s@ == arg_name(i as int),
{
    match i {
        0 => "spacing-px",
        1 => "min-material-px",
        2 => "min-cut-px",
        3 => "wave-amp-frac",
        4 => "wave-len-frac",
        5 => "wave-width-frac",
        6 => "dot-min-px",
        7 => "dot-max-px",
        8 => "smooth-px",
        9 => "white-point",
        10 => "black-point",
        11 => "gamma",
        12 => "kerf-px",
        13 => "bridge-interval-px",
        14 => "bridge-px",
        15 => "scurve",
        16 => "bilateral-px",
        17 => "k-deep-clip",
        18 => "k-gamma",
        19 => "k-width-frac",
        20 => "ucr",
        21 => "dog-sigma1",
        22 => "dog-sigma2",
        23 => "dog-threshold",
        _ => "margin-mm",
    }
}

fn default_of_arg(i: usize) -> (v: Number)
    requires
        3 <= i < ARG_NUMBERS,
    ensures
        v == arg_default(i as int),
{
    let bits: u32 = match i {
        3 => 0x3eb3_3333,
        4 => 0x4080_0000,
        5 => 0x3f80_0000,
        6 => 0x7f80_0000,
        7 => 0x7f80_0000,
        8 => 0x3fc0_0000,
        9 => 0x0000_0000,
        10 => 0x3f80_0000,
        11 => 0x3f80_0000,
        12 => 0x0000_0000,
        13 => 0x0000_0000,
        14 => 0x0000_0000,
        15 => 0x0000_0000,
        16 => 0x0000_0000,
        17 => 0x3f40_0000,
        18 => 0x4000_0000,
        19 => 0x3ecc_cccd,
        20 => 0x3f4c_cccd,
        21 => 0x3f80_0000,
        22 => 0x4000_0000,
        23 => 0x3d4c_cccd,
        _ => 0x4120_0000,
    };
    Number { bits }
}

/// What a halftone job is asked to do.
pub struct Args {
    pub input: String,
    pub out_prefix: String,
    pub shape: Shape,
    /// The numbers, each at its place.
    pub numbers: Vec<Number>,
    pub hatch_bins: u32,
    pub inks: Inks,
    /// One screen angle for each ink.
    pub angles: Vec<Number>,
    /// One load for each ink.
    pub loads: Vec<Number>,
    pub auto_levels: bool,
    pub k_contour: bool,
    pub paper: Option<Paper>,
}

/// What a halftone job is asked to do, apart from how it is held.
pub ghost struct ArgsModel {
    pub input: Seq<char>,
    pub out_prefix: Seq<char>,
    pub shape: Shape,
    pub numbers: Seq<Number>,
    pub hatch_bins: u32,
    pub inks: Inks,
    pub angles: Seq<Number>,
    pub loads: Seq<Number>,
    pub auto_levels: bool,
    pub k_contour: bool,
    pub paper: Option<Paper>,
}

impl Args {
    /// What the job is asked to do.
    pub open spec fn model(self) -> ArgsModel {
        ArgsModel {
            input: self.input@,
            out_prefix: self.out_prefix@,
            shape: self.shape,
            numbers: self.numbers@,
            hatch_bins: self.hatch_bins,
            inks: self.inks,
            angles: self.angles@,
            loads: self.loads@,
            auto_levels: self.auto_levels,
            k_contour: self.k_contour,
            paper: self.paper,
        }
    }

    /// Whether there is a number for each place.
    pub open spec fn wf(self) -> bool {
        self.numbers@.len() == ARG_NUMBERS
    }
}

/// Whether all pieces are numbers.
pub open spec fn all_numbers(pieces: Seq<Option<Number>>) -> bool {
    forall|i: int| 0 <= i < pieces.len() ==> (#[trigger] pieces[i]) is Some
}

/// The numbers that a flag lists, one for each of `want` inks.
pub open spec fn listed(e: EntryModel, key: Seq<char>, want: int) -> Result<Seq<Number>, Fault> {
    if !all_numbers(e.pieces) {
        Err(Fault::NotNumbers(key))
    } else if e.pieces.len() != want {
        Err(Fault::WrongCount(key, want, e.pieces.len() as int))
    } else {
        Ok(given(e.pieces, e.pieces.len() as int))
    }
}

fn read_list(e: &Entry, key: &'static str, want: usize) -> (r: Result<Vec<Number>, CliError>)
    ensures
        match r {
            Ok(v) => listed(e.model(), key@, want as int) == Ok::<Seq<Number>, Fault>(v@),
            Err(x) => listed(e.model(), key@, want as int) == Err::<Seq<Number>, Fault>(x.fault()),
        },
{
    let mut all: bool = true;
    for i in 0..e.pieces.len()
        invariant
            all == forall|j: int| 0 <= j < i ==> (#[trigger] e.pieces@[j]) is Some,
    {
        if e.pieces[i].is_none() {
            all = false;
        }
    }
    if !all {
        return Err(CliError::NotNumbers { key });
    }
    if e.pieces.len() != want {
        return Err(CliError::WrongCount { key, want, got: e.pieces.len() });
    }
    Ok(given_numbers(&e.pieces))
}

/// The ink that the single flag `i` names.
pub open spec fn flag_ink(i: int) -> Ink {
    if i == 0 {
        Ink::Cyan
    } else if i == 1 {
        Ink::Magenta
    } else if i == 2 {
        Ink::Yellow
    } else {
        Ink::Black
    }
}

/// The place in a set of the ink that the single flag `i` names; black comes last in either
/// set.
pub open spec fn flag_place(inks: Inks, i: int) -> int {
    if i < 3 {
        i
    } else {
        inks.inks().len() - 1
    }
}

/// Every single flag sets the angle of the ink that it names, whatever the set.
pub proof fn lemma_flag_place(inks: Inks, i: int)
    requires
        0 <= i < 4,
    ensures
        0 <= flag_place(inks, i) < inks.inks().len(),
        inks.inks()[flag_place(inks, i)] == flag_ink(i),
{
}

/// The single flag `i`, which sets the angle of one ink.
pub open spec fn angle_flag(i: int) -> Seq<char> {
    if i == 0 {
        "angle-c"@
    } else if i == 1 {
        "angle-m"@
    } else if i == 2 {
        "angle-y"@
    } else {
        "angle-k"@
    }
}

fn flag_of_angle(i: usize) -> (s: &'static str)
    requires
        i < 4,
    ensures
        s@ == angle_flag(i as int),
{
    match i {
        0 => "angle-c",
        1 => "angle-m",
        2 => "angle-y",
        _ => "angle-k",
    }
}

/// The angles after the first `k` of the single flags were taken.
pub open spec fn angles_upto(
    es: Seq<EntryModel>,
    inks: Inks,
    base: Seq<Number>,
    k: int,
) -> Result<Seq<Number>, Fault>
    decreases k,
{
    if k <= 0 {
        Ok(base)
    } else {
        match angles_upto(es, inks, base, k - 1) {
            Err(f) => Err(f),
            Ok(a) => match flag_of(es, angle_flag(k - 1)) {
                None => Ok(a),
                Some(e) => match e.number {
                    Some(v) => Ok(a.update(flag_place(inks, k - 1), v)),
                    None => Err(Fault::NotANumber(angle_flag(k - 1))),
                },
            },
        }
    }
}

/// The angles that are asked for: the list if there is one, else those that the inks start
/// out with, each changed by its own flag.
pub open spec fn angles_asked(es: Seq<EntryModel>, inks: Inks) -> Result<Seq<Number>, Fault> {
    match flag_of(es, "angles"@) {
        Some(e) => listed(e, "angles"@, inks.inks().len() as int),
        None => angles_upto(es, inks, start_angles(inks), 4),
    }
}

fn read_angles(es: &[Entry], inks: Inks) -> (r: Result<Vec<Number>, CliError>)
    ensures
        match r {
            Ok(v) => angles_asked(entry_models(es@), inks) == Ok::<Seq<Number>, Fault>(v@),
            Err(e) => angles_asked(entry_models(es@), inks) == Err::<Seq<Number>, Fault>(
                e.fault(),
            ),
        },
{
    let ghost ms = entry_models(es@);
    if let Some(i) = find_entry(es, "angles") {
        return read_list(&es[i], "angles", inks.count());
    }
    let mut a: Vec<Number> = first_angles(inks);
    for k in 0..4usize
        invariant
            ms == entry_models(es@),
            flag_of(ms, "angles"@) is None,
            a@.len() == inks.inks().len(),
            angles_upto(ms, inks, start_angles(inks), k as int) == Ok::<Seq<Number>, Fault>(a@),
    {
        let key: &'static str = flag_of_angle(k);
        if let Some(i) = find_entry(es, key) {
            match es[i].number {
                Some(v) => {
                    a.set(if k < 3 { k } else { a.len() - 1 }, v);
                },
                None => {
                    proof {
                        lemma_angles_fail(ms, inks, start_angles(inks), k + 1, 4);
                    }
                    return Err(CliError::NotANumber { key });
                },
            }
        }
    }
    Ok(a)
}

proof fn lemma_angles_fail(es: Seq<EntryModel>, inks: Inks, base: Seq<Number>, k: int, n: int)
    requires
        0 <= k <= n,
        angles_upto(es, inks, base, k) is Err,
    ensures
        angles_upto(es, inks, base, n) == angles_upto(es, inks, base, k),
    decreases n - k,
{
    if k < n {
        lemma_angles_fail(es, inks, base, k, n - 1);
    }
}

/// The loads that are asked for.
pub open spec fn loads_asked(es: Seq<EntryModel>, inks: Inks) -> Result<Seq<Number>, Fault> {
    match flag_of(es, "loads"@) {
        Some(e) => listed(e, "loads"@, inks.inks().len() as int),
        None => Ok(start_loads(inks)),
    }
}

/// The sheet that is asked for.
pub open spec fn paper_asked(es: Seq<EntryModel>) -> Result<Option<Paper>, Fault> {
    match flag_of(es, "paper"@) {
        None => Ok(None),
        Some(e) => match Paper::named(e.value) {
            Some(p) => Ok(Some(p)),
            None => Err(Fault::BadPaper(e.value)),
        },
    }
}

/// The value of a flag, or `fallback` without it.
pub open spec fn value_or(es: Seq<EntryModel>, key: Seq<char>, fallback: Seq<char>) -> Seq<char> {
    match flag_of(es, key) {
        Some(e) => e.value,
        None => fallback,
    }
}

fn read_value_or(es: &[Entry], key: &str, fallback: &str) -> (s: String)
    ensures
        s@ == value_or(entry_models(es@), key@, fallback@),
{
    match find_entry(es, key) {
        Some(i) => es[i].value.clone(),
        None => String::from_str(fallback),
    }
}

/// The mark shape that is asked for; lines, unless another is named.
pub open spec fn shape_asked(es: Seq<EntryModel>) -> Shape {
    match flag_of(es, "shape"@) {
        Some(e) => match shape_named(e.value) {
            Some(s) => s,
            None => Shape::Lines,
        },
        None => Shape::Lines,
    }
}

/// The number of bins that is asked for.
pub open spec fn bins_asked(es: Seq<EntryModel>) -> u32 {
    match flag_of(es, "hatch-bins"@) {
        Some(e) => match count_value(e.value, u32::MAX as nat) {
            Some(v) => v as u32,
            None => 6,
        },
        None => 6,
    }
}

/// The inks that are asked for.
pub open spec fn inks_asked(es: Seq<EntryModel>) -> Inks {
    match flag_of(es, "inks"@) {
        Some(e) => inks_named(e.value),
        None => Inks::Cmyk,
    }
}

/// The numbers that are asked for, given the three that must be there.
pub open spec fn numbers_asked(es: Seq<EntryModel>, a: Number, b: Number, c: Number) -> Seq<
    Number,
> {
    Seq::new(
        ARG_NUMBERS as nat,
        |i: int|
            if i == 0 {
                a
            } else if i == 1 {
                b
            } else if i == 2 {
                c
            } else {
                number_or(es, arg_name(i), arg_default(i))
            },
    )
}

/// What a halftone job is asked to do, or the first thing that is wrong with its flags.
pub open spec fn args_asked(es: Seq<EntryModel>) -> Result<ArgsModel, Fault> {
    let inks = inks_asked(es);
    match flag_of(es, "input"@) {
        None => Err(Fault::Missing("input"@)),
        Some(input) => match (
            number_required(es, arg_name(0)),
            number_required(es, arg_name(1)),
            number_required(es, arg_name(2)),
            angles_asked(es, inks),
            loads_asked(es, inks),
            paper_asked(es),
        ) {
            (Err(f), _, _, _, _, _) => Err(f),
            (_, Err(f), _, _, _, _) => Err(f),
            (_, _, Err(f), _, _, _) => Err(f),
            (_, _, _, Err(f), _, _) => Err(f),
            (_, _, _, _, Err(f), _) => Err(f),
            (_, _, _, _, _, Err(f)) => Err(f),
            (Ok(a), Ok(b), Ok(c), Ok(angles), Ok(loads), Ok(paper)) => Ok(
                ArgsModel {
                    input: input.value,
                    out_prefix: value_or(es, "out-prefix"@, "out"@),
                    shape: shape_asked(es),
                    numbers: numbers_asked(es, a, b, c),
                    hatch_bins: bins_asked(es),
                    inks,
                    angles,
                    loads,
                    auto_levels: flag_is(es, "auto-levels"@, "on"@),
                    k_contour: flag_is(es, "k-mode"@, "contour"@),
                    paper,
                },
            ),
        },
    }
}

/// Reads what a halftone job is asked to do; see `args_asked`.
pub fn parse_args(es: &[Entry]) -> (r: Result<Args, CliError>)
    ensures
        match r {
            Ok(a) => a.wf() && args_asked(entry_models(es@)) == Ok::<ArgsModel, Fault>(a.model()),
            Err(e) => args_asked(entry_models(es@)) == Err::<ArgsModel, Fault>(e.fault()),
        },
{
    let ghost ms = entry_models(es@);
    let input: String = match find_entry(es, "input") {
        Some(i) => es[i].value.clone(),
        None => {
            return Err(CliError::Missing { key: "input" });
        },
    };
    let mut numbers: Vec<Number> = Vec::new();
    let a: Number = match require_number(es, name_of_arg(0)) {
        Ok(v) => v,
        Err(e) => {
            return Err(e);
        },
    };
    let b: Number = match require_number(es, name_of_arg(1)) {
        Ok(v) => v,
        Err(e) => {
            return Err(e);
        },
    };
    let c: Number = match require_number(es, name_of_arg(2)) {
        Ok(v) => v,
        Err(e) => {
            return Err(e);
        },
    };
    numbers.push(a);
    numbers.push(b);
    numbers.push(c);
    for i in 3..ARG_NUMBERS
        invariant
            ms == entry_models(es@),
            numbers@.len() == i,
            forall|j: int| 0 <= j < i ==> #[trigger] numbers@[j] == numbers_asked(ms, a, b, c)[j],
    {
        numbers.push(read_number_or(es, name_of_arg(i), default_of_arg(i)));
    }
    proof {
        assert(numbers@ =~= numbers_asked(ms, a, b, c));
    }
    let inks: Inks = match find_entry(es, "inks") {
        Some(i) => parse_inks(es[i].value.as_str()),
        None => Inks::Cmyk,
    };
    let angles: Vec<Number> = match read_angles(es, inks) {
        Ok(v) => v,
        Err(e) => {
            return Err(e);
        },
    };
    let loads: Vec<Number> = match find_entry(es, "loads") {
        Some(i) => match read_list(&es[i], "loads", inks.count()) {
            Ok(v) => v,
            Err(e) => {
                return Err(e);
            },
        },
        None => first_loads(inks),
    };
    let paper: Option<Paper> = match find_entry(es, "paper") {
        None => None,
        Some(i) => match Paper::parse(es[i].value.as_str()) {
            Some(p) => Some(p),
            None => {
                return Err(CliError::BadPaper { got: es[i].value.clone() });
            },
        },
    };
    let shape: Shape = match find_entry(es, "shape") {
        Some(i) => match parse_shape(es[i].value.as_str()) {
            Some(s) => s,
            None => Shape::Lines,
        },
        None => Shape::Lines,
    };
    let hatch_bins: u32 = match find_entry(es, "hatch-bins") {
        Some(i) => match parse_count(es[i].value.as_str(), u32::MAX as u64) {
            Some(v) => v as u32,
            None => 6,
        },
        None => 6,
    };
    Ok(
        Args {
            input,
            out_prefix: read_value_or(es, "out-prefix", "out"),
            shape,
            numbers,
            hatch_bins,
            inks,
            angles,
            loads,
            auto_levels: value_is(es, "auto-levels", "on"),
            k_contour: value_is(es, "k-mode", "contour"),
            paper,
        },
    )
}

/// Whether a number lies from 0 to 1.
pub open spec fn in_unit(v: Number) -> bool {
    Number::nil().le(v) && v.le(Number::unit())
}

fn is_in_unit(v: Number) -> (b: bool)
    ensures
        b == in_unit(v),
{
    Number::zero().at_most(v) && v.at_most(Number::one())
}

/// The first of the loads from the one at `i` on that is not above 0 and at most 1.
pub open spec fn bad_load(loads: Seq<Number>, i: int) -> Option<Fault>
    decreases loads.len() - i,
{
    if i >= loads.len() {
        None
    } else if !in_unit(loads[i]) || loads[i].le(Number::nil()) {
        Some(Fault::BadLoad(i, loads[i]))
    } else {
        bad_load(loads, i + 1)
    }
}

/// The first of the places from `i` up to `n` whose number is not above 0.
pub open spec fn not_positive(v: Seq<Number>, i: int, n: int) -> Option<Fault>
    decreases n - i,
{
    if i >= n {
        None
    } else if v[i].le(Number::nil()) {
        Some(Fault::NotPositive(arg_name(i), v[i]))
    } else {
        not_positive(v, i + 1, n)
    }
}

/// The first of the places from `i` up to `n` whose number is below 0.
pub open spec fn negative(v: Seq<Number>, i: int, n: int) -> Option<Fault>
    decreases n - i,
{
    if i >= n {
        None
    } else if v[i].lt(Number::nil()) {
        Some(Fault::Negative(arg_name(i), v[i]))
    } else {
        negative(v, i + 1, n)
    }
}

/// What is wrong with a job before its image is looked at. `most` is what the material
/// leaves of the spacing, and `exists` tells whether the image is there.
pub open spec fn fault_before(a: ArgsModel, most: Number, exists: bool) -> Option<Fault> {
    let v = a.numbers;
    let white = v[ARG_WHITE_POINT as int];
    let black = v[ARG_BLACK_POINT as int];
    let gamma = v[ARG_GAMMA as int];
    let cut = v[ARG_MIN_CUT_PX as int];
    let spacing = v[ARG_SPACING_PX as int];
    let kerf = v[ARG_KERF_PX as int];
    if not_positive(v, 0, 3) is Some {
        not_positive(v, 0, 3)
    } else if bad_load(a.loads, 0) is Some {
        bad_load(a.loads, 0)
    } else if !exists {
        Some(Fault::NoInput(a.input))
    } else if !a.auto_levels && (!in_unit(white) || !in_unit(black) || black.le(white)) {
        Some(Fault::BadLevels(white, black))
    } else if gamma.le(Number::nil()) {
        Some(Fault::NotPositive("gamma"@, gamma))
    } else if most.le(cut) {
        Some(Fault::CutTooWide(cut, spacing, v[ARG_MIN_MATERIAL_PX as int], most))
    } else if negative(v, ARG_KERF_PX as int, ARG_BILATERAL_PX + 1) is Some {
        negative(v, ARG_KERF_PX as int, ARG_BILATERAL_PX + 1)
    } else if spacing.le(kerf) {
        Some(Fault::KerfTooWide(kerf, spacing))
    } else {
        None
    }
}

fn find_bad_load(loads: &Vec<Number>) -> (r: Option<CliError>)
    ensures
        match r {
            Some(e) => bad_load(loads@, 0) == Some(e.fault()),
            None => bad_load(loads@, 0) is None,
        },
{
    let mut i: usize = 0;
    while i < loads.len()
        invariant
            i <= loads@.len(),
            bad_load(loads@, 0) == bad_load(loads@, i as int),
        decreases loads@.len() - i,
    {
        let l: Number = loads[i];
        if !is_in_unit(l) || l.at_most(Number::zero()) {
            return Some(CliError::BadLoad { at: i, got: l });
        }
        i = i + 1;
    }
    None
}

fn find_not_positive(v: &Vec<Number>, from: usize, n: usize) -> (r: Option<CliError>)
    requires
        from <= n <= ARG_NUMBERS,
        v@.len() == ARG_NUMBERS,
    ensures
        match r {
            Some(e) => not_positive(v@, from as int, n as int) == Some(e.fault()),
            None => not_positive(v@, from as int, n as int) is None,
        },
{
    let mut i: usize = from;
    while i < n
        invariant
            from <= i <= n <= ARG_NUMBERS,
            v@.len() == ARG_NUMBERS,
            not_positive(v@, from as int, n as int) == not_positive(v@, i as int, n as int),
        decreases n - i,
    {
        if v[i].at_most(Number::zero()) {
            return Some(CliError::NotPositive { key: name_of_arg(i), got: v[i] });
        }
        i = i + 1;
    }
    None
}

fn find_negative(v: &Vec<Number>, from: usize, n: usize) -> (r: Option<CliError>)
    requires
        from <= n <= ARG_NUMBERS,
        v@.len() == ARG_NUMBERS,
    ensures
        match r {
            Some(e) => negative(v@, from as int, n as int) == Some(e.fault()),
            None => negative(v@, from as int, n as int) is None,
        },
{
    let mut i: usize = from;
    while i < n
        invariant
            from <= i <= n <= ARG_NUMBERS,
            v@.len() == ARG_NUMBERS,
            negative(v@, from as int, n as int) == negative(v@, i as int, n as int),
        decreases n - i,
    {
        if v[i].below(Number::zero()) {
            return Some(CliError::Negative { key: name_of_arg(i), got: v[i] });
        }
        i = i + 1;
    }
    None
}

/// Tells what is wrong with a job before its image is looked at; see `fault_before`.
pub fn check_before(a: &Args, most: Number, exists: bool) -> (r: Result<(), CliError>)
    requires
        a.wf(),
    ensures
        match r {
            Ok(_) => fault_before(a.model(), most, exists) is None,
            Err(e) => fault_before(a.model(), most, exists) == Some(e.fault()),
        },
{
    if let Some(e) = find_not_positive(&a.numbers, 0, 3) {
        return Err(e);
    }
    if let Some(e) = find_bad_load(&a.loads) {
        return Err(e);
    }
    if !exists {
        return Err(CliError::NoInput { path: a.input.clone() });
    }
    let white: Number = a.numbers[ARG_WHITE_POINT];
    let black: Number = a.numbers[ARG_BLACK_POINT];
    if !a.auto_levels && (!is_in_unit(white) || !is_in_unit(black) || black.at_most(white)) {
        return Err(CliError::BadLevels { white, black });
    }
    let gamma: Number = a.numbers[ARG_GAMMA];
    if gamma.at_most(Number::zero()) {
        return Err(CliError::NotPositive { key: "gamma", got: gamma });
    }
    let cut: Number = a.numbers[ARG_MIN_CUT_PX];
    let spacing: Number = a.numbers[ARG_SPACING_PX];
    if most.at_most(cut) {
        let material: Number = a.numbers[ARG_MIN_MATERIAL_PX];
        return Err(CliError::CutTooWide { cut, spacing, material, most });
    }
    if let Some(e) = find_negative(&a.numbers, ARG_KERF_PX, ARG_BILATERAL_PX + 1) {
        return Err(e);
    }
    let kerf: Number = a.numbers[ARG_KERF_PX];
    if spacing.at_most(kerf) {
        return Err(CliError::KerfTooWide { kerf, spacing });
    }
    Ok(())
}

/// What is wrong with a job once its image is there.
pub open spec fn fault_after(a: ArgsModel) -> Option<Fault> {
    let v = a.numbers;
    let clip = v[ARG_K_DEEP_CLIP as int];
    let width = v[ARG_K_WIDTH_FRAC as int];
    let margin = v[ARG_MARGIN_MM as int];
    if !(Number::nil().le(clip) && clip.lt(Number::unit())) {
        Some(Fault::BadDeepClip(clip))
    } else if v[ARG_K_GAMMA as int].le(Number::nil()) || width.le(Number::nil())
        || Number::unit().lt(width) || !in_unit(v[ARG_UCR as int]) {
        Some(Fault::BadBlack)
    } else if margin.lt(Number::nil()) {
        Some(Fault::Negative("margin-mm"@, margin))
    } else {
        None
    }
}

/// Tells what is wrong with a job once its image is there; see `fault_after`.
pub fn check_after(a: &Args) -> (r: Result<(), CliError>)
    requires
        a.wf(),
    ensures
        match r {
            Ok(_) => fault_after(a.model()) is None,
            Err(e) => fault_after(a.model()) == Some(e.fault()),
        },
{
    let clip: Number = a.numbers[ARG_K_DEEP_CLIP];
    if !(Number::zero().at_most(clip) && clip.below(Number::one())) {
        return Err(CliError::BadDeepClip { got: clip });
    }
    let width: Number = a.numbers[ARG_K_WIDTH_FRAC];
    if a.numbers[ARG_K_GAMMA].at_most(Number::zero()) || width.at_most(Number::zero())
        || Number::one().below(width) || !is_in_unit(a.numbers[ARG_UCR]) {
        return Err(CliError::BadBlack);
    }
    let margin: Number = a.numbers[ARG_MARGIN_MM];
    if margin.below(Number::zero()) {
        return Err(CliError::Negative { key: "margin-mm", got: margin });
    }
    Ok(())
}

/// The image that a job takes.
pub open spec fn input_asked(es: Seq<EntryModel>) -> Result<Seq<char>, Fault> {
    match flag_of(es, "input"@) {
        None => Err(Fault::Missing("input"@)),
        Some(e) => Ok(e.value),
    }
}

/// Reads which image a job takes.
pub fn read_input(es: &[Entry]) -> (r: Result<String, CliError>)
    ensures
        match r {
            Ok(v) => input_asked(entry_models(es@)) == Ok::<Seq<char>, Fault>(v@),
            Err(e) => input_asked(entry_models(es@)) == Err::<Seq<char>, Fault>(e.fault()),
        },
{
    match find_entry(es, "input") {
        None => Err(CliError::Missing { key: "input" }),
        Some(i) => Ok(es[i].value.clone()),
    }
}

/// The canvas of a job: the size of its image and the prefix of the files that it writes.
/// `exists` tells whether the image is there, and `size` what reading its size gave.
pub open spec fn canvas_asked(
    es: Seq<EntryModel>,
    exists: bool,
    size: Result<(usize, usize), Seq<char>>,
) -> Result<(usize, usize, Seq<char>), Fault> {
    match input_asked(es) {
        Err(f) => Err(f),
        Ok(path) => if !exists {
            Err(Fault::NoInput(path))
        } else {
            match size {
                Ok((w, h)) => Ok((w, h, value_or(es, "out-prefix"@, "out"@))),
                Err(e) => Err(Fault::Unreadable(e)),
            }
        },
    }
}

/// What reading an image's size gave, apart from how it is held.
pub open spec fn size_model(size: Result<(usize, usize), String>) -> Result<
    (usize, usize),
    Seq<char>,
> {
    match size {
        Ok(d) => Ok(d),
        Err(e) => Err(e@),
    }
}

/// Decides on the canvas of a job; see `canvas_asked`.
pub fn canvas(es: &[Entry], exists: bool, size: Result<(usize, usize), String>) -> (r: Result<
    (usize, usize, String),
    CliError,
>)
    ensures
        match r {
            Ok(v) => canvas_asked(entry_models(es@), exists, size_model(size)) == Ok::<
                (usize, usize, Seq<char>),
                Fault,
            >((v.0, v.1, v.2@)),
            Err(e) => canvas_asked(entry_models(es@), exists, size_model(size)) == Err::<
                (usize, usize, Seq<char>),
                Fault,
            >(e.fault()),
        },
{
    let path: String = match read_input(es) {
        Ok(p) => p,
        Err(e) => return Err(e),
    };
    if !exists {
        return Err(CliError::NoInput { path });
    }
    match size {
        Ok((w, h)) => Ok((w, h, read_value_or(es, "out-prefix", "out"))),
        Err(text) => Err(CliError::Unreadable { text }),
    }
}

/// What a stencil job is asked to do.
#[derive(Clone, Copy, Debug, PartialEq, Eq, Structural)]
pub struct StencilArgs {
    pub colors: usize,
    pub bridges: bool,
    pub bridge_px: Number,
    pub min_feature_px: Number,
    pub smooth_px: Number,
    pub coarsen_px: Number,
    pub white_point: Number,
    pub black_point: Number,
    pub gamma: Number,
    /// Whether sheets are written as rasters.
    pub raster: bool,
}

/// How many colours are asked for: at least two.
pub open spec fn colors_asked(es: Seq<EntryModel>) -> Result<usize, Fault> {
    match flag_of(es, "colors"@) {
        None => Err(Fault::Missing("colors"@)),
        Some(e) => match count_value(e.value, usize::MAX as nat) {
            None => Err(Fault::NotAnInteger("colors"@)),
            Some(v) => if v < 2 {
                Err(Fault::TooFewColors(v as int))
            } else {
                Ok(v as usize)
            },
        },
    }
}

fn read_colors(es: &[Entry]) -> (r: Result<usize, CliError>)
    ensures
        match r {
            Ok(v) => colors_asked(entry_models(es@)) == Ok::<usize, Fault>(v),
            Err(e) => colors_asked(entry_models(es@)) == Err::<usize, Fault>(e.fault()),
        },
{
    match find_entry(es, "colors") {
        None => Err(CliError::Missing { key: "colors" }),
        Some(i) => match parse_count(es[i].value.as_str(), usize::MAX as u64) {
            None => Err(CliError::NotAnInteger { key: "colors" }),
            Some(v) => if v < 2 {
                Err(CliError::TooFewColors { got: v as usize })
            } else {
                Ok(v as usize)
            },
        },
    }
}

/// Whether bridges are asked for.
pub open spec fn bridges_asked(es: Seq<EntryModel>) -> bool {
    flag_is(es, "bridges"@, "on"@) || flag_is(es, "bridges"@, "true"@) || flag_is(
        es,
        "bridges"@,
        "1"@,
    )
}

/// The least material that is asked for; only bridges need it.
pub open spec fn material_asked(es: Seq<EntryModel>) -> Result<Number, Fault> {
    if !bridges_asked(es) {
        Ok(Number::nil())
    } else {
        match flag_of(es, "min-material-px"@) {
            None => Err(Fault::BridgesNeedMaterial),
            Some(e) => match e.number {
                None => Err(Fault::NotANumber("min-material-px"@)),
                Some(v) => if v.le(Number::nil()) {
                    Err(Fault::BadMaterial)
                } else {
                    Ok(v)
                },
            },
        }
    }
}

fn read_material(es: &[Entry], bridges: bool) -> (r: Result<Number, CliError>)
    requires
        bridges == bridges_asked(entry_models(es@)),
    ensures
        match r {
            Ok(v) => material_asked(entry_models(es@)) == Ok::<Number, Fault>(v),
            Err(e) => material_asked(entry_models(es@)) == Err::<Number, Fault>(e.fault()),
        },
{
    if !bridges {
        return Ok(Number::zero());
    }
    match find_entry(es, "min-material-px") {
        None => Err(CliError::BridgesNeedMaterial),
        Some(i) => match es[i].number {
            None => Err(CliError::NotANumber { key: "min-material-px" }),
            Some(v) => if v.at_most(Number::zero()) {
                Err(CliError::BadMaterial)
            } else {
                Ok(v)
            },
        },
    }
}

/// The width of bridges that is asked for: the least material, unless a width above 0 is
/// given.
pub open spec fn bridge_asked(es: Seq<EntryModel>, material: Number) -> Number {
    let v = number_or(es, "bridge-px"@, Number::nil());
    if Number::nil().lt(v) {
        v
    } else {
        material
    }
}

/// The bits of 3.
pub const THREE: u32 = 0x4040_0000;

/// The bits of 1.5.
pub const ONE_AND_A_HALF: u32 = 0x3fc0_0000;

/// What a stencil job is asked to do, or the first thing that is wrong with its flags.
pub open spec fn stencil_asked(es: Seq<EntryModel>) -> Result<StencilArgs, Fault> {
    let white = number_or(es, "white-point"@, Number::nil());
    let black = number_or(es, "black-point"@, Number::unit());
    let gamma = number_or(es, "gamma"@, Number::unit());
    let format = value_or(es, "format"@, "svg"@);
    match (colors_asked(es), material_asked(es)) {
        (Err(f), _) => Err(f),
        (_, Err(f)) => Err(f),
        (Ok(colors), Ok(material)) => {
            if gamma.le(Number::nil()) || !in_unit(white) || !in_unit(black) || black.le(white) {
                Err(Fault::BadTone(white, black))
            } else if format != "png"@ && format != "svg"@ {
                Err(Fault::BadFormat(format))
            } else {
                Ok(
                    StencilArgs {
                        colors,
                        bridges: bridges_asked(es),
                        bridge_px: bridge_asked(es, material),
                        min_feature_px: number_or(es, "min-feature-px"@, Number { bits: THREE }),
                        smooth_px: number_or(es, "smooth-px"@, Number { bits: ONE_AND_A_HALF }),
                        coarsen_px: number_or(es, "coarsen-px"@, Number::nil()),
                        white_point: white,
                        black_point: black,
                        gamma,
                        raster: format == "png"@,
                    },
                )
            }
        },
    }
}

/// Reads what a stencil job is asked to do; see `stencil_asked`.
pub fn parse_stencil(es: &[Entry]) -> (r: Result<StencilArgs, CliError>)
    ensures
        match r {
            Ok(a) => stencil_asked(entry_models(es@)) == Ok::<StencilArgs, Fault>(a),
            Err(e) => stencil_asked(entry_models(es@)) == Err::<StencilArgs, Fault>(e.fault()),
        },
{
    let colors: usize = match read_colors(es) {
        Ok(v) => v,
        Err(e) => {
            return Err(e);
        },
    };
    let bridges: bool = value_is(es, "bridges", "on") || value_is(es, "bridges", "true")
        || value_is(es, "bridges", "1");
    let material: Number = match read_material(es, bridges) {
        Ok(v) => v,
        Err(e) => {
            return Err(e);
        },
    };
    let asked: Number = read_number_or(es, "bridge-px", Number::zero());
    let bridge_px: Number = if Number::zero().below(asked) { asked } else { material };
    let min_feature_px: Number = read_number_or(es, "min-feature-px", Number { bits: THREE });
    let smooth_px: Number = read_number_or(es, "smooth-px", Number { bits: ONE_AND_A_HALF });
    let coarsen_px: Number = read_number_or(es, "coarsen-px", Number::zero());
    let white: Number = read_number_or(es, "white-point", Number::zero());
    let black: Number = read_number_or(es, "black-point", Number::one());
    let gamma: Number = read_number_or(es, "gamma", Number::one());
    if gamma.at_most(Number::zero()) || !is_in_unit(white) || !is_in_unit(black) || black.at_most(
        white,
    ) {
        return Err(CliError::BadTone { white, black });
    }
    let format: String = read_value_or(es, "format", "svg");
    let raster: bool = same_text(format.as_str(), "png");
    if !raster && !same_text(format.as_str(), "svg") {
        return Err(CliError::BadFormat { got: format });
    }
    Ok(
        StencilArgs {
            colors,
            bridges,
            bridge_px,
            min_feature_px,
            smooth_px,
            coarsen_px,
            white_point: white,
            black_point: black,
            gamma,
            raster,
        },
    )
}

/// What the program is asked to do. The number tells how many arguments come before the
/// flags.
#[derive(Clone, Copy, Debug, PartialEq, Eq, Structural)]
pub enum Command {
    Gui,
    Halftone(usize),
    Stencil(usize),
    Usage,
}

/// What the first argument asks for: a command, or a halftone job if it is a flag already.
pub open spec fn command_asked(arg: Option<Seq<char>>) -> Command {
    match arg {
        None => Command::Usage,
        Some(s) => if s == "gui"@ {
            Command::Gui
        } else if s == "halftone"@ {
            Command::Halftone(2)
        } else if s == "stencil"@ {
            Command::Stencil(2)
        } else if s.len() >= 2 && s[0] == '-' && s[1] == '-' {
            Command::Halftone(1)
        } else {
            Command::Usage
        },
    }
}

/// What the first argument asks for; see `command_asked`.
pub fn command(arg: Option<&str>) -> (c: Command)
    ensures
        c == command_asked(
            match arg {
                Some(s) => Some(s@),
                None => None,
            },
        ),
{
    match arg {
        None => Command::Usage,
        Some(s) => if same_text(s, "gui") {
            Command::Gui
        } else if same_text(s, "halftone") {
            Command::Halftone(2)
        } else if same_text(s, "stencil") {
            Command::Stencil(2)
        } else if s.unicode_len() >= 2 && s.get_char(0) == '-' && s.get_char(1) == '-' {
            Command::Halftone(1)
        } else {
            Command::Usage
        },
    }
}

} // verus!
