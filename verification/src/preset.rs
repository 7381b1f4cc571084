//! Presets: settings as plain text, one knob to a line.

use crate::chars::{
    chars_of, count_value, find, lemma_find, lemma_found_at, parse_count, same_text, text_of,
    text_views, trim, trim_range,
};
use crate::inks::Inks;
use crate::number::Number;
use crate::paper::Paper;
use crate::screen::Shape;
use crate::session::{next_session, Event, Session};
use crate::settings::{
    first_angles, first_loads, knob_at, knob_on, name_at, name_on, start_angles, start_loads, Knob,
    Mode, Model, Settings, FLAGS, LINES, NUMBERS,
};
use crate::text::{decimal, push_decimal};
use vstd::prelude::*;
use vstd::string::*;

verus! {

/// The key and value that a line holds: none if it is blank, a remark or without an equals
/// sign.
pub open spec fn line_entries(line: Seq<char>) -> Seq<(Seq<char>, Seq<char>)> {
    let t = trim(line);
    let e = find(t, '=');
    if t.len() == 0 || t[0] == '#' || e < 0 {
        Seq::empty()
    } else {
        seq![(trim(t.take(e)), trim(t.skip(e + 1)))]
    }
}

/// The keys and values of a text, line by line.
pub open spec fn entries(s: Seq<char>) -> Seq<(Seq<char>, Seq<char>)>
    decreases s.len(),
{
    let i = find(s, '\n');
    if 0 <= i < s.len() {
        line_entries(s.take(i)) + entries(s.skip(i + 1))
    } else {
        line_entries(s)
    }
}

/// The views of a list of keys and values.
pub open spec fn pair_views(v: Seq<(String, String)>) -> Seq<(Seq<char>, Seq<char>)> {
    Seq::new(v.len(), |k: int| (v[k].0@, v[k].1@))
}

/// Reads one line.
fn parse_line(v: &Vec<char>, from: usize, upto: usize, out: &mut Vec<(String, String)>)
    requires
        from <= upto <= v@.len(),
    ensures
        pair_views(final(out)@) == pair_views(old(out)@) + line_entries(
            v@.subrange(from as int, upto as int),
        ),
{
    let ghost o0 = out@;
    let ghost t = trim(v@.subrange(from as int, upto as int));
    let (a, b) = trim_range(v, from, upto);
    proof {
        lemma_find(t, '=', 0);
        assert(pair_views(out@) =~= pair_views(o0) + Seq::<(Seq<char>, Seq<char>)>::empty());
    }
    if a == b {
        return;
    }
    proof {
        assert(t[0] == v@[a as int]);
    }
    if v[a] == '#' {
        return;
    }
    let mut e: usize = a;
    while e < b && v[e] != '='
        invariant
            a <= e <= b <= v@.len(),
            forall|k: int| a <= k < e ==> #[trigger] v@[k] != '=',
        decreases b - e,
    {
        e = e + 1;
    }
    proof {
        assert forall|k: int| 0 <= k < e - a implies #[trigger] t[k] != '=' by {
            assert(t[k] == v@[a + k]);
        }
        if e < b {
            assert(t[e - a] == v@[e as int]);
        }
        lemma_found_at(t, '=', 0, e - a);
    }
    if e == b {
        return;
    }
    let (ka, kb) = trim_range(v, a, e);
    let (va, vb) = trim_range(v, e + 1, b);
    let key: String = text_of(v, ka, kb);
    let value: String = text_of(v, va, vb);
    proof {
        assert(t.take(e - a) =~= v@.subrange(a as int, e as int));
        assert(t.skip(e - a + 1) =~= v@.subrange(e + 1, b as int));
    }
    let ghost pair = (key@, value@);
    out.push((key, value));
    proof {
        assert(pair_views(out@) =~= pair_views(o0) + seq![pair]);
    }
}

/// Reads the keys and values of a text; see `entries`.
pub fn parse_preset(text: &str) -> (r: Vec<(String, String)>)
    ensures
        pair_views(r@) == entries(text@),
{
    let v: Vec<char> = chars_of(text);
    let n: usize = v.len();
    let mut out: Vec<(String, String)> = Vec::new();
    let mut start: usize = 0;
    let mut i: usize = 0;
    proof {
        assert(v@.skip(0) =~= v@);
        assert(pair_views(out@) + entries(v@) =~= entries(v@));
    }
    while i < n
        invariant
            v@ == text@,
            n == v@.len(),
            start <= i <= n,
            forall|k: int| start <= k < i ==> #[trigger] v@[k] != '\n',
            pair_views(out@) + entries(v@.skip(start as int)) == entries(v@),
        decreases n - i,
    {
        if v[i] == '\n' {
            let ghost rest = v@.skip(start as int);
            let ghost o0 = out@;
            parse_line(&v, start, i, &mut out);
            proof {
                assert forall|k: int| 0 <= k < i - start implies #[trigger] rest[k] != '\n' by {
                    assert(rest[k] == v@[start + k]);
                }
                assert(rest[i - start] == v@[i as int]);
                lemma_found_at(rest, '\n', 0, i - start);
                assert(rest.take(i - start) =~= v@.subrange(start as int, i as int));
                assert(rest.skip(i - start + 1) =~= v@.skip(i + 1));
                let l = line_entries(v@.subrange(start as int, i as int));
                assert((pair_views(o0) + l) + entries(v@.skip(i + 1)) =~= pair_views(o0) + (l
                    + entries(v@.skip(i + 1))));
            }
            start = i + 1;
        }
        i = i + 1;
    }
    let ghost rest = v@.skip(start as int);
    parse_line(&v, start, n, &mut out);
    proof {
        assert forall|k: int| 0 <= k < rest.len() implies #[trigger] rest[k] != '\n' by {
            assert(rest[k] == v@[start + k]);
        }
        lemma_found_at(rest, '\n', 0, rest.len() as int);
        assert(rest =~= v@.subrange(start as int, n as int));
    }
    out
}

/// A key and its value, with what the value reads as.
pub struct Entry {
    pub key: String,
    pub value: String,
    /// The number that the whole value reads as.
    pub number: Option<Number>,
    /// The numbers that its parts between commas read as.
    pub pieces: Vec<Option<Number>>,
}

/// What an entry says.
pub struct EntryModel {
    pub key: Seq<char>,
    pub value: Seq<char>,
    pub number: Option<Number>,
    pub pieces: Seq<Option<Number>>,
}

impl Entry {
    /// What the entry says.
    pub open spec fn model(self) -> EntryModel {
        EntryModel {
            key: self.key@,
            value: self.value@,
            number: self.number,
            pieces: self.pieces@,
        }
    }
}

/// What a list of entries says.
pub open spec fn entry_models(v: Seq<Entry>) -> Seq<EntryModel> {
    Seq::new(v.len(), |k: int| v[k].model())
}

/// The last of the first `k` entries under a key.
pub open spec fn lookup(es: Seq<EntryModel>, key: Seq<char>, k: int) -> Option<EntryModel>
    decreases k,
{
    if k <= 0 {
        None
    } else if es[k - 1].key == key {
        Some(es[k - 1])
    } else {
        lookup(es, key, k - 1)
    }
}

/// The place of the last entry under a key.
pub fn find_entry(es: &[Entry], key: &str) -> (r: Option<usize>)
    ensures
        match r {
            Some(i) => i < es@.len() && lookup(entry_models(es@), key@, es@.len() as int) == Some(
                es@[i as int].model(),
            ),
            None => lookup(entry_models(es@), key@, es@.len() as int) is None,
        },
{
    let ghost ms = entry_models(es@);
    let mut k: usize = es.len();
    while k > 0
        invariant
            ms == entry_models(es@),
            k <= es@.len(),
            lookup(ms, key@, es@.len() as int) == lookup(ms, key@, k as int),
        decreases k,
    {
        if same_text(es[k - 1].key.as_str(), key) {
            return Some(k - 1);
        }
        k = k - 1;
    }
    None
}

/// The numbers among the pieces, the others left out.
pub open spec fn given(pieces: Seq<Option<Number>>, k: int) -> Seq<Number>
    decreases k,
{
    if k <= 0 {
        Seq::empty()
    } else {
        match pieces[k - 1] {
            Some(v) => given(pieces, k - 1).push(v),
            None => given(pieces, k - 1),
        }
    }
}

/// The numbers among the pieces, the others left out.
pub fn given_numbers(pieces: &Vec<Option<Number>>) -> (r: Vec<Number>)
    ensures
        r@ == given(pieces@, pieces@.len() as int),
{
    let mut r: Vec<Number> = Vec::new();
    for k in 0..pieces.len()
        invariant
            r@ == given(pieces@, k as int),
    {
        if let Some(v) = pieces[k] {
            r.push(v);
        }
    }
    r
}

/// The text of a mark shape.
pub open spec fn shape_name(s: Shape) -> Seq<char> {
    match s {
        Shape::Lines => "lines"@,
        Shape::Wavy => "wavy"@,
        Shape::Dots => "dots"@,
        Shape::BlueNoise => "blue-noise"@,
        Shape::Hatch => "hatch"@,
    }
}

/// The mark shape that a text names.
pub open spec fn shape_named(t: Seq<char>) -> Option<Shape> {
    if t == "lines"@ {
        Some(Shape::Lines)
    } else if t == "wavy"@ {
        Some(Shape::Wavy)
    } else if t == "dots"@ {
        Some(Shape::Dots)
    } else if t == "blue-noise"@ {
        Some(Shape::BlueNoise)
    } else if t == "hatch"@ {
        Some(Shape::Hatch)
    } else {
        None
    }
}

/// The mark shape that a text names.
pub fn parse_shape(t: &str) -> (r: Option<Shape>)
    ensures
        r == shape_named(t@),
{
    if same_text(t, "lines") {
        Some(Shape::Lines)
    } else if same_text(t, "wavy") {
        Some(Shape::Wavy)
    } else if same_text(t, "dots") {
        Some(Shape::Dots)
    } else if same_text(t, "blue-noise") {
        Some(Shape::BlueNoise)
    } else if same_text(t, "hatch") {
        Some(Shape::Hatch)
    } else {
        None
    }
}

/// The text of a sheet.
pub open spec fn paper_name(p: Option<Paper>) -> Seq<char> {
    match p {
        None => "none"@,
        Some(Paper::A2) => "a2"@,
        Some(Paper::A3) => "a3"@,
        Some(Paper::A4) => "a4"@,
        Some(Paper::A5) => "a5"@,
    }
}

/// The sheet that a text names; whatever names none is raw pixels.
pub open spec fn paper_named(t: Seq<char>) -> Option<Paper> {
    if t == "a2"@ {
        Some(Paper::A2)
    } else if t == "a3"@ {
        Some(Paper::A3)
    } else if t == "a4"@ {
        Some(Paper::A4)
    } else if t == "a5"@ {
        Some(Paper::A5)
    } else {
        None
    }
}

fn parse_paper(t: &str) -> (r: Option<Paper>)
    ensures
        r == paper_named(t@),
{
    if same_text(t, "a2") {
        Some(Paper::A2)
    } else if same_text(t, "a3") {
        Some(Paper::A3)
    } else if same_text(t, "a4") {
        Some(Paper::A4)
    } else if same_text(t, "a5") {
        Some(Paper::A5)
    } else {
        None
    }
}

/// The text of a switch.
pub open spec fn flag_name(b: bool) -> Seq<char> {
    if b {
        "true"@
    } else {
        "false"@
    }
}

/// The switch that a text names.
pub open spec fn flag_named(t: Seq<char>) -> Option<bool> {
    if t == "true"@ {
        Some(true)
    } else if t == "false"@ {
        Some(false)
    } else {
        None
    }
}

fn parse_flag(t: &str) -> (r: Option<bool>)
    ensures
        r == flag_named(t@),
{
    if same_text(t, "true") {
        Some(true)
    } else if same_text(t, "false") {
        Some(false)
    } else {
        None
    }
}

/// The text of an ink set.
pub open spec fn inks_name(i: Inks) -> Seq<char> {
    match i {
        Inks::Cmyk => "cmyk"@,
        Inks::Cmykog => "cmykog"@,
    }
}

/// The ink set that a text names; whatever names none is the four inks.
pub open spec fn inks_named(t: Seq<char>) -> Inks {
    if t == "cmykog"@ {
        Inks::Cmykog
    } else {
        Inks::Cmyk
    }
}

/// The ink set that a text names.
pub fn parse_inks(t: &str) -> (r: Inks)
    ensures
        r == inks_named(t@),
{
    if same_text(t, "cmykog") {
        Inks::Cmykog
    } else {
        Inks::Cmyk
    }
}

/// The text of a mode.
pub open spec fn mode_name(m: Mode) -> Seq<char> {
    match m {
        Mode::Halftone => "halftone"@,
        Mode::Stencil => "stencil"@,
    }
}

/// The mode that a text names.
pub open spec fn mode_named(t: Seq<char>) -> Mode {
    if t == "stencil"@ {
        Mode::Stencil
    } else {
        Mode::Halftone
    }
}

/// The settings after one knob was set by the entry found for it. A value that does not
/// read as what the knob takes leaves it as it is; angles or loads of the wrong number are
/// replaced by those that the inks start out with.
pub open spec fn step(m: Model, k: Knob, found: Option<EntryModel>) -> Model {
    match found {
        None => m,
        Some(e) => match k {
            Knob::Note(_) => m,
            Knob::Mode => Model { mode: mode_named(e.value), ..m },
            Knob::Shape => match shape_named(e.value) {
                Some(s) => Model { shape: s, ..m },
                None => m,
            },
            Knob::Number(i) => match e.number {
                Some(v) => Model { numbers: m.numbers.update(i as int, v), ..m },
                None => m,
            },
            Knob::HatchBins => match count_value(e.value, u32::MAX as nat) {
                Some(v) => Model { hatch_bins: v as u32, ..m },
                None => m,
            },
            Knob::Flag(i) => match flag_named(e.value) {
                Some(b) => Model { flags: m.flags.update(i as int, b), ..m },
                None => m,
            },
            Knob::Paper => Model { paper: paper_named(e.value), ..m },
            Knob::Inks => Model { inks: inks_named(e.value), ..m },
            Knob::Angles => {
                let v = given(e.pieces, e.pieces.len() as int);
                if v.len() == m.inks.inks().len() {
                    Model { angles: v, ..m }
                } else {
                    Model { angles: start_angles(m.inks), ..m }
                }
            },
            Knob::Loads => {
                let v = given(e.pieces, e.pieces.len() as int);
                if v.len() == m.inks.inks().len() {
                    Model { loads: v, ..m }
                } else {
                    Model { loads: start_loads(m.inks), ..m }
                }
            },
            Knob::Colors => match count_value(e.value, usize::MAX as nat) {
                Some(v) => Model { colors: v as usize, ..m },
                None => m,
            },
        },
    }
}

/// The settings after the knobs on the first `j` lines were set.
pub open spec fn applied_upto(m: Model, es: Seq<EntryModel>, j: int) -> Model
    decreases j,
{
    if j <= 0 {
        m
    } else {
        step(
            applied_upto(m, es, j - 1),
            knob_on(j - 1),
            lookup(es, name_on(j - 1), es.len() as int),
        )
    }
}

/// The settings with as many angles and loads as inks; where the number is wrong, those
/// that the inks start out with.
pub open spec fn matched(m: Model) -> Model {
    Model {
        angles: if m.angles.len() == m.inks.inks().len() {
            m.angles
        } else {
            start_angles(m.inks)
        },
        loads: if m.loads.len() == m.inks.inks().len() {
            m.loads
        } else {
            start_loads(m.inks)
        },
        ..m
    }
}

/// The settings after a preset was applied over them.
pub open spec fn applied(m: Model, es: Seq<EntryModel>) -> Model {
    matched(applied_upto(m, es, LINES as int))
}

impl Settings {
    fn set_knob(&mut self, k: Knob, e: &Entry)
        requires
            old(self).numbers@.len() == NUMBERS,
            old(self).flags@.len() == FLAGS,
            k matches Knob::Number(i) ==> i < NUMBERS,
            k matches Knob::Flag(i) ==> i < FLAGS,
        ensures
            final(self).model() == step(old(self).model(), k, Some(e.model())),
            final(self).numbers@.len() == NUMBERS,
            final(self).flags@.len() == FLAGS,
    {
        let value: &str = e.value.as_str();
        match k {
            Knob::Note(_) => {},
            Knob::Mode => {
                self.mode = if same_text(value, "stencil") {
                    Mode::Stencil
                } else {
                    Mode::Halftone
                };
            },
            Knob::Shape => {
                if let Some(s) = parse_shape(value) {
                    self.shape = s;
                }
            },
            Knob::Number(i) => {
                if let Some(v) = e.number {
                    self.numbers.set(i, v);
                }
            },
            Knob::HatchBins => {
                if let Some(v) = parse_count(value, u32::MAX as u64) {
                    self.hatch_bins = v as u32;
                }
            },
            Knob::Flag(i) => {
                if let Some(b) = parse_flag(value) {
                    self.flags.set(i, b);
                }
            },
            Knob::Paper => {
                self.paper = parse_paper(value);
            },
            Knob::Inks => {
                self.inks = parse_inks(value);
            },
            Knob::Angles => {
                let v: Vec<Number> = given_numbers(&e.pieces);
                self.angles = if v.len() == self.inks.count() {
                    v
                } else {
                    first_angles(self.inks)
                };
            },
            Knob::Loads => {
                let v: Vec<Number> = given_numbers(&e.pieces);
                self.loads = if v.len() == self.inks.count() {
                    v
                } else {
                    first_loads(self.inks)
                };
            },
            Knob::Colors => {
                if let Some(v) = parse_count(value, usize::MAX as u64) {
                    self.colors = v as usize;
                }
            },
        }
    }

    /// Applies a preset over the settings, which then have to be rendered anew. Of several
    /// entries under one key the last counts. Knobs that the preset leaves out, or gives a
    /// value that does not read, stay as they are; angles and loads always match the inks.
    pub fn apply_preset(&mut self, entries: &[Entry], session: &mut Session)
        requires
            old(self).numbers@.len() == NUMBERS,
            old(self).flags@.len() == FLAGS,
        ensures
            final(self).model() == applied(old(self).model(), entry_models(entries@)),
            final(self).model().wf(),
            *final(session) == next_session(*old(session), Event::Edited),
            final(session).dirty,
    {
        let ghost m0 = self.model();
        let ghost es = entry_models(entries@);
        for j in 0..LINES
            invariant
                self.numbers@.len() == NUMBERS,
                self.flags@.len() == FLAGS,
                es == entry_models(entries@),
                self.model() == applied_upto(m0, es, j as int),
        {
            let k: Knob = knob_at(j);
            let found: Option<usize> = find_entry(entries, name_at(j));
            if let Some(i) = found {
                self.set_knob(k, &entries[i]);
            }
        }
        if self.angles.len() != self.inks.count() {
            self.angles = first_angles(self.inks);
        }
        if self.loads.len() != self.inks.count() {
            self.loads = first_loads(self.inks);
        }
        session.step(Event::Edited);
    }
}

/// The numbers of settings as text.
pub struct Texts {
    pub numbers: Vec<String>,
    pub angles: Vec<String>,
    pub loads: Vec<String>,
}

/// What those texts are.
pub struct TextsModel {
    pub numbers: Seq<Seq<char>>,
    pub angles: Seq<Seq<char>>,
    pub loads: Seq<Seq<char>>,
}

impl Texts {
    /// What the texts are.
    pub open spec fn model(self) -> TextsModel {
        TextsModel {
            numbers: text_views(self.numbers@),
            angles: text_views(self.angles@),
            loads: text_views(self.loads@),
        }
    }
}

/// The texts from the one at `i` on, with commas between.
pub open spec fn csv_from(ts: Seq<Seq<char>>, i: int) -> Seq<char>
    decreases ts.len() - i,
{
    if i >= ts.len() {
        Seq::empty()
    } else if i == ts.len() - 1 {
        ts[i]
    } else {
        ts[i].push(',') + csv_from(ts, i + 1)
    }
}

fn push_csv(s: &mut String, v: &Vec<String>)
    ensures
        final(s)@ == old(s)@ + csv_from(text_views(v@), 0),
{
    let ghost s0 = s@;
    let ghost ts = text_views(v@);
    for i in 0..v.len()
        invariant
            ts == text_views(v@),
            s@ + csv_from(ts, i as int) == s0 + csv_from(ts, 0),
    {
        proof {
            assert(ts[i as int] == v@[i as int]@);
        }
        let ghost s1 = s@;
        s.append(v[i].as_str());
        if i + 1 < v.len() {
            s.push(',');
            proof {
                assert(s@ + csv_from(ts, i + 1) =~= s1 + csv_from(ts, i as int));
            }
        } else {
            proof {
                assert(s@ + csv_from(ts, i + 1) =~= s1 + csv_from(ts, i as int));
            }
        }
    }
    proof {
        assert(s@ + csv_from(ts, ts.len() as int) =~= s@);
    }
}

/// The value on line `j` of the preset of some settings.
pub open spec fn value_on(m: Model, t: TextsModel, j: int) -> Seq<char> {
    match knob_on(j) {
        Knob::Note(_) => Seq::empty(),
        Knob::Mode => mode_name(m.mode),
        Knob::Shape => shape_name(m.shape),
        Knob::Number(i) => t.numbers[i as int],
        Knob::HatchBins => decimal(m.hatch_bins as nat),
        Knob::Flag(i) => flag_name(m.flags[i as int]),
        Knob::Paper => paper_name(m.paper),
        Knob::Inks => inks_name(m.inks),
        Knob::Angles => csv_from(t.angles, 0),
        Knob::Loads => csv_from(t.loads, 0),
        Knob::Colors => decimal(m.colors as nat),
    }
}

/// Line `j` of the preset: a remark, or the knob's key and value.
pub open spec fn line_on(m: Model, t: TextsModel, j: int) -> Seq<char> {
    if knob_on(j) is Note {
        name_on(j)
    } else {
        name_on(j) + seq![' ', '=', ' '] + value_on(m, t, j)
    }
}

/// The first `j` lines of the preset.
pub open spec fn preset_upto(m: Model, t: TextsModel, j: int) -> Seq<char>
    decreases j,
{
    if j <= 0 {
        Seq::empty()
    } else {
        preset_upto(m, t, j - 1) + line_on(m, t, j - 1) + seq!['\n']
    }
}

impl Settings {
    fn push_value(&self, s: &mut String, t: &Texts, j: usize)
        requires
            j < LINES,
            self.model().wf(),
            t.numbers@.len() == NUMBERS,
        ensures
            final(s)@ == old(s)@ + value_on(self.model(), t.model(), j as int),
    {
        let ghost s0 = s@;
        match knob_at(j) {
            Knob::Note(_) => {
                proof {
                    assert(s@ =~= s0 + Seq::<char>::empty());
                }
            },
            Knob::Mode => match self.mode {
                Mode::Halftone => s.append("halftone"),
                Mode::Stencil => s.append("stencil"),
            },
            Knob::Shape => match self.shape {
                Shape::Lines => s.append("lines"),
                Shape::Wavy => s.append("wavy"),
                Shape::Dots => s.append("dots"),
                Shape::BlueNoise => s.append("blue-noise"),
                Shape::Hatch => s.append("hatch"),
            },
            Knob::Number(i) => {
                s.append(t.numbers[i].as_str());
            },
            Knob::HatchBins => push_decimal(s, self.hatch_bins as u64),
            Knob::Flag(i) => if self.flags[i] {
                s.append("true");
            } else {
                s.append("false");
            },
            Knob::Paper => match self.paper {
                None => s.append("none"),
                Some(Paper::A2) => s.append("a2"),
                Some(Paper::A3) => s.append("a3"),
                Some(Paper::A4) => s.append("a4"),
                Some(Paper::A5) => s.append("a5"),
            },
            Knob::Inks => match self.inks {
                Inks::Cmyk => s.append("cmyk"),
                Inks::Cmykog => s.append("cmykog"),
            },
            Knob::Angles => push_csv(s, &t.angles),
            Knob::Loads => push_csv(s, &t.loads),
            Knob::Colors => push_decimal(s, self.colors as u64),
        }
    }

    /// The settings as a preset; `t` holds their numbers as text.
    pub fn preset_string(&self, t: &Texts) -> (s: String)
        requires
            self.model().wf(),
            t.numbers@.len() == NUMBERS,
        ensures
            s@ == preset_upto(self.model(), t.model(), LINES as int),
    {
        let mut s: String = String::new();
        for j in 0..LINES
            invariant
                self.model().wf(),
                t.numbers@.len() == NUMBERS,
                s@ == preset_upto(self.model(), t.model(), j as int),
        {
            let ghost s0 = s@;
            s.append(name_at(j));
            if !matches!(knob_at(j), Knob::Note(_)) {
                s.push(' ');
                s.push('=');
                s.push(' ');
                self.push_value(&mut s, t, j);
            }
            s.push('\n');
            proof {
                assert(s@ =~= s0 + line_on(self.model(), t.model(), j as int) + seq!['\n']);
            }
        }
        s
    }
}

} // verus!
