//! What presets promise: settings that are written as a preset and read back are the same.

use crate::chars::{
    comma_parts, digit_value, digits_value, find, is_white, lemma_find, lemma_found_at,
    lemma_trim_clean, trim, trim_end, trim_start,
};
use crate::inks::Inks;
use crate::number::Number;
use crate::paper::Paper;
use crate::preset::{
    applied, applied_upto, csv_from, entries, given, line_entries, line_on, lookup, paper_name,
    paper_named, preset_upto, shape_name, shape_named, step, value_on, EntryModel, TextsModel,
};
use crate::screen::Shape;
use crate::session::{next_session, Event, Session};
use crate::settings::{
    flag_line, knob_on, lemma_lines, lemma_names, name_is_line, name_is_plain, name_on,
    number_line, Knob, Mode, Model, FLAGS, LINES, NUMBERS,
};
use crate::text::{decimal, digit};
use vstd::prelude::*;
use vstd::string::*;

verus! {

/// Whether a text is one word without a comma.
pub open spec fn is_word(t: Seq<char>) -> bool {
    &&& t.len() > 0
    &&& forall|k: int| 0 <= k < t.len() ==> !is_white(#[trigger] t[k]) && t[k] != ','
}

/// Whether the texts stand for the numbers of the settings: one word for each, which reads
/// back as the number.
pub open spec fn texts_read(
    m: Model,
    t: TextsModel,
    reads: spec_fn(Seq<char>) -> Option<Number>,
) -> bool {
    &&& texts_for(m.numbers, t.numbers, reads)
    &&& texts_for(m.angles, t.angles, reads)
    &&& texts_for(m.loads, t.loads, reads)
}

/// Whether the texts stand for the numbers.
pub open spec fn texts_for(
    v: Seq<Number>,
    ts: Seq<Seq<char>>,
    reads: spec_fn(Seq<char>) -> Option<Number>,
) -> bool {
    &&& ts.len() == v.len()
    &&& forall|i: int|
        0 <= i < ts.len() ==> is_word(#[trigger] ts[i]) && reads(ts[i]) == Some(v[i])
}

/// What a key and its value say, read by `reads`.
pub open spec fn read_entry(
    p: (Seq<char>, Seq<char>),
    reads: spec_fn(Seq<char>) -> Option<Number>,
) -> EntryModel {
    EntryModel {
        key: p.0,
        value: p.1,
        number: reads(p.1),
        pieces: comma_parts(p.1).map_values(reads),
    }
}

/// What keys and values say, read by `reads`.
pub open spec fn read_entries(
    ps: Seq<(Seq<char>, Seq<char>)>,
    reads: spec_fn(Seq<char>) -> Option<Number>,
) -> Seq<EntryModel> {
    Seq::new(ps.len(), |i: int| read_entry(ps[i], reads))
}

/// The keys and values on the first `j` lines.
spec fn pairs_upto(m: Model, t: TextsModel, j: int) -> Seq<(Seq<char>, Seq<char>)>
    decreases j,
{
    if j <= 0 {
        Seq::empty()
    } else if knob_on(j - 1) is Note {
        pairs_upto(m, t, j - 1)
    } else {
        pairs_upto(m, t, j - 1).push((name_on(j - 1), value_on(m, t, j - 1)))
    }
}

/// Whether a text can stand as a value: on one line, and without white space about it.
spec fn is_value(v: Seq<char>) -> bool {
    &&& v.len() > 0
    &&& !is_white(v[0])
    &&& !is_white(v.last())
    &&& forall|k: int| 0 <= k < v.len() ==> #[trigger] v[k] != '\n'
}

proof fn lemma_csv_value(ts: Seq<Seq<char>>, i: int)
    requires
        0 <= i < ts.len(),
        forall|k: int| 0 <= k < ts.len() ==> is_word(#[trigger] ts[k]),
    ensures
        is_value(csv_from(ts, i)),
        csv_from(ts, i)[0] == ts[i][0],
    decreases ts.len() - i,
{
    assert(is_word(ts[i]));
    let s = csv_from(ts, i);
    if i < ts.len() - 1 {
        lemma_csv_value(ts, i + 1);
        let r = csv_from(ts, i + 1);
        let head = ts[i].push(',');
        assert(s == head + r);
        assert(s.last() == r.last());
        assert forall|k: int| 0 <= k < s.len() implies #[trigger] s[k] != '\n' by {
            if k < ts[i].len() {
                assert(s[k] == ts[i][k]);
            } else if k > ts[i].len() {
                assert(s[k] == r[k - head.len()]);
            }
        }
        assert(s[0] == ts[i][0]);
    } else {
        assert forall|k: int| 0 <= k < s.len() implies #[trigger] s[k] != '\n' by {
            assert(s[k] == ts[i][k]);
        }
    }
}

proof fn lemma_decimal_value(n: nat)
    ensures
        is_value(decimal(n)),
        decimal(n)[0] != '+',
        digits_value(decimal(n)) == Some(n),
    decreases n,
{
    let s = decimal(n);
    lemma_digit(n as int % 10);
    if n < 10 {
        lemma_digit(n as int);
        assert(s.drop_last() =~= Seq::<char>::empty());
        assert(s.last() == digit(n as int));
        assert(digits_value(Seq::<char>::empty()) == Some(0nat));
    } else {
        lemma_decimal_value(n / 10);
        let r = decimal(n / 10);
        assert(s.drop_last() =~= r);
        assert(s[0] == r[0]);
        assert forall|k: int| 0 <= k < s.len() implies #[trigger] s[k] != '\n' by {
            if k < r.len() {
                assert(s[k] == r[k]);
            }
        }
    }
}

proof fn lemma_digit(d: int)
    requires
        0 <= d < 10,
    ensures
        digit_value(digit(d)) == Some(d as nat),
        !is_white(digit(d)),
        digit(d) != '+',
        digit(d) != '\n',
{
}

proof fn lemma_value(m: Model, t: TextsModel, reads: spec_fn(Seq<char>) -> Option<Number>, j: int)
    requires
        m.wf(),
        texts_read(m, t, reads),
        0 <= j < LINES,
        !(knob_on(j) is Note),
    ensures
        is_value(value_on(m, t, j)),
{
    match knob_on(j) {
        Knob::Note(_) => {},
        Knob::Mode => {
            reveal_strlit("halftone");
            reveal_strlit("stencil");
        },
        Knob::Shape => {
            reveal_strlit("lines");
            reveal_strlit("wavy");
            reveal_strlit("dots");
            reveal_strlit("blue-noise");
            reveal_strlit("hatch");
        },
        Knob::Number(i) => {
            assert(is_word(t.numbers[i as int]));
        },
        Knob::HatchBins => {
            lemma_decimal_value(m.hatch_bins as nat);
        },
        Knob::Flag(i) => {
            reveal_strlit("true");
            reveal_strlit("false");
        },
        Knob::Paper => {
            reveal_strlit("none");
            reveal_strlit("a2");
            reveal_strlit("a3");
            reveal_strlit("a4");
            reveal_strlit("a5");
        },
        Knob::Inks => {
            reveal_strlit("cmyk");
            reveal_strlit("cmykog");
        },
        Knob::Angles => {
            lemma_csv_value(t.angles, 0);
        },
        Knob::Loads => {
            lemma_csv_value(t.loads, 0);
        },
        Knob::Colors => {
            lemma_decimal_value(m.colors as nat);
        },
    }
}

/// A key, an equals sign and a value read as that key and value.
proof fn lemma_line_pair(name: Seq<char>, value: Seq<char>)
    requires
        name.len() > 0,
        name[0] != '#',
        name_is_plain(name),
        is_value(value),
    ensures
        line_entries(name + seq![' ', '=', ' '] + value) == seq![(name, value)],
{
    reveal(name_is_plain);
    let line = name + seq![' ', '=', ' '] + value;
    let n = name.len() as int;
    assert(line[0] == name[0] && line.last() == value.last());
    lemma_trim_clean(line);
    assert forall|k: int| 0 <= k < n + 1 implies #[trigger] line[k] != '=' by {
        if k < n {
            assert(line[k] == name[k]);
        }
    }
    assert(line[n + 1] == '=');
    lemma_found_at(line, '=', 0, n + 1);
    let left = line.take(n + 1);
    assert(left =~= name.push(' '));
    assert(left.drop_last() =~= name);
    assert(left[0] == name[0]);
    assert(trim_start(left) == left);
    assert(trim_end(left) == trim_end(name));
    assert(trim_end(name) == name) by {
        assert(name.last() == name[n - 1]);
    }
    let right = line.skip(n + 2);
    assert(right =~= seq![' '] + value);
    assert(right.drop_first() =~= value);
    assert(trim_start(right) == trim_start(value));
    lemma_trim_clean(value);
}

proof fn lemma_line(m: Model, t: TextsModel, reads: spec_fn(Seq<char>) -> Option<Number>, j: int)
    requires
        m.wf(),
        texts_read(m, t, reads),
        0 <= j < LINES,
    ensures
        forall|k: int| 0 <= k < line_on(m, t, j).len() ==> #[trigger] line_on(m, t, j)[k] != '\n',
        line_entries(line_on(m, t, j)) == if knob_on(j) is Note {
            Seq::empty()
        } else {
            seq![(name_on(j), value_on(m, t, j))]
        },
{
    lemma_names(j, j);
    reveal(name_is_line);
    let name = name_on(j);
    let line = line_on(m, t, j);
    if knob_on(j) is Note {
        lemma_trim_clean(name);
    } else {
        lemma_value(m, t, reads, j);
        let value = value_on(m, t, j);
        lemma_line_pair(name, value);
        assert forall|k: int| 0 <= k < line.len() implies #[trigger] line[k] != '\n' by {
            if k < name.len() {
                assert(line[k] == name[k]);
            } else if k >= name.len() + 3 {
                assert(line[k] == value[k - name.len() - 3]);
            }
        }
    }
}

/// One more line at the end of a text adds what that line holds.
proof fn lemma_entries_append(a: Seq<char>, line: Seq<char>)
    requires
        a.len() == 0 || a.last() == '\n',
        forall|k: int| 0 <= k < line.len() ==> #[trigger] line[k] != '\n',
    ensures
        entries(a + line + seq!['\n']) == entries(a) + line_entries(line),
    decreases a.len(),
{
    let x = a + line + seq!['\n'];
    let none = Seq::<char>::empty();
    assert(find(none, '\n') == -1);
    assert(entries(none) =~= Seq::<(Seq<char>, Seq<char>)>::empty()) by {
        assert(trim(none) =~= none);
    }
    if a.len() == 0 {
        assert(a =~= none);
        assert(x =~= line.push('\n'));
        assert forall|k: int| 0 <= k < line.len() implies #[trigger] x[k] != '\n' by {
            assert(x[k] == line[k]);
        }
        lemma_found_at(x, '\n', 0, line.len() as int);
        assert(x.take(line.len() as int) =~= line);
        assert(x.skip(line.len() as int + 1) =~= none);
        assert(line_entries(line) + entries(none) =~= entries(a) + line_entries(line));
    } else {
        lemma_find(a, '\n', 0);
        let i = find(a, '\n');
        assert(i >= 0) by {
            assert(a[a.len() - 1] == '\n');
        }
        assert forall|k: int| 0 <= k < i implies #[trigger] x[k] != '\n' by {
            assert(x[k] == a[k]);
        }
        assert(x[i] == a[i]);
        lemma_found_at(x, '\n', 0, i);
        let rest = a.skip(i + 1);
        assert(x.take(i) =~= a.take(i));
        assert(x.skip(i + 1) =~= rest + line + seq!['\n']);
        if rest.len() > 0 {
            assert(rest.last() == a.last());
        }
        lemma_entries_append(rest, line);
        assert(entries(x) =~= entries(a) + line_entries(line));
    }
}

proof fn lemma_entries_upto(
    m: Model,
    t: TextsModel,
    reads: spec_fn(Seq<char>) -> Option<Number>,
    j: int,
)
    requires
        m.wf(),
        texts_read(m, t, reads),
        0 <= j <= LINES,
    ensures
        entries(preset_upto(m, t, j)) == pairs_upto(m, t, j),
        j > 0 ==> preset_upto(m, t, j).len() > 0 && preset_upto(m, t, j).last() == '\n',
    decreases j,
{
    if j == 0 {
        let none = Seq::<char>::empty();
        assert(find(none, '\n') == -1);
        assert(trim(none) =~= none);
        assert(entries(none) =~= Seq::<(Seq<char>, Seq<char>)>::empty());
    } else {
        lemma_entries_upto(m, t, reads, j - 1);
        lemma_line(m, t, reads, j - 1);
        lemma_entries_append(preset_upto(m, t, j - 1), line_on(m, t, j - 1));
        assert(entries(preset_upto(m, t, j)) =~= pairs_upto(m, t, j));
    }
}

proof fn lemma_lookup(
    m: Model,
    t: TextsModel,
    reads: spec_fn(Seq<char>) -> Option<Number>,
    es: Seq<EntryModel>,
    i: int,
    j: int,
)
    requires
        0 <= i < j <= LINES,
        !(knob_on(i) is Note),
        es.len() >= pairs_upto(m, t, j).len(),
        forall|k: int|
            0 <= k < pairs_upto(m, t, j).len() ==> #[trigger] es[k] == read_entry(
                pairs_upto(m, t, j)[k],
                reads,
            ),
    ensures
        lookup(es, name_on(i), pairs_upto(m, t, j).len() as int) == Some(
            read_entry((name_on(i), value_on(m, t, i)), reads),
        ),
    decreases j,
{
    let ps = pairs_upto(m, t, j);
    if knob_on(j - 1) is Note {
        lemma_lookup(m, t, reads, es, i, j - 1);
    } else {
        let before = pairs_upto(m, t, j - 1);
        let n = before.len() as int;
        assert(ps[n] == (name_on(j - 1), value_on(m, t, j - 1)));
        assert(es[n] == read_entry(ps[n], reads));
        if i < j - 1 {
            lemma_names(i, j - 1);
            assert forall|k: int| 0 <= k < before.len() implies #[trigger] es[k] == read_entry(
                before[k],
                reads,
            ) by {
                assert(ps[k] == before[k]);
            }
            lemma_lookup(m, t, reads, es, i, j - 1);
        }
    }
}

proof fn lemma_csv_parts(ts: Seq<Seq<char>>, i: int)
    requires
        0 <= i < ts.len(),
        forall|k: int| 0 <= k < ts.len() ==> is_word(#[trigger] ts[k]),
    ensures
        comma_parts(csv_from(ts, i)) == ts.skip(i),
    decreases ts.len() - i,
{
    let w = ts[i];
    assert(is_word(w));
    assert(w[0] == w[0] && w.last() == w[w.len() - 1]);
    lemma_trim_clean(w);
    let s = csv_from(ts, i);
    if i == ts.len() - 1 {
        assert forall|k: int| 0 <= k < s.len() implies #[trigger] s[k] != ',' by {
            assert(s[k] == w[k]);
        }
        lemma_found_at(s, ',', 0, s.len() as int);
        assert(ts.skip(i) =~= seq![w]);
    } else {
        lemma_csv_parts(ts, i + 1);
        let r = csv_from(ts, i + 1);
        let n = w.len() as int;
        assert forall|k: int| 0 <= k < n implies #[trigger] s[k] != ',' by {
            assert(s[k] == w[k]);
        }
        assert(s[n] == ',');
        lemma_found_at(s, ',', 0, n);
        assert(s.take(n) =~= w);
        assert(s.skip(n + 1) =~= r);
        assert(seq![w] + ts.skip(i + 1) =~= ts.skip(i));
    }
}

proof fn lemma_given_all(
    v: Seq<Number>,
    ts: Seq<Seq<char>>,
    reads: spec_fn(Seq<char>) -> Option<Number>,
    k: int,
)
    requires
        texts_for(v, ts, reads),
        0 <= k <= ts.len(),
    ensures
        given(ts.map_values(reads), k) == v.take(k),
    decreases k,
{
    if k > 0 {
        lemma_given_all(v, ts, reads, k - 1);
        assert(is_word(ts[k - 1]));
        assert(v.take(k) =~= v.take(k - 1).push(v[k - 1]));
    } else {
        assert(v.take(0) =~= Seq::<Number>::empty());
    }
}

proof fn lemma_csv_given(
    v: Seq<Number>,
    ts: Seq<Seq<char>>,
    reads: spec_fn(Seq<char>) -> Option<Number>,
)
    requires
        texts_for(v, ts, reads),
        v.len() > 0,
    ensures
        ({
            let pieces = comma_parts(csv_from(ts, 0)).map_values(reads);
            given(pieces, pieces.len() as int) == v
        }),
{
    lemma_csv_parts(ts, 0);
    assert(ts.skip(0) =~= ts);
    lemma_given_all(v, ts, reads, ts.len() as int);
    assert(v.take(v.len() as int) =~= v);
}

/// Whether two settings agree in what a knob sets.
spec fn agree_on(x: Model, m: Model, k: Knob) -> bool {
    match k {
        Knob::Note(_) => true,
        Knob::Mode => x.mode == m.mode,
        Knob::Shape => x.shape == m.shape,
        Knob::Number(i) => x.numbers[i as int] == m.numbers[i as int],
        Knob::HatchBins => x.hatch_bins == m.hatch_bins,
        Knob::Flag(i) => x.flags[i as int] == m.flags[i as int],
        Knob::Paper => x.paper == m.paper,
        Knob::Inks => x.inks == m.inks,
        Knob::Angles => x.angles == m.angles,
        Knob::Loads => x.loads == m.loads,
        Knob::Colors => x.colors == m.colors,
    }
}

/// The value that settings write for a knob sets it as they have it.
proof fn lemma_step_sets(
    x: Model,
    m: Model,
    t: TextsModel,
    reads: spec_fn(Seq<char>) -> Option<Number>,
    j: int,
)
    requires
        m.wf(),
        texts_read(m, t, reads),
        0 <= j < LINES,
        !(knob_on(j) is Note),
        x.numbers.len() == NUMBERS,
        x.flags.len() == FLAGS,
        knob_on(j) is Angles || knob_on(j) is Loads ==> x.inks == m.inks,
    ensures
        agree_on(
            step(x, knob_on(j), Some(read_entry((name_on(j), value_on(m, t, j)), reads))),
            m,
            knob_on(j),
        ),
{
    match knob_on(j) {
        Knob::Note(_) => {},
        Knob::Mode => {
            reveal_strlit("halftone");
            reveal_strlit("stencil");
        },
        Knob::Shape => {
            reveal_strlit("lines");
            reveal_strlit("wavy");
            reveal_strlit("dots");
            reveal_strlit("blue-noise");
            reveal_strlit("hatch");
            lemma_shape_read(m.shape);
        },
        Knob::Number(i) => {
            assert(is_word(t.numbers[i as int]));
        },
        Knob::HatchBins => {
            lemma_decimal_value(m.hatch_bins as nat);
        },
        Knob::Flag(i) => {
            reveal_strlit("true");
            reveal_strlit("false");
        },
        Knob::Paper => {
            lemma_paper_read(m.paper);
        },
        Knob::Inks => {
            reveal_strlit("cmyk");
            reveal_strlit("cmykog");
        },
        Knob::Angles => {
            lemma_csv_given(m.angles, t.angles, reads);
        },
        Knob::Loads => {
            lemma_csv_given(m.loads, t.loads, reads);
        },
        Knob::Colors => {
            lemma_decimal_value(m.colors as nat);
        },
    }
}

proof fn lemma_shape_read(s: Shape)
    ensures
        shape_named(shape_name(s)) == Some(s),
{
    reveal_strlit("lines");
    reveal_strlit("wavy");
    reveal_strlit("dots");
    reveal_strlit("blue-noise");
    reveal_strlit("hatch");
    assert("dots"@[0] != "wavy"@[0]);
    assert("hatch"@[0] != "lines"@[0]);
}

proof fn lemma_paper_read(p: Option<Paper>)
    ensures
        paper_named(paper_name(p)) == p,
{
    reveal_strlit("none");
    reveal_strlit("a2");
    reveal_strlit("a3");
    reveal_strlit("a4");
    reveal_strlit("a5");
    assert("a2"@[1] != "a3"@[1]);
    assert("a2"@[1] != "a4"@[1]);
    assert("a2"@[1] != "a5"@[1]);
    assert("a3"@[1] != "a4"@[1]);
    assert("a3"@[1] != "a5"@[1]);
    assert("a4"@[1] != "a5"@[1]);
}

proof fn lemma_applied_agrees(
    old_m: Model,
    m: Model,
    t: TextsModel,
    reads: spec_fn(Seq<char>) -> Option<Number>,
    es: Seq<EntryModel>,
    j: int,
)
    requires
        m.wf(),
        old_m.numbers.len() == NUMBERS,
        old_m.flags.len() == FLAGS,
        texts_read(m, t, reads),
        es == read_entries(pairs_upto(m, t, LINES as int), reads),
        0 <= j <= LINES,
    ensures
        applied_upto(old_m, es, j).numbers.len() == NUMBERS,
        applied_upto(old_m, es, j).flags.len() == FLAGS,
        forall|i: int|
            0 <= i < j ==> agree_on(applied_upto(old_m, es, j), m, #[trigger] knob_on(i)),
    decreases j,
{
    if j > 0 {
        lemma_applied_agrees(old_m, m, t, reads, es, j - 1);
        let x = applied_upto(old_m, es, j - 1);
        let y = applied_upto(old_m, es, j);
        let k = knob_on(j - 1);
        let found = lookup(es, name_on(j - 1), es.len() as int);
        assert(y == step(x, k, found));
        if !(k is Note) {
            lemma_lookup(m, t, reads, es, j - 1, LINES as int);
            if k is Angles || k is Loads {
                assert(knob_on(28) is Inks);
                assert(agree_on(x, m, knob_on(28)));
            }
            lemma_step_sets(x, m, t, reads, j - 1);
        }
        assert forall|i: int| 0 <= i < j implies agree_on(y, m, #[trigger] knob_on(i)) by {
            if i < j - 1 {
                assert(agree_on(x, m, knob_on(i)));
                lemma_in_place(i);
                lemma_in_place(j - 1);
                lemma_step_keeps(x, m, k, found, knob_on(i));
            }
        }
    }
}

/// Whether a knob that is a number or a switch has a place.
spec fn in_place(k: Knob) -> bool {
    &&& k matches Knob::Number(i) ==> i < NUMBERS
    &&& k matches Knob::Flag(i) ==> i < FLAGS
}

proof fn lemma_in_place(j: int)
    ensures
        in_place(knob_on(j)),
{
}

/// Setting one knob leaves agreement in the others.
proof fn lemma_step_keeps(x: Model, m: Model, k: Knob, found: Option<EntryModel>, other: Knob)
    requires
        x.numbers.len() == NUMBERS,
        x.flags.len() == FLAGS,
        agree_on(x, m, other),
        agree_on(step(x, k, found), m, k),
        in_place(k),
        in_place(other),
    ensures
        agree_on(step(x, k, found), m, other),
{
}

/// Settings that are written as a preset and applied over any settings come back whole, and
/// are rendered anew: whatever reads the numbers, as long as it reads back each as it was
/// written.
pub proof fn lemma_preset_round_trip(
    m: Model,
    t: TextsModel,
    old_m: Model,
    reads: spec_fn(Seq<char>) -> Option<Number>,
    s: Session,
)
    requires
        m.wf(),
        old_m.numbers.len() == NUMBERS,
        old_m.flags.len() == FLAGS,
        texts_read(m, t, reads),
    ensures
        applied(old_m, read_entries(entries(preset_upto(m, t, LINES as int)), reads)) == m,
        next_session(s, Event::Edited).dirty,
{
    lemma_entries_upto(m, t, reads, LINES as int);
    let es = read_entries(pairs_upto(m, t, LINES as int), reads);
    lemma_applied_agrees(old_m, m, t, reads, es, LINES as int);
    let y = applied_upto(old_m, es, LINES as int);
    assert forall|i: int| 0 <= i < NUMBERS implies y.numbers[i] == m.numbers[i] by {
        lemma_lines(i);
        assert(agree_on(y, m, knob_on(number_line(i))));
    }
    assert forall|i: int| 0 <= i < FLAGS implies y.flags[i] == m.flags[i] by {
        lemma_lines(i);
        assert(agree_on(y, m, knob_on(flag_line(i))));
    }
    assert(y.numbers =~= m.numbers);
    assert(y.flags =~= m.flags);
    assert(agree_on(y, m, knob_on(1)));
    assert(agree_on(y, m, knob_on(3)));
    assert(agree_on(y, m, knob_on(7)));
    assert(agree_on(y, m, knob_on(26)));
    assert(agree_on(y, m, knob_on(28)));
    assert(agree_on(y, m, knob_on(29)));
    assert(agree_on(y, m, knob_on(31)));
    assert(agree_on(y, m, knob_on(37)));
}

/// A preset that names no knob changes nothing.
pub proof fn lemma_empty_preset(m: Model, es: Seq<EntryModel>)
    requires
        m.wf(),
        forall|i: int, j: int|
            0 <= i < es.len() && 0 <= j < LINES ==> (#[trigger] es[i]).key != #[trigger] name_on(j),
    ensures
        applied(m, es) == m,
{
    lemma_untouched(m, es, LINES as int);
}

proof fn lemma_untouched(m: Model, es: Seq<EntryModel>, j: int)
    requires
        0 <= j <= LINES,
        forall|i: int, k: int|
            0 <= i < es.len() && 0 <= k < LINES ==> (#[trigger] es[i]).key != #[trigger] name_on(k),
    ensures
        applied_upto(m, es, j) == m,
    decreases j,
{
    if j > 0 {
        lemma_untouched(m, es, j - 1);
        lemma_absent(es, name_on(j - 1), es.len() as int);
    }
}

proof fn lemma_absent(es: Seq<EntryModel>, key: Seq<char>, k: int)
    requires
        0 <= k <= es.len(),
        forall|i: int| 0 <= i < es.len() ==> (#[trigger] es[i]).key != key,
    ensures
        lookup(es, key, k) is None,
    decreases k,
{
    if k > 0 {
        lemma_absent(es, key, k - 1);
        assert(es[k - 1].key != key);
    }
}

} // verus!
