//! What texts, flags and bytes read as.

use crate::chars::{
    comma_parts, count_value, digit_value, digits_value, find, is_white, lemma_find,
    lemma_found_at, trim, trim_end, trim_start,
};
use crate::cli::{
    arg_name, bad_load, command_asked, fault_before, flag_key, flag_of, flags_from, in_unit,
    negative, not_positive, stencil_asked, ArgsModel, Command, Fault,
};
use crate::number::Number;
use crate::picture::{are_pixels, are_sheet_bytes};
use crate::preset::{entries, line_entries, lookup, EntryModel};
use crate::stencil::{sheet_byte, Color};
use crate::text::decimal;
use crate::text_laws::{all_digits, is_digit, lemma_decimal_reads, read_digits};
use vstd::prelude::*;

verus! {

/// Whether all characters from `a` up to `b` are white space.
pub open spec fn white_between(s: Seq<char>, a: int, b: int) -> bool {
    forall|i: int| a <= i < b ==> is_white(#[trigger] s[i])
}

proof fn lemma_trim_start(s: Seq<char>) -> (a: int)
    ensures
        0 <= a <= s.len(),
        trim_start(s) == s.skip(a),
        white_between(s, 0, a),
        a < s.len() ==> !is_white(s[a]),
    decreases s.len(),
{
    if s.len() > 0 && is_white(s[0]) {
        let t = s.drop_first();
        let b = lemma_trim_start(t);
        assert(t.skip(b) =~= s.skip(b + 1));
        assert forall|i: int| 0 <= i < b + 1 implies is_white(#[trigger] s[i]) by {
            if i > 0 {
                assert(is_white(t[i - 1]));
            }
        }
        assert(b < t.len() ==> t[b] == s[b + 1]);
        b + 1
    } else {
        assert(s.skip(0) =~= s);
        0
    }
}

proof fn lemma_trim_end(s: Seq<char>) -> (b: int)
    ensures
        0 <= b <= s.len(),
        trim_end(s) == s.take(b),
        white_between(s, b, s.len() as int),
        b > 0 ==> !is_white(s[b - 1]),
    decreases s.len(),
{
    if s.len() > 0 && is_white(s.last()) {
        let t = s.drop_last();
        let b = lemma_trim_end(t);
        assert(t.take(b) =~= s.take(b));
        assert forall|i: int| b <= i < s.len() implies is_white(#[trigger] s[i]) by {
            if i < t.len() {
                assert(is_white(t[i]));
            }
        }
        assert(b > 0 ==> t[b - 1] == s[b - 1]);
        b
    } else {
        assert(s.take(s.len() as int) =~= s);
        s.len() as int
    }
}

/// Trimming takes off the white space about a text and nothing else: what is left stands in
/// the text as it is, with white space alone on either side, and neither starts nor ends with
/// any.
pub proof fn lemma_trim(s: Seq<char>)
    ensures
        exists|a: int, b: int|
            {
                &&& 0 <= a <= b <= s.len()
                &&& trim(s) == #[trigger] s.subrange(a, b)
                &&& white_between(s, 0, a)
                &&& white_between(s, b, s.len() as int)
                &&& a < b ==> !is_white(s[a]) && !is_white(s[b - 1])
            },
{
    let a = lemma_trim_start(s);
    let t = s.skip(a);
    let e = lemma_trim_end(t);
    let b = a + e;
    assert(t.take(e) =~= s.subrange(a, b));
    assert forall|i: int| b <= i < s.len() implies is_white(#[trigger] s[i]) by {
        assert(is_white(t[i - a]));
    }
    if a < b {
        assert(t[e - 1] == s[b - 1]);
    }
    assert(trim(s) == s.subrange(a, b));
}

proof fn lemma_digits_read(s: Seq<char>)
    ensures
        all_digits(s) ==> digits_value(s) == Some(read_digits(s) as nat) && read_digits(s) >= 0,
        !all_digits(s) ==> digits_value(s) is None,
    decreases s.len(),
{
    if s.len() > 0 {
        let t = s.drop_last();
        lemma_digits_read(t);
        if all_digits(s) {
            assert forall|i: int| 0 <= i < t.len() implies is_digit(#[trigger] t[i]) by {
                assert(is_digit(s[i]));
            }
            assert(is_digit(s[s.len() - 1]));
        } else if all_digits(t) {
            assert forall|i: int| 0 <= i < s.len() && i != s.len() - 1 implies is_digit(
                #[trigger] s[i],
            ) by {
                assert(is_digit(t[i]));
            }
            assert(!is_digit(s.last()));
            assert(digit_value(s.last()) is None);
        }
    }
}

/// A whole number is read from digits alone, with or without one plus sign before them; it is
/// what they read as, and there is none where it exceeds the limit.
pub proof fn lemma_count_reads(s: Seq<char>, max: nat)
    ensures
        s.len() > 0 && all_digits(s) && read_digits(s) <= max ==> count_value(s, max) == Some(
            read_digits(s) as nat,
        ) && count_value(seq!['+'] + s, max) == Some(read_digits(s) as nat),
        all_digits(s) && read_digits(s) > max ==> count_value(s, max) is None,
        s.len() == 0 ==> count_value(s, max) is None && count_value(seq!['+'] + s, max) is None,
        !all_digits(s) && s.len() > 0 && s[0] != '+' ==> count_value(s, max) is None && count_value(
            seq!['+'] + s,
            max,
        ) is None,
{
    lemma_digits_read(s);
    let p = seq!['+'] + s;
    assert(p.drop_first() =~= s);
    assert(p[0] == '+');
    if s.len() > 0 && all_digits(s) {
        assert(is_digit(s[0]));
    }
}

/// A number that is written is read back.
pub proof fn lemma_count_round_trip(n: nat, max: nat)
    ensures
        n <= max ==> count_value(decimal(n), max) == Some(n),
        n > max ==> count_value(decimal(n), max) is None,
{
    lemma_decimal_reads(n);
    lemma_count_reads(decimal(n), max);
}

/// Whether a character does not occur in a text.
pub open spec fn lacks(s: Seq<char>, c: char) -> bool {
    forall|i: int| 0 <= i < s.len() ==> #[trigger] s[i] != c
}

proof fn lemma_first(a: Seq<char>, c: char, b: Seq<char>)
    requires
        lacks(a, c),
    ensures
        find(a, c) == -1,
        find(a + seq![c] + b, c) == a.len(),
        (a + seq![c] + b).take(a.len() as int) == a,
        (a + seq![c] + b).skip(a.len() as int + 1) == b,
{
    let s = a + seq![c] + b;
    lemma_found_at(a, c, 0, a.len() as int);
    assert forall|k: int| 0 <= k < a.len() implies #[trigger] s[k] != c by {
        assert(a[k] != c);
    }
    lemma_found_at(s, c, 0, a.len() as int);
    assert(s.take(a.len() as int) =~= a);
    assert(s.skip(a.len() as int + 1) =~= b);
}

/// A list is parted at every comma, and each part trimmed.
pub proof fn lemma_parts(a: Seq<char>, b: Seq<char>)
    requires
        lacks(a, ','),
    ensures
        comma_parts(a) == seq![trim(a)],
        comma_parts(a + seq![','] + b) == seq![trim(a)] + comma_parts(b),
{
    lemma_first(a, ',', b);
}

/// A text is read line by line.
pub proof fn lemma_lines_read(a: Seq<char>, b: Seq<char>)
    requires
        lacks(a, '\n'),
    ensures
        entries(a) == line_entries(a),
        entries(a + seq!['\n'] + b) == line_entries(a) + entries(b),
{
    lemma_first(a, '\n', b);
}

/// A line holds what stands before its first equals sign and what stands after it, both
/// trimmed; one that is blank, starts with a hash or has no equals sign holds nothing.
pub proof fn lemma_line_read(line: Seq<char>, key: Seq<char>, value: Seq<char>)
    ensures
        trim(line).len() == 0 ==> line_entries(line).len() == 0,
        trim(line).len() > 0 && trim(line)[0] == '#' ==> line_entries(line).len() == 0,
        lacks(trim(line), '=') ==> line_entries(line).len() == 0,
        trim(line) == key + seq!['='] + value && lacks(key, '=') && (key.len() == 0 || key[0]
            != '#') ==> line_entries(line) == seq![(trim(key), trim(value))],
{
    let t = trim(line);
    lemma_find(t, '=', 0);
    if t == key + seq!['='] + value && lacks(key, '=') {
        lemma_first(key, '=', value);
        if key.len() > 0 {
            assert(t[0] == key[0]);
        } else {
            assert(t[0] == '=');
        }
    }
}

/// The last entry under a key counts.
pub proof fn lemma_last_counts(es: Seq<EntryModel>, e: EntryModel, key: Seq<char>)
    ensures
        lookup(es.push(e), key, es.len() as int + 1) == if e.key == key {
            Some(e)
        } else {
            lookup(es, key, es.len() as int)
        },
        (forall|i: int| 0 <= i < es.len() ==> (#[trigger] es[i]).key != key) ==> lookup(
            es,
            key,
            es.len() as int,
        ) is None,
{
    let all = es.push(e);
    lemma_lookup_same(es, all, key, es.len() as int);
    assert(all[es.len() as int] == e);
    if forall|i: int| 0 <= i < es.len() ==> (#[trigger] es[i]).key != key {
        lemma_lookup_none(es, key, es.len() as int);
    }
}

proof fn lemma_lookup_same(a: Seq<EntryModel>, b: Seq<EntryModel>, key: Seq<char>, k: int)
    requires
        0 <= k <= a.len(),
        k <= b.len(),
        forall|i: int| 0 <= i < k ==> #[trigger] a[i] == b[i],
    ensures
        lookup(a, key, k) == lookup(b, key, k),
    decreases k,
{
    if k > 0 {
        lemma_lookup_same(a, b, key, k - 1);
    }
}

proof fn lemma_lookup_none(es: Seq<EntryModel>, key: Seq<char>, k: int)
    requires
        0 <= k <= es.len(),
        forall|i: int| 0 <= i < es.len() ==> (#[trigger] es[i]).key != key,
    ensures
        lookup(es, key, k) is None,
    decreases k,
{
    if k > 0 {
        lemma_lookup_none(es, key, k - 1);
    }
}

/// A flag is known by its name without the dashes.
pub proof fn lemma_flag_name(s: Seq<char>)
    ensures
        flag_key(seq!['-', '-'] + s) == flag_key(s),
        s.len() == 0 || s[0] != '-' ==> flag_key(s) == s,
        s.len() >= 2 && s[1] != '-' ==> flag_key(s) == s,
{
    let t = seq!['-', '-'] + s;
    assert(t.skip(2) =~= s);
}

/// Arguments are taken in pairs, each a flag and its value, in order; a last one without a
/// value is told.
pub proof fn lemma_flags_pair(args: Seq<Seq<char>>, i: int)
    requires
        0 <= i <= args.len(),
    ensures
        (args.len() - i) % 2 == 0 ==> {
            &&& flags_from(args, i) is Ok
            &&& 2 * flags_from(args, i)->Ok_0.len() == args.len() - i
            &&& forall|k: int|
                0 <= k < flags_from(args, i)->Ok_0.len() ==> #[trigger] flags_from(
                    args,
                    i,
                )->Ok_0[k] == (flag_key(args[i + 2 * k]), args[i + 2 * k + 1])
        },
        (args.len() - i) % 2 == 1 ==> flags_from(args, i) == Err::<
            Seq<(Seq<char>, Seq<char>)>,
            Fault,
        >(Fault::MissingValue(flag_key(args.last()))),
    decreases args.len() - i,
{
    if i + 1 < args.len() {
        lemma_flags_pair(args, i + 2);
        if (args.len() - i) % 2 == 0 {
            let rest = flags_from(args, i + 2)->Ok_0;
            let all = flags_from(args, i)->Ok_0;
            assert(all == seq![(flag_key(args[i]), args[i + 1])] + rest);
            assert forall|k: int| 0 <= k < all.len() implies #[trigger] all[k] == (
                flag_key(args[i + 2 * k]),
                args[i + 2 * k + 1],
            ) by {
                if k > 0 {
                    assert(all[k] == rest[k - 1]);
                    assert(i + 2 + 2 * (k - 1) == i + 2 * k);
                }
            }
        }
    }
}

/// Numbers from 0 to 1 are those whose bits lie between those of the two, or of a negative
/// zero.
pub proof fn lemma_unit_range(v: Number)
    ensures
        in_unit(v) <==> v.bits <= 0x3f80_0000 || v.bits == 0x8000_0000,
        v.le(Number::nil()) <==> v.bits == 0 || 0x8000_0000 <= v.bits <= 0xff80_0000,
        v.lt(Number::nil()) <==> 0x8000_0000 < v.bits <= 0xff80_0000,
{
}

/// Loads are taken just where all are above 0 and at most 1; the first that is not is told.
pub proof fn lemma_loads_checked(loads: Seq<Number>, i: int)
    requires
        0 <= i <= loads.len(),
    ensures
        match bad_load(loads, i) {
            None => forall|k: int|
                i <= k < loads.len() ==> 0 < (#[trigger] loads[k]).bits <= 0x3f80_0000,
            Some(f) => exists|k: int|
                {
                    &&& i <= k < loads.len()
                    &&& f == Fault::BadLoad(k, #[trigger] loads[k])
                    &&& !(0 < loads[k].bits <= 0x3f80_0000)
                    &&& forall|j: int| i <= j < k ==> 0 < (#[trigger] loads[j]).bits <= 0x3f80_0000
                },
        },
    decreases loads.len() - i,
{
    if i < loads.len() {
        lemma_loads_checked(loads, i + 1);
        lemma_unit_range(loads[i]);
        if !(0 < loads[i].bits <= 0x3f80_0000) {
            assert(bad_load(loads, i) == Some(Fault::BadLoad(i, loads[i])));
        }
    }
}

/// Numbers are taken just where none is at or below 0, or below it; of those that are the
/// first is told.
pub proof fn lemma_numbers_checked(v: Seq<Number>, i: int, n: int)
    requires
        0 <= i <= n <= v.len(),
    ensures
        not_positive(v, i, n) is None <==> forall|k: int|
            i <= k < n ==> !(#[trigger] v[k]).le(Number::nil()),
        negative(v, i, n) is None <==> forall|k: int|
            i <= k < n ==> !(#[trigger] v[k]).lt(Number::nil()),
        i < n && v[i].le(Number::nil()) ==> not_positive(v, i, n) == Some(
            Fault::NotPositive(arg_name(i), v[i]),
        ),
        i < n && !v[i].le(Number::nil()) ==> not_positive(v, i, n) == not_positive(v, i + 1, n),
        i < n && v[i].lt(Number::nil()) ==> negative(v, i, n) == Some(
            Fault::Negative(arg_name(i), v[i]),
        ),
        i < n && !v[i].lt(Number::nil()) ==> negative(v, i, n) == negative(v, i + 1, n),
    decreases n - i,
{
    if i < n {
        lemma_numbers_checked(v, i + 1, n);
    }
}

/// A flag in place of a command is a halftone job; a word that is no command is answered with
/// the usage.
pub proof fn lemma_commands(s: Seq<char>)
    ensures
        command_asked(Some(seq!['-', '-'] + s)) == Command::Halftone(1),
        s.len() > 0 && s[0] != '-' && s != "gui"@ && s != "halftone"@ && s != "stencil"@
            ==> command_asked(Some(s)) == Command::Usage,
        command_asked(None) == Command::Usage,
{
    reveal_strlit("gui");
    reveal_strlit("halftone");
    reveal_strlit("stencil");
    let t = seq!['-', '-'] + s;
    assert(t[0] == '-' && "gui"@[0] == 'g' && "halftone"@[0] == 'h' && "stencil"@[0] == 's');
}

/// The bytes of pixels are their red, green and blue, pixel by pixel: they hold all of the
/// image, and nothing but it.
pub proof fn lemma_pixel_bytes(bytes: Seq<u8>, p: Seq<[u8; 3]>, i: int)
    requires
        are_pixels(bytes, p),
        0 <= i < p.len(),
    ensures
        bytes.len() == 3 * p.len(),
        bytes[3 * i] == p[i]@[0],
        bytes[3 * i + 1] == p[i]@[1],
        bytes[3 * i + 2] == p[i]@[2],
{
    assert(p[i]@[0] == bytes[3 * i + 0]);
    assert(p[i]@[1] == bytes[3 * i + 1]);
    assert(p[i]@[2] == bytes[3 * i + 2]);
}

/// A raster sheet shows its colour, solid, where material stays, and is clear elsewhere.
pub proof fn lemma_sheet_bytes(c: Color, mask: Seq<bool>, bytes: Seq<u8>, j: int)
    requires
        are_sheet_bytes(c, mask, bytes),
        0 <= j < mask.len(),
    ensures
        mask[j] ==> bytes[4 * j] == c.r && bytes[4 * j + 1] == c.g && bytes[4 * j + 2] == c.b
            && bytes[4 * j + 3] == 255,
        !mask[j] ==> bytes[4 * j + 3] == 0,
{
    assert(bytes[4 * j + 0] == sheet_byte(c, mask[j], 0));
    assert(bytes[4 * j + 1] == sheet_byte(c, mask[j], 1));
    assert(bytes[4 * j + 2] == sheet_byte(c, mask[j], 2));
    assert(bytes[4 * j + 3] == sheet_byte(c, mask[j], 3));
}

/// A job whose image is there is taken just where spacing, material and least cut are above 0,
/// every load is above 0 and at most 1, the levels lie in order from 0 to 1 unless they are
/// picked, gamma is above 0, the least cut is below what the material leaves, none of the
/// widths from the kerf on is below 0, and the kerf is below the spacing.
pub proof fn lemma_job_taken(a: ArgsModel, most: Number)
    requires
        a.numbers.len() == 25,
    ensures
        ({
            let v = a.numbers;
            fault_before(a, most, true) is None <==> {
                &&& forall|i: int| 0 <= i < 3 ==> !(#[trigger] v[i]).le(Number::nil())
                &&& forall|i: int|
                    0 <= i < a.loads.len() ==> 0 < (#[trigger] a.loads[i]).bits <= 0x3f80_0000
                &&& a.auto_levels || (in_unit(v[9]) && in_unit(v[10]) && !v[10].le(v[9]))
                &&& !v[11].le(Number::nil())
                &&& !most.le(v[2])
                &&& forall|i: int| 12 <= i < 17 ==> !(#[trigger] v[i]).lt(Number::nil())
                &&& !v[0].le(v[12])
            }
        }),
        fault_before(a, most, false) is Some,
{
    lemma_numbers_checked(a.numbers, 0, 3);
    lemma_numbers_checked(a.numbers, 12, 17);
    lemma_loads_checked(a.loads, 0);
}

/// A stencil job that is taken makes two colours at least, has its levels in order from 0 to 1
/// and a gamma that is not at or below 0, writes rasters or outlines, and builds bridges only
/// as wide as a width above 0 that is given, else as the material.
pub proof fn lemma_stencil_taken(es: Seq<EntryModel>)
    requires
        stencil_asked(es) is Ok,
    ensures
        ({
            let a = stencil_asked(es)->Ok_0;
            &&& a.colors >= 2
            &&& flag_of(es, "colors"@) is Some
            &&& in_unit(a.white_point) && in_unit(a.black_point) && !a.black_point.le(a.white_point)
            &&& !a.gamma.le(Number::nil())
            &&& flag_of(es, "format"@) is None ==> !a.raster
            &&& flag_of(es, "format"@) matches Some(e) ==> (e.value == "png"@ || e.value == "svg"@)
                && (a.raster <==> e.value == "png"@)
            &&& flag_of(es, "bridges"@) is None ==> !a.bridges
            &&& a.bridges ==> flag_of(es, "min-material-px"@) is Some
            &&& a.bridges && flag_of(es, "bridge-px"@) is None ==> Some(a.bridge_px) == flag_of(
                es,
                "min-material-px"@,
            )->0.number
        }),
{
    reveal_strlit("png");
    reveal_strlit("svg");
    assert("png"@[0] != "svg"@[0]);
}

} // verus!
