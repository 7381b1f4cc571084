//! Plain text: white space, splitting, and whole numbers.

use vstd::prelude::*;
use vstd::string::*;

verus! {

/// Whether a character is white space, as Unicode has it.
pub open spec fn is_white(c: char) -> bool {
    let u = c as u32;
    ||| 0x9 <= u <= 0xd
    ||| u == 0x20
    ||| u == 0x85
    ||| u == 0xa0
    ||| u == 0x1680
    ||| 0x2000 <= u <= 0x200a
    ||| u == 0x2028
    ||| u == 0x2029
    ||| u == 0x202f
    ||| u == 0x205f
    ||| u == 0x3000
}

fn white(c: char) -> (b: bool)
    ensures
        b == is_white(c),
{
    let u: u32 = c as u32;
    (0x9 <= u && u <= 0xd) || u == 0x20 || u == 0x85 || u == 0xa0 || u == 0x1680 || (0x2000 <= u
        && u <= 0x200a) || u == 0x2028 || u == 0x2029 || u == 0x202f || u == 0x205f || u == 0x3000
}

/// A text without the white space at its start.
pub open spec fn trim_start(s: Seq<char>) -> Seq<char>
    decreases s.len(),
{
    if s.len() > 0 && is_white(s[0]) {
        trim_start(s.drop_first())
    } else {
        s
    }
}

/// A text without the white space at its end.
pub open spec fn trim_end(s: Seq<char>) -> Seq<char>
    decreases s.len(),
{
    if s.len() > 0 && is_white(s.last()) {
        trim_end(s.drop_last())
    } else {
        s
    }
}

/// A text without the white space about it.
pub open spec fn trim(s: Seq<char>) -> Seq<char> {
    trim_end(trim_start(s))
}

/// The place of the first `c` in a text, at or after `from`; -1 if there is none.
pub open spec fn find_from(s: Seq<char>, c: char, from: int) -> int
    decreases s.len() - from,
{
    if from < 0 || from >= s.len() {
        -1
    } else if s[from] == c {
        from
    } else {
        find_from(s, c, from + 1)
    }
}

/// The place of the first `c` in a text; -1 if there is none.
pub open spec fn find(s: Seq<char>, c: char) -> int {
    find_from(s, c, 0)
}

/// Where the first `c` is found, it stands, and none stands before it.
pub proof fn lemma_find(s: Seq<char>, c: char, from: int)
    requires
        0 <= from <= s.len(),
    ensures
        ({
            let i = find_from(s, c, from);
            &&& i == -1 || from <= i < s.len()
            &&& i >= 0 ==> s[i] == c && forall|k: int| from <= k < i ==> #[trigger] s[k] != c
            &&& i < 0 ==> forall|k: int| from <= k < s.len() ==> #[trigger] s[k] != c
        }),
    decreases s.len() - from,
{
    if from < s.len() && s[from] != c {
        lemma_find(s, c, from + 1);
    }
}

/// A place of `c` before which none stands is where it is found.
pub proof fn lemma_found_at(s: Seq<char>, c: char, from: int, i: int)
    requires
        0 <= from <= i <= s.len(),
        i < s.len() ==> s[i] == c,
        forall|k: int| from <= k < i ==> #[trigger] s[k] != c,
    ensures
        find_from(s, c, from) == if i < s.len() {
            i
        } else {
            -1
        },
    decreases i - from,
{
    if from < i {
        assert(s[from] != c);
        lemma_found_at(s, c, from + 1, i);
    }
}

/// Trimming a text that neither starts nor ends with white space changes nothing.
pub proof fn lemma_trim_clean(s: Seq<char>)
    requires
        s.len() > 0 ==> !is_white(s[0]) && !is_white(s.last()),
    ensures
        trim(s) == s,
{
}

/// The characters of a text.
pub fn chars_of(s: &str) -> (v: Vec<char>)
    ensures
        v@ == s@,
{
    let mut v: Vec<char> = Vec::new();
    for c in it: s.chars()
        invariant
            v@ == it.seq().take(it.index()),
            it.seq() == s@,
    {
        v.push(c);
        proof {
            assert(it.seq().take(it.index() + 1) =~= it.seq().take(it.index()).push(c));
        }
    }
    proof {
        assert(s@.take(s@.len() as int) =~= s@);
    }
    v
}

/// The text of some characters.
pub fn text_of(v: &Vec<char>, from: usize, upto: usize) -> (s: String)
    requires
        from <= upto <= v@.len(),
    ensures
        s@ == v@.subrange(from as int, upto as int),
{
    let mut s: String = String::new();
    let mut i: usize = from;
    while i < upto
        invariant
            from <= i <= upto <= v@.len(),
            s@ == v@.subrange(from as int, i as int),
        decreases upto - i,
    {
        s.push(v[i]);
        i = i + 1;
        proof {
            assert(s@ =~= v@.subrange(from as int, i as int));
        }
    }
    s
}

/// Where the text between two places lies once it is trimmed.
pub fn trim_range(v: &Vec<char>, from: usize, upto: usize) -> (r: (usize, usize))
    requires
        from <= upto <= v@.len(),
    ensures
        from <= r.0 <= r.1 <= upto,
        v@.subrange(r.0 as int, r.1 as int) == trim(v@.subrange(from as int, upto as int)),
{
    let mut a: usize = from;
    while a < upto && white(v[a])
        invariant
            from <= a <= upto <= v@.len(),
            trim_start(v@.subrange(a as int, upto as int)) == trim_start(
                v@.subrange(from as int, upto as int),
            ),
        decreases upto - a,
    {
        proof {
            let s = v@.subrange(a as int, upto as int);
            assert(s.drop_first() =~= v@.subrange(a + 1, upto as int));
        }
        a = a + 1;
    }
    let mut b: usize = upto;
    while b > a && white(v[b - 1])
        invariant
            from <= a <= b <= upto <= v@.len(),
            trim_end(v@.subrange(a as int, b as int)) == trim(
                v@.subrange(from as int, upto as int),
            ),
        decreases b - a,
    {
        proof {
            let s = v@.subrange(a as int, b as int);
            assert(s.drop_last() =~= v@.subrange(a as int, b - 1));
        }
        b = b - 1;
    }
    (a, b)
}

/// Whether two texts are the same.
pub fn same_text(a: &str, b: &str) -> (r: bool)
    ensures
        r == (a@ == b@),
{
    let x: Vec<char> = chars_of(a);
    let y: Vec<char> = chars_of(b);
    if x.len() != y.len() {
        return false;
    }
    let mut i: usize = 0;
    while i < x.len()
        invariant
            x@ == a@,
            y@ == b@,
            x@.len() == y@.len(),
            i <= x@.len(),
            forall|k: int| 0 <= k < i ==> #[trigger] x@[k] == y@[k],
        decreases x@.len() - i,
    {
        if x[i] != y[i] {
            proof {
                assert(a@[i as int] != b@[i as int]);
            }
            return false;
        }
        i = i + 1;
    }
    proof {
        assert(a@ =~= b@);
    }
    true
}

/// The value of a decimal digit; none for another character.
pub open spec fn digit_value(c: char) -> Option<nat> {
    if '0' as u32 <= c as u32 <= '9' as u32 {
        Some((c as u32 - '0' as u32) as nat)
    } else {
        None
    }
}

/// The number that some decimal digits write; none if a character is no digit.
pub open spec fn digits_value(s: Seq<char>) -> Option<nat>
    decreases s.len(),
{
    if s.len() == 0 {
        Some(0)
    } else {
        match (digits_value(s.drop_last()), digit_value(s.last())) {
            (Some(v), Some(d)) => Some(10 * v + d),
            _ => None,
        }
    }
}

/// The whole number that a text writes: digits, at least one, after a plus sign or none,
/// and not above `max`.
pub open spec fn count_value(s: Seq<char>, max: nat) -> Option<nat> {
    let d = if s.len() > 0 && s[0] == '+' {
        s.drop_first()
    } else {
        s
    };
    match digits_value(d) {
        Some(v) => if d.len() > 0 && v <= max {
            Some(v)
        } else {
            None
        },
        None => None,
    }
}

proof fn lemma_digits_prefix(s: Seq<char>, k: int)
    requires
        0 <= k <= s.len(),
        digits_value(s) is Some,
    ensures
        digits_value(s.take(k)) is Some,
        digits_value(s.take(k))->0 <= digits_value(s)->0,
    decreases s.len() - k,
{
    if k == s.len() {
        assert(s.take(k) =~= s);
    } else {
        lemma_digits_prefix(s, k + 1);
        assert(s.take(k + 1).drop_last() =~= s.take(k));
    }
}

/// Reads a whole number; see `count_value`.
pub fn parse_count(s: &str, max: u64) -> (r: Option<u64>)
    ensures
        match r {
            Some(v) => count_value(s@, max as nat) == Some(v as nat),
            None => count_value(s@, max as nat) is None,
        },
{
    let v: Vec<char> = chars_of(s);
    let n: usize = v.len();
    let from: usize = if n > 0 && v[0] == '+' { 1 } else { 0 };
    let ghost d = if from == 1 {
        s@.drop_first()
    } else {
        s@
    };
    proof {
        assert(d =~= s@.subrange(from as int, n as int));
    }
    if from == n {
        return None;
    }
    let mut value: u64 = 0;
    let mut i: usize = from;
    while i < n
        invariant
            v@ == s@,
            n == v@.len(),
            from <= i <= n,
            from < n,
            d == s@.subrange(from as int, n as int),
            d == if s@.len() > 0 && s@[0] == '+' {
                s@.drop_first()
            } else {
                s@
            },
            value <= max,
            digits_value(d.take(i - from)) == Some(value as nat),
        decreases n - i,
    {
        let u: u32 = v[i] as u32;
        let ghost k = i - from;
        proof {
            assert(d[k] == v@[i as int]);
            assert(d.take(k + 1).drop_last() =~= d.take(k));
            assert(d.take(k + 1).last() == d[k]);
        }
        if u < '0' as u32 || u > '9' as u32 {
            proof {
                if digits_value(d) is Some {
                    lemma_digits_prefix(d, k + 1);
                }
            }
            return None;
        }
        let digit: u64 = (u - '0' as u32) as u64;
        if value > max / 10 || 10 * (value as u128) + digit as u128 > max as u128 {
            proof {
                assert(10 * value + digit > max);
                if digits_value(d) is Some {
                    lemma_digits_prefix(d, k + 1);
                }
            }
            return None;
        }
        value = 10 * value + digit;
        i = i + 1;
    }
    proof {
        assert(d.take(n - from) =~= d);
    }
    Some(value)
}

/// The trimmed parts of a text between its commas.
pub open spec fn comma_parts(s: Seq<char>) -> Seq<Seq<char>>
    decreases s.len(),
{
    let i = find(s, ',');
    if 0 <= i < s.len() {
        seq![trim(s.take(i))] + comma_parts(s.skip(i + 1))
    } else {
        seq![trim(s)]
    }
}

/// The views of a list of texts.
pub open spec fn text_views(v: Seq<String>) -> Seq<Seq<char>> {
    Seq::new(v.len(), |k: int| v[k]@)
}

/// The trimmed parts of a text between its commas.
pub fn comma_pieces(s: &str) -> (r: Vec<String>)
    ensures
        text_views(r@) == comma_parts(s@),
{
    let v: Vec<char> = chars_of(s);
    let n: usize = v.len();
    let mut r: Vec<String> = Vec::new();
    let mut start: usize = 0;
    let mut i: usize = 0;
    proof {
        assert(s@.skip(0) =~= s@);
        assert(text_views(r@) + comma_parts(s@.skip(0)) =~= comma_parts(s@));
    }
    while i < n
        invariant
            v@ == s@,
            n == v@.len(),
            start <= i <= n,
            forall|k: int| start <= k < i ==> #[trigger] s@[k] != ',',
            text_views(r@) + comma_parts(s@.skip(start as int)) == comma_parts(s@),
        decreases n - i,
    {
        if v[i] == ',' {
            let ghost rest = s@.skip(start as int);
            let ghost r0 = r@;
            let (a, b) = trim_range(&v, start, i);
            let t: String = text_of(&v, a, b);
            let ghost tv = t@;
            r.push(t);
            proof {
                assert forall|k: int| 0 <= k < i - start implies #[trigger] rest[k] != ',' by {
                    assert(rest[k] == s@[start + k]);
                }
                assert(rest[i - start] == s@[i as int]);
                lemma_found_at(rest, ',', 0, i - start);
                assert(rest.take(i - start) =~= s@.subrange(start as int, i as int));
                assert(rest.skip(i - start + 1) =~= s@.skip(i + 1));
                assert(text_views(r@) =~= text_views(r0).push(tv));
                assert(text_views(r@) + comma_parts(s@.skip(i + 1)) =~= text_views(r0) + (
                seq![tv] + comma_parts(s@.skip(i + 1))));
            }
            start = i + 1;
        }
        i = i + 1;
    }
    let ghost r0 = r@;
    let (a, b) = trim_range(&v, start, n);
    let t: String = text_of(&v, a, b);
    let ghost tv = t@;
    r.push(t);
    proof {
        let rest = s@.skip(start as int);
        assert forall|k: int| 0 <= k < rest.len() implies #[trigger] rest[k] != ',' by {
            assert(rest[k] == s@[start + k]);
        }
        lemma_found_at(rest, ',', 0, rest.len() as int);
        assert(rest =~= s@.subrange(start as int, n as int));
        assert(text_views(r@) =~= text_views(r0) + seq![tv]);
    }
    r
}

} // verus!
