//! Numbers as text.

use vstd::prelude::*;

verus! {

/// `String::push` of std: puts one character at the end and leaves the rest as it is.
pub assume_specification[ String::push ](s: &mut String, c: char)
    ensures
        final(s)@ == old(s)@.push(c),
;

/// The decimal digit `d`.
pub open spec fn digit(d: int) -> char {
    if d == 0 {
        '0'
    } else if d == 1 {
        '1'
    } else if d == 2 {
        '2'
    } else if d == 3 {
        '3'
    } else if d == 4 {
        '4'
    } else if d == 5 {
        '5'
    } else if d == 6 {
        '6'
    } else if d == 7 {
        '7'
    } else if d == 8 {
        '8'
    } else {
        '9'
    }
}

/// `n` in decimal, without leading zeros.
pub open spec fn decimal(n: nat) -> Seq<char>
    decreases n,
{
    if n < 10 {
        seq![digit(n as int)]
    } else {
        decimal(n / 10).push(digit(n as int % 10))
    }
}

/// The last `k` decimal digits of `n`, with leading zeros.
pub open spec fn padded(n: nat, k: nat) -> Seq<char>
    decreases k,
{
    if k == 0 {
        Seq::empty()
    } else {
        padded(n / 10, (k - 1) as nat).push(digit(n as int % 10))
    }
}

/// Ten to the power `k`.
pub open spec fn ten_to(k: nat) -> nat
    decreases k,
{
    if k == 0 {
        1
    } else {
        10 * ten_to((k - 1) as nat)
    }
}

/// `v` units of which `ten_to(k)` make one, written with `k` decimals.
pub open spec fn fixed(v: int, k: nat) -> Seq<char> {
    let a = if v < 0 {
        (-v) as nat
    } else {
        v as nat
    };
    let body = decimal(a / ten_to(k)).push('.') + padded(a % ten_to(k), k);
    if v < 0 {
        seq!['-'] + body
    } else {
        body
    }
}

fn digit_char(d: u64) -> (c: char)
    requires
        d < 10,
    ensures
        c == digit(d as int),
{
    match d {
        0 => '0',
        1 => '1',
        2 => '2',
        3 => '3',
        4 => '4',
        5 => '5',
        6 => '6',
        7 => '7',
        8 => '8',
        _ => '9',
    }
}

/// Puts `n` in decimal at the end of `s`.
pub fn push_decimal(s: &mut String, n: u64)
    ensures
        final(s)@ == old(s)@ + decimal(n as nat),
    decreases n,
{
    if n >= 10 {
        push_decimal(s, n / 10);
    }
    s.push(digit_char(n % 10));
    proof {
        assert(s@ =~= old(s)@ + decimal(n as nat));
    }
}

/// Puts the last `k` digits of `n` at the end of `s`.
pub fn push_padded(s: &mut String, n: u64, k: usize)
    ensures
        final(s)@ == old(s)@ + padded(n as nat, k as nat),
    decreases k,
{
    if k > 0 {
        push_padded(s, n / 10, k - 1);
        s.push(digit_char(n % 10));
    }
    proof {
        assert(s@ =~= old(s)@ + padded(n as nat, k as nat));
    }
}

/// Ten to the power `k`.
fn pow10(k: usize) -> (p: u64)
    requires
        k <= 9,
    ensures
        p == ten_to(k as nat),
        1 <= p <= 1_000_000_000,
{
    let mut p: u64 = 1;
    let mut i: usize = 0;
    while i < k
        invariant
            i <= k <= 9,
            p == ten_to(i as nat),
            1 <= p,
            i == 0 ==> p <= 1,
            i == 1 ==> p <= 10,
            i == 2 ==> p <= 100,
            i == 3 ==> p <= 1_000,
            i == 4 ==> p <= 10_000,
            i == 5 ==> p <= 100_000,
            i == 6 ==> p <= 1_000_000,
            i == 7 ==> p <= 10_000_000,
            i == 8 ==> p <= 100_000_000,
            i == 9 ==> p <= 1_000_000_000,
        decreases k - i,
    {
        p = 10 * p;
        i = i + 1;
    }
    p
}

/// Puts `v` at the end of `s`, its last `k` digits behind the point.
pub fn push_fixed(s: &mut String, v: i64, k: usize)
    requires
        k <= 9,
    ensures
        final(s)@ == old(s)@ + fixed(v as int, k as nat),
{
    let ghost s0 = s@;
    let p: u64 = pow10(k);
    let a: u64 = if v == i64::MIN {
        0x8000_0000_0000_0000
    } else if v < 0 {
        (-v) as u64
    } else {
        v as u64
    };
    if v < 0 {
        s.push('-');
    }
    push_decimal(s, a / p);
    s.push('.');
    push_padded(s, a % p, k);
    proof {
        assert(s@ =~= s0 + fixed(v as int, k as nat));
    }
}

/// The hexadecimal digit `d`, in lower case.
pub open spec fn hex_digit(d: int) -> char {
    if d < 10 {
        digit(d)
    } else if d == 10 {
        'a'
    } else if d == 11 {
        'b'
    } else if d == 12 {
        'c'
    } else if d == 13 {
        'd'
    } else if d == 14 {
        'e'
    } else {
        'f'
    }
}

/// A byte as two hexadecimal digits.
pub open spec fn hex_byte(b: u8) -> Seq<char> {
    seq![hex_digit(b as int / 16), hex_digit(b as int % 16)]
}

fn hex_char(d: u8) -> (c: char)
    requires
        d < 16,
    ensures
        c == hex_digit(d as int),
{
    if d < 10 {
        digit_char(d as u64)
    } else {
        match d {
            10 => 'a',
            11 => 'b',
            12 => 'c',
            13 => 'd',
            14 => 'e',
            _ => 'f',
        }
    }
}

/// Puts a byte as two hexadecimal digits at the end of `s`.
pub fn push_hex(s: &mut String, b: u8)
    ensures
        final(s)@ == old(s)@ + hex_byte(b),
{
    s.push(hex_char(b / 16));
    s.push(hex_char(b % 16));
    proof {
        assert(s@ =~= old(s)@ + hex_byte(b));
    }
}

} // verus!
