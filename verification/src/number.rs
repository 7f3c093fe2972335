//! Reading numbers the way `str::parse::<u32>` and `from_str_radix` do.

use vstd::prelude::*;

verus! {

pub open spec fn is_digit(c: char) -> bool {
    '0' <= c && c <= '9'
}

pub open spec fn is_hex_digit(c: char) -> bool {
    ('0' <= c && c <= '9') || ('a' <= c && c <= 'f') || ('A' <= c && c <= 'F')
}

pub open spec fn digit_value(c: char) -> nat {
    if '0' <= c && c <= '9' {
        (c as u32 - '0' as u32) as nat
    } else if 'a' <= c && c <= 'f' {
        (c as u32 - 'a' as u32 + 10) as nat
    } else {
        (c as u32 - 'A' as u32 + 10) as nat
    }
}

/// The value of the digits `d` in base `radix`.
pub open spec fn digits_value(d: Seq<char>, radix: nat) -> nat
    decreases d.len(),
{
    if d.len() == 0 { 0 } else { digits_value(d.drop_last(), radix) * radix + digit_value(d.last()) }
}

pub open spec fn all_digits(d: Seq<char>) -> bool {
    forall|i: int| 0 <= i < d.len() ==> is_digit(#[trigger] d[i])
}

pub open spec fn all_hex_digits(d: Seq<char>) -> bool {
    forall|i: int| 0 <= i < d.len() ==> is_hex_digit(#[trigger] d[i])
}

/// The digits after an optional leading sign, which is only taken off when
/// something follows it.
pub open spec fn unsigned_digits(s: Seq<char>) -> Seq<char> {
    if s.len() > 1 && s[0] == '+' { s.drop_first() } else { s }
}

/// `str::parse::<u32>`: decimal digits, an optional `+`, no overflow.
pub open spec fn spec_parse_u32(s: Seq<char>) -> Option<u32> {
    let d = unsigned_digits(s);
    if d.len() > 0 && all_digits(d) && digits_value(d, 10) <= u32::MAX {
        Some(digits_value(d, 10) as u32)
    } else {
        None
    }
}

/// `u8::from_str_radix(s, 16)`.
pub open spec fn spec_parse_hex_u8(s: Seq<char>) -> Option<u8> {
    let d = unsigned_digits(s);
    if d.len() > 0 && all_hex_digits(d) && digits_value(d, 16) <= u8::MAX {
        Some(digits_value(d, 16) as u8)
    } else {
        None
    }
}

/// Whether `i32::from_str_radix(s, 16)` succeeds: an optional sign with
/// something after it, hexadecimal digits, and a value that fits.
pub open spec fn spec_hex_i32_ok(s: Seq<char>) -> bool {
    if s.len() > 1 && s[0] == '-' {
        let d = s.drop_first();
        all_hex_digits(d) && digits_value(d, 16) <= 0x8000_0000
    } else {
        let d = unsigned_digits(s);
        d.len() > 0 && all_hex_digits(d) && digits_value(d, 16) <= 0x7fff_ffff
    }
}

/// A longer run of digits is worth at least as much as its prefix.
pub proof fn lemma_digits_value_prefix(d: Seq<char>, k: int, radix: nat)
    requires
        0 <= k <= d.len(),
        radix >= 1,
    ensures
        digits_value(d.take(k), radix) <= digits_value(d, radix),
    decreases d.len() - k,
{
    if k < d.len() {
        lemma_digits_value_prefix(d, k + 1, radix);
        assert(d.take(k + 1).drop_last() == d.take(k));
        let v = digits_value(d.take(k), radix);
        assert(v * radix >= v) by (nonlinear_arith)
            requires radix >= 1;
    } else {
        assert(d.take(k) == d);
    }
}

pub fn char_is_digit(c: char) -> (b: bool)
    ensures
        b == is_digit(c),
{
    '0' <= c && c <= '9'
}

pub fn char_is_hex_digit(c: char) -> (b: bool)
    ensures
        b == is_hex_digit(c),
{
    ('0' <= c && c <= '9') || ('a' <= c && c <= 'f') || ('A' <= c && c <= 'F')
}

pub fn char_digit_value(c: char) -> (v: u32)
    requires
        is_hex_digit(c),
    ensures
        v as nat == digit_value(c),
        v < 16,
{
    if '0' <= c && c <= '9' {
        c as u32 - '0' as u32
    } else if 'a' <= c && c <= 'f' {
        c as u32 - 'a' as u32 + 10
    } else {
        c as u32 - 'A' as u32 + 10
    }
}

/// The value of the digits `d` in base `radix` when it is at most `max`.
fn digits_up_to(d: &Vec<char>, radix: u64, max: u64) -> (r: Option<u64>)
    requires
        radix == 10 || radix == 16,
        max <= u32::MAX,
        forall|i: int| 0 <= i < d@.len() ==> is_hex_digit(#[trigger] d@[i]),
        radix == 10 ==> all_digits(d@),
    ensures
        match r {
            Some(v) => v == digits_value(d@, radix as nat) && v <= max,
            None => digits_value(d@, radix as nat) > max,
        },
{
    let mut v: u64 = 0;
    let mut i: usize = 0;
    assert(d@.take(0) == Seq::<char>::empty());
    while i < d.len()
        invariant
            i <= d.len(),
            radix == 10 || radix == 16,
            max <= u32::MAX,
            forall|j: int| 0 <= j < d@.len() ==> is_hex_digit(#[trigger] d@[j]),
            v == digits_value(d@.take(i as int), radix as nat),
            v <= max,
        decreases d.len() - i,
    {
        assert(d@.take(i + 1).drop_last() == d@.take(i as int));
        assert(d@.take(i + 1).last() == d@[i as int]);
        assert(is_hex_digit(d@[i as int]));
        let dv = char_digit_value(d[i]);
        assert(v * radix <= 0xffff_ffff * 16) by (nonlinear_arith)
            requires v <= 0xffff_ffff, radix <= 16;
        let next = v * radix + dv as u64;
        i += 1;
        if next > max {
            proof {
                lemma_digits_value_prefix(d@, i as int, radix as nat);
            }
            return None;
        }
        v = next;
    }
    assert(d@.take(d.len() as int) == d@);
    Some(v)
}

/// The characters of `s` after position `from`.
fn tail_from(s: &Vec<char>, from: usize) -> (r: Vec<char>)
    requires
        from <= s.len(),
    ensures
        r@ == s@.skip(from as int),
{
    let mut r: Vec<char> = Vec::new();
    let mut i = from;
    while i < s.len()
        invariant
            from <= i <= s.len(),
            r@ == s@.subrange(from as int, i as int),
        decreases s.len() - i,
    {
        r.push(s[i]);
        i += 1;
        assert(s@.subrange(from as int, i as int) == s@.subrange(from as int, i - 1).push(s@[i - 1]));
    }
    r
}

fn strip_plus(s: &Vec<char>) -> (r: Vec<char>)
    ensures
        r@ == unsigned_digits(s@),
{
    if s.len() > 1 && s[0] == '+' {
        let r = tail_from(s, 1);
        assert(s@.skip(1) == s@.drop_first());
        r
    } else {
        let r = tail_from(s, 0);
        assert(s@.skip(0) == s@);
        r
    }
}

fn check_digits(d: &Vec<char>, hex: bool) -> (b: bool)
    ensures
        b == if hex { all_hex_digits(d@) } else { all_digits(d@) },
{
    let mut i: usize = 0;
    while i < d.len()
        invariant
            i <= d.len(),
            forall|j: int| 0 <= j < i ==> if hex { is_hex_digit(#[trigger] d@[j]) } else { is_digit(d@[j]) },
        decreases d.len() - i,
    {
        let ok = if hex { char_is_hex_digit(d[i]) } else { char_is_digit(d[i]) };
        if !ok {
            return false;
        }
        i += 1;
    }
    true
}

/// Reads a decimal `u32` as `str::parse::<u32>` does.
pub fn parse_u32(s: &Vec<char>) -> (r: Option<u32>)
    ensures
        r == spec_parse_u32(s@),
{
    let d = strip_plus(s);
    if d.len() == 0 || !check_digits(&d, false) {
        return None;
    }
    assert forall|i: int| 0 <= i < d@.len() implies is_hex_digit(#[trigger] d@[i]) by {
        assert(is_digit(d@[i]));
    }
    match digits_up_to(&d, 10, 0xffff_ffff) {
        Some(v) => Some(v as u32),
        None => None,
    }
}

/// Reads a hexadecimal `u8` as `u8::from_str_radix(s, 16)` does.
pub fn parse_hex_u8(s: &Vec<char>) -> (r: Option<u8>)
    ensures
        r == spec_parse_hex_u8(s@),
{
    let d = strip_plus(s);
    if d.len() == 0 || !check_digits(&d, true) {
        return None;
    }
    match digits_up_to(&d, 16, 0xff) {
        Some(v) => Some(v as u8),
        None => None,
    }
}

/// Whether `i32::from_str_radix(s, 16)` would succeed.
pub fn hex_i32_ok(s: &Vec<char>) -> (b: bool)
    ensures
        b == spec_hex_i32_ok(s@),
{
    if s.len() > 1 && s[0] == '-' {
        let d = tail_from(s, 1);
        assert(s@.skip(1) == s@.drop_first());
        if !check_digits(&d, true) {
            return false;
        }
        digits_up_to(&d, 16, 0x8000_0000).is_some()
    } else {
        let d = strip_plus(s);
        if d.len() == 0 || !check_digits(&d, true) {
            return false;
        }
        digits_up_to(&d, 16, 0x7fff_ffff).is_some()
    }
}

} // verus!
