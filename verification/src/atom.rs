//! Encoding values into atoms and decoding them back.
use vstd::prelude::*;

use crate::text::{char_from_u32, chars_of, push_char, push_utf8};
use crate::util::{atom_accepts_from, is_valid_atom, spec_is_atom_string_chr, AtomState};

verus! {

// ---------------------------------------------------------------------------
// Decimal integers
// ---------------------------------------------------------------------------

/// The decimal digit character for `d` (`0 <= d < 10`).
pub open spec fn digit_char(d: int) -> char {
    (d + 48) as char
}

/// Whether `c` is a decimal digit.
pub open spec fn is_digit(c: char) -> bool {
    '0' <= c && c <= '9'
}

/// The value of a decimal digit character.
pub open spec fn digit_value(c: char) -> nat {
    ((c as int) - 48) as nat
}

/// The shortest decimal representation of `n`.
pub open spec fn decimal(n: nat) -> Seq<char>
    decreases n,
{
    if n < 10 {
        seq![digit_char(n as int)]
    } else {
        decimal(n / 10).push(digit_char((n % 10) as int))
    }
}

/// The decimal representation of `v`, with a leading `-` when negative.
pub open spec fn int_repr(v: int) -> Seq<char> {
    if v < 0 {
        seq!['-'] + decimal((-v) as nat)
    } else {
        decimal(v as nat)
    }
}

/// Whether every character of `s` is a decimal digit.
pub open spec fn all_digits(s: Seq<char>) -> bool {
    forall|i: int| 0 <= i < s.len() ==> is_digit(#[trigger] s[i])
}

/// The value of the decimal digits `s`.
pub open spec fn digits_value(s: Seq<char>) -> nat
    decreases s.len(),
{
    if s.len() == 0 {
        0
    } else {
        digits_value(s.drop_last()) * 10 + digit_value(s.last())
    }
}

/// The value written in `s` as one or more decimal digits, if it lies in `0..=max`.
pub open spec fn unsigned_in_range(s: Seq<char>, max: int) -> Option<int> {
    if s.len() > 0 && all_digits(s) && digits_value(s) <= max {
        Some(digits_value(s) as int)
    } else {
        None
    }
}

/// The value written in `s` as an optional sign (`-` or `+`) followed by one
/// or more decimal digits, if it lies in `min..=max`.
pub open spec fn signed_in_range(s: Seq<char>, min: int, max: int) -> Option<int> {
    if s.len() > 0 && (s[0] == '-' || s[0] == '+') {
        let d = s.drop_first();
        let v = if s[0] == '-' { -digits_value(d) } else { digits_value(d) as int };
        if d.len() > 0 && all_digits(d) && min <= v && v <= max {
            Some(v)
        } else {
            None
        }
    } else {
        if s.len() > 0 && all_digits(s) && min <= digits_value(s) && digits_value(s) <= max {
            Some(digits_value(s) as int)
        } else {
            None
        }
    }
}

/// Appends the decimal digits of `v` to `output`.
fn push_decimal(v: u128, output: &mut String)
    ensures
        final(output)@ == old(output)@ + decimal(v as nat),
    decreases v,
{
    if v >= 10 {
        push_decimal(v / 10, output);
    }
    let d = (v % 10) as u8;
    push_char(output, (d + 48) as char);
    proof {
        assert(d as int == (v as nat) % 10);
        if v >= 10 {
            assert(decimal(v as nat) == decimal((v / 10) as nat).push(digit_char(d as int)));
        }
    }
}

/// Appends the representation of a signed value, given as its sign and magnitude.
fn push_signed(negative: bool, magnitude: u128, output: &mut String)
    ensures
        final(output)@ == old(output)@ + (if negative { seq!['-'] } else { Seq::empty() })
            + decimal(magnitude as nat),
{
    if negative {
        push_char(output, '-');
    }
    push_decimal(magnitude, output);
    assert(final(output)@ =~= old(output)@ + (if negative { seq!['-'] } else { Seq::empty() })
        + decimal(magnitude as nat));
}

/// The magnitude of `v`.
fn magnitude_of(v: i128) -> (m: u128)
    ensures
        m as int == if v < 0 { -v } else { v as int },
{
    if v < 0 {
        ((-(v + 1)) as u128) + 1
    } else {
        v as u128
    }
}

/// Appends the decimal representation of `value` to `output`.
pub fn encode_i128_into(value: i128, output: &mut String)
    ensures
        final(output)@ == old(output)@ + int_repr(value as int),
{
    push_int(value, output);
}

/// Appends the decimal representation of `value` to `output`.
pub fn encode_u128_into(value: u128, output: &mut String)
    ensures
        final(output)@ == old(output)@ + int_repr(value as int),
{
    push_unsigned(value, output);
}


/// Appends the decimal representation of an unsigned value.
fn push_unsigned(value: u128, output: &mut String)
    ensures
        final(output)@ == old(output)@ + int_repr(value as int),
{
    push_decimal(value, output);
}

/// Appends the decimal representation of a signed value.
fn push_int(value: i128, output: &mut String)
    ensures
        final(output)@ == old(output)@ + int_repr(value as int),
{
    let m = magnitude_of(value);
    push_signed(value < 0, m, output);
    assert(final(output)@ =~= old(output)@ + int_repr(value as int));
}

proof fn lemma_digits_value_prefix(s: Seq<char>, k: int)
    requires
        all_digits(s),
        0 <= k <= s.len(),
    ensures
        digits_value(s.take(k)) <= digits_value(s),
    decreases s.len(),
{
    if k < s.len() {
        assert(s.drop_last().take(k) =~= s.take(k));
        lemma_digits_value_prefix(s.drop_last(), k);
    } else {
        assert(s.take(k) =~= s);
    }
}

/// Reads the decimal digits `chars[start..]`, whose value must not exceed `bound`.
fn read_magnitude(chars: &Vec<char>, start: usize, bound: u128) -> (r: Option<u128>)
    requires
        start <= chars.len(),
        bound >= 9,
    ensures
        ({
            let d = chars@.subrange(start as int, chars@.len() as int);
            match r {
                Some(m) => d.len() > 0 && all_digits(d) && digits_value(d) <= bound
                    && m == digits_value(d),
                None => !(d.len() > 0 && all_digits(d) && digits_value(d) <= bound),
            }
        }),
{
    let ghost full = chars@.subrange(start as int, chars@.len() as int);
    if start == chars.len() {
        return None;
    }
    let mut acc: u128 = 0;
    let mut i: usize = start;
    while i < chars.len()
        invariant
            start <= i <= chars.len(),
            full == chars@.subrange(start as int, chars@.len() as int),
            all_digits(chars@.subrange(start as int, i as int)),
            acc == digits_value(chars@.subrange(start as int, i as int)),
            acc <= bound,
            bound >= 9,
        decreases chars.len() - i,
    {
        let c = chars[i];
        let ghost prefix = chars@.subrange(start as int, i + 1);
        assert(prefix.drop_last() =~= chars@.subrange(start as int, i as int));
        assert(full.take(i + 1 - start) =~= prefix);
        if !('0' <= c && c <= '9') {
            assert(full[i - start] == c);
            return None;
        }
        let d = (c as u32 - 48) as u128;
        assert(d == digit_value(c));
        if acc > (bound - d) / 10 {
            proof {
                assert(acc * 10 + d > bound) by (nonlinear_arith)
                    requires acc > (bound - d) / 10, d <= 9, bound >= 9;
                if all_digits(full) {
                    lemma_digits_value_prefix(full, i + 1 - start);
                }
            }
            return None;
        }
        assert(acc * 10 + d <= bound) by (nonlinear_arith)
            requires acc <= (bound - d) / 10, d <= 9, bound >= 9;
        acc = acc * 10 + d;
        i = i + 1;
        assert(all_digits(chars@.subrange(start as int, i as int)));
    }
    assert(full =~= chars@.subrange(start as int, i as int));
    Some(acc)
}

/// Decodes an unsigned decimal atom whose value must not exceed `max`.
fn decode_unsigned(atom: &str, max: u128) -> (r: Option<u128>)
    requires
        max >= 9,
    ensures
        match r {
            Some(v) => unsigned_in_range(atom@, max as int) == Some(v as int),
            None => unsigned_in_range(atom@, max as int) is None,
        },
{
    let chars = chars_of(atom);
    assert(chars@.subrange(0, chars@.len() as int) =~= atom@);
    read_magnitude(&chars, 0, max)
}

/// Decodes a signed decimal atom whose value must lie in `-min_magnitude..=max`;
/// returns its sign and magnitude.
fn decode_signed(atom: &str, min_magnitude: u128, max: u128) -> (r: Option<(bool, u128)>)
    requires
        max >= 9,
        min_magnitude >= 9,
    ensures
        match r {
            Some((neg, m)) => signed_in_range(atom@, -min_magnitude, max as int) == Some(
                if neg { -m } else { m as int },
            ) && (neg ==> m <= min_magnitude) && (!neg ==> m <= max),
            None => signed_in_range(atom@, -min_magnitude, max as int) is None,
        },
{
    let chars = chars_of(atom);
    if chars.len() > 0 && (chars[0] == '-' || chars[0] == '+') {
        let neg = chars[0] == '-';
        let bound = if neg { min_magnitude } else { max };
        assert(chars@.subrange(1, chars@.len() as int) =~= atom@.drop_first());
        match read_magnitude(&chars, 1, bound) {
            Some(m) => Some((neg, m)),
            None => None,
        }
    } else {
        assert(chars@.subrange(0, chars@.len() as int) =~= atom@);
        match read_magnitude(&chars, 0, max) {
            Some(m) => Some((false, m)),
            None => None,
        }
    }
}

/// The signed value with sign `neg` and magnitude `m`.
fn signed_value(neg: bool, m: u128) -> (v: i128)
    requires
        neg ==> m <= 0x8000_0000_0000_0000_0000_0000_0000_0000,
        !neg ==> m <= 0x7fff_ffff_ffff_ffff_ffff_ffff_ffff_ffff,
    ensures
        v as int == if neg { -m } else { m as int },
{
    if neg {
        if m == 0x8000_0000_0000_0000_0000_0000_0000_0000 {
            i128::MIN
        } else {
            -(m as i128)
        }
    } else {
        m as i128
    }
}

/// Appends the decimal representation of `value` to `output`.
pub fn encode_i8_into(value: i8, output: &mut String)
    ensures
        final(output)@ == old(output)@ + int_repr(value as int),
{
    push_int(value as i128, output);
}

/// Returns the decimal representation of `value`.
pub fn encode_i8(value: i8) -> (r: String)
    ensures
        r@ == int_repr(value as int),
{
    let mut output = String::new();
    encode_i8_into(value, &mut output);
    assert(output@ =~= int_repr(value as int));
    output
}

/// Decodes an atom made of an optional sign and decimal digits into a `i8`;
/// returns `None` if the atom is not of that form or the value does not fit.
pub fn decode_i8(atom: &str) -> (r: Option<i8>)
    ensures
        match r {
            Some(v) => signed_in_range(atom@, i8::MIN as int, i8::MAX as int) == Some(v as int),
            None => signed_in_range(atom@, i8::MIN as int, i8::MAX as int) is None,
        },
{
    match decode_signed(atom, 128, 127) {
        Some((neg, m)) => Some(signed_value(neg, m) as i8),
        None => None,
    }
}

/// Appends the decimal representation of `value` to `output`.
pub fn encode_i16_into(value: i16, output: &mut String)
    ensures
        final(output)@ == old(output)@ + int_repr(value as int),
{
    push_int(value as i128, output);
}

/// Returns the decimal representation of `value`.
pub fn encode_i16(value: i16) -> (r: String)
    ensures
        r@ == int_repr(value as int),
{
    let mut output = String::new();
    encode_i16_into(value, &mut output);
    assert(output@ =~= int_repr(value as int));
    output
}

/// Decodes an atom made of an optional sign and decimal digits into a `i16`;
/// returns `None` if the atom is not of that form or the value does not fit.
pub fn decode_i16(atom: &str) -> (r: Option<i16>)
    ensures
        match r {
            Some(v) => signed_in_range(atom@, i16::MIN as int, i16::MAX as int) == Some(v as int),
            None => signed_in_range(atom@, i16::MIN as int, i16::MAX as int) is None,
        },
{
    match decode_signed(atom, 32768, 32767) {
        Some((neg, m)) => Some(signed_value(neg, m) as i16),
        None => None,
    }
}

/// Appends the decimal representation of `value` to `output`.
pub fn encode_i32_into(value: i32, output: &mut String)
    ensures
        final(output)@ == old(output)@ + int_repr(value as int),
{
    push_int(value as i128, output);
}

/// Returns the decimal representation of `value`.
pub fn encode_i32(value: i32) -> (r: String)
    ensures
        r@ == int_repr(value as int),
{
    let mut output = String::new();
    encode_i32_into(value, &mut output);
    assert(output@ =~= int_repr(value as int));
    output
}

/// Decodes an atom made of an optional sign and decimal digits into a `i32`;
/// returns `None` if the atom is not of that form or the value does not fit.
pub fn decode_i32(atom: &str) -> (r: Option<i32>)
    ensures
        match r {
            Some(v) => signed_in_range(atom@, i32::MIN as int, i32::MAX as int) == Some(v as int),
            None => signed_in_range(atom@, i32::MIN as int, i32::MAX as int) is None,
        },
{
    match decode_signed(atom, 2147483648, 2147483647) {
        Some((neg, m)) => Some(signed_value(neg, m) as i32),
        None => None,
    }
}

/// Appends the decimal representation of `value` to `output`.
pub fn encode_i64_into(value: i64, output: &mut String)
    ensures
        final(output)@ == old(output)@ + int_repr(value as int),
{
    push_int(value as i128, output);
}

/// Returns the decimal representation of `value`.
pub fn encode_i64(value: i64) -> (r: String)
    ensures
        r@ == int_repr(value as int),
{
    let mut output = String::new();
    encode_i64_into(value, &mut output);
    assert(output@ =~= int_repr(value as int));
    output
}

/// Decodes an atom made of an optional sign and decimal digits into a `i64`;
/// returns `None` if the atom is not of that form or the value does not fit.
pub fn decode_i64(atom: &str) -> (r: Option<i64>)
    ensures
        match r {
            Some(v) => signed_in_range(atom@, i64::MIN as int, i64::MAX as int) == Some(v as int),
            None => signed_in_range(atom@, i64::MIN as int, i64::MAX as int) is None,
        },
{
    match decode_signed(atom, 9223372036854775808, 9223372036854775807) {
        Some((neg, m)) => Some(signed_value(neg, m) as i64),
        None => None,
    }
}

/// Returns the decimal representation of `value`.
pub fn encode_i128(value: i128) -> (r: String)
    ensures
        r@ == int_repr(value as int),
{
    let mut output = String::new();
    encode_i128_into(value, &mut output);
    assert(output@ =~= int_repr(value as int));
    output
}

/// Decodes an atom made of an optional sign and decimal digits into a `i128`;
/// returns `None` if the atom is not of that form or the value does not fit.
pub fn decode_i128(atom: &str) -> (r: Option<i128>)
    ensures
        match r {
            Some(v) => signed_in_range(atom@, i128::MIN as int, i128::MAX as int) == Some(v as int),
            None => signed_in_range(atom@, i128::MIN as int, i128::MAX as int) is None,
        },
{
    match decode_signed(atom, 170141183460469231731687303715884105728, 170141183460469231731687303715884105727) {
        Some((neg, m)) => Some(signed_value(neg, m) as i128),
        None => None,
    }
}

/// Appends the decimal representation of `value` to `output`.
pub fn encode_u8_into(value: u8, output: &mut String)
    ensures
        final(output)@ == old(output)@ + int_repr(value as int),
{
    push_unsigned(value as u128, output);
}

/// Returns the decimal representation of `value`.
pub fn encode_u8(value: u8) -> (r: String)
    ensures
        r@ == int_repr(value as int),
{
    let mut output = String::new();
    encode_u8_into(value, &mut output);
    assert(output@ =~= int_repr(value as int));
    output
}

/// Decodes an atom made of decimal digits into a `u8`; returns `None` if the
/// atom is not of that form or the value does not fit.
pub fn decode_u8(atom: &str) -> (r: Option<u8>)
    ensures
        match r {
            Some(v) => unsigned_in_range(atom@, u8::MAX as int) == Some(v as int),
            None => unsigned_in_range(atom@, u8::MAX as int) is None,
        },
{
    match decode_unsigned(atom, 255) {
        Some(m) => Some(m as u8),
        None => None,
    }
}

/// Appends the decimal representation of `value` to `output`.
pub fn encode_u16_into(value: u16, output: &mut String)
    ensures
        final(output)@ == old(output)@ + int_repr(value as int),
{
    push_unsigned(value as u128, output);
}

/// Returns the decimal representation of `value`.
pub fn encode_u16(value: u16) -> (r: String)
    ensures
        r@ == int_repr(value as int),
{
    let mut output = String::new();
    encode_u16_into(value, &mut output);
    assert(output@ =~= int_repr(value as int));
    output
}

/// Decodes an atom made of decimal digits into a `u16`; returns `None` if the
/// atom is not of that form or the value does not fit.
pub fn decode_u16(atom: &str) -> (r: Option<u16>)
    ensures
        match r {
            Some(v) => unsigned_in_range(atom@, u16::MAX as int) == Some(v as int),
            None => unsigned_in_range(atom@, u16::MAX as int) is None,
        },
{
    match decode_unsigned(atom, 65535) {
        Some(m) => Some(m as u16),
        None => None,
    }
}

/// Appends the decimal representation of `value` to `output`.
pub fn encode_u32_into(value: u32, output: &mut String)
    ensures
        final(output)@ == old(output)@ + int_repr(value as int),
{
    push_unsigned(value as u128, output);
}

/// Returns the decimal representation of `value`.
pub fn encode_u32(value: u32) -> (r: String)
    ensures
        r@ == int_repr(value as int),
{
    let mut output = String::new();
    encode_u32_into(value, &mut output);
    assert(output@ =~= int_repr(value as int));
    output
}

/// Decodes an atom made of decimal digits into a `u32`; returns `None` if the
/// atom is not of that form or the value does not fit.
pub fn decode_u32(atom: &str) -> (r: Option<u32>)
    ensures
        match r {
            Some(v) => unsigned_in_range(atom@, u32::MAX as int) == Some(v as int),
            None => unsigned_in_range(atom@, u32::MAX as int) is None,
        },
{
    match decode_unsigned(atom, 4294967295) {
        Some(m) => Some(m as u32),
        None => None,
    }
}

/// Appends the decimal representation of `value` to `output`.
pub fn encode_u64_into(value: u64, output: &mut String)
    ensures
        final(output)@ == old(output)@ + int_repr(value as int),
{
    push_unsigned(value as u128, output);
}

/// Returns the decimal representation of `value`.
pub fn encode_u64(value: u64) -> (r: String)
    ensures
        r@ == int_repr(value as int),
{
    let mut output = String::new();
    encode_u64_into(value, &mut output);
    assert(output@ =~= int_repr(value as int));
    output
}

/// Decodes an atom made of decimal digits into a `u64`; returns `None` if the
/// atom is not of that form or the value does not fit.
pub fn decode_u64(atom: &str) -> (r: Option<u64>)
    ensures
        match r {
            Some(v) => unsigned_in_range(atom@, u64::MAX as int) == Some(v as int),
            None => unsigned_in_range(atom@, u64::MAX as int) is None,
        },
{
    match decode_unsigned(atom, 18446744073709551615) {
        Some(m) => Some(m as u64),
        None => None,
    }
}

/// Returns the decimal representation of `value`.
pub fn encode_u128(value: u128) -> (r: String)
    ensures
        r@ == int_repr(value as int),
{
    let mut output = String::new();
    encode_u128_into(value, &mut output);
    assert(output@ =~= int_repr(value as int));
    output
}

/// Decodes an atom made of decimal digits into a `u128`; returns `None` if the
/// atom is not of that form or the value does not fit.
pub fn decode_u128(atom: &str) -> (r: Option<u128>)
    ensures
        match r {
            Some(v) => unsigned_in_range(atom@, u128::MAX as int) == Some(v as int),
            None => unsigned_in_range(atom@, u128::MAX as int) is None,
        },
{
    match decode_unsigned(atom, 340282366920938463463374607431768211455) {
        Some(m) => Some(m as u128),
        None => None,
    }
}

pub(crate) proof fn lemma_decimal(n: nat)
    ensures
        decimal(n).len() > 0,
        all_digits(decimal(n)),
        digits_value(decimal(n)) == n,
    decreases n,
{
    if n >= 10 {
        lemma_decimal(n / 10);
        let d = decimal(n);
        assert(d.drop_last() =~= decimal(n / 10));
        assert(digit_value(d.last()) == n % 10);
        assert(digits_value(d) == digits_value(d.drop_last()) * 10 + digit_value(d.last()));
        assert(n == (n / 10) * 10 + n % 10);
        assert forall|i: int| 0 <= i < d.len() implies is_digit(#[trigger] d[i]) by {
            if i < d.len() - 1 {
                assert(d[i] == decimal(n / 10)[i]);
            }
        }
    } else {
        assert(decimal(n).drop_last() =~= Seq::<char>::empty());
        assert(digit_value(decimal(n).last()) == n);
        assert(digits_value(decimal(n)) == digits_value(decimal(n).drop_last()) * 10 + digit_value(decimal(n).last()));
    }
}

/// Decoding the decimal representation of a signed value gives the value back,
/// for every value in the range of the target type (`min < 0`).
pub proof fn lemma_signed_roundtrip(v: int, min: int, max: int)
    requires
        min < 0 <= max,
        min <= v <= max,
    ensures
        signed_in_range(int_repr(v), min, max) == Some(v),
{
    if v < 0 {
        lemma_decimal((-v) as nat);
        let s = int_repr(v);
        assert(s.drop_first() =~= decimal((-v) as nat));
    } else {
        lemma_decimal(v as nat);
        let s = int_repr(v);
        assert(is_digit(s[0]));
    }
}

/// Decoding the decimal representation of an unsigned value gives the value
/// back, for every value up to the maximum of the target type.
pub proof fn lemma_unsigned_roundtrip(v: int, max: int)
    requires
        0 <= v <= max,
    ensures
        unsigned_in_range(int_repr(v), max) == Some(v),
{
    lemma_decimal(v as nat);
}

// ---------------------------------------------------------------------------
// Booleans
// ---------------------------------------------------------------------------

/// The atom `true`.
pub open spec fn true_atom() -> Seq<char> {
    seq!['t', 'r', 'u', 'e']
}

/// The atom `false`.
pub open spec fn false_atom() -> Seq<char> {
    seq!['f', 'a', 'l', 's', 'e']
}

/// Returns `"true"` if `value` is `true`, otherwise returns `"false"`.
pub fn encode_bool(value: bool) -> (r: &'static str)
    ensures
        r@ == if value { true_atom() } else { false_atom() },
{
    proof {
        reveal_strlit("true");
        reveal_strlit("false");
    }
    if value {
        "true"
    } else {
        "false"
    }
}

/// Returns `Some(true)` if `atom` is `true`, `Some(false)` if it is `false`,
/// or `None` otherwise.
pub fn decode_bool(atom: &str) -> (r: Option<bool>)
    ensures
        r == if atom@ == true_atom() {
            Some(true)
        } else if atom@ == false_atom() {
            Some(false)
        } else {
            None::<bool>
        },
{
    let c = chars_of(atom);
    if c.len() == 4 && c[0] == 't' && c[1] == 'r' && c[2] == 'u' && c[3] == 'e' {
        assert(c@ =~= true_atom());
        Some(true)
    } else if c.len() == 5 && c[0] == 'f' && c[1] == 'a' && c[2] == 'l' && c[3] == 's' && c[4]
        == 'e' {
        assert(c@ =~= false_atom());
        Some(false)
    } else {
        assert(c@ != true_atom() && c@ != false_atom()) by {
            if c@ == true_atom() {
                assert(c@[0] == 't' && c@[1] == 'r' && c@[2] == 'u' && c@[3] == 'e');
            }
            if c@ == false_atom() {
                assert(c@[0] == 'f' && c@[1] == 'a' && c@[2] == 'l' && c@[3] == 's' && c@[4] == 'e');
            }
        }
        None
    }
}

// ---------------------------------------------------------------------------
// Hexadecimal digits
// ---------------------------------------------------------------------------

/// The lowercase hexadecimal digit for `n` (`0 <= n < 16`).
pub open spec fn hex_digit_char(n: int) -> char {
    if n < 10 {
        (n + 48) as char
    } else {
        (n - 10 + 97) as char
    }
}

/// The value of a hexadecimal digit (either case), if `c` is one.
pub open spec fn hex_value(c: char) -> Option<int> {
    if '0' <= c && c <= '9' {
        Some(c as int - 48)
    } else if 'A' <= c && c <= 'F' {
        Some(c as int - 65 + 10)
    } else if 'a' <= c && c <= 'f' {
        Some(c as int - 97 + 10)
    } else {
        None
    }
}

/// The shortest lowercase hexadecimal representation of `n`.
pub open spec fn hex_repr(n: nat) -> Seq<char>
    decreases n,
{
    if n < 16 {
        seq![hex_digit_char(n as int)]
    } else {
        hex_repr(n / 16).push(hex_digit_char((n % 16) as int))
    }
}

fn nibble_to_hex(nibble: u8) -> (c: char)
    requires
        nibble < 16,
    ensures
        c == hex_digit_char(nibble as int),
{
    if nibble < 10 {
        (48u8 + nibble) as char
    } else {
        (97u8 + nibble - 10) as char
    }
}

fn hex_digit_to_u8(chr: char) -> (r: Option<u8>)
    ensures
        match r {
            Some(v) => hex_value(chr) == Some(v as int) && v < 16,
            None => hex_value(chr) is None,
        },
{
    if chr >= '0' && chr <= '9' {
        Some((chr as u32 - 48) as u8)
    } else if chr >= 'A' && chr <= 'F' {
        Some((chr as u32 - 65 + 10) as u8)
    } else if chr >= 'a' && chr <= 'f' {
        Some((chr as u32 - 97 + 10) as u8)
    } else {
        None
    }
}

// ---------------------------------------------------------------------------
// Strings
// ---------------------------------------------------------------------------

/// How a byte is written inside a quoted byte string.
pub open spec fn byte_escape(b: u8) -> Seq<char> {
    if b == 9 {
        seq!['\\', 't']
    } else if b == 10 {
        seq!['\\', 'n']
    } else if b == 13 {
        seq!['\\', 'r']
    } else if b == 34 {
        seq!['\\', '"']
    } else if b == 92 {
        seq!['\\', '\\']
    } else if 0x20 <= b && b <= 0x7e {
        seq![b as char]
    } else {
        seq!['\\', 'x', hex_digit_char((b / 16) as int), hex_digit_char((b % 16) as int)]
    }
}

/// The escaped form of the bytes `s`.
pub open spec fn escape_bytes(s: Seq<u8>) -> Seq<char>
    decreases s.len(),
{
    if s.len() == 0 {
        Seq::empty()
    } else {
        byte_escape(s[0]) + escape_bytes(s.drop_first())
    }
}

/// The bytes `s` as a quoted, escaped atom.
pub open spec fn quote_bytes(s: Seq<u8>) -> Seq<char> {
    seq!['"'] + escape_bytes(s) + seq!['"']
}

/// The byte values of the ASCII characters `s`.
pub open spec fn ascii_bytes(s: Seq<char>) -> Seq<u8> {
    s.map_values(|c: char| (c as u32) as u8)
}

/// Whether every character of `s` is ASCII.
pub open spec fn is_ascii_text(s: Seq<char>) -> bool {
    forall|i: int| 0 <= i < s.len() ==> (#[trigger] s[i] as u32) < 0x80
}

/// How a character is written inside a quoted UTF-8 string.
pub open spec fn char_escape(c: char) -> Seq<char> {
    if c == '\t' {
        seq!['\\', 't']
    } else if c == '\n' {
        seq!['\\', 'n']
    } else if c == '\r' {
        seq!['\\', 'r']
    } else if c == '"' {
        seq!['\\', '"']
    } else if c == '\\' {
        seq!['\\', '\\']
    } else if ' ' <= c && c <= '~' {
        seq![c]
    } else {
        seq!['\\', 'u', '{'] + hex_repr((c as u32) as nat) + seq!['}']
    }
}

/// The escaped form of the characters `s`.
pub open spec fn escape_chars(s: Seq<char>) -> Seq<char>
    decreases s.len(),
{
    if s.len() == 0 {
        Seq::empty()
    } else {
        char_escape(s[0]) + escape_chars(s.drop_first())
    }
}

/// The characters `s` as a quoted, escaped atom.
pub open spec fn quote_chars(s: Seq<char>) -> Seq<char> {
    seq!['"'] + escape_chars(s) + seq!['"']
}

proof fn lemma_escape_bytes_concat(a: Seq<u8>, b: Seq<u8>)
    ensures
        escape_bytes(a + b) == escape_bytes(a) + escape_bytes(b),
    decreases a.len(),
{
    if a.len() == 0 {
        assert(a + b =~= b);
        assert(escape_bytes(a) + escape_bytes(b) =~= escape_bytes(b));
    } else {
        assert((a + b).drop_first() =~= a.drop_first() + b);
        lemma_escape_bytes_concat(a.drop_first(), b);
        assert(escape_bytes(a + b) =~= escape_bytes(a) + escape_bytes(b));
    }
}

proof fn lemma_escape_chars_concat(a: Seq<char>, b: Seq<char>)
    ensures
        escape_chars(a + b) == escape_chars(a) + escape_chars(b),
    decreases a.len(),
{
    if a.len() == 0 {
        assert(a + b =~= b);
        assert(escape_chars(a) + escape_chars(b) =~= escape_chars(b));
    } else {
        assert((a + b).drop_first() =~= a.drop_first() + b);
        lemma_escape_chars_concat(a.drop_first(), b);
        assert(escape_chars(a + b) =~= escape_chars(a) + escape_chars(b));
    }
}

proof fn lemma_escape_bytes_one(b: u8)
    ensures
        escape_bytes(seq![b]) == byte_escape(b),
{
    assert(seq![b].drop_first() =~= Seq::<u8>::empty());
    assert(escape_bytes(Seq::<u8>::empty()) =~= Seq::<char>::empty());
    assert(seq![b][0] == b);
    assert(escape_bytes(seq![b]) =~= byte_escape(b));
}

proof fn lemma_escape_chars_one(c: char)
    ensures
        escape_chars(seq![c]) == char_escape(c),
{
    assert(seq![c].drop_first() =~= Seq::<char>::empty());
    assert(escape_chars(Seq::<char>::empty()) =~= Seq::<char>::empty());
    assert(seq![c][0] == c);
    assert(escape_chars(seq![c]) =~= char_escape(c));
}

/// Appends `a` then `b` to `output`.
fn push2(output: &mut String, a: char, b: char)
    ensures
        final(output)@ == old(output)@ + seq![a, b],
{
    push_char(output, a);
    push_char(output, b);
    assert(final(output)@ =~= old(output)@ + seq![a, b]);
}

/// Appends the escaped form of the byte `b`.
fn push_byte_escape(b: u8, output: &mut String)
    ensures
        final(output)@ == old(output)@ + byte_escape(b),
{
    if b == 9 {
        push2(output, '\\', 't');
    } else if b == 10 {
        push2(output, '\\', 'n');
    } else if b == 13 {
        push2(output, '\\', 'r');
    } else if b == 34 {
        push2(output, '\\', '"');
    } else if b == 92 {
        push2(output, '\\', '\\');
    } else if 0x20 <= b && b <= 0x7e {
        push_char(output, b as char);
        assert(final(output)@ =~= old(output)@ + byte_escape(b));
    } else {
        push2(output, '\\', 'x');
        assert(b >> 4 == b / 16 && b & 0xf == b % 16) by (bit_vector);
        push_char(output, nibble_to_hex(b >> 4));
        push_char(output, nibble_to_hex(b & 0xf));
        assert(final(output)@ =~= old(output)@ + byte_escape(b));
    }
}

/// Appends `string` as a quoted, escaped atom to `output`.
pub fn encode_byte_string_into(string: &[u8], output: &mut String)
    ensures
        final(output)@ == old(output)@ + quote_bytes(string@),
{
    push_char(output, '"');
    let mut i: usize = 0;
    while i < string.len()
        invariant
            i <= string@.len(),
            output@ == old(output)@ + seq!['"'] + escape_bytes(string@.take(i as int)),
        decreases string.len() - i,
    {
        let b = string[i];
        push_byte_escape(b, output);
        proof {
            assert(string@.take(i + 1) =~= string@.take(i as int) + seq![b]);
            lemma_escape_bytes_concat(string@.take(i as int), seq![b]);
            lemma_escape_bytes_one(b);
        }
        i = i + 1;
    }
    assert(string@.take(i as int) =~= string@);
    push_char(output, '"');
    assert(final(output)@ =~= old(output)@ + quote_bytes(string@));
}

/// Returns `string` as a quoted, escaped atom.
pub fn encode_byte_string(string: &[u8]) -> (r: String)
    ensures
        r@ == quote_bytes(string@),
        is_valid_atom(r@),
{
    proof {
        lemma_byte_string_is_valid_atom(string@);
    }
    let mut output = String::new();
    encode_byte_string_into(string, &mut output);
    assert(output@ =~= quote_bytes(string@));
    output
}

/// Appends the ASCII text `string` as a quoted, escaped atom to `output`.
pub fn encode_ascii_string_into(string: &str, output: &mut String)
    requires
        is_ascii_text(string@),
    ensures
        final(output)@ == old(output)@ + quote_bytes(ascii_bytes(string@)),
{
    let chars = chars_of(string);
    push_char(output, '"');
    let mut i: usize = 0;
    while i < chars.len()
        invariant
            chars@ == string@,
            is_ascii_text(string@),
            i <= chars@.len(),
            output@ == old(output)@ + seq!['"'] + escape_bytes(ascii_bytes(chars@).take(i as int)),
        decreases chars.len() - i,
    {
        let c = chars[i];
        assert((c as u32) < 0x80);
        let b = (c as u32) as u8;
        push_byte_escape(b, output);
        proof {
            assert(ascii_bytes(chars@).take(i + 1) =~= ascii_bytes(chars@).take(i as int) + seq![b]);
            lemma_escape_bytes_concat(ascii_bytes(chars@).take(i as int), seq![b]);
            lemma_escape_bytes_one(b);
        }
        i = i + 1;
    }
    assert(ascii_bytes(chars@).take(i as int) =~= ascii_bytes(string@));
    push_char(output, '"');
    assert(final(output)@ =~= old(output)@ + quote_bytes(ascii_bytes(string@)));
}

/// Returns the ASCII text `string` as a quoted, escaped atom.
pub fn encode_ascii_string(string: &str) -> (r: String)
    requires
        is_ascii_text(string@),
    ensures
        r@ == quote_bytes(ascii_bytes(string@)),
        is_valid_atom(r@),
{
    proof {
        lemma_byte_string_is_valid_atom(ascii_bytes(string@));
    }
    let mut output = String::new();
    encode_ascii_string_into(string, &mut output);
    assert(output@ =~= quote_bytes(ascii_bytes(string@)));
    output
}

/// Appends the lowercase hexadecimal digits of `v`.
fn push_hex(v: u32, output: &mut String)
    ensures
        final(output)@ == old(output)@ + hex_repr(v as nat),
    decreases v,
{
    assert(v >> 4 == v / 16 && v & 0xf == v % 16) by (bit_vector);
    if v >= 16 {
        push_hex(v >> 4, output);
    }
    push_char(output, nibble_to_hex((v & 0xf) as u8));
    proof {
        if v >= 16 {
            assert(hex_repr(v as nat) == hex_repr((v / 16) as nat).push(hex_digit_char((v % 16) as int)));
        }
    }
}

/// Appends the escaped form of the character `c`.
fn push_char_escape(c: char, output: &mut String)
    ensures
        final(output)@ == old(output)@ + char_escape(c),
{
    if c == '\t' {
        push2(output, '\\', 't');
    } else if c == '\n' {
        push2(output, '\\', 'n');
    } else if c == '\r' {
        push2(output, '\\', 'r');
    } else if c == '"' {
        push2(output, '\\', '"');
    } else if c == '\\' {
        push2(output, '\\', '\\');
    } else if ' ' <= c && c <= '~' {
        push_char(output, c);
        assert(final(output)@ =~= old(output)@ + char_escape(c));
    } else {
        push2(output, '\\', 'u');
        push_char(output, '{');
        push_hex(c as u32, output);
        push_char(output, '}');
        assert(final(output)@ =~= old(output)@ + char_escape(c));
    }
}

/// Appends `string` as a quoted, escaped atom to `output`.
pub fn encode_utf8_string_into(string: &str, output: &mut String)
    ensures
        final(output)@ == old(output)@ + quote_chars(string@),
{
    let chars = chars_of(string);
    push_char(output, '"');
    let mut i: usize = 0;
    while i < chars.len()
        invariant
            chars@ == string@,
            i <= chars@.len(),
            output@ == old(output)@ + seq!['"'] + escape_chars(chars@.take(i as int)),
        decreases chars.len() - i,
    {
        let c = chars[i];
        push_char_escape(c, output);
        proof {
            assert(chars@.take(i + 1) =~= chars@.take(i as int) + seq![c]);
            lemma_escape_chars_concat(chars@.take(i as int), seq![c]);
            lemma_escape_chars_one(c);
        }
        i = i + 1;
    }
    assert(chars@.take(i as int) =~= string@);
    push_char(output, '"');
    assert(final(output)@ =~= old(output)@ + quote_chars(string@));
}

/// Returns `string` as a quoted, escaped atom.
pub fn encode_utf8_string(string: &str) -> (r: String)
    ensures
        r@ == quote_chars(string@),
        is_valid_atom(r@),
{
    proof {
        lemma_utf8_string_is_valid_atom(string@);
    }
    let mut output = String::new();
    encode_utf8_string_into(string, &mut output);
    assert(output@ =~= quote_chars(string@));
    output
}

// ---------------------------------------------------------------------------
// Decoding strings
// ---------------------------------------------------------------------------

/// The byte denoted by a one-letter escape (`\t`, `\n`, `\r`, `\"`, `\\`).
pub open spec fn simple_escape(c: char) -> Option<u8> {
    if c == 't' {
        Some(9)
    } else if c == 'n' {
        Some(10)
    } else if c == 'r' {
        Some(13)
    } else if c == '"' {
        Some(34)
    } else if c == '\\' {
        Some(92)
    } else {
        None
    }
}

/// The value of a `\x` escape with hexadecimal digits `h1` and `h2`, if both are digits.
pub open spec fn hex_escape_value(h1: char, h2: char) -> Option<int> {
    match (hex_value(h1), hex_value(h2)) {
        (Some(a), Some(b)) => Some(a * 16 + b),
        _ => None,
    }
}

/// `r` with `p` put before the decoded part.
pub open spec fn prepend<T>(p: Seq<T>, r: Option<(Seq<T>, Seq<char>)>) -> Option<(Seq<T>, Seq<char>)> {
    match r {
        Some((v, rest)) => Some((p + v, rest)),
        None => None,
    }
}

/// Decodes the body of a quoted byte string up to its closing quote; returns
/// the bytes and the characters after the closing quote.
///
/// Plain characters stand for their UTF-8 encoding; escapes are `\t`, `\n`,
/// `\r`, `\"`, `\\` and `\x` followed by two hexadecimal digits.
pub open spec fn unescape_bytes(s: Seq<char>) -> Option<(Seq<u8>, Seq<char>)>
    decreases s.len(),
{
    if s.len() == 0 {
        None
    } else if s[0] == '"' {
        Some((Seq::empty(), s.drop_first()))
    } else if s[0] == '\\' {
        if s.len() < 2 {
            None
        } else {
            match simple_escape(s[1]) {
                Some(b) => prepend(seq![b], unescape_bytes(s.skip(2))),
                None => if s[1] == 'x' && s.len() >= 4 && hex_escape_value(s[2], s[3]) is Some {
                    prepend(seq![hex_escape_value(s[2], s[3])->0 as u8], unescape_bytes(s.skip(4)))
                } else {
                    None
                },
            }
        }
    } else {
        prepend(vstd::utf8::encode_scalar(s[0] as u32), unescape_bytes(s.drop_first()))
    }
}

/// Decodes the body of a quoted ASCII string up to its closing quote; returns
/// the text and the characters after the closing quote.
///
/// Plain characters must be ASCII; escapes are those of byte strings, and a
/// `\x` escape must denote an ASCII character.
pub open spec fn unescape_ascii(s: Seq<char>) -> Option<(Seq<char>, Seq<char>)>
    decreases s.len(),
{
    if s.len() == 0 {
        None
    } else if s[0] == '"' {
        Some((Seq::empty(), s.drop_first()))
    } else if s[0] == '\\' {
        if s.len() < 2 {
            None
        } else {
            match simple_escape(s[1]) {
                Some(b) => prepend(seq![b as char], unescape_ascii(s.skip(2))),
                None => if s[1] == 'x' && s.len() >= 4 && hex_escape_value(s[2], s[3]) is Some
                    && hex_escape_value(s[2], s[3])->0 <= 0x7f {
                    prepend(
                        seq![(hex_escape_value(s[2], s[3])->0 as u8) as char],
                        unescape_ascii(s.skip(4)),
                    )
                } else {
                    None
                },
            }
        }
    } else if (s[0] as u32) <= 0x7f {
        prepend(seq![s[0]], unescape_ascii(s.drop_first()))
    } else {
        None
    }
}

/// Reads the hexadecimal digits of a `\u{...}` escape and its closing brace;
/// `acc` is the value of the `count` digits read so far. Returns the code
/// point and the characters after the brace.
pub open spec fn unicode_digits(s: Seq<char>, acc: int, count: nat) -> Option<(int, Seq<char>)>
    decreases s.len(),
{
    if s.len() == 0 {
        None
    } else if s[0] == '}' {
        if count > 0 {
            Some((acc, s.drop_first()))
        } else {
            None
        }
    } else if count > 0 && acc >= 0x1000_0000 {
        None
    } else {
        match hex_value(s[0]) {
            Some(h) => unicode_digits(s.drop_first(), acc * 16 + h, count + 1),
            None => None,
        }
    }
}

/// What follows a `\\u{...}` escape is shorter than the escape and what follows it.
pub proof fn lemma_unicode_digits_shorter(s: Seq<char>, acc: int, count: nat)
    ensures
        unicode_digits(s, acc, count) matches Some((_, rest)) ==> rest.len() < s.len(),
    decreases s.len(),
{
    if s.len() > 0 && s[0] != '}' && !(count > 0 && acc >= 0x1000_0000) {
        if let Some(h) = hex_value(s[0]) {
            lemma_unicode_digits_shorter(s.drop_first(), acc * 16 + h, count + 1);
        }
    }
}

/// Decodes the body of a quoted UTF-8 string up to its closing quote; returns
/// the text and the characters after the closing quote.
///
/// Escapes are those of ASCII strings plus `\u{...}`, one or more hexadecimal
/// digits naming a Unicode scalar value.
pub open spec fn unescape_utf8(s: Seq<char>) -> Option<(Seq<char>, Seq<char>)>
    decreases s.len(),
{
    if s.len() == 0 {
        None
    } else if s[0] == '"' {
        Some((Seq::empty(), s.drop_first()))
    } else if s[0] == '\\' {
        if s.len() < 2 {
            None
        } else {
            match simple_escape(s[1]) {
                Some(b) => prepend(seq![b as char], unescape_utf8(s.skip(2))),
                None => if s[1] == 'x' {
                    if s.len() >= 4 && hex_escape_value(s[2], s[3]) is Some && hex_escape_value(
                        s[2],
                        s[3],
                    )->0 <= 0x7f {
                        prepend(
                            seq![(hex_escape_value(s[2], s[3])->0 as u8) as char],
                            unescape_utf8(s.skip(4)),
                        )
                    } else {
                        None
                    }
                } else if s[1] == 'u' && s.len() >= 3 && s[2] == '{' {
                    proof {
                        lemma_unicode_digits_shorter(s.skip(3), 0, 0);
                    }
                    match unicode_digits(s.skip(3), 0, 0) {
                        Some((v, rest)) => if v < 0x1_0000_0000 && vstd::utf8::is_scalar(v as u32) {
                            prepend(seq![(v as u32) as char], unescape_utf8(rest))
                        } else {
                            None
                        },
                        None => None,
                    }
                } else {
                    None
                },
            }
        }
    } else {
        prepend(seq![s[0]], unescape_utf8(s.drop_first()))
    }
}

/// The content of a quoted atom, given how its body decodes.
pub open spec fn quoted_value<T>(atom: Seq<char>, body: Option<(Seq<T>, Seq<char>)>) -> Option<Seq<T>> {
    match body {
        Some((v, rest)) => if rest.len() == 0 {
            Some(v)
        } else {
            None
        },
        None => None,
    }
}

/// The bytes written in the byte-string atom `atom`, if it is one.
pub open spec fn byte_string_value(atom: Seq<char>) -> Option<Seq<u8>> {
    if atom.len() > 0 && atom[0] == '"' {
        quoted_value(atom, unescape_bytes(atom.drop_first()))
    } else {
        None
    }
}

/// The text written in the ASCII-string atom `atom`, if it is one.
pub open spec fn ascii_string_value(atom: Seq<char>) -> Option<Seq<char>> {
    if atom.len() > 0 && atom[0] == '"' {
        quoted_value(atom, unescape_ascii(atom.drop_first()))
    } else {
        None
    }
}

/// The text written in the UTF-8-string atom `atom`, if it is one.
pub open spec fn utf8_string_value(atom: Seq<char>) -> Option<Seq<char>> {
    if atom.len() > 0 && atom[0] == '"' {
        quoted_value(atom, unescape_utf8(atom.drop_first()))
    } else {
        None
    }
}

/// The byte of a one-letter escape.
fn simple_escape_exec(c: char) -> (r: Option<u8>)
    ensures
        r == simple_escape(c),
{
    if c == 't' {
        Some(9)
    } else if c == 'n' {
        Some(10)
    } else if c == 'r' {
        Some(13)
    } else if c == '"' {
        Some(34)
    } else if c == '\\' {
        Some(92)
    } else {
        None
    }
}

/// The value of the `\x` escape whose digits are `chars[j]` and `chars[j + 1]`.
fn read_hex_escape(chars: &Vec<char>, j: usize) -> (r: Option<u8>)
    ensures
        ({
            let ok = j + 2 <= chars@.len() && hex_escape_value(chars@[j as int], chars@[j + 1]) is Some;
            match r {
                Some(b) => ok && b as int == hex_escape_value(chars@[j as int], chars@[j + 1])->0,
                None => !ok,
            }
        }),
{
    if j >= chars.len() || chars.len() - j < 2 {
        return None;
    }
    let h1 = match hex_digit_to_u8(chars[j]) {
        Some(h) => h,
        None => return None,
    };
    let h2 = match hex_digit_to_u8(chars[j + 1]) {
        Some(h) => h,
        None => return None,
    };
    assert((h1 << 4) | h2 == h1 * 16 + h2) by (bit_vector)
        requires h1 < 16, h2 < 16;
    Some((h1 << 4) | h2)
}

/// Decodes a byte-string atom (see `byte_string_value`).
pub fn decode_byte_string(atom: &str) -> (r: Option<Vec<u8>>)
    ensures
        match r {
            Some(v) => byte_string_value(atom@) == Some(v@),
            None => byte_string_value(atom@) is None,
        },
{
    let chars = chars_of(atom);
    if chars.len() == 0 || chars[0] != '"' {
        return None;
    }
    let mut string: Vec<u8> = Vec::new();
    let mut i: usize = 1;
    loop
        invariant
            chars@ == atom@,
            chars@.len() > 0 && chars@[0] == '"',
            1 <= i <= chars@.len(),
            unescape_bytes(chars@.drop_first()) == prepend(string@, unescape_bytes(chars@.skip(i as int))),
        decreases chars@.len() - i,
    {
        let ghost s = chars@.skip(i as int);
        assert(chars@.drop_first() =~= chars@.skip(1));
        if i == chars.len() {
            return None;
        }
        let c = chars[i];
        assert(s[0] == c);
        if c == '"' {
            assert(s.drop_first() =~= chars@.skip(i + 1));
            assert(string@ + Seq::<u8>::empty() =~= string@);
            if i + 1 == chars.len() {
                return Some(string);
            } else {
                return None;
            }
        } else if c == '\\' {
            if i + 1 == chars.len() {
                return None;
            }
            let e = chars[i + 1];
            assert(s[1] == e);
            match simple_escape_exec(e) {
                Some(b) => {
                    let ghost before = string@;
                    string.push(b);
                    assert(s.skip(2) =~= chars@.skip(i + 2));
                    assert(before + (seq![b] + Seq::<u8>::empty()) =~= string@ + Seq::<u8>::empty());
                    proof {
                        match unescape_bytes(s.skip(2)) {
                            Some((v, rest)) => {
                                assert(before + (seq![b] + v) =~= string@ + v);
                            },
                            None => {},
                        }
                    }
                    i = i + 2;
                },
                None => {
                    if e != 'x' {
                        return None;
                    }
                    match read_hex_escape(&chars, i + 2) {
                        Some(b) => {
                            assert(s[2] == chars@[i + 2] && s[3] == chars@[i + 3]);
                            let ghost before = string@;
                            string.push(b);
                            assert(s.skip(4) =~= chars@.skip(i + 4));
                            proof {
                                match unescape_bytes(s.skip(4)) {
                                    Some((v, rest)) => {
                                        assert(before + (seq![b] + v) =~= string@ + v);
                                    },
                                    None => {},
                                }
                            }
                            i = i + 4;
                        },
                        None => {
                            proof {
                                if s.len() >= 4 {
                                    assert(s[2] == chars@[i + 2] && s[3] == chars@[i + 3]);
                                }
                            }
                            return None;
                        },
                    }
                },
            }
        } else {
            let ghost before = string@;
            push_utf8(&mut string, c);
            assert(s.drop_first() =~= chars@.skip(i + 1));
            proof {
                match unescape_bytes(s.drop_first()) {
                    Some((v, rest)) => {
                        assert(before + (vstd::utf8::encode_scalar(c as u32) + v) =~= string@ + v);
                    },
                    None => {},
                }
            }
            i = i + 1;
        }
    }
}


/// Decodes an ASCII-string atom (see `ascii_string_value`).
pub fn decode_ascii_string(atom: &str) -> (r: Option<String>)
    ensures
        match r {
            Some(v) => ascii_string_value(atom@) == Some(v@),
            None => ascii_string_value(atom@) is None,
        },
{
    let chars = chars_of(atom);
    if chars.len() == 0 || chars[0] != '"' {
        return None;
    }
    let mut string = String::new();
    let mut i: usize = 1;
    loop
        invariant
            chars@ == atom@,
            chars@.len() > 0 && chars@[0] == '"',
            1 <= i <= chars@.len(),
            unescape_ascii(chars@.drop_first()) == prepend(string@, unescape_ascii(chars@.skip(i as int))),
        decreases chars@.len() - i,
    {
        let ghost s = chars@.skip(i as int);
        assert(chars@.drop_first() =~= chars@.skip(1));
        if i == chars.len() {
            return None;
        }
        let c = chars[i];
        assert(s[0] == c);
        if c == '"' {
            assert(s.drop_first() =~= chars@.skip(i + 1));
            assert(string@ + Seq::<char>::empty() =~= string@);
            if i + 1 == chars.len() {
                return Some(string);
            } else {
                return None;
            }
        } else if c == '\\' {
            if i + 1 == chars.len() {
                return None;
            }
            let e = chars[i + 1];
            assert(s[1] == e);
            match simple_escape_exec(e) {
                Some(b) => {
                    let ghost before = string@;
                    push_char(&mut string, b as char);
                    assert(s.skip(2) =~= chars@.skip(i + 2));
                    proof {
                        match unescape_ascii(s.skip(2)) {
                            Some((v, rest)) => {
                                assert(before + (seq![b as char] + v) =~= string@ + v);
                            },
                            None => {},
                        }
                    }
                    i = i + 2;
                },
                None => {
                    if e != 'x' {
                        return None;
                    }
                    match read_hex_escape(&chars, i + 2) {
                        Some(b) => {
                            assert(s[2] == chars@[i + 2] && s[3] == chars@[i + 3]);
                            if b > 0x7f {
                                return None;
                            }
                            let ghost before = string@;
                            push_char(&mut string, b as char);
                            assert(s.skip(4) =~= chars@.skip(i + 4));
                            proof {
                                match unescape_ascii(s.skip(4)) {
                                    Some((v, rest)) => {
                                        assert(before + (seq![b as char] + v) =~= string@ + v);
                                    },
                                    None => {},
                                }
                            }
                            i = i + 4;
                        },
                        None => {
                            proof {
                                if s.len() >= 4 {
                                    assert(s[2] == chars@[i + 2] && s[3] == chars@[i + 3]);
                                }
                            }
                            return None;
                        },
                    }
                },
            }
        } else {
            if (c as u32) > 0x7f {
                return None;
            }
            let ghost before = string@;
            push_char(&mut string, c);
            assert(s.drop_first() =~= chars@.skip(i + 1));
            proof {
                match unescape_ascii(s.drop_first()) {
                    Some((v, rest)) => {
                        assert(before + (seq![c] + v) =~= string@ + v);
                    },
                    None => {},
                }
            }
            i = i + 1;
        }
    }
}

/// Reads the digits and closing brace of a `\u{...}` escape starting at `chars[j]`.
fn read_unicode_escape(chars: &Vec<char>, j: usize) -> (r: Option<(u32, usize)>)
    requires
        j <= chars@.len(),
    ensures
        match r {
            Some((v, k)) => k <= chars@.len() && unicode_digits(chars@.skip(j as int), 0, 0) == Some(
                (v as int, chars@.skip(k as int)),
            ),
            None => unicode_digits(chars@.skip(j as int), 0, 0) is None,
        },
{
    let mut acc: u32 = 0;
    let mut count: usize = 0;
    let mut k: usize = j;
    loop
        invariant
            j <= k <= chars@.len(),
            count == 0 ==> acc == 0,
            count > 0 ==> acc < 0x1_0000_0000,
            count <= k - j,
            unicode_digits(chars@.skip(j as int), 0, 0) == unicode_digits(
                chars@.skip(k as int),
                acc as int,
                count as nat,
            ),
        decreases chars@.len() - k,
    {
        let ghost s = chars@.skip(k as int);
        if k == chars.len() {
            return None;
        }
        let c = chars[k];
        assert(s[0] == c);
        assert(s.drop_first() =~= chars@.skip(k + 1));
        if c == '}' {
            if count > 0 {
                return Some((acc, k + 1));
            } else {
                return None;
            }
        }
        if count > 0 && acc >= 0x1000_0000 {
            return None;
        }
        match hex_digit_to_u8(c) {
            Some(h) => {
                let h32 = h as u32;
                assert((acc << 4) | h32 == acc * 16 + h32) by (bit_vector)
                    requires acc < 0x1000_0000, h32 < 16;
                acc = (acc << 4) | h32;
                count = count + 1;
                k = k + 1;
            },
            None => {
                return None;
            },
        }
    }
}

/// Decodes a UTF-8-string atom (see `utf8_string_value`).
pub fn decode_utf8_string(atom: &str) -> (r: Option<String>)
    ensures
        match r {
            Some(v) => utf8_string_value(atom@) == Some(v@),
            None => utf8_string_value(atom@) is None,
        },
{
    let chars = chars_of(atom);
    if chars.len() == 0 || chars[0] != '"' {
        return None;
    }
    let mut string = String::new();
    let mut i: usize = 1;
    loop
        invariant
            chars@ == atom@,
            chars@.len() > 0 && chars@[0] == '"',
            1 <= i <= chars@.len(),
            unescape_utf8(chars@.drop_first()) == prepend(string@, unescape_utf8(chars@.skip(i as int))),
        decreases chars@.len() - i,
    {
        let ghost s = chars@.skip(i as int);
        assert(chars@.drop_first() =~= chars@.skip(1));
        if i == chars.len() {
            return None;
        }
        let c = chars[i];
        assert(s[0] == c);
        if c == '"' {
            assert(s.drop_first() =~= chars@.skip(i + 1));
            assert(string@ + Seq::<char>::empty() =~= string@);
            if i + 1 == chars.len() {
                return Some(string);
            } else {
                return None;
            }
        } else if c == '\\' {
            if i + 1 == chars.len() {
                return None;
            }
            let e = chars[i + 1];
            assert(s[1] == e);
            match simple_escape_exec(e) {
                Some(b) => {
                    let ghost before = string@;
                    push_char(&mut string, b as char);
                    assert(s.skip(2) =~= chars@.skip(i + 2));
                    proof {
                        match unescape_utf8(s.skip(2)) {
                            Some((v, rest)) => {
                                assert(before + (seq![b as char] + v) =~= string@ + v);
                            },
                            None => {},
                        }
                    }
                    i = i + 2;
                },
                None => {
                    if e == 'x' {
                        match read_hex_escape(&chars, i + 2) {
                            Some(b) => {
                                assert(s[2] == chars@[i + 2] && s[3] == chars@[i + 3]);
                                if b > 0x7f {
                                    return None;
                                }
                                let ghost before = string@;
                                push_char(&mut string, b as char);
                                assert(s.skip(4) =~= chars@.skip(i + 4));
                                proof {
                                    match unescape_utf8(s.skip(4)) {
                                        Some((v, rest)) => {
                                            assert(before + (seq![b as char] + v) =~= string@ + v);
                                        },
                                        None => {},
                                    }
                                }
                                i = i + 4;
                            },
                            None => {
                                proof {
                                    if s.len() >= 4 {
                                        assert(s[2] == chars@[i + 2] && s[3] == chars@[i + 3]);
                                    }
                                }
                                return None;
                            },
                        }
                    } else if e == 'u' {
                        if i + 2 == chars.len() || chars[i + 2] != '{' {
                            return None;
                        }
                        assert(s[2] == chars@[i + 2]);
                        assert(s.skip(3) =~= chars@.skip(i + 3));
                        match read_unicode_escape(&chars, i + 3) {
                            Some((v, k)) => {
                                match char_from_u32(v) {
                                    Some(ch) => {
                                        let ghost before = string@;
                                        push_char(&mut string, ch);
                                        proof {
                                            lemma_unicode_digits_shorter(s.skip(3), 0, 0);
                                            match unescape_utf8(chars@.skip(k as int)) {
                                                Some((w, rest)) => {
                                                    assert(before + (seq![ch] + w) =~= string@ + w);
                                                },
                                                None => {},
                                            }
                                        }
                                        i = k;
                                    },
                                    None => {
                                        return None;
                                    },
                                }
                            },
                            None => {
                                return None;
                            },
                        }
                    } else {
                        return None;
                    }
                },
            }
        } else {
            let ghost before = string@;
            push_char(&mut string, c);
            assert(s.drop_first() =~= chars@.skip(i + 1));
            proof {
                match unescape_utf8(s.drop_first()) {
                    Some((v, rest)) => {
                        assert(before + (seq![c] + v) =~= string@ + v);
                    },
                    None => {},
                }
            }
            i = i + 1;
        }
    }
}

// ---------------------------------------------------------------------------
// Round trips
// ---------------------------------------------------------------------------

proof fn lemma_hex_digit(n: int)
    requires
        0 <= n < 16,
    ensures
        hex_value(hex_digit_char(n)) == Some(n),
        hex_digit_char(n) != '}',
        hex_digit_char(n) != '"',
        hex_digit_char(n) != '\\',
{
}

proof fn lemma_hex_escape_value(b: u8)
    ensures
        hex_escape_value(hex_digit_char((b / 16) as int), hex_digit_char((b % 16) as int)) == Some(
            b as int,
        ),
{
    lemma_hex_digit((b / 16) as int);
    lemma_hex_digit((b % 16) as int);
}

proof fn lemma_ascii_byte_utf8(b: u8)
    requires
        b < 0x80,
    ensures
        vstd::utf8::encode_scalar((b as char) as u32) == seq![b],
        (b as char) as u32 == b,
{
    assert((b as char) as u32 == b as u32);
    let v = b as u32;
    assert((v & 0x7f) as u8 == b) by (bit_vector)
        requires v == b as u32, b < 0x80;
}

/// Decoding the body of an escaped byte string followed by a closing quote
/// gives back the bytes and what follows the quote.
proof fn lemma_unescape_bytes_escape(b: Seq<u8>, t: Seq<char>)
    ensures
        unescape_bytes(escape_bytes(b) + seq!['"'] + t) == Some((b, t)),
    decreases b.len(),
{
    let s = escape_bytes(b) + seq!['"'] + t;
    if b.len() == 0 {
        assert(s =~= seq!['"'] + t);
        assert(s.drop_first() =~= t);
    } else {
        let b0 = b[0];
        let rest = b.drop_first();
        let tail = escape_bytes(rest) + seq!['"'] + t;
        lemma_unescape_bytes_escape(rest, t);
        let e = byte_escape(b0);
        assert(s =~= e + tail);
        assert(seq![b0] + rest =~= b);
        if b0 == 9 || b0 == 10 || b0 == 13 || b0 == 34 || b0 == 92 {
            assert(s.skip(2) =~= tail);
        } else if 0x20 <= b0 && b0 <= 0x7e {
            lemma_ascii_byte_utf8(b0);
            assert(s.drop_first() =~= tail);
        } else {
            lemma_hex_escape_value(b0);
            assert(s.skip(4) =~= tail);
        }
    }
}

/// Decoding a quoted byte string gives back the bytes it was made from.
pub proof fn lemma_byte_string_roundtrip(b: Seq<u8>)
    ensures
        byte_string_value(quote_bytes(b)) == Some(b),
{
    lemma_unescape_bytes_escape(b, Seq::empty());
    assert(quote_bytes(b).drop_first() =~= escape_bytes(b) + seq!['"'] + Seq::<char>::empty());
}

proof fn lemma_unescape_ascii_escape(s: Seq<char>, t: Seq<char>)
    requires
        is_ascii_text(s),
    ensures
        unescape_ascii(escape_bytes(ascii_bytes(s)) + seq!['"'] + t) == Some((s, t)),
    decreases s.len(),
{
    let b = ascii_bytes(s);
    let x = escape_bytes(b) + seq!['"'] + t;
    if s.len() == 0 {
        assert(b =~= Seq::<u8>::empty());
        assert(x =~= seq!['"'] + t);
        assert(x.drop_first() =~= t);
    } else {
        let c = s[0];
        assert((c as u32) < 0x80);
        let v = c as u32;
        let b0 = v as u8;
        assert(b0 as u32 == v) by (bit_vector)
            requires v < 0x80, b0 == v as u8;
        vstd::utf8::char_u32_cast(c, v);
        assert((b0 as char) == c);
        assert(b[0] == b0);
        assert(b.drop_first() =~= ascii_bytes(s.drop_first()));
        assert(is_ascii_text(s.drop_first())) by {
            assert forall|i: int| 0 <= i < s.drop_first().len() implies (#[trigger] s.drop_first()[i]
                as u32) < 0x80 by {
                assert(s.drop_first()[i] == s[i + 1]);
            }
        }
        lemma_unescape_ascii_escape(s.drop_first(), t);
        let tail = escape_bytes(b.drop_first()) + seq!['"'] + t;
        assert(x =~= byte_escape(b0) + tail);
        assert(seq![c] + s.drop_first() =~= s);
        if b0 == 9 || b0 == 10 || b0 == 13 || b0 == 34 || b0 == 92 {
            assert(x.skip(2) =~= tail);
        } else if 0x20 <= b0 && b0 <= 0x7e {
            assert(x.drop_first() =~= tail);
        } else {
            lemma_hex_escape_value(b0);
            assert(x.skip(4) =~= tail);
        }
    }
}

/// Decoding a quoted ASCII string gives back the text it was made from.
pub proof fn lemma_ascii_string_roundtrip(s: Seq<char>)
    requires
        is_ascii_text(s),
    ensures
        ascii_string_value(quote_bytes(ascii_bytes(s))) == Some(s),
{
    lemma_unescape_ascii_escape(s, Seq::empty());
    assert(quote_bytes(ascii_bytes(s)).drop_first() =~= escape_bytes(ascii_bytes(s)) + seq!['"']
        + Seq::<char>::empty());
}

/// The value of hexadecimal digits `d` read after a prefix of value `acc`.
spec fn hex_fold(d: Seq<char>, acc: int) -> int
    decreases d.len(),
{
    if d.len() == 0 {
        acc
    } else {
        hex_fold(d.drop_first(), acc * 16 + hex_value(d[0])->0)
    }
}

spec fn all_hex(d: Seq<char>) -> bool {
    forall|i: int| 0 <= i < d.len() ==> (#[trigger] hex_value(d[i])) is Some
}

proof fn lemma_hex_fold_grows(d: Seq<char>, acc: int)
    requires
        all_hex(d),
        acc >= 0,
    ensures
        hex_fold(d, acc) >= acc,
        d.len() > 0 ==> hex_fold(d, acc) >= acc * 16,
    decreases d.len(),
{
    if d.len() > 0 {
        assert(hex_value(d[0]) is Some);
        let h = hex_value(d[0])->0;
        assert(h >= 0);
        assert(all_hex(d.drop_first())) by {
            assert forall|i: int| 0 <= i < d.drop_first().len() implies (#[trigger] hex_value(
                d.drop_first()[i],
            )) is Some by {
                assert(d.drop_first()[i] == d[i + 1]);
            }
        }
        lemma_hex_fold_grows(d.drop_first(), acc * 16 + h);
    }
}

proof fn lemma_hex_fold_push(d: Seq<char>, c: char, acc: int)
    ensures
        hex_fold(d.push(c), acc) == hex_fold(d, acc) * 16 + hex_value(c)->0,
    decreases d.len(),
{
    if d.len() == 0 {
        assert(d.push(c).drop_first() =~= Seq::<char>::empty());
        assert(d.push(c)[0] == c);
        assert(hex_fold(Seq::<char>::empty(), acc * 16 + hex_value(c)->0) == acc * 16 + hex_value(c)->0);
        assert(hex_fold(d, acc) == acc);
    } else {
        let acc2 = acc * 16 + hex_value(d[0])->0;
        assert(d.push(c).drop_first() =~= d.drop_first().push(c));
        assert(d.push(c)[0] == d[0]);
        lemma_hex_fold_push(d.drop_first(), c, acc2);
        assert(hex_fold(d.push(c), acc) == hex_fold(d.push(c).drop_first(), acc2));
        assert(hex_fold(d, acc) == hex_fold(d.drop_first(), acc2));
    }
}

proof fn lemma_hex_repr(n: nat)
    ensures
        all_hex(hex_repr(n)),
        hex_repr(n).len() > 0,
        hex_fold(hex_repr(n), 0) == n,
    decreases n,
{
    if n < 16 {
        lemma_hex_digit(n as int);
        assert(hex_repr(n).drop_first() =~= Seq::<char>::empty());
        assert(hex_repr(n)[0] == hex_digit_char(n as int));
        assert(hex_fold(Seq::<char>::empty(), 0 * 16 + n as int) == n);
    } else {
        lemma_hex_repr(n / 16);
        let d = hex_repr(n / 16);
        let c = hex_digit_char((n % 16) as int);
        lemma_hex_digit((n % 16) as int);
        lemma_hex_fold_push(d, c, 0);
        assert(hex_repr(n) == d.push(c));
        assert(all_hex(d.push(c))) by {
            assert forall|i: int| 0 <= i < d.push(c).len() implies (#[trigger] hex_value(
                d.push(c)[i],
            )) is Some by {
                if i < d.len() {
                    assert(d.push(c)[i] == d[i]);
                }
            }
        }
        assert(hex_fold(d.push(c), 0) == hex_fold(d, 0) * 16 + (n % 16));
        assert(n == (n / 16) * 16 + n % 16);
    }
}

proof fn lemma_unicode_digits_read(d: Seq<char>, t: Seq<char>, acc: int, count: nat)
    requires
        all_hex(d),
        acc >= 0,
        count > 0 || d.len() > 0,
        hex_fold(d, acc) < 0x1_0000_0000,
    ensures
        unicode_digits(d + seq!['}'] + t, acc, count) == Some((hex_fold(d, acc), t)),
    decreases d.len(),
{
    let s = d + seq!['}'] + t;
    if d.len() == 0 {
        assert(s =~= seq!['}'] + t);
        assert(s.drop_first() =~= t);
    } else {
        lemma_hex_fold_grows(d, acc);
        assert(hex_value(d[0]) is Some);
        let h = hex_value(d[0])->0;
        assert(s[0] == d[0]);
        assert(d[0] != '}');
        assert(all_hex(d.drop_first())) by {
            assert forall|i: int| 0 <= i < d.drop_first().len() implies (#[trigger] hex_value(
                d.drop_first()[i],
            )) is Some by {
                assert(d.drop_first()[i] == d[i + 1]);
            }
        }
        assert(s.drop_first() =~= d.drop_first() + seq!['}'] + t);
        lemma_unicode_digits_read(d.drop_first(), t, acc * 16 + h, count + 1);
    }
}

proof fn lemma_unescape_utf8_escape(s: Seq<char>, t: Seq<char>)
    ensures
        unescape_utf8(escape_chars(s) + seq!['"'] + t) == Some((s, t)),
    decreases s.len(),
{
    let x = escape_chars(s) + seq!['"'] + t;
    if s.len() == 0 {
        assert(x =~= seq!['"'] + t);
        assert(x.drop_first() =~= t);
    } else {
        let c = s[0];
        lemma_unescape_utf8_escape(s.drop_first(), t);
        let tail = escape_chars(s.drop_first()) + seq!['"'] + t;
        assert(x =~= char_escape(c) + tail);
        assert(seq![c] + s.drop_first() =~= s);
        if c == '\t' || c == '\n' || c == '\r' || c == '"' || c == '\\' {
            assert(x.skip(2) =~= tail);
        } else if ' ' <= c && c <= '~' {
            assert(x.drop_first() =~= tail);
        } else {
            let n = (c as u32) as nat;
            let d = hex_repr(n);
            lemma_hex_repr(n);
            vstd::utf8::char_is_scalar(c);
            assert(x.skip(3) =~= d + seq!['}'] + tail);
            lemma_unicode_digits_read(d, tail, 0, 0);
            vstd::utf8::char_is_scalar(c);
            vstd::utf8::char_u32_cast(c, c as u32);
        }
    }
}

/// Characters that may stand in a string as they are keep the atom grammar
/// inside the string.
proof fn lemma_string_chars_accept(w: Seq<char>, a: int, b: int)
    requires
        0 <= a <= b <= w.len(),
        forall|k: int| a <= k < b ==> spec_is_atom_string_chr(#[trigger] w[k]),
    ensures
        atom_accepts_from(w, a, AtomState::InString) == atom_accepts_from(
            w,
            b,
            AtomState::InString,
        ),
    decreases b - a,
{
    if a < b {
        lemma_string_chars_accept(w, a + 1, b);
    }
}

/// The hexadecimal digits of a number may stand in a string as they are.
proof fn lemma_hex_repr_string_chars(n: nat)
    ensures
        forall|k: int|
            0 <= k < hex_repr(n).len() ==> spec_is_atom_string_chr(#[trigger] hex_repr(n)[k]),
    decreases n,
{
    if n >= 16 {
        lemma_hex_repr_string_chars(n / 16);
        let d = (n % 16) as int;
        assert(spec_is_atom_string_chr(hex_digit_char(d)));
        let h = hex_repr(n / 16);
        assert(hex_repr(n) == h.push(hex_digit_char(d)));
        assert forall|k: int| 0 <= k < hex_repr(n).len() implies spec_is_atom_string_chr(
            #[trigger] hex_repr(n)[k],
        ) by {
            if k < h.len() {
                assert(hex_repr(n)[k] == h[k]);
            }
        }
    } else {
        assert(spec_is_atom_string_chr(hex_digit_char(n as int)));
    }
}

/// Inside a string, the escaped form of any text followed by the closing
/// quote completes a valid atom.
proof fn lemma_escape_accepts(p: Seq<char>, t: Seq<char>)
    ensures
        atom_accepts_from(p + escape_chars(t) + seq!['"'], p.len() as int, AtomState::InString),
    decreases t.len(),
{
    let w = p + escape_chars(t) + seq!['"'];
    let pl = p.len() as int;
    if t.len() == 0 {
        assert(w[pl] == '"');
        assert(atom_accepts_from(w, pl + 1, AtomState::Normal));
    } else {
        let c = t[0];
        let e = char_escape(c);
        assert(w =~= (p + e) + escape_chars(t.drop_first()) + seq!['"']);
        lemma_escape_accepts(p + e, t.drop_first());
        let el = e.len() as int;
        if c == '\t' || c == '\n' || c == '\r' || c == '"' || c == '\\' {
            assert(w[pl] == '\\');
            assert(w[pl + 1] == e[1]);
            assert(atom_accepts_from(w, pl + 1, AtomState::StringBackslash));
        } else if ' ' <= c && c <= '~' {
            assert(w[pl] == c);
        } else {
            let h = hex_repr((c as u32) as nat);
            lemma_hex_repr_string_chars((c as u32) as nat);
            assert(e =~= seq!['\\', 'u', '{'] + h + seq!['}']);
            assert(el == h.len() + 4);
            assert forall|k: int| pl + 1 <= k < pl + el implies spec_is_atom_string_chr(
                #[trigger] w[k],
            ) by {
                assert(w[k] == e[k - pl]);
                if k - pl >= 3 && k - pl < 3 + h.len() {
                    assert(e[k - pl] == h[k - pl - 3]);
                }
            }
            lemma_string_chars_accept(w, pl + 2, pl + el);
            assert(w[pl] == '\\');
            assert(w[pl + 1] == 'u');
            assert(atom_accepts_from(w, pl + 1, AtomState::StringBackslash));
        }
    }
}

/// Inside a string, the escaped form of any bytes followed by the closing
/// quote completes a valid atom.
proof fn lemma_escape_bytes_accepts(p: Seq<char>, t: Seq<u8>)
    ensures
        atom_accepts_from(p + escape_bytes(t) + seq!['"'], p.len() as int, AtomState::InString),
    decreases t.len(),
{
    let w = p + escape_bytes(t) + seq!['"'];
    let pl = p.len() as int;
    if t.len() == 0 {
        assert(w[pl] == '"');
        assert(atom_accepts_from(w, pl + 1, AtomState::Normal));
    } else {
        let c = t[0];
        let e = byte_escape(c);
        assert(w =~= (p + e) + escape_bytes(t.drop_first()) + seq!['"']);
        lemma_escape_bytes_accepts(p + e, t.drop_first());
        if c == 9 || c == 10 || c == 13 || c == 34 || c == 92 {
            assert(w[pl] == '\\');
            assert(w[pl + 1] == e[1]);
            assert(atom_accepts_from(w, pl + 1, AtomState::StringBackslash));
        } else if 0x20 <= c && c <= 0x7e {
            assert(w[pl] == c as char);
        } else {
            assert(spec_is_atom_string_chr(hex_digit_char((c / 16) as int)));
            assert(spec_is_atom_string_chr(hex_digit_char((c % 16) as int)));
            assert(w[pl] == '\\');
            assert(w[pl + 1] == 'x');
            assert(w[pl + 2] == e[2]);
            assert(w[pl + 3] == e[3]);
            assert(atom_accepts_from(w, pl + 3, AtomState::InString));
            assert(atom_accepts_from(w, pl + 2, AtomState::InString));
            assert(atom_accepts_from(w, pl + 1, AtomState::StringBackslash));
        }
    }
}

/// Every quoted byte string is a valid atom: whatever the bytes, what
/// `encode_byte_string` (and `encode_ascii_string`) writes follows the atom
/// grammar.
pub proof fn lemma_byte_string_is_valid_atom(b: Seq<u8>)
    ensures
        is_valid_atom(quote_bytes(b)),
{
    let q = quote_bytes(b);
    lemma_escape_bytes_accepts(seq!['"'], b);
    assert(q =~= seq!['"'] + escape_bytes(b) + seq!['"']);
    assert(q[0] == '"');
}

/// Text made of printable ASCII characters other than `"` and `\\` is
/// written as it is, between quotes.
pub proof fn lemma_plain_text_quoted_as_is(s: Seq<char>)
    requires
        forall|i: int|
            0 <= i < s.len() ==> ' ' <= #[trigger] s[i] && s[i] <= '~' && s[i] != '"' && s[i]
                != '\\',
    ensures
        quote_chars(s) == seq!['"'] + s + seq!['"'],
{
    lemma_plain_escape(s);
}

proof fn lemma_plain_escape(s: Seq<char>)
    requires
        forall|i: int|
            0 <= i < s.len() ==> ' ' <= #[trigger] s[i] && s[i] <= '~' && s[i] != '"' && s[i]
                != '\\',
    ensures
        escape_chars(s) == s,
    decreases s.len(),
{
    if s.len() > 0 {
        assert forall|i: int| 0 <= i < s.drop_first().len() implies ' ' <= #[trigger] s.drop_first()[i]
            && s.drop_first()[i] <= '~' && s.drop_first()[i] != '"' && s.drop_first()[i] != '\\' by {
            assert(s.drop_first()[i] == s[i + 1]);
        }
        lemma_plain_escape(s.drop_first());
        let c = s[0];
        assert(c != '\t' && c != '\n' && c != '\r');
        assert(char_escape(c) == seq![c]);
        assert(seq![c] + s.drop_first() =~= s);
    }
}

/// Every quoted UTF-8 string is a valid atom: whatever the text, what
/// `encode_utf8_string` writes follows the atom grammar.
pub proof fn lemma_utf8_string_is_valid_atom(s: Seq<char>)
    ensures
        is_valid_atom(quote_chars(s)),
{
    let q = quote_chars(s);
    lemma_escape_accepts(seq!['"'], s);
    assert(q =~= seq!['"'] + escape_chars(s) + seq!['"']);
    assert(q[0] == '"');
}

/// Decoding a quoted UTF-8 string gives back the text it was made from.
pub proof fn lemma_utf8_string_roundtrip(s: Seq<char>)
    ensures
        utf8_string_value(quote_chars(s)) == Some(s),
{
    lemma_unescape_utf8_escape(s, Seq::empty());
    assert(quote_chars(s).drop_first() =~= escape_chars(s) + seq!['"'] + Seq::<char>::empty());
}
} // verus!
