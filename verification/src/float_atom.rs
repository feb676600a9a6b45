//! The text side of float atoms: which atoms denote a float and with which
//! decimal digits, and how the shortest decimal digits of a float are
//! written as an atom. Turning digits into a float and back is left to the
//! caller.
use vstd::prelude::*;

use crate::atom::{
    all_digits, decimal, digits_value, encode_u32_into, int_repr, is_digit, lemma_decimal,
};
use crate::text::push_str;
use crate::text::{chars_of, push_char};

verus! {

/// What a float atom denotes, before any rounding to a float type.
#[derive(Clone, Debug, PartialEq, Eq)]
pub enum FloatAtom {
    /// `NaN`.
    NaN,
    /// `inf` or `+inf`.
    Infinity,
    /// `-inf`.
    NegInfinity,
    /// Zero: all the digits are zeros, or the exponent is too negative.
    Zero,
    /// The value `integral.fractional × 10^exp`, negated when `negative`;
    /// `integral` and `fractional` are decimal digits, not all zeros.
    Decimal { negative: bool, integral: String, fractional: String, exp: i64 },
}

/// The abstract value of a `FloatAtom`.
pub enum FloatAtomValue {
    NaN,
    Infinity,
    NegInfinity,
    Zero,
    Decimal { negative: bool, integral: Seq<char>, fractional: Seq<char>, exp: int },
}

impl View for FloatAtom {
    type V = FloatAtomValue;

    open spec fn view(&self) -> FloatAtomValue {
        match self {
            FloatAtom::NaN => FloatAtomValue::NaN,
            FloatAtom::Infinity => FloatAtomValue::Infinity,
            FloatAtom::NegInfinity => FloatAtomValue::NegInfinity,
            FloatAtom::Zero => FloatAtomValue::Zero,
            FloatAtom::Decimal { negative, integral, fractional, exp } => FloatAtomValue::Decimal {
                negative: *negative,
                integral: integral@,
                fractional: fractional@,
                exp: *exp as int,
            },
        }
    }
}

/// The largest exponent magnitude that is taken as written; beyond it a
/// negative exponent gives zero and a positive one no float.
pub open spec fn max_exp_abs() -> int {
    99999999999999999
}

/// The end of the run of decimal digits of `s` that starts at `i`.
pub open spec fn digits_end(s: Seq<char>, i: int) -> int
    decreases s.len() - i,
{
    if 0 <= i < s.len() && is_digit(s[i]) {
        digits_end(s, i + 1)
    } else {
        i
    }
}

/// The end of the optional sign (`+` or `-`) of `s` at `i`.
pub open spec fn sign_end(s: Seq<char>, i: int) -> int {
    if 0 <= i < s.len() && (s[i] == '+' || s[i] == '-') {
        i + 1
    } else {
        i
    }
}

/// Whether every character of `s` is `0`.
pub open spec fn all_zeros(s: Seq<char>) -> bool {
    forall|k: int| 0 <= k < s.len() ==> #[trigger] s[k] == '0'
}

/// The syntax of a decimal float atom: an optional sign, digits, optionally
/// a dot followed by digits, and optionally `e` or `E`, an optional sign and
/// at least one digit. Gives whether the atom begins with `-`, the digits
/// before the dot, those after it, whether the exponent is negative, and the
/// exponent's digits.
#[verifier::opaque]
pub open spec fn float_syntax(s: Seq<char>) -> Option<(bool, Seq<char>, Seq<char>, bool, Seq<char>)> {
    let a = sign_end(s, 0);
    let b = digits_end(s, a);
    let has_dot = b < s.len() && s[b] == '.';
    let c = if has_dot {
        b + 1
    } else {
        b
    };
    let d = if has_dot {
        digits_end(s, c)
    } else {
        b
    };
    let negative = a == 1 && s[0] == '-';
    if d == s.len() {
        Some((negative, s.subrange(a, b), s.subrange(c, d), false, Seq::<char>::empty()))
    } else if s[d] == 'e' || s[d] == 'E' {
        let f = sign_end(s, d + 1);
        let g = digits_end(s, f);
        if g == s.len() && g > f {
            Some((negative, s.subrange(a, b), s.subrange(c, d), f == d + 2 && s[d + 1] == '-', s.subrange(f, g)))
        } else {
            None
        }
    } else {
        None
    }
}

/// What the atom `s` denotes as a float, if anything: `NaN`, `inf`, `+inf`
/// and `-inf` are the special values; otherwise the atom must follow
/// `float_syntax` with at least one digit before or after the dot. All-zero
/// digits give zero (whatever the sign and the exponent); otherwise an
/// exponent beyond `max_exp_abs()` gives zero when negative and nothing when
/// positive.
#[verifier::opaque]
pub open spec fn float_atom(s: Seq<char>) -> Option<FloatAtomValue> {
    if s == seq!['N', 'a', 'N'] {
        Some(FloatAtomValue::NaN)
    } else if s == seq!['i', 'n', 'f'] || s == seq!['+', 'i', 'n', 'f'] {
        Some(FloatAtomValue::Infinity)
    } else if s == seq!['-', 'i', 'n', 'f'] {
        Some(FloatAtomValue::NegInfinity)
    } else {
        match float_syntax(s) {
            None => None,
            Some((negative, integral, fractional, exp_negative, exp_digits)) => {
                if all_zeros(integral) && all_zeros(fractional) {
                    if integral.len() == 0 && fractional.len() == 0 {
                        None
                    } else {
                        Some(FloatAtomValue::Zero)
                    }
                } else if digits_value(exp_digits) > max_exp_abs() {
                    if exp_negative {
                        Some(FloatAtomValue::Zero)
                    } else {
                        None
                    }
                } else {
                    Some(
                        FloatAtomValue::Decimal {
                            negative,
                            integral,
                            fractional,
                            exp: if exp_negative {
                                -digits_value(exp_digits)
                            } else {
                                digits_value(exp_digits) as int
                            },
                        },
                    )
                }
            },
        }
    }
}

proof fn lemma_digits_end(s: Seq<char>, i: int)
    requires
        0 <= i <= s.len(),
    ensures
        i <= digits_end(s, i) <= s.len(),
        forall|k: int| i <= k < digits_end(s, i) ==> is_digit(#[trigger] s[k]),
        digits_end(s, i) < s.len() ==> !is_digit(s[digits_end(s, i)]),
    decreases s.len() - i,
{
    if i < s.len() && is_digit(s[i]) {
        lemma_digits_end(s, i + 1);
    }
}

/// The end of the run of digits of `v` that starts at `i`.
fn scan_digits(v: &Vec<char>, i: usize) -> (j: usize)
    requires
        i <= v.len(),
    ensures
        j == digits_end(v@, i as int),
{
    let mut j = i;
    while j < v.len() && '0' <= v[j] && v[j] <= '9'
        invariant
            i <= j <= v.len(),
            digits_end(v@, j as int) == digits_end(v@, i as int),
        decreases v.len() - j,
    {
        j = j + 1;
    }
    j
}

/// Whether `v[i..j]` is all zeros.
fn zeros_between(v: &Vec<char>, i: usize, j: usize) -> (r: bool)
    requires
        i <= j <= v.len(),
    ensures
        r == all_zeros(v@.subrange(i as int, j as int)),
{
    let mut k = i;
    while k < j
        invariant
            i <= k <= j <= v.len(),
            all_zeros(v@.subrange(i as int, k as int)),
        decreases j - k,
    {
        if v[k] != '0' {
            assert(v@.subrange(i as int, j as int)[k - i] == v@[k as int]);
            return false;
        }
        k = k + 1;
        assert forall|m: int| 0 <= m < v@.subrange(i as int, k as int).len() implies #[trigger] v@.subrange(
            i as int,
            k as int,
        )[m] == '0' by {
            if m < k - 1 - i {
                assert(v@.subrange(i as int, k as int)[m] == v@.subrange(i as int, k - 1)[m]);
            }
        }
    }
    true
}

/// The string of `v[i..j]`.
fn string_between(v: &Vec<char>, i: usize, j: usize) -> (r: String)
    requires
        i <= j <= v.len(),
    ensures
        r@ == v@.subrange(i as int, j as int),
{
    let mut r = String::new();
    let mut k = i;
    while k < j
        invariant
            i <= k <= j <= v.len(),
            r@ == v@.subrange(i as int, k as int),
        decreases j - k,
    {
        push_char(&mut r, v[k]);
        k = k + 1;
        assert(r@ =~= v@.subrange(i as int, k as int));
    }
    r
}

/// The value of the digits `v[i..j]`, or some value above `max_exp_abs()`
/// when it is above it.
fn capped_digits_value(v: &Vec<char>, i: usize, j: usize) -> (r: u64)
    requires
        i <= j <= v.len(),
        forall|k: int| i <= k < j ==> is_digit(#[trigger] v@[k]),
    ensures
        digits_value(v@.subrange(i as int, j as int)) <= max_exp_abs() ==> r == digits_value(
            v@.subrange(i as int, j as int),
        ),
        digits_value(v@.subrange(i as int, j as int)) > max_exp_abs() ==> r > max_exp_abs(),
{
    let mut r: u64 = 0;
    let mut k = i;
    while k < j
        invariant
            i <= k <= j <= v.len(),
            forall|m: int| i <= m < j ==> is_digit(#[trigger] v@[m]),
            r <= 999999999999999999,
            digits_value(v@.subrange(i as int, k as int)) <= max_exp_abs() ==> r == digits_value(
                v@.subrange(i as int, k as int),
            ),
            digits_value(v@.subrange(i as int, k as int)) > max_exp_abs() ==> r > max_exp_abs(),
        decreases j - k,
    {
        let c = v[k];
        assert(is_digit(v@[k as int]));
        let d = (c as u32 - 48) as u64;
        let ghost prev = v@.subrange(i as int, k as int);
        let ghost next = v@.subrange(i as int, k + 1);
        assert(next.drop_last() =~= prev);
        assert(next.last() == c);
        assert(digits_value(next) == digits_value(prev) * 10 + d);
        if r <= 99999999999999999 {
            r = r * 10 + d;
        }
        k = k + 1;
    }
    r
}

/// The bounds of the parts of `v` that `float_syntax` finds: the sign, the
/// digits before the dot (`a..b`), after it (`c..d`), the exponent's sign and
/// its digits (`f..g`).
fn scan_float_syntax(v: &Vec<char>) -> (r: Option<(bool, usize, usize, usize, usize, bool, usize, usize)>)
    ensures
        match r {
            Some((negative, a, b, c, d, exp_negative, f, g)) => {
                &&& a <= b <= c <= d <= f <= g <= v.len()
                &&& float_syntax(v@) == Some(
                    (
                        negative,
                        v@.subrange(a as int, b as int),
                        v@.subrange(c as int, d as int),
                        exp_negative,
                        v@.subrange(f as int, g as int),
                    ),
                )
                &&& forall|k: int| f <= k < g ==> is_digit(#[trigger] v@[k])
            },
            None => float_syntax(v@) is None,
        },
{
    proof {
        reveal(float_syntax);
    }
    let ghost s = v@;
    let n = v.len();
    let mut negative = false;
    let mut a: usize = 0;
    if n > 0 && (v[0] == '+' || v[0] == '-') {
        negative = v[0] == '-';
        a = 1;
    }
    let b = scan_digits(v, a);
    proof {
        lemma_digits_end(s, a as int);
    }
    let has_dot = b < n && v[b] == '.';
    let c = if has_dot {
        b + 1
    } else {
        b
    };
    let d = if has_dot {
        scan_digits(v, c)
    } else {
        b
    };
    proof {
        lemma_digits_end(s, c as int);
    }
    if d == n {
        assert(s.subrange(n as int, n as int) =~= Seq::<char>::empty());
        return Some((negative, a, b, c, d, false, n, n));
    }
    if !(v[d] == 'e' || v[d] == 'E') {
        return None;
    }
    let mut exp_negative = false;
    let mut f = d + 1;
    if f < n && (v[f] == '+' || v[f] == '-') {
        exp_negative = v[f] == '-';
        f = f + 1;
    }
    let g = scan_digits(v, f);
    proof {
        lemma_digits_end(s, f as int);
    }
    if g != n || g == f {
        return None;
    }
    Some((negative, a, b, c, d, exp_negative, f, g))
}

/// Reads what the atom denotes as a float (see `float_atom`).
pub fn decode_float_atom(atom: &str) -> (r: Option<FloatAtom>)
    ensures
        match r {
            Some(x) => float_atom(atom@) == Some(x@),
            None => float_atom(atom@) is None,
        },
{
    proof {
        reveal(float_atom);
    }
    let v = chars_of(atom);
    let n = v.len();
    let ghost s = atom@;
    if n == 3 && v[0] == 'N' && v[1] == 'a' && v[2] == 'N' {
        assert(s =~= seq!['N', 'a', 'N']);
        return Some(FloatAtom::NaN);
    }
    if n == 3 && v[0] == 'i' && v[1] == 'n' && v[2] == 'f' {
        assert(s =~= seq!['i', 'n', 'f']);
        return Some(FloatAtom::Infinity);
    }
    if n == 4 && v[0] == '+' && v[1] == 'i' && v[2] == 'n' && v[3] == 'f' {
        assert(s =~= seq!['+', 'i', 'n', 'f']);
        return Some(FloatAtom::Infinity);
    }
    if n == 4 && v[0] == '-' && v[1] == 'i' && v[2] == 'n' && v[3] == 'f' {
        assert(s =~= seq!['-', 'i', 'n', 'f']);
        return Some(FloatAtom::NegInfinity);
    }
    assert(s != seq!['N', 'a', 'N']) by {
        if n == 3 {
            assert(s[0] == seq!['N', 'a', 'N'][0] ==> s[1] != seq!['N', 'a', 'N'][1] || s[2] != seq!['N', 'a', 'N'][2]);
        }
    }
    assert(s != seq!['i', 'n', 'f']) by {
        if n == 3 {
            assert(s[0] != seq!['i', 'n', 'f'][0] || s[1] != seq!['i', 'n', 'f'][1] || s[2] != seq!['i', 'n', 'f'][2]);
        }
    }
    assert(s != seq!['+', 'i', 'n', 'f']) by {
        if n == 4 {
            assert(s[0] != seq!['+', 'i', 'n', 'f'][0] || s[1] != seq!['+', 'i', 'n', 'f'][1] || s[2] != seq!['+', 'i', 'n', 'f'][2] || s[3] != seq!['+', 'i', 'n', 'f'][3]);
        }
    }
    assert(s != seq!['-', 'i', 'n', 'f']) by {
        if n == 4 {
            assert(s[0] != seq!['-', 'i', 'n', 'f'][0] || s[1] != seq!['-', 'i', 'n', 'f'][1] || s[2] != seq!['-', 'i', 'n', 'f'][2] || s[3] != seq!['-', 'i', 'n', 'f'][3]);
        }
    }
    match scan_float_syntax(&v) {
        None => None,
        Some((negative, a, b, c, d, exp_negative, f, g)) => {
            let int_zero = zeros_between(&v, a, b);
            let frac_zero = zeros_between(&v, c, d);
            if int_zero && frac_zero {
                if b == a && d == c {
                    None
                } else {
                    Some(FloatAtom::Zero)
                }
            } else {
                let exp_abs = capped_digits_value(&v, f, g);
                if exp_abs > 99999999999999999 {
                    if exp_negative {
                        Some(FloatAtom::Zero)
                    } else {
                        None
                    }
                } else {
                    let integral = string_between(&v, a, b);
                    let fractional = string_between(&v, c, d);
                    let exp: i64 = if exp_negative {
                        -(exp_abs as i64)
                    } else {
                        exp_abs as i64
                    };
                    Some(FloatAtom::Decimal { negative, integral, fractional, exp })
                }
            }
        },
    }
}

/// A float as it is written: not a number, an infinity, zero, or a finite
/// nonzero value given by its shortest decimal digits `d1 d2 ... dn` and
/// its exponent `e`, the value being `0.d1d2...dn × 10^e`.
#[derive(Clone, Debug, PartialEq, Eq)]
pub enum DecodedFloat {
    Nan,
    Infinite { negative: bool },
    Zero,
    Finite { negative: bool, digits: Vec<u8>, exp: i16 },
}

impl DecodedFloat {
    /// Whether the digits of a finite value are at least one ASCII decimal
    /// digit.
    pub open spec fn wf(&self) -> bool {
        match self {
            DecodedFloat::Finite { digits, .. } => {
                &&& digits@.len() >= 1
                &&& forall|k: int| 0 <= k < digits@.len() ==> 48 <= #[trigger] digits@[k] <= 57
            },
            _ => true,
        }
    }
}

/// The characters of ASCII bytes.
pub open spec fn ascii_chars(b: Seq<u8>) -> Seq<char> {
    b.map_values(|x: u8| x as char)
}

/// `n` zeros.
pub open spec fn zeros(n: nat) -> Seq<char> {
    Seq::new(n, |_i: int| '0')
}

/// The digits after the first one, or `0` when there is only one.
pub open spec fn rest_or_zero(d: Seq<char>) -> Seq<char> {
    if d.len() > 1 {
        d.drop_first()
    } else {
        seq!['0']
    }
}

/// How the digits `d` with exponent `exp` (the value `0.d × 10^exp`) are
/// written: in positional notation with a dot, unless that would take more
/// than nine zeros next to the dot, in which case as one digit, a dot, the
/// other digits (at least one) and an exponent.
#[verifier::opaque]
pub open spec fn float_digits_text(d: Seq<char>, exp: int) -> Seq<char> {
    if exp <= 0 {
        if -exp > 9 {
            seq![d[0], '.'] + rest_or_zero(d) + seq!['e', '-'] + int_repr(-exp + 1)
        } else {
            seq!['0', '.'] + zeros((-exp) as nat) + d
        }
    } else if exp >= d.len() {
        if exp > 9 {
            seq![d[0], '.'] + rest_or_zero(d) + seq!['e'] + int_repr(exp - 1)
        } else {
            d + zeros((exp - d.len()) as nat) + seq!['.', '0']
        }
    } else {
        d.take(exp) + seq!['.'] + d.skip(exp)
    }
}

/// The atom of a float: `NaN`, `inf`, `-inf`, `0.0`, or the sign and the
/// digits as `float_digits_text` writes them.
pub open spec fn float_text(f: DecodedFloat) -> Seq<char> {
    match f {
        DecodedFloat::Nan => seq!['N', 'a', 'N'],
        DecodedFloat::Infinite { negative } => if negative {
            seq!['-', 'i', 'n', 'f']
        } else {
            seq!['i', 'n', 'f']
        },
        DecodedFloat::Zero => seq!['0', '.', '0'],
        DecodedFloat::Finite { negative, digits, exp } => (if negative {
            seq!['-']
        } else {
            Seq::<char>::empty()
        }) + float_digits_text(ascii_chars(digits@), exp as int),
    }
}

fn push_digits(output: &mut String, digits: &Vec<u8>, i: usize, j: usize)
    requires
        i <= j <= digits.len(),
    ensures
        final(output)@ == old(output)@ + ascii_chars(digits@).subrange(i as int, j as int),
{
    let mut k = i;
    while k < j
        invariant
            i <= k <= j <= digits.len(),
            output@ == old(output)@ + ascii_chars(digits@).subrange(i as int, k as int),
        decreases j - k,
    {
        push_char(output, digits[k] as char);
        k = k + 1;
        assert(output@ =~= old(output)@ + ascii_chars(digits@).subrange(i as int, k as int));
    }
}

fn push_zeros(output: &mut String, n: usize)
    ensures
        final(output)@ == old(output)@ + zeros(n as nat),
{
    let mut k: usize = 0;
    while k < n
        invariant
            k <= n,
            output@ == old(output)@ + zeros(k as nat),
        decreases n - k,
    {
        push_char(output, '0');
        k = k + 1;
        assert(output@ =~= old(output)@ + zeros(k as nat));
    }
}

fn push_rest_or_zero(output: &mut String, digits: &Vec<u8>)
    requires
        digits.len() >= 1,
    ensures
        final(output)@ == old(output)@ + rest_or_zero(ascii_chars(digits@)),
{
    if digits.len() > 1 {
        push_digits(output, digits, 1, digits.len());
        assert(ascii_chars(digits@).subrange(1, digits.len() as int) =~= ascii_chars(digits@).drop_first());
    } else {
        push_char(output, '0');
        assert(output@ =~= old(output)@ + rest_or_zero(ascii_chars(digits@)));
    }
}

fn push_float_digits(output: &mut String, digits: &Vec<u8>, exp: i16)
    requires
        digits.len() >= 1,
    ensures
        final(output)@ == old(output)@ + float_digits_text(ascii_chars(digits@), exp as int),
{
    proof {
        reveal(float_digits_text);
    }
    let ghost d = ascii_chars(digits@);
    let n = digits.len();
    if exp <= 0 {
        let z: u32 = (0 - (exp as i32)) as u32;
        if z > 9 {
            push_char(output, digits[0] as char);
            push_char(output, '.');
            push_rest_or_zero(output, digits);
            push_str(output, "e-");
            encode_u32_into(z + 1, output);
            proof {
                reveal_strlit("e-");
                assert("e-"@ =~= seq!['e', '-']);
            }
            assert(output@ =~= old(output)@ + float_digits_text(d, exp as int));
        } else {
            push_str(output, "0.");
            push_zeros(output, z as usize);
            push_digits(output, digits, 0, n);
            proof {
                reveal_strlit("0.");
                assert("0."@ =~= seq!['0', '.']);
                assert(d.subrange(0, n as int) =~= d);
            }
            assert(output@ =~= old(output)@ + float_digits_text(d, exp as int));
        }
    } else {
        let e = exp as usize;
        if e >= n {
            if e > 9 {
                push_char(output, digits[0] as char);
                push_char(output, '.');
                push_rest_or_zero(output, digits);
                push_char(output, 'e');
                encode_u32_into((e - 1) as u32, output);
                assert(output@ =~= old(output)@ + float_digits_text(d, exp as int));
            } else {
                push_digits(output, digits, 0, n);
                push_zeros(output, e - n);
                push_str(output, ".0");
                proof {
                    reveal_strlit(".0");
                    assert(".0"@ =~= seq!['.', '0']);
                    assert(d.subrange(0, n as int) =~= d);
                }
                assert(output@ =~= old(output)@ + float_digits_text(d, exp as int));
            }
        } else {
            push_digits(output, digits, 0, e);
            push_char(output, '.');
            push_digits(output, digits, e, n);
            proof {
                assert(d.subrange(0, e as int) =~= d.take(e as int));
                assert(d.subrange(e as int, n as int) =~= d.skip(e as int));
            }
            assert(output@ =~= old(output)@ + float_digits_text(d, exp as int));
        }
    }
}

/// Appends the atom of the float `value` (see `float_text`) to `output`.
pub fn encode_float_into(value: &DecodedFloat, output: &mut String)
    requires
        value.wf(),
    ensures
        final(output)@ == old(output)@ + float_text(*value),
{
    match value {
        DecodedFloat::Nan => {
            push_str(output, "NaN");
            proof {
                reveal_strlit("NaN");
                assert("NaN"@ =~= seq!['N', 'a', 'N']);
            }
        },
        DecodedFloat::Infinite { negative } => {
            if *negative {
                push_str(output, "-inf");
                proof {
                    reveal_strlit("-inf");
                    assert("-inf"@ =~= seq!['-', 'i', 'n', 'f']);
                }
            } else {
                push_str(output, "inf");
                proof {
                    reveal_strlit("inf");
                    assert("inf"@ =~= seq!['i', 'n', 'f']);
                }
            }
        },
        DecodedFloat::Zero => {
            push_str(output, "0.0");
            proof {
                reveal_strlit("0.0");
                assert("0.0"@ =~= seq!['0', '.', '0']);
            }
        },
        DecodedFloat::Finite { negative, digits, exp } => {
            if *negative {
                push_char(output, '-');
            }
            push_float_digits(output, digits, *exp);
            assert(output@ =~= old(output)@ + float_text(*value));
        },
    }
}

/// Returns the atom of the float `value` (see `float_text`).
pub fn encode_float(value: &DecodedFloat) -> (r: String)
    requires
        value.wf(),
    ensures
        r@ == float_text(*value),
{
    let mut output = String::new();
    encode_float_into(value, &mut output);
    assert(output@ =~= float_text(*value));
    output
}

// ---------------------------------------------------------------------------
// Reading back the atom of a float
// ---------------------------------------------------------------------------

/// Ten to the power `k`.
pub open spec fn pow10(k: nat) -> nat
    decreases k,
{
    if k == 0 {
        1
    } else {
        10 * pow10((k - 1) as nat)
    }
}

/// Whether the digits `s1` times `10^x1` and the digits `s2` times `10^x2`
/// are the same number.
pub open spec fn same_number(s1: Seq<char>, x1: int, s2: Seq<char>, x2: int) -> bool {
    if x1 <= x2 {
        digits_value(s1) == digits_value(s2) * pow10((x2 - x1) as nat)
    } else {
        digits_value(s1) * pow10((x1 - x2) as nat) == digits_value(s2)
    }
}

proof fn lemma_digits_end_at(s: Seq<char>, i: int, j: int)
    requires
        0 <= i <= j <= s.len(),
        forall|k: int| i <= k < j ==> is_digit(#[trigger] s[k]),
        j == s.len() || !is_digit(s[j]),
    ensures
        digits_end(s, i) == j,
    decreases j - i,
{
    if i < j {
        lemma_digits_end_at(s, i + 1, j);
    }
}

proof fn lemma_zeros_value(k: nat)
    ensures
        digits_value(zeros(k)) == 0,
    decreases k,
{
    if k > 0 {
        assert(zeros(k).drop_last() =~= zeros((k - 1) as nat));
        lemma_zeros_value((k - 1) as nat);
    }
}

/// Leading zeros do not change the value of digits.
proof fn lemma_leading_zeros(k: nat, s: Seq<char>)
    ensures
        digits_value(zeros(k) + s) == digits_value(s),
    decreases s.len(),
{
    if s.len() == 0 {
        assert(zeros(k) + s =~= zeros(k));
        lemma_zeros_value(k);
    } else {
        assert((zeros(k) + s).drop_last() =~= zeros(k) + s.drop_last());
        lemma_leading_zeros(k, s.drop_last());
    }
}

/// Trailing zeros multiply the value of digits by a power of ten.
proof fn lemma_trailing_zeros(s: Seq<char>, k: nat)
    ensures
        digits_value(s + zeros(k)) == digits_value(s) * pow10(k),
    decreases k,
{
    if k == 0 {
        assert(s + zeros(k) =~= s);
        assert(pow10(0) == 1);
    } else {
        assert((s + zeros(k)).drop_last() =~= s + zeros((k - 1) as nat));
        lemma_trailing_zeros(s, (k - 1) as nat);
        let p = pow10((k - 1) as nat);
        let v = digits_value(s);
        assert((s + zeros(k)).last() == '0');
        assert(digits_value(s + zeros(k)) == digits_value(s + zeros((k - 1) as nat)) * 10);
        assert(v * p * 10 == v * (10 * p)) by (nonlinear_arith);
        assert(pow10(k) == 10 * p);
        assert(digits_value(s + zeros((k - 1) as nat)) == v * p);
    }
}

/// `-` for a negative value, nothing otherwise.
pub open spec fn sign_text(negative: bool) -> Seq<char> {
    if negative {
        seq!['-']
    } else {
        Seq::empty()
    }
}

/// An exponent part: `e`, `-` when negative, and the digits; or nothing.
spec fn exp_text(has_exp: bool, exp_negative: bool, exp_digits: Seq<char>) -> Seq<char> {
    if has_exp {
        seq!['e'] + sign_text(exp_negative) + exp_digits
    } else {
        Seq::empty()
    }
}

/// The syntax of a float atom with a sign, digits, a dot, digits and an
/// exponent part.
proof fn lemma_float_syntax_of(
    negative: bool,
    int_digits: Seq<char>,
    frac_digits: Seq<char>,
    has_exp: bool,
    exp_negative: bool,
    exp_digits: Seq<char>,
)
    requires
        all_digits(int_digits),
        all_digits(frac_digits),
        all_digits(exp_digits),
        has_exp ==> exp_digits.len() > 0,
        !has_exp ==> !exp_negative && exp_digits.len() == 0,
    ensures
        ({
            let text = sign_text(negative) + int_digits + seq!['.'] + frac_digits + exp_text(
                has_exp,
                exp_negative,
                exp_digits,
            );
            &&& float_syntax(text) == Some(
                (negative, int_digits, frac_digits, exp_negative, exp_digits),
            )
            &&& text[sign_text(negative).len() + int_digits.len() as int] == '.'
            &&& sign_text(negative).len() + int_digits.len() < text.len()
        }),
{
    reveal(float_syntax);
    let sg = sign_text(negative);
    let x = exp_text(has_exp, exp_negative, exp_digits);
    let text = sg + int_digits + seq!['.'] + frac_digits + x;
    let a = sg.len() as int;
    let b = a + int_digits.len();
    let c = b + 1;
    let d = c + frac_digits.len();
    assert(text[b] == '.');
    assert forall|k: int| 0 <= k < int_digits.len() implies text[a + k] == int_digits[k] by {}
    assert forall|k: int| 0 <= k < frac_digits.len() implies text[c + k] == frac_digits[k] by {}
    if negative {
        assert(text[0] == '-');
    } else if int_digits.len() > 0 {
        assert(text[0] == int_digits[0]);
        assert(is_digit(int_digits[0]));
    } else {
        assert(text[0] == '.');
    }
    assert(sign_end(text, 0) == a);
    assert forall|k: int| a <= k < b implies is_digit(#[trigger] text[k]) by {
        assert(text[k] == int_digits[k - a]);
    }
    lemma_digits_end_at(text, a, b);
    assert forall|k: int| c <= k < d implies is_digit(#[trigger] text[k]) by {
        assert(text[k] == frac_digits[k - c]);
    }
    assert(text.subrange(a, b) =~= int_digits);
    assert(text.subrange(c, d) =~= frac_digits);
    if has_exp {
        assert(text[d] == 'e');
        lemma_digits_end_at(text, c, d);
        let f = d + 1 + sign_text(exp_negative).len();
        if exp_negative {
            assert(text[d + 1] == '-');
        } else {
            assert(text[d + 1] == exp_digits[0]);
            assert(is_digit(exp_digits[0]));
        }
        assert(sign_end(text, d + 1) == f);
        assert forall|k: int| f <= k < text.len() implies is_digit(#[trigger] text[k]) by {
            assert(text[k] == exp_digits[k - f]);
        }
        lemma_digits_end_at(text, f, text.len() as int);
        assert(text.subrange(f, text.len() as int) =~= exp_digits);
    } else {
        assert(text.len() == d);
        lemma_digits_end_at(text, c, d);
        assert(text.subrange(text.len() as int, text.len() as int) =~= exp_digits);
    }
}

proof fn lemma_not_special(text: Seq<char>, p: int)
    requires
        0 <= p < text.len(),
        text[p] == '.',
    ensures
        text != seq!['N', 'a', 'N'],
        text != seq!['i', 'n', 'f'],
        text != seq!['+', 'i', 'n', 'f'],
        text != seq!['-', 'i', 'n', 'f'],
{
    if text.len() == 3 {
        if p == 0 {
            assert(seq!['N', 'a', 'N'][0] != '.' && seq!['i', 'n', 'f'][0] != '.');
        } else if p == 1 {
            assert(seq!['N', 'a', 'N'][1] != '.' && seq!['i', 'n', 'f'][1] != '.');
        } else {
            assert(seq!['N', 'a', 'N'][2] != '.' && seq!['i', 'n', 'f'][2] != '.');
        }
    }
    if text.len() == 4 {
        if p == 0 {
            assert(seq!['+', 'i', 'n', 'f'][0] != '.' && seq!['-', 'i', 'n', 'f'][0] != '.');
        } else if p == 1 {
            assert(seq!['+', 'i', 'n', 'f'][1] != '.' && seq!['-', 'i', 'n', 'f'][1] != '.');
        } else if p == 2 {
            assert(seq!['+', 'i', 'n', 'f'][2] != '.' && seq!['-', 'i', 'n', 'f'][2] != '.');
        } else {
            assert(seq!['+', 'i', 'n', 'f'][3] != '.' && seq!['-', 'i', 'n', 'f'][3] != '.');
        }
    }
}

/// Reading back the atom of a finite float in the shape of
/// `lemma_float_syntax_of`: the digits are not all zeros, and the exponent
/// is small.
proof fn lemma_read_decimal(
    negative: bool,
    int_digits: Seq<char>,
    frac_digits: Seq<char>,
    has_exp: bool,
    exp_negative: bool,
    exp_digits: Seq<char>,
)
    requires
        all_digits(int_digits),
        all_digits(frac_digits),
        all_digits(exp_digits),
        has_exp ==> exp_digits.len() > 0,
        !has_exp ==> !exp_negative && exp_digits.len() == 0,
        !(all_zeros(int_digits) && all_zeros(frac_digits)),
        digits_value(exp_digits) <= max_exp_abs(),
    ensures
        float_atom(
            sign_text(negative) + int_digits + seq!['.'] + frac_digits + exp_text(
                has_exp,
                exp_negative,
                exp_digits,
            ),
        ) == Some(
            FloatAtomValue::Decimal {
                negative,
                integral: int_digits,
                fractional: frac_digits,
                exp: if exp_negative {
                    -digits_value(exp_digits)
                } else {
                    digits_value(exp_digits) as int
                },
            },
        ),
{
    reveal(float_atom);
    let text = sign_text(negative) + int_digits + seq!['.'] + frac_digits + exp_text(
        has_exp,
        exp_negative,
        exp_digits,
    );
    lemma_float_syntax_of(negative, int_digits, frac_digits, has_exp, exp_negative, exp_digits);
    lemma_not_special(text, sign_text(negative).len() + int_digits.len() as int);
}

/// The digits of ASCII decimal bytes are decimal digits.
proof fn lemma_ascii_digits(b: Seq<u8>)
    requires
        forall|k: int| 0 <= k < b.len() ==> 48 <= #[trigger] b[k] <= 57,
    ensures
        all_digits(ascii_chars(b)),
        ascii_chars(b).len() == b.len(),
{
    assert forall|k: int| 0 <= k < ascii_chars(b).len() implies is_digit(#[trigger] ascii_chars(b)[k]) by {
        assert(ascii_chars(b)[k] == b[k] as char);
        assert(48 <= b[k] <= 57);
    }
}

proof fn lemma_zeros_digits(k: nat)
    ensures
        all_digits(zeros(k)),
        all_zeros(zeros(k)),
{
}

/// Reading back the atom of a finite nonzero float whose exponent is small
/// and not positive: `0.` and zeros before the digits.
proof fn lemma_roundtrip_below_one(negative: bool, d: Seq<char>, e: int)
    requires
        d.len() >= 1,
        all_digits(d),
        d[0] != '0',
        -32768 <= e <= 32767,
        e <= 0,
        -e <= 9,
    ensures
        float_atom(sign_text(negative) + float_digits_text(d, e)) matches Some(
            FloatAtomValue::Decimal { negative: neg2, integral, fractional, exp },
        ) && neg2 == negative && same_number(
            integral + fractional,
            exp - fractional.len(),
            d,
            e - d.len(),
        ),
{
    let n = d.len() as int;
    let sg = sign_text(negative);
    let empty = Seq::<char>::empty();
    let z = (-e) as nat;
        let frac = zeros(z) + d;
        lemma_zeros_digits(z);
        assert(all_digits(frac)) by {
            assert forall|k: int| 0 <= k < frac.len() implies is_digit(#[trigger] frac[k]) by {
                if k >= z {
                    assert(frac[k] == d[k - z]);
                }
            }
        }
        assert(!all_zeros(frac)) by {
            assert(frac[z as int] == d[0]);
        }
        assert(all_digits(seq!['0'])) by {
            assert(seq!['0'][0] == '0');
        }
        lemma_read_decimal(negative, seq!['0'], frac, false, false, empty);
        assert(float_digits_text(d, e) == seq!['0', '.'] + zeros(z) + d) by {
            reveal(float_digits_text);
        }
        assert(sg + float_digits_text(d, e) =~= sg + seq!['0'] + seq!['.'] + frac + exp_text(
            false,
            false,
            empty,
        ));
        assert(seq!['0'] + frac =~= zeros(z + 1) + d);
        lemma_leading_zeros(z + 1, d);
        let x1 = 0 - frac.len();
        let x2 = e - d.len();
        assert(x1 == x2);
        assert((x2 - x1) as nat == 0);
        assert(pow10(0) == 1);
        assert(digits_value(seq!['0'] + frac) == digits_value(d) * pow10((x2 - x1) as nat));
}

/// The digits after the first one, or `0`, are decimal digits.
proof fn lemma_rest_or_zero_digits(d: Seq<char>)
    requires
        d.len() >= 1,
        all_digits(d),
    ensures
        all_digits(rest_or_zero(d)),
        d.len() > 1 ==> seq![d[0]] + rest_or_zero(d) == d,
        d.len() == 1 ==> seq![d[0]] + rest_or_zero(d) == d + zeros(1),
{
    let r = rest_or_zero(d);
    if d.len() > 1 {
        assert forall|k: int| 0 <= k < r.len() implies is_digit(#[trigger] r[k]) by {
            assert(r[k] == d[k + 1]);
        }
        assert(seq![d[0]] + r =~= d);
    } else {
        assert(r[0] == '0');
        assert(seq![d[0]] + r =~= d + zeros(1));
    }
}

/// One digit and the others written with an exponent `x` (`x = e - 1`) are
/// the number of the digits `d` with exponent `e`.
proof fn lemma_scientific_same_number(d: Seq<char>, x: int)
    requires
        d.len() >= 1,
        all_digits(d),
    ensures
        same_number(seq![d[0]] + rest_or_zero(d), x - rest_or_zero(d).len(), d, x + 1 - d.len()),
{
    lemma_rest_or_zero_digits(d);
    let s1 = seq![d[0]] + rest_or_zero(d);
    let x1 = x - rest_or_zero(d).len();
    let x2 = x + 1 - d.len();
    assert(pow10(0) == 1);
    if d.len() == 1 {
        lemma_trailing_zeros(d, 1);
        assert(s1 == d + zeros(1));
        assert(x1 == x2 - 1);
        assert((x2 - x1) as nat == 1);
        assert(digits_value(s1) == digits_value(d) * pow10((x2 - x1) as nat));
    } else {
        assert(s1 == d);
        assert(x1 == x2);
        assert((x2 - x1) as nat == 0);
        assert(digits_value(s1) == digits_value(d) * pow10((x2 - x1) as nat));
    }
}

/// Reading back the atom of a finite nonzero float whose exponent is very
/// negative: one digit, the others, and a negative exponent.
proof fn lemma_roundtrip_tiny(negative: bool, d: Seq<char>, e: int)
    requires
        d.len() >= 1,
        all_digits(d),
        d[0] != '0',
        -32768 <= e <= 32767,
        e <= 0,
        -e > 9,
    ensures
        float_atom(sign_text(negative) + float_digits_text(d, e)) matches Some(
            FloatAtomValue::Decimal { negative: neg2, integral, fractional, exp },
        ) && neg2 == negative && same_number(
            integral + fractional,
            exp - fractional.len(),
            d,
            e - d.len(),
        ),
{
    let sg = sign_text(negative);
    let z = (-e) as nat;
    let ip = seq![d[0]];
    let r = rest_or_zero(d);
    let ed = decimal(z + 1);
    lemma_decimal(z + 1);
    lemma_rest_or_zero_digits(d);
    assert(all_digits(ip) && !all_zeros(ip)) by {
        assert(ip[0] == d[0]);
    }
    assert(float_digits_text(d, e) == seq![d[0], '.'] + r + seq!['e', '-'] + ed) by {
        reveal(float_digits_text);
    }
    let text = sg + ip + seq!['.'] + r + exp_text(true, true, ed);
    assert(sg + float_digits_text(d, e) =~= text);
    lemma_read_decimal(negative, ip, r, true, true, ed);
    lemma_scientific_same_number(d, e - 1);
}

/// Reading back the atom of a finite nonzero float whose exponent is large:
/// one digit, the others, and a positive exponent.
proof fn lemma_roundtrip_huge(negative: bool, d: Seq<char>, e: int)
    requires
        d.len() >= 1,
        all_digits(d),
        d[0] != '0',
        -32768 <= e <= 32767,
        e > 9,
        e >= d.len(),
    ensures
        float_atom(sign_text(negative) + float_digits_text(d, e)) matches Some(
            FloatAtomValue::Decimal { negative: neg2, integral, fractional, exp },
        ) && neg2 == negative && same_number(
            integral + fractional,
            exp - fractional.len(),
            d,
            e - d.len(),
        ),
{
    let sg = sign_text(negative);
    let ip = seq![d[0]];
    let r = rest_or_zero(d);
    let ed = decimal((e - 1) as nat);
    lemma_decimal((e - 1) as nat);
    lemma_rest_or_zero_digits(d);
    assert(all_digits(ip) && !all_zeros(ip)) by {
        assert(ip[0] == d[0]);
    }
    assert(float_digits_text(d, e) == seq![d[0], '.'] + r + seq!['e'] + ed) by {
        reveal(float_digits_text);
    }
    let text = sg + ip + seq!['.'] + r + exp_text(true, false, ed);
    assert(sg + float_digits_text(d, e) =~= text);
    lemma_read_decimal(negative, ip, r, true, false, ed);
    lemma_scientific_same_number(d, e - 1);
}

/// Reading back the atom of a finite nonzero float that is an integer
/// written out: the digits, zeros, and `.0`.
proof fn lemma_roundtrip_integer(negative: bool, d: Seq<char>, e: int)
    requires
        d.len() >= 1,
        all_digits(d),
        d[0] != '0',
        -32768 <= e <= 32767,
        0 < e <= 9,
        e >= d.len(),
    ensures
        float_atom(sign_text(negative) + float_digits_text(d, e)) matches Some(
            FloatAtomValue::Decimal { negative: neg2, integral, fractional, exp },
        ) && neg2 == negative && same_number(
            integral + fractional,
            exp - fractional.len(),
            d,
            e - d.len(),
        ),
{
    let n = d.len() as int;
    let sg = sign_text(negative);
    let empty = Seq::<char>::empty();
    let k = (e - n) as nat;
    let ip = d + zeros(k);
    assert(all_digits(ip) && !all_zeros(ip)) by {
        assert forall|j: int| 0 <= j < ip.len() implies is_digit(#[trigger] ip[j]) by {
            if j < n {
                assert(ip[j] == d[j]);
            }
        }
        assert(ip[0] == d[0]);
    }
    assert(all_digits(seq!['0'])) by {
        assert(seq!['0'][0] == '0');
    }
    assert(float_digits_text(d, e) == d + zeros(k) + seq!['.', '0']) by {
        reveal(float_digits_text);
    }
    let text = sg + ip + seq!['.'] + seq!['0'] + exp_text(false, false, empty);
    assert(sg + float_digits_text(d, e) =~= text);
    lemma_read_decimal(negative, ip, seq!['0'], false, false, empty);
    assert(same_number(ip + seq!['0'], -1, d, e - n)) by {
        assert(ip + seq!['0'] =~= d + zeros(k + 1));
        lemma_trailing_zeros(d, k + 1);
        assert(pow10(0) == 1);
    }
}

/// Reading back the atom of a finite nonzero float with digits on both
/// sides of the dot.
proof fn lemma_roundtrip_dot_inside(negative: bool, d: Seq<char>, e: int)
    requires
        d.len() >= 1,
        all_digits(d),
        d[0] != '0',
        -32768 <= e <= 32767,
        0 < e < d.len(),
    ensures
        float_atom(sign_text(negative) + float_digits_text(d, e)) matches Some(
            FloatAtomValue::Decimal { negative: neg2, integral, fractional, exp },
        ) && neg2 == negative && same_number(
            integral + fractional,
            exp - fractional.len(),
            d,
            e - d.len(),
        ),
{
    let sg = sign_text(negative);
    let empty = Seq::<char>::empty();
    let ip = d.take(e);
    let frac = d.skip(e);
    assert(all_digits(ip) && !all_zeros(ip)) by {
        assert forall|j: int| 0 <= j < ip.len() implies is_digit(#[trigger] ip[j]) by {
            assert(ip[j] == d[j]);
        }
        assert(ip[0] == d[0]);
    }
    assert(all_digits(frac)) by {
        assert forall|j: int| 0 <= j < frac.len() implies is_digit(#[trigger] frac[j]) by {
            assert(frac[j] == d[j + e]);
        }
    }
    assert(float_digits_text(d, e) == d.take(e) + seq!['.'] + d.skip(e)) by {
        reveal(float_digits_text);
    }
    let text = sg + ip + seq!['.'] + frac + exp_text(false, false, empty);
    assert(sg + float_digits_text(d, e) =~= text);
    lemma_read_decimal(negative, ip, frac, false, false, empty);
    assert(same_number(ip + frac, 0 - frac.len(), d, e - d.len())) by {
        assert(ip + frac =~= d);
        let x1 = 0 - frac.len();
        let x2 = e - d.len();
        assert(x1 == x2);
        assert((x2 - x1) as nat == 0);
        assert(pow10(0) == 1);
        assert(digits_value(ip + frac) == digits_value(d) * pow10((x2 - x1) as nat));
    }
}

/// Reading back the atom of a finite nonzero float gives its sign and a
/// decimal of the same value.
proof fn lemma_finite_roundtrip(negative: bool, d: Seq<char>, e: int)
    requires
        d.len() >= 1,
        all_digits(d),
        d[0] != '0',
        -32768 <= e <= 32767,
    ensures
        float_atom(sign_text(negative) + float_digits_text(d, e)) matches Some(
            FloatAtomValue::Decimal { negative: neg2, integral, fractional, exp },
        ) && neg2 == negative && same_number(
            integral + fractional,
            exp - fractional.len(),
            d,
            e - d.len(),
        ),
{
    if e <= 0 {
        if -e > 9 {
            lemma_roundtrip_tiny(negative, d, e);
        } else {
            lemma_roundtrip_below_one(negative, d, e);
        }
    } else if e >= d.len() {
        if e > 9 {
            lemma_roundtrip_huge(negative, d, e);
        } else {
            lemma_roundtrip_integer(negative, d, e);
        }
    } else {
        lemma_roundtrip_dot_inside(negative, d, e);
    }
}

/// Reading back the atom of a float gives what was written: `NaN`, the
/// infinity of the same sign, zero, or, for a finite nonzero float whose
/// shortest digits begin with a nonzero digit, a decimal with its sign and
/// its value.
pub proof fn lemma_float_roundtrip(f: DecodedFloat)
    requires
        f.wf(),
        f matches DecodedFloat::Finite { digits, .. } ==> digits@[0] != 48,
    ensures
        match f {
            DecodedFloat::Nan => float_atom(float_text(f)) == Some(FloatAtomValue::NaN),
            DecodedFloat::Infinite { negative } => float_atom(float_text(f)) == Some(
                if negative {
                    FloatAtomValue::NegInfinity
                } else {
                    FloatAtomValue::Infinity
                },
            ),
            DecodedFloat::Zero => float_atom(float_text(f)) == Some(FloatAtomValue::Zero),
            DecodedFloat::Finite { negative, digits, exp } => float_atom(float_text(f)) matches Some(
                FloatAtomValue::Decimal { negative: n2, integral, fractional, exp: e2 },
            ) && n2 == negative && same_number(
                integral + fractional,
                e2 - fractional.len(),
                ascii_chars(digits@),
                exp - digits@.len(),
            ),
        },
{
    match f {
        DecodedFloat::Nan => {
            reveal(float_atom);
        },
        DecodedFloat::Infinite { negative } => {
            reveal(float_atom);
        },
        DecodedFloat::Zero => {
            let empty = Seq::<char>::empty();
            let zero = seq!['0'];
            assert(all_digits(zero) && all_zeros(zero)) by {
                assert(zero[0] == '0');
            }
            lemma_float_syntax_of(false, zero, zero, false, false, empty);
            let text = sign_text(false) + zero + seq!['.'] + zero + exp_text(false, false, empty);
            assert(text =~= seq!['0', '.', '0']);
            lemma_not_special(text, 1);
            reveal(float_atom);
        },
        DecodedFloat::Finite { negative, digits, exp } => {
            let d = ascii_chars(digits@);
            lemma_ascii_digits(digits@);
            assert(d[0] == digits@[0] as char);
            assert(float_text(f) == sign_text(negative) + float_digits_text(d, exp as int));
            lemma_finite_roundtrip(negative, d, exp as int);
        },
    }
}

} // verus!
