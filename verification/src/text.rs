//! Small helpers to move between `str`/`String` and sequences of characters.
use vstd::prelude::*;
use vstd::string::StringExecFns;

verus! {

/// Appends `c` to `s`.
///
/// Trusted wrapper around `String::push`, whose documentation states that it
/// appends the given character to the end of the string.
#[verifier::external_body]
pub(crate) fn push_char(s: &mut String, c: char)
    ensures
        final(s)@ == old(s)@.push(c),
{
    s.push(c);
}

/// Appends `t` to `s`.
pub fn push_str(s: &mut String, t: &str)
    ensures
        final(s)@ == old(s)@ + t@,
{
    s.append(t);
}

/// Collects the characters of `s` into a vector.
pub fn chars_of(s: &str) -> (v: Vec<char>)
    ensures
        v@ == s@,
{
    let mut v: Vec<char> = Vec::new();
    for c in it: s.chars()
        invariant
            v@ == it.seq().take(it.index() as int),
    {
        v.push(c);
    }
    v
}

/// The character with code point `v`, if `v` is a Unicode scalar value.
///
/// Trusted wrapper around `char::from_u32`, whose documentation states that
/// it returns `None` exactly when the value is not a valid `char` (above
/// `0x10FFFF` or a surrogate).
#[verifier::external_body]
pub(crate) fn char_from_u32(v: u32) -> (r: Option<char>)
    ensures
        r == if vstd::utf8::is_scalar(v) { Some(v as char) } else { None::<char> },
{
    char::from_u32(v)
}

/// The text that `{:?}` formats for the character `c`: the character
/// between single quotes, escaped as `char::escape_debug` does.
pub uninterp spec fn char_debug_text(c: char) -> Seq<char>;

/// The text that `{:?}` formats for the string `s`: the string between
/// double quotes, escaped as `str::escape_debug` does.
pub uninterp spec fn str_debug_text(s: Seq<char>) -> Seq<char>;

/// The `Debug` text of `c`, as `format!("{:?}", c)` gives it.
///
/// Trusted wrapper around the `Debug` implementation of `char`; its result
/// is given a name, `char_debug_text`, and nothing more is claimed of it.
#[verifier::external_body]
pub(crate) fn debug_char(c: char) -> (r: String)
    ensures
        r@ == char_debug_text(c),
{
    format!("{:?}", c)
}

/// The `Debug` text of `s`, as `format!("{:?}", s)` gives it.
///
/// Trusted wrapper around the `Debug` implementation of `str`; its result
/// is given a name, `str_debug_text`, and nothing more is claimed of it.
#[verifier::external_body]
pub(crate) fn debug_str(s: &str) -> (r: String)
    ensures
        r@ == str_debug_text(s@),
{
    format!("{:?}", s)
}

/// Appends the UTF-8 encoding of `c` to `bytes`.
pub fn push_utf8(bytes: &mut Vec<u8>, c: char)
    ensures
        final(bytes)@ == old(bytes)@ + vstd::utf8::encode_scalar(c as u32),
{
    let mut s = String::new();
    push_char(&mut s, c);
    let b = s.as_str().as_bytes();
    proof {
        assert(s@ =~= seq![c]);
        assert(seq![c].drop_first() =~= Seq::<char>::empty());
        assert(seq![c][0] == c);
        assert(vstd::utf8::encode_utf8(Seq::<char>::empty()) =~= Seq::<u8>::empty());
        assert(vstd::utf8::encode_utf8(seq![c]) =~= vstd::utf8::encode_scalar(c as u32));
    }
    let mut i: usize = 0;
    while i < b.len()
        invariant
            i <= b@.len(),
            b@ == vstd::utf8::encode_scalar(c as u32),
            bytes@ == old(bytes)@ + b@.take(i as int),
        decreases b.len() - i,
    {
        bytes.push(b[i]);
        i = i + 1;
        assert(bytes@ =~= old(bytes)@ + b@.take(i as int));
    }
    assert(b@.take(i as int) =~= b@);
}

} // verus!
