//! Character classes and the atom grammar.
use vstd::prelude::*;

use crate::text::chars_of;

verus! {

/// Whether `chr` may appear in an atom outside a string (`:atomchar:`).
pub open spec fn spec_is_atom_chr(chr: char) -> bool {
    ||| chr == '!' || chr == '#' || chr == '$' || chr == '%' || chr == '&' || chr == '*'
    ||| chr == '+' || chr == '-' || chr == '.' || chr == '/' || chr == ':' || chr == '<'
    ||| chr == '=' || chr == '>' || chr == '?' || chr == '@' || chr == '_' || chr == '~'
    ||| ('0' <= chr && chr <= '9')
    ||| ('A' <= chr && chr <= 'Z')
    ||| ('a' <= chr && chr <= 'z')
}

/// Whether `chr` may appear inside a string of an atom, other than `"` and
/// `\` (`:stringchar:`): any character from ASCII space to `~`.
pub open spec fn spec_is_atom_string_chr(chr: char) -> bool {
    ' ' <= chr && chr <= '~' && chr != '"' && chr != '\\'
}

/// Returns whether `chr` is a valid atom character outside a string.
#[verifier::when_used_as_spec(spec_is_atom_chr)]
pub fn is_atom_chr(chr: char) -> (r: bool)
    ensures
        r == spec_is_atom_chr(chr),
{
    match chr {
        '!' | '#' | '$' | '%' | '&' | '*' | '+' | '-' | '.' | '/' | '0'..='9' | ':' | '<' | '='
        | '>' | '?' | '@' | 'A'..='Z' | '_' | 'a'..='z' | '~' => true,
        _ => false,
    }
}

/// Returns whether `chr` is a valid atom character inside a string,
/// excluding `"` and `\`.
#[verifier::when_used_as_spec(spec_is_atom_string_chr)]
pub fn is_atom_string_chr(chr: char) -> (r: bool)
    ensures
        r == spec_is_atom_string_chr(chr),
{
    ' ' <= chr && chr <= '~' && chr != '"' && chr != '\\'
}

/// Where the atom recogniser stands after reading some characters.
pub enum AtomState {
    /// Nothing read yet.
    Beginning,
    /// After an atom character or a closed string.
    Normal,
    /// Inside a string.
    InString,
    /// Inside a string, right after a backslash.
    StringBackslash,
}

/// Whether the characters `s[i..]`, read from state `st`, complete a valid atom.
///
/// An atom is a non-empty sequence of atom characters and strings; a string
/// is a `"`, then string characters or escapes (`\` followed by a string
/// character, `"` or `\`), then a closing `"`.
pub open spec fn atom_accepts_from(s: Seq<char>, i: int, st: AtomState) -> bool
    decreases s.len() - i,
{
    if i >= s.len() {
        st is Normal
    } else {
        let c = s[i];
        match st {
            AtomState::Beginning | AtomState::Normal => {
                if c == '"' {
                    atom_accepts_from(s, i + 1, AtomState::InString)
                } else if spec_is_atom_chr(c) {
                    atom_accepts_from(s, i + 1, AtomState::Normal)
                } else {
                    false
                }
            },
            AtomState::InString => {
                if c == '"' {
                    atom_accepts_from(s, i + 1, AtomState::Normal)
                } else if c == '\\' {
                    atom_accepts_from(s, i + 1, AtomState::StringBackslash)
                } else if spec_is_atom_string_chr(c) {
                    atom_accepts_from(s, i + 1, AtomState::InString)
                } else {
                    false
                }
            },
            AtomState::StringBackslash => {
                if spec_is_atom_string_chr(c) || c == '"' || c == '\\' {
                    atom_accepts_from(s, i + 1, AtomState::InString)
                } else {
                    false
                }
            },
        }
    }
}

/// Whether `s` is a valid atom.
pub open spec fn is_valid_atom(s: Seq<char>) -> bool {
    atom_accepts_from(s, 0, AtomState::Beginning)
}

/// Checks whether `atom` is a valid atom (see `is_valid_atom`).
pub fn check_atom(atom: &str) -> (r: bool)
    ensures
        r == is_valid_atom(atom@),
{
    let chars = chars_of(atom);
    let mut state = AtomState::Beginning;
    let mut i: usize = 0;
    while i < chars.len()
        invariant
            chars@ == atom@,
            i <= chars.len(),
            atom_accepts_from(chars@, 0, AtomState::Beginning) == atom_accepts_from(chars@, i as int, state),
        decreases chars.len() - i,
    {
        let c = chars[i];
        let next = match state {
            AtomState::Beginning | AtomState::Normal => {
                if c == '"' {
                    AtomState::InString
                } else if is_atom_chr(c) {
                    AtomState::Normal
                } else {
                    return false;
                }
            },
            AtomState::InString => {
                if c == '"' {
                    AtomState::Normal
                } else if c == '\\' {
                    AtomState::StringBackslash
                } else if is_atom_string_chr(c) {
                    AtomState::InString
                } else {
                    return false;
                }
            },
            AtomState::StringBackslash => {
                if is_atom_string_chr(c) || c == '"' || c == '\\' {
                    AtomState::InString
                } else {
                    return false;
                }
            },
        };
        state = next;
        i = i + 1;
    }
    match state {
        AtomState::Normal => true,
        _ => false,
    }
}

} // verus!
