//! Line and column positions in a text.
use vstd::prelude::*;

use crate::atom::{encode_u64, int_repr};
use crate::text::{push_char, push_str};

verus! {

/// Represents a position in a text file.
///
/// Lines and columns begin to count with zero.
#[derive(Copy, Clone, Debug, PartialEq, Eq, Hash, Structural)]
pub struct Pos {
    pub line: u32,
    pub column: u32,
}

impl Pos {
    /// The position at `line` and `column`.
    pub fn new(line: u32, column: u32) -> (p: Self)
        ensures
            p == (Pos { line, column }),
    {
        Self { line, column }
    }
}

/// Wrapper whose text (see `to_string`) is `self.0 + 1`, so that lines and
/// columns are shown counting from one.
#[derive(Copy, Clone, Debug, PartialEq, Eq, Hash, Structural)]
pub struct ReprPosValue(pub u32);

impl ReprPosValue {
    /// The decimal text of `self.0 + 1`; for `u32::MAX` it is `4294967296`.
    pub fn to_string(&self) -> (r: String)
        ensures
            r@ == int_repr(self.0 + 1),
    {
        let v: u64 = self.0 as u64 + 1;
        encode_u64(v)
    }
}

/// The text of a position: its line and its column, counting from one,
/// separated by `:`.
pub open spec fn pos_text(p: Pos) -> Seq<char> {
    int_repr(p.line + 1) + seq![':'] + int_repr(p.column + 1)
}

/// Appends the text of `p` (see `pos_text`) to `s`.
pub fn push_pos(s: &mut String, p: Pos)
    ensures
        final(s)@ == old(s)@ + pos_text(p),
{
    let line = ReprPosValue(p.line).to_string();
    push_str(s, line.as_str());
    push_char(s, ':');
    let column = ReprPosValue(p.column).to_string();
    push_str(s, column.as_str());
    assert(s@ =~= old(s)@ + pos_text(p));
}

} // verus!
