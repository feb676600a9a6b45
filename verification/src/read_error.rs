//! Errors of reading a value from a tree of nodes.
use vstd::prelude::*;

use crate::pos::{pos_text, push_pos, Pos};
use crate::text::{debug_str, push_str, str_debug_text};

verus! {

/// An error found while reading a value from a tree of nodes, with the
/// position of the node involved when it is known.
#[derive(Clone, Debug, PartialEq)]
pub enum ReadError {
    ExpectedAtom { pos: Option<Pos> },
    ExpectedList { pos: Option<Pos> },
    ExpectedNodeInList { list_pos: Option<Pos> },
    UnexpectedNodeInList { node_pos: Option<Pos> },
    InvalidValue { value_type: String, pos: Option<Pos> },
}

/// The description of each kind of read error.
pub open spec fn read_error_description(e: ReadError) -> Seq<char> {
    match e {
        ReadError::ExpectedAtom { .. } => "expected atom"@,
        ReadError::ExpectedList { .. } => "expected list"@,
        ReadError::ExpectedNodeInList { .. } => "expected node in list"@,
        ReadError::UnexpectedNodeInList { .. } => "unexpected node in list"@,
        ReadError::InvalidValue { .. } => "invalid value"@,
    }
}

impl ReadError {
    /// A short description of the kind of error.
    pub fn description(&self) -> (r: &'static str)
        ensures
            r@ == read_error_description(*self),
    {
        match self {
            ReadError::ExpectedAtom { .. } => "expected atom",
            ReadError::ExpectedList { .. } => "expected list",
            ReadError::ExpectedNodeInList { .. } => "expected node in list",
            ReadError::UnexpectedNodeInList { .. } => "unexpected node in list",
            ReadError::InvalidValue { .. } => "invalid value",
        }
    }
}

/// The text that follows a message: ` at ` and the position, when it is
/// known.
pub open spec fn at_pos_text(pos: Option<Pos>) -> Seq<char> {
    match pos {
        Some(p) => " at "@ + pos_text(p),
        None => Seq::<char>::empty(),
    }
}

/// The message of each read error.
pub open spec fn read_error_message(e: ReadError) -> Seq<char> {
    match e {
        ReadError::ExpectedAtom { pos } => "expected atom"@ + at_pos_text(pos),
        ReadError::ExpectedList { pos } => "expected list"@ + at_pos_text(pos),
        ReadError::ExpectedNodeInList { list_pos } => "expected node in list"@ + at_pos_text(
            list_pos,
        ),
        ReadError::UnexpectedNodeInList { node_pos } => "unexpected node in list"@ + at_pos_text(
            node_pos,
        ),
        ReadError::InvalidValue { value_type, pos } => "invalid value of type "@ + str_debug_text(
            value_type@,
        ) + at_pos_text(pos),
    }
}

fn push_at_pos(s: &mut String, pos: Option<Pos>)
    ensures
        final(s)@ == old(s)@ + at_pos_text(pos),
{
    match pos {
        Some(p) => {
            push_str(s, " at ");
            push_pos(s, p);
            assert(s@ =~= old(s)@ + at_pos_text(pos));
        },
        None => {
            assert(s@ =~= old(s)@ + at_pos_text(pos));
        },
    }
}

impl ReadError {
    /// The message of the error (see `read_error_message`).
    pub fn to_string(&self) -> (r: String)
        ensures
            r@ == read_error_message(*self),
    {
        let mut s = String::new();
        match self {
            ReadError::ExpectedAtom { pos } => {
                push_str(&mut s, "expected atom");
                push_at_pos(&mut s, *pos);
            },
            ReadError::ExpectedList { pos } => {
                push_str(&mut s, "expected list");
                push_at_pos(&mut s, *pos);
            },
            ReadError::ExpectedNodeInList { list_pos } => {
                push_str(&mut s, "expected node in list");
                push_at_pos(&mut s, *list_pos);
            },
            ReadError::UnexpectedNodeInList { node_pos } => {
                push_str(&mut s, "unexpected node in list");
                push_at_pos(&mut s, *node_pos);
            },
            ReadError::InvalidValue { value_type, pos } => {
                push_str(&mut s, "invalid value of type ");
                let d = debug_str(value_type.as_str());
                push_str(&mut s, d.as_str());
                push_at_pos(&mut s, *pos);
            },
        }
        assert(s@ =~= read_error_message(*self));
        s
    }
}

} // verus!
