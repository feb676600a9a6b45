//! A parser over bytes that reports line and column positions and enforces
//! limits on nesting depth, atom length and list length.
use vstd::prelude::*;

use crate::pos::{pos_text, push_pos, Pos, ReprPosValue};
use crate::atom::int_repr;
use crate::read_util::ErrorText;
use crate::reader::{kind_event, ReadItem, ReadItemKind, Reader};
use crate::syntax::ParserState;
use crate::writer::{phase_step, writer_phase, WriteEvent, WriterPhase};
use crate::text::{debug_str, push_char, push_str, str_debug_text};
use crate::tree::{lemma_node_list_value, node_values, Node, NodeValue};
use crate::util::{
    atom_accepts_from, is_atom_chr, is_atom_string_chr, is_valid_atom, spec_is_atom_chr,
    spec_is_atom_string_chr, AtomState,
};

verus! {

/// Limits that a parse must respect.
#[derive(Clone, Debug)]
pub struct Limits {
    /// Maximum list nesting depth.
    max_depth: usize,
    /// Maximum atom length.
    max_atom_len: usize,
    /// Maximum number of elements in a list.
    max_list_len: usize,
}

impl Limits {
    /// The maximum list nesting depth.
    pub closed spec fn depth_limit(&self) -> usize {
        self.max_depth
    }

    /// The maximum atom length.
    pub closed spec fn atom_len_limit(&self) -> usize {
        self.max_atom_len
    }

    /// The maximum number of elements in a list.
    pub closed spec fn list_len_limit(&self) -> usize {
        self.max_list_len
    }

    /// Creates a `Limits` instance with all fields set to maximum.
    pub fn unlimited() -> (r: Self)
        ensures
            r.depth_limit() == usize::MAX,
            r.atom_len_limit() == usize::MAX,
            r.list_len_limit() == usize::MAX,
    {
        Limits { max_depth: usize::MAX, max_atom_len: usize::MAX, max_list_len: usize::MAX }
    }

    /// Returns `self` with the maximum nesting depth set to `max_depth`.
    pub fn max_depth(self, max_depth: usize) -> (r: Self)
        ensures
            r.depth_limit() == max_depth,
            r.atom_len_limit() == self.atom_len_limit(),
            r.list_len_limit() == self.list_len_limit(),
    {
        Limits { max_depth, ..self }
    }

    /// Returns `self` with the maximum atom length set to `max_atom_len`.
    pub fn max_atom_len(self, max_atom_len: usize) -> (r: Self)
        ensures
            r.depth_limit() == self.depth_limit(),
            r.atom_len_limit() == max_atom_len,
            r.list_len_limit() == self.list_len_limit(),
    {
        Limits { max_atom_len, ..self }
    }

    /// Returns `self` with the maximum list length set to `max_list_len`.
    pub fn max_list_len(self, max_list_len: usize) -> (r: Self)
        ensures
            r.depth_limit() == self.depth_limit(),
            r.atom_len_limit() == self.atom_len_limit(),
            r.list_len_limit() == max_list_len,
    {
        Limits { max_list_len, ..self }
    }
}

/// A token of the byte parser.
#[derive(Clone, Debug, PartialEq, Eq)]
pub enum Token {
    Eof,
    LeftParen,
    RightParen,
    Atom(String),
}

impl Token {
    /// Whether the token is `Eof`.
    pub fn is_eof(&self) -> (r: bool)
        ensures
            r == (self is Eof),
    {
        match self {
            Token::Eof => true,
            _ => false,
        }
    }

    /// Whether the token is `LeftParen`.
    pub fn is_left_paren(&self) -> (r: bool)
        ensures
            r == (self is LeftParen),
    {
        match self {
            Token::LeftParen => true,
            _ => false,
        }
    }

    /// Whether the token is `RightParen`.
    pub fn is_right_paren(&self) -> (r: bool)
        ensures
            r == (self is RightParen),
    {
        match self {
            Token::RightParen => true,
            _ => false,
        }
    }

    /// Whether the token is an `Atom`.
    pub fn is_atom(&self) -> (r: bool)
        ensures
            r == (self is Atom),
    {
        match self {
            Token::Atom(..) => true,
            _ => false,
        }
    }

    /// The atom's text, if the token is an `Atom`.
    pub fn into_atom(self) -> (r: Option<String>)
        ensures
            match self {
                Token::Atom(a) => r == Some(a),
                _ => r is None,
            },
    {
        match self {
            Token::Atom(atom) => Some(atom),
            _ => None,
        }
    }
}

/// A parse error of the byte parser.
#[derive(Clone, Debug, PartialEq, Eq)]
pub enum Error {
    /// There is an invalid character.
    IllegalChr { pos: Pos, chr: u8 },
    /// There is an invalid character inside a string (enclosed with `"`).
    IllegalChrInString { pos: Pos, chr: u8 },
    /// There is an invalid character inside a comment.
    IllegalChrInComment { pos: Pos, chr: u8 },
    /// End-of-file is reached before finding the closing `"`.
    UnfinishedString { pos: Pos },
    /// Unexpected token.
    UnexpectedToken { pos: Pos, token: Token },
    /// Found a token when expecting end-of-file.
    ExpectedEof { pos: Pos },
    /// A line is longer than `u32::MAX` columns.
    LineTooLong { line: u32 },
    /// There are more than `u32::MAX` lines.
    TooManyLines,
    /// Maximum specified list nesting depth exceeded.
    TooDeep { pos: Pos },
    /// Maximum atom length exceeded.
    AtomTooLong { pos: Pos },
    /// Maximum number of list elements exceeded.
    ListTooLong { pos: Pos },
}

impl Error {
    /// A short description of the kind of error.
    pub fn description(&self) -> (r: &'static str)
        ensures
            r@ == error_description(*self),
    {
        match self {
            Error::IllegalChr { .. } => "Illegal character",
            Error::IllegalChrInString { .. } => "Illegal character in string",
            Error::IllegalChrInComment { .. } => "Illegal character in comment",
            Error::UnfinishedString { .. } => "Unfinished string",
            Error::UnexpectedToken { .. } => "Unexpected token",
            Error::ExpectedEof { .. } => "Expected end-of-file",
            Error::LineTooLong { .. } => "Line too long",
            Error::TooManyLines => "Too many lines",
            Error::TooDeep { .. } => "Maximum depth exceeded",
            Error::AtomTooLong { .. } => "Atom too long",
            Error::ListTooLong { .. } => "List too long",
        }
    }
}

/// The description of each kind of error.
pub open spec fn error_description(e: Error) -> Seq<char> {
    match e {
        Error::IllegalChr { .. } => "Illegal character"@,
        Error::IllegalChrInString { .. } => "Illegal character in string"@,
        Error::IllegalChrInComment { .. } => "Illegal character in comment"@,
        Error::UnfinishedString { .. } => "Unfinished string"@,
        Error::UnexpectedToken { .. } => "Unexpected token"@,
        Error::ExpectedEof { .. } => "Expected end-of-file"@,
        Error::LineTooLong { .. } => "Line too long"@,
        Error::TooManyLines => "Too many lines"@,
        Error::TooDeep { .. } => "Maximum depth exceeded"@,
        Error::AtomTooLong { .. } => "Atom too long"@,
        Error::ListTooLong { .. } => "List too long"@,
    }
}

/// The upper-case hexadecimal digit for `n` (`0 <= n < 16`).
pub open spec fn hex_upper_char(n: int) -> char {
    if n < 10 {
        (n + 48) as char
    } else {
        (n - 10 + 65) as char
    }
}

/// A byte as two upper-case hexadecimal digits.
pub open spec fn hex_byte_text(b: u8) -> Seq<char> {
    seq![hex_upper_char(b as int / 16), hex_upper_char(b as int % 16)]
}

/// The `Debug` text of a token.
pub open spec fn token_debug_text(t: Token) -> Seq<char> {
    match t {
        Token::Eof => "Eof"@,
        Token::LeftParen => "LeftParen"@,
        Token::RightParen => "RightParen"@,
        Token::Atom(a) => "Atom("@ + str_debug_text(a@) + ")"@,
    }
}

/// The message of each error: what went wrong, and where, with lines and
/// columns counted from one.
pub open spec fn error_message(e: Error) -> Seq<char> {
    match e {
        Error::IllegalChr { pos, chr } => "Illegal character 0x"@ + hex_byte_text(chr) + " at "@
            + pos_text(pos),
        Error::IllegalChrInString { pos, chr } => "Illegal character 0x"@ + hex_byte_text(chr)
            + " in string at "@ + pos_text(pos),
        Error::IllegalChrInComment { pos, chr } => "Illegal character 0x"@ + hex_byte_text(chr)
            + " in comment at "@ + pos_text(pos),
        Error::UnfinishedString { pos } => "Unfinished string at "@ + pos_text(pos),
        Error::UnexpectedToken { pos, token } => "Unexpected token "@ + token_debug_text(token)
            + " at "@ + pos_text(pos),
        Error::ExpectedEof { pos } => "Expected end-of-file at "@ + pos_text(pos),
        Error::LineTooLong { line } => "Line "@ + int_repr(line + 1) + " too long"@,
        Error::TooManyLines => "Too many lines"@,
        Error::TooDeep { pos } => "Maximum depth exceeded at "@ + pos_text(pos),
        Error::AtomTooLong { pos } => "Atom too long at "@ + pos_text(pos),
        Error::ListTooLong { pos } => "List too long at "@ + pos_text(pos),
    }
}

fn hex_upper(n: u8) -> (c: char)
    requires
        n < 16,
    ensures
        c == hex_upper_char(n as int),
{
    if n < 10 {
        (48u8 + n) as char
    } else {
        (55u8 + n) as char
    }
}

fn push_hex_byte(s: &mut String, b: u8)
    ensures
        final(s)@ == old(s)@ + hex_byte_text(b),
{
    push_char(s, hex_upper(b / 16));
    push_char(s, hex_upper(b % 16));
    assert(s@ =~= old(s)@ + hex_byte_text(b));
}

fn push_token_debug(s: &mut String, t: &Token)
    ensures
        final(s)@ == old(s)@ + token_debug_text(*t),
{
    match t {
        Token::Eof => push_str(s, "Eof"),
        Token::LeftParen => push_str(s, "LeftParen"),
        Token::RightParen => push_str(s, "RightParen"),
        Token::Atom(a) => {
            push_str(s, "Atom(");
            let d = debug_str(a.as_str());
            push_str(s, d.as_str());
            push_str(s, ")");
            assert(s@ =~= old(s)@ + token_debug_text(*t));
        },
    }
}

impl Error {
    /// The message of the error (see `error_message`).
    pub fn to_string(&self) -> (r: String)
        ensures
            r@ == error_message(*self),
    {
        let mut s = String::new();
        match self {
            Error::IllegalChr { pos, chr } => {
                push_str(&mut s, "Illegal character 0x");
                push_hex_byte(&mut s, *chr);
                push_str(&mut s, " at ");
                push_pos(&mut s, *pos);
            },
            Error::IllegalChrInString { pos, chr } => {
                push_str(&mut s, "Illegal character 0x");
                push_hex_byte(&mut s, *chr);
                push_str(&mut s, " in string at ");
                push_pos(&mut s, *pos);
            },
            Error::IllegalChrInComment { pos, chr } => {
                push_str(&mut s, "Illegal character 0x");
                push_hex_byte(&mut s, *chr);
                push_str(&mut s, " in comment at ");
                push_pos(&mut s, *pos);
            },
            Error::UnfinishedString { pos } => {
                push_str(&mut s, "Unfinished string at ");
                push_pos(&mut s, *pos);
            },
            Error::UnexpectedToken { pos, token } => {
                push_str(&mut s, "Unexpected token ");
                push_token_debug(&mut s, token);
                push_str(&mut s, " at ");
                push_pos(&mut s, *pos);
            },
            Error::ExpectedEof { pos } => {
                push_str(&mut s, "Expected end-of-file at ");
                push_pos(&mut s, *pos);
            },
            Error::LineTooLong { line } => {
                push_str(&mut s, "Line ");
                let n = ReprPosValue(*line).to_string();
                push_str(&mut s, n.as_str());
                push_str(&mut s, " too long");
            },
            Error::TooManyLines => {
                push_str(&mut s, "Too many lines");
            },
            Error::TooDeep { pos } => {
                push_str(&mut s, "Maximum depth exceeded at ");
                push_pos(&mut s, *pos);
            },
            Error::AtomTooLong { pos } => {
                push_str(&mut s, "Atom too long at ");
                push_pos(&mut s, *pos);
            },
            Error::ListTooLong { pos } => {
                push_str(&mut s, "List too long at ");
                push_pos(&mut s, *pos);
            },
        }
        assert(s@ =~= error_message(*self));
        s
    }
}

impl ErrorText for Error {
    open spec fn text(&self) -> Seq<char> {
        error_message(*self)
    }

    open spec fn description_text(&self) -> Seq<char> {
        error_description(*self)
    }

    fn to_string(&self) -> (r: String) {
        Error::to_string(self)
    }

    fn description(&self) -> (r: &str) {
        Error::description(self)
    }
}

/// The position of every node of a tree: that of the node, and those of its
/// children.
#[derive(Debug, PartialEq, Eq)]
pub struct PosTree {
    pub pos: Pos,
    pub children: Vec<PosTree>,
}

/// The mathematical value of a `PosTree`.
pub struct PosTreeValue {
    pub pos: Pos,
    pub children: Seq<PosTreeValue>,
}

impl View for PosTree {
    type V = PosTreeValue;

    open spec fn view(&self) -> PosTreeValue
        decreases self,
    {
        PosTreeValue {
            pos: self.pos,
            children: Seq::new(
                self.children@.len(),
                |i: int|
                    if 0 <= i < self.children@.len() {
                        self.children@[i]@
                    } else {
                        PosTreeValue { pos: self.pos, children: Seq::empty() }
                    },
            ),
        }
    }
}

/// The values of the position trees `l`.
pub open spec fn pos_tree_values(l: Seq<PosTree>) -> Seq<PosTreeValue> {
    Seq::new(l.len(), |i: int| l[i]@)
}

impl PosTree {
    /// A position tree with no children.
    pub fn new(pos: Pos) -> (t: Self)
        ensures
            t@ == (PosTreeValue { pos, children: Seq::empty() }),
            t.children@.len() == 0,
    {
        let t = PosTree { pos, children: Vec::new() };
        assert(t@.children =~= Seq::<PosTreeValue>::empty());
        t
    }
}

/// Where the byte lexer stands: between tokens, inside a comment, or inside
/// an atom (given by its position and the index where it starts), possibly
/// inside a string or right after a backslash in a string.
pub enum ByteLexState {
    Beginning,
    Comment,
    Atom(Pos, int),
    AtomString(Pos, int),
    AtomStringBackslash(Pos, int),
}

/// How far the lexer has read: the index of the next byte, and the line and
/// column it stands at.
pub struct Cursor {
    pub index: int,
    pub line: u32,
    pub column: u32,
}

/// The tokens of the byte lexer; an atom is given by its range of indices.
pub enum ByteToken {
    Eof,
    LeftParen,
    RightParen,
    Atom(int, int),
}

/// The characters of the bytes `b`, one for each byte.
pub open spec fn byte_chars(b: Seq<u8>) -> Seq<char> {
    b.map_values(|x: u8| x as char)
}

/// The cursor after a character of the current line: the column grows,
/// unless the line is already as long as a line can be.
pub open spec fn next_column(c: Cursor, next_index: int) -> Result<Cursor, Error> {
    if c.column == u32::MAX {
        Err(Error::LineTooLong { line: c.line })
    } else {
        Ok(Cursor { index: next_index, line: c.line, column: (c.column + 1) as u32 })
    }
}

/// The cursor after a line break: the next line, at column zero, unless there
/// are already as many lines as there can be.
pub open spec fn next_line(c: Cursor, next_index: int) -> Result<Cursor, Error> {
    if c.line == u32::MAX {
        Err(Error::TooManyLines)
    } else {
        Ok(Cursor { index: next_index, line: (c.line + 1) as u32, column: 0 })
    }
}

/// The position a cursor stands at.
pub open spec fn cursor_pos(c: Cursor) -> Pos {
    Pos { line: c.line, column: c.column }
}

/// Whether `b` may appear in a comment.
pub open spec fn is_comment_byte(b: u8) -> bool {
    (0x21 <= b && b <= 0x7e) || b == 0x20 || b == 0x09
}

/// The index after a `\r` at index `i`, which a `\n` right after it joins.
pub open spec fn after_cr(data: Seq<u8>, i: int) -> int {
    if i + 1 < data.len() && data[i + 1] == 0x0a {
        i + 2
    } else {
        i + 1
    }
}

/// Reads the rest of a token from cursor `c` in lexer state `st`, with atoms
/// at most `max` bytes long: the token with its position, or the error, and
/// the cursor after it.
pub open spec fn lex_bytes(data: Seq<u8>, c: Cursor, st: ByteLexState, max: usize) -> (
    Result<(Pos, ByteToken), Error>,
    Cursor,
)
    decreases data.len() - c.index,
{
    let i = c.index;
    if i < 0 || i > data.len() {
        (Ok((cursor_pos(c), ByteToken::Eof)), c)
    } else {
        match st {
            ByteLexState::Beginning => {
                if i == data.len() {
                    (Ok((cursor_pos(c), ByteToken::Eof)), c)
                } else {
                    let b = data[i];
                    if b == 0x20 || b == 0x09 {
                        match next_column(c, i + 1) {
                            Err(e) => (Err(e), c),
                            Ok(n) => lex_bytes(data, n, ByteLexState::Beginning, max),
                        }
                    } else if b == 0x0a {
                        match next_line(c, i + 1) {
                            Err(e) => (Err(e), c),
                            Ok(n) => lex_bytes(data, n, ByteLexState::Beginning, max),
                        }
                    } else if b == 0x0d {
                        match next_line(c, after_cr(data, i)) {
                            Err(e) => (Err(e), c),
                            Ok(n) => lex_bytes(data, n, ByteLexState::Beginning, max),
                        }
                    } else if b == 0x3b {
                        match next_column(c, i + 1) {
                            Err(e) => (Err(e), c),
                            Ok(n) => lex_bytes(data, n, ByteLexState::Comment, max),
                        }
                    } else if b == 0x28 || b == 0x29 {
                        match next_column(c, i + 1) {
                            Err(e) => (Err(e), c),
                            Ok(n) => (
                                Ok(
                                    (
                                        cursor_pos(c),
                                        if b == 0x28 {
                                            ByteToken::LeftParen
                                        } else {
                                            ByteToken::RightParen
                                        },
                                    ),
                                ),
                                n,
                            ),
                        }
                    } else if b == 0x22 {
                        match next_column(c, i + 1) {
                            Err(e) => (Err(e), c),
                            Ok(n) => lex_bytes(
                                data,
                                n,
                                ByteLexState::AtomString(cursor_pos(c), i),
                                max,
                            ),
                        }
                    } else if spec_is_atom_chr(b as char) {
                        match next_column(c, i + 1) {
                            Err(e) => (Err(e), c),
                            Ok(n) => lex_bytes(data, n, ByteLexState::Atom(cursor_pos(c), i), max),
                        }
                    } else {
                        (Err(Error::IllegalChr { pos: cursor_pos(c), chr: b }), c)
                    }
                }
            },
            ByteLexState::Comment => {
                if i == data.len() {
                    (Ok((cursor_pos(c), ByteToken::Eof)), c)
                } else {
                    let b = data[i];
                    if b == 0x0a {
                        match next_line(c, i + 1) {
                            Err(e) => (Err(e), c),
                            Ok(n) => lex_bytes(data, n, ByteLexState::Beginning, max),
                        }
                    } else if b == 0x0d {
                        match next_line(c, after_cr(data, i)) {
                            Err(e) => (Err(e), c),
                            Ok(n) => lex_bytes(data, n, ByteLexState::Beginning, max),
                        }
                    } else if is_comment_byte(b) {
                        match next_column(c, i + 1) {
                            Err(e) => (Err(e), c),
                            Ok(n) => lex_bytes(data, n, ByteLexState::Comment, max),
                        }
                    } else {
                        (Err(Error::IllegalChrInComment { pos: cursor_pos(c), chr: b }), c)
                    }
                }
            },
            ByteLexState::Atom(p, start) => {
                if i < data.len() && (data[i] == 0x22 || spec_is_atom_chr(data[i] as char)) {
                    if i - start == max {
                        (Err(Error::AtomTooLong { pos: p }), c)
                    } else {
                        match next_column(c, i + 1) {
                            Err(e) => (Err(e), c),
                            Ok(n) => lex_bytes(
                                data,
                                n,
                                if data[i] == 0x22 {
                                    ByteLexState::AtomString(p, start)
                                } else {
                                    ByteLexState::Atom(p, start)
                                },
                                max,
                            ),
                        }
                    }
                } else {
                    (Ok((p, ByteToken::Atom(start, i))), c)
                }
            },
            ByteLexState::AtomString(p, start) => {
                if i == data.len() {
                    (Err(Error::UnfinishedString { pos: cursor_pos(c) }), c)
                } else {
                    let b = data[i];
                    if b == 0x22 || b == 0x5c || spec_is_atom_string_chr(b as char) {
                        if i - start == max {
                            (Err(Error::AtomTooLong { pos: p }), c)
                        } else {
                            match next_column(c, i + 1) {
                                Err(e) => (Err(e), c),
                                Ok(n) => lex_bytes(
                                    data,
                                    n,
                                    if b == 0x22 {
                                        ByteLexState::Atom(p, start)
                                    } else if b == 0x5c {
                                        ByteLexState::AtomStringBackslash(p, start)
                                    } else {
                                        ByteLexState::AtomString(p, start)
                                    },
                                    max,
                                ),
                            }
                        }
                    } else {
                        (Err(Error::IllegalChrInString { pos: cursor_pos(c), chr: b }), c)
                    }
                }
            },
            ByteLexState::AtomStringBackslash(p, start) => {
                if i == data.len() {
                    (Err(Error::UnfinishedString { pos: cursor_pos(c) }), c)
                } else {
                    let b = data[i];
                    if b == 0x22 || b == 0x5c || spec_is_atom_string_chr(b as char) {
                        if i - start == max {
                            (Err(Error::AtomTooLong { pos: p }), c)
                        } else {
                            match next_column(c, i + 1) {
                                Err(e) => (Err(e), c),
                                Ok(n) => lex_bytes(data, n, ByteLexState::AtomString(p, start), max),
                            }
                        }
                    } else {
                        (Err(Error::IllegalChrInString { pos: cursor_pos(c), chr: b }), c)
                    }
                }
            },
        }
    }
}

/// Where an atom being read starts, in the lexer states inside an atom.
pub open spec fn atom_start(st: ByteLexState) -> Option<int> {
    match st {
        ByteLexState::Atom(_, s) => Some(s),
        ByteLexState::AtomString(_, s) => Some(s),
        ByteLexState::AtomStringBackslash(_, s) => Some(s),
        _ => None,
    }
}

/// Reading a token never moves backwards nor past the end; an atom token is a
/// non-empty range that ends where reading stopped; and, from between
/// tokens, any token but the end of the input moves forward.
pub proof fn lemma_lex_bytes_bounds(data: Seq<u8>, c: Cursor, st: ByteLexState, max: usize)
    requires
        0 <= c.index <= data.len(),
        atom_start(st) matches Some(s) ==> 0 <= s < c.index,
    ensures
        ({
            let (t, n) = lex_bytes(data, c, st, max);
            &&& c.index <= n.index <= data.len()
            &&& t matches Ok((p, tok)) ==> {
                &&& tok matches ByteToken::Atom(a, b) ==> 0 <= a < b && b == n.index
                &&& atom_start(st) matches Some(s) ==> tok matches ByteToken::Atom(a, b) && a == s
                &&& atom_start(st) is None && !(tok is Eof) ==> n.index > c.index
            }
        }),
    decreases data.len() - c.index,
{
    let i = c.index;
    if i < data.len() {
        let b = data[i];
        match st {
            ByteLexState::Beginning => {
                if b == 0x20 || b == 0x09 || b == 0x3b || b == 0x22 || spec_is_atom_chr(b as char) {
                    if let Ok(n) = next_column(c, i + 1) {
                        let nst = if b == 0x20 || b == 0x09 {
                            ByteLexState::Beginning
                        } else if b == 0x3b {
                            ByteLexState::Comment
                        } else if b == 0x22 {
                            ByteLexState::AtomString(cursor_pos(c), i)
                        } else {
                            ByteLexState::Atom(cursor_pos(c), i)
                        };
                        lemma_lex_bytes_bounds(data, n, nst, max);
                    }
                } else if b == 0x0a {
                    if let Ok(n) = next_line(c, i + 1) {
                        lemma_lex_bytes_bounds(data, n, ByteLexState::Beginning, max);
                    }
                } else if b == 0x0d {
                    if let Ok(n) = next_line(c, after_cr(data, i)) {
                        lemma_lex_bytes_bounds(data, n, ByteLexState::Beginning, max);
                    }
                }
            },
            ByteLexState::Comment => {
                if b == 0x0a {
                    if let Ok(n) = next_line(c, i + 1) {
                        lemma_lex_bytes_bounds(data, n, ByteLexState::Beginning, max);
                    }
                } else if b == 0x0d {
                    if let Ok(n) = next_line(c, after_cr(data, i)) {
                        lemma_lex_bytes_bounds(data, n, ByteLexState::Beginning, max);
                    }
                } else if is_comment_byte(b) {
                    if let Ok(n) = next_column(c, i + 1) {
                        lemma_lex_bytes_bounds(data, n, ByteLexState::Comment, max);
                    }
                }
            },
            ByteLexState::Atom(p, start) => {
                if (b == 0x22 || spec_is_atom_chr(b as char)) && i - start != max {
                    if let Ok(n) = next_column(c, i + 1) {
                        let nst = if b == 0x22 {
                            ByteLexState::AtomString(p, start)
                        } else {
                            ByteLexState::Atom(p, start)
                        };
                        lemma_lex_bytes_bounds(data, n, nst, max);
                    }
                }
            },
            ByteLexState::AtomString(p, start) => {
                if (b == 0x22 || b == 0x5c || spec_is_atom_string_chr(b as char)) && i - start != max {
                    if let Ok(n) = next_column(c, i + 1) {
                        let nst = if b == 0x22 {
                            ByteLexState::Atom(p, start)
                        } else if b == 0x5c {
                            ByteLexState::AtomStringBackslash(p, start)
                        } else {
                            ByteLexState::AtomString(p, start)
                        };
                        lemma_lex_bytes_bounds(data, n, nst, max);
                    }
                }
            },
            ByteLexState::AtomStringBackslash(p, start) => {
                if (b == 0x22 || b == 0x5c || spec_is_atom_string_chr(b as char)) && i - start != max {
                    if let Ok(n) = next_column(c, i + 1) {
                        lemma_lex_bytes_bounds(data, n, ByteLexState::AtomString(p, start), max);
                    }
                }
            },
        }
    }
}

/// Whether the token `t` is the token `bt` read from `data`.
pub open spec fn token_matches(data: Seq<u8>, t: Token, bt: ByteToken) -> bool {
    match bt {
        ByteToken::Eof => t is Eof,
        ByteToken::LeftParen => t is LeftParen,
        ByteToken::RightParen => t is RightParen,
        ByteToken::Atom(a, b) => t matches Token::Atom(s) && s@ == byte_chars(data.subrange(a, b)),
    }
}

/// The text of the bytes `data[start..end]`, one character for each byte.
fn byte_text(data: &[u8], start: usize, end: usize) -> (s: String)
    requires
        start <= end <= data@.len(),
    ensures
        s@ == byte_chars(data@.subrange(start as int, end as int)),
{
    let mut s = String::new();
    let mut i = start;
    while i < end
        invariant
            start <= i <= end <= data@.len(),
            s@ == byte_chars(data@.subrange(start as int, i as int)),
        decreases end - i,
    {
        let b = data[i];
        push_char(&mut s, b as char);
        i = i + 1;
        assert(s@ =~= byte_chars(data@.subrange(start as int, i as int)));
    }
    s
}

enum LexState {
    Beginning,
    Comment,
    Atom(Pos, usize),
    AtomString(Pos, usize),
    AtomStringBackslash(Pos, usize),
}

spec fn lex_state_value(st: LexState) -> ByteLexState {
    match st {
        LexState::Beginning => ByteLexState::Beginning,
        LexState::Comment => ByteLexState::Comment,
        LexState::Atom(p, s) => ByteLexState::Atom(p, s as int),
        LexState::AtomString(p, s) => ByteLexState::AtomString(p, s as int),
        LexState::AtomStringBackslash(p, s) => ByteLexState::AtomStringBackslash(p, s as int),
    }
}

struct ByteLexer<'a> {
    data: &'a [u8],
    pos: usize,
    line: u32,
    column: u32,
}

impl<'a> ByteLexer<'a> {
    spec fn cursor(&self) -> Cursor {
        Cursor { index: self.pos as int, line: self.line, column: self.column }
    }

    spec fn wf(&self) -> bool {
        self.pos <= self.data@.len()
    }

    fn new(data: &'a [u8]) -> (l: Self)
        ensures
            l.wf(),
            l.data == data,
            l.cursor() == (Cursor { index: 0, line: 0, column: 0 }),
    {
        ByteLexer { data, pos: 0, line: 0, column: 0 }
    }

    fn get_pos(&self) -> (p: Pos)
        ensures
            p == cursor_pos(self.cursor()),
    {
        Pos::new(self.line, self.column)
    }

    /// Moves to the next column, the current byte having been consumed.
    fn incr_column(&mut self) -> (r: Result<(), Error>)
        ensures
            final(self).data == old(self).data,
            final(self).pos == old(self).pos,
            match next_column(old(self).cursor(), old(self).pos as int) {
                Ok(n) => r is Ok && final(self).cursor() == n,
                Err(e) => r == Err::<(), Error>(e),
            },
    {
        if self.column == u32::MAX {
            Err(Error::LineTooLong { line: self.line })
        } else {
            self.column = self.column + 1;
            Ok(())
        }
    }

    /// Moves to the beginning of the next line, the line break having been
    /// consumed.
    fn incr_line(&mut self) -> (r: Result<(), Error>)
        ensures
            final(self).data == old(self).data,
            final(self).pos == old(self).pos,
            match next_line(old(self).cursor(), old(self).pos as int) {
                Ok(n) => r is Ok && final(self).cursor() == n,
                Err(e) => r == Err::<(), Error>(e),
            },
    {
        if self.line == u32::MAX {
            Err(Error::TooManyLines)
        } else {
            self.line = self.line + 1;
            self.column = 0;
            Ok(())
        }
    }

    /// Consumes a line break that starts with `\r` at the current index.
    fn skip_cr(&mut self)
        requires
            old(self).pos < old(self).data@.len(),
        ensures
            final(self).data == old(self).data,
            final(self).line == old(self).line,
            final(self).column == old(self).column,
            final(self).pos == after_cr(old(self).data@, old(self).pos as int),
    {
        if self.data.len() - self.pos >= 2 && self.data[self.pos + 1] == 0x0a {
            self.pos = self.pos + 2;
        } else {
            self.pos = self.pos + 1;
        }
    }

    /// Reads the next token (see `lex_bytes`), with atoms at most
    /// `max_atom_len` bytes long.
    fn get_token(&mut self, max_atom_len: usize) -> (r: Result<(Pos, Token), Error>)
        requires
            old(self).wf(),
        ensures
            final(self).wf(),
            final(self).data == old(self).data,
            final(self).pos >= old(self).pos,
            ({
                let (res, next) = lex_bytes(
                    old(self).data@,
                    old(self).cursor(),
                    ByteLexState::Beginning,
                    max_atom_len,
                );
                match (r, res) {
                    (Ok((p, t)), Ok((sp, bt))) => p == sp && token_matches(old(self).data@, t, bt)
                        && final(self).cursor() == next,
                    (Err(e), Err(se)) => e == se,
                    _ => false,
                }
            }),
    {
        let ghost data = self.data@;
        let ghost goal = lex_bytes(data, self.cursor(), ByteLexState::Beginning, max_atom_len);
        let mut state = LexState::Beginning;
        loop
            invariant
                self.wf(),
                self.data@ == data,
                self.data == old(self).data,
                self.pos >= old(self).pos,
                data == old(self).data@,
                goal == lex_bytes(
                    old(self).data@,
                    old(self).cursor(),
                    ByteLexState::Beginning,
                    max_atom_len,
                ),
                atom_start(lex_state_value(state)) matches Some(s) ==> 0 <= s < self.pos,
                lex_bytes(data, self.cursor(), lex_state_value(state), max_atom_len) == goal,
            decreases data.len() - self.pos,
        {
            let ghost c = self.cursor();
            let i = self.pos;
            proof {
                lemma_lex_bytes_bounds(data, c, lex_state_value(state), max_atom_len);
            }
            match state {
                LexState::Beginning => {
                    if i == self.data.len() {
                        return Ok((self.get_pos(), Token::Eof));
                    }
                    let b = self.data[i];
                    if b == 0x20 || b == 0x09 {
                        self.pos = i + 1;
                        if let Err(e) = self.incr_column() {
                            return Err(e);
                        }
                    } else if b == 0x0a {
                        self.pos = i + 1;
                        if let Err(e) = self.incr_line() {
                            return Err(e);
                        }
                    } else if b == 0x0d {
                        self.skip_cr();
                        if let Err(e) = self.incr_line() {
                            return Err(e);
                        }
                    } else if b == 0x3b {
                        self.pos = i + 1;
                        if let Err(e) = self.incr_column() {
                            return Err(e);
                        }
                        state = LexState::Comment;
                    } else if b == 0x28 || b == 0x29 {
                        let pos = self.get_pos();
                        self.pos = i + 1;
                        if let Err(e) = self.incr_column() {
                            return Err(e);
                        }
                        if b == 0x28 {
                            return Ok((pos, Token::LeftParen));
                        } else {
                            return Ok((pos, Token::RightParen));
                        }
                    } else if b == 0x22 || is_atom_chr(b as char) {
                        let pos = self.get_pos();
                        self.pos = i + 1;
                        if let Err(e) = self.incr_column() {
                            return Err(e);
                        }
                        if b == 0x22 {
                            state = LexState::AtomString(pos, i);
                        } else {
                            state = LexState::Atom(pos, i);
                        }
                    } else {
                        return Err(Error::IllegalChr { pos: self.get_pos(), chr: b });
                    }
                },
                LexState::Comment => {
                    if i == self.data.len() {
                        return Ok((self.get_pos(), Token::Eof));
                    }
                    let b = self.data[i];
                    if b == 0x0a {
                        self.pos = i + 1;
                        if let Err(e) = self.incr_line() {
                            return Err(e);
                        }
                        state = LexState::Beginning;
                    } else if b == 0x0d {
                        self.skip_cr();
                        if let Err(e) = self.incr_line() {
                            return Err(e);
                        }
                        state = LexState::Beginning;
                    } else if (0x21 <= b && b <= 0x7e) || b == 0x20 || b == 0x09 {
                        self.pos = i + 1;
                        if let Err(e) = self.incr_column() {
                            return Err(e);
                        }
                    } else {
                        return Err(Error::IllegalChrInComment { pos: self.get_pos(), chr: b });
                    }
                },
                LexState::Atom(pos, start) => {
                    if i < self.data.len() && (self.data[i] == 0x22 || is_atom_chr(
                        self.data[i] as char,
                    )) {
                        if i - start == max_atom_len {
                            return Err(Error::AtomTooLong { pos });
                        }
                        let b = self.data[i];
                        self.pos = i + 1;
                        if let Err(e) = self.incr_column() {
                            return Err(e);
                        }
                        if b == 0x22 {
                            state = LexState::AtomString(pos, start);
                        }
                    } else {
                        let atom = byte_text(self.data, start, i);
                        return Ok((pos, Token::Atom(atom)));
                    }
                },
                LexState::AtomString(pos, start) => {
                    if i == self.data.len() {
                        return Err(Error::UnfinishedString { pos: self.get_pos() });
                    }
                    let b = self.data[i];
                    if b == 0x22 || b == 0x5c || is_atom_string_chr(b as char) {
                        if i - start == max_atom_len {
                            return Err(Error::AtomTooLong { pos });
                        }
                        self.pos = i + 1;
                        if let Err(e) = self.incr_column() {
                            return Err(e);
                        }
                        if b == 0x22 {
                            state = LexState::Atom(pos, start);
                        } else if b == 0x5c {
                            state = LexState::AtomStringBackslash(pos, start);
                        }
                    } else {
                        return Err(Error::IllegalChrInString { pos: self.get_pos(), chr: b });
                    }
                },
                LexState::AtomStringBackslash(pos, start) => {
                    if i == self.data.len() {
                        return Err(Error::UnfinishedString { pos: self.get_pos() });
                    }
                    let b = self.data[i];
                    if b == 0x22 || b == 0x5c || is_atom_string_chr(b as char) {
                        if i - start == max_atom_len {
                            return Err(Error::AtomTooLong { pos });
                        }
                        self.pos = i + 1;
                        if let Err(e) = self.incr_column() {
                            return Err(e);
                        }
                        state = LexState::AtomString(pos, start);
                    } else {
                        return Err(Error::IllegalChrInString { pos: self.get_pos(), chr: b });
                    }
                },
            }
        }
    }
}

/// A list being read: its position, the values of the items read so far and
/// their positions.
pub struct OpenList {
    pub pos: Pos,
    pub items: Seq<NodeValue>,
    pub children: Seq<PosTreeValue>,
}

/// `frames` (the lists being read, innermost last) with the node `v` at
/// positions `t` added to the innermost one.
pub open spec fn add_item(frames: Seq<OpenList>, v: NodeValue, t: PosTreeValue) -> Seq<OpenList> {
    let top = frames.last();
    frames.update(
        frames.len() - 1,
        OpenList { pos: top.pos, items: top.items.push(v), children: top.children.push(t) },
    )
}

/// Reads the rest of the lists `frames` (innermost last, none complete yet)
/// from cursor `c`: the value of the outermost one with its positions and the
/// cursor after it, or the error.
pub open spec fn decode_items(data: Seq<u8>, c: Cursor, frames: Seq<OpenList>, limits: Limits) -> Result<
    (NodeValue, PosTreeValue, Cursor),
    Error,
>
    decreases data.len() - c.index,
{
    if frames.len() == 0 || c.index < 0 || c.index > data.len() {
        Err(Error::UnexpectedToken { pos: cursor_pos(c), token: Token::Eof })
    } else {
        proof {
            lemma_lex_bytes_bounds(data, c, ByteLexState::Beginning, limits.atom_len_limit());
        }
        let (t, next) = lex_bytes(data, c, ByteLexState::Beginning, limits.atom_len_limit());
        let top = frames.last();
        match t {
            Err(e) => Err(e),
            Ok((p, ByteToken::Eof)) => Err(Error::UnexpectedToken { pos: p, token: Token::Eof }),
            Ok((p, ByteToken::LeftParen)) => if top.items.len() == limits.list_len_limit() {
                Err(Error::ListTooLong { pos: p })
            } else if frames.len() == limits.depth_limit() {
                Err(Error::TooDeep { pos: p })
            } else {
                decode_items(
                    data,
                    next,
                    frames.push(OpenList { pos: p, items: Seq::empty(), children: Seq::empty() }),
                    limits,
                )
            },
            Ok((p, ByteToken::RightParen)) => {
                let v = NodeValue::List(top.items);
                let t = PosTreeValue { pos: top.pos, children: top.children };
                if frames.len() == 1 {
                    Ok((v, t, next))
                } else {
                    decode_items(data, next, add_item(frames.drop_last(), v, t), limits)
                }
            },
            Ok((p, ByteToken::Atom(a, b))) => if top.items.len() == limits.list_len_limit() {
                Err(Error::ListTooLong { pos: p })
            } else {
                decode_items(
                    data,
                    next,
                    add_item(
                        frames,
                        NodeValue::Atom(byte_chars(data.subrange(a, b))),
                        PosTreeValue { pos: p, children: Seq::empty() },
                    ),
                    limits,
                )
            },
        }
    }
}

/// What ending a parse at cursor `c` gives, the root node `v` with positions
/// `t` having been read: nothing but whitespace and comments may follow.
pub open spec fn decode_end(data: Seq<u8>, c: Cursor, v: NodeValue, t: PosTreeValue, limits: Limits) -> Result<
    (NodeValue, PosTreeValue),
    Error,
> {
    match lex_bytes(data, c, ByteLexState::Beginning, limits.atom_len_limit()).0 {
        Err(e) => Err(e),
        Ok((p, ByteToken::Eof)) => Ok((v, t)),
        Ok((p, _)) => Err(Error::ExpectedEof { pos: p }),
    }
}

/// The result of parsing `data` within `limits`: the root node with the
/// positions of its nodes, or the first error.
pub open spec fn decode(data: Seq<u8>, limits: Limits) -> Result<(NodeValue, PosTreeValue), Error> {
    let (t, next) = lex_bytes(
        data,
        Cursor { index: 0, line: 0, column: 0 },
        ByteLexState::Beginning,
        limits.atom_len_limit(),
    );
    match t {
        Err(e) => Err(e),
        Ok((p, ByteToken::LeftParen)) => if limits.depth_limit() == 0 {
            Err(Error::TooDeep { pos: p })
        } else {
            match decode_items(
                data,
                next,
                seq![OpenList { pos: p, items: Seq::empty(), children: Seq::empty() }],
                limits,
            ) {
                Err(e) => Err(e),
                Ok((v, pt, c)) => decode_end(data, c, v, pt, limits),
            }
        },
        Ok((p, ByteToken::Atom(a, b))) => decode_end(
            data,
            next,
            NodeValue::Atom(byte_chars(data.subrange(a, b))),
            PosTreeValue { pos: p, children: Seq::empty() },
            limits,
        ),
        Ok((p, ByteToken::RightParen)) => Err(Error::UnexpectedToken { pos: p, token: Token::RightParen }),
        Ok((p, ByteToken::Eof)) => Err(Error::UnexpectedToken { pos: p, token: Token::Eof }),
    }
}

/// The lexer state that stands for the atom grammar state `st`, inside an
/// atom at position `p` that starts at index 0.
spec fn atom_lex_state(st: AtomState, p: Pos) -> ByteLexState {
    match st {
        AtomState::InString => ByteLexState::AtomString(p, 0),
        AtomState::StringBackslash => ByteLexState::AtomStringBackslash(p, 0),
        _ => ByteLexState::Atom(p, 0),
    }
}

/// Inside an atom that is the whole input and whose characters follow the
/// atom grammar from the cursor on, the lexer reads to the end and gives the
/// whole input as one atom.
proof fn lemma_lex_whole_atom(data: Seq<u8>, c: Cursor, st: AtomState, p: Pos, max: usize)
    requires
        0 <= c.index <= data.len(),
        !(st is Beginning),
        atom_accepts_from(byte_chars(data), c.index, st),
        data.len() <= max,
        c.column + (data.len() - c.index) <= u32::MAX,
    ensures
        lex_bytes(data, c, atom_lex_state(st, p), max) == (
            Ok::<(Pos, ByteToken), Error>((p, ByteToken::Atom(0, data.len() as int))),
            Cursor {
                index: data.len() as int,
                line: c.line,
                column: (c.column + (data.len() - c.index)) as u32,
            },
        ),
    decreases data.len() - c.index,
{
    let i = c.index;
    let w = byte_chars(data);
    if i < data.len() {
        let b = data[i];
        assert(w[i] == b as char);
        let n = Cursor { index: i + 1, line: c.line, column: (c.column + 1) as u32 };
        let next_st = match st {
            AtomState::Normal => if b == 0x22 {
                AtomState::InString
            } else {
                AtomState::Normal
            },
            AtomState::InString => if b == 0x22 {
                AtomState::Normal
            } else if b == 0x5c {
                AtomState::StringBackslash
            } else {
                AtomState::InString
            },
            _ => AtomState::InString,
        };
        assert(atom_accepts_from(w, i + 1, next_st));
        lemma_lex_whole_atom(data, n, next_st, p, max);
    }
}

/// Every valid atom decodes to itself: bytes whose characters form a valid
/// atom, within the atom length limit and on one line that fits the column
/// count, are read as that single atom at the beginning of the text.
pub proof fn lemma_decode_atom(data: Seq<u8>, limits: Limits)
    requires
        is_valid_atom(byte_chars(data)),
        data.len() <= limits.atom_len_limit(),
        data.len() <= u32::MAX,
    ensures
        decode(data, limits) == Ok::<(NodeValue, PosTreeValue), Error>(
            (
                NodeValue::Atom(byte_chars(data)),
                PosTreeValue { pos: Pos { line: 0, column: 0 }, children: Seq::empty() },
            ),
        ),
{
    let w = byte_chars(data);
    let p = Pos { line: 0, column: 0 };
    let c0 = Cursor { index: 0, line: 0, column: 0 };
    let c1 = Cursor { index: 1, line: 0, column: 1 };
    let max = limits.atom_len_limit();
    assert(w.len() > 0);
    let b = data[0];
    assert(w[0] == b as char);
    let st = if b == 0x22 {
        AtomState::InString
    } else {
        AtomState::Normal
    };
    assert(atom_accepts_from(w, 1, st));
    lemma_lex_whole_atom(data, c1, st, p, max);
    let end = Cursor { index: data.len() as int, line: 0, column: data.len() as u32 };
    assert(lex_bytes(data, c0, ByteLexState::Beginning, max) == (
        Ok::<(Pos, ByteToken), Error>((p, ByteToken::Atom(0, data.len() as int))),
        end,
    ));
    assert(data.subrange(0, data.len() as int) =~= data);
}

/// The value of a position tree is its position with the values of its children.
pub proof fn lemma_pos_tree_value(pos: Pos, children: Vec<PosTree>)
    ensures
        (PosTree { pos, children })@ == (PosTreeValue { pos, children: pos_tree_values(children@) }),
{
    reveal_with_fuel(<PosTree as View>::view, 2);
    let t = PosTree { pos, children };
    assert(t@.children =~= pos_tree_values(children@));
}

/// The list being read whose position tree is `t` and whose items are `l`.
spec fn open_list_of(t: PosTree, l: Seq<Node>) -> OpenList {
    OpenList { pos: t.pos, items: node_values(l), children: pos_tree_values(t.children@) }
}

spec fn stack_frames(stack: Seq<(PosTree, Vec<Node>)>) -> Seq<OpenList> {
    Seq::new(stack.len(), |k: int| open_list_of(stack[k].0, stack[k].1@))
}

/// Reads the rest of a list whose `(`, at `pos`, has been read.
fn parse_list(lexer: &mut ByteLexer, pos: Pos, limits: &Limits) -> (r: Result<(Node, PosTree), Error>)
    requires
        old(lexer).wf(),
        old(lexer).pos >= 1,
    ensures
        final(lexer).wf(),
        final(lexer).data == old(lexer).data,
        match r {
            Ok((n, t)) => decode_items(
                old(lexer).data@,
                old(lexer).cursor(),
                seq![OpenList { pos, items: Seq::empty(), children: Seq::empty() }],
                *limits,
            ) == Ok::<(NodeValue, PosTreeValue, Cursor), Error>((n@, t@, final(lexer).cursor())),
            Err(e) => decode_items(
                old(lexer).data@,
                old(lexer).cursor(),
                seq![OpenList { pos, items: Seq::empty(), children: Seq::empty() }],
                *limits,
            ) == Err::<(NodeValue, PosTreeValue, Cursor), Error>(e),
        },
{
    let ghost data = lexer.data@;
    let ghost goal = decode_items(
        data,
        lexer.cursor(),
        seq![OpenList { pos, items: Seq::empty(), children: Seq::empty() }],
        *limits,
    );
    let mut stack: Vec<(PosTree, Vec<Node>)> = Vec::new();
    let mut tree = PosTree::new(pos);
    let mut list: Vec<Node> = Vec::new();
    proof {
        assert(node_values(list@) =~= Seq::<NodeValue>::empty());
        assert(pos_tree_values(tree.children@) =~= Seq::<PosTreeValue>::empty());
        assert(stack_frames(stack@).push(open_list_of(tree, list@)) =~= seq![
            OpenList { pos, items: Seq::empty(), children: Seq::empty() },
        ]);
    }
    loop
        invariant
            lexer.wf(),
            lexer.data == old(lexer).data,
            lexer.data@ == data,
            data == old(lexer).data@,
            goal == decode_items(
                old(lexer).data@,
                old(lexer).cursor(),
                seq![OpenList { pos, items: Seq::empty(), children: Seq::empty() }],
                *limits,
            ),
            stack@.len() + 1 <= lexer.pos,
            decode_items(
                data,
                lexer.cursor(),
                stack_frames(stack@).push(open_list_of(tree, list@)),
                *limits,
            ) == goal,
        decreases data.len() - lexer.pos,
    {
        let ghost frames = stack_frames(stack@).push(open_list_of(tree, list@));
        let ghost c = lexer.cursor();
        proof {
            lemma_lex_bytes_bounds(data, c, ByteLexState::Beginning, limits.atom_len_limit());
            assert(frames.len() == stack@.len() + 1);
            assert(frames.last() == open_list_of(tree, list@));
        }
        let (token_pos, token) = match lexer.get_token(limits.max_atom_len) {
            Ok(t) => t,
            Err(e) => {
                return Err(e);
            },
        };
        match token {
            Token::LeftParen => {
                if list.len() == limits.max_list_len {
                    return Err(Error::ListTooLong { pos: token_pos });
                }
                if stack.len() + 1 == limits.max_depth {
                    return Err(Error::TooDeep { pos: token_pos });
                }
                let ghost old_stack = stack@;
                stack.push((tree, list));
                tree = PosTree::new(token_pos);
                list = Vec::new();
                proof {
                    assert(stack_frames(stack@) =~= stack_frames(old_stack).push(frames.last()));
                    assert(node_values(list@) =~= Seq::<NodeValue>::empty());
                    assert(pos_tree_values(tree.children@) =~= Seq::<PosTreeValue>::empty());
                    assert(stack_frames(stack@).push(open_list_of(tree, list@)) =~= frames.push(
                        OpenList { pos: token_pos, items: Seq::empty(), children: Seq::empty() },
                    ));
                }
            },
            Token::RightParen => {
                let ghost old_stack = stack@;
                proof {
                    lemma_node_list_value(list);
                    lemma_pos_tree_value(tree.pos, tree.children);
                }
                let node = Node::List(list);
                let done = tree;
                match stack.pop() {
                    Some((parent_tree, parent_list)) => {
                        let ghost pt = parent_tree;
                        let ghost pl = parent_list@;
                        tree = parent_tree;
                        list = parent_list;
                        tree.children.push(done);
                        list.push(node);
                        proof {
                            assert(stack_frames(stack@) =~= stack_frames(old_stack).drop_last());
                            assert(stack_frames(old_stack).last() == open_list_of(pt, pl));
                            assert(node_values(list@) =~= node_values(pl).push(node@));
                            assert(pos_tree_values(tree.children@) =~= pos_tree_values(
                                pt.children@,
                            ).push(done@));
                            assert(stack_frames(stack@).push(open_list_of(tree, list@))
                                =~= add_item(frames.drop_last(), node@, done@));
                        }
                    },
                    None => {
                        return Ok((node, done));
                    },
                }
            },
            Token::Atom(atom) => {
                if list.len() == limits.max_list_len {
                    return Err(Error::ListTooLong { pos: token_pos });
                }
                let ghost before_list = list@;
                let ghost before_children = tree.children@;
                let t = PosTree::new(token_pos);
                let n = Node::Atom(atom);
                tree.children.push(t);
                list.push(n);
                proof {
                    assert(node_values(list@) =~= node_values(before_list).push(n@));
                    assert(pos_tree_values(tree.children@) =~= pos_tree_values(before_children).push(
                        t@,
                    ));
                    assert(stack_frames(stack@).push(open_list_of(tree, list@)) =~= add_item(
                        frames,
                        n@,
                        t@,
                    ));
                }
            },
            Token::Eof => {
                return Err(Error::UnexpectedToken { pos: token_pos, token: Token::Eof });
            },
        }
    }
}

/// Parses `data`: the root node and the positions (line and column) of
/// its nodes, or the first error (see `decode`). Atoms must be allowed at
/// least one byte.
pub fn parse(data: &[u8], limits: &Limits) -> (r: Result<(Node, PosTree), Error>)
    requires
        limits.atom_len_limit() >= 1,
    ensures
        match r {
            Ok((n, t)) => decode(data@, *limits) == Ok::<(NodeValue, PosTreeValue), Error>((n@, t@)),
            Err(e) => decode(data@, *limits) == Err::<(NodeValue, PosTreeValue), Error>(e),
        },
{
    let mut lexer = ByteLexer::new(data);
    proof {
        lemma_lex_bytes_bounds(
            data@,
            lexer.cursor(),
            ByteLexState::Beginning,
            limits.atom_len_limit(),
        );
    }
    let (pos, token) = match lexer.get_token(limits.max_atom_len) {
        Ok(t) => t,
        Err(e) => {
            return Err(e);
        },
    };
    let (root, root_pos) = match token {
        Token::LeftParen => {
            if limits.max_depth == 0 {
                return Err(Error::TooDeep { pos });
            }
            match parse_list(&mut lexer, pos, limits) {
                Ok(x) => x,
                Err(e) => {
                    return Err(e);
                },
            }
        },
        Token::Atom(atom) => (Node::Atom(atom), PosTree::new(pos)),
        token => {
            return Err(Error::UnexpectedToken { pos, token });
        },
    };
    match lexer.get_token(limits.max_atom_len) {
        Ok((_, Token::Eof)) => Ok((root, root_pos)),
        Ok((pos, _)) => Err(Error::ExpectedEof { pos }),
        Err(e) => Err(e),
    }
}

/// One read of a byte `Parser` from cursor `c` in state `st`: the token (at
/// its position) or the error, the cursor after it and the new state.
pub open spec fn byte_read_step(data: Seq<u8>, c: Cursor, st: ParserState) -> (
    Result<(Pos, ByteToken), Error>,
    Cursor,
    ParserState,
) {
    let (t, next) = lex_bytes(data, c, ByteLexState::Beginning, usize::MAX);
    match t {
        Err(e) => (Err(e), next, st),
        Ok((p, tok)) => match st {
            ParserState::Beginning => match tok {
                ByteToken::LeftParen => (Ok((p, tok)), next, ParserState::Parsing(0)),
                ByteToken::Atom(_, _) => (Ok((p, tok)), next, ParserState::Finishing),
                ByteToken::RightParen => (
                    Err(Error::UnexpectedToken { pos: p, token: Token::RightParen }),
                    next,
                    st,
                ),
                ByteToken::Eof => (
                    Err(Error::UnexpectedToken { pos: p, token: Token::Eof }),
                    next,
                    st,
                ),
            },
            ParserState::Parsing(d) => match tok {
                ByteToken::LeftParen => (Ok((p, tok)), next, ParserState::Parsing(d + 1)),
                ByteToken::RightParen => (
                    Ok((p, tok)),
                    next,
                    if d == 0 {
                        ParserState::Finishing
                    } else {
                        ParserState::Parsing((d - 1) as nat)
                    },
                ),
                ByteToken::Atom(_, _) => (Ok((p, tok)), next, st),
                ByteToken::Eof => (
                    Err(Error::UnexpectedToken { pos: p, token: Token::Eof }),
                    next,
                    st,
                ),
            },
            ParserState::Finishing => (Err(Error::ExpectedEof { pos: p }), next, st),
        },
    }
}

/// Whether `item` is the item that the token `tok` at `p` of `data` gives.
pub open spec fn read_item_matches(
    data: Seq<u8>,
    item: ReadItem<String, Pos>,
    p: Pos,
    tok: ByteToken,
) -> bool {
    &&& item.pos == p
    &&& match tok {
        ByteToken::LeftParen => item.kind is ListBeginning,
        ByteToken::RightParen => item.kind is ListEnding,
        ByteToken::Atom(a, b) => item.kind matches ReadItemKind::Atom(s) && s@ == byte_chars(
            data.subrange(a, b),
        ),
        ByteToken::Eof => false,
    }
}

/// The writer phase that a parser state stands for.
pub open spec fn state_phase(st: ParserState) -> WriterPhase {
    match st {
        ParserState::Beginning => WriterPhase::Beginning,
        ParserState::Parsing(d) => WriterPhase::Writing(d),
        ParserState::Finishing => WriterPhase::Finished,
    }
}

enum ReadState {
    Beginning,
    Parsing { depth: usize },
    Finishing,
}

/// A reader of the items of a document given as bytes (see `Reader`), with
/// line and column positions and no limits.
pub struct Parser<'a> {
    lexer: ByteLexer<'a>,
    state: ReadState,
    log: Ghost<Seq<WriteEvent>>,
    pos_log: Ghost<Seq<Pos>>,
    tries: Ghost<nat>,
}

impl<'a> Parser<'a> {
    /// The document.
    pub closed spec fn input(&self) -> Seq<u8> {
        self.lexer.data@
    }

    /// How far the parser has read.
    pub closed spec fn cursor(&self) -> Cursor {
        self.lexer.cursor()
    }

    /// Where the parser stands in the document.
    pub closed spec fn parser_state(&self) -> ParserState {
        match self.state {
            ReadState::Beginning => ParserState::Beginning,
            ReadState::Parsing { depth } => ParserState::Parsing(depth as nat),
            ReadState::Finishing => ParserState::Finishing,
        }
    }

    /// Creates a parser that reads `data` from its beginning.
    pub fn new(data: &'a [u8]) -> (p: Self)
        ensures
            p.wf(),
            p.input() == data@,
            p.cursor() == (Cursor { index: 0, line: 0, column: 0 }),
            p.parser_state() == ParserState::Beginning,
            p.consumed() == Seq::<WriteEvent>::empty(),
            p.positions() == Seq::<Pos>::empty(),
            p.reads() == 0,
    {
        Parser {
            lexer: ByteLexer::new(data),
            state: ReadState::Beginning,
            log: Ghost(Seq::empty()),
            pos_log: Ghost(Seq::empty()),
            tries: Ghost(0),
        }
    }
}

impl<'a> Reader for Parser<'a> {
    type Error = Error;
    type String = String;
    type Pos = Pos;

    closed spec fn wf(&self) -> bool {
        &&& self.lexer.wf()
        &&& writer_phase(self.log@) == state_phase(self.parser_state())
        &&& (self.state matches ReadState::Parsing { depth } ==> depth < self.lexer.pos)
    }

    closed spec fn consumed(&self) -> Seq<WriteEvent> {
        self.log@
    }

    closed spec fn positions(&self) -> Seq<Pos> {
        self.pos_log@
    }

    closed spec fn bound(&self) -> nat {
        (self.lexer.data@.len() - self.lexer.pos) as nat
    }

    open spec fn infallible() -> bool {
        false
    }

    open spec fn next_error(&self) -> Option<Self::Error> {
        match byte_read_step(self.input(), self.cursor(), self.parser_state()).0 {
            Err(se) => Some(se),
            Ok(_) => None,
        }
    }

    open spec fn next_read(&self) -> Option<(WriteEvent, Pos)> {
        match byte_read_step(self.input(), self.cursor(), self.parser_state()).0 {
            Ok((p, ByteToken::LeftParen)) => Some((WriteEvent::BeginList, p)),
            Ok((p, ByteToken::RightParen)) => Some((WriteEvent::EndList, p)),
            Ok((p, ByteToken::Atom(a, b))) => Some(
                (WriteEvent::Atom(byte_chars(self.input().subrange(a, b))), p),
            ),
            _ => None,
        }
    }

    open spec fn same_source(&self, other: &Self) -> bool {
        self.input() == other.input()
    }

    proof fn lemma_same_source(a: &Self, b: &Self, c: &Self) {
    }

    closed spec fn reads(&self) -> nat {
        self.tries@
    }

    closed spec fn ends_list_next(&self) -> bool {
        &&& self.state is Parsing
        &&& lex_bytes(self.input(), self.cursor(), ByteLexState::Beginning, usize::MAX).0 matches Ok(
            (_, ByteToken::RightParen),
        )
    }

    fn read(&mut self) -> (r: Result<ReadItem<String, Pos>, Error>)
        ensures
            ({
                let (res, next, st) = byte_read_step(
                    old(self).input(),
                    old(self).cursor(),
                    old(self).parser_state(),
                );
                &&& final(self).input() == old(self).input()
                &&& match (r, res) {
                    (Ok(item), Ok((p, tok))) => read_item_matches(old(self).input(), item, p, tok)
                        && final(self).cursor() == next && final(self).parser_state() == st,
                    (Err(e), Err(se)) => e == se,
                    _ => false,
                }
            }),
    {
        self.tries = Ghost(self.tries@ + 1);
        proof {
            lemma_lex_bytes_bounds(
                self.lexer.data@,
                self.lexer.cursor(),
                ByteLexState::Beginning,
                usize::MAX,
            );
        }
        let ghost log0 = self.log@;
        let (pos, token) = match self.lexer.get_token(usize::MAX) {
            Ok(t) => t,
            Err(e) => {
                return Err(e);
            },
        };
        let kind = match self.state {
            ReadState::Beginning => match token {
                Token::LeftParen => {
                    self.state = ReadState::Parsing { depth: 0 };
                    ReadItemKind::ListBeginning
                },
                Token::Atom(atom) => {
                    self.state = ReadState::Finishing;
                    ReadItemKind::Atom(atom)
                },
                token => {
                    return Err(Error::UnexpectedToken { pos, token });
                },
            },
            ReadState::Parsing { depth } => match token {
                Token::LeftParen => {
                    self.state = ReadState::Parsing { depth: depth + 1 };
                    ReadItemKind::ListBeginning
                },
                Token::RightParen => {
                    if depth == 0 {
                        self.state = ReadState::Finishing;
                    } else {
                        self.state = ReadState::Parsing { depth: depth - 1 };
                    }
                    ReadItemKind::ListEnding
                },
                Token::Atom(atom) => ReadItemKind::Atom(atom),
                Token::Eof => {
                    return Err(Error::UnexpectedToken { pos, token: Token::Eof });
                },
            },
            ReadState::Finishing => {
                return Err(Error::ExpectedEof { pos });
            },
        };
        self.log = Ghost(self.log@.push(kind_event(kind)));
        self.pos_log = Ghost(self.pos_log@.push(pos));
        proof {
            assert(self.log@.drop_last() =~= log0);
        }
        Ok(ReadItem { pos, kind })
    }

    fn finish(self) -> (r: Result<(), Error>)
        ensures
            match lex_bytes(self.input(), self.cursor(), ByteLexState::Beginning, usize::MAX).0 {
                Err(e) => r == Err::<(), Error>(e),
                Ok((_, ByteToken::Eof)) => r is Ok,
                Ok((p, _)) => r == Err::<(), Error>(Error::ExpectedEof { pos: p }),
            },
    {
        let mut lexer = self.lexer;
        match lexer.get_token(usize::MAX) {
            Ok((pos, token)) => match token {
                Token::Eof => Ok(()),
                _ => Err(Error::ExpectedEof { pos }),
            },
            Err(e) => Err(e),
        }
    }
}

} // verus!
