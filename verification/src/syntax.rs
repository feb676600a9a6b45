//! The textual syntax of SISE documents, stated over sequences of characters.
//!
//! Positions here are character indices; `byte_offset` turns them into the
//! byte offsets that the parser reports.
use vstd::prelude::*;

use crate::tree::NodeValue;
use crate::util::{spec_is_atom_chr, spec_is_atom_string_chr};

verus! {

/// The number of bytes of the UTF-8 encoding of `c`.
pub open spec fn utf8_width(c: char) -> nat {
    vstd::utf8::encode_scalar(c as u32).len()
}

/// The byte offset of the character at index `i` of `s`.
pub open spec fn byte_offset(s: Seq<char>, i: int) -> nat {
    vstd::utf8::encode_utf8(s.take(i)).len()
}

/// The kinds of tokens; an atom is given by its range of character indices.
pub enum TokenKind {
    Eof,
    LeftParen,
    RightParen,
    Atom(int, int),
}

/// Syntax errors, at character indices.
pub enum SyntaxError {
    IllegalChr(int, char),
    IllegalChrInString(int, char),
    IllegalChrInComment(int, char),
    UnfinishedString(int),
    UnexpectedEof(int),
    UnexpectedRightParen(int),
    ExpectedEof(int),
}

/// Whether `c` separates tokens without being one.
pub open spec fn is_whitespace(c: char) -> bool {
    c == ' ' || c == '\t' || c == '\n' || c == '\r'
}

/// Whether `c` may appear in a comment.
pub open spec fn is_comment_chr(c: char) -> bool {
    c == '\t' || (' ' <= c && c <= '~')
}

/// Where the atom that continues at index `j` ends (`in_string` tells whether
/// index `j` lies inside a string), or the error that stops it, together
/// with the index where reading stopped.
pub open spec fn atom_end(s: Seq<char>, j: int, in_string: bool) -> (Result<int, SyntaxError>, int)
    decreases s.len() - j,
{
    if j < 0 || j > s.len() {
        (Err(SyntaxError::UnfinishedString(j)), j)
    } else if in_string {
        if j == s.len() {
            (Err(SyntaxError::UnfinishedString(j)), j)
        } else if s[j] == '"' {
            atom_end(s, j + 1, false)
        } else if s[j] == '\\' {
            if j + 1 == s.len() {
                (Err(SyntaxError::UnfinishedString(j + 1)), j + 1)
            } else if s[j + 1] != '"' && s[j + 1] != '\\' && !spec_is_atom_string_chr(s[j + 1]) {
                (Err(SyntaxError::IllegalChrInString(j + 1, s[j + 1])), j + 2)
            } else {
                atom_end(s, j + 2, true)
            }
        } else if !spec_is_atom_string_chr(s[j]) {
            (Err(SyntaxError::IllegalChrInString(j, s[j])), j + 1)
        } else {
            atom_end(s, j + 1, true)
        }
    } else {
        if j < s.len() && s[j] == '"' {
            atom_end(s, j + 1, true)
        } else if j < s.len() && spec_is_atom_chr(s[j]) {
            atom_end(s, j + 1, false)
        } else {
            (Ok(j), j)
        }
    }
}

/// The next token at or after index `i` (skipping whitespace and comments),
/// as its index and kind, or the error that stops it; together with the
/// index where reading stopped.
pub open spec fn lex_token(s: Seq<char>, i: int) -> (Result<(int, TokenKind), SyntaxError>, int)
    decreases s.len() - i, 1int,
{
    if i < 0 || i >= s.len() {
        (Ok((i, TokenKind::Eof)), i)
    } else {
        let c = s[i];
        if is_whitespace(c) {
            lex_token(s, i + 1)
        } else if c == ';' {
            lex_comment(s, i + 1)
        } else if c == '(' {
            (Ok((i, TokenKind::LeftParen)), i + 1)
        } else if c == ')' {
            (Ok((i, TokenKind::RightParen)), i + 1)
        } else if spec_is_atom_chr(c) || c == '"' {
            match atom_end(s, i + 1, c == '"') {
                (Ok(end), next) => (Ok((i, TokenKind::Atom(i, end))), next),
                (Err(e), next) => (Err(e), next),
            }
        } else {
            (Err(SyntaxError::IllegalChr(i, c)), i + 1)
        }
    }
}

/// Like `lex_token`, from index `j` inside a comment.
pub open spec fn lex_comment(s: Seq<char>, j: int) -> (Result<(int, TokenKind), SyntaxError>, int)
    decreases s.len() - j, 0int,
{
    if j < 0 || j >= s.len() {
        (Ok((j, TokenKind::Eof)), j)
    } else if s[j] == '\n' || s[j] == '\r' {
        lex_token(s, j + 1)
    } else if is_comment_chr(s[j]) {
        lex_comment(s, j + 1)
    } else {
        (Err(SyntaxError::IllegalChrInComment(j, s[j])), j + 1)
    }
}


/// Where a parser stands: before the root node, inside the root list (with
/// the number of lists opened inside it), or after the root node.
pub enum ParserState {
    Beginning,
    Parsing(nat),
    Finishing,
}

/// The kinds of items a parser produces; an atom is given by its range of
/// character indices.
pub enum ItemKind {
    Atom(int, int),
    ListStart,
    ListEnd,
}

/// One parsing step from index `i` in state `st`: the item (at its index) or
/// the error, the index where reading stopped and the new state. A parser
/// whose root node is complete (`Finishing`) takes no step.
pub open spec fn next_item_step(s: Seq<char>, i: int, st: ParserState) -> (
    Result<(int, ItemKind), SyntaxError>,
    int,
    ParserState,
) {
    let (t, next) = lex_token(s, i);
    match t {
        Err(e) => (Err(e), next, st),
        Ok((p, k)) => match st {
            ParserState::Beginning => match k {
                TokenKind::Eof => (Err(SyntaxError::UnexpectedEof(p)), next, st),
                TokenKind::LeftParen => (Ok((p, ItemKind::ListStart)), next, ParserState::Parsing(0)),
                TokenKind::RightParen => (Err(SyntaxError::UnexpectedRightParen(p)), next, st),
                TokenKind::Atom(a, b) => (Ok((p, ItemKind::Atom(a, b))), next, ParserState::Finishing),
            },
            ParserState::Parsing(d) => match k {
                TokenKind::Eof => (Err(SyntaxError::UnexpectedEof(p)), next, st),
                TokenKind::LeftParen => (Ok((p, ItemKind::ListStart)), next, ParserState::Parsing(
                    d + 1,
                )),
                TokenKind::RightParen => (
                    Ok((p, ItemKind::ListEnd)),
                    next,
                    if d == 0 {
                        ParserState::Finishing
                    } else {
                        ParserState::Parsing((d - 1) as nat)
                    },
                ),
                TokenKind::Atom(a, b) => (Ok((p, ItemKind::Atom(a, b))), next, st),
            },
            ParserState::Finishing => (Err(SyntaxError::ExpectedEof(p)), next, st),
        },
    }
}

/// Where a parser over `s` stands after `n` steps from the beginning (see
/// `next_item_step`): the index of the next character and its state.
pub open spec fn parse_run(s: Seq<char>, n: nat) -> (int, ParserState)
    decreases n,
{
    if n == 0 {
        (0, ParserState::Beginning)
    } else {
        let (i, st) = parse_run(s, (n - 1) as nat);
        let (_, next, st2) = next_item_step(s, i, st);
        (next, st2)
    }
}

/// What finishing a parser at index `i` gives: nothing but whitespace and
/// comments may follow the root node.
pub open spec fn finish_step(s: Seq<char>, i: int) -> Result<(), SyntaxError> {
    match lex_token(s, i).0 {
        Err(e) => Err(e),
        Ok((p, TokenKind::Eof)) => Ok(()),
        Ok((p, _)) => Err(SyntaxError::ExpectedEof(p)),
    }
}

/// Reading an atom stops between where it started and the end of the input, and
/// an atom ends where reading stopped.
pub proof fn lemma_atom_end_bounds(s: Seq<char>, j: int, in_string: bool)
    requires
        0 <= j <= s.len(),
    ensures
        j <= atom_end(s, j, in_string).1 <= s.len(),
        atom_end(s, j, in_string).0 matches Ok(e) ==> e == atom_end(s, j, in_string).1,
    decreases s.len() - j,
{
    if in_string {
        if j < s.len() {
            if s[j] == '"' {
                lemma_atom_end_bounds(s, j + 1, false);
            } else if s[j] == '\\' {
                if j + 1 < s.len() && !(s[j + 1] != '"' && s[j + 1] != '\\'
                    && !spec_is_atom_string_chr(s[j + 1])) {
                    lemma_atom_end_bounds(s, j + 2, true);
                }
            } else if spec_is_atom_string_chr(s[j]) {
                lemma_atom_end_bounds(s, j + 1, true);
            }
        }
    } else {
        if j < s.len() && s[j] == '"' {
            lemma_atom_end_bounds(s, j + 1, true);
        } else if j < s.len() && spec_is_atom_chr(s[j]) {
            lemma_atom_end_bounds(s, j + 1, false);
        }
    }
}

/// Reading a token never moves backwards nor past the end, a token lies
/// between where reading started and stopped, and reading moves forward
/// unless the end of the input is reached.
pub proof fn lemma_lex_token_bounds(s: Seq<char>, i: int)
    requires
        0 <= i <= s.len(),
    ensures
        i <= lex_token(s, i).1 <= s.len(),
        lex_token(s, i).0 matches Ok((p, k)) ==> i <= p <= lex_token(s, i).1 && (k is Eof
            <==> lex_token(s, i).1 == s.len() && p == s.len()) && (!(k is Eof) ==> p
            < lex_token(s, i).1) && (k matches TokenKind::Atom(a, b) ==> a == p && b
            == lex_token(s, i).1 && a < b),
        lex_token(s, i).0 is Err ==> lex_token(s, i).1 > i,
    decreases s.len() - i, 1int,
{
    if i < s.len() {
        let c = s[i];
        if is_whitespace(c) {
            lemma_lex_token_bounds(s, i + 1);
        } else if c == ';' {
            lemma_lex_comment_bounds(s, i + 1);
        } else if spec_is_atom_chr(c) || c == '"' {
            lemma_atom_end_bounds(s, i + 1, c == '"');
        }
    }
}

proof fn lemma_lex_comment_bounds(s: Seq<char>, j: int)
    requires
        0 <= j <= s.len(),
    ensures
        j <= lex_comment(s, j).1 <= s.len(),
        lex_comment(s, j).0 matches Ok((p, k)) ==> j <= p <= lex_comment(s, j).1 && (k is Eof
            <==> lex_comment(s, j).1 == s.len() && p == s.len()) && (!(k is Eof) ==> p
            < lex_comment(s, j).1) && (k matches TokenKind::Atom(a, b) ==> a == p && b
            == lex_comment(s, j).1 && a < b),
        lex_comment(s, j).0 is Err ==> lex_comment(s, j).1 > j,
    decreases s.len() - j, 0int,
{
    if j < s.len() {
        if s[j] == '\n' || s[j] == '\r' {
            lemma_lex_token_bounds(s, j + 1);
        } else if is_comment_chr(s[j]) {
            lemma_lex_comment_bounds(s, j + 1);
        }
    }
}

proof fn lemma_encode_utf8_concat(a: Seq<char>, b: Seq<char>)
    ensures
        vstd::utf8::encode_utf8(a + b) == vstd::utf8::encode_utf8(a) + vstd::utf8::encode_utf8(b),
    decreases a.len(),
{
    if a.len() == 0 {
        assert(a + b =~= b);
        assert(vstd::utf8::encode_utf8(a) =~= Seq::<u8>::empty());
        assert(vstd::utf8::encode_utf8(a) + vstd::utf8::encode_utf8(b) =~= vstd::utf8::encode_utf8(b));
    } else {
        assert((a + b).drop_first() =~= a.drop_first() + b);
        assert((a + b)[0] == a[0]);
        lemma_encode_utf8_concat(a.drop_first(), b);
        assert(vstd::utf8::encode_utf8(a + b) =~= vstd::utf8::encode_utf8(a) + vstd::utf8::encode_utf8(b));
    }
}

/// The UTF-8 bytes of `s` hold those of its characters from index `x` to
/// index `y` at the byte offset of `x`.
pub proof fn lemma_bytes_of_part(s: Seq<char>, x: int, y: int)
    requires
        0 <= x <= y <= s.len(),
    ensures
        byte_offset(s, x) + vstd::utf8::encode_utf8(s.subrange(x, y)).len()
            <= vstd::utf8::encode_utf8(s).len(),
        vstd::utf8::encode_utf8(s).subrange(
            byte_offset(s, x) as int,
            byte_offset(s, x) + vstd::utf8::encode_utf8(s.subrange(x, y)).len() as int,
        ) == vstd::utf8::encode_utf8(s.subrange(x, y)),
{
    let a = s.take(x);
    let m = s.subrange(x, y);
    let z = s.skip(y);
    assert(s =~= a + m + z);
    lemma_encode_utf8_concat(a + m, z);
    lemma_encode_utf8_concat(a, m);
    let ea = vstd::utf8::encode_utf8(a);
    let em = vstd::utf8::encode_utf8(m);
    let ez = vstd::utf8::encode_utf8(z);
    assert((ea + em + ez).subrange(ea.len() as int, ea.len() + em.len() as int) =~= em);
}

/// The byte offset of the next character is that of the current one plus its width.
pub proof fn lemma_byte_offset_step(s: Seq<char>, i: int)
    requires
        0 <= i < s.len(),
    ensures
        byte_offset(s, i + 1) == byte_offset(s, i) + utf8_width(s[i]),
        byte_offset(s, i) <= byte_offset(s, s.len() as int),
{
    assert(s.take(i + 1) =~= s.take(i) + seq![s[i]]);
    lemma_encode_utf8_concat(s.take(i), seq![s[i]]);
    assert(seq![s[i]].drop_first() =~= Seq::<char>::empty());
    assert(seq![s[i]][0] == s[i]);
    assert(vstd::utf8::encode_utf8(Seq::<char>::empty()) =~= Seq::<u8>::empty());
    assert(vstd::utf8::encode_utf8(seq![s[i]]) =~= vstd::utf8::encode_scalar(s[i] as u32));
    assert(s.take(s.len() as int) =~= s.take(i) + s.skip(i));
    lemma_encode_utf8_concat(s.take(i), s.skip(i));
}

/// Byte offsets grow with character indices.
pub proof fn lemma_byte_offset_mono(s: Seq<char>, i: int, k: int)
    requires
        0 <= i <= k <= s.len(),
    ensures
        byte_offset(s, i) <= byte_offset(s, k),
{
    assert(s.take(k) =~= s.take(i) + s.take(k).skip(i));
    lemma_encode_utf8_concat(s.take(i), s.take(k).skip(i));
}

/// The characters of an atom that begins at index `i` and continues at `j`
/// (inside a string where `in_string` holds), up to where `atom_end` ends it,
/// follow the atom grammar from `j` on.
proof fn lemma_atom_end_accepts(s: Seq<char>, i: int, j: int, in_string: bool)
    requires
        0 <= i < j <= s.len(),
        atom_end(s, j, in_string).0 is Ok,
    ensures
        ({
            let e = atom_end(s, j, in_string).0->Ok_0;
            &&& j <= e <= s.len()
            &&& crate::util::atom_accepts_from(
                s.subrange(i, e),
                j - i,
                if in_string {
                    crate::util::AtomState::InString
                } else {
                    crate::util::AtomState::Normal
                },
            )
        }),
    decreases s.len() - j,
{
    lemma_atom_end_bounds(s, j, in_string);
    let e = atom_end(s, j, in_string).0->Ok_0;
    let sub = s.subrange(i, e);
    assert(sub.len() == e - i);
    if in_string {
        if s[j] == '"' {
            lemma_atom_end_accepts(s, i, j + 1, false);
            assert(sub[j - i] == s[j]);
            assert(crate::util::atom_accepts_from(sub, j - i + 1, crate::util::AtomState::Normal));
        } else if s[j] == '\\' {
            lemma_atom_end_accepts(s, i, j + 2, true);
            assert(sub[j - i] == s[j]);
            assert(sub[j - i + 1] == s[j + 1]);
            assert(crate::util::atom_accepts_from(sub, j - i + 2, crate::util::AtomState::InString));
            assert(crate::util::atom_accepts_from(sub, j - i + 1, crate::util::AtomState::StringBackslash));
        } else {
            lemma_atom_end_accepts(s, i, j + 1, true);
            assert(sub[j - i] == s[j]);
            assert(crate::util::atom_accepts_from(sub, j - i + 1, crate::util::AtomState::InString));
        }
    } else {
        if j < s.len() && s[j] == '"' {
            lemma_atom_end_accepts(s, i, j + 1, true);
            assert(sub[j - i] == s[j]);
            assert(crate::util::atom_accepts_from(sub, j - i + 1, crate::util::AtomState::InString));
        } else if j < s.len() && spec_is_atom_chr(s[j]) {
            lemma_atom_end_accepts(s, i, j + 1, false);
            assert(sub[j - i] == s[j]);
            assert(crate::util::atom_accepts_from(sub, j - i + 1, crate::util::AtomState::Normal));
        } else {
            assert(e == j);
        }
    }
}

/// What a token found by `lex_token` is in the text: a `(` or a `)` at its
/// index, or a valid atom that starts at its index.
pub proof fn lemma_lex_token_text(s: Seq<char>, i: int)
    requires
        0 <= i <= s.len(),
    ensures
        lex_token(s, i).0 matches Ok((p, TokenKind::LeftParen)) ==> 0 <= p < s.len() && s[p]
            == '(',
        lex_token(s, i).0 matches Ok((p, TokenKind::RightParen)) ==> 0 <= p < s.len() && s[p]
            == ')',
        lex_token(s, i).0 matches Ok((p, TokenKind::Atom(a, b))) ==> a == p && 0 <= a < b
            <= s.len() && crate::util::is_valid_atom(s.subrange(a, b)),
    decreases s.len() - i, 1int,
{
    if i < s.len() {
        let c = s[i];
        if is_whitespace(c) {
            lemma_lex_token_text(s, i + 1);
        } else if c == ';' {
            lemma_lex_comment_text(s, i + 1);
        } else if spec_is_atom_chr(c) || c == '"' {
            if atom_end(s, i + 1, c == '"').0 is Ok {
                lemma_atom_end_accepts(s, i, i + 1, c == '"');
                let e = atom_end(s, i + 1, c == '"').0->Ok_0;
                assert(s.subrange(i, e)[0] == c);
            }
        }
    }
}

proof fn lemma_lex_comment_text(s: Seq<char>, j: int)
    requires
        0 <= j <= s.len(),
    ensures
        lex_comment(s, j).0 matches Ok((p, TokenKind::LeftParen)) ==> 0 <= p < s.len() && s[p]
            == '(',
        lex_comment(s, j).0 matches Ok((p, TokenKind::RightParen)) ==> 0 <= p < s.len() && s[p]
            == ')',
        lex_comment(s, j).0 matches Ok((p, TokenKind::Atom(a, b))) ==> a == p && 0 <= a < b
            <= s.len() && crate::util::is_valid_atom(s.subrange(a, b)),
    decreases s.len() - j, 0int,
{
    if j < s.len() {
        if s[j] == '\n' || s[j] == '\r' {
            lemma_lex_token_text(s, j + 1);
        } else if is_comment_chr(s[j]) {
            lemma_lex_comment_text(s, j + 1);
        }
    }
}

/// `frames` (the lists being read, innermost last) with `v` added to the innermost one.
pub open spec fn add_to_innermost(frames: Seq<Seq<NodeValue>>, v: NodeValue) -> Seq<Seq<NodeValue>> {
    frames.update(frames.len() - 1, frames.last().push(v))
}

/// The number of lists opened inside the root list, or `-1` outside it.
pub open spec fn open_lists(st: ParserState) -> int {
    match st {
        ParserState::Parsing(d) => d as int,
        _ => -1,
    }
}

/// Reads the rest of the lists `frames` (innermost last, none complete yet)
/// from index `i` in state `st`: the value of the outermost one or the error,
/// the index where reading stopped and the parser's new state.
pub open spec fn read_items(s: Seq<char>, i: int, st: ParserState, frames: Seq<Seq<NodeValue>>) -> (
    Result<NodeValue, SyntaxError>,
    int,
    ParserState,
)
    decreases s.len() - i,
{
    if frames.len() == 0 || i < 0 || i > s.len() || frames.len() - 1 > open_lists(st) {
        (Err(SyntaxError::UnexpectedEof(i)), i, st)
    } else {
        proof {
            lemma_lex_token_bounds(s, i);
        }
        let (res, next, st2) = next_item_step(s, i, st);
        match res {
            Err(e) => (Err(e), next, st2),
            Ok((p, ItemKind::Atom(a, b))) => read_items(
                s,
                next,
                st2,
                add_to_innermost(frames, NodeValue::Atom(s.subrange(a, b))),
            ),
            Ok((p, ItemKind::ListStart)) => read_items(s, next, st2, frames.push(Seq::empty())),
            Ok((p, ItemKind::ListEnd)) => if frames.len() == 1 {
                (Ok(NodeValue::List(frames[0])), next, st2)
            } else {
                read_items(
                    s,
                    next,
                    st2,
                    add_to_innermost(frames.drop_last(), NodeValue::List(frames.last())),
                )
            },
        }
    }
}

/// Reads one node from index `i` in state `st`: its value or the error, the
/// index where reading stopped and the parser's new state.
pub open spec fn read_tree(s: Seq<char>, i: int, st: ParserState) -> (
    Result<NodeValue, SyntaxError>,
    int,
    ParserState,
) {
    let (res, next, st2) = next_item_step(s, i, st);
    match res {
        Err(e) => (Err(e), next, st2),
        Ok((p, ItemKind::Atom(a, b))) => (Ok(NodeValue::Atom(s.subrange(a, b))), next, st2),
        Ok((p, ItemKind::ListStart)) => read_items(s, next, st2, seq![Seq::empty()]),
        Ok((p, ItemKind::ListEnd)) => (Err(SyntaxError::UnexpectedRightParen(p)), next, st2),
    }
}

/// Space, tab, line feed and carriage return separate tokens without being
/// one: such a character where the next token is looked for changes
/// nothing that is read, neither the next item nor a whole node, nor the
/// rest of an open list.
pub proof fn lemma_whitespace_skipped(
    s: Seq<char>,
    i: int,
    st: ParserState,
    frames: Seq<Seq<NodeValue>>,
)
    requires
        0 <= i < s.len(),
        s[i] == ' ' || s[i] == '\t' || s[i] == '\n' || s[i] == '\r',
    ensures
        lex_token(s, i) == lex_token(s, i + 1),
        next_item_step(s, i, st) == next_item_step(s, i + 1, st),
        read_tree(s, i, st) == read_tree(s, i + 1, st),
        frames.len() > 0 && frames.len() - 1 <= open_lists(st) ==> read_items(s, i, st, frames)
            == read_items(s, i + 1, st, frames),
{
    assert(lex_token(s, i) == lex_token(s, i + 1));
    assert(next_item_step(s, i, st) == next_item_step(s, i + 1, st));
    if frames.len() > 0 && frames.len() - 1 <= open_lists(st) {
        lemma_lex_token_bounds(s, i);
        lemma_lex_token_bounds(s, i + 1);
        assert(read_items(s, i, st, frames) == read_items(s, i + 1, st, frames));
    }
}

/// A comment, from `;` up to a line feed or a carriage return, where the
/// next token is looked for changes nothing that is read: reading from the
/// `;` finds what reading from after the comment finds.
pub proof fn lemma_comment_skipped(s: Seq<char>, i: int, j: int)
    requires
        0 <= i < j < s.len(),
        s[i] == ';',
        forall|k: int| i < k < j ==> is_comment_chr(#[trigger] s[k]),
        s[j] == '\n' || s[j] == '\r',
    ensures
        lex_token(s, i) == lex_token(s, j + 1),
{
    lemma_comment_rest(s, i + 1, j);
}

proof fn lemma_comment_rest(s: Seq<char>, k: int, j: int)
    requires
        0 <= k <= j < s.len(),
        forall|m: int| k <= m < j ==> is_comment_chr(#[trigger] s[m]),
        s[j] == '\n' || s[j] == '\r',
    ensures
        lex_comment(s, k) == lex_token(s, j + 1),
    decreases j - k,
{
    if k < j {
        assert(is_comment_chr(s[k]));
        lemma_comment_rest(s, k + 1, j);
    }
}

/// Whether a node can be read from index `i` in state `st`: the root node is
/// not complete and the next item does not close a list.
pub open spec fn can_read_node(s: Seq<char>, i: int, st: ParserState) -> bool {
    &&& !(st is Finishing)
    &&& !(next_item_step(s, i, st).0 matches Ok((_, ItemKind::ListEnd)))
}

/// `parts` joined with single spaces.
pub open spec fn join_with_spaces(parts: Seq<Seq<char>>) -> Seq<char>
    decreases parts.len(),
{
    if parts.len() == 0 {
        Seq::empty()
    } else if parts.len() == 1 {
        parts[0]
    } else {
        join_with_spaces(parts.drop_last()) + seq![' '] + parts.last()
    }
}

/// The compact text of a node: an atom as it is, a list as `(`, its items
/// separated by single spaces, and `)`.
pub open spec fn compact_text(v: NodeValue) -> Seq<char>
    decreases v, 1int,
{
    match v {
        NodeValue::Atom(a) => a,
        NodeValue::List(items) => seq!['('] + join_with_spaces(compact_parts(items)) + seq![')'],
    }
}

/// Whether every atom of `v` is a valid atom.
pub open spec fn is_valid_tree(v: NodeValue) -> bool
    decreases v,
{
    match v {
        NodeValue::Atom(a) => crate::util::is_valid_atom(a),
        NodeValue::List(items) => forall|k: int|
            0 <= k < items.len() ==> is_valid_tree(#[trigger] items[k]),
    }
}

/// Whether `c` ends an atom that it follows.
pub open spec fn ends_atom(c: char) -> bool {
    !spec_is_atom_chr(c) && c != '"'
}

/// The compact texts of `items`.
pub open spec fn compact_parts(items: Seq<NodeValue>) -> Seq<Seq<char>>
    decreases items, 0int,
{
    Seq::new(
        items.len(),
        |k: int|
            if 0 <= k < items.len() {
                compact_text(items[k])
            } else {
                Seq::empty()
            },
    )
}

proof fn lemma_atom_end_valid(s: Seq<char>, i: int, a: Seq<char>, k: int, in_string: bool)
    requires
        1 <= k <= a.len(),
        crate::util::atom_accepts_from(
            a,
            k,
            if in_string {
                crate::util::AtomState::InString
            } else {
                crate::util::AtomState::Normal
            },
        ),
        0 <= i,
        i + a.len() <= s.len(),
        s.subrange(i, i + a.len()) == a,
        i + a.len() < s.len() ==> ends_atom(s[i + a.len()]),
    ensures
        atom_end(s, i + k, in_string) == (Ok::<int, SyntaxError>(i + a.len()), i + a.len()),
    decreases a.len() - k,
{
    let j = i + k;
    if k < a.len() {
        assert(s[j] == a[k]);
        if in_string && a[k] == '\\' {
            assert(crate::util::atom_accepts_from(a, k + 1, crate::util::AtomState::StringBackslash));
            assert(k + 1 < a.len());
            assert(s[j + 1] == a[k + 1]);
            lemma_atom_end_valid(s, i, a, k + 2, true);
        } else if in_string {
            if a[k] == '"' {
                lemma_atom_end_valid(s, i, a, k + 1, false);
            } else {
                lemma_atom_end_valid(s, i, a, k + 1, true);
            }
        } else {
            if a[k] == '"' {
                lemma_atom_end_valid(s, i, a, k + 1, true);
            } else {
                lemma_atom_end_valid(s, i, a, k + 1, false);
            }
        }
    }
}

/// A valid atom followed by a character that ends it (or by nothing) is read
/// as one atom token.
pub proof fn lemma_lex_valid_atom(s: Seq<char>, i: int, a: Seq<char>)
    requires
        crate::util::is_valid_atom(a),
        0 <= i,
        i + a.len() <= s.len(),
        s.subrange(i, i + a.len()) == a,
        i + a.len() < s.len() ==> ends_atom(s[i + a.len()]),
    ensures
        a.len() > 0,
        lex_token(s, i) == (
            Ok::<(int, TokenKind), SyntaxError>((i, TokenKind::Atom(i, i + a.len()))),
            i + a.len(),
        ),
{
    assert(a.len() > 0);
    assert(s[i] == a[0]);
    lemma_atom_end_valid(s, i, a, 1, a[0] == '"');
}

proof fn lemma_skip_space(s: Seq<char>, p: int, st: ParserState, frames: Seq<Seq<NodeValue>>)
    requires
        0 <= p < s.len(),
        s[p] == ' ',
        frames.len() > 0,
        frames.len() - 1 <= open_lists(st),
    ensures
        read_items(s, p, st, frames) == read_items(s, p + 1, st, frames),
{
    assert(next_item_step(s, p, st) == next_item_step(s, p + 1, st));
}

proof fn lemma_join_step(parts: Seq<Seq<char>>, m: int)
    requires
        0 <= m < parts.len(),
    ensures
        join_with_spaces(parts.take(m + 1)) == if m == 0 {
            parts[0]
        } else {
            join_with_spaces(parts.take(m)) + seq![' '] + parts[m]
        },
{
    assert(parts.take(m + 1).drop_last() =~= parts.take(m));
    assert(parts.take(m + 1).last() == parts[m]);
    if m == 0 {
        assert(parts.take(1)[0] == parts[0]);
    }
}

proof fn lemma_join_prefix(parts: Seq<Seq<char>>, m: int, n: int)
    requires
        0 <= m <= n <= parts.len(),
    ensures
        join_with_spaces(parts.take(m)).len() <= join_with_spaces(parts.take(n)).len(),
        join_with_spaces(parts.take(n)).subrange(0, join_with_spaces(parts.take(m)).len() as int)
            == join_with_spaces(parts.take(m)),
    decreases n - m,
{
    if m < n {
        lemma_join_prefix(parts, m, n - 1);
        lemma_join_step(parts, n - 1);
        let a = join_with_spaces(parts.take(m));
        let b = join_with_spaces(parts.take(n - 1));
        let c = join_with_spaces(parts.take(n));
        if n - 1 == 0 {
            assert(parts.take(0) =~= Seq::<Seq<char>>::empty());
            assert(a =~= Seq::<char>::empty());
            assert(c.subrange(0, 0) =~= a);
        } else {
            assert(c =~= b + seq![' '] + parts[n - 1]);
            assert(c.subrange(0, a.len() as int) =~= b.subrange(0, a.len() as int));
        }
    } else {
        let c = join_with_spaces(parts.take(n));
        assert(c.subrange(0, c.len() as int) =~= c);
    }
}

/// Reading a node's compact text, from a list in state `Parsing(d)`, adds
/// the node to the innermost open list and leaves the state as it was.
proof fn lemma_read_value(s: Seq<char>, i: int, v: NodeValue, d: nat, frames: Seq<Seq<NodeValue>>)
    requires
        is_valid_tree(v),
        0 <= i,
        i + compact_text(v).len() <= s.len(),
        s.subrange(i, i + compact_text(v).len()) == compact_text(v),
        i + compact_text(v).len() < s.len() ==> ends_atom(s[i + compact_text(v).len()]),
        frames.len() >= 1,
        frames.len() - 1 <= d,
    ensures
        read_items(s, i, ParserState::Parsing(d), frames) == read_items(
            s,
            i + compact_text(v).len(),
            ParserState::Parsing(d),
            add_to_innermost(frames, v),
        ),
    decreases v, 1int, 0int,
{
    match v {
        NodeValue::Atom(a) => {
            lemma_lex_valid_atom(s, i, a);
        },
        NodeValue::List(items) => {
            let parts = compact_parts(items);
            let body = join_with_spaces(parts);
            let c = compact_text(v);
            assert(c == seq!['('] + body + seq![')']);
            assert(s[i] == c[0]);
            assert(s[i + 1 + body.len()] == c[1 + body.len() as int]);
            assert(s.subrange(i + 1, i + 1 + body.len()) =~= c.subrange(1, 1 + body.len() as int));
            assert(c.subrange(1, 1 + body.len() as int) =~= body);
            let inner = frames.push(Seq::empty());
            assert(next_item_step(s, i, ParserState::Parsing(d)) == (
                Ok::<(int, ItemKind), SyntaxError>((i, ItemKind::ListStart)),
                i + 1,
                ParserState::Parsing(d + 1),
            ));
            assert(items.take(0) =~= Seq::<NodeValue>::empty());
            lemma_read_items_of(s, i + 1, v, 0, d + 1, frames);
            assert(items.take(items.len() as int) =~= items);
            assert(parts.take(parts.len() as int) =~= parts);
            let e = i + 1 + body.len();
            assert(next_item_step(s, e, ParserState::Parsing(d + 1)) == (
                Ok::<(int, ItemKind), SyntaxError>((e, ItemKind::ListEnd)),
                e + 1,
                ParserState::Parsing(d),
            ));
            let full = frames.push(items);
            assert(full.drop_last() =~= frames);
            assert(full.last() == items);
        },
    }
}

/// Where part `k` of `parts`, joined with spaces at index `i0` of `s`, lies:
/// after a space unless it is the first, and followed by a space unless it
/// is the last.
proof fn lemma_part_text(s: Seq<char>, i0: int, parts: Seq<Seq<char>>, k: int)
    requires
        0 <= k < parts.len(),
        0 <= i0,
        i0 + join_with_spaces(parts).len() <= s.len(),
        s.subrange(i0, i0 + join_with_spaces(parts).len()) == join_with_spaces(parts),
    ensures
        ({
            let pk = i0 + join_with_spaces(parts.take(k)).len();
            let start = if k == 0 { pk } else { pk + 1 };
            let after = start + parts[k].len();
            &&& k > 0 ==> s[pk] == ' '
            &&& i0 + join_with_spaces(parts.take(k + 1)).len() == after
            &&& after <= i0 + join_with_spaces(parts).len()
            &&& s.subrange(start, after) == parts[k]
            &&& k + 1 < parts.len() ==> s[after] == ' '
            &&& k + 1 == parts.len() ==> after == i0 + join_with_spaces(parts).len()
        }),
{
    let n = parts.len() as int;
    let body = join_with_spaces(parts);
    assert(parts.take(n) =~= parts);
    let jk = join_with_spaces(parts.take(k));
    let jk1 = join_with_spaces(parts.take(k + 1));
    let pk = i0 + jk.len();
    lemma_join_step(parts, k);
    lemma_join_prefix(parts, k + 1, n);
    let start = if k == 0 { pk } else { pk + 1 };
    let ct = parts[k];
    assert(s.subrange(i0, i0 + jk1.len()) =~= body.subrange(0, jk1.len() as int));
    assert(jk1.len() == start - i0 + ct.len());
    assert(s.subrange(start, start + ct.len()) =~= jk1.subrange(start - i0, jk1.len() as int));
    assert(jk1.subrange(start - i0, jk1.len() as int) =~= ct);
    let after = start + ct.len();
    if k + 1 < n {
        lemma_join_step(parts, k + 1);
        lemma_join_prefix(parts, k + 2, n);
        let jk2 = join_with_spaces(parts.take(k + 2));
        assert(jk2 =~= jk1 + seq![' '] + parts[k + 1]);
        assert(s.subrange(i0, i0 + jk2.len()) =~= body.subrange(0, jk2.len() as int));
        assert(s[after] == jk2[jk1.len() as int]);
    }
    if k > 0 {
        assert(s[pk] == jk1[jk.len() as int]);
    }
}

/// The items of a list whose atoms are valid have valid atoms.
pub proof fn lemma_valid_item(items: Seq<NodeValue>, k: int)
    requires
        is_valid_tree(NodeValue::List(items)),
        0 <= k < items.len(),
    ensures
        is_valid_tree(items[k]),
        compact_parts(items)[k] == compact_text(items[k]),
        compact_parts(items).len() == items.len(),
{
    let v = NodeValue::List(items);
    assert(v is List);
    assert(v->List_0 == items);
    assert(forall|j: int| 0 <= j < v->List_0.len() ==> is_valid_tree(#[trigger] v->List_0[j]));
}

/// Reading the compact texts of the items of the list `v` from the `k`-th
/// on, in state `Parsing(dd)`, collects them into the innermost open list.
proof fn lemma_read_items_of(
    s: Seq<char>,
    i0: int,
    v: NodeValue,
    k: int,
    dd: nat,
    frames: Seq<Seq<NodeValue>>,
)
    requires
        v is List,
        is_valid_tree(v),
        0 <= k <= v->List_0.len(),
        0 <= i0,
        i0 + join_with_spaces(compact_parts(v->List_0)).len() < s.len(),
        s.subrange(i0, i0 + join_with_spaces(compact_parts(v->List_0)).len()) == join_with_spaces(
            compact_parts(v->List_0),
        ),
        s[i0 + join_with_spaces(compact_parts(v->List_0)).len()] == ')',
        frames.len() <= dd,
    ensures
        read_items(
            s,
            i0 + join_with_spaces(compact_parts(v->List_0).take(k)).len(),
            ParserState::Parsing(dd),
            frames.push(v->List_0.take(k)),
        ) == read_items(
            s,
            i0 + join_with_spaces(compact_parts(v->List_0)).len(),
            ParserState::Parsing(dd),
            frames.push(v->List_0),
        ),
    decreases v, 0int, v->List_0.len() - k,
{
    let items = v->List_0;
    let parts = compact_parts(items);
    let n = items.len() as int;
    if k < n {
        assert(parts.take(n) =~= parts);
        assert(items.take(n) =~= items);
        let item = items[k];
        assert(decreases_to!(v => v->List_0));
        assert(decreases_to!(v->List_0 => v->List_0[k]));
        lemma_valid_item(items, k);
        lemma_part_text(s, i0, parts, k);
        let pk = i0 + join_with_spaces(parts.take(k)).len();
        let start = if k == 0 { pk } else { pk + 1 };
        let fk = frames.push(items.take(k));
        if k > 0 {
            lemma_skip_space(s, pk, ParserState::Parsing(dd), fk);
        }
        lemma_read_value(s, start, item, dd, fk);
        assert(items.take(k).push(item) =~= items.take(k + 1));
        assert(add_to_innermost(fk, item) =~= frames.push(items.take(k + 1)));
        lemma_read_items_of(s, i0, v, k + 1, dd, frames);
    } else {
        assert(parts.take(n) =~= parts);
        assert(items.take(n) =~= items);
    }
}

/// The compact text of a tree whose atoms are valid is read back as the same
/// tree, and nothing follows it.
pub proof fn lemma_compact_roundtrip(v: NodeValue)
    requires
        is_valid_tree(v),
    ensures
        read_tree(compact_text(v), 0, ParserState::Beginning) == (
            Ok::<NodeValue, SyntaxError>(v),
            compact_text(v).len() as int,
            ParserState::Finishing,
        ),
        finish_step(compact_text(v), compact_text(v).len() as int) == Ok::<(), SyntaxError>(()),
{
    let c = compact_text(v);
    assert(c.subrange(0, c.len() as int) =~= c);
    match v {
        NodeValue::Atom(a) => {
            lemma_lex_valid_atom(c, 0, a);
        },
        NodeValue::List(items) => {
            let parts = compact_parts(items);
            let body = join_with_spaces(parts);
            assert(c == seq!['('] + body + seq![')']);
            assert(c.subrange(1, 1 + body.len() as int) =~= body);
            assert(items.take(0) =~= Seq::<NodeValue>::empty());
            assert(parts.take(0) =~= Seq::<Seq<char>>::empty());
            lemma_read_items_of(c, 1, v, 0, 0, Seq::empty());
            assert(items.take(items.len() as int) =~= items);
            assert(Seq::<Seq<NodeValue>>::empty().push(items) =~= seq![items]);
            assert(Seq::<Seq<NodeValue>>::empty().push(Seq::<NodeValue>::empty()) =~= seq![Seq::<NodeValue>::empty()]);
        },
    }
}
} // verus!
