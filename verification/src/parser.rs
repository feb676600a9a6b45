//! A pull parser that turns a SISE document into a sequence of items.
use vstd::prelude::*;
use vstd::string::StrSliceExecFns;

use crate::syntax::{
    atom_end, byte_offset, finish_step, lemma_lex_token_bounds, next_item_step, ParserState, lemma_atom_end_bounds, lemma_byte_offset_mono, lemma_byte_offset_step,
    lex_comment, lex_token, lemma_bytes_of_part, lemma_lex_token_text, parse_run, utf8_width, ItemKind, SyntaxError, TokenKind,
};
use crate::atom::{encode_u64, int_repr};
use crate::text::{char_debug_text, chars_of, debug_char, push_str};
use crate::read_util::ErrorText;
use crate::reader::{ReadItem, ReadItemKind, Reader};
use crate::util::{is_atom_chr, is_atom_string_chr, is_valid_atom, spec_is_atom_chr};
use crate::writer::{writer_phase, WriteEvent, WriterPhase};

verus! {

/// An item produced by `Parser::next_item`.
#[derive(Copy, Clone, Debug, PartialEq, Eq)]
pub enum ParsedItem<'a> {
    /// An atom; the `usize` is its byte offset in the input.
    Atom(&'a str, usize),
    /// The start of a list (`(`); the `usize` is its byte offset in the input.
    ListStart(usize),
    /// The end of a list (`)`); the `usize` is its byte offset in the input.
    ListEnd(usize),
}

/// A parse error. Positions are byte offsets in the input.
#[derive(Clone, Debug, PartialEq, Eq, Structural)]
pub enum ParseError {
    /// There is an invalid character.
    IllegalChr { pos: usize, chr: char },
    /// There is an invalid character inside a string (enclosed with `"`).
    IllegalChrInString { pos: usize, chr: char },
    /// There is an invalid character inside a comment.
    IllegalChrInComment { pos: usize, chr: char },
    /// End-of-file is reached before finding the closing `"`.
    UnfinishedString { pos: usize },
    /// Unexpected end-of-file.
    UnexpectedEof { pos: usize },
    /// Unexpected `)`.
    UnexpectedRightParen { pos: usize },
    /// Found a token when expecting end-of-file.
    ExpectedEof { pos: usize },
}

/// The message of each parse error, with its byte offset.
pub open spec fn parse_error_message(e: ParseError) -> Seq<char> {
    match e {
        ParseError::IllegalChr { pos, chr } => "illegal character "@ + char_debug_text(chr)
            + " at byte "@ + int_repr(pos as int),
        ParseError::IllegalChrInString { pos, chr } => "illegal character "@ + char_debug_text(chr)
            + " in string at byte "@ + int_repr(pos as int),
        ParseError::IllegalChrInComment { pos, chr } => "illegal character "@ + char_debug_text(
            chr,
        ) + " in comment at byte "@ + int_repr(pos as int),
        ParseError::UnfinishedString { pos } => "unfinished string at byte "@ + int_repr(pos as int),
        ParseError::UnexpectedEof { pos } => "unexpected end-of-file at byte "@ + int_repr(
            pos as int,
        ),
        ParseError::UnexpectedRightParen { pos } => "unexpected `)` at byte "@ + int_repr(
            pos as int,
        ),
        ParseError::ExpectedEof { pos } => "expected end-of-file at byte "@ + int_repr(pos as int),
    }
}

fn push_offset(s: &mut String, pos: usize)
    ensures
        final(s)@ == old(s)@ + int_repr(pos as int),
{
    let n = encode_u64(pos as u64);
    push_str(s, n.as_str());
}

fn push_char_debug(s: &mut String, c: char)
    ensures
        final(s)@ == old(s)@ + char_debug_text(c),
{
    let d = debug_char(c);
    push_str(s, d.as_str());
}

impl ParseError {
    /// The message of the error (see `parse_error_message`).
    pub fn to_string(&self) -> (r: String)
        ensures
            r@ == parse_error_message(*self),
    {
        let mut s = String::new();
        match self {
            ParseError::IllegalChr { pos, chr } => {
                push_str(&mut s, "illegal character ");
                push_char_debug(&mut s, *chr);
                push_str(&mut s, " at byte ");
                push_offset(&mut s, *pos);
            },
            ParseError::IllegalChrInString { pos, chr } => {
                push_str(&mut s, "illegal character ");
                push_char_debug(&mut s, *chr);
                push_str(&mut s, " in string at byte ");
                push_offset(&mut s, *pos);
            },
            ParseError::IllegalChrInComment { pos, chr } => {
                push_str(&mut s, "illegal character ");
                push_char_debug(&mut s, *chr);
                push_str(&mut s, " in comment at byte ");
                push_offset(&mut s, *pos);
            },
            ParseError::UnfinishedString { pos } => {
                push_str(&mut s, "unfinished string at byte ");
                push_offset(&mut s, *pos);
            },
            ParseError::UnexpectedEof { pos } => {
                push_str(&mut s, "unexpected end-of-file at byte ");
                push_offset(&mut s, *pos);
            },
            ParseError::UnexpectedRightParen { pos } => {
                push_str(&mut s, "unexpected `)` at byte ");
                push_offset(&mut s, *pos);
            },
            ParseError::ExpectedEof { pos } => {
                push_str(&mut s, "expected end-of-file at byte ");
                push_offset(&mut s, *pos);
            },
        }
        assert(s@ =~= parse_error_message(*self));
        s
    }
}

impl ErrorText for ParseError {
    open spec fn text(&self) -> Seq<char> {
        parse_error_message(*self)
    }

    /// `ParseError` has no description of its own: this is the text that
    /// `std::error::Error::description` gives by default.
    open spec fn description_text(&self) -> Seq<char> {
        "description() is deprecated; use Display"@
    }

    fn to_string(&self) -> (r: String) {
        ParseError::to_string(self)
    }

    fn description(&self) -> (r: &str) {
        "description() is deprecated; use Display"
    }
}

/// The byte offset of character index `i` of `s`, as a `usize`.
pub open spec fn offset_at(s: Seq<char>, i: int) -> usize {
    byte_offset(s, i) as usize
}

/// The parse error that reports the syntax error `e` of the input `s`.
pub open spec fn error_at(s: Seq<char>, e: SyntaxError) -> ParseError {
    match e {
        SyntaxError::IllegalChr(i, c) => ParseError::IllegalChr { pos: offset_at(s, i), chr: c },
        SyntaxError::IllegalChrInString(i, c) => ParseError::IllegalChrInString {
            pos: offset_at(s, i),
            chr: c,
        },
        SyntaxError::IllegalChrInComment(i, c) => ParseError::IllegalChrInComment {
            pos: offset_at(s, i),
            chr: c,
        },
        SyntaxError::UnfinishedString(i) => ParseError::UnfinishedString { pos: offset_at(s, i) },
        SyntaxError::UnexpectedEof(i) => ParseError::UnexpectedEof { pos: offset_at(s, i) },
        SyntaxError::UnexpectedRightParen(i) => ParseError::UnexpectedRightParen {
            pos: offset_at(s, i),
        },
        SyntaxError::ExpectedEof(i) => ParseError::ExpectedEof { pos: offset_at(s, i) },
    }
}

/// Whether `item` is the item of kind `k` found at character index `p` of `s`.
pub open spec fn item_matches(s: Seq<char>, item: ParsedItem, p: int, k: ItemKind) -> bool {
    match item {
        ParsedItem::Atom(a, pos) => k matches ItemKind::Atom(x, y) && a@ == s.subrange(x, y) && pos
            == offset_at(s, p),
        ParsedItem::ListStart(pos) => k is ListStart && pos == offset_at(s, p),
        ParsedItem::ListEnd(pos) => k is ListEnd && pos == offset_at(s, p),
    }
}

/// The event of an item of kind `k` found in `s`.
pub open spec fn step_event(s: Seq<char>, k: ItemKind) -> WriteEvent {
    match k {
        ItemKind::Atom(x, y) => WriteEvent::Atom(s.subrange(x, y)),
        ItemKind::ListStart => WriteEvent::BeginList,
        ItemKind::ListEnd => WriteEvent::EndList,
    }
}

/// The outcome of step `n + 1` of a parser over `s`: the item (at its
/// index) or the error.
pub open spec fn parse_step_result(s: Seq<char>, n: nat) -> Result<(int, ItemKind), SyntaxError> {
    next_item_step(s, parse_run(s, n).0, parse_run(s, n).1).0
}

/// The events of the items that the first `n` steps of a parser over `s`
/// give; a step that fails gives none.
pub open spec fn parse_run_events(s: Seq<char>, n: nat) -> Seq<WriteEvent>
    decreases n,
{
    if n == 0 {
        Seq::empty()
    } else {
        parse_run_events(s, (n - 1) as nat) + match parse_step_result(s, (n - 1) as nat) {
            Ok((_, k)) => seq![step_event(s, k)],
            Err(_) => Seq::empty(),
        }
    }
}

/// The items of fewer steps of a parser begin those of more steps.
pub proof fn lemma_parse_run_events_prefix(s: Seq<char>, m: nat, n: nat)
    requires
        m <= n,
    ensures
        parse_run_events(s, m).len() <= parse_run_events(s, n).len(),
        parse_run_events(s, n).take(parse_run_events(s, m).len() as int) == parse_run_events(s, m),
    decreases n - m,
{
    if m < n {
        lemma_parse_run_events_prefix(s, m, (n - 1) as nat);
        let a = parse_run_events(s, m);
        let b = parse_run_events(s, (n - 1) as nat);
        assert(parse_run_events(s, n).take(a.len() as int) =~= b.take(a.len() as int));
    } else {
        assert(parse_run_events(s, n).take(parse_run_events(s, n).len() as int) =~= parse_run_events(s, n));
    }
}

/// Whether `item` stands in `bytes`, the UTF-8 bytes of the input, at its
/// byte offset: a valid atom, an opening or a closing parenthesis.
pub open spec fn item_in_bytes(bytes: Seq<u8>, item: ParsedItem) -> bool {
    match item {
        ParsedItem::Atom(a, i) => {
            &&& is_valid_atom(a@)
            &&& i + vstd::utf8::encode_utf8(a@).len() <= bytes.len()
            &&& bytes.subrange(i as int, i + vstd::utf8::encode_utf8(a@).len() as int)
                == vstd::utf8::encode_utf8(a@)
        },
        ParsedItem::ListStart(i) => i < bytes.len() && bytes[i as int] == 0x28u8,
        ParsedItem::ListEnd(i) => i < bytes.len() && bytes[i as int] == 0x29u8,
    }
}

/// Parser that decodes a SISE document into a sequence of `ParsedItem`.
pub struct Parser<'a> {
    lexer: Lexer<'a>,
    state: State,
    log: Ghost<Seq<WriteEvent>>,
    pos_log: Ghost<Seq<BytePos>>,
    tries: Ghost<nat>,
}

/// A position given as a byte offset in the input.
#[derive(Copy, Clone, Debug, PartialEq, Eq, Hash, Structural)]
pub struct BytePos(pub usize);

/// The event that an item read by a parser stands for.
pub open spec fn parsed_event(item: ParsedItem) -> WriteEvent {
    match item {
        ParsedItem::Atom(a, _) => WriteEvent::Atom(a@),
        ParsedItem::ListStart(_) => WriteEvent::BeginList,
        ParsedItem::ListEnd(_) => WriteEvent::EndList,
    }
}

/// The byte offset of an item read by a parser.
pub open spec fn parsed_pos(item: ParsedItem) -> usize {
    match item {
        ParsedItem::Atom(_, p) => p,
        ParsedItem::ListStart(p) => p,
        ParsedItem::ListEnd(p) => p,
    }
}

/// The writer phase that a parser state stands for.
pub open spec fn parser_phase(st: ParserState) -> WriterPhase {
    match st {
        ParserState::Beginning => WriterPhase::Beginning,
        ParserState::Parsing(d) => WriterPhase::Writing(d),
        ParserState::Finishing => WriterPhase::Finished,
    }
}

enum State {
    Beginning,
    Parsing { depth: usize },
    Finishing,
}

enum Token<'a> {
    Eof,
    LeftParen,
    RightParen,
    Atom(&'a str),
}

struct Lexer<'a> {
    input: &'a str,
    chars: Vec<char>,
    pos: usize,
    offset: usize,
}

/// The number of bytes of the UTF-8 encoding of `c`.
fn char_width(c: char) -> (w: usize)
    ensures
        w == utf8_width(c),
{
    let v = c as u32;
    proof {
        vstd::utf8::char_is_scalar(c);
    }
    if v < 0x80 {
        1
    } else if v < 0x800 {
        2
    } else if v < 0x10000 {
        3
    } else {
        4
    }
}

impl<'a> Lexer<'a> {
    spec fn wf(&self) -> bool {
        &&& self.chars@ == self.input@
        &&& self.pos <= self.chars@.len()
        &&& self.offset == byte_offset(self.chars@, self.pos as int)
        &&& byte_offset(self.chars@, self.chars@.len() as int) <= usize::MAX
    }

    fn new(input: &'a str) -> (l: Self)
        ensures
            l.wf(),
            l.chars@ == input@,
            l.pos == 0,
    {
        let chars = chars_of(input);
        let ghost s = chars@;
        proof {
            assert(s.take(s.len() as int) =~= s);
            assert(s.take(0) =~= Seq::<char>::empty());
            assert(vstd::utf8::encode_utf8(Seq::<char>::empty()) =~= Seq::<u8>::empty());
        }
        let bytes = input.as_bytes();
        let _len = bytes.len();
        proof {
            assert(bytes@ == vstd::utf8::encode_utf8(s));
        }
        Lexer { input, chars, pos: 0, offset: 0 }
    }

    #[verifier::when_used_as_spec(spec_at_end)]
    fn at_end(&self) -> (r: bool)
        requires
            self.wf(),
        ensures
            r == (self.pos == self.chars@.len()),
    {
        self.pos == self.chars.len()
    }

    spec fn spec_at_end(&self) -> bool {
        self.pos == self.chars@.len()
    }

    /// Consumes the next character.
    fn eat_any_char(&mut self) -> (r: Option<char>)
        requires
            old(self).wf(),
        ensures
            final(self).wf(),
            final(self).chars@ == old(self).chars@,
            final(self).input == old(self).input,
            if old(self).pos < old(self).chars@.len() {
                r == Some(old(self).chars@[old(self).pos as int]) && final(self).pos == old(self).pos
                    + 1
            } else {
                r is None && final(self).pos == old(self).pos
            },
    {
        if self.pos < self.chars.len() {
            let c = self.chars[self.pos];
            let w = char_width(c);
            proof {
                lemma_byte_offset_step(self.chars@, self.pos as int);
                lemma_byte_offset_mono(self.chars@, self.pos + 1, self.chars@.len() as int);
            }
            self.pos = self.pos + 1;
            self.offset = self.offset + w;
            Some(c)
        } else {
            None
        }
    }

    /// Consumes the next character if it is `chr`.
    fn eat_char(&mut self, chr: char) -> (r: bool)
        requires
            old(self).wf(),
        ensures
            final(self).wf(),
            final(self).chars@ == old(self).chars@,
            final(self).input == old(self).input,
            r == (old(self).pos < old(self).chars@.len() && old(self).chars@[old(self).pos as int]
                == chr),
            final(self).pos == if r { old(self).pos + 1 } else { old(self).pos as int },
    {
        if self.pos < self.chars.len() && self.chars[self.pos] == chr {
            let _ = self.eat_any_char();
            true
        } else {
            false
        }
    }

    /// Consumes the next character if `pred` holds for it.
    fn eat_char_if(&mut self, pred: impl Fn(char) -> bool) -> (r: bool)
        requires
            old(self).wf(),
            forall|c: char| call_requires(pred, (c,)),
        ensures
            final(self).wf(),
            final(self).chars@ == old(self).chars@,
            final(self).input == old(self).input,
            r ==> old(self).pos < old(self).chars@.len() && call_ensures(
                pred,
                (old(self).chars@[old(self).pos as int],),
                true,
            ),
            !r ==> old(self).pos == old(self).chars@.len() || call_ensures(
                pred,
                (old(self).chars@[old(self).pos as int],),
                false,
            ),
            final(self).pos == if r { old(self).pos + 1 } else { old(self).pos as int },
    {
        if self.pos < self.chars.len() && pred(self.chars[self.pos]) {
            let _ = self.eat_any_char();
            true
        } else {
            false
        }
    }
}


/// Whether the token `t` is the token of kind `k` of the input `s`.
spec fn token_matches(s: Seq<char>, t: Token, k: TokenKind) -> bool {
    match t {
        Token::Eof => k is Eof,
        Token::LeftParen => k is LeftParen,
        Token::RightParen => k is RightParen,
        Token::Atom(a) => k matches TokenKind::Atom(x, y) && a@ == s.subrange(x, y),
    }
}

impl<'a> Lexer<'a> {
    /// Reads the rest of an atom whose first character `first_chr` has been
    /// consumed; returns the byte offset where the atom ends.
    fn lex_atom(&mut self, first_chr: char) -> (r: Result<usize, ParseError>)
        requires
            old(self).wf(),
        ensures
            final(self).wf(),
            final(self).chars@ == old(self).chars@,
            final(self).input == old(self).input,
            final(self).pos == atom_end(old(self).chars@, old(self).pos as int, first_chr == '"').1,
            match (r, atom_end(old(self).chars@, old(self).pos as int, first_chr == '"').0) {
                (Ok(o), Ok(e)) => o == offset_at(old(self).chars@, e),
                (Err(err), Err(se)) => err == error_at(old(self).chars@, se),
                _ => false,
            },
    {
        let ghost s = self.chars@;
        let ghost start = self.pos as int;
        let mut in_string = first_chr == '"';
        loop
            invariant
                self.wf(),
                self.chars@ == s,
                s == old(self).chars@,
                self.input == old(self).input,
                start == old(self).pos,
                start <= self.pos,
                atom_end(s, start, first_chr == '"') == atom_end(s, self.pos as int, in_string),
            decreases s.len() - self.pos,
        {
            let ghost j = self.pos as int;
            let chr_pos = self.offset;
            if in_string {
                if self.eat_char('"') {
                    in_string = false;
                } else if self.eat_char('\\') {
                    let chr_pos = self.offset;
                    if let Some(chr) = self.eat_any_char() {
                        if chr != '"' && chr != '\\' && !is_atom_string_chr(chr) {
                            return Err(ParseError::IllegalChrInString { chr, pos: chr_pos });
                        }
                    } else {
                        return Err(ParseError::UnfinishedString { pos: chr_pos });
                    }
                } else if let Some(chr) = self.eat_any_char() {
                    if !is_atom_string_chr(chr) {
                        return Err(ParseError::IllegalChrInString { chr, pos: chr_pos });
                    }
                } else {
                    return Err(ParseError::UnfinishedString { pos: chr_pos });
                }
            } else if self.eat_char('"') {
                in_string = true;
            } else if !self.eat_char_if(is_atom_chr) {
                return Ok(chr_pos);
            }
        }
    }

    /// Skips the rest of a comment whose `;` has been consumed. Returns
    /// `Ok(None)` after the line break that ends it, or the end-of-file token.
    fn skip_comment(&mut self) -> (r: Result<Option<(usize, Token<'a>)>, ParseError>)
        requires
            old(self).wf(),
        ensures
            final(self).wf(),
            final(self).chars@ == old(self).chars@,
            final(self).input == old(self).input,
            match r {
                Ok(None) => lex_comment(old(self).chars@, old(self).pos as int) == lex_token(
                    old(self).chars@,
                    final(self).pos as int,
                ) && final(self).pos > old(self).pos,
                Ok(Some((p, t))) => final(self).pos == lex_comment(old(self).chars@, old(self).pos as int).1
                    && (lex_comment(old(self).chars@, old(self).pos as int).0 matches Ok((sp, k))
                    && p == offset_at(old(self).chars@, sp) && token_matches(old(self).chars@, t, k)),
                Err(e) => final(self).pos == lex_comment(old(self).chars@, old(self).pos as int).1
                    && (lex_comment(old(self).chars@, old(self).pos as int).0 matches Err(se) && e
                    == error_at(old(self).chars@, se)),
            },
    {
        let ghost s = self.chars@;
        loop
            invariant
                self.wf(),
                self.chars@ == s,
                s == old(self).chars@,
                self.input == old(self).input,
                old(self).pos <= self.pos,
                lex_comment(s, old(self).pos as int) == lex_comment(s, self.pos as int),
            decreases s.len() - self.pos,
        {
            let chr_pos = self.offset;
            match self.eat_any_char() {
                None => {
                    return Ok(Some((self.offset, Token::Eof)));
                },
                Some(c) => {
                    if c == '\n' || c == '\r' {
                        return Ok(None);
                    } else if c == '\t' || (' ' <= c && c <= '~') {
                    } else {
                        return Err(ParseError::IllegalChrInComment { chr: c, pos: chr_pos });
                    }
                },
            }
        }
    }

    /// Reads the next token, skipping whitespace and comments; returns it with
    /// its byte offset.
    fn get_token(&mut self) -> (r: Result<(usize, Token<'a>), ParseError>)
        requires
            old(self).wf(),
        ensures
            final(self).wf(),
            final(self).chars@ == old(self).chars@,
            final(self).input == old(self).input,
            final(self).pos == lex_token(old(self).chars@, old(self).pos as int).1,
            match (r, lex_token(old(self).chars@, old(self).pos as int).0) {
                (Ok((p, t)), Ok((sp, k))) => p == offset_at(old(self).chars@, sp) && token_matches(
                    old(self).chars@,
                    t,
                    k,
                ),
                (Err(e), Err(se)) => e == error_at(old(self).chars@, se),
                _ => false,
            },
    {
        let ghost s = self.chars@;
        loop
            invariant
                self.wf(),
                self.chars@ == s,
                s == old(self).chars@,
                self.input == old(self).input,
                lex_token(s, old(self).pos as int) == lex_token(s, self.pos as int),
            decreases s.len() - self.pos,
        {
            let start = self.pos;
            let chr_pos = self.offset;
            if self.eat_char(' ') || self.eat_char('\t') || self.eat_char('\n') || self.eat_char(
                '\r',
            ) {
                // skip whitespace
            } else if self.eat_char(';') {
                match self.skip_comment() {
                    Ok(None) => {},
                    Ok(Some(eof)) => {
                        return Ok(eof);
                    },
                    Err(e) => {
                        return Err(e);
                    },
                }
            } else if self.eat_char('(') {
                return Ok((chr_pos, Token::LeftParen));
            } else if self.eat_char(')') {
                return Ok((chr_pos, Token::RightParen));
            } else if let Some(chr) = self.eat_any_char() {
                if is_atom_chr(chr) || chr == '"' {
                    match self.lex_atom(chr) {
                        Ok(_) => {},
                        Err(e) => {
                            return Err(e);
                        },
                    }
                    proof {
                        lemma_atom_end_start(s, start + 1, chr == '"');
                    }
                    let atom = self.input.substring_char(start, self.pos);
                    return Ok((chr_pos, Token::Atom(atom)));
                } else {
                    return Err(ParseError::IllegalChr { chr, pos: chr_pos });
                }
            } else {
                return Ok((self.offset, Token::Eof));
            }
        }
    }
}

proof fn lemma_atom_end_start(s: Seq<char>, j: int, in_string: bool)
    requires
        0 <= j <= s.len(),
    ensures
        j <= atom_end(s, j, in_string).1 <= s.len(),
        atom_end(s, j, in_string).0 matches Ok(e) ==> e == atom_end(s, j, in_string).1,
{
    lemma_atom_end_bounds(s, j, in_string);
}

impl<'a> Parser<'a> {
    /// Whether the parser is in a consistent state; every parser obtained from
    /// `new` and the methods below is.
    pub closed spec fn wf(&self) -> bool {
        &&& self.lexer.wf()
        &&& (self.state matches State::Parsing { depth } ==> depth < self.lexer.pos)
        &&& writer_phase(self.log@) == parser_phase(self.parser_state())
        &&& (self.position(), self.parser_state()) == parse_run(self.input(), self.tries@)
        &&& self.log@ == parse_run_events(self.input(), self.tries@)
        &&& forall|i: int, j: int|
            0 <= i < j < self.pos_log@.len() ==> (#[trigger] self.pos_log@[i]).0
                < (#[trigger] self.pos_log@[j]).0
        &&& forall|i: int|
            0 <= i < self.pos_log@.len() ==> (#[trigger] self.pos_log@[i]).0 < self.lexer.offset
    }

    /// The items read so far, as events.
    pub closed spec fn items_read(&self) -> Seq<WriteEvent> {
        self.log@
    }

    /// The positions of the items read so far.
    pub closed spec fn items_positions(&self) -> Seq<BytePos> {
        self.pos_log@
    }

    /// The number of calls of `next_item` so far, those that failed
    /// included.
    pub closed spec fn steps(&self) -> nat {
        self.tries@
    }

    /// The characters of the input.
    pub closed spec fn input(&self) -> Seq<char> {
        self.lexer.chars@
    }

    /// The index of the next character to read.
    pub closed spec fn position(&self) -> int {
        self.lexer.pos as int
    }

    /// Where the parser stands in the document.
    pub closed spec fn parser_state(&self) -> ParserState {
        match self.state {
            State::Beginning => ParserState::Beginning,
            State::Parsing { depth } => ParserState::Parsing(depth as nat),
            State::Finishing => ParserState::Finishing,
        }
    }

    /// A consistent parser's position lies within its input.
    pub proof fn lemma_position_bounds(&self)
        requires
            self.wf(),
        ensures
            0 <= self.position() <= self.input().len(),
    {
    }

    /// A consistent parser stands where its steps from the beginning of its
    /// input lead (see `parse_run`).
    pub proof fn lemma_steps_from_beginning(&self)
        requires
            self.wf(),
        ensures
            (self.position(), self.parser_state()) == parse_run(self.input(), self.steps()),
            self.items_read() == parse_run_events(self.input(), self.steps()),
    {
    }

    /// The byte offsets of the items read so far strictly increase, and each
    /// lies before the byte offset of the next character to read.
    pub proof fn lemma_item_offsets_increase(&self)
        requires
            self.wf(),
        ensures
            forall|i: int, j: int|
                0 <= i < j < self.items_positions().len() ==> (
                #[trigger] self.items_positions()[i]).0 < (#[trigger] self.items_positions()[j]).0,
            forall|i: int|
                0 <= i < self.items_positions().len() ==> (#[trigger] self.items_positions()[i]).0
                    < offset_at(self.input(), self.position()),
    {
    }

    /// Creates a parser that reads `data` from its beginning.
    pub fn new(data: &'a str) -> (p: Self)
        ensures
            p.wf(),
            p.input() == data@,
            p.position() == 0,
            p.parser_state() == ParserState::Beginning,
            p.items_read() == Seq::<WriteEvent>::empty(),
            p.items_positions() == Seq::<BytePos>::empty(),
            p.steps() == 0,
    {
        Self {
            lexer: Lexer::new(data),
            state: State::Beginning,
            log: Ghost(Seq::empty()),
            pos_log: Ghost(Seq::empty()),
            tries: Ghost(0),
        }
    }

    /// Reads the next item (see `next_item_step`). The root node must not be
    /// complete yet.
    pub fn next_item(&mut self) -> (r: Result<ParsedItem<'a>, ParseError>)
        requires
            old(self).wf(),
            !(old(self).parser_state() is Finishing),
        ensures
            final(self).wf(),
            ({
                let (res, next, st) = next_item_step(
                    old(self).input(),
                    old(self).position(),
                    old(self).parser_state(),
                );
                &&& final(self).input() == old(self).input()
                &&& final(self).steps() == old(self).steps() + 1
                &&& final(self).position() == next
                &&& final(self).parser_state() == st
                &&& match (r, res) {
                    (Ok(item), Ok((p, k))) => item_matches(old(self).input(), item, p, k),
                    (Err(e), Err(se)) => e == error_at(old(self).input(), se),
                    _ => false,
                }
            }),
            match r {
                Ok(item) => {
                    &&& final(self).items_read() == old(self).items_read().push(parsed_event(item))
                    &&& final(self).items_positions() == old(self).items_positions().push(
                        BytePos(parsed_pos(item)),
                    )
                },
                Err(_) => final(self).items_read() == old(self).items_read()
                    && final(self).items_positions() == old(self).items_positions(),
            },
            r matches Ok(item) ==> item_in_bytes(vstd::utf8::encode_utf8(old(self).input()), item),
    {
        self.tries = Ghost(self.tries@ + 1);
        proof {
            lemma_lex_token_bounds(self.lexer.chars@, self.lexer.pos as int);
            lemma_byte_offset_mono(
                self.lexer.chars@,
                self.lexer.pos as int,
                lex_token(self.lexer.chars@, self.lexer.pos as int).1,
            );
        }
        let (pos, token) = match self.lexer.get_token() {
            Ok(t) => t,
            Err(e) => {
                return Err(e);
            },
        };
        let ghost log0 = self.log@;
        let item = match self.state {
            State::Beginning => {
                match token {
                    Token::Eof => {
                        return Err(ParseError::UnexpectedEof { pos });
                    },
                    Token::LeftParen => {
                        self.state = State::Parsing { depth: 0 };
                        ParsedItem::ListStart(pos)
                    },
                    Token::RightParen => {
                        return Err(ParseError::UnexpectedRightParen { pos });
                    },
                    Token::Atom(atom) => {
                        self.state = State::Finishing;
                        ParsedItem::Atom(atom, pos)
                    },
                }
            },
            State::Parsing { depth } => {
                match token {
                    Token::Eof => {
                        return Err(ParseError::UnexpectedEof { pos });
                    },
                    Token::LeftParen => {
                        self.state = State::Parsing { depth: depth + 1 };
                        ParsedItem::ListStart(pos)
                    },
                    Token::RightParen => {
                        if depth == 0 {
                            self.state = State::Finishing;
                        } else {
                            self.state = State::Parsing { depth: depth - 1 };
                        }
                        ParsedItem::ListEnd(pos)
                    },
                    Token::Atom(atom) => ParsedItem::Atom(atom, pos),
                }
            },
            State::Finishing => {
                return Err(ParseError::ExpectedEof { pos });
            },
        };
        proof {
            let s = old(self).lexer.chars@;
            let p0 = old(self).lexer.pos as int;
            let sp = lex_token(s, p0).0->Ok_0.0;
            let nx = lex_token(s, p0).1;
            lemma_byte_offset_mono(s, p0, sp);
            lemma_byte_offset_step(s, sp);
            lemma_byte_offset_mono(s, sp + 1, nx);
            lemma_byte_offset_mono(s, sp, s.len() as int);
            assert(parsed_pos(item) == offset_at(s, sp));
            lemma_lex_token_text(s, p0);
            let bytes = vstd::utf8::encode_utf8(s);
            match item {
                ParsedItem::Atom(a, _) => {
                    let y = lex_token(s, p0).0->Ok_0.1->Atom_1;
                    lemma_bytes_of_part(s, sp, y);
                    assert(a@ == s.subrange(sp, y));
                    assert(is_valid_atom(a@));
                    assert(offset_at(s, sp) == byte_offset(s, sp));
                },
                _ => {
                    lemma_bytes_of_part(s, sp, sp + 1);
                    let c = s[sp];
                    assert(s.subrange(sp, sp + 1) =~= seq![c]);
                    assert(seq![c].drop_first() =~= Seq::<char>::empty());
                    assert(vstd::utf8::encode_utf8(Seq::<char>::empty()) =~= Seq::<u8>::empty());
                    assert(vstd::utf8::encode_utf8(seq![c]) =~= vstd::utf8::encode_scalar(c as u32));
                    assert(bytes[offset_at(s, sp) as int] == vstd::utf8::encode_utf8(seq![c])[0]);
                    assert(c == '(' || c == ')');
                    assert((0x28u32 & 0x7Fu32) == 0x28u32 && (0x29u32 & 0x7Fu32) == 0x29u32)
                        by (bit_vector);
                },
            }
            assert(item_in_bytes(bytes, item));
        }
        self.log = Ghost(self.log@.push(parsed_event(item)));
        self.pos_log = Ghost(self.pos_log@.push(BytePos(parsed_pos(item))));
        proof {
            assert(self.log@.drop_last() =~= log0);
            let s = self.lexer.chars@;
            let n0 = old(self).tries@;
            assert(parse_run(s, n0) == (old(self).position(), old(self).parser_state()));
            let k = parse_step_result(s, n0)->Ok_0.1;
            assert(parsed_event(item) == step_event(s, k));
            assert(self.log@ =~= parse_run_events(s, n0) + seq![step_event(s, k)]);
        }
        Ok(item)
    }

    /// Finishes parsing: only whitespace and comments may follow the root
    /// node (see `finish_step`). The root node must be complete.
    pub fn finish(self) -> (r: Result<(), ParseError>)
        requires
            self.wf(),
            self.parser_state() is Finishing,
        ensures
            match finish_step(self.input(), self.position()) {
                Ok(()) => r is Ok,
                Err(se) => r == Err::<(), ParseError>(error_at(self.input(), se)),
            },
    {
        let mut lexer = self.lexer;
        match lexer.get_token() {
            Ok((pos, token)) => match token {
                Token::Eof => Ok(()),
                _ => Err(ParseError::ExpectedEof { pos }),
            },
            Err(e) => Err(e),
        }
    }
}

impl<'a> Reader for Parser<'a> {
    type Error = ParseError;
    type String = &'a str;
    type Pos = BytePos;

    open spec fn wf(&self) -> bool {
        Parser::wf(self)
    }

    open spec fn consumed(&self) -> Seq<WriteEvent> {
        self.items_read()
    }

    open spec fn positions(&self) -> Seq<BytePos> {
        self.items_positions()
    }

    open spec fn bound(&self) -> nat {
        (self.input().len() - self.position()) as nat
    }

    open spec fn infallible() -> bool {
        false
    }

    open spec fn next_error(&self) -> Option<Self::Error> {
        match next_item_step(self.input(), self.position(), self.parser_state()).0 {
            Err(se) => Some(error_at(self.input(), se)),
            Ok(_) => None,
        }
    }

    open spec fn next_read(&self) -> Option<(WriteEvent, BytePos)> {
        match next_item_step(self.input(), self.position(), self.parser_state()).0 {
            Ok((p, k)) => Some(
                (
                    match k {
                        ItemKind::Atom(x, y) => WriteEvent::Atom(self.input().subrange(x, y)),
                        ItemKind::ListStart => WriteEvent::BeginList,
                        ItemKind::ListEnd => WriteEvent::EndList,
                    },
                    BytePos(offset_at(self.input(), p)),
                ),
            ),
            Err(_) => None,
        }
    }

    open spec fn same_source(&self, other: &Self) -> bool {
        self.input() == other.input()
    }

    proof fn lemma_same_source(a: &Self, b: &Self, c: &Self) {
    }

    open spec fn reads(&self) -> nat {
        self.steps()
    }

    open spec fn ends_list_next(&self) -> bool {
        next_item_step(self.input(), self.position(), self.parser_state()).0 matches Ok(
            (_, ItemKind::ListEnd),
        )
    }

    fn read(&mut self) -> (r: Result<ReadItem<&'a str, BytePos>, ParseError>)
        ensures
            ({
                let (res, next, st) = next_item_step(
                    old(self).input(),
                    old(self).position(),
                    old(self).parser_state(),
                );
                &&& final(self).input() == old(self).input()
                &&& match (r, res) {
                    (Ok(item), Ok((p, k))) => item.pos == BytePos(offset_at(old(self).input(), p))
                        && final(self).position() == next && final(self).parser_state() == st
                        && match k {
                        ItemKind::Atom(x, y) => item.kind matches ReadItemKind::Atom(a) && a@
                            == old(self).input().subrange(x, y),
                        ItemKind::ListStart => item.kind is ListBeginning,
                        ItemKind::ListEnd => item.kind is ListEnding,
                    },
                    (Err(e), Err(se)) => e == error_at(old(self).input(), se),
                    _ => false,
                }
            }),
    {
        proof {
            lemma_lex_token_bounds(self.lexer.chars@, self.lexer.pos as int);
        }
        match self.next_item() {
            Ok(ParsedItem::Atom(atom, pos)) => Ok(
                ReadItem { pos: BytePos(pos), kind: ReadItemKind::Atom(atom) },
            ),
            Ok(ParsedItem::ListStart(pos)) => Ok(
                ReadItem { pos: BytePos(pos), kind: ReadItemKind::ListBeginning },
            ),
            Ok(ParsedItem::ListEnd(pos)) => Ok(
                ReadItem { pos: BytePos(pos), kind: ReadItemKind::ListEnding },
            ),
            Err(e) => Err(e),
        }
    }

    fn finish(self) -> (r: Result<(), ParseError>)
        ensures
            match finish_step(self.input(), self.position()) {
                Ok(()) => r is Ok,
                Err(se) => r == Err::<(), ParseError>(error_at(self.input(), se)),
            },
    {
        Parser::finish(self)
    }
}

} // verus!
