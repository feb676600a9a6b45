//! The byte decoder reads the grammar of `syntax`: on the characters of its
//! bytes it finds the same tokens as `lex_token`, and it reads the same tree
//! as `read_tree`, wherever no limit and no line or column count stops it.
use vstd::prelude::*;

use crate::decoder::{
    after_cr, byte_chars, decode, decode_end, decode_items, is_comment_byte, lex_bytes,
    lemma_lex_bytes_bounds, next_column, next_line, ByteLexState, ByteToken, Cursor, Limits,
    OpenList, add_item,
};
use crate::pos::Pos;
use crate::syntax::{
    atom_end, compact_text, finish_step, is_valid_tree, lemma_compact_roundtrip, lex_comment,
    lex_token, read_items, read_tree, add_to_innermost, ParserState,
    SyntaxError, TokenKind,
};
use crate::tree::NodeValue;
use crate::util::{spec_is_atom_chr, spec_is_atom_string_chr};

verus! {

/// Whether the lines and columns of the rest of `data` from `c` can be
/// counted: each character moves the line or the column by one.
pub open spec fn cursor_fits(data: Seq<u8>, c: Cursor) -> bool {
    &&& c.line + (data.len() - c.index) <= u32::MAX
    &&& c.column + (data.len() - c.index) <= u32::MAX
}

/// Whether a byte token and a character token are the same token.
pub open spec fn tokens_agree(bt: ByteToken, k: TokenKind) -> bool {
    match (bt, k) {
        (ByteToken::Eof, TokenKind::Eof) => true,
        (ByteToken::LeftParen, TokenKind::LeftParen) => true,
        (ByteToken::RightParen, TokenKind::RightParen) => true,
        (ByteToken::Atom(a, b), TokenKind::Atom(x, y)) => a == x && b == y,
        _ => false,
    }
}

/// Whether the byte lexer, from cursor `c` in state `st`, and the
/// character lexer's result `r` agree: both fail, or both find the same
/// token and stop at the same index.
pub open spec fn lex_agrees(
    data: Seq<u8>,
    c: Cursor,
    st: ByteLexState,
    max: usize,
    r: (Result<(int, TokenKind), SyntaxError>, int),
) -> bool {
    let (t, n) = lex_bytes(data, c, st, max);
    match (t, r.0) {
        (Ok((_, bt)), Ok((_, k))) => tokens_agree(bt, k) && n.index == r.1 && cursor_fits(data, n),
        (Err(_), Err(_)) => true,
        _ => false,
    }
}

proof fn lemma_column_fits(data: Seq<u8>, c: Cursor)
    requires
        0 <= c.index < data.len(),
        cursor_fits(data, c),
    ensures
        next_column(c, c.index + 1) == Ok::<Cursor, crate::decoder::Error>(
            Cursor { index: c.index + 1, line: c.line, column: (c.column + 1) as u32 },
        ),
        cursor_fits(data, Cursor { index: c.index + 1, line: c.line, column: (c.column + 1) as u32 }),
{
}

proof fn lemma_line_fits(data: Seq<u8>, c: Cursor, k: int)
    requires
        0 <= c.index < k <= data.len(),
        cursor_fits(data, c),
    ensures
        next_line(c, k) == Ok::<Cursor, crate::decoder::Error>(
            Cursor { index: k, line: (c.line + 1) as u32, column: 0 },
        ),
        cursor_fits(data, Cursor { index: k, line: (c.line + 1) as u32, column: 0 }),
{
}

/// Inside an atom, the byte lexer ends the atom where `atom_end` does, or
/// fails where it does.
proof fn lemma_atom_lex_agrees(
    data: Seq<u8>,
    c: Cursor,
    p: Pos,
    start: int,
    in_string: bool,
    max: usize,
)
    requires
        0 <= start < c.index <= data.len(),
        cursor_fits(data, c),
        data.len() <= max,
    ensures
        ({
            let st = if in_string {
                ByteLexState::AtomString(p, start)
            } else {
                ByteLexState::Atom(p, start)
            };
            let (t, n) = lex_bytes(data, c, st, max);
            let (e, nx) = atom_end(byte_chars(data), c.index, in_string);
            match (t, e) {
                (Ok((q, bt)), Ok(end)) => q == p && bt == ByteToken::Atom(start, end) && n.index
                    == nx && end == nx && cursor_fits(data, n),
                (Err(_), Err(_)) => true,
                _ => false,
            }
        }),
    decreases data.len() - c.index,
{
    let s = byte_chars(data);
    let i = c.index;
    if i < data.len() {
        let b = data[i];
        assert(s[i] == b as char);
        let n = Cursor { index: i + 1, line: c.line, column: (c.column + 1) as u32 };
        lemma_column_fits(data, c);
        if in_string {
            if b == 0x22 {
                lemma_atom_lex_agrees(data, n, p, start, false, max);
            } else if b == 0x5c {
                let sb = ByteLexState::AtomStringBackslash(p, start);
                assert(lex_bytes(data, c, ByteLexState::AtomString(p, start), max) == lex_bytes(
                    data,
                    n,
                    sb,
                    max,
                ));
                if i + 1 < data.len() {
                    let b2 = data[i + 1];
                    assert(s[i + 1] == b2 as char);
                    if b2 == 0x22 || b2 == 0x5c || spec_is_atom_string_chr(b2 as char) {
                        let n2 = Cursor { index: i + 2, line: c.line, column: (c.column + 2) as u32 };
                        lemma_column_fits(data, n);
                        assert(lex_bytes(data, n, sb, max) == lex_bytes(
                            data,
                            n2,
                            ByteLexState::AtomString(p, start),
                            max,
                        ));
                        lemma_atom_lex_agrees(data, n2, p, start, true, max);
                    } else {
                        assert(lex_bytes(data, n, sb, max).0 is Err);
                    }
                } else {
                    assert(lex_bytes(data, n, sb, max).0 is Err);
                }
            } else if spec_is_atom_string_chr(b as char) {
                lemma_atom_lex_agrees(data, n, p, start, true, max);
            }
        } else {
            if b == 0x22 {
                lemma_atom_lex_agrees(data, n, p, start, true, max);
            } else if spec_is_atom_chr(b as char) {
                lemma_atom_lex_agrees(data, n, p, start, false, max);
            }
        }
    }
}

/// Between tokens, the byte lexer finds the token that `lex_token` finds,
/// or fails where it does.
proof fn lemma_lex_agrees(data: Seq<u8>, c: Cursor, max: usize)
    requires
        0 <= c.index <= data.len(),
        cursor_fits(data, c),
        data.len() <= max,
    ensures
        lex_agrees(data, c, ByteLexState::Beginning, max, lex_token(byte_chars(data), c.index)),
    decreases data.len() - c.index, 1int,
{
    let s = byte_chars(data);
    let i = c.index;
    if i < data.len() {
        let b = data[i];
        assert(s[i] == b as char);
        let n = Cursor { index: i + 1, line: c.line, column: (c.column + 1) as u32 };
        if b == 0x20 || b == 0x09 {
            lemma_column_fits(data, c);
            lemma_lex_agrees(data, n, max);
        } else if b == 0x0a {
            lemma_line_fits(data, c, i + 1);
            lemma_lex_agrees(data, Cursor { index: i + 1, line: (c.line + 1) as u32, column: 0 }, max);
        } else if b == 0x0d {
            let k = after_cr(data, i);
            lemma_line_fits(data, c, k);
            lemma_lex_agrees(data, Cursor { index: k, line: (c.line + 1) as u32, column: 0 }, max);
            if k == i + 2 {
                assert(s[i + 1] == data[i + 1] as char);
                assert(lex_token(s, i + 1) == lex_token(s, i + 2));
            }
        } else if b == 0x3b {
            lemma_column_fits(data, c);
            lemma_comment_lex_agrees(data, n, max);
        } else if b == 0x28 || b == 0x29 {
            lemma_column_fits(data, c);
        } else if b == 0x22 || spec_is_atom_chr(b as char) {
            lemma_column_fits(data, c);
            lemma_atom_lex_agrees(data, n, crate::decoder::cursor_pos(c), i, b == 0x22, max);
        }
    }
}

/// Inside a comment, the byte lexer finds the token that `lex_comment`
/// finds, or fails where it does.
proof fn lemma_comment_lex_agrees(data: Seq<u8>, c: Cursor, max: usize)
    requires
        0 <= c.index <= data.len(),
        cursor_fits(data, c),
        data.len() <= max,
    ensures
        lex_agrees(data, c, ByteLexState::Comment, max, lex_comment(byte_chars(data), c.index)),
    decreases data.len() - c.index, 0int,
{
    let s = byte_chars(data);
    let i = c.index;
    if i < data.len() {
        let b = data[i];
        assert(s[i] == b as char);
        if b == 0x0a {
            lemma_line_fits(data, c, i + 1);
            lemma_lex_agrees(data, Cursor { index: i + 1, line: (c.line + 1) as u32, column: 0 }, max);
        } else if b == 0x0d {
            let k = after_cr(data, i);
            lemma_line_fits(data, c, k);
            lemma_lex_agrees(data, Cursor { index: k, line: (c.line + 1) as u32, column: 0 }, max);
            if k == i + 2 {
                assert(s[i + 1] == data[i + 1] as char);
                assert(lex_token(s, i + 1) == lex_token(s, i + 2));
            }
        } else if is_comment_byte(b) {
            lemma_column_fits(data, c);
            lemma_comment_lex_agrees(
                data,
                Cursor { index: i + 1, line: c.line, column: (c.column + 1) as u32 },
                max,
            );
        }
    }
}

/// The items read so far in each list being read.
pub open spec fn frame_values(frames: Seq<OpenList>) -> Seq<Seq<NodeValue>> {
    Seq::new(frames.len(), |k: int| frames[k].items)
}

/// Whether fewer lists are open, and fewer items read in each, than `i`
/// characters have been read: neither count can reach a limit above the
/// length of the input.
pub open spec fn frames_within(frames: Seq<OpenList>, i: int) -> bool {
    &&& frames.len() <= i
    &&& forall|k: int| 0 <= k < frames.len() ==> #[trigger] frames[k].items.len() <= i
}

/// Whether no limit of `limits` can stop reading `data`.
pub open spec fn limits_above(data: Seq<u8>, limits: Limits) -> bool {
    &&& data.len() <= limits.atom_len_limit()
    &&& data.len() < limits.depth_limit()
    &&& data.len() < limits.list_len_limit()
}

/// Reading the rest of open lists: the byte decoder gives the value that
/// `read_items` gives, and stops where it does, or fails where it does.
proof fn lemma_decode_items_agrees(data: Seq<u8>, c: Cursor, frames: Seq<OpenList>, limits: Limits)
    requires
        frames.len() >= 1,
        0 <= c.index <= data.len(),
        cursor_fits(data, c),
        limits_above(data, limits),
        frames_within(frames, c.index),
    ensures
        ({
            let (res, next, st) = read_items(
                byte_chars(data),
                c.index,
                ParserState::Parsing((frames.len() - 1) as nat),
                frame_values(frames),
            );
            match (decode_items(data, c, frames, limits), res) {
                (Ok((v, _, c2)), Ok(w)) => v == w && c2.index == next && cursor_fits(data, c2)
                    && 0 <= c2.index <= data.len(),
                (Err(_), Err(_)) => true,
                _ => false,
            }
        }),
    decreases data.len() - c.index,
{
    let s = byte_chars(data);
    let max = limits.atom_len_limit();
    let d = (frames.len() - 1) as nat;
    let vals = frame_values(frames);
    lemma_lex_agrees(data, c, max);
    lemma_lex_bytes_bounds(data, c, ByteLexState::Beginning, max);
    crate::syntax::lemma_lex_token_bounds(s, c.index);
    let (t, n) = lex_bytes(data, c, ByteLexState::Beginning, max);
    let top = frames.last();
    assert(vals.len() == frames.len());
    assert(vals.last() == top.items);
    assert(top.items.len() <= c.index);
    match t {
        Err(_) => {},
        Ok((p, ByteToken::Eof)) => {},
        Ok((p, ByteToken::LeftParen)) => {
            let f2 = frames.push(OpenList { pos: p, items: Seq::empty(), children: Seq::empty() });
            assert(frame_values(f2) =~= vals.push(Seq::empty()));
            assert(frames_within(f2, n.index)) by {
                assert forall|k: int| 0 <= k < f2.len() implies #[trigger] f2[k].items.len() <= n.index by {
                    assert(n.index > c.index);
                    if k < frames.len() {
                        assert(f2[k] == frames[k]);
                        assert(frames[k].items.len() <= c.index);
                    }
                }
            }
            lemma_decode_items_agrees(data, n, f2, limits);
        },
        Ok((p, ByteToken::RightParen)) => {
            let v = NodeValue::List(top.items);
            assert(n.index > c.index);
            if frames.len() > 1 {
                let t2 = crate::decoder::PosTreeValue { pos: top.pos, children: top.children };
                let f2 = add_item(frames.drop_last(), v, t2);
                assert(frame_values(f2) =~= add_to_innermost(vals.drop_last(), NodeValue::List(vals.last())));
                assert(frames_within(f2, n.index)) by {
                    assert forall|k: int| 0 <= k < f2.len() implies #[trigger] f2[k].items.len() <= n.index by {
                        assert(frames[k].items.len() <= c.index);
                        if k == f2.len() - 1 {
                            assert(f2[k].items == frames[k].items.push(v));
                        } else {
                            assert(f2[k] == frames[k]);
                        }
                    }
                }
                lemma_decode_items_agrees(data, n, f2, limits);
            }
        },
        Ok((p, ByteToken::Atom(a, b))) => {
            let v = NodeValue::Atom(byte_chars(data.subrange(a, b)));
            assert(byte_chars(data.subrange(a, b)) =~= s.subrange(a, b));
            let f2 = add_item(frames, v, crate::decoder::PosTreeValue { pos: p, children: Seq::empty() });
            assert(frame_values(f2) =~= add_to_innermost(vals, NodeValue::Atom(s.subrange(a, b))));
            assert(frames_within(f2, n.index)) by {
                assert forall|k: int| 0 <= k < f2.len() implies #[trigger] f2[k].items.len() <= n.index by {
                    assert(frames[k].items.len() <= c.index);
                }
            }
            lemma_decode_items_agrees(data, n, f2, limits);
        },
    }
}

/// Ending a parse: the byte decoder accepts what follows the root node
/// exactly when `finish_step` does.
proof fn lemma_decode_end_agrees(
    data: Seq<u8>,
    c: Cursor,
    v: NodeValue,
    t: crate::decoder::PosTreeValue,
    limits: Limits,
)
    requires
        0 <= c.index <= data.len(),
        cursor_fits(data, c),
        limits_above(data, limits),
    ensures
        decode_end(data, c, v, t, limits) is Ok <==> finish_step(byte_chars(data), c.index) is Ok,
        decode_end(data, c, v, t, limits) is Ok ==> decode_end(data, c, v, t, limits)
            == Ok::<(NodeValue, crate::decoder::PosTreeValue), crate::decoder::Error>((v, t)),
{
    lemma_lex_agrees(data, c, limits.atom_len_limit());
}

/// The byte decoder reads the grammar of `syntax`: wherever no limit can
/// stop it and the lines and columns can be counted, it succeeds on bytes
/// exactly when `read_tree` reads a node from their characters and only
/// whitespace and comments follow, and then it gives that node.
pub proof fn lemma_decode_agrees_with_syntax(data: Seq<u8>, limits: Limits)
    requires
        limits_above(data, limits),
        data.len() <= u32::MAX,
    ensures
        ({
            let s = byte_chars(data);
            let (res, next, _) = read_tree(s, 0, ParserState::Beginning);
            &&& decode(data, limits) is Ok <==> (res is Ok && finish_step(s, next) is Ok)
            &&& decode(data, limits) matches Ok((v, _)) ==> res == Ok::<NodeValue, SyntaxError>(v)
        }),
{
    let s = byte_chars(data);
    let c0 = Cursor { index: 0, line: 0, column: 0 };
    let max = limits.atom_len_limit();
    lemma_lex_agrees(data, c0, max);
    lemma_lex_bytes_bounds(data, c0, ByteLexState::Beginning, max);
    let (t, n) = lex_bytes(data, c0, ByteLexState::Beginning, max);
    match t {
        Ok((p, ByteToken::LeftParen)) => {
            let frames = seq![OpenList { pos: p, items: Seq::empty(), children: Seq::empty() }];
            assert(frame_values(frames) =~= seq![Seq::<NodeValue>::empty()]);
            assert(frames_within(frames, n.index)) by {
                assert forall|k: int| 0 <= k < frames.len() implies #[trigger] frames[k].items.len() <= n.index by {
                    assert(frames[k] == frames[0]);
                }
            }
            lemma_decode_items_agrees(data, n, frames, limits);
            match decode_items(data, n, frames, limits) {
                Ok((v, pt, c)) => {
                    lemma_decode_end_agrees(data, c, v, pt, limits);
                },
                Err(_) => {},
            }
        },
        Ok((p, ByteToken::Atom(a, b))) => {
            assert(byte_chars(data.subrange(a, b)) =~= s.subrange(a, b));
            lemma_decode_end_agrees(
                data,
                n,
                NodeValue::Atom(byte_chars(data.subrange(a, b))),
                crate::decoder::PosTreeValue { pos: p, children: Seq::empty() },
                limits,
            );
        },
        _ => {},
    }
}

/// The byte decoder reads back the compact text of every tree whose atoms
/// are valid: bytes whose characters are that text decode to the tree,
/// wherever no limit can stop the decoder and the text fits on one line.
pub proof fn lemma_decode_compact(v: NodeValue, data: Seq<u8>, limits: Limits)
    requires
        is_valid_tree(v),
        byte_chars(data) == compact_text(v),
        limits_above(data, limits),
        data.len() <= u32::MAX,
    ensures
        decode(data, limits) matches Ok((w, _)) && w == v,
{
    lemma_compact_roundtrip(v);
    lemma_decode_agrees_with_syntax(data, limits);
}

} // verus!
